use throttlegear::diff::generate_unified_diff;
use throttlegear::limits::Limits;
use throttlegear::patch::{
    find_best_entry, parse_c_struct_limits, parse_line_field_and_val, update_existing_entry_in_place,
    Entry,
};
use throttlegear::patch_file::{author_identity, generate_patch_file, split_lines};
use throttlegear::strmap::StrMap;

#[test]
fn test_find_best_entry() {
    let entries = vec![
        Entry {
            board_name: Some("GU604V".to_string()),
            start_idx: 10,
            end_idx: 20,
        },
        Entry {
            board_name: Some("GU604".to_string()),
            start_idx: 30,
            end_idx: 40,
        },
        Entry {
            board_name: Some("G614PR".to_string()),
            start_idx: 50,
            end_idx: 60,
        },
    ];

    // Exact match
    let (entry, superseded) = find_best_entry(&entries, "G614PR");
    assert!(entry.is_some());
    assert_eq!(entry.unwrap().start_idx, 50);
    assert!(superseded.is_none());

    // Prefix match (superseded by GU604V)
    let (entry, superseded) = find_best_entry(&entries, "GU604VI");
    assert!(entry.is_some());
    assert_eq!(entry.unwrap().start_idx, 10);
    assert_eq!(superseded, Some("GU604V".to_string()));

    // Broader prefix match (superseded by GU604)
    let (entry, superseded) = find_best_entry(&entries, "GU604A");
    assert!(entry.is_some());
    assert_eq!(entry.unwrap().start_idx, 30);
    assert_eq!(superseded, Some("GU604".to_string()));

    // No match
    let (entry, superseded) = find_best_entry(&entries, "GU502");
    assert!(entry.is_none());
    assert!(superseded.is_none());
}

#[test]
fn test_update_existing_entry_in_place() {
    let existing = vec![
        "\t{".to_string(),
        "\t\t.matches = {".to_string(),
        "\t\t\tDMI_MATCH(DMI_BOARD_NAME, \"GU604V\"),".to_string(),
        "\t\t},".to_string(),
        "\t\t.driver_data = &(struct power_data) {".to_string(),
        "\t\t\t.ac_data = &(struct power_limits) {".to_string(),
        "\t\t\t\t.ppt_pl1_spl_min = 65,".to_string(),
        "\t\t\t\t.ppt_pl1_spl_max = 120,".to_string(),
        "\t\t\t},".to_string(),
        "\t\t\t.dc_data = &(struct power_limits) {".to_string(),
        "\t\t\t\t.ppt_pl1_spl_min = 25,".to_string(),
        "\t\t\t\t.ppt_pl1_spl_max = 40,".to_string(),
        "\t\t\t\t.ppt_pl2_sppt_def = 40,".to_string(),
        "\t\t\t},".to_string(),
        "\t\t},".to_string(),
        "\t},".to_string(),
    ];

    let mut new_ac: Limits = StrMap::new();
    new_ac.insert("ppt_pl1_spl_min".to_string(), 65); // identical
    new_ac.insert("ppt_pl1_spl_max".to_string(), 130); // modified

    let mut new_dc: Limits = StrMap::new();
    new_dc.insert("ppt_pl1_spl_min".to_string(), 25); // identical
    new_dc.insert("ppt_pl1_spl_max".to_string(), 40); // identical

    let updated = update_existing_entry_in_place(
        &existing,
        &new_ac,
        &new_dc,
        Some(true),
        Some("GU604V"),
    );

    // Verification:
    // 1. DMI match line preserved as GU604V
    assert!(updated.iter().any(|l| l.contains("DMI_MATCH(DMI_BOARD_NAME, \"GU604V\")")));
    // 2. AC pl1_spl_max updated to 130
    assert!(updated.iter().any(|l| l.contains(".ppt_pl1_spl_max = 130")));
    // 3. DC pl2_sppt_def preserved
    assert!(updated.iter().any(|l| l.contains(".ppt_pl2_sppt_def = 40")));
    // 4. requires_fan_curve appended
    assert!(updated.iter().any(|l| l.contains(".requires_fan_curve = true")));

    // Fields are updated where they stand; nothing is duplicated.
    assert_eq!(updated.len(), 17);
    assert_eq!(updated[..7], existing[..7]);
    assert_eq!(updated[7], "\t\t\t\t.ppt_pl1_spl_max = 130,");
    assert_eq!(updated[8..14], existing[8..14]);
    assert_eq!(updated[14], "\t\t\t.requires_fan_curve = true,");
    assert_eq!(updated[15..], existing[14..]);
}

#[test]
fn update_keeps_unchanged_lines_and_adds_missing_ones() {
    let existing: Vec<String> = [
        "\t{",
        "\t\t.matches = {",
        "\t\t\tDMI_MATCH(DMI_BOARD_NAME, \"GU604\"),",
        "\t\t},",
        "\t\t.driver_data = &(struct power_data) {",
        "\t\t\t.ac_data = &(struct power_limits) {",
        "\t\t\t\t.ppt_pl1_spl_min = 65, /* keep */",
        "\t\t\t\t.ppt_pl1_spl_max =70,",
        "\t\t\t},",
        "\t\t\t.requires_fan_curve = false,",
        "\t\t},",
        "\t},",
    ]
    .iter()
    .map(|s| s.to_string())
    .collect();
    let mut new_ac: Limits = StrMap::new();
    new_ac.insert("ppt_pl1_spl_min".to_string(), 65);
    new_ac.insert("ppt_pl1_spl_max".to_string(), 80);
    let new_dc: Limits = StrMap::new();
    let updated = update_existing_entry_in_place(&existing, &new_ac, &new_dc, Some(true), Some("GU604V"));
    let expected: Vec<String> = [
        "\t{",
        "\t\t.matches = {",
        "\t\t\tDMI_MATCH(DMI_BOARD_NAME, \"GU604V\"),",
        "\t\t},",
        "\t\t.driver_data = &(struct power_data) {",
        "\t\t\t.ac_data = &(struct power_limits) {",
        "\t\t\t\t.ppt_pl1_spl_min = 65, /* keep */",
        "\t\t\t\t.ppt_pl1_spl_max = 80,",
        "\t\t\t},",
        "\t\t\t.requires_fan_curve = true,",
        "\t\t},",
        "\t},",
    ]
    .iter()
    .map(|s| s.to_string())
    .collect();
    assert_eq!(updated, expected);
}

#[test]
fn field_and_value_lines() {
    assert_eq!(
        parse_line_field_and_val("\t\t\t\t.ppt_pl1_spl_min = 65,"),
        Some(("ppt_pl1_spl_min".to_string(), 65))
    );
    assert_eq!(parse_line_field_and_val(".x =-7,"), Some(("x".to_string(), -7)));
    assert_eq!(parse_line_field_and_val(".x =\t 12 /* c */"), Some(("x".to_string(), 12)));
    assert_eq!(parse_line_field_and_val("no dot here"), None);
    assert_eq!(parse_line_field_and_val(".no_equals"), None);
    assert_eq!(parse_line_field_and_val(".x = abc,"), None);
    assert_eq!(parse_line_field_and_val(".ac_data = &(struct power_limits) {"), None);
}

#[test]
fn limits_of_a_c_initializer() {
    let lines: Vec<String> = [
        "\t\t\t.ac_data = &(struct power_limits) {",
        "\t\t\t\t.ppt_pl1_spl_min = 65,",
        "\t\t\t},",
        "\t\t\t.dc_data = &(struct power_limits) {",
        "\t\t\t\t.ppt_pl1_spl_max = 40,",
        "\t\t\t},",
        "\t\t\t.requires_fan_curve = false,",
    ]
    .iter()
    .map(|s| s.to_string())
    .collect();
    let (ac, dc, fan) = parse_c_struct_limits(&lines);
    assert_eq!(ac.get("ppt_pl1_spl_min"), Some(&65));
    assert_eq!(ac.len(), 1);
    assert_eq!(dc.get("ppt_pl1_spl_max"), Some(&40));
    assert_eq!(dc.len(), 1);
    assert_eq!(fan, Some(false));
}

fn strings(v: &[&str]) -> Vec<String> {
    v.iter().map(|s| s.to_string()).collect()
}

#[test]
fn unified_diff_exact() {
    let a = strings(&["1", "2", "3", "4", "5", "6", "7", "8", "9"]);
    let b = strings(&["1", "2", "3", "4", "five", "6", "7", "8", "9"]);
    let (d, add, del) = generate_unified_diff(&a, &b, "f.h");
    assert_eq!(add, 1);
    assert_eq!(del, 1);
    assert_eq!(
        d,
        "--- a/f.h\n+++ b/f.h\n@@ -2,7 +2,7 @@\n 2\n 3\n 4\n-5\n+five\n 6\n 7\n 8"
    );
}

#[test]
fn unified_diff_of_equal_files_has_only_context() {
    let a = strings(&["x", "y"]);
    let (d, add, del) = generate_unified_diff(&a, &a, "f");
    assert_eq!((add, del), (0, 0));
    assert_eq!(d, "--- a/f\n+++ b/f\n@@ -1,2 +1,2 @@\n x\n y");
}

#[test]
fn split_lines_like_str_lines() {
    assert_eq!(split_lines(""), Vec::<String>::new());
    assert_eq!(split_lines("a\nb"), strings(&["a", "b"]));
    assert_eq!(split_lines("a\r\nb\n"), strings(&["a", "b"]));
    assert_eq!(split_lines("\n\nc\r"), strings(&["", "", "c\r"]));
    for s in ["x\ny\n\n", "\r\n", "abc", "a\n\r\n\rb"] {
        let expected: Vec<String> = s.lines().map(|l| l.to_string()).collect();
        assert_eq!(split_lines(s), expected);
    }
}

const HEADER: &str = "/* header */
static const struct dmi_system_id power_limits[] = {
\t{
\t\t.matches = {
\t\t\tDMI_MATCH(DMI_BOARD_NAME, \"FA507N\"),
\t\t},
\t\t.driver_data = &(struct power_data) {
\t\t\t.ac_data = &(struct power_limits) {
\t\t\t\t.ppt_pl1_spl_min = 15,
\t\t\t},
\t\t},
\t},
\t{
\t\t.matches = {
\t\t\tDMI_MATCH(DMI_BOARD_NAME, \"GU605M\"),
\t\t},
\t\t.driver_data = &(struct power_data) {
\t\t\t.requires_fan_curve = true,
\t\t},
\t},
\t{}
};
";

#[test]
fn patch_adds_a_new_entry_in_order() {
    let generated = "\t{\n\t\tX\n\t},";
    let plan = generate_patch_file(
        "G614PR",
        "Ryzen",
        generated,
        "Jane Doe <jane@example.com>",
        "Jane Doe <jane@example.com>",
        HEADER,
        "Mon, 01 Jan 2024 00:00:00 +0000",
    )
    .unwrap();
    assert!(plan.messages.is_empty());
    assert_eq!(
        plan.file_name,
        "0001-platform-x86-asus-armoury-add-power-limits-for-G614PR.patch"
    );
    let expected = "From 0000000000000000000000000000000000000000 Mon Sep 17 00:00:00 2001
From: Jane Doe <jane@example.com>
Date: Mon, 01 Jan 2024 00:00:00 +0000
Subject: [PATCH] platform/x86: asus-armoury: Add power limits quirk for G614PR

Add power limits quirk entry for ASUS ROG G614PR laptop.
The limits are extracted from the device's ThrottleGear XML configuration
file for the 'Ryzen' profile.

Assisted-by: ThrottleGear
Signed-off-by: Jane Doe <jane@example.com>
---
 drivers/platform/x86/asus-armoury.h | 3 +++
 1 file changed, 3 insertions(+)

--- a/drivers/platform/x86/asus-armoury.h
+++ b/drivers/platform/x86/asus-armoury.h
@@ -11,6 +11,9 @@
 \t\t},
 \t},
 \t{
+\t\tX
+\t},
+\t{
 \t\t.matches = {
 \t\t\tDMI_MATCH(DMI_BOARD_NAME, \"GU605M\"),
 \t\t},
-- 
2.54.0
";
    assert_eq!(plan.content, expected);
}

#[test]
fn patch_for_a_superseded_model_updates_the_prefix_entry() {
    let generated = "\t{\n\t\t.matches = {\n\t\t\tDMI_MATCH(DMI_BOARD_NAME, \"GU605MV\"),\n\t\t},\n\
                     \t\t.driver_data = &(struct power_data) {\n\
                     \t\t\t.ac_data = &(struct power_limits) {\n\t\t\t\t.ppt_pl1_spl_min =20,\n\t\t\t},\n\
                     \t\t\t.requires_fan_curve = true,\n\t\t},\n\t},";
    let plan = generate_patch_file("GU605MV", "Eng", generated, "A <a@b>", "A <a@b>", HEADER, "D").unwrap();
    assert_eq!(
        plan.messages,
        vec![
            "\n[INFO] Quirk for model 'GU605MV' is superseded by existing entry 'GU605M' in asus-armoury.h."
                .to_string(),
            "Differences compared to mainline:".to_string(),
            "  - AC limit 'ppt_pl1_spl_min': mainline has None, generated has Some(20)".to_string(),
        ]
    );
    assert!(plan
        .content
        .contains("Subject: [PATCH] platform/x86: asus-armoury: Update power limits quirk for GU605M\n"));
    assert!(plan.content.contains("Update power limits quirk entry for ASUS ROG GU605M laptop."));
    assert!(!plan.content.contains("GU605MV"));
    assert_eq!(plan.file_name, "0001-platform-x86-asus-armoury-add-power-limits-for-GU605MV.patch");
}

#[test]
fn patch_for_an_existing_model_reports_fan_difference() {
    let generated = "\t{\n\t\t.matches = {\n\t\t\tDMI_MATCH(DMI_BOARD_NAME, \"FA507N\"),\n\t\t},\n\
                     \t\t.driver_data = &(struct power_data) {\n\
                     \t\t\t.ac_data = &(struct power_limits) {\n\t\t\t\t.ppt_pl1_spl_min = 15,\n\t\t\t},\n\
                     \t\t\t.requires_fan_curve = true,\n\t\t},\n\t},";
    let plan = generate_patch_file("FA507N", "Eng", generated, "A", "A", HEADER, "D").unwrap();
    assert_eq!(
        plan.messages,
        vec![
            "\n[INFO] Quirk for model 'FA507N' already exists in asus-armoury.h.".to_string(),
            "Differences compared to mainline:".to_string(),
            "  - requires_fan_curve: mainline has None, generated has Some(true)".to_string(),
        ]
    );
    assert!(plan.content.contains("\n+\t\t\t.requires_fan_curve = true,\n"));
    assert!(plan.content.contains(" 1 file changed, 1 insertions(+)\n"));
}

#[test]
fn patch_for_an_identical_entry_reports_no_difference() {
    let generated = "\t{\n\t\t.matches = {\n\t\t\tDMI_MATCH(DMI_BOARD_NAME, \"GU605M\"),\n\t\t},\n\
                     \t\t.driver_data = &(struct power_data) {\n\
                     \t\t\t.requires_fan_curve = true,\n\t\t},\n\t},";
    let plan = generate_patch_file("GU605M", "Eng", generated, "A", "A", HEADER, "D").unwrap();
    assert_eq!(
        plan.messages,
        vec![
            "\n[INFO] Quirk for model 'GU605M' already exists in asus-armoury.h.".to_string(),
            "No differences found compared to mainline.".to_string(),
        ]
    );
    assert!(plan.content.contains("\n 0 files changed\n"));
    assert!(plan.content.contains(" drivers/platform/x86/asus-armoury.h | 0 \n"));
}

#[test]
fn patch_errors() {
    assert_eq!(
        generate_patch_file("M", "P", "", "A", "A", "no table here\n", "D").err().unwrap(),
        "Could not find power_limits table in asus-armoury.h"
    );
    assert_eq!(
        generate_patch_file(
            "M",
            "P",
            "",
            "A",
            "A",
            "static const struct dmi_system_id power_limits[] = {\n\t{\n\t},\n",
            "D"
        )
        .err()
        .unwrap(),
        "Could not find end of power_limits table in asus-armoury.h"
    );
}

#[test]
fn new_entries_go_in_alphabetical_order() {
    // "A000" sorts before both boards: it goes before the first entry.
    let plan = generate_patch_file("A000", "P", "\t{\n\t\tNEW\n\t},", "A", "A", HEADER, "D").unwrap();
    assert!(plan.content.contains("@@ -1,6 +1,9 @@\n /* header */\n static const struct dmi_system_id power_limits[] = {\n \t{\n+\t\tNEW\n+\t},\n+\t{\n"));
    // "ZZ" sorts after both: it goes at the end of the table, before `};`.
    let plan = generate_patch_file("ZZ", "P", "\t{ZZ},", "A", "A", HEADER, "D").unwrap();
    assert!(plan.content.contains(" \t{}\n+\t{ZZ},\n };\n"));
}

#[test]
fn update_with_nothing_new_keeps_the_entry() {
    let existing: Vec<String> = HEADER.lines().skip(2).take(10).map(|s| s.to_string()).collect();
    let empty: Limits = StrMap::new();
    let updated = update_existing_entry_in_place(&existing, &empty, &empty, None, None);
    assert_eq!(updated, existing);
}

#[test]
fn diff_hunk_rebuilds_both_files() {
    let a = strings(&["a", "b", "c", "d", "e", "f", "g", "h"]);
    let b = strings(&["a", "b", "c", "X", "Y", "f", "g", "h", "i"]);
    let (d, add, del) = generate_unified_diff(&a, &b, "f");
    let body: Vec<&str> = d.lines().skip(3).collect();
    let old: Vec<String> = body
        .iter()
        .filter(|l| l.starts_with(' ') || l.starts_with('-'))
        .map(|l| l[1..].to_string())
        .collect();
    let new: Vec<String> = body
        .iter()
        .filter(|l| l.starts_with(' ') || l.starts_with('+'))
        .map(|l| l[1..].to_string())
        .collect();
    assert_eq!(d.lines().nth(2).unwrap(), "@@ -1,8 +1,9 @@");
    assert_eq!(old, a);
    assert_eq!(new, b);
    assert_eq!((add, del), (6, 5));
}

#[test]
fn author_identity_trims_angle_brackets() {
    assert_eq!(author_identity("Jane Doe", "jane@example.com"), "Jane Doe <jane@example.com>");
    assert_eq!(author_identity("Jane Doe", "<jane@example.com>"), "Jane Doe <jane@example.com>");
    assert_eq!(author_identity("J", "><a<b>>"), "J <a<b>");
    assert_eq!(author_identity("J", "<>"), "J <>");
}
