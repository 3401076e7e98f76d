use throttlegear::c_struct::{c_struct_fits, generate_c_struct};
use throttlegear::limits::{extract_cpu_limits, extract_gpu_limits, validate_limits, Limits};
use throttlegear::strmap::StrMap;
use throttlegear::xml_parse::parse_xml_str;

const SAMPLE: &str = "<ThrottlePluginConfig ModelName=\"G614PR\">\
<Ryzen>\
<ThrottlePluginCPUSettings><OverclockItems>\
<STAPM IsEnabled=\"True\" LowerLimit=\"15\" UpperLimit=\"80\" Manual=\"65\" DCLowerLimit=\"15\" DCUpperLimit=\"45\" DCManual=\"45\"/>\
<PPTLimit IsEnabled=\"False\" LowerLimit=\"1\" UpperLimit=\"2\"/>\
</OverclockItems></ThrottlePluginCPUSettings>\
<ThrottlePluginGPUSettings><NonSLIOverclockItems>\
<NBThermalTarget IsEnabled=\"True\" LowerLimit=\"75\" UpperLimit=\"87\" DCLowerLimit=\"70\" DCUpperLimit=\"80\"/>\
<DynamicBoost IsEnabled=\"True\" LowerLimit=\"5\" UpperLimit=\"25\"/>\
</NonSLIOverclockItems>\
<NonSLITGPItems><TGPItem IsEnabled=\"True\" Level0=\"0\" Level1=\"30\" Level2=\"-10\"/></NonSLITGPItems>\
</ThrottlePluginGPUSettings>\
</Ryzen>\
</ThrottlePluginConfig>";

fn entries(l: &Limits) -> Vec<(String, i32)> {
    (0..l.len()).map(|i| (l.key_at(i).clone(), *l.value_at(i))).collect()
}

#[test]
fn cpu_limits_from_overclock_items() {
    let root = parse_xml_str(SAMPLE).unwrap();
    let cpu = root.find_child_recursive("ThrottlePluginCPUSettings").unwrap();
    let ac = extract_cpu_limits(cpu, false);
    assert_eq!(
        entries(&ac),
        vec![
            ("ppt_pl1_spl_def".to_string(), 65),
            ("ppt_pl1_spl_max".to_string(), 80),
            ("ppt_pl1_spl_min".to_string(), 15),
        ]
    );
    // On DC the default equals the maximum and is left out.
    let dc = extract_cpu_limits(cpu, true);
    assert_eq!(
        entries(&dc),
        vec![("ppt_pl1_spl_max".to_string(), 45), ("ppt_pl1_spl_min".to_string(), 15)]
    );
}

#[test]
fn gpu_limits_add_level_offsets_to_base_tgp() {
    let root = parse_xml_str(SAMPLE).unwrap();
    let gpu = root.find_child_recursive("ThrottlePluginGPUSettings").unwrap();
    let ac = extract_gpu_limits(gpu, 55, false);
    assert_eq!(ac.get("nv_tgp_min"), Some(&45));
    assert_eq!(ac.get("nv_tgp_max"), Some(&85));
    assert_eq!(ac.get("nv_dynamic_boost_max"), Some(&25));
    assert_eq!(ac.get("nv_temp_target_min"), Some(&75));
    let dc = extract_gpu_limits(gpu, 55, true);
    assert_eq!(
        entries(&dc),
        vec![("nv_temp_target_max".to_string(), 80), ("nv_temp_target_min".to_string(), 70)]
    );
}

#[test]
fn c_struct_for_single_profile() {
    let root = parse_xml_str(SAMPLE).unwrap();
    assert!(c_struct_fits(&root, None, 55));
    let (text, used, notes) = generate_c_struct(&root, None, 55, true).unwrap();
    assert_eq!(used, "Ryzen");
    assert!(notes.is_empty());
    let expected = [
        "\t{",
        "\t\t.matches = {",
        "\t\t\tDMI_MATCH(DMI_BOARD_NAME, \"G614PR\"),",
        "\t\t},",
        "\t\t.driver_data = &(struct power_data) {",
        "\t\t\t.ac_data = &(struct power_limits) {",
        "\t\t\t\t.nv_dynamic_boost_max = 25,",
        "\t\t\t\t.nv_dynamic_boost_min = 5,",
        "\t\t\t\t.nv_temp_target_max = 87,",
        "\t\t\t\t.nv_temp_target_min = 75,",
        "\t\t\t\t.nv_tgp_max = 85,",
        "\t\t\t\t.nv_tgp_min = 45,",
        "\t\t\t\t.ppt_pl1_spl_def = 65,",
        "\t\t\t\t.ppt_pl1_spl_max = 80,",
        "\t\t\t\t.ppt_pl1_spl_min = 15,",
        "\t\t\t},",
        "\t\t\t.dc_data = &(struct power_limits) {",
        "\t\t\t\t.nv_temp_target_max = 80,",
        "\t\t\t\t.nv_temp_target_min = 70,",
        "\t\t\t\t.ppt_pl1_spl_max = 45,",
        "\t\t\t\t.ppt_pl1_spl_min = 15,",
        "\t\t\t},",
        "\t\t\t.requires_fan_curve = true,",
        "\t\t},",
        "\t},",
    ]
    .join("\n");
    assert_eq!(text, expected);

    let (text, _, _) = generate_c_struct(&root, Some("Ryzen"), 55, false).unwrap();
    assert!(text.contains("\t\t\t.requires_fan_curve = false,"));
}

#[test]
fn c_struct_errors() {
    let root = parse_xml_str(SAMPLE).unwrap();
    assert_eq!(
        generate_c_struct(&root, Some("Eng"), 55, true).unwrap_err(),
        "Profile 'Eng' not found in XML. Available profiles: Ryzen"
    );
    let bare = parse_xml_str("<R/>").unwrap();
    assert_eq!(
        generate_c_struct(&bare, None, 55, true).unwrap_err(),
        "ModelName missing from XML attributes"
    );
}

#[test]
fn c_struct_with_several_profiles_warns_and_takes_first() {
    let xml = "<R ModelName=\"M\"><A><ThrottlePluginCPUSettings/></A><B><ThrottlePluginGPUSettings/></B></R>";
    let root = parse_xml_str(xml).unwrap();
    let (text, used, notes) = generate_c_struct(&root, None, 55, true).unwrap();
    assert_eq!(used, "A");
    assert_eq!(
        notes,
        vec!["Warning: Multiple profiles found in XML: A, B. Defaulting to 'A'. Use -p/--profile to specify."
            .to_string()]
    );
    assert!(!text.contains(".ac_data"));
    assert!(!text.contains(".dc_data"));
}

#[test]
fn c_struct_without_profiles_reads_root_and_reports_warnings() {
    let xml = "<R ModelName=\"M\"><ThrottlePluginGPUSettings><NonSLITGPItems>\
               <TGPItem IsEnabled=\"True\" Level0=\"5\"/></NonSLITGPItems></ThrottlePluginGPUSettings></R>";
    let root = parse_xml_str(xml).unwrap();
    let (text, used, notes) = generate_c_struct(&root, None, 10, true).unwrap();
    // The settings element finds itself, so it counts as a profile.
    assert_eq!(used, "ThrottlePluginGPUSettings");
    assert!(text.contains("\t\t\t\t.nv_tgp_max = 15,"));
    assert_eq!(
        notes,
        vec!["Warning: GPU base TGP (10W) is outside the typical notebook range (30W-200W).".to_string()]
    );
}

#[test]
fn c_struct_without_any_profile_is_default() {
    let root = parse_xml_str("<R ModelName=\"M\">text</R>").unwrap();
    let (text, used, notes) = generate_c_struct(&root, None, 55, true).unwrap();
    assert_eq!(used, "Default");
    assert!(notes.is_empty());
    assert!(text.ends_with("\t\t\t.requires_fan_curve = true,\n\t\t},\n\t},"));
}

#[test]
fn tgp_overflow_is_detected() {
    let xml = "<R ModelName=\"M\"><ThrottlePluginGPUSettings><NonSLITGPItems>\
               <TGPItem IsEnabled=\"True\" Level0=\"2147483647\"/></NonSLITGPItems></ThrottlePluginGPUSettings></R>";
    let root = parse_xml_str(xml).unwrap();
    assert!(!c_struct_fits(&root, None, 55));
    assert!(c_struct_fits(&root, None, 0));
}

#[test]
fn validate_limits_reports_each_problem() {
    let mut ac: Limits = StrMap::new();
    ac.insert("ppt_pl1_spl_min".to_string(), 90);
    ac.insert("ppt_pl1_spl_max".to_string(), 80);
    ac.insert("nv_temp_target_max".to_string(), 120);
    ac.insert("nv_tgp_max".to_string(), -5);
    let mut dc: Limits = StrMap::new();
    dc.insert("ppt_pl2_sppt_min".to_string(), 10);
    dc.insert("ppt_pl2_sppt_max".to_string(), 20);
    dc.insert("ppt_pl2_sppt_def".to_string(), 30);
    let w = validate_limits(&ac, &dc, 10);
    assert_eq!(
        w,
        vec![
            "GPU base TGP (10W) is outside the typical notebook range (30W-200W).".to_string(),
            "[AC] Temperature target nv_temp_target_max (120°C) is outside realistic range (0°C-100°C).".to_string(),
            "[AC] nv_tgp_max has a negative value (-5).".to_string(),
            "[AC] GPU TGP nv_tgp_max (-5W) is outside typical range (0W-500W).".to_string(),
            "[AC] Min limit ppt_pl1_spl_min (90) is greater than max limit ppt_pl1_spl_max (80).".to_string(),
            "[DC] Default limit ppt_pl2_sppt_def (30) is outside [min, max] range [10, 20].".to_string(),
        ]
    );
    let empty: Limits = StrMap::new();
    assert!(validate_limits(&empty, &empty, 55).is_empty());
}

#[test]
fn strmap_insert_then_get() {
    let mut m: Limits = StrMap::new();
    m.insert("b".to_string(), 1);
    m.insert("a".to_string(), 2);
    m.insert("b".to_string(), 3);
    assert_eq!(m.len(), 2);
    assert_eq!(m.get("b"), Some(&3));
    assert_eq!(m.get("a"), Some(&2));
    assert_eq!(m.get("c"), None);
    assert!(m.contains_key("a"));
    assert_eq!(m.key_at(0), "a");
}

#[test]
fn intel_pl1_pl2_items() {
    let xml = "<C><OverclockItems>\
               <PL1 IsEnabled=\"True\" LowerLimit=\"20\" UpperLimit=\"110\" Manual=\"90\"/>\
               <PL2 IsEnabled=\"True\" LowerLimit=\"30\" UpperLimit=\"140\" Manual=\"140\"/>\
               </OverclockItems></C>";
    let cpu = parse_xml_str(xml).unwrap();
    let ac = extract_cpu_limits(&cpu, false);
    assert_eq!(
        entries(&ac),
        vec![
            ("ppt_pl1_spl_def".to_string(), 90),
            ("ppt_pl1_spl_max".to_string(), 110),
            ("ppt_pl1_spl_min".to_string(), 20),
            ("ppt_pl2_sppt_max".to_string(), 140),
            ("ppt_pl2_sppt_min".to_string(), 30),
        ]
    );
    assert!(extract_cpu_limits(&cpu, true).is_empty());
}
