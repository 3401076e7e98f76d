//! Power and thermal limits read from the CPU and GPU settings of a
//! ThrottleGear profile, and their sanity checks.

use vstd::prelude::*;
use crate::strmap::{lemma_map_insert_get, map_get, map_insert, StrMap};
use crate::text::{
    chars_contains_str, chars_starts_with, chars_to_string, contains, int_text, parse_i32,
    parse_i32_str, push_all, push_i64, push_line, push_str, starts_with, str_chars, strings_view,
};
use crate::xml::{find_elem, ElemModel, XmlElement};

verus! {

broadcast use vstd::string::group_string_axioms;

/// Limits keyed by kernel field name, e.g. `ppt_pl1_spl_min`.
pub type Limits = StrMap<i32>;

// ---------------------------------------------------------------------------
// Reading limits from XML
// ---------------------------------------------------------------------------

/// An attribute parsed as `i32`, or `0` when it is missing or does not parse.
pub open spec fn attr_int(e: ElemModel, name: Seq<char>) -> i32 {
    match map_get(e.attrs, name) {
        Some(v) => match parse_i32(v) {
            Some(x) => x,
            None => 0,
        },
        None => 0,
    }
}

/// `IsEnabled="True"`.
pub open spec fn enabled(e: ElemModel) -> bool {
    map_get(e.attrs, "IsEnabled"@) == Some("True"@)
}

/// The attribute name prefix of battery (DC) values.
pub open spec fn dc_prefix(dc: bool) -> Seq<char> {
    if dc {
        "DC"@
    } else {
        seq![]
    }
}

/// Adds `field_min`, `field_def` (when it differs from the maximum and is not
/// zero) and `field_max` from the item `tag` under `items`, when that item is
/// enabled and its lower or upper limit is not zero.
pub open spec fn cpu_item(
    acc: Seq<(Seq<char>, i32)>,
    items: ElemModel,
    tag: Seq<char>,
    field: Seq<char>,
    dc: bool,
) -> Seq<(Seq<char>, i32)> {
    match find_elem(items, tag) {
        Some(el) => if enabled(el) {
            let mn = attr_int(el, dc_prefix(dc) + "LowerLimit"@);
            let mx = attr_int(el, dc_prefix(dc) + "UpperLimit"@);
            let df = attr_int(el, dc_prefix(dc) + "Manual"@);
            if mn != 0 || mx != 0 {
                let a1 = map_insert(acc, field + "_min"@, mn);
                let a2 = if df != mx && df != 0 {
                    map_insert(a1, field + "_def"@, df)
                } else {
                    a1
                };
                map_insert(a2, field + "_max"@, mx)
            } else {
                acc
            }
        } else {
            acc
        },
        None => acc,
    }
}

/// CPU limits of a `ThrottlePluginCPUSettings` element: STAPM, PPT, fPPT,
/// APU sPPT and platform sPPT (AMD), and PL1 and PL2 (Intel), for AC or, with
/// `dc`, for battery.
pub open spec fn cpu_limits(cpu: ElemModel, dc: bool) -> Seq<(Seq<char>, i32)> {
    match find_elem(cpu, "OverclockItems"@) {
        None => seq![],
        Some(o) => {
            let a = cpu_item(seq![], o, "STAPM"@, "ppt_pl1_spl"@, dc);
            let a = cpu_item(a, o, "PPTLimit"@, "ppt_pl2_sppt"@, dc);
            let a = cpu_item(a, o, "fPPTLimit"@, "ppt_pl3_fppt"@, dc);
            let a = cpu_item(a, o, "APUsPPTLimit"@, "ppt_apu_sppt"@, dc);
            let a = cpu_item(a, o, "PlatformsPPT"@, "ppt_platform_sppt"@, dc);
            let a = cpu_item(a, o, "PL1"@, "ppt_pl1_spl"@, dc);
            cpu_item(a, o, "PL2"@, "ppt_pl2_sppt"@, dc)
        },
    }
}

/// Adds `min_key` and `max_key` from the lower and upper limit of the item
/// `tag` under `container`, when it is enabled and one of them is not zero.
pub open spec fn minmax_item(
    acc: Seq<(Seq<char>, i32)>,
    container: ElemModel,
    tag: Seq<char>,
    lower: Seq<char>,
    upper: Seq<char>,
    min_key: Seq<char>,
    max_key: Seq<char>,
) -> Seq<(Seq<char>, i32)> {
    match find_elem(container, tag) {
        Some(el) => if enabled(el) {
            let mn = attr_int(el, lower);
            let mx = attr_int(el, upper);
            if mn != 0 || mx != 0 {
                map_insert(map_insert(acc, min_key, mn), max_key, mx)
            } else {
                acc
            }
        } else {
            acc
        },
        None => acc,
    }
}

/// The values of the attributes whose name starts with `Level` and whose
/// value parses as `i32`, in attribute order.
pub open spec fn level_values(attrs: Seq<(Seq<char>, Seq<char>)>) -> Seq<i32>
    decreases attrs.len(),
{
    if attrs.len() == 0 {
        seq![]
    } else {
        let rest = level_values(attrs.drop_last());
        if starts_with(attrs.last().0, "Level"@) && parse_i32(attrs.last().1) is Some {
            rest.push(parse_i32(attrs.last().1)->0)
        } else {
            rest
        }
    }
}

pub open spec fn seq_min(s: Seq<i32>) -> i32
    decreases s.len(),
{
    if s.len() <= 1 {
        if s.len() == 1 {
            s[0]
        } else {
            0
        }
    } else {
        let m = seq_min(s.drop_last());
        if s.last() < m {
            s.last()
        } else {
            m
        }
    }
}

pub open spec fn seq_max(s: Seq<i32>) -> i32
    decreases s.len(),
{
    if s.len() <= 1 {
        if s.len() == 1 {
            s[0]
        } else {
            0
        }
    } else {
        let m = seq_max(s.drop_last());
        if s.last() > m {
            s.last()
        } else {
            m
        }
    }
}

/// The TGP level offsets of the enabled `TGPItem` under `NonSLITGPItems`, if any.
pub open spec fn tgp_levels(gpu: ElemModel) -> Option<Seq<i32>> {
    match find_elem(gpu, "NonSLITGPItems"@) {
        Some(t) => match find_elem(t, "TGPItem"@) {
            Some(el) => if enabled(el) && level_values(el.attrs).len() > 0 {
                Some(level_values(el.attrs))
            } else {
                None
            },
            None => None,
        },
        None => None,
    }
}

/// The base TGP plus the smallest and the largest level offset fit in `i32`.
pub open spec fn tgp_sums_fit(gpu: ElemModel, base: i32) -> bool {
    match tgp_levels(gpu) {
        Some(lv) => i32::MIN <= base + seq_min(lv) <= i32::MAX && i32::MIN <= base + seq_max(lv)
            <= i32::MAX,
        None => true,
    }
}

/// GPU limits of a `ThrottlePluginGPUSettings` element: the thermal target,
/// and on AC also the dynamic boost and the TGP range (the base TGP plus the
/// smallest and largest level offset).
pub open spec fn gpu_limits(gpu: ElemModel, base: i32, dc: bool) -> Seq<(Seq<char>, i32)> {
    let a = match find_elem(gpu, "NonSLIOverclockItems"@) {
        Some(o) => {
            let a1 = minmax_item(
                seq![],
                o,
                "NBThermalTarget"@,
                dc_prefix(dc) + "LowerLimit"@,
                dc_prefix(dc) + "UpperLimit"@,
                "nv_temp_target_min"@,
                "nv_temp_target_max"@,
            );
            if !dc {
                minmax_item(
                    a1,
                    o,
                    "DynamicBoost"@,
                    "LowerLimit"@,
                    "UpperLimit"@,
                    "nv_dynamic_boost_min"@,
                    "nv_dynamic_boost_max"@,
                )
            } else {
                a1
            }
        },
        None => seq![],
    };
    if !dc {
        match tgp_levels(gpu) {
            Some(lv) => map_insert(
                map_insert(a, "nv_tgp_min"@, (base + seq_min(lv)) as i32),
                "nv_tgp_max"@,
                (base + seq_max(lv)) as i32,
            ),
            None => a,
        }
    } else {
        a
    }
}

fn prefixed(dc: bool, name: &str) -> (r: Vec<char>)
    ensures
        r@ == dc_prefix(dc) + name@,
{
    let mut v: Vec<char> = Vec::new();
    if dc {
        push_str(&mut v, "DC");
    }
    push_str(&mut v, name);
    assert(v@ =~= dc_prefix(dc) + name@);
    v
}

fn suffixed(field: &str, suffix: &str) -> (r: String)
    ensures
        r@ == field@ + suffix@,
{
    let mut v: Vec<char> = Vec::new();
    push_str(&mut v, field);
    push_str(&mut v, suffix);
    chars_to_string(v.as_slice())
}

fn attr_int_exec(e: &XmlElement, name: &[char]) -> (r: i32)
    ensures
        r == attr_int(e@, name@),
{
    match e.attributes.get_chars(name) {
        Some(v) => match parse_i32_str(v.as_str()) {
            Some(x) => x,
            None => 0,
        },
        None => 0,
    }
}

fn enabled_exec(e: &XmlElement) -> (b: bool)
    ensures
        b == enabled(e@),
{
    proof {
        reveal_strlit("True");
    }
    match e.get_attribute("IsEnabled") {
        Some(v) => {
            let c = str_chars(v.as_str());
            crate::text::chars_eq_str(c.as_slice(), "True")
        },
        None => false,
    }
}

fn add_cpu_item(acc: &mut Limits, items: &XmlElement, tag: &str, field: &str, dc: bool)
    ensures
        final(acc)@ == cpu_item(old(acc)@, items@, tag@, field@, dc),
{
    if let Some(elem) = items.find_child_recursive(tag) {
        if enabled_exec(elem) {
            let lower = prefixed(dc, "LowerLimit");
            let upper = prefixed(dc, "UpperLimit");
            let manual = prefixed(dc, "Manual");
            let min_val = attr_int_exec(elem, lower.as_slice());
            let max_val = attr_int_exec(elem, upper.as_slice());
            let def_val = attr_int_exec(elem, manual.as_slice());
            if min_val != 0 || max_val != 0 {
                acc.insert(suffixed(field, "_min"), min_val);
                if def_val != max_val && def_val != 0 {
                    acc.insert(suffixed(field, "_def"), def_val);
                }
                acc.insert(suffixed(field, "_max"), max_val);
            }
        }
    }
}

/// CPU power limits (`ppt_*_min`, `_def`, `_max`) from a CPU settings element,
/// for AC or, with `dc`, for battery.
pub fn extract_cpu_limits(cpu_settings: &XmlElement, dc: bool) -> (r: Limits)
    ensures
        r@ == cpu_limits(cpu_settings@, dc),
{
    let mut limits: Limits = StrMap::new();
    let overclock_items = match cpu_settings.find_child_recursive("OverclockItems") {
        Some(e) => e,
        None => {
            return limits;
        },
    };
    add_cpu_item(&mut limits, overclock_items, "STAPM", "ppt_pl1_spl", dc);
    add_cpu_item(&mut limits, overclock_items, "PPTLimit", "ppt_pl2_sppt", dc);
    add_cpu_item(&mut limits, overclock_items, "fPPTLimit", "ppt_pl3_fppt", dc);
    add_cpu_item(&mut limits, overclock_items, "APUsPPTLimit", "ppt_apu_sppt", dc);
    add_cpu_item(&mut limits, overclock_items, "PlatformsPPT", "ppt_platform_sppt", dc);
    add_cpu_item(&mut limits, overclock_items, "PL1", "ppt_pl1_spl", dc);
    add_cpu_item(&mut limits, overclock_items, "PL2", "ppt_pl2_sppt", dc);
    limits
}

fn add_minmax_item(
    acc: &mut Limits,
    container: &XmlElement,
    tag: &str,
    lower: &[char],
    upper: &[char],
    min_key: &str,
    max_key: &str,
)
    ensures
        final(acc)@ == minmax_item(old(acc)@, container@, tag@, lower@, upper@, min_key@, max_key@),
{
    if let Some(elem) = container.find_child_recursive(tag) {
        if enabled_exec(elem) {
            let min_val = attr_int_exec(elem, lower);
            let max_val = attr_int_exec(elem, upper);
            if min_val != 0 || max_val != 0 {
                acc.insert(String::from_str(min_key), min_val);
                acc.insert(String::from_str(max_key), max_val);
            }
        }
    }
}

fn tgp_level_range(elem: &XmlElement) -> (r: Option<(i32, i32)>)
    ensures
        level_values(elem@.attrs).len() == 0 ==> r is None,
        level_values(elem@.attrs).len() > 0 ==> r == Some(
            (seq_min(level_values(elem@.attrs)), seq_max(level_values(elem@.attrs))),
        ),
{
    let attrs = &elem.attributes;
    let n = attrs.len();
    let level = str_chars("Level");
    let mut found = false;
    let mut lo: i32 = 0;
    let mut hi: i32 = 0;
    let mut k: usize = 0;
    while k < n
        invariant
            k <= n,
            n == attrs@.len(),
            attrs@ == elem@.attrs,
            level@ == "Level"@,
            found == (level_values(attrs@.take(k as int)).len() > 0),
            found ==> lo == seq_min(level_values(attrs@.take(k as int))),
            found ==> hi == seq_max(level_values(attrs@.take(k as int))),
        decreases n - k,
    {
        proof {
            assert(attrs@.take(k + 1).drop_last() =~= attrs@.take(k as int));
        }
        let ghost lv = level_values(attrs@.take(k as int));
        let name = str_chars(attrs.key_at(k).as_str());
        if chars_starts_with(name.as_slice(), level.as_slice()) {
            if let Some(v) = parse_i32_str(attrs.value_at(k).as_str()) {
                proof {
                    assert(level_values(attrs@.take(k + 1)) == lv.push(v));
                    assert(lv.push(v).drop_last() =~= lv);
                }
                if !found {
                    lo = v;
                    hi = v;
                    found = true;
                } else {
                    if v < lo {
                        lo = v;
                    }
                    if v > hi {
                        hi = v;
                    }
                }
            }
        }
        k = k + 1;
    }
    assert(attrs@.take(n as int) =~= attrs@);
    if found {
        Some((lo, hi))
    } else {
        None
    }
}

/// Whether the base TGP plus the smallest and the largest TGP level offset of
/// a GPU settings element fit in `i32`, so that `extract_gpu_limits` can add
/// them.
pub fn tgp_sums_fit_exec(gpu_settings: &XmlElement, gpu_base_tgp: i32) -> (b: bool)
    ensures
        b == tgp_sums_fit(gpu_settings@, gpu_base_tgp),
{
    if let Some(tgp_items) = gpu_settings.find_child_recursive("NonSLITGPItems") {
        if let Some(elem) = tgp_items.find_child_recursive("TGPItem") {
            if enabled_exec(elem) {
                if let Some((lo, hi)) = tgp_level_range(elem) {
                    let base = gpu_base_tgp as i64;
                    let a = base + lo as i64;
                    let b = base + hi as i64;
                    return i32::MIN as i64 <= a && a <= i32::MAX as i64 && i32::MIN as i64 <= b && b
                        <= i32::MAX as i64;
                }
            }
        }
    }
    true
}

/// GPU limits (`nv_*_min`, `nv_*_max`) from a GPU settings element. On AC the
/// TGP range is the base TGP plus the smallest and largest `Level*` offset.
pub fn extract_gpu_limits(gpu_settings: &XmlElement, gpu_base_tgp: i32, dc: bool) -> (r: Limits)
    requires
        dc || tgp_sums_fit(gpu_settings@, gpu_base_tgp),
    ensures
        r@ == gpu_limits(gpu_settings@, gpu_base_tgp, dc),
{
    let mut limits: Limits = StrMap::new();
    if let Some(gpu_overclock) = gpu_settings.find_child_recursive("NonSLIOverclockItems") {
        let lower = prefixed(dc, "LowerLimit");
        let upper = prefixed(dc, "UpperLimit");
        add_minmax_item(
            &mut limits,
            gpu_overclock,
            "NBThermalTarget",
            lower.as_slice(),
            upper.as_slice(),
            "nv_temp_target_min",
            "nv_temp_target_max",
        );
        if !dc {
            let lower = str_chars("LowerLimit");
            let upper = str_chars("UpperLimit");
            add_minmax_item(
                &mut limits,
                gpu_overclock,
                "DynamicBoost",
                lower.as_slice(),
                upper.as_slice(),
                "nv_dynamic_boost_min",
                "nv_dynamic_boost_max",
            );
        }
    }
    if !dc {
        if let Some(tgp_items) = gpu_settings.find_child_recursive("NonSLITGPItems") {
            if let Some(elem) = tgp_items.find_child_recursive("TGPItem") {
                if enabled_exec(elem) {
                    if let Some((min_offset, max_offset)) = tgp_level_range(elem) {
                        limits.insert(String::from_str("nv_tgp_min"), gpu_base_tgp + min_offset);
                        limits.insert(String::from_str("nv_tgp_max"), gpu_base_tgp + max_offset);
                    }
                }
            }
        }
    }
    limits
}


// ---------------------------------------------------------------------------
// Sanity checks
// ---------------------------------------------------------------------------

/// Warning when the base TGP is outside 30 W to 200 W.
pub open spec fn tgp_base_warnings(t: i32) -> Seq<Seq<char>> {
    if t < 30 || t > 200 {
        seq!["GPU base TGP ("@ + int_text(t as int) + "W) is outside the typical notebook range (30W-200W)."@]
    } else {
        seq![]
    }
}

/// Warnings about one limit: a negative value, a temperature target outside
/// 0 to 100, a TGP outside 0 to 500.
pub open spec fn entry_warnings(sec: Seq<char>, key: Seq<char>, val: i32) -> Seq<Seq<char>> {
    let neg = if val < 0 {
        seq!["["@ + sec + "] "@ + key + " has a negative value ("@ + int_text(val as int) + ")."@]
    } else {
        seq![]
    };
    let temp = if contains(key, "temp_target"@) && (val < 0 || val > 100) {
        seq![
            "["@ + sec + "] Temperature target "@ + key + " ("@ + int_text(val as int)
                + "°C) is outside realistic range (0°C-100°C)."@,
        ]
    } else {
        seq![]
    };
    let tgp = if contains(key, "tgp"@) && (val < 0 || val > 500) {
        seq![
            "["@ + sec + "] GPU TGP "@ + key + " ("@ + int_text(val as int)
                + "W) is outside typical range (0W-500W)."@,
        ]
    } else {
        seq![]
    };
    neg + temp + tgp
}

/// Warnings about each limit, in key order.
pub open spec fn entries_warnings(sec: Seq<char>, s: Seq<(Seq<char>, i32)>) -> Seq<Seq<char>>
    decreases s.len(),
{
    if s.len() == 0 {
        seq![]
    } else {
        entries_warnings(sec, s.drop_last()) + entry_warnings(sec, s.last().0, s.last().1)
    }
}

/// Warnings about a `prefix_min` / `prefix_max` / `prefix_def` triple: the
/// minimum above the maximum, the default outside the range.
pub open spec fn range_warnings(sec: Seq<char>, limits: Seq<(Seq<char>, i32)>, prefix: Seq<char>) -> Seq<
    Seq<char>,
> {
    let min_key = prefix + "_min"@;
    let max_key = prefix + "_max"@;
    let def_key = prefix + "_def"@;
    match (map_get(limits, min_key), map_get(limits, max_key)) {
        (Some(mn), Some(mx)) => {
            let w1 = if mn > mx {
                seq![
                    "["@ + sec + "] Min limit "@ + min_key + " ("@ + int_text(mn as int)
                        + ") is greater than max limit "@ + max_key + " ("@ + int_text(mx as int)
                        + ")."@,
                ]
            } else {
                seq![]
            };
            let w2 = match map_get(limits, def_key) {
                Some(df) => if df < mn || df > mx {
                    seq![
                        "["@ + sec + "] Default limit "@ + def_key + " ("@ + int_text(df as int)
                            + ") is outside [min, max] range ["@ + int_text(mn as int) + ", "@
                            + int_text(mx as int) + "]."@,
                    ]
                } else {
                    seq![]
                },
                None => seq![],
            };
            w1 + w2
        },
        _ => seq![],
    }
}

/// Warnings about one section (AC or DC).
pub open spec fn section_warnings(sec: Seq<char>, limits: Seq<(Seq<char>, i32)>) -> Seq<Seq<char>> {
    entries_warnings(sec, limits) + range_warnings(sec, limits, "ppt_pl1_spl"@) + range_warnings(
        sec,
        limits,
        "ppt_pl2_sppt"@,
    ) + range_warnings(sec, limits, "ppt_pl3_fppt"@) + range_warnings(sec, limits, "ppt_apu_sppt"@)
        + range_warnings(sec, limits, "ppt_platform_sppt"@) + range_warnings(
        sec,
        limits,
        "nv_temp_target"@,
    ) + range_warnings(sec, limits, "nv_dynamic_boost"@) + range_warnings(sec, limits, "nv_tgp"@)
}

/// All warnings: base TGP, then AC, then DC.
pub open spec fn limit_warnings(ac: Seq<(Seq<char>, i32)>, dc: Seq<(Seq<char>, i32)>, t: i32) -> Seq<
    Seq<char>,
> {
    tgp_base_warnings(t) + section_warnings("AC"@, ac) + section_warnings("DC"@, dc)
}

fn push_int(v: &mut Vec<char>, n: i32)
    ensures
        final(v)@ == old(v)@ + int_text(n as int),
{
    push_i64(v, n as i64);
}

fn add_entry_warnings(out: &mut Vec<String>, sec: &str, key: &[char], val: i32)
    ensures
        strings_view(final(out)@) == strings_view(old(out)@) + entry_warnings(sec@, key@, val),
{
    let ghost start = strings_view(out@);
    if val < 0 {
        let mut w: Vec<char> = Vec::new();
        push_str(&mut w, "[");
        push_str(&mut w, sec);
        push_str(&mut w, "] ");
        push_all(&mut w, key);
        push_str(&mut w, " has a negative value (");
        push_int(&mut w, val);
        push_str(&mut w, ").");
        assert(w@ =~= "["@ + sec@ + "] "@ + key@ + " has a negative value ("@ + int_text(val as int) + ")."@);
        push_line(out, chars_to_string(w.as_slice()));
    }
    let ghost mid1 = strings_view(out@);
    if chars_contains_str(key, "temp_target") && (val < 0 || val > 100) {
        let mut w: Vec<char> = Vec::new();
        push_str(&mut w, "[");
        push_str(&mut w, sec);
        push_str(&mut w, "] Temperature target ");
        push_all(&mut w, key);
        push_str(&mut w, " (");
        push_int(&mut w, val);
        push_str(&mut w, "°C) is outside realistic range (0°C-100°C).");
        assert(w@ =~= "["@ + sec@ + "] Temperature target "@ + key@ + " ("@ + int_text(val as int)
            + "°C) is outside realistic range (0°C-100°C)."@);
        push_line(out, chars_to_string(w.as_slice()));
    }
    let ghost mid2 = strings_view(out@);
    if chars_contains_str(key, "tgp") && (val < 0 || val > 500) {
        let mut w: Vec<char> = Vec::new();
        push_str(&mut w, "[");
        push_str(&mut w, sec);
        push_str(&mut w, "] GPU TGP ");
        push_all(&mut w, key);
        push_str(&mut w, " (");
        push_int(&mut w, val);
        push_str(&mut w, "W) is outside typical range (0W-500W).");
        assert(w@ =~= "["@ + sec@ + "] GPU TGP "@ + key@ + " ("@ + int_text(val as int)
            + "W) is outside typical range (0W-500W)."@);
        push_line(out, chars_to_string(w.as_slice()));
    }
    assert(strings_view(out@) =~= start + entry_warnings(sec@, key@, val));
}

fn add_range_warnings(out: &mut Vec<String>, sec: &str, limits: &Limits, prefix: &str)
    ensures
        strings_view(final(out)@) == strings_view(old(out)@) + range_warnings(sec@, limits@, prefix@),
{
    let ghost start = strings_view(out@);
    let mut min_key: Vec<char> = Vec::new();
    push_str(&mut min_key, prefix);
    push_str(&mut min_key, "_min");
    let mut max_key: Vec<char> = Vec::new();
    push_str(&mut max_key, prefix);
    push_str(&mut max_key, "_max");
    let mut def_key: Vec<char> = Vec::new();
    push_str(&mut def_key, prefix);
    push_str(&mut def_key, "_def");
    let min_val = limits.get_chars(min_key.as_slice());
    let max_val = limits.get_chars(max_key.as_slice());
    if let (Some(mn), Some(mx)) = (min_val, max_val) {
        let mn = *mn;
        let mx = *mx;
        if mn > mx {
            let mut w: Vec<char> = Vec::new();
            push_str(&mut w, "[");
            push_str(&mut w, sec);
            push_str(&mut w, "] Min limit ");
            push_all(&mut w, min_key.as_slice());
            push_str(&mut w, " (");
            push_int(&mut w, mn);
            push_str(&mut w, ") is greater than max limit ");
            push_all(&mut w, max_key.as_slice());
            push_str(&mut w, " (");
            push_int(&mut w, mx);
            push_str(&mut w, ").");
            assert(w@ =~= "["@ + sec@ + "] Min limit "@ + min_key@ + " ("@ + int_text(mn as int)
                + ") is greater than max limit "@ + max_key@ + " ("@ + int_text(mx as int) + ")."@);
            push_line(out, chars_to_string(w.as_slice()));
        }
        if let Some(df) = limits.get_chars(def_key.as_slice()) {
            let df = *df;
            if df < mn || df > mx {
                let mut w: Vec<char> = Vec::new();
                push_str(&mut w, "[");
                push_str(&mut w, sec);
                push_str(&mut w, "] Default limit ");
                push_all(&mut w, def_key.as_slice());
                push_str(&mut w, " (");
                push_int(&mut w, df);
                push_str(&mut w, ") is outside [min, max] range [");
                push_int(&mut w, mn);
                push_str(&mut w, ", ");
                push_int(&mut w, mx);
                push_str(&mut w, "].");
                assert(w@ =~= "["@ + sec@ + "] Default limit "@ + def_key@ + " ("@ + int_text(
                    df as int,
                ) + ") is outside [min, max] range ["@ + int_text(mn as int) + ", "@ + int_text(
                    mx as int,
                ) + "]."@);
                push_line(out, chars_to_string(w.as_slice()));
            }
        }
    }
    assert(strings_view(out@) =~= start + range_warnings(sec@, limits@, prefix@));
}

fn add_section_warnings(out: &mut Vec<String>, sec: &str, limits: &Limits)
    ensures
        strings_view(final(out)@) == strings_view(old(out)@) + section_warnings(sec@, limits@),
{
    let ghost start = strings_view(out@);
    let n = limits.len();
    let mut k: usize = 0;
    while k < n
        invariant
            k <= n,
            n == limits@.len(),
            strings_view(out@) == start + entries_warnings(sec@, limits@.take(k as int)),
        decreases n - k,
    {
        let key = str_chars(limits.key_at(k).as_str());
        let val = *limits.value_at(k);
        add_entry_warnings(out, sec, key.as_slice(), val);
        proof {
            assert(limits@.take(k + 1).drop_last() =~= limits@.take(k as int));
            assert(strings_view(out@) =~= start + entries_warnings(sec@, limits@.take(k + 1)));
        }
        k = k + 1;
    }
    assert(limits@.take(n as int) =~= limits@);
    let ghost after_entries = strings_view(out@);
    add_range_warnings(out, sec, limits, "ppt_pl1_spl");
    add_range_warnings(out, sec, limits, "ppt_pl2_sppt");
    add_range_warnings(out, sec, limits, "ppt_pl3_fppt");
    add_range_warnings(out, sec, limits, "ppt_apu_sppt");
    add_range_warnings(out, sec, limits, "ppt_platform_sppt");
    add_range_warnings(out, sec, limits, "nv_temp_target");
    add_range_warnings(out, sec, limits, "nv_dynamic_boost");
    add_range_warnings(out, sec, limits, "nv_tgp");
    assert(strings_view(out@) =~= start + section_warnings(sec@, limits@));
}

/// Warnings about implausible limits: the base TGP, then for AC and for DC
/// each limit in key order (negative value, temperature target, TGP), then
/// each min/max/default triple.
pub fn validate_limits(ac_limits: &Limits, dc_limits: &Limits, gpu_base_tgp: i32) -> (r: Vec<String>)
    ensures
        strings_view(r@) == limit_warnings(ac_limits@, dc_limits@, gpu_base_tgp),
{
    let mut warnings: Vec<String> = Vec::new();
    if gpu_base_tgp < 30 || gpu_base_tgp > 200 {
        let mut w: Vec<char> = Vec::new();
        push_str(&mut w, "GPU base TGP (");
        push_int(&mut w, gpu_base_tgp);
        push_str(&mut w, "W) is outside the typical notebook range (30W-200W).");
        assert(w@ =~= "GPU base TGP ("@ + int_text(gpu_base_tgp as int)
            + "W) is outside the typical notebook range (30W-200W)."@);
        push_line(&mut warnings, chars_to_string(w.as_slice()));
    }
    assert(strings_view(warnings@) =~= tgp_base_warnings(gpu_base_tgp));
    add_section_warnings(&mut warnings, "AC", ac_limits);
    add_section_warnings(&mut warnings, "DC", dc_limits);
    assert(strings_view(warnings@) =~= limit_warnings(ac_limits@, dc_limits@, gpu_base_tgp));
    warnings
}

// ---------------------------------------------------------------------------
// Laws
// ---------------------------------------------------------------------------

/// `seq_min` is the smallest and `seq_max` the largest element of a
/// non-empty sequence.
pub proof fn lemma_seq_min_max(s: Seq<i32>)
    requires
        s.len() > 0,
    ensures
        forall|i: int| 0 <= i < s.len() ==> seq_min(s) <= #[trigger] s[i] && s[i] <= seq_max(s),
        exists|i: int| 0 <= i < s.len() && #[trigger] s[i] == seq_min(s),
        exists|i: int| 0 <= i < s.len() && #[trigger] s[i] == seq_max(s),
    decreases s.len(),
{
    if s.len() == 1 {
        assert(s[0] == seq_min(s));
        assert(s[0] == seq_max(s));
    } else {
        let t = s.drop_last();
        lemma_seq_min_max(t);
        assert forall|i: int| 0 <= i < t.len() implies #[trigger] s[i] == t[i] by {}
        let last = s.len() - 1;
        if s.last() < seq_min(t) {
            assert(s[last] == seq_min(s));
        } else {
            let i = choose|i: int| 0 <= i < t.len() && #[trigger] t[i] == seq_min(t);
            assert(s[i] == seq_min(s));
        }
        if s.last() > seq_max(t) {
            assert(s[last] == seq_max(s));
        } else {
            let i = choose|i: int| 0 <= i < t.len() && #[trigger] t[i] == seq_max(t);
            assert(s[i] == seq_max(s));
        }
    }
}

/// On AC, when the enabled `TGPItem` has `Level` offsets, `nv_tgp_min` is the
/// base TGP plus the smallest offset and `nv_tgp_max` the base TGP plus the
/// largest: each is the base plus one of the offsets, and no offset gives a
/// smaller (larger) sum.
pub proof fn lemma_gpu_tgp_range(gpu: ElemModel, base: i32)
    requires
        tgp_levels(gpu) is Some,
        tgp_sums_fit(gpu, base),
    ensures
        ({
            let lv = tgp_levels(gpu)->0;
            let lim = gpu_limits(gpu, base, false);
            &&& map_get(lim, "nv_tgp_min"@) is Some
            &&& map_get(lim, "nv_tgp_max"@) is Some
            &&& forall|i: int|
                0 <= i < lv.len() ==> map_get(lim, "nv_tgp_min"@)->0 <= base + #[trigger] lv[i] && base + lv[i]
                    <= map_get(lim, "nv_tgp_max"@)->0
            &&& exists|i: int| 0 <= i < lv.len() && map_get(lim, "nv_tgp_min"@)->0 == base + #[trigger] lv[i]
            &&& exists|i: int| 0 <= i < lv.len() && map_get(lim, "nv_tgp_max"@)->0 == base + #[trigger] lv[i]
        }),
{
    reveal_strlit("nv_tgp_min");
    reveal_strlit("nv_tgp_max");
    let lv = tgp_levels(gpu)->0;
    lemma_seq_min_max(lv);
    let a = match find_elem(gpu, "NonSLIOverclockItems"@) {
        Some(o) => {
            let a1 = minmax_item(
                seq![],
                o,
                "NBThermalTarget"@,
                dc_prefix(false) + "LowerLimit"@,
                dc_prefix(false) + "UpperLimit"@,
                "nv_temp_target_min"@,
                "nv_temp_target_max"@,
            );
            minmax_item(
                a1,
                o,
                "DynamicBoost"@,
                "LowerLimit"@,
                "UpperLimit"@,
                "nv_dynamic_boost_min"@,
                "nv_dynamic_boost_max"@,
            )
        },
        None => seq![],
    };
    let mn = (base + seq_min(lv)) as i32;
    let mx = (base + seq_max(lv)) as i32;
    let a1 = map_insert(a, "nv_tgp_min"@, mn);
    assert("nv_tgp_min"@ != "nv_tgp_max"@) by {
        assert("nv_tgp_min"@[8] != "nv_tgp_max"@[8]);
    }
    lemma_map_insert_get(a, "nv_tgp_min"@, mn, "nv_tgp_min"@);
    lemma_map_insert_get(a1, "nv_tgp_max"@, mx, "nv_tgp_min"@);
    lemma_map_insert_get(a1, "nv_tgp_max"@, mx, "nv_tgp_max"@);
    assert(gpu_limits(gpu, base, false) == map_insert(a1, "nv_tgp_max"@, mx));
}

/// The item `tag` under `items` when it is enabled and its lower or upper
/// limit (for AC, or with `dc` for battery) is not zero.
pub open spec fn active_item(items: ElemModel, tag: Seq<char>, dc: bool) -> Option<ElemModel> {
    match find_elem(items, tag) {
        Some(el) => if enabled(el) && (attr_int(el, dc_prefix(dc) + "LowerLimit"@) != 0 || attr_int(
            el,
            dc_prefix(dc) + "UpperLimit"@,
        ) != 0) {
            Some(el)
        } else {
            None
        },
        None => None,
    }
}

/// The lower (`upper` false) or upper limit of an active item.
pub open spec fn item_limit(items: ElemModel, tag: Seq<char>, dc: bool, upper: bool) -> Option<i32> {
    match active_item(items, tag, dc) {
        Some(el) => Some(
            attr_int(
                el,
                dc_prefix(dc) + if upper {
                    "UpperLimit"@
                } else {
                    "LowerLimit"@
                },
            ),
        ),
        None => None,
    }
}

proof fn lemma_keys_differ(f1: Seq<char>, s1: Seq<char>, f2: Seq<char>, s2: Seq<char>)
    requires
        s1.len() == s2.len(),
        f1 != f2 || s1 != s2,
    ensures
        f1 + s1 != f2 + s2,
{
    if f1 + s1 == f2 + s2 {
        assert(f1 =~= (f1 + s1).take(f1.len() as int));
        assert(f2 =~= (f2 + s2).take(f2.len() as int));
        assert(s1 =~= (f1 + s1).skip(f1.len() as int));
        assert(s2 =~= (f2 + s2).skip(f2.len() as int));
    }
}

/// Reading one item changes only the keys of its own field.
proof fn lemma_cpu_item_get(
    acc: Seq<(Seq<char>, i32)>,
    items: ElemModel,
    tag: Seq<char>,
    field: Seq<char>,
    dc: bool,
    q: Seq<char>,
)
    ensures
        q != field + "_min"@ && q != field + "_def"@ && q != field + "_max"@ ==> map_get(
            cpu_item(acc, items, tag, field, dc),
            q,
        ) == map_get(acc, q),
        q == field + "_min"@ ==> map_get(cpu_item(acc, items, tag, field, dc), q) == match item_limit(
            items,
            tag,
            dc,
            false,
        ) {
            Some(v) => Some(v),
            None => map_get(acc, q),
        },
        q == field + "_max"@ ==> map_get(cpu_item(acc, items, tag, field, dc), q) == match item_limit(
            items,
            tag,
            dc,
            true,
        ) {
            Some(v) => Some(v),
            None => map_get(acc, q),
        },
{
    reveal_strlit("_min");
    reveal_strlit("_def");
    reveal_strlit("_max");
    assert("_min"@ != "_def"@ && "_min"@ != "_max"@ && "_def"@ != "_max"@) by {
        assert("_min"@[1] != "_def"@[1]);
        assert("_min"@[2] != "_max"@[2]);
        assert("_def"@[1] != "_max"@[1]);
    }
    lemma_keys_differ(field, "_min"@, field, "_def"@);
    lemma_keys_differ(field, "_min"@, field, "_max"@);
    lemma_keys_differ(field, "_def"@, field, "_max"@);
    match find_elem(items, tag) {
        Some(el) => {
            let mn = attr_int(el, dc_prefix(dc) + "LowerLimit"@);
            let mx = attr_int(el, dc_prefix(dc) + "UpperLimit"@);
            let df = attr_int(el, dc_prefix(dc) + "Manual"@);
            let a1 = map_insert(acc, field + "_min"@, mn);
            let a2 = if df != mx && df != 0 {
                map_insert(a1, field + "_def"@, df)
            } else {
                a1
            };
            lemma_map_insert_get(acc, field + "_min"@, mn, q);
            lemma_map_insert_get(a1, field + "_def"@, df, q);
            lemma_map_insert_get(a2, field + "_max"@, mx, q);
        },
        None => {},
    }
}

pub open spec fn cpu_fields() -> Seq<Seq<char>> {
    seq!["ppt_pl1_spl"@, "ppt_pl2_sppt"@, "ppt_pl3_fppt"@, "ppt_apu_sppt"@, "ppt_platform_sppt"@]
}

pub open spec fn limit_suffixes() -> Seq<Seq<char>> {
    seq!["_min"@, "_def"@, "_max"@]
}

proof fn lemma_cpu_keys_distinct()
    ensures
        forall|i: int, j: int, k: int, l: int|
            0 <= i < 5 && 0 <= j < 5 && 0 <= k < 3 && 0 <= l < 3 && (i != j || k != l) ==> #[trigger] (
            cpu_fields()[i] + limit_suffixes()[k]) != #[trigger] (cpu_fields()[j] + limit_suffixes()[l]),
{
    reveal_strlit("ppt_pl1_spl");
    reveal_strlit("ppt_pl2_sppt");
    reveal_strlit("ppt_pl3_fppt");
    reveal_strlit("ppt_apu_sppt");
    reveal_strlit("ppt_platform_sppt");
    reveal_strlit("_min");
    reveal_strlit("_def");
    reveal_strlit("_max");
    let fs = cpu_fields();
    let ss = limit_suffixes();
    assert(fs[0].len() == 11 && fs[1].len() == 12 && fs[2].len() == 12 && fs[3].len() == 12 && fs[4].len()
        == 17);
    assert(fs[1][6] != fs[2][6]);
    assert(fs[1][4] != fs[3][4]);
    assert(fs[2][4] != fs[3][4]);
    assert(ss[0][1] != ss[1][1]);
    assert(ss[0][2] != ss[2][2]);
    assert(ss[1][1] != ss[2][1]);
    assert(ss[0].len() == 4 && ss[1].len() == 4 && ss[2].len() == 4);
    assert(forall|i: int, j: int| 0 <= i < 5 && 0 <= j < 5 && i != j ==> #[trigger] fs[i] != #[trigger] fs[j]);
    assert(forall|k: int, l: int| 0 <= k < 3 && 0 <= l < 3 && k != l ==> #[trigger] ss[k] != #[trigger] ss[l]);
    assert forall|i: int, j: int, k: int, l: int|
        0 <= i < 5 && 0 <= j < 5 && 0 <= k < 3 && 0 <= l < 3 && (i != j || k != l) implies #[trigger] (fs[i]
        + ss[k]) != #[trigger] (fs[j] + ss[l]) by {
        assert(ss[k].len() == 4 && ss[l].len() == 4);
        lemma_keys_differ(fs[i], ss[k], fs[j], ss[l]);
    }
}

/// The value of one key of the CPU limits.
#[verifier::spinoff_prover]
#[verifier::rlimit(60)]
proof fn lemma_cpu_key(cpu: ElemModel, dc: bool, i: int, k: int)
    requires
        find_elem(cpu, "OverclockItems"@) is Some,
        0 <= i < 5,
        k == 0 || k == 2,
    ensures
        ({
            let o = find_elem(cpu, "OverclockItems"@)->0;
            let upper = k == 2;
            let v = map_get(cpu_limits(cpu, dc), cpu_fields()[i] + limit_suffixes()[k]);
            &&& i == 0 ==> v == match item_limit(o, "PL1"@, dc, upper) {
                Some(x) => Some(x),
                None => item_limit(o, "STAPM"@, dc, upper),
            }
            &&& i == 1 ==> v == match item_limit(o, "PL2"@, dc, upper) {
                Some(x) => Some(x),
                None => item_limit(o, "PPTLimit"@, dc, upper),
            }
            &&& i == 2 ==> v == item_limit(o, "fPPTLimit"@, dc, upper)
            &&& i == 3 ==> v == item_limit(o, "APUsPPTLimit"@, dc, upper)
            &&& i == 4 ==> v == item_limit(o, "PlatformsPPT"@, dc, upper)
        }),
{
    let o = find_elem(cpu, "OverclockItems"@)->0;
    let fs = cpu_fields();
    let ss = limit_suffixes();
    lemma_cpu_keys_distinct();
    let q = fs[i] + ss[k];
    assert(fs[i] + ss[k] != fs[0] + ss[1]);
    let a1 = cpu_item(seq![], o, "STAPM"@, fs[0], dc);
    let a2 = cpu_item(a1, o, "PPTLimit"@, fs[1], dc);
    let a3 = cpu_item(a2, o, "fPPTLimit"@, fs[2], dc);
    let a4 = cpu_item(a3, o, "APUsPPTLimit"@, fs[3], dc);
    let a5 = cpu_item(a4, o, "PlatformsPPT"@, fs[4], dc);
    let a6 = cpu_item(a5, o, "PL1"@, fs[0], dc);
    let a7 = cpu_item(a6, o, "PL2"@, fs[1], dc);
    assert(cpu_limits(cpu, dc) == a7);
    assert(map_get(Seq::<(Seq<char>, i32)>::empty(), q) is None);
    assert forall|j: int, l: int| 0 <= j < 5 && 0 <= l < 3 && (j != i || l != k) implies q != #[trigger] (fs[j]
        + ss[l]) by {}
    assert(q != fs[0] + ss[0] || i == 0 && k == 0);
    lemma_cpu_item_get(seq![], o, "STAPM"@, fs[0], dc, q);
    lemma_cpu_item_get(a1, o, "PPTLimit"@, fs[1], dc, q);
    lemma_cpu_item_get(a2, o, "fPPTLimit"@, fs[2], dc, q);
    lemma_cpu_item_get(a3, o, "APUsPPTLimit"@, fs[3], dc, q);
    lemma_cpu_item_get(a4, o, "PlatformsPPT"@, fs[4], dc, q);
    lemma_cpu_item_get(a5, o, "PL1"@, fs[0], dc, q);
    lemma_cpu_item_get(a6, o, "PL2"@, fs[1], dc, q);
    assert(fs[0] + ss[0] == fs[0] + "_min"@);
    assert(fs[0] + ss[1] == fs[0] + "_def"@);
    assert(fs[0] + ss[2] == fs[0] + "_max"@);
}

/// Where each CPU limit comes from: `ppt_pl1_spl_*` from `PL1`, else from
/// `STAPM`; `ppt_pl2_sppt_*` from `PL2`, else from `PPTLimit`;
/// `ppt_pl3_fppt_*` from `fPPTLimit`; `ppt_apu_sppt_*` from `APUsPPTLimit`;
/// `ppt_platform_sppt_*` from `PlatformsPPT`. Each minimum (`k` = 0) is the
/// item's lower limit and each maximum (`k` = 2) its upper limit; a limit is
/// absent when no item for it is enabled with a non-zero limit.
pub proof fn lemma_cpu_limit_sources(cpu: ElemModel, dc: bool)
    requires
        find_elem(cpu, "OverclockItems"@) is Some,
    ensures
        forall|i: int, k: int|
            0 <= i < 5 && (k == 0 || k == 2) ==> {
                let o = find_elem(cpu, "OverclockItems"@)->0;
                let upper = k == 2;
                let v = #[trigger] map_get(cpu_limits(cpu, dc), cpu_fields()[i] + limit_suffixes()[k]);
                &&& i == 0 ==> v == match item_limit(o, "PL1"@, dc, upper) {
                    Some(x) => Some(x),
                    None => item_limit(o, "STAPM"@, dc, upper),
                }
                &&& i == 1 ==> v == match item_limit(o, "PL2"@, dc, upper) {
                    Some(x) => Some(x),
                    None => item_limit(o, "PPTLimit"@, dc, upper),
                }
                &&& i == 2 ==> v == item_limit(o, "fPPTLimit"@, dc, upper)
                &&& i == 3 ==> v == item_limit(o, "APUsPPTLimit"@, dc, upper)
                &&& i == 4 ==> v == item_limit(o, "PlatformsPPT"@, dc, upper)
            },
{
    assert forall|i: int, k: int| 0 <= i < 5 && (k == 0 || k == 2) implies {
        let o = find_elem(cpu, "OverclockItems"@)->0;
        let upper = k == 2;
        let v = #[trigger] map_get(cpu_limits(cpu, dc), cpu_fields()[i] + limit_suffixes()[k]);
        &&& i == 0 ==> v == match item_limit(o, "PL1"@, dc, upper) {
            Some(x) => Some(x),
            None => item_limit(o, "STAPM"@, dc, upper),
        }
        &&& i == 1 ==> v == match item_limit(o, "PL2"@, dc, upper) {
            Some(x) => Some(x),
            None => item_limit(o, "PPTLimit"@, dc, upper),
        }
        &&& i == 2 ==> v == item_limit(o, "fPPTLimit"@, dc, upper)
        &&& i == 3 ==> v == item_limit(o, "APUsPPTLimit"@, dc, upper)
        &&& i == 4 ==> v == item_limit(o, "PlatformsPPT"@, dc, upper)
    } by {
        lemma_cpu_key(cpu, dc, i, k);
    }
}

/// The default-outside-range warning for a prefix.
pub open spec fn default_range_message(sec: Seq<char>, prefix: Seq<char>, mn: i32, mx: i32, df: i32) -> Seq<char> {
    "["@ + sec + "] Default limit "@ + (prefix + "_def"@) + " ("@ + int_text(df as int)
        + ") is outside [min, max] range ["@ + int_text(mn as int) + ", "@ + int_text(mx as int) + "]."@
}

/// The minimum-above-maximum warning for a prefix.
pub open spec fn min_above_max_message(sec: Seq<char>, prefix: Seq<char>, mn: i32, mx: i32) -> Seq<char> {
    "["@ + sec + "] Min limit "@ + (prefix + "_min"@) + " ("@ + int_text(mn as int)
        + ") is greater than max limit "@ + (prefix + "_max"@) + " ("@ + int_text(mx as int) + ")."@
}

/// For a section holding `prefix_min` = `mn`, `prefix_max` = `mx` and
/// `prefix_def` = `df`, the default is reported exactly when it lies below
/// the minimum or above the maximum, the minimum exactly when it is above the
/// maximum, and nothing else is reported about the triple.
pub proof fn lemma_range_warnings(
    sec: Seq<char>,
    limits: Seq<(Seq<char>, i32)>,
    prefix: Seq<char>,
    mn: i32,
    mx: i32,
    df: i32,
)
    requires
        map_get(limits, prefix + "_min"@) == Some(mn),
        map_get(limits, prefix + "_max"@) == Some(mx),
        map_get(limits, prefix + "_def"@) == Some(df),
    ensures
        range_warnings(sec, limits, prefix).contains(default_range_message(sec, prefix, mn, mx, df)) <==> (df
            < mn || df > mx),
        range_warnings(sec, limits, prefix).contains(min_above_max_message(sec, prefix, mn, mx)) <==> mn > mx,
        range_warnings(sec, limits, prefix).len() == (if mn > mx {
            1int
        } else {
            0int
        }) + (if df < mn || df > mx {
            1int
        } else {
            0int
        }),
{
    reveal_strlit("[");
    reveal_strlit("] Default limit ");
    reveal_strlit("] Min limit ");
    let d = default_range_message(sec, prefix, mn, mx, df);
    let m = min_above_max_message(sec, prefix, mn, mx);
    let pre = "["@ + sec;
    let i: int = pre.len() + 2int;
    assert(d =~= pre + ("] Default limit "@ + (d.skip(pre.len() + 16int))));
    assert(m =~= pre + ("] Min limit "@ + (m.skip(pre.len() + 12int))));
    assert(d[i] == 'D');
    assert(m[i] == 'M');
    assert(d != m);
    let r = range_warnings(sec, limits, prefix);
    let w1 = if mn > mx {
        seq![m]
    } else {
        seq![]
    };
    let w2 = if df < mn || df > mx {
        seq![d]
    } else {
        seq![]
    };
    assert(r == w1 + w2);
    if df < mn || df > mx {
        assert(r[w1.len() as int] == d);
    }
    if mn > mx {
        assert(r[0] == m);
    }
}

proof fn lemma_contains_concat(a: Seq<Seq<char>>, b: Seq<Seq<char>>, x: Seq<char>)
    ensures
        a.contains(x) ==> (a + b).contains(x),
        b.contains(x) ==> (a + b).contains(x),
{
    if a.contains(x) {
        let i = choose|i: int| 0 <= i < a.len() && a[i] == x;
        assert((a + b)[i] == x);
    }
    if b.contains(x) {
        let i = choose|i: int| 0 <= i < b.len() && b[i] == x;
        assert((a + b)[a.len() + i] == x);
    }
}

/// The prefixes whose minimum, maximum and default are checked together.
pub open spec fn range_prefixes() -> Seq<Seq<char>> {
    seq![
        "ppt_pl1_spl"@,
        "ppt_pl2_sppt"@,
        "ppt_pl3_fppt"@,
        "ppt_apu_sppt"@,
        "ppt_platform_sppt"@,
        "nv_temp_target"@,
        "nv_dynamic_boost"@,
        "nv_tgp"@,
    ]
}

/// Every range warning of one checked prefix is among the warnings of its
/// section.
#[verifier::spinoff_prover]
#[verifier::rlimit(60)]
proof fn lemma_section_has_range(sec: Seq<char>, l: Seq<(Seq<char>, i32)>, j: int, x: Seq<char>)
    requires
        0 <= j < 8,
        range_warnings(sec, l, range_prefixes()[j]).contains(x),
    ensures
        section_warnings(sec, l).contains(x),
{
    let e = entries_warnings(sec, l);
    let r0 = range_warnings(sec, l, "ppt_pl1_spl"@);
    let r1 = range_warnings(sec, l, "ppt_pl2_sppt"@);
    let r2 = range_warnings(sec, l, "ppt_pl3_fppt"@);
    let r3 = range_warnings(sec, l, "ppt_apu_sppt"@);
    let r4 = range_warnings(sec, l, "ppt_platform_sppt"@);
    let r5 = range_warnings(sec, l, "nv_temp_target"@);
    let r6 = range_warnings(sec, l, "nv_dynamic_boost"@);
    let r7 = range_warnings(sec, l, "nv_tgp"@);
    let s1 = e + r0;
    let s2 = s1 + r1;
    let s3 = s2 + r2;
    let s4 = s3 + r3;
    let s5 = s4 + r4;
    let s6 = s5 + r5;
    let s7 = s6 + r6;
    let s8 = s7 + r7;
    assert(section_warnings(sec, l) == s8);
    lemma_contains_concat(e, r0, x);
    lemma_contains_concat(s1, r1, x);
    lemma_contains_concat(s2, r2, x);
    lemma_contains_concat(s3, r3, x);
    lemma_contains_concat(s4, r4, x);
    lemma_contains_concat(s5, r5, x);
    lemma_contains_concat(s6, r6, x);
    lemma_contains_concat(s7, r7, x);
}

/// Every range warning of each checked prefix is among the warnings of the
/// section, and every warning of a section is among the warnings that
/// `validate_limits` gives (AC for `ac`, DC for `dc`).
pub proof fn lemma_range_warnings_reported(
    ac: Seq<(Seq<char>, i32)>,
    dc: Seq<(Seq<char>, i32)>,
    t: i32,
    j: int,
    x: Seq<char>,
)
    requires
        0 <= j < 8,
    ensures
        range_warnings("AC"@, ac, range_prefixes()[j]).contains(x) ==> limit_warnings(ac, dc, t).contains(x),
        range_warnings("DC"@, dc, range_prefixes()[j]).contains(x) ==> limit_warnings(ac, dc, t).contains(x),
{
    let b = tgp_base_warnings(t);
    let sa = section_warnings("AC"@, ac);
    let sd = section_warnings("DC"@, dc);
    if range_warnings("AC"@, ac, range_prefixes()[j]).contains(x) {
        lemma_section_has_range("AC"@, ac, j, x);
    }
    if range_warnings("DC"@, dc, range_prefixes()[j]).contains(x) {
        lemma_section_has_range("DC"@, dc, j, x);
    }
    lemma_contains_concat(b, sa, x);
    lemma_contains_concat(b + sa, sd, x);
}

} // verus!
