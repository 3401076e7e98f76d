//! The `power_limits[]` table entry of the Linux `asus-armoury` driver for
//! one ThrottleGear profile.

use vstd::prelude::*;
use crate::limits::{
    cpu_limits, extract_cpu_limits, extract_gpu_limits, gpu_limits, limit_warnings, tgp_sums_fit,
    tgp_sums_fit_exec, validate_limits, Limits,
};
use crate::strmap::{map_get, map_insert, StrMap};
use crate::text::{
    chars_eq, chars_to_string, int_text, push_all, push_i64, push_line, push_str, str_chars,
    strings_view,
};
use crate::xml::{
    find_elem, lemma_nodes_model_index, node_model, nodes_model, ElemModel, NodeModel, XmlElement,
    XmlNode,
};

verus! {

broadcast use vstd::string::group_string_axioms;

/// `parts` joined with `sep`.
pub open spec fn join(parts: Seq<Seq<char>>, sep: Seq<char>) -> Seq<char>
    decreases parts.len(),
{
    if parts.len() == 0 {
        seq![]
    } else if parts.len() == 1 {
        parts[0]
    } else {
        join(parts.drop_last(), sep) + sep + parts.last()
    }
}

/// The element holds CPU or GPU settings (itself or below it).
pub open spec fn is_profile(e: ElemModel) -> bool {
    find_elem(e, "ThrottlePluginCPUSettings"@) is Some || find_elem(e, "ThrottlePluginGPUSettings"@) is Some
}

/// Names of the child elements that are profiles, in order.
pub open spec fn profile_names(ns: Seq<NodeModel>) -> Seq<Seq<char>>
    decreases ns.len(),
{
    if ns.len() == 0 {
        seq![]
    } else {
        let rest = profile_names(ns.drop_last());
        match ns.last() {
            NodeModel::Element(e) => if is_profile(e) {
                rest.push(e.name)
            } else {
                rest
            },
            NodeModel::Text(_) => rest,
        }
    }
}

/// The first child element with the given name.
pub open spec fn first_named(ns: Seq<NodeModel>, name: Seq<char>) -> Option<ElemModel>
    decreases ns.len(),
{
    if ns.len() == 0 {
        None
    } else {
        match ns[0] {
            NodeModel::Element(e) => if e.name == name {
                Some(e)
            } else {
                first_named(ns.drop_first(), name)
            },
            NodeModel::Text(_) => first_named(ns.drop_first(), name),
        }
    }
}

/// The error for a requested profile that has no settings.
pub open spec fn profile_not_found(p: Seq<char>, avail: Seq<Seq<char>>) -> Seq<char> {
    "Profile '"@ + p + "' not found in XML."@ + if avail.len() > 0 {
        " Available profiles: "@ + join(avail, ", "@)
    } else {
        seq![]
    }
}

/// The CPU settings, GPU settings and profile name to use: the requested
/// profile (an error when it has neither), else the first profile child, else
/// settings anywhere under the root with the name `Default`.
pub open spec fn select_settings(root: ElemModel, profile: Option<Seq<char>>) -> Result<
    (Option<ElemModel>, Option<ElemModel>, Seq<char>),
    Seq<char>,
> {
    let avail = profile_names(root.children);
    match profile {
        Some(p) => match first_named(root.children, p) {
            Some(e) => {
                let c = find_elem(e, "ThrottlePluginCPUSettings"@);
                let g = find_elem(e, "ThrottlePluginGPUSettings"@);
                if c is None && g is None {
                    Err(profile_not_found(p, avail))
                } else {
                    Ok((c, g, p))
                }
            },
            None => Err(profile_not_found(p, avail)),
        },
        None => if avail.len() > 0 {
            match first_named(root.children, avail[0]) {
                Some(e) => Ok(
                    (
                        find_elem(e, "ThrottlePluginCPUSettings"@),
                        find_elem(e, "ThrottlePluginGPUSettings"@),
                        avail[0],
                    ),
                ),
                None => Ok((None, None, "Default"@)),
            }
        } else {
            Ok(
                (
                    find_elem(root, "ThrottlePluginCPUSettings"@),
                    find_elem(root, "ThrottlePluginGPUSettings"@),
                    "Default"@,
                ),
            )
        },
    }
}

/// `first_named` gives the first child element with the name, or nothing
/// when no child element has it.
pub proof fn lemma_first_named(ns: Seq<NodeModel>, name: Seq<char>)
    ensures
        match first_named(ns, name) {
            Some(e) => exists|i: int|
                0 <= i < ns.len() && #[trigger] ns[i] == NodeModel::Element(e) && e.name == name && forall|k: int|
                    0 <= k < i ==> !(#[trigger] ns[k] is Element && ns[k]->Element_0.name == name),
            None => forall|k: int| 0 <= k < ns.len() ==> !(#[trigger] ns[k] is Element && ns[k]->Element_0.name == name),
        },
    decreases ns.len(),
{
    if ns.len() > 0 {
        let t = ns.drop_first();
        lemma_first_named(t, name);
        assert forall|k: int| 0 < k < ns.len() implies #[trigger] ns[k] == t[k - 1] by {}
        match first_named(ns, name) {
            Some(e) => {
                if ns[0] is Element && ns[0]->Element_0.name == name {
                    assert(ns[0] == NodeModel::Element(e));
                } else {
                    let i = choose|i: int|
                        0 <= i < t.len() && #[trigger] t[i] == NodeModel::Element(e) && e.name == name && forall|
                            k: int,
                        | 0 <= k < i ==> !(#[trigger] t[k] is Element && t[k]->Element_0.name == name);
                    assert(ns[i + 1] == NodeModel::Element(e));
                    assert forall|k: int| 0 <= k < i + 1 implies !(#[trigger] ns[k] is Element
                        && ns[k]->Element_0.name == name) by {
                        if k > 0 {
                            assert(ns[k] == t[k - 1]);
                        }
                    }
                }
            },
            None => {},
        }
    }
}

/// For a requested profile, the settings used are those found within the
/// first child element of the root with that name, and the profile used is
/// the one requested; it is an error when there is no such child or it holds
/// neither CPU nor GPU settings.
pub proof fn lemma_requested_profile(root: ElemModel, p: Seq<char>)
    ensures
        select_settings(root, Some(p)) is Ok ==> ({
            let (c, g, u) = select_settings(root, Some(p))->Ok_0;
            &&& u == p
            &&& (c is Some || g is Some)
            &&& exists|i: int|
                0 <= i < root.children.len() && #[trigger] root.children[i] is Element && root.children[i]->Element_0.name
                    == p && (forall|k: int|
                    0 <= k < i ==> !(#[trigger] root.children[k] is Element && root.children[k]->Element_0.name
                        == p)) && c == find_elem(root.children[i]->Element_0, "ThrottlePluginCPUSettings"@) && g
                    == find_elem(root.children[i]->Element_0, "ThrottlePluginGPUSettings"@)
        }),
        select_settings(root, Some(p)) is Err <==> match first_named(root.children, p) {
            Some(e) => find_elem(e, "ThrottlePluginCPUSettings"@) is None && find_elem(
                e,
                "ThrottlePluginGPUSettings"@,
            ) is None,
            None => true,
        },
{
    lemma_first_named(root.children, p);
    if let Some(e) = first_named(root.children, p) {
        let i = choose|i: int|
            0 <= i < root.children.len() && #[trigger] root.children[i] == NodeModel::Element(e) && e.name == p
                && forall|k: int|
                0 <= k < i ==> !(#[trigger] root.children[k] is Element && root.children[k]->Element_0.name == p);
        assert(root.children[i]->Element_0 == e);
    }
}

/// Inserting every entry of `s`, in order.
pub open spec fn extend(acc: Seq<(Seq<char>, i32)>, s: Seq<(Seq<char>, i32)>) -> Seq<(Seq<char>, i32)>
    decreases s.len(),
{
    if s.len() == 0 {
        acc
    } else {
        map_insert(extend(acc, s.drop_last()), s.last().0, s.last().1)
    }
}

/// AC (`dc` false) or DC limits of the selected settings.
pub open spec fn section_limits(
    cpu: Option<ElemModel>,
    gpu: Option<ElemModel>,
    base: i32,
    dc: bool,
) -> Seq<(Seq<char>, i32)> {
    let a = match cpu {
        Some(c) => extend(seq![], cpu_limits(c, dc)),
        None => seq![],
    };
    match gpu {
        Some(g) => extend(a, gpu_limits(g, base, dc)),
        None => a,
    }
}

/// `\t\t\t\t.key = value,` for each limit, in key order.
pub open spec fn limit_lines(s: Seq<(Seq<char>, i32)>) -> Seq<Seq<char>>
    decreases s.len(),
{
    if s.len() == 0 {
        seq![]
    } else {
        limit_lines(s.drop_last()).push(
            "\t\t\t\t."@ + s.last().0 + " = "@ + int_text(s.last().1 as int) + ","@,
        )
    }
}

/// The block of one section, or nothing when it has no limits.
pub open spec fn section_lines(header: Seq<char>, s: Seq<(Seq<char>, i32)>) -> Seq<Seq<char>> {
    if s.len() == 0 {
        seq![]
    } else {
        seq![header] + limit_lines(s) + seq!["\t\t\t},"@]
    }
}

/// The lines of the table entry.
pub open spec fn c_struct_lines(
    model: Seq<char>,
    ac: Seq<(Seq<char>, i32)>,
    dc: Seq<(Seq<char>, i32)>,
    fan: bool,
) -> Seq<Seq<char>> {
    seq![
        "\t{"@,
        "\t\t.matches = {"@,
        "\t\t\tDMI_MATCH(DMI_BOARD_NAME, \""@ + model + "\"),"@,
        "\t\t},"@,
        "\t\t.driver_data = &(struct power_data) {"@,
    ] + section_lines("\t\t\t.ac_data = &(struct power_limits) {"@, ac) + section_lines(
        "\t\t\t.dc_data = &(struct power_limits) {"@,
        dc,
    ) + seq![
        "\t\t\t.requires_fan_curve = "@ + (if fan {
            "true"@
        } else {
            "false"@
        }) + ","@,
        "\t\t},"@,
        "\t},"@,
    ]
}

/// `Warning: ` before each message.
pub open spec fn warning_lines(ws: Seq<Seq<char>>) -> Seq<Seq<char>>
    decreases ws.len(),
{
    if ws.len() == 0 {
        seq![]
    } else {
        warning_lines(ws.drop_last()).push("Warning: "@ + ws.last())
    }
}

/// What `generate_c_struct` returns: the table entry, the profile used and the
/// warnings to report, or the error.
pub open spec fn c_struct_result(root: ElemModel, profile: Option<Seq<char>>, base: i32, fan: bool) -> Result<
    (Seq<char>, Seq<char>, Seq<Seq<char>>),
    Seq<char>,
> {
    match map_get(root.attrs, "ModelName"@) {
        None => Err("ModelName missing from XML attributes"@),
        Some(model) => match select_settings(root, profile) {
            Err(e) => Err(e),
            Ok((c, g, used)) => {
                let avail = profile_names(root.children);
                let multi = if profile is None && avail.len() > 1 {
                    seq![
                        "Warning: Multiple profiles found in XML: "@ + join(avail, ", "@)
                            + ". Defaulting to '"@ + avail[0] + "'. Use -p/--profile to specify."@,
                    ]
                } else {
                    seq![]
                };
                let ac = section_limits(c, g, base, false);
                let dc = section_limits(c, g, base, true);
                Ok(
                    (
                        join(c_struct_lines(model, ac, dc, fan), "\n"@),
                        used,
                        multi + warning_lines(limit_warnings(ac, dc, base)),
                    ),
                )
            },
        },
    }
}

/// The base TGP plus each TGP offset of the settings that would be used
/// fits in `i32`.
pub open spec fn c_struct_sums_fit(root: ElemModel, profile: Option<Seq<char>>, base: i32) -> bool {
    match select_settings(root, profile) {
        Ok((_, Some(g), _)) => tgp_sums_fit(g, base),
        _ => true,
    }
}


// ---------------------------------------------------------------------------
// Executable parts
// ---------------------------------------------------------------------------

/// Joins strings with a separator.
pub fn join_strings(parts: &Vec<String>, sep: &str) -> (r: Vec<char>)
    ensures
        r@ == join(strings_view(parts@), sep@),
{
    let mut out: Vec<char> = Vec::new();
    let mut i: usize = 0;
    while i < parts.len()
        invariant
            i <= parts@.len(),
            out@ == join(strings_view(parts@).take(i as int), sep@),
        decreases parts.len() - i,
    {
        let ghost before = out@;
        if i > 0 {
            push_str(&mut out, sep);
        }
        let c = str_chars(parts[i].as_str());
        push_all(&mut out, c.as_slice());
        proof {
            let t = strings_view(parts@).take(i + 1);
            assert(t.drop_last() =~= strings_view(parts@).take(i as int));
            if i == 0 {
                assert(out@ =~= t[0]);
            } else {
                assert(out@ =~= before + sep@ + t.last());
            }
        }
        i = i + 1;
    }
    assert(strings_view(parts@).take(i as int) =~= strings_view(parts@));
    out
}

fn is_profile_exec(e: &XmlElement) -> (b: bool)
    ensures
        b == is_profile(e@),
{
    e.find_child_recursive("ThrottlePluginCPUSettings").is_some() || e.find_child_recursive(
        "ThrottlePluginGPUSettings",
    ).is_some()
}

fn profile_names_exec(children: &Vec<XmlNode>) -> (r: Vec<String>)
    ensures
        strings_view(r@) == profile_names(nodes_model(children@)),
{
    let ghost ms = nodes_model(children@);
    proof {
        lemma_nodes_model_index(children@);
    }
    let mut out: Vec<String> = Vec::new();
    let mut i: usize = 0;
    while i < children.len()
        invariant
            i <= children@.len(),
            ms == nodes_model(children@),
            ms.len() == children@.len(),
            forall|j: int| 0 <= j < children@.len() ==> #[trigger] ms[j] == node_model(children@[j]),
            strings_view(out@) == profile_names(ms.take(i as int)),
        decreases children.len() - i,
    {
        proof {
            assert(ms.take(i + 1).drop_last() =~= ms.take(i as int));
            assert(ms.take(i + 1).last() == ms[i as int]);
        }
        match &children[i] {
            XmlNode::Element(e) => {
                if is_profile_exec(e) {
                    push_line(&mut out, e.name.clone());
                }
            },
            XmlNode::Text(_) => {},
        }
        i = i + 1;
    }
    assert(ms.take(i as int) =~= ms);
    out
}

proof fn lemma_first_named_skip(ns: Seq<NodeModel>, name: Seq<char>, i: int)
    requires
        0 <= i <= ns.len(),
        forall|j: int| 0 <= j < i ==> !(#[trigger] ns[j] matches NodeModel::Element(e) && e.name == name),
    ensures
        first_named(ns, name) == first_named(ns.skip(i), name),
    decreases i,
{
    if i > 0 {
        lemma_first_named_skip(ns, name, i - 1);
        assert(ns.skip(i - 1).drop_first() =~= ns.skip(i));
        assert(ns.skip(i - 1)[0] == ns[i - 1]);
    } else {
        assert(ns.skip(0) =~= ns);
    }
}

fn first_named_exec<'a>(children: &'a Vec<XmlNode>, name: &[char]) -> (r: Option<&'a XmlElement>)
    ensures
        match first_named(nodes_model(children@), name@) {
            Some(m) => r matches Some(x) && x@ == m,
            None => r is None,
        },
{
    let ghost ms = nodes_model(children@);
    proof {
        lemma_nodes_model_index(children@);
    }
    let mut i: usize = 0;
    while i < children.len()
        invariant
            i <= children@.len(),
            ms == nodes_model(children@),
            ms.len() == children@.len(),
            forall|j: int| 0 <= j < children@.len() ==> #[trigger] ms[j] == node_model(children@[j]),
            forall|j: int| 0 <= j < i ==> !(#[trigger] ms[j] matches NodeModel::Element(e) && e.name == name@),
        decreases children.len() - i,
    {
        match &children[i] {
            XmlNode::Element(e) => {
                let en = str_chars(e.name.as_str());
                if chars_eq(en.as_slice(), name) {
                    proof {
                        lemma_first_named_skip(ms, name@, i as int);
                        assert(ms.skip(i as int)[0] == ms[i as int]);
                    }
                    return Some(e);
                }
            },
            XmlNode::Text(_) => {},
        }
        i = i + 1;
    }
    proof {
        lemma_first_named_skip(ms, name@, i as int);
    }
    None
}

fn extend_exec(acc: &mut Limits, other: &Limits)
    ensures
        final(acc)@ == extend(old(acc)@, other@),
{
    let n = other.len();
    let mut k: usize = 0;
    while k < n
        invariant
            k <= n,
            n == other@.len(),
            acc@ == extend(old(acc)@, other@.take(k as int)),
        decreases n - k,
    {
        let key = other.key_at(k).clone();
        let val = *other.value_at(k);
        acc.insert(key, val);
        proof {
            assert(other@.take(k + 1).drop_last() =~= other@.take(k as int));
        }
        k = k + 1;
    }
    assert(other@.take(n as int) =~= other@);
}

fn push_section_lines(lines: &mut Vec<String>, header: &str, limits: &Limits)
    ensures
        strings_view(final(lines)@) == strings_view(old(lines)@) + section_lines(header@, limits@),
{
    let n = limits.len();
    if n == 0 {
        assert(strings_view(lines@) =~= strings_view(old(lines)@) + section_lines(header@, limits@));
        return ;
    }
    push_line(lines, String::from_str(header));
    let ghost after_header = strings_view(lines@);
    let mut k: usize = 0;
    while k < n
        invariant
            k <= n,
            n == limits@.len(),
            strings_view(lines@) == after_header + limit_lines(limits@.take(k as int)),
        decreases n - k,
    {
        let mut w: Vec<char> = Vec::new();
        push_str(&mut w, "\t\t\t\t.");
        let key = str_chars(limits.key_at(k).as_str());
        push_all(&mut w, key.as_slice());
        push_str(&mut w, " = ");
        push_i64(&mut w, *limits.value_at(k) as i64);
        push_str(&mut w, ",");
        push_line(lines, chars_to_string(w.as_slice()));
        proof {
            assert(limits@.take(k + 1).drop_last() =~= limits@.take(k as int));
            assert(strings_view(lines@) =~= after_header + limit_lines(limits@.take(k + 1)));
        }
        k = k + 1;
    }
    assert(limits@.take(n as int) =~= limits@);
    push_line(lines, String::from_str("\t\t\t},"));
    assert(strings_view(lines@) =~= strings_view(old(lines)@) + section_lines(header@, limits@));
}

/// The model of an optional element.
pub open spec fn opt_view(o: Option<&XmlElement>) -> Option<ElemModel> {
    match o {
        Some(x) => Some(x@),
        None => None,
    }
}

fn section_limits_exec(
    cpu: Option<&XmlElement>,
    gpu: Option<&XmlElement>,
    base: i32,
    dc: bool,
) -> (r: Limits)
    requires
        dc || (gpu matches Some(g) ==> tgp_sums_fit(g@, base)),
    ensures
        r@ == section_limits(opt_view(cpu), opt_view(gpu), base, dc),
{
    let mut acc: Limits = StrMap::new();
    if let Some(c) = cpu {
        let l = extract_cpu_limits(c, dc);
        extend_exec(&mut acc, &l);
    }
    if let Some(g) = gpu {
        let l = extract_gpu_limits(g, base, dc);
        extend_exec(&mut acc, &l);
    }
    acc
}

proof fn lemma_warning_lines_push(ws: Seq<Seq<char>>, i: int)
    requires
        0 <= i < ws.len(),
    ensures
        warning_lines(ws.take(i + 1)) == warning_lines(ws.take(i)).push("Warning: "@ + ws[i]),
{
    assert(ws.take(i + 1).drop_last() =~= ws.take(i));
}

fn select_settings_exec<'a>(root: &'a XmlElement, profile: Option<&str>, available: &Vec<String>) -> (r: Result<
    (Option<&'a XmlElement>, Option<&'a XmlElement>, String),
    String,
>)
    requires
        strings_view(available@) == profile_names(root@.children),
    ensures
        match select_settings(
            root@,
            match profile {
                Some(p) => Some(p@),
                None => None,
            },
        ) {
            Ok((c, g, u)) => r matches Ok((x, y, z)) && opt_view(x) == c && opt_view(y) == g && z@ == u,
            Err(e) => r matches Err(x) && x@ == e,
        },
{
    match profile {
        Some(prof_name) => {
            let pc = str_chars(prof_name);
            let (found_cpu, found_gpu) = match first_named_exec(&root.children, pc.as_slice()) {
                Some(e) => (
                    e.find_child_recursive("ThrottlePluginCPUSettings"),
                    e.find_child_recursive("ThrottlePluginGPUSettings"),
                ),
                None => (None, None),
            };
            if found_cpu.is_none() && found_gpu.is_none() {
                let mut msg: Vec<char> = Vec::new();
                push_str(&mut msg, "Profile '");
                push_all(&mut msg, pc.as_slice());
                push_str(&mut msg, "' not found in XML.");
                if available.len() > 0 {
                    push_str(&mut msg, " Available profiles: ");
                    let j = join_strings(available, ", ");
                    push_all(&mut msg, j.as_slice());
                }
                assert(msg@ =~= profile_not_found(prof_name@, strings_view(available@)));
                return Err(chars_to_string(msg.as_slice()));
            }
            Ok((found_cpu, found_gpu, String::from_str(prof_name)))
        },
        None => {
            if available.len() > 0 {
                let first = str_chars(available[0].as_str());
                match first_named_exec(&root.children, first.as_slice()) {
                    Some(e) => Ok(
                        (
                            e.find_child_recursive("ThrottlePluginCPUSettings"),
                            e.find_child_recursive("ThrottlePluginGPUSettings"),
                            available[0].clone(),
                        ),
                    ),
                    None => Ok((None, None, String::from_str("Default"))),
                }
            } else {
                Ok(
                    (
                        root.find_child_recursive("ThrottlePluginCPUSettings"),
                        root.find_child_recursive("ThrottlePluginGPUSettings"),
                        String::from_str("Default"),
                    ),
                )
            }
        },
    }
}

fn push_warning_lines(notes: &mut Vec<String>, warnings: &Vec<String>)
    ensures
        strings_view(final(notes)@) == strings_view(old(notes)@) + warning_lines(strings_view(warnings@)),
{
    let ghost ws = strings_view(warnings@);
    let mut k: usize = 0;
    while k < warnings.len()
        invariant
            k <= warnings@.len(),
            ws == strings_view(warnings@),
            strings_view(notes@) == strings_view(old(notes)@) + warning_lines(ws.take(k as int)),
        decreases warnings.len() - k,
    {
        let mut w: Vec<char> = Vec::new();
        push_str(&mut w, "Warning: ");
        let c = str_chars(warnings[k].as_str());
        push_all(&mut w, c.as_slice());
        push_line(notes, chars_to_string(w.as_slice()));
        proof {
            lemma_warning_lines_push(ws, k as int);
            assert(strings_view(notes@) =~= strings_view(old(notes)@) + warning_lines(ws.take(k + 1)));
        }
        k = k + 1;
    }
    assert(ws.take(k as int) =~= ws);
}

fn c_struct_text(model: &String, ac_limits: &Limits, dc_limits: &Limits, requires_fan_curve: bool) -> (r: String)
    ensures
        r@ == join(c_struct_lines(model@, ac_limits@, dc_limits@, requires_fan_curve), "\n"@),
{
    let mut lines: Vec<String> = Vec::new();
    push_line(&mut lines, String::from_str("\t{"));
    push_line(&mut lines, String::from_str("\t\t.matches = {"));
    let mc = str_chars(model.as_str());
    let mut dmi: Vec<char> = Vec::new();
    push_str(&mut dmi, "\t\t\tDMI_MATCH(DMI_BOARD_NAME, \"");
    push_all(&mut dmi, mc.as_slice());
    push_str(&mut dmi, "\"),");
    push_line(&mut lines, chars_to_string(dmi.as_slice()));
    push_line(&mut lines, String::from_str("\t\t},"));
    push_line(&mut lines, String::from_str("\t\t.driver_data = &(struct power_data) {"));
    push_section_lines(&mut lines, "\t\t\t.ac_data = &(struct power_limits) {", ac_limits);
    push_section_lines(&mut lines, "\t\t\t.dc_data = &(struct power_limits) {", dc_limits);
    let mut fan: Vec<char> = Vec::new();
    push_str(&mut fan, "\t\t\t.requires_fan_curve = ");
    if requires_fan_curve {
        push_str(&mut fan, "true");
    } else {
        push_str(&mut fan, "false");
    }
    push_str(&mut fan, ",");
    push_line(&mut lines, chars_to_string(fan.as_slice()));
    push_line(&mut lines, String::from_str("\t\t},"));
    push_line(&mut lines, String::from_str("\t},"));
    assert(strings_view(lines@) =~= c_struct_lines(mc@, ac_limits@, dc_limits@, requires_fan_curve));
    let text = join_strings(&lines, "\n");
    chars_to_string(text.as_slice())
}

/// Whether the TGP sums that `generate_c_struct` computes for these
/// arguments fit in `i32`; where they do not, the computation would overflow.
pub fn c_struct_fits(root: &XmlElement, profile: Option<&str>, gpu_base_tgp: i32) -> (b: bool)
    ensures
        b == c_struct_sums_fit(
            root@,
            match profile {
                Some(p) => Some(p@),
                None => None,
            },
            gpu_base_tgp,
        ),
{
    let available = profile_names_exec(&root.children);
    match select_settings_exec(root, profile, &available) {
        Ok((_, Some(g), _)) => tgp_sums_fit_exec(g, gpu_base_tgp),
        _ => true,
    }
}

/// Builds the `power_limits[]` entry for the root of a decrypted
/// ThrottleGear file: the entry's text, the profile used, and the warnings to
/// report (several profiles without a choice; implausible limits).
pub fn generate_c_struct(
    root: &XmlElement,
    profile: Option<&str>,
    gpu_base_tgp: i32,
    requires_fan_curve: bool,
) -> (r: Result<(String, String, Vec<String>), String>)
    requires
        c_struct_sums_fit(
            root@,
            match profile {
                Some(p) => Some(p@),
                None => None,
            },
            gpu_base_tgp,
        ),
    ensures
        match c_struct_result(
            root@,
            match profile {
                Some(p) => Some(p@),
                None => None,
            },
            gpu_base_tgp,
            requires_fan_curve,
        ) {
            Ok((text, used, warnings)) => r matches Ok((t, u, w)) && t@ == text && u@ == used
                && strings_view(w@) == warnings,
            Err(e) => r matches Err(x) && x@ == e,
        },
{
    let model_name = match root.get_attribute("ModelName") {
        Some(m) => m,
        None => {
            return Err(String::from_str("ModelName missing from XML attributes"));
        },
    };
    let available = profile_names_exec(&root.children);
    let (cpu_settings, gpu_settings, profile_used) = match select_settings_exec(
        root,
        profile,
        &available,
    ) {
        Ok(t) => t,
        Err(e) => {
            return Err(e);
        },
    };
    let mut notes: Vec<String> = Vec::new();
    if profile.is_none() && available.len() > 1 {
        let first = str_chars(available[0].as_str());
        let mut msg: Vec<char> = Vec::new();
        push_str(&mut msg, "Warning: Multiple profiles found in XML: ");
        let j = join_strings(&available, ", ");
        push_all(&mut msg, j.as_slice());
        push_str(&mut msg, ". Defaulting to '");
        push_all(&mut msg, first.as_slice());
        push_str(&mut msg, "'. Use -p/--profile to specify.");
        push_line(&mut notes, chars_to_string(msg.as_slice()));
    }
    let ac_limits = section_limits_exec(cpu_settings, gpu_settings, gpu_base_tgp, false);
    let dc_limits = section_limits_exec(cpu_settings, gpu_settings, gpu_base_tgp, true);
    let warnings = validate_limits(&ac_limits, &dc_limits, gpu_base_tgp);
    push_warning_lines(&mut notes, &warnings);
    let text = c_struct_text(model_name, &ac_limits, &dc_limits, requires_fan_curve);
    Ok((text, profile_used, notes))
}

} // verus!
