//! Placing a generated quirk entry into the `power_limits[]` table of
//! `asus-armoury.h`: finding the entry of a board, reading and updating the
//! limits of an entry in place, and a unified diff of the change.

use vstd::prelude::*;
use crate::strmap::{map_get, map_insert, StrMap};
use crate::limits::Limits;
use crate::text::{
    chars_contains_str, chars_find, chars_numeric_prefix_len, chars_slice, chars_starts_with,
    chars_to_string, chars_trim, contains, count_leading, find_char, int_text, numeric_prefix_len,
    parse_i32, parse_i32_chars, push_all, push_i64, push_line, push_str, starts_with, str_chars,
    strings_view, trim, trim_start, ws_prefix_len,
};

verus! {

broadcast use vstd::string::group_string_axioms;

/// One entry of the `power_limits[]` table: its board name and its first and
/// last line.
#[derive(Debug)]
pub struct Entry {
    pub board_name: Option<String>,
    pub start_idx: usize,
    pub end_idx: usize,
}

pub open spec fn board_of(e: Entry) -> Option<Seq<char>> {
    match e.board_name {
        Some(b) => Some(b@),
        None => None,
    }
}

/// The board names of the entries.
pub open spec fn boards(es: Seq<Entry>) -> Seq<Option<Seq<char>>> {
    es.map_values(|e: Entry| board_of(e))
}

/// Index of the first board name equal to `model`.
pub open spec fn exact_entry(bs: Seq<Option<Seq<char>>>, model: Seq<char>) -> Option<int>
    decreases bs.len(),
{
    if bs.len() == 0 {
        None
    } else if bs[0] == Some(model) {
        Some(0)
    } else {
        match exact_entry(bs.drop_first(), model) {
            Some(i) => Some(i + 1),
            None => None,
        }
    }
}

/// Index of the longest board name that `model` starts with; the first such
/// one among equally long ones.
pub open spec fn longest_prefix_entry(bs: Seq<Option<Seq<char>>>, model: Seq<char>) -> Option<int>
    decreases bs.len(),
{
    if bs.len() == 0 {
        None
    } else {
        let prev = longest_prefix_entry(bs.drop_last(), model);
        let k = bs.len() - 1;
        match bs[k] {
            Some(b) => if starts_with(model, b) {
                match prev {
                    None => Some(k),
                    Some(j) => if b.len() > bs[j]->0.len() {
                        Some(k)
                    } else {
                        prev
                    },
                }
            } else {
                prev
            },
            None => prev,
        }
    }
}

pub proof fn lemma_exact_entry(bs: Seq<Option<Seq<char>>>, model: Seq<char>)
    ensures
        exact_entry(bs, model) matches Some(i) ==> 0 <= i < bs.len() && bs[i] == Some(model),
    decreases bs.len(),
{
    if bs.len() > 0 {
        lemma_exact_entry(bs.drop_first(), model);
    }
}

pub proof fn lemma_longest_prefix_entry(bs: Seq<Option<Seq<char>>>, model: Seq<char>)
    ensures
        longest_prefix_entry(bs, model) matches Some(j) ==> 0 <= j < bs.len() && bs[j] is Some
            && starts_with(model, bs[j]->0),
    decreases bs.len(),
{
    if bs.len() > 0 {
        lemma_longest_prefix_entry(bs.drop_last(), model);
    }
}

/// An exact match is an entry whose board name is the model, and the first
/// one; without one, no board name equals the model.
pub proof fn lemma_exact_entry_is_first_match(bs: Seq<Option<Seq<char>>>, model: Seq<char>)
    ensures
        match exact_entry(bs, model) {
            Some(i) => 0 <= i < bs.len() && bs[i] == Some(model) && forall|k: int|
                0 <= k < i ==> #[trigger] bs[k] != Some(model),
            None => forall|k: int| 0 <= k < bs.len() ==> #[trigger] bs[k] != Some(model),
        },
    decreases bs.len(),
{
    if bs.len() > 0 {
        lemma_exact_entry_is_first_match(bs.drop_first(), model);
        assert forall|k: int| 0 < k < bs.len() implies bs[k] == bs.drop_first()[k - 1] by {}
    }
}

/// The superseding entry is one whose board name is a prefix of the model,
/// no other such board name is longer, and among equally long ones it comes
/// first; without one, no board name is a prefix of the model.
pub proof fn lemma_longest_prefix_is_longest(bs: Seq<Option<Seq<char>>>, model: Seq<char>)
    ensures
        match longest_prefix_entry(bs, model) {
            Some(j) => {
                &&& 0 <= j < bs.len()
                &&& bs[j] is Some
                &&& starts_with(model, bs[j]->0)
                &&& forall|k: int|
                    0 <= k < bs.len() && #[trigger] bs[k] is Some && starts_with(model, bs[k]->0) ==> bs[k]->0.len()
                        <= bs[j]->0.len()
                &&& forall|k: int|
                    0 <= k < j && #[trigger] bs[k] is Some && starts_with(model, bs[k]->0) ==> bs[k]->0.len()
                        < bs[j]->0.len()
            },
            None => forall|k: int|
                0 <= k < bs.len() && #[trigger] bs[k] is Some ==> !starts_with(model, bs[k]->0),
        },
    decreases bs.len(),
{
    if bs.len() > 0 {
        let t = bs.drop_last();
        lemma_longest_prefix_is_longest(t, model);
        assert forall|k: int| 0 <= k < t.len() implies #[trigger] bs[k] == t[k] by {}
        let last = bs.len() - 1;
        let prev = longest_prefix_entry(t, model);
        if bs[last] is Some && starts_with(model, bs[last]->0) {
            if let Some(j) = prev {
                assert(bs[j] == t[j]);
            }
        }
    }
}

/// Finds the table entry for a model: an entry with exactly that board name,
/// else the entry whose board name is the longest prefix of the model, which
/// then supersedes it (its board name is returned too).
pub fn find_best_entry<'a>(entries: &'a [Entry], model_name: &str) -> (r: (
    Option<&'a Entry>,
    Option<String>,
))
    ensures
        match exact_entry(boards(entries@), model_name@) {
            Some(i) => r.0 == Some(&entries@[i]) && r.1 is None,
            None => match longest_prefix_entry(boards(entries@), model_name@) {
                Some(j) => r.0 == Some(&entries@[j]) && (r.1 matches Some(s) && Some(s@) == board_of(
                    entries@[j],
                )),
                None => r.0 is None && r.1 is None,
            },
        },
        (r.0 is Some && r.1 is None) ==> board_of(*r.0->0) == Some(model_name@),
        r.1 is Some ==> {
            &&& r.0 is Some && board_of(*r.0->0) == Some(r.1->0@)
            &&& starts_with(model_name@, r.1->0@)
            &&& forall|k: int| 0 <= k < entries@.len() ==> board_of(#[trigger] entries@[k]) != Some(model_name@)
            &&& forall|k: int|
                0 <= k < entries@.len() && board_of(#[trigger] entries@[k]) is Some && starts_with(
                    model_name@,
                    board_of(entries@[k])->0,
                ) ==> board_of(entries@[k])->0.len() <= r.1->0@.len()
        },
        r.0 is None ==> forall|k: int|
            0 <= k < entries@.len() && board_of(#[trigger] entries@[k]) is Some ==> !starts_with(
                model_name@,
                board_of(entries@[k])->0,
            ),
{
    proof {
        lemma_exact_entry_is_first_match(boards(entries@), model_name@);
        lemma_longest_prefix_is_longest(boards(entries@), model_name@);
        assert forall|k: int| 0 <= k < entries@.len() implies #[trigger] boards(entries@)[k] == board_of(
            entries@[k],
        ) by {}
    }
    let model = str_chars(model_name);
    let ghost bs = boards(entries@);
    let mut i: usize = 0;
    assert(bs.skip(0) =~= bs);
    while i < entries.len()
        invariant
            i <= entries@.len(),
            model@ == model_name@,
            bs == boards(entries@),
            exact_entry(bs, model_name@) == match exact_entry(bs.skip(i as int), model_name@) {
                Some(k) => Some(k + i),
                None => None,
            },
        decreases entries.len() - i,
    {
        let ghost rest = bs.skip(i as int);
        assert(rest[0] == board_of(entries@[i as int]));
        assert(rest.drop_first() =~= bs.skip(i + 1));
        if let Some(b) = &entries[i].board_name {
            let bc = str_chars(b.as_str());
            if crate::text::chars_eq(bc.as_slice(), model.as_slice()) {
                return (Some(&entries[i]), None);
            }
        }
        i = i + 1;
    }
    let mut best: Option<usize> = None;
    let mut best_len: usize = 0;
    let mut k: usize = 0;
    while k < entries.len()
        invariant
            k <= entries@.len(),
            model@ == model_name@,
            bs == boards(entries@),
            exact_entry(bs, model_name@) is None,
            best == match longest_prefix_entry(bs.take(k as int), model_name@) {
                Some(j) => Some(j as usize),
                None => None::<usize>,
            },
            best matches Some(j) ==> j < k && board_of(entries@[j as int]) is Some && best_len == board_of(
                entries@[j as int],
            )->0.len(),
        decreases entries.len() - k,
    {
        proof {
            assert(bs.take(k + 1).drop_last() =~= bs.take(k as int));
            assert(bs.take(k + 1)[k as int] == board_of(entries@[k as int]));
            lemma_longest_prefix_entry(bs.take(k as int), model_name@);
            if let Some(j) = best {
                assert(bs.take(k + 1)[j as int] == board_of(entries@[j as int]));
            }
        }
        if let Some(b) = &entries[k].board_name {
            let bc = str_chars(b.as_str());
            if chars_starts_with(model.as_slice(), bc.as_slice()) {
                match best {
                    None => {
                        best = Some(k);
                        best_len = bc.len();
                    },
                    Some(_) => {
                        if bc.len() > best_len {
                            best = Some(k);
                            best_len = bc.len();
                        }
                    },
                }
            }
        }
        k = k + 1;
    }
    assert(bs.take(k as int) =~= bs);
    proof {
        lemma_longest_prefix_entry(bs, model_name@);
        lemma_exact_entry_is_first_match(bs, model_name@);
        lemma_longest_prefix_is_longest(bs, model_name@);
        assert forall|k: int| 0 <= k < entries@.len() implies #[trigger] board_of(entries@[k]) == bs[k] by {}
    }
    match best {
        Some(j) => {
            let name = match &entries[j].board_name {
                Some(b) => Some(b.clone()),
                None => None,
            };
            (Some(&entries[j]), name)
        },
        None => (None, None),
    }
}

// ---------------------------------------------------------------------------
// Reading `.field = value,` lines
// ---------------------------------------------------------------------------

/// `.field = value` on a line: the text between the first `.` and the next
/// `=` (trimmed), and the run of digits and `-` that follows the `=` and the
/// whitespace after it, parsed as `i32`.
pub open spec fn field_and_value(l: Seq<char>) -> Option<(Seq<char>, i32)> {
    match find_char(l, '.') {
        None => None,
        Some(d) => match find_char(l.skip(d), '=') {
            None => None,
            Some(e) => {
                let field = trim(l.subrange(d + 1, d + e));
                let rest = trim_start(l.skip(d + e + 1));
                match parse_i32(trim(rest.take(numeric_prefix_len(rest) as int))) {
                    Some(v) => Some((field, v)),
                    None => None,
                }
            },
        },
    }
}

fn field_and_value_chars(l: &[char]) -> (r: Option<(Vec<char>, i32)>)
    ensures
        match field_and_value(l@) {
            Some((f, v)) => r matches Some((x, y)) && x@ == f && y == v,
            None => r is None,
        },
{
    let d = match chars_find(l, '.') {
        Some(d) => d,
        None => {
            return None;
        },
    };
    proof {
        crate::text::lemma_find_char_bounds(l@, '.');
    }
    let after = chars_slice(l, d, l.len());
    assert(after@ =~= l@.skip(d as int));
    let e = match chars_find(after.as_slice(), '=') {
        Some(e) => e,
        None => {
            return None;
        },
    };
    proof {
        crate::text::lemma_find_char_bounds(after@, '=');
        assert(after@[0] == '.');
    }
    let raw_field = chars_slice(l, d + 1, d + e);
    let field = chars_trim(raw_field.as_slice());
    let raw_rest = chars_slice(l, d + e + 1, l.len());
    assert(raw_rest@ =~= l@.skip(d + e + 1));
    let rest = crate::text::chars_trim_start(raw_rest.as_slice());
    let n = chars_numeric_prefix_len(rest.as_slice());
    proof {
        crate::text::lemma_numeric_prefix_len_bound(rest@);
    }
    let num = chars_slice(rest.as_slice(), 0, n);
    assert(num@ =~= rest@.take(n as int));
    let num_trimmed = chars_trim(num.as_slice());
    match parse_i32_chars(num_trimmed.as_slice()) {
        Some(v) => Some((field, v)),
        None => None,
    }
}

/// Reads `.field = value` from a line of a C initializer.
pub fn parse_line_field_and_val(line: &str) -> (r: Option<(String, i32)>)
    ensures
        match field_and_value(line@) {
            Some((f, v)) => r matches Some((x, y)) && x@ == f && y == v,
            None => r is None,
        },
{
    let l = str_chars(line);
    match field_and_value_chars(l.as_slice()) {
        Some((f, v)) => Some((chars_to_string(f.as_slice()), v)),
        None => None,
    }
}


// ---------------------------------------------------------------------------
// Reading the limits of an entry
// ---------------------------------------------------------------------------

/// Where a line-by-line reading of an initializer stands.
pub struct ScanState {
    pub ac: Seq<(Seq<char>, i32)>,
    pub dc: Seq<(Seq<char>, i32)>,
    pub fan: Option<bool>,
    /// 0: before any section, 1: in `.ac_data`, 2: in `.dc_data`.
    pub section: int,
}

/// One line: section headers switch the section, `requires_fan_curve` sets
/// the fan flag, and `.field = value` lines are recorded in the current
/// section.
pub open spec fn scan_step(st: ScanState, line: Seq<char>) -> ScanState {
    if contains(line, ".ac_data"@) {
        ScanState { section: 1, ..st }
    } else if contains(line, ".dc_data"@) {
        ScanState { section: 2, ..st }
    } else if contains(line, "requires_fan_curve"@) {
        if contains(line, "true"@) {
            ScanState { fan: Some(true), ..st }
        } else if contains(line, "false"@) {
            ScanState { fan: Some(false), ..st }
        } else {
            st
        }
    } else {
        match field_and_value(line) {
            Some((f, v)) => if st.section == 1 {
                ScanState { ac: map_insert(st.ac, f, v), ..st }
            } else if st.section == 2 {
                ScanState { dc: map_insert(st.dc, f, v), ..st }
            } else {
                st
            },
            None => st,
        }
    }
}

/// All lines, in order.
pub open spec fn scan_lines(lines: Seq<Seq<char>>) -> ScanState
    decreases lines.len(),
{
    if lines.len() == 0 {
        ScanState { ac: seq![], dc: seq![], fan: None, section: 0 }
    } else {
        scan_step(scan_lines(lines.drop_last()), lines.last())
    }
}

/// Reads the AC limits, DC limits and `requires_fan_curve` of a C initializer.
pub fn parse_c_struct_limits(c_struct_lines: &[String]) -> (r: (Limits, Limits, Option<bool>))
    ensures
        r.0@ == scan_lines(strings_view(c_struct_lines@)).ac,
        r.1@ == scan_lines(strings_view(c_struct_lines@)).dc,
        r.2 == scan_lines(strings_view(c_struct_lines@)).fan,
{
    let ghost ls = strings_view(c_struct_lines@);
    let mut ac: Limits = StrMap::new();
    let mut dc: Limits = StrMap::new();
    let mut fan: Option<bool> = None;
    let mut section: u8 = 0;
    let mut i: usize = 0;
    while i < c_struct_lines.len()
        invariant
            i <= c_struct_lines@.len(),
            ls == strings_view(c_struct_lines@),
            scan_lines(ls.take(i as int)) == (ScanState { ac: ac@, dc: dc@, fan: fan, section: section as int }),
        decreases c_struct_lines.len() - i,
    {
        proof {
            assert(ls.take(i + 1).drop_last() =~= ls.take(i as int));
            assert(ls.take(i + 1).last() == c_struct_lines@[i as int]@);
        }
        let line = str_chars(c_struct_lines[i].as_str());
        let l = line.as_slice();
        if chars_contains_str(l, ".ac_data") {
            section = 1;
        } else if chars_contains_str(l, ".dc_data") {
            section = 2;
        } else if chars_contains_str(l, "requires_fan_curve") {
            if chars_contains_str(l, "true") {
                fan = Some(true);
            } else if chars_contains_str(l, "false") {
                fan = Some(false);
            }
        } else {
            if let Some((f, v)) = field_and_value_chars(l) {
                if section == 1 {
                    ac.insert(chars_to_string(f.as_slice()), v);
                } else if section == 2 {
                    dc.insert(chars_to_string(f.as_slice()), v);
                }
            }
        }
        i = i + 1;
    }
    assert(ls.take(i as int) =~= ls);
    (ac, dc, fan)
}

// ---------------------------------------------------------------------------
// Updating an entry in place
// ---------------------------------------------------------------------------

/// Where an in-place update stands after some lines.
pub struct UpdateState {
    pub in_ac: bool,
    pub in_dc: bool,
    pub in_driver_data: bool,
    pub done_ac: Seq<(Seq<char>, bool)>,
    pub done_dc: Seq<(Seq<char>, bool)>,
    pub done_fan: bool,
}

/// The leading whitespace of a line.
pub open spec fn indent_of(l: Seq<char>) -> Seq<char> {
    l.take(ws_prefix_len(l) as int)
}

pub open spec fn bool_text(b: bool) -> Seq<char> {
    if b {
        "true"@
    } else {
        "false"@
    }
}

/// A line `<indent>.<key> = <value>,`.
pub open spec fn field_line(indent: Seq<char>, key: Seq<char>, v: i32) -> Seq<char> {
    indent + "."@ + key + " = "@ + int_text(v as int) + ","@
}

/// Lines for the new limits that the section did not have, in key order, one
/// tab deeper than the closing brace.
pub open spec fn missing_lines(
    indent: Seq<char>,
    new: Seq<(Seq<char>, i32)>,
    done: Seq<(Seq<char>, bool)>,
) -> Seq<Seq<char>>
    decreases new.len(),
{
    if new.len() == 0 {
        seq![]
    } else {
        let rest = missing_lines(indent, new.drop_last(), done);
        if map_get(done, new.last().0) is Some {
            rest
        } else {
            rest.push(field_line("\t"@ + indent, new.last().0, new.last().1))
        }
    }
}

/// The state after the section markers of a line are seen.
pub open spec fn step_flags(st: UpdateState, line: Seq<char>) -> UpdateState {
    UpdateState {
        in_ac: if contains(line, ".ac_data"@) {
            true
        } else {
            st.in_ac
        },
        in_dc: if !contains(line, ".ac_data"@) && contains(line, ".dc_data"@) {
            true
        } else {
            st.in_dc
        },
        in_driver_data: st.in_driver_data || contains(line, ".driver_data"@),
        ..st
    }
}

/// The new value of a `.field = value` line inside a section, if the new
/// limits have that field.
pub open spec fn field_hit(
    s1: UpdateState,
    line: Seq<char>,
    ac: Seq<(Seq<char>, i32)>,
    dc: Seq<(Seq<char>, i32)>,
) -> Option<i32> {
    let fv = field_and_value(line);
    if (s1.in_ac || s1.in_dc) && fv is Some {
        if s1.in_ac {
            map_get(ac, (fv->0).0)
        } else {
            map_get(dc, (fv->0).0)
        }
    } else {
        None
    }
}

/// A field line whose limit is in the new limits: kept when the value is the
/// same, else rewritten with the new value.
pub open spec fn field_branch(s1: UpdateState, line: Seq<char>, nv: i32) -> (UpdateState, Seq<Seq<char>>) {
    let fv = field_and_value(line);
    let field = (fv->0).0;
    let old = (fv->0).1;
    let s2 = if s1.in_ac {
        UpdateState { done_ac: map_insert(s1.done_ac, field, true), ..s1 }
    } else {
        UpdateState { done_dc: map_insert(s1.done_dc, field, true), ..s1 }
    };
    (
        s2,
        seq![
            if nv == old {
                line
            } else {
                field_line(indent_of(line), field, nv)
            },
        ],
    )
}

/// A `requires_fan_curve` line inside `.driver_data`: kept when it already
/// says the new value, else rewritten.
pub open spec fn fan_branch(s1: UpdateState, line: Seq<char>, f: bool) -> (UpdateState, Seq<Seq<char>>) {
    (
        UpdateState { done_fan: true, ..s1 },
        seq![
            if f == contains(line, "true"@) {
                line
            } else {
                indent_of(line) + ".requires_fan_curve = "@ + bool_text(f) + ","@
            },
        ],
    )
}

/// Any other line: a closing brace of a section first gets the missing
/// limits, the closing brace of `.driver_data` (two tabs or eight spaces)
/// first gets `requires_fan_curve` if it was not written yet; then the line.
pub open spec fn tail_branch(
    s1: UpdateState,
    line: Seq<char>,
    ac: Seq<(Seq<char>, i32)>,
    dc: Seq<(Seq<char>, i32)>,
    fan: Option<bool>,
) -> (UpdateState, Seq<Seq<char>>) {
    let t = trim(line);
    let closes = t.len() > 0 && t[0] == '}';
    let ia = s1.in_ac;
    let id = s1.in_dc;
    let dd = s1.in_driver_data;
    let out1 = if ia && closes {
        missing_lines(indent_of(line), ac, s1.done_ac)
    } else {
        seq![]
    };
    let ia2 = if ia && closes {
        false
    } else {
        ia
    };
    let out2 = if id && closes {
        missing_lines(indent_of(line), dc, s1.done_dc)
    } else {
        seq![]
    };
    let id2 = if id && closes {
        false
    } else {
        id
    };
    let ends_dd = dd && t == "},"@ && !ia2 && !id2 && (count_leading(line, '\t') == 2 || count_leading(
        line,
        ' ',
    ) == 8);
    let out3 = if ends_dd && fan is Some && !s1.done_fan {
        seq!["\t\t\t.requires_fan_curve = "@ + bool_text(fan->0) + ","@]
    } else {
        seq![]
    };
    let df = if ends_dd && fan is Some {
        true
    } else {
        s1.done_fan
    };
    (
        UpdateState {
            in_ac: ia2,
            in_dc: id2,
            in_driver_data: if ends_dd {
                false
            } else {
                dd
            },
            done_ac: s1.done_ac,
            done_dc: s1.done_dc,
            done_fan: df,
        },
        out1 + out2 + out3 + seq![line],
    )
}

/// The lines written for one input line, and the state after it.
pub open spec fn update_step(
    st: UpdateState,
    line: Seq<char>,
    ac: Seq<(Seq<char>, i32)>,
    dc: Seq<(Seq<char>, i32)>,
    fan: Option<bool>,
    sup: Option<Seq<char>>,
) -> (UpdateState, Seq<Seq<char>>) {
    let s1 = step_flags(st, line);
    if contains(line, "DMI_MATCH(DMI_BOARD_NAME,"@) && sup is Some {
        (s1, seq!["\t\t\tDMI_MATCH(DMI_BOARD_NAME, \""@ + sup->0 + "\"),"@])
    } else if field_hit(s1, line, ac, dc) is Some {
        field_branch(s1, line, field_hit(s1, line, ac, dc)->0)
    } else if s1.in_driver_data && contains(line, "requires_fan_curve"@) && fan is Some {
        fan_branch(s1, line, fan->0)
    } else {
        tail_branch(s1, line, ac, dc, fan)
    }
}

/// All lines, in order: the state and the lines written.
pub open spec fn update_lines(
    lines: Seq<Seq<char>>,
    ac: Seq<(Seq<char>, i32)>,
    dc: Seq<(Seq<char>, i32)>,
    fan: Option<bool>,
    sup: Option<Seq<char>>,
) -> (UpdateState, Seq<Seq<char>>)
    decreases lines.len(),
{
    if lines.len() == 0 {
        (
            UpdateState {
                in_ac: false,
                in_dc: false,
                in_driver_data: false,
                done_ac: seq![],
                done_dc: seq![],
                done_fan: false,
            },
            seq![],
        )
    } else {
        let (st, out) = update_lines(lines.drop_last(), ac, dc, fan, sup);
        let (st2, more) = update_step(st, lines.last(), ac, dc, fan, sup);
        (st2, out + more)
    }
}

/// What an update writes for one line of an entry:
/// - a `.field = value` line of a section whose field has a new limit is
///   replaced where it stands (kept as it is when the value is the same);
/// - a `requires_fan_curve` line inside `.driver_data` is likewise replaced
///   where it stands when a fan setting is given;
/// - the board name line takes the superseding name when there is one;
/// - lines are added only before a line that starts with `}` (the missing
///   limits of a section, or `requires_fan_curve` before the end of
///   `.driver_data`);
/// - every other line is written unchanged.
pub proof fn lemma_update_step_effect(
    st: UpdateState,
    line: Seq<char>,
    ac: Seq<(Seq<char>, i32)>,
    dc: Seq<(Seq<char>, i32)>,
    fan: Option<bool>,
    sup: Option<Seq<char>>,
)
    ensures
        ({
            let s1 = step_flags(st, line);
            let out = update_step(st, line, ac, dc, fan, sup).1;
            let dmi = contains(line, "DMI_MATCH(DMI_BOARD_NAME,"@) && sup is Some;
            let hit = field_hit(s1, line, ac, dc);
            let fan_line = s1.in_driver_data && contains(line, "requires_fan_curve"@) && fan is Some;
            let t = trim(line);
            &&& (!dmi && hit is Some) ==> out == seq![
                if hit->0 == (field_and_value(line)->0).1 {
                    line
                } else {
                    field_line(indent_of(line), (field_and_value(line)->0).0, hit->0)
                },
            ]
            &&& !dmi && hit is None && fan_line ==> out == seq![
                if fan->0 == contains(line, "true"@) {
                    line
                } else {
                    indent_of(line) + ".requires_fan_curve = "@ + bool_text(fan->0) + ","@
                },
            ]
            &&& !dmi && hit is None && !fan_line ==> out.len() >= 1 && out.last() == line
            &&& !dmi && hit is None && !fan_line && !(t.len() > 0 && t[0] == '}') ==> out == seq![line]
        }),
{
    let s1 = step_flags(st, line);
    let out = update_step(st, line, ac, dc, fan, sup).1;
    let t = trim(line);
    if !(contains(line, "DMI_MATCH(DMI_BOARD_NAME,"@) && sup is Some) && field_hit(s1, line, ac, dc) is None
        && !(s1.in_driver_data && contains(line, "requires_fan_curve"@) && fan is Some) {
        let r = tail_branch(s1, line, ac, dc, fan);
        assert(out == r.1);
        if !(t.len() > 0 && t[0] == '}') {
            reveal_strlit("},");
            assert(t != "},"@);
            assert(r.1 =~= seq![line]);
        }
    }
}

/// An update with no new limits, no fan setting and no superseding board
/// name leaves the lines of an entry as they are.
pub proof fn lemma_update_without_changes(lines: Seq<Seq<char>>)
    ensures
        update_lines(lines, seq![], seq![], None, None).1 == lines,
    decreases lines.len(),
{
    if lines.len() > 0 {
        let l = lines.last();
        lemma_update_without_changes(lines.drop_last());
        let st = update_lines(lines.drop_last(), seq![], seq![], None, None).0;
        let s1 = step_flags(st, l);
        assert(field_hit(s1, l, seq![], seq![]) is None);
        assert(missing_lines(indent_of(l), seq![], s1.done_ac) == Seq::<Seq<char>>::empty());
        assert(missing_lines(indent_of(l), seq![], s1.done_dc) == Seq::<Seq<char>>::empty());
        let more = update_step(st, l, seq![], seq![], None, None).1;
        assert(more =~= seq![l]);
        assert(lines =~= lines.drop_last() + seq![l]);
    }
}

struct UpdateExec {
    in_ac: bool,
    in_dc: bool,
    in_driver_data: bool,
    done_ac: StrMap<bool>,
    done_dc: StrMap<bool>,
    done_fan: bool,
}

impl UpdateExec {
    spec fn state(&self) -> UpdateState {
        UpdateState {
            in_ac: self.in_ac,
            in_dc: self.in_dc,
            in_driver_data: self.in_driver_data,
            done_ac: self.done_ac@,
            done_dc: self.done_dc@,
            done_fan: self.done_fan,
        }
    }
}

pub(crate) fn push_bool(v: &mut Vec<char>, b: bool)
    ensures
        final(v)@ == old(v)@ + bool_text(b),
{
    if b {
        push_str(v, "true");
    } else {
        push_str(v, "false");
    }
}

fn field_line_exec(indent: &[char], key: &[char], val: i32) -> (r: String)
    ensures
        r@ == field_line(indent@, key@, val),
{
    let mut w: Vec<char> = Vec::new();
    push_all(&mut w, indent);
    push_str(&mut w, ".");
    push_all(&mut w, key);
    push_str(&mut w, " = ");
    push_i64(&mut w, val as i64);
    push_str(&mut w, ",");
    assert(w@ =~= field_line(indent@, key@, val));
    chars_to_string(w.as_slice())
}

fn push_missing_lines(out: &mut Vec<String>, indent: &[char], new: &Limits, done: &StrMap<bool>)
    ensures
        strings_view(final(out)@) == strings_view(old(out)@) + missing_lines(indent@, new@, done@),
{
    let mut tab_indent: Vec<char> = Vec::new();
    push_str(&mut tab_indent, "\t");
    push_all(&mut tab_indent, indent);
    let n = new.len();
    let mut k: usize = 0;
    while k < n
        invariant
            k <= n,
            n == new@.len(),
            tab_indent@ == "\t"@ + indent@,
            strings_view(out@) == strings_view(old(out)@) + missing_lines(indent@, new@.take(k as int), done@),
        decreases n - k,
    {
        proof {
            assert(new@.take(k + 1).drop_last() =~= new@.take(k as int));
        }
        let key = str_chars(new.key_at(k).as_str());
        if done.get_chars(key.as_slice()).is_none() {
            push_line(out, field_line_exec(tab_indent.as_slice(), key.as_slice(), *new.value_at(k)));
        }
        proof {
            assert(strings_view(out@) =~= strings_view(old(out)@) + missing_lines(indent@, new@.take(k + 1), done@));
        }
        k = k + 1;
    }
    assert(new@.take(n as int) =~= new@);
}

fn indent_exec(l: &[char]) -> (r: Vec<char>)
    ensures
        r@ == indent_of(l@),
{
    let mut i: usize = 0;
    assert(l@.skip(0) =~= l@);
    while i < l.len() && crate::text::is_whitespace(l[i])
        invariant
            i <= l.len(),
            ws_prefix_len(l@) == i + ws_prefix_len(l@.skip(i as int)),
        decreases l.len() - i,
    {
        assert(l@.skip(i as int).drop_first() =~= l@.skip(i + 1));
        i = i + 1;
    }
    chars_slice(l, 0, i)
}

fn tail_exec(
    st: &mut UpdateExec,
    l: &[char],
    line: &String,
    ac: &Limits,
    dc: &Limits,
    fan: Option<bool>,
    out: &mut Vec<String>,
)
    requires
        l@ == line@,
    ensures
        ({
            let (s2, more) = tail_branch(old(st).state(), line@, ac@, dc@, fan);
            final(st).state() == s2 && strings_view(final(out)@) == strings_view(old(out)@) + more
        }),
{
    let ghost out0 = strings_view(out@);
    let t = chars_trim(l);
    let closes = t.len() > 0 && t[0] == '}';
    if st.in_ac && closes {
        let ind = indent_exec(l);
        push_missing_lines(out, ind.as_slice(), ac, &st.done_ac);
        st.in_ac = false;
    }
    if st.in_dc && closes {
        let ind = indent_exec(l);
        push_missing_lines(out, ind.as_slice(), dc, &st.done_dc);
        st.in_dc = false;
    }
    let ghost out12 = strings_view(out@);
    if st.in_driver_data && crate::text::chars_eq_str(t.as_slice(), "},") && !st.in_ac && !st.in_dc {
        let tabs = crate::text::chars_count_leading(l, '\t');
        let spaces = crate::text::chars_count_leading(l, ' ');
        if tabs == 2 || spaces == 8 {
            if let Some(f) = fan {
                if !st.done_fan {
                    let mut w: Vec<char> = Vec::new();
                    push_str(&mut w, "\t\t\t.requires_fan_curve = ");
                    push_bool(&mut w, f);
                    push_str(&mut w, ",");
                    push_line(out, chars_to_string(w.as_slice()));
                }
                st.done_fan = true;
            }
            st.in_driver_data = false;
        }
    }
    push_line(out, line.clone());
    proof {
        let (s2, more) = tail_branch(old(st).state(), line@, ac@, dc@, fan);
        assert(strings_view(out@) =~= out0 + more);
    }
}

fn update_step_exec(
    st: &mut UpdateExec,
    line: &String,
    ac: &Limits,
    dc: &Limits,
    fan: Option<bool>,
    sup: Option<&str>,
    out: &mut Vec<String>,
)
    ensures
        ({
            let (s2, more) = update_step(
                old(st).state(),
                line@,
                ac@,
                dc@,
                fan,
                match sup {
                    Some(x) => Some(x@),
                    None => None,
                },
            );
            final(st).state() == s2 && strings_view(final(out)@) == strings_view(old(out)@) + more
        }),
{
    let lv = str_chars(line.as_str());
    let l = lv.as_slice();
    if chars_contains_str(l, ".driver_data") {
        st.in_driver_data = true;
    }
    if chars_contains_str(l, ".ac_data") {
        st.in_ac = true;
    } else if chars_contains_str(l, ".dc_data") {
        st.in_dc = true;
    }
    assert(st.state() == step_flags(old(st).state(), line@));
    if chars_contains_str(l, "DMI_MATCH(DMI_BOARD_NAME,") {
        if let Some(s) = sup {
            let mut w: Vec<char> = Vec::new();
            push_str(&mut w, "\t\t\tDMI_MATCH(DMI_BOARD_NAME, \"");
            push_str(&mut w, s);
            push_str(&mut w, "\"),");
            push_line(out, chars_to_string(w.as_slice()));
            return ;
        }
    }
    if st.in_ac || st.in_dc {
        if let Some((field, old_val)) = field_and_value_chars(l) {
            let hit = if st.in_ac {
                ac.get_chars(field.as_slice())
            } else {
                dc.get_chars(field.as_slice())
            };
            if let Some(nv) = hit {
                let nv = *nv;
                if st.in_ac {
                    st.done_ac.insert(chars_to_string(field.as_slice()), true);
                } else {
                    st.done_dc.insert(chars_to_string(field.as_slice()), true);
                }
                if nv == old_val {
                    push_line(out, line.clone());
                } else {
                    let ind = indent_exec(l);
                    push_line(out, field_line_exec(ind.as_slice(), field.as_slice(), nv));
                }
                return ;
            }
        }
    }
    if st.in_driver_data && chars_contains_str(l, "requires_fan_curve") {
        if let Some(f) = fan {
            st.done_fan = true;
            let old_fan = chars_contains_str(l, "true");
            if f == old_fan {
                push_line(out, line.clone());
            } else {
                let ind = indent_exec(l);
                let mut w: Vec<char> = Vec::new();
                push_all(&mut w, ind.as_slice());
                push_str(&mut w, ".requires_fan_curve = ");
                push_bool(&mut w, f);
                push_str(&mut w, ",");
                push_line(out, chars_to_string(w.as_slice()));
            }
            return ;
        }
    }
    tail_exec(st, l, line, ac, dc, fan, out);
}

/// Rewrites the lines of an existing table entry: the board name is replaced
/// by a superseding one, limits present in the entry take their new values
/// (lines whose value does not change are kept as they are), limits missing
/// from a section are added before its closing brace in key order, and
/// `requires_fan_curve` is updated or added at the end of `.driver_data`.
/// All other lines, comments and field order are kept.
pub fn update_existing_entry_in_place(
    existing_lines: &[String],
    new_ac: &Limits,
    new_dc: &Limits,
    new_fan: Option<bool>,
    superseded_model: Option<&str>,
) -> (r: Vec<String>)
    ensures
        strings_view(r@) == update_lines(
            strings_view(existing_lines@),
            new_ac@,
            new_dc@,
            new_fan,
            match superseded_model {
                Some(x) => Some(x@),
                None => None,
            },
        ).1,
{
    let ghost ls = strings_view(existing_lines@);
    let ghost sup = match superseded_model {
        Some(x) => Some(x@),
        None => None,
    };
    let mut st = UpdateExec {
        in_ac: false,
        in_dc: false,
        in_driver_data: false,
        done_ac: StrMap::new(),
        done_dc: StrMap::new(),
        done_fan: false,
    };
    let mut out: Vec<String> = Vec::new();
    let mut i: usize = 0;
    while i < existing_lines.len()
        invariant
            i <= existing_lines@.len(),
            ls == strings_view(existing_lines@),
            sup == match superseded_model {
                Some(x) => Some(x@),
                None => None,
            },
            update_lines(ls.take(i as int), new_ac@, new_dc@, new_fan, sup) == (st.state(), strings_view(out@)),
        decreases existing_lines.len() - i,
    {
        proof {
            assert(ls.take(i + 1).drop_last() =~= ls.take(i as int));
            assert(ls.take(i + 1).last() == existing_lines@[i as int]@);
        }
        update_step_exec(&mut st, &existing_lines[i], new_ac, new_dc, new_fan, superseded_model, &mut out);
        i = i + 1;
    }
    assert(ls.take(i as int) =~= ls);
    out
}

} // verus!
