//! Planning a kernel patch: the lines of `asus-armoury.h`, the entries of its
//! `power_limits[]` table, where a generated entry goes, and the text of the
//! patch in the form `git format-patch` writes.

use vstd::prelude::*;
use crate::c_struct::join;
use crate::diff::{diff_lines, hunk_bounds, marked, push_marked};
use crate::limits::Limits;
use crate::patch::{
    bool_text, exact_entry, longest_prefix_entry, push_bool, scan_lines, update_lines, Entry,
    ScanState,
};
use crate::text::{
    chars_contains_str, chars_find, chars_lt, chars_occurs_at, chars_slice, chars_to_string,
    contains, find_char, int_text, nat_text, repeat_char, lemma_find_char_bounds, occurs_at, push_i64, push_line,
    push_str, push_u128, push_u64, str_chars, strings_view, text_lt,
};

verus! {

broadcast use vstd::string::group_string_axioms;

// ---------------------------------------------------------------------------
// Lines
// ---------------------------------------------------------------------------

/// A line without the `\r` of a `\r\n` ending.
pub open spec fn strip_cr(l: Seq<char>) -> Seq<char> {
    if l.len() > 0 && l.last() == '\r' {
        l.drop_last()
    } else {
        l
    }
}

/// The lines of `s`, when `cur` is the part of the current line read so far.
pub open spec fn lines_after(s: Seq<char>, cur: Seq<char>) -> Seq<Seq<char>>
    decreases s.len(),
{
    if s.len() == 0 {
        if cur.len() == 0 {
            seq![]
        } else {
            seq![cur]
        }
    } else if s[0] == '\n' {
        seq![strip_cr(cur)] + lines_after(s.drop_first(), seq![])
    } else {
        lines_after(s.drop_first(), cur.push(s[0]))
    }
}

/// `str::lines`: the text split at each `\n`, the `\r` of a `\r\n` dropped,
/// and no empty line after a final line ending.
pub open spec fn text_lines(s: Seq<char>) -> Seq<Seq<char>> {
    lines_after(s, seq![])
}

/// The number of characters in all lines together.
pub open spec fn total_len(ls: Seq<Seq<char>>) -> nat
    decreases ls.len(),
{
    if ls.len() == 0 {
        0
    } else {
        total_len(ls.drop_last()) + ls.last().len()
    }
}

proof fn lemma_total_len_prepend(x: Seq<char>, ls: Seq<Seq<char>>)
    ensures
        total_len(seq![x] + ls) == x.len() + total_len(ls),
    decreases ls.len(),
{
    let xs = seq![x] + ls;
    if ls.len() > 0 {
        lemma_total_len_prepend(x, ls.drop_last());
        assert(xs.drop_last() =~= seq![x] + ls.drop_last());
        assert(xs.last() == ls.last());
        assert(total_len(xs) == total_len(xs.drop_last()) + xs.last().len());
        assert(total_len(ls) == total_len(ls.drop_last()) + ls.last().len());
    } else {
        assert(xs.drop_last() =~= Seq::<Seq<char>>::empty());
        assert(xs.last() == x);
        assert(total_len(xs) == total_len(xs.drop_last()) + xs.last().len());
        assert(total_len(xs.drop_last()) == 0);
        assert(total_len(ls) == 0);
    }
}

proof fn lemma_lines_after_len(s: Seq<char>, cur: Seq<char>)
    ensures
        total_len(lines_after(s, cur)) <= s.len() + cur.len(),
    decreases s.len(),
{
    if s.len() == 0 {
        if cur.len() > 0 {
            assert(seq![cur].drop_last() =~= Seq::<Seq<char>>::empty());
            assert(total_len(seq![cur]) == total_len(seq![cur].drop_last()) + cur.len());
        }
    } else if s[0] == '\n' {
        lemma_lines_after_len(s.drop_first(), seq![]);
        lemma_total_len_prepend(strip_cr(cur), lines_after(s.drop_first(), seq![]));
        assert(strip_cr(cur).len() <= cur.len());
        assert(lines_after(s, cur) == seq![strip_cr(cur)] + lines_after(s.drop_first(), seq![]));
    } else {
        lemma_lines_after_len(s.drop_first(), cur.push(s[0]));
    }
}

pub proof fn lemma_total_len_take(ls: Seq<Seq<char>>, i: int)
    requires
        0 <= i <= ls.len(),
    ensures
        total_len(ls.take(i)) <= total_len(ls),
        i < ls.len() ==> total_len(ls.take(i + 1)) == total_len(ls.take(i)) + ls[i].len(),
    decreases ls.len(),
{
    if i < ls.len() {
        assert(ls.take(i + 1).drop_last() =~= ls.take(i));
        lemma_total_len_take(ls.drop_last(), i);
        assert(ls.drop_last().take(i) =~= ls.take(i));
        if i + 1 < ls.len() {
            lemma_total_len_take(ls.drop_last(), i + 1);
            assert(ls.drop_last().take(i + 1) =~= ls.take(i + 1));
        } else {
            assert(ls.take(i + 1) =~= ls);
        }
    } else {
        assert(ls.take(i) =~= ls);
    }
}

fn strip_cr_exec(cur: &[char]) -> (r: String)
    ensures
        r@ == strip_cr(cur@),
{
    if cur.len() > 0 && cur[cur.len() - 1] == '\r' {
        let v = chars_slice(cur, 0, cur.len() - 1);
        assert(v@ =~= cur@.drop_last());
        chars_to_string(v.as_slice())
    } else {
        chars_to_string(cur)
    }
}

/// The lines of a text, as `str::lines` gives them.
pub fn split_lines(s: &str) -> (r: Vec<String>)
    ensures
        strings_view(r@) == text_lines(s@),
        total_len(strings_view(r@)) <= s@.len(),
{
    proof {
        lemma_lines_after_len(s@, seq![]);
    }
    let chars = str_chars(s);
    let mut out: Vec<String> = Vec::new();
    let mut cur: Vec<char> = Vec::new();
    let mut i: usize = 0;
    assert(s@.skip(0) =~= s@);
    while i < chars.len()
        invariant
            i <= chars@.len(),
            chars@ == s@,
            text_lines(s@) == strings_view(out@) + lines_after(s@.skip(i as int), cur@),
        decreases chars.len() - i,
    {
        let ghost rest = s@.skip(i as int);
        assert(rest.drop_first() =~= s@.skip(i + 1));
        assert(rest[0] == chars@[i as int]);
        if chars[i] == '\n' {
            let line = strip_cr_exec(cur.as_slice());
            let ghost before = strings_view(out@);
            push_line(&mut out, line);
            assert(before + (seq![strip_cr(cur@)] + lines_after(s@.skip(i + 1), seq![])) =~= strings_view(
                out@,
            ) + lines_after(s@.skip(i + 1), seq![]));
            cur = Vec::new();
            assert(cur@ =~= Seq::<char>::empty());
        } else {
            cur.push(chars[i]);
        }
        i = i + 1;
    }
    assert(s@.skip(i as int) =~= Seq::<char>::empty());
    if cur.len() > 0 {
        let ghost before = strings_view(out@);
        push_line(&mut out, chars_to_string(cur.as_slice()));
        assert(before + seq![cur@] =~= strings_view(out@));
    } else {
        assert(strings_view(out@) + Seq::<Seq<char>>::empty() =~= strings_view(out@));
    }
    out
}

// ---------------------------------------------------------------------------
// Searching a line
// ---------------------------------------------------------------------------

/// Number of occurrences of `c` in `s`.
pub open spec fn count_char(s: Seq<char>, c: char) -> nat
    decreases s.len(),
{
    if s.len() == 0 {
        0
    } else {
        count_char(s.drop_last(), c) + if s.last() == c {
            1nat
        } else {
            0nat
        }
    }
}

fn chars_count(s: &[char], c: char) -> (r: usize)
    ensures
        r == count_char(s@, c),
        r <= s@.len(),
{
    let mut n: usize = 0;
    let mut i: usize = 0;
    while i < s.len()
        invariant
            i <= s@.len(),
            n <= i,
            n == count_char(s@.take(i as int), c),
        decreases s.len() - i,
    {
        assert(s@.take(i + 1).drop_last() =~= s@.take(i as int));
        if s[i] == c {
            n = n + 1;
        }
        i = i + 1;
    }
    assert(s@.take(i as int) =~= s@);
    n
}

/// Index of the first occurrence of `p` in `s` at or after `i`.
pub open spec fn find_from(s: Seq<char>, p: Seq<char>, i: int) -> Option<int>
    decreases s.len() + 1 - i,
{
    if i < 0 || i + p.len() > s.len() {
        None
    } else if occurs_at(s, p, i) {
        Some(i)
    } else {
        find_from(s, p, i + 1)
    }
}

/// `str::find` with a string pattern, counted in characters.
pub open spec fn find_str(s: Seq<char>, p: Seq<char>) -> Option<int> {
    find_from(s, p, 0)
}

proof fn lemma_find_from_bounds(s: Seq<char>, p: Seq<char>, i: int)
    ensures
        find_from(s, p, i) matches Some(k) ==> i <= k && 0 <= k && k + p.len() <= s.len(),
    decreases s.len() + 1 - i,
{
    if !(i < 0 || i + p.len() > s.len()) && !occurs_at(s, p, i) {
        lemma_find_from_bounds(s, p, i + 1);
    }
}

fn chars_find_str(s: &[char], p: &str) -> (r: Option<usize>)
    ensures
        match find_str(s@, p@) {
            Some(k) => r == Some(k as usize),
            None => r is None,
        },
{
    proof {
        lemma_find_from_bounds(s@, p@, 0);
    }
    let pv = str_chars(p);
    if pv.len() > s.len() {
        return None;
    }
    let last = s.len() - pv.len();
    let mut i: usize = 0;
    loop
        invariant
            pv@ == p@,
            last == s@.len() - p@.len(),
            i <= last,
            find_str(s@, p@) == find_from(s@, p@, i as int),
        decreases last - i,
    {
        if chars_occurs_at(s, pv.as_slice(), i) {
            return Some(i);
        }
        if i == last {
            assert(find_from(s@, p@, i + 1) is None);
            return None;
        }
        i = i + 1;
    }
}

/// The board name quoted after `DMI_MATCH(DMI_BOARD_NAME,` on a line.
pub open spec fn dmi_board(l: Seq<char>) -> Option<Seq<char>> {
    match find_str(l, "DMI_MATCH(DMI_BOARD_NAME,"@) {
        None => None,
        Some(st) => match find_char(l.skip(st), '"') {
            None => None,
            Some(q) => {
                let a = st + q + 1;
                match find_char(l.skip(a), '"') {
                    None => None,
                    Some(e) => Some(l.subrange(a, a + e)),
                }
            },
        },
    }
}

fn dmi_board_exec(l: &[char]) -> (r: Option<String>)
    ensures
        match dmi_board(l@) {
            Some(b) => r matches Some(x) && x@ == b,
            None => r is None,
        },
{
    proof {
        lemma_find_from_bounds(l@, "DMI_MATCH(DMI_BOARD_NAME,"@, 0);
    }
    let st = match chars_find_str(l, "DMI_MATCH(DMI_BOARD_NAME,") {
        Some(st) => st,
        None => {
            return None;
        },
    };
    let after = chars_slice(l, st, l.len());
    assert(after@ =~= l@.skip(st as int));
    let q = match chars_find(after.as_slice(), '"') {
        Some(q) => q,
        None => {
            return None;
        },
    };
    proof {
        lemma_find_char_bounds(after@, '"');
    }
    let a = st + q + 1;
    let rest = chars_slice(l, a, l.len());
    assert(rest@ =~= l@.skip(a as int));
    let e = match chars_find(rest.as_slice(), '"') {
        Some(e) => e,
        None => {
            return None;
        },
    };
    proof {
        lemma_find_char_bounds(rest@, '"');
    }
    let b = chars_slice(l, a, a + e);
    Some(chars_to_string(b.as_slice()))
}

// ---------------------------------------------------------------------------
// The `power_limits[]` table
// ---------------------------------------------------------------------------

pub open spec fn opt_chars(o: Option<String>) -> Option<Seq<char>> {
    match o {
        Some(x) => Some(x@),
        None => None,
    }
}

pub open spec fn opt_int(o: Option<usize>) -> Option<int> {
    match o {
        Some(x) => Some(x as int),
        None => None,
    }
}

/// An entry of the table: its board name, first line and last line.
pub type EntryModel = (Option<Seq<char>>, int, int);

pub open spec fn entry_model(e: Entry) -> EntryModel {
    (crate::patch::board_of(e), e.start_idx as int, e.end_idx as int)
}

pub open spec fn entries_model(es: Seq<Entry>) -> Seq<EntryModel> {
    es.map_values(|e: Entry| entry_model(e))
}

/// Where a line-by-line reading of the table stands: the entries closed so
/// far, the first line and board name of the open entry, the brace depth.
pub struct TableState {
    pub entries: Seq<EntryModel>,
    pub open_start: Option<int>,
    pub board: Option<Seq<char>>,
    pub depth: int,
}

pub open spec fn table_start() -> TableState {
    TableState { entries: seq![], open_start: None, board: None, depth: 0 }
}

/// Line `i`: an entry opens at the first `{` at depth 0 and closes where the
/// depth returns to 0; inside an entry a `DMI_MATCH(DMI_BOARD_NAME, "..")`
/// gives its board name.
pub open spec fn table_step(st: TableState, i: int, l: Seq<char>) -> TableState {
    let open = count_char(l, '{');
    let close = count_char(l, '}');
    let s1 = if st.depth == 0 && open > 0 {
        TableState { open_start: Some(i), board: None, ..st }
    } else {
        st
    };
    let d = s1.depth + open - close;
    let s2 = TableState { depth: d, ..s1 };
    let s3 = if d == 0 && s2.open_start is Some {
        TableState {
            entries: s2.entries.push((s2.board, s2.open_start->0, i)),
            open_start: None,
            board: None,
            ..s2
        }
    } else {
        s2
    };
    if d > 0 {
        match dmi_board(l) {
            Some(b) => TableState { board: Some(b), ..s3 },
            None => s3,
        }
    } else {
        s3
    }
}

/// The entries read from line `i` on, and the line of the `};` that ends the
/// table at depth 0, if there is one.
pub open spec fn table_from(lines: Seq<Seq<char>>, i: int, st: TableState) -> (Seq<EntryModel>, Option<int>)
    decreases lines.len() - i,
{
    if i < 0 || i >= lines.len() {
        (st.entries, None)
    } else if contains(lines[i], "};"@) && st.depth == 0 {
        (st.entries, Some(i))
    } else {
        table_from(lines, i + 1, table_step(st, i, lines[i]))
    }
}

/// Index of the first line at or after `i` that contains `p`.
pub open spec fn first_containing(lines: Seq<Seq<char>>, p: Seq<char>, i: int) -> Option<int>
    decreases lines.len() - i,
{
    if i < 0 || i >= lines.len() {
        None
    } else if contains(lines[i], p) {
        Some(i)
    } else {
        first_containing(lines, p, i + 1)
    }
}

pub open spec fn table_marker() -> Seq<char> {
    "static const struct dmi_system_id power_limits[]"@
}

proof fn lemma_first_containing(lines: Seq<Seq<char>>, p: Seq<char>, i: int)
    ensures
        first_containing(lines, p, i) matches Some(k) ==> i <= k < lines.len() && 0 <= k,
    decreases lines.len() - i,
{
    if !(i < 0 || i >= lines.len()) && !contains(lines[i], p) {
        lemma_first_containing(lines, p, i + 1);
    }
}

/// The entries of the `power_limits[]` table and the line that ends it, or
/// the message for a missing table or a missing end.
pub open spec fn power_limits_table(lines: Seq<Seq<char>>) -> Result<(Seq<EntryModel>, int), Seq<char>> {
    match first_containing(lines, table_marker(), 0) {
        None => Err("Could not find power_limits table in asus-armoury.h"@),
        Some(s) => match table_from(lines, s + 1, table_start()) {
            (es, Some(e)) => Ok((es, e)),
            (_, None) => Err("Could not find end of power_limits table in asus-armoury.h"@),
        },
    }
}

/// Every entry lies within the first `n` lines, its first line not after its
/// last.
pub open spec fn entries_within(es: Seq<EntryModel>, n: int) -> bool {
    forall|k: int| 0 <= k < es.len() ==> 0 <= (#[trigger] es[k]).1 <= es[k].2 < n
}

fn first_line_containing(lines: &[String], p: &str) -> (r: Option<usize>)
    ensures
        match first_containing(strings_view(lines@), p@, 0) {
            Some(k) => r == Some(k as usize),
            None => r is None,
        },
{
    let ghost ls = strings_view(lines@);
    let mut i: usize = 0;
    while i < lines.len()
        invariant
            i <= lines@.len(),
            ls == strings_view(lines@),
            first_containing(ls, p@, 0) == first_containing(ls, p@, i as int),
        decreases lines.len() - i,
    {
        let l = str_chars(lines[i].as_str());
        if chars_contains_str(l.as_slice(), p) {
            return Some(i);
        }
        i = i + 1;
    }
    None
}

/// Reads the table entries from line `first` on.
fn scan_table(lines: &[String], first: usize) -> (r: (Vec<Entry>, Option<usize>))
    requires
        first <= lines@.len(),
        total_len(strings_view(lines@)) <= i64::MAX,
    ensures
        table_from(strings_view(lines@), first as int, table_start()) == (entries_model(r.0@), opt_int(r.1)),
        entries_within(entries_model(r.0@), lines@.len() as int),
        r.1 matches Some(e) ==> e < lines@.len(),
{
    let ghost ls = strings_view(lines@);
    let mut entries: Vec<Entry> = Vec::new();
    let mut open_start: Option<usize> = None;
    let mut board: Option<String> = None;
    let mut depth: i64 = 0;
    let mut i: usize = first;
    proof {
        lemma_total_len_take(ls, first as int);
        assert(entries_model(entries@) =~= Seq::<EntryModel>::empty());
    }
    while i < lines.len()
        invariant
            first <= i <= lines@.len(),
            ls == strings_view(lines@),
            total_len(ls) <= i64::MAX,
            -total_len(ls.take(i as int)) <= depth <= total_len(ls.take(i as int)),
            table_from(ls, first as int, table_start()) == table_from(
                ls,
                i as int,
                TableState {
                    entries: entries_model(entries@),
                    open_start: opt_int(open_start),
                    board: opt_chars(board),
                    depth: depth as int,
                },
            ),
            entries_within(entries_model(entries@), i as int),
            open_start matches Some(s) ==> s < i,
        decreases lines.len() - i,
    {
        let ghost st = TableState {
            entries: entries_model(entries@),
            open_start: opt_int(open_start),
            board: opt_chars(board),
            depth: depth as int,
        };
        let l = str_chars(lines[i].as_str());
        proof {
            lemma_total_len_take(ls, i as int);
            lemma_total_len_take(ls, i + 1);
        }
        if chars_contains_str(l.as_slice(), "};") && depth == 0 {
            return (entries, Some(i));
        }
        let open = chars_count(l.as_slice(), '{');
        let close = chars_count(l.as_slice(), '}');
        if depth == 0 && open > 0 {
            open_start = Some(i);
            board = None;
        }
        depth = depth + open as i64 - close as i64;
        if depth == 0 && open_start.is_some() {
            let s = match open_start {
                Some(s) => s,
                None => 0,
            };
            let b = board;
            let ghost before = entries_model(entries@);
            entries.push(Entry { board_name: b, start_idx: s, end_idx: i });
            assert(entries_model(entries@) =~= before.push((opt_chars(b), s as int, i as int)));
            open_start = None;
            board = None;
        }
        if depth > 0 {
            if let Some(name) = dmi_board_exec(l.as_slice()) {
                board = Some(name);
            }
        }
        assert(table_step(st, i as int, ls[i as int]) == TableState {
            entries: entries_model(entries@),
            open_start: opt_int(open_start),
            board: opt_chars(board),
            depth: depth as int,
        });
        i = i + 1;
    }
    (entries, None)
}

// ---------------------------------------------------------------------------
// Differences between an existing entry and a generated one
// ---------------------------------------------------------------------------

/// `{:?}` of an `Option<&i32>`.
pub open spec fn debug_opt_i32(v: Option<i32>) -> Seq<char> {
    match v {
        Some(x) => "Some("@ + int_text(x as int) + ")"@,
        None => "None"@,
    }
}

/// `{:?}` of an `Option<bool>`.
pub open spec fn debug_opt_bool(v: Option<bool>) -> Seq<char> {
    match v {
        Some(x) => "Some("@ + bool_text(x) + ")"@,
        None => "None"@,
    }
}

pub open spec fn limit_diff_line(label: Seq<char>, key: Seq<char>, old: Option<i32>, new: Option<i32>) -> Seq<
    char,
> {
    label + " limit '"@ + key + "': mainline has "@ + debug_opt_i32(old) + ", generated has "@
        + debug_opt_i32(new)
}

/// A line for each key, in ascending order over the keys of both key-sorted
/// lists, whose value differs between them (or that only one of them has).
pub open spec fn limit_diffs(label: Seq<char>, a: Seq<(Seq<char>, i32)>, b: Seq<(Seq<char>, i32)>) -> Seq<
    Seq<char>,
>
    decreases a.len() + b.len(),
{
    if a.len() == 0 && b.len() == 0 {
        seq![]
    } else if b.len() == 0 || (a.len() > 0 && text_lt(a[0].0, b[0].0)) {
        seq![limit_diff_line(label, a[0].0, Some(a[0].1), None)] + limit_diffs(label, a.drop_first(), b)
    } else if a.len() == 0 || text_lt(b[0].0, a[0].0) {
        seq![limit_diff_line(label, b[0].0, None, Some(b[0].1))] + limit_diffs(label, a, b.drop_first())
    } else {
        (if a[0].1 != b[0].1 {
            seq![limit_diff_line(label, a[0].0, Some(a[0].1), Some(b[0].1))]
        } else {
            seq![]
        }) + limit_diffs(label, a.drop_first(), b.drop_first())
    }
}

fn push_debug_opt_i32(v: &mut Vec<char>, x: Option<i32>)
    ensures
        final(v)@ == old(v)@ + debug_opt_i32(x),
{
    match x {
        Some(n) => {
            push_str(v, "Some(");
            push_i64(v, n as i64);
            push_str(v, ")");
        },
        None => {
            push_str(v, "None");
        },
    }
}

fn push_debug_opt_bool(v: &mut Vec<char>, x: Option<bool>)
    ensures
        final(v)@ == old(v)@ + debug_opt_bool(x),
{
    match x {
        Some(b) => {
            push_str(v, "Some(");
            push_bool(v, b);
            push_str(v, ")");
        },
        None => {
            push_str(v, "None");
        },
    }
}

fn limit_diff_line_exec(label: &str, key: &String, old: Option<i32>, new: Option<i32>) -> (r: String)
    ensures
        r@ == limit_diff_line(label@, key@, old, new),
{
    let mut v: Vec<char> = Vec::new();
    push_str(&mut v, label);
    push_str(&mut v, " limit '");
    push_str(&mut v, key.as_str());
    push_str(&mut v, "': mainline has ");
    push_debug_opt_i32(&mut v, old);
    push_str(&mut v, ", generated has ");
    push_debug_opt_i32(&mut v, new);
    chars_to_string(v.as_slice())
}

fn push_limit_diffs(out: &mut Vec<String>, label: &str, a: &Limits, b: &Limits)
    ensures
        strings_view(final(out)@) == strings_view(old(out)@) + limit_diffs(label@, a@, b@),
{
    let na = a.len();
    let nb = b.len();
    let mut i: usize = 0;
    let mut j: usize = 0;
    assert(a@.skip(0) =~= a@);
    assert(b@.skip(0) =~= b@);
    while i < na || j < nb
        invariant
            na == a@.len(),
            nb == b@.len(),
            i <= na,
            j <= nb,
            strings_view(out@) + limit_diffs(label@, a@.skip(i as int), b@.skip(j as int)) == strings_view(
                old(out)@,
            ) + limit_diffs(label@, a@, b@),
        decreases na - i + nb - j,
    {
        let ghost sa = a@.skip(i as int);
        let ghost sb = b@.skip(j as int);
        let ghost before = strings_view(out@);
        proof {
            if i < na {
                assert(sa[0] == a@[i as int]);
                assert(sa.drop_first() =~= a@.skip(i + 1));
            }
            if j < nb {
                assert(sb[0] == b@[j as int]);
                assert(sb.drop_first() =~= b@.skip(j + 1));
            }
        }
        let a_first = i < na && (j >= nb || {
            let ka = str_chars(a.key_at(i).as_str());
            let kb = str_chars(b.key_at(j).as_str());
            chars_lt(ka.as_slice(), kb.as_slice())
        });
        if a_first {
            let line = limit_diff_line_exec(label, a.key_at(i), Some(*a.value_at(i)), None);
            push_line(out, line);
            assert(before + limit_diffs(label@, sa, sb) =~= strings_view(out@) + limit_diffs(
                label@,
                a@.skip(i + 1),
                sb,
            ));
            i = i + 1;
        } else {
            let b_first = i >= na || {
                let ka = str_chars(a.key_at(i).as_str());
                let kb = str_chars(b.key_at(j).as_str());
                chars_lt(kb.as_slice(), ka.as_slice())
            };
            if b_first {
                let line = limit_diff_line_exec(label, b.key_at(j), None, Some(*b.value_at(j)));
                push_line(out, line);
                assert(before + limit_diffs(label@, sa, sb) =~= strings_view(out@) + limit_diffs(
                    label@,
                    sa,
                    b@.skip(j + 1),
                ));
                j = j + 1;
            } else {
                let va = *a.value_at(i);
                let vb = *b.value_at(j);
                if va != vb {
                    let line = limit_diff_line_exec(label, a.key_at(i), Some(va), Some(vb));
                    push_line(out, line);
                }
                assert(before + limit_diffs(label@, sa, sb) =~= strings_view(out@) + limit_diffs(
                    label@,
                    a@.skip(i + 1),
                    b@.skip(j + 1),
                ));
                i = i + 1;
                j = j + 1;
            }
        }
    }
    assert(a@.skip(i as int) =~= Seq::<(Seq<char>, i32)>::empty());
    assert(b@.skip(j as int) =~= Seq::<(Seq<char>, i32)>::empty());
    assert(strings_view(out@) + Seq::<Seq<char>>::empty() =~= strings_view(out@));
}

// ---------------------------------------------------------------------------
// Placing the generated entry
// ---------------------------------------------------------------------------

/// The path of the header inside a kernel tree.
pub open spec fn header_path() -> Seq<char> {
    "drivers/platform/x86/asus-armoury.h"@
}

/// The entry a model's quirk goes to: one with exactly its board name, else
/// the one whose board name is the longest prefix of it, which then
/// supersedes the model (its board name comes second).
pub open spec fn chosen_entry(es: Seq<EntryModel>, model: Seq<char>) -> Option<(int, Option<Seq<char>>)> {
    let bs = es.map_values(|e: EntryModel| e.0);
    match exact_entry(bs, model) {
        Some(i) => Some((i, None)),
        None => match longest_prefix_entry(bs, model) {
            Some(j) => Some((j, bs[j])),
            None => None,
        },
    }
}

/// Where a new entry goes: before the first entry whose board name sorts
/// after the model, else at the end of the table.
pub open spec fn insert_point(es: Seq<EntryModel>, model: Seq<char>, end: int) -> int
    decreases es.len(),
{
    if es.len() == 0 {
        end
    } else if es[0].0 matches Some(b) && text_lt(model, b) {
        es[0].1
    } else {
        insert_point(es.drop_first(), model, end)
    }
}

/// A new entry is placed in alphabetical order: before the first entry
/// whose board name sorts after the model, so after every named entry that
/// sorts at or before it, or at the end of the table when there is no such
/// entry. The result is the index of that entry (the number of entries when
/// there is none).
pub proof fn lemma_insert_point_sorted(es: Seq<EntryModel>, model: Seq<char>, end: int) -> (k: int)
    ensures
        0 <= k <= es.len(),
        insert_point(es, model, end) == if k < es.len() {
            es[k].1
        } else {
            end
        },
        k < es.len() ==> (es[k].0 matches Some(b) && text_lt(model, b)),
        forall|j: int| 0 <= j < k ==> !(#[trigger] es[j].0 matches Some(b) && text_lt(model, b)),
    decreases es.len(),
{
    if es.len() == 0 {
        0
    } else if es[0].0 matches Some(b) && text_lt(model, b) {
        0
    } else {
        let k1 = lemma_insert_point_sorted(es.drop_first(), model, end);
        assert forall|j: int| 0 <= j < k1 + 1 implies !(#[trigger] es[j].0 matches Some(b) && text_lt(model, b)) by {
            if j > 0 {
                assert(es[j] == es.drop_first()[j - 1]);
            }
        }
        if k1 < es.drop_first().len() {
            assert(es.drop_first()[k1] == es[k1 + 1]);
        }
        k1 + 1
    }
}

/// The header with the generated entry in place: the chosen entry updated in
/// place, or the generated lines inserted.
pub open spec fn placed_lines(
    lines: Seq<Seq<char>>,
    es: Seq<EntryModel>,
    end: int,
    model: Seq<char>,
    cs: Seq<Seq<char>>,
) -> Seq<Seq<char>> {
    match chosen_entry(es, model) {
        Some((k, sup)) => {
            let e = es[k];
            let new = scan_lines(cs);
            lines.take(e.1) + update_lines(lines.subrange(e.1, e.2 + 1), new.ac, new.dc, new.fan, sup).1
                + lines.skip(e.2 + 1)
        },
        None => {
            let at = insert_point(es, model, end);
            lines.take(at) + cs + lines.skip(at)
        },
    }
}

pub open spec fn info_line(model: Seq<char>, sup: Option<Seq<char>>) -> Seq<char> {
    match sup {
        Some(s) => "\n[INFO] Quirk for model '"@ + model + "' is superseded by existing entry '"@ + s
            + "' in asus-armoury.h."@,
        None => "\n[INFO] Quirk for model '"@ + model + "' already exists in asus-armoury.h."@,
    }
}

/// How the limits of the generated entry differ from those of an existing one.
pub open spec fn entry_differences(old: ScanState, new: ScanState) -> Seq<Seq<char>> {
    limit_diffs("AC"@, old.ac, new.ac) + limit_diffs("DC"@, old.dc, new.dc) + if old.fan != new.fan {
        seq![
            "requires_fan_curve: mainline has "@ + debug_opt_bool(old.fan) + ", generated has "@
                + debug_opt_bool(new.fan),
        ]
    } else {
        seq![]
    }
}

pub open spec fn difference_report(ds: Seq<Seq<char>>) -> Seq<Seq<char>> {
    if ds.len() > 0 {
        seq!["Differences compared to mainline:"@] + marked("  - "@, ds)
    } else {
        seq!["No differences found compared to mainline."@]
    }
}

/// What is reported about an existing entry: which one it is, and how its
/// limits differ from the generated ones.
pub open spec fn placement_messages(
    lines: Seq<Seq<char>>,
    es: Seq<EntryModel>,
    model: Seq<char>,
    cs: Seq<Seq<char>>,
) -> Seq<Seq<char>> {
    match chosen_entry(es, model) {
        Some((k, sup)) => seq![info_line(model, sup)] + difference_report(
            entry_differences(scan_lines(lines.subrange(es[k].1, es[k].2 + 1)), scan_lines(cs)),
        ),
        None => seq![],
    }
}

// ---------------------------------------------------------------------------
// The patch text
// ---------------------------------------------------------------------------

pub open spec fn stat_line(add: nat, del: nat) -> Seq<char> {
    " "@ + header_path() + " | "@ + nat_text(add + del) + " "@ + repeat_char('+', add) + repeat_char(
        '-',
        del,
    )
}

pub open spec fn summary_line(add: nat, del: nat) -> Seq<char> {
    if add > 0 && del > 0 {
        " 1 file changed, "@ + nat_text(add) + " insertions(+), "@ + nat_text(del) + " deletions(-)"@
    } else if add > 0 {
        " 1 file changed, "@ + nat_text(add) + " insertions(+)"@
    } else if del > 0 {
        " 1 file changed, "@ + nat_text(del) + " deletions(-)"@
    } else {
        " 0 files changed"@
    }
}

/// A patch mail: headers, description, trailers, diffstat and diff.
pub open spec fn patch_text(
    author: Seq<char>,
    date: Seq<char>,
    action: Seq<char>,
    target: Seq<char>,
    profile: Seq<char>,
    sob: Seq<char>,
    stat: Seq<char>,
    summary: Seq<char>,
    diff: Seq<char>,
) -> Seq<char> {
    "From 0000000000000000000000000000000000000000 Mon Sep 17 00:00:00 2001\nFrom: "@ + author
        + "\nDate: "@ + date + "\nSubject: [PATCH] platform/x86: asus-armoury: "@ + action
        + " power limits quirk for "@ + target + "\n\n"@ + action
        + " power limits quirk entry for ASUS ROG "@ + target
        + " laptop.\nThe limits are extracted from the device's ThrottleGear XML configuration\nfile for the '"@
        + profile + "' profile.\n\nAssisted-by: ThrottleGear\nSigned-off-by: "@ + sob + "\n---\n"@ + stat
        + "\n"@ + summary + "\n\n"@ + diff + "\n-- \n2.54.0\n"@
}

pub open spec fn patch_file_name(model: Seq<char>) -> Seq<char> {
    "0001-platform-x86-asus-armoury-add-power-limits-for-"@ + model + ".patch"@
}

/// The messages to print, the patch text and the patch file name, or why no
/// patch can be made.
pub open spec fn patch_plan(
    model: Seq<char>,
    profile: Seq<char>,
    c_struct: Seq<char>,
    author: Seq<char>,
    sob: Seq<char>,
    header: Seq<char>,
    date: Seq<char>,
) -> Result<(Seq<Seq<char>>, Seq<char>, Seq<char>), Seq<char>> {
    let lines = text_lines(header);
    match power_limits_table(lines) {
        Err(e) => Err(e),
        Ok((es, end)) => {
            let cs = text_lines(c_struct);
            let chosen = chosen_entry(es, model);
            let new_lines = placed_lines(lines, es, end, model, cs);
            let (p, oe, me) = hunk_bounds(lines, new_lines);
            let add = (me - p) as nat;
            let del = (oe - p) as nat;
            let action = if chosen is Some {
                "Update"@
            } else {
                "Add"@
            };
            let target = match chosen {
                Some((_, Some(s))) => s,
                _ => model,
            };
            Ok(
                (
                    placement_messages(lines, es, model, cs),
                    patch_text(
                        author,
                        date,
                        action,
                        target,
                        profile,
                        sob,
                        stat_line(add, del),
                        summary_line(add, del),
                        join(diff_lines(lines, new_lines, header_path()), "\n"@),
                    ),
                    patch_file_name(model),
                ),
            )
        },
    }
}

// ---------------------------------------------------------------------------
// Placing, in code
// ---------------------------------------------------------------------------

/// Appends lines `from..to` of `lines`.
fn copy_lines(out: &mut Vec<String>, lines: &[String], from: usize, to: usize)
    requires
        from <= to <= lines@.len(),
    ensures
        strings_view(final(out)@) == strings_view(old(out)@) + strings_view(lines@).subrange(
            from as int,
            to as int,
        ),
{
    let ghost ls = strings_view(lines@);
    let mut i = from;
    while i < to
        invariant
            from <= i <= to,
            to <= lines@.len(),
            ls == strings_view(lines@),
            strings_view(out@) == strings_view(old(out)@) + ls.subrange(from as int, i as int),
        decreases to - i,
    {
        push_line(out, lines[i].clone());
        assert(strings_view(out@) =~= strings_view(old(out)@) + ls.subrange(from as int, i + 1));
        i = i + 1;
    }
}

/// The first and last line of the chosen entry and its superseding board
/// name.
fn choose_entry(entries: &Vec<Entry>, model: &str) -> (r: Option<(usize, usize, Option<String>)>)
    ensures
        match chosen_entry(entries_model(entries@), model@) {
            Some((k, sup)) => r matches Some((s, e, x)) && 0 <= k < entries@.len() && s == entries@[k].start_idx
                && e == entries@[k].end_idx && opt_chars(x) == sup,
            None => r is None,
        },
{
    let ghost em = entries_model(entries@);
    let ghost bs = em.map_values(|e: EntryModel| e.0);
    assert(crate::patch::boards(entries@) =~= bs);
    proof {
        crate::patch::lemma_exact_entry(bs, model@);
        crate::patch::lemma_longest_prefix_entry(bs, model@);
    }
    let (best, sup) = crate::patch::find_best_entry(entries.as_slice(), model);
    match best {
        Some(e) => Some((e.start_idx, e.end_idx, sup)),
        None => None,
    }
}

proof fn lemma_insert_point(es: Seq<EntryModel>, model: Seq<char>, end: int, n: int)
    requires
        entries_within(es, n),
        0 <= end <= n,
    ensures
        0 <= insert_point(es, model, end) <= n,
    decreases es.len(),
{
    if es.len() > 0 {
        assert(es[0] == es[0]);
        assert(entries_within(es.drop_first(), n)) by {
            assert forall|k: int| 0 <= k < es.drop_first().len() implies 0 <= (
            #[trigger] es.drop_first()[k]).1 <= es.drop_first()[k].2 < n by {
                assert(es.drop_first()[k] == es[k + 1]);
            }
        }
        lemma_insert_point(es.drop_first(), model, end, n);
    }
}

fn insert_point_exec(entries: &Vec<Entry>, model: &str, end: usize) -> (r: usize)
    ensures
        r == insert_point(entries_model(entries@), model@, end as int),
{
    let ghost em = entries_model(entries@);
    let m = str_chars(model);
    let mut i: usize = 0;
    assert(em.skip(0) =~= em);
    while i < entries.len()
        invariant
            i <= entries@.len(),
            em == entries_model(entries@),
            m@ == model@,
            insert_point(em, model@, end as int) == insert_point(em.skip(i as int), model@, end as int),
        decreases entries.len() - i,
    {
        assert(em.skip(i as int)[0] == entry_model(entries@[i as int]));
        assert(em.skip(i as int).drop_first() =~= em.skip(i + 1));
        if let Some(b) = &entries[i].board_name {
            let bc = str_chars(b.as_str());
            if chars_lt(m.as_slice(), bc.as_slice()) {
                return entries[i].start_idx;
            }
        }
        i = i + 1;
    }
    end
}

fn info_line_exec(model: &str, sup: &Option<String>) -> (r: String)
    ensures
        r@ == info_line(model@, opt_chars(*sup)),
{
    let mut v: Vec<char> = Vec::new();
    push_str(&mut v, "\n[INFO] Quirk for model '");
    push_str(&mut v, model);
    match sup {
        Some(x) => {
            push_str(&mut v, "' is superseded by existing entry '");
            push_str(&mut v, x.as_str());
            push_str(&mut v, "' in asus-armoury.h.");
        },
        None => {
            push_str(&mut v, "' already exists in asus-armoury.h.");
        },
    }
    chars_to_string(v.as_slice())
}

fn same_fan(a: Option<bool>, b: Option<bool>) -> (r: bool)
    ensures
        r == (a == b),
{
    match (a, b) {
        (Some(x), Some(y)) => x == y,
        (None, None) => true,
        _ => false,
    }
}

/// Reports how the limits of an existing entry differ from the generated ones.
fn push_difference_report(msgs: &mut Vec<String>, existing: &[String], generated: &[String])
    ensures
        strings_view(final(msgs)@) == strings_view(old(msgs)@) + difference_report(
            entry_differences(scan_lines(strings_view(existing@)), scan_lines(strings_view(generated@))),
        ),
{
    let (old_ac, old_dc, old_fan) = crate::patch::parse_c_struct_limits(existing);
    let (new_ac, new_dc, new_fan) = crate::patch::parse_c_struct_limits(generated);
    let mut diffs: Vec<String> = Vec::new();
    push_limit_diffs(&mut diffs, "AC", &old_ac, &new_ac);
    push_limit_diffs(&mut diffs, "DC", &old_dc, &new_dc);
    if !same_fan(old_fan, new_fan) {
        let mut v: Vec<char> = Vec::new();
        push_str(&mut v, "requires_fan_curve: mainline has ");
        push_debug_opt_bool(&mut v, old_fan);
        push_str(&mut v, ", generated has ");
        push_debug_opt_bool(&mut v, new_fan);
        push_line(&mut diffs, chars_to_string(v.as_slice()));
    }
    let ghost ds = entry_differences(
        scan_lines(strings_view(existing@)),
        scan_lines(strings_view(generated@)),
    );
    assert(strings_view(diffs@) =~= ds);
    if diffs.len() > 0 {
        push_line(msgs, "Differences compared to mainline:".to_string());
        let ghost mid = strings_view(msgs@);
        push_marked(msgs, "  - ", diffs.as_slice(), 0, diffs.len());
        assert(ds.subrange(0, ds.len() as int) =~= ds);
        assert(strings_view(msgs@) =~= strings_view(old(msgs)@) + difference_report(ds));
    } else {
        push_line(msgs, "No differences found compared to mainline.".to_string());
        assert(strings_view(msgs@) =~= strings_view(old(msgs)@) + difference_report(ds));
    }
}

/// The header with the generated entry in place, the messages about an
/// existing entry, and, where there is one, its superseding board name.
fn place_entry(
    lines: &[String],
    entries: &Vec<Entry>,
    end: usize,
    model: &str,
    generated: &[String],
    msgs: &mut Vec<String>,
) -> (r: (Vec<String>, Option<Option<String>>))
    requires
        entries_within(entries_model(entries@), lines@.len() as int),
        end <= lines@.len(),
    ensures
        strings_view(r.0@) == placed_lines(
            strings_view(lines@),
            entries_model(entries@),
            end as int,
            model@,
            strings_view(generated@),
        ),
        strings_view(final(msgs)@) == strings_view(old(msgs)@) + placement_messages(
            strings_view(lines@),
            entries_model(entries@),
            model@,
            strings_view(generated@),
        ),
        match chosen_entry(entries_model(entries@), model@) {
            Some((_, sup)) => r.1 matches Some(x) && opt_chars(x) == sup,
            None => r.1 is None,
        },
{
    let ghost ls = strings_view(lines@);
    let ghost em = entries_model(entries@);
    let ghost cs = strings_view(generated@);
    match choose_entry(entries, model) {
        Some((s, e, sup)) => {
            let ghost ch = chosen_entry(em, model@)->0;
            let ghost k = ch.0;
            assert(em[k] == entry_model(entries@[k]));
            assert(0 <= em[k].1 <= em[k].2 < lines@.len());
            assert(s as int == em[k].1 && e as int == em[k].2);
            let n = lines.len();
            assert(e < n);
            push_line(msgs, info_line_exec(model, &sup));
            let mut existing: Vec<String> = Vec::new();
            copy_lines(&mut existing, lines, s, e + 1);
            assert(strings_view(existing@) =~= ls.subrange(s as int, e + 1));
            let ghost before = strings_view(msgs@);
            push_difference_report(msgs, existing.as_slice(), generated);
            assert(strings_view(msgs@) =~= strings_view(old(msgs)@) + placement_messages(ls, em, model@, cs));
            let (new_ac, new_dc, new_fan) = crate::patch::parse_c_struct_limits(generated);
            let sup_ref: Option<&str> = match &sup {
                Some(x) => Some(x.as_str()),
                None => None,
            };
            let updated = crate::patch::update_existing_entry_in_place(
                existing.as_slice(),
                &new_ac,
                &new_dc,
                new_fan,
                sup_ref,
            );
            let mut out: Vec<String> = Vec::new();
            copy_lines(&mut out, lines, 0, s);
            let ghost a = strings_view(out@);
            let ghost up = strings_view(updated@);
            copy_lines(&mut out, updated.as_slice(), 0, updated.len());
            copy_lines(&mut out, lines, e + 1, lines.len());
            assert(up.subrange(0, up.len() as int) =~= up);
            assert(strings_view(out@) =~= ls.take(s as int) + up + ls.skip(e + 1));
            (out, Some(sup))
        },
        None => {
            proof {
                lemma_insert_point(em, model@, end as int, lines@.len() as int);
            }
            let at = insert_point_exec(entries, model, end);
            let mut out: Vec<String> = Vec::new();
            copy_lines(&mut out, lines, 0, at);
            copy_lines(&mut out, generated, 0, generated.len());
            copy_lines(&mut out, lines, at, lines.len());
            assert(cs.subrange(0, cs.len() as int) =~= cs);
            assert(strings_view(out@) =~= ls.take(at as int) + cs + ls.skip(at as int));
            assert(strings_view(msgs@) =~= strings_view(old(msgs)@) + placement_messages(ls, em, model@, cs));
            (out, None)
        },
    }
}

// ---------------------------------------------------------------------------
// The patch, in code
// ---------------------------------------------------------------------------

/// What a kernel patch consists of: the messages to print while making it,
/// the text of the patch and the name of its file.
pub struct PatchPlan {
    pub messages: Vec<String>,
    pub content: String,
    pub file_name: String,
}

fn push_repeat(v: &mut Vec<char>, c: char, n: usize)
    ensures
        final(v)@ == old(v)@ + repeat_char(c, n as nat),
{
    let mut i: usize = 0;
    while i < n
        invariant
            i <= n,
            v@ == old(v)@ + repeat_char(c, i as nat),
        decreases n - i,
    {
        v.push(c);
        assert(v@ =~= old(v)@ + repeat_char(c, (i + 1) as nat));
        i = i + 1;
    }
}

fn stat_line_exec(add: usize, del: usize) -> (r: String)
    ensures
        r@ == stat_line(add as nat, del as nat),
{
    let mut v: Vec<char> = Vec::new();
    push_str(&mut v, " ");
    push_str(&mut v, "drivers/platform/x86/asus-armoury.h");
    push_str(&mut v, " | ");
    push_u128(&mut v, (add as u128) + (del as u128));
    push_str(&mut v, " ");
    push_repeat(&mut v, '+', add);
    push_repeat(&mut v, '-', del);
    chars_to_string(v.as_slice())
}

fn summary_line_exec(add: usize, del: usize) -> (r: String)
    ensures
        r@ == summary_line(add as nat, del as nat),
{
    let mut v: Vec<char> = Vec::new();
    if add > 0 && del > 0 {
        push_str(&mut v, " 1 file changed, ");
        push_u64(&mut v, add as u64);
        push_str(&mut v, " insertions(+), ");
        push_u64(&mut v, del as u64);
        push_str(&mut v, " deletions(-)");
    } else if add > 0 {
        push_str(&mut v, " 1 file changed, ");
        push_u64(&mut v, add as u64);
        push_str(&mut v, " insertions(+)");
    } else if del > 0 {
        push_str(&mut v, " 1 file changed, ");
        push_u64(&mut v, del as u64);
        push_str(&mut v, " deletions(-)");
    } else {
        push_str(&mut v, " 0 files changed");
    }
    chars_to_string(v.as_slice())
}

fn patch_text_exec(
    author: &str,
    date: &str,
    action: &str,
    target: &str,
    profile: &str,
    sob: &str,
    stat: &str,
    summary: &str,
    diff: &str,
) -> (r: String)
    ensures
        r@ == patch_text(author@, date@, action@, target@, profile@, sob@, stat@, summary@, diff@),
{
    let mut v: Vec<char> = Vec::new();
    push_str(&mut v, "From 0000000000000000000000000000000000000000 Mon Sep 17 00:00:00 2001\nFrom: ");
    push_str(&mut v, author);
    push_str(&mut v, "\nDate: ");
    push_str(&mut v, date);
    push_str(&mut v, "\nSubject: [PATCH] platform/x86: asus-armoury: ");
    push_str(&mut v, action);
    push_str(&mut v, " power limits quirk for ");
    push_str(&mut v, target);
    push_str(&mut v, "\n\n");
    push_str(&mut v, action);
    push_str(&mut v, " power limits quirk entry for ASUS ROG ");
    push_str(&mut v, target);
    push_str(
        &mut v,
        " laptop.\nThe limits are extracted from the device's ThrottleGear XML configuration\nfile for the '",
    );
    push_str(&mut v, profile);
    push_str(&mut v, "' profile.\n\nAssisted-by: ThrottleGear\nSigned-off-by: ");
    push_str(&mut v, sob);
    push_str(&mut v, "\n---\n");
    push_str(&mut v, stat);
    push_str(&mut v, "\n");
    push_str(&mut v, summary);
    push_str(&mut v, "\n\n");
    push_str(&mut v, diff);
    push_str(&mut v, "\n-- \n2.54.0\n");
    chars_to_string(v.as_slice())
}

/// Plans a kernel patch that adds or updates the quirk entry of a model in
/// the `power_limits[]` table of `asus-armoury.h`, given the header's text,
/// the generated C entry and the date line of the patch. The entry of the
/// model (or of the board that supersedes it) is updated in place, keeping
/// all other lines; without one, the generated entry is inserted before the
/// first entry whose board name sorts after the model. The result holds the
/// messages to print (for an existing entry: which one it is and how its
/// limits differ), the patch text and its file name.
pub fn generate_patch_file(
    model_name: &str,
    profile_name: &str,
    c_struct_str: &str,
    author: &str,
    sob: &str,
    header_content: &str,
    date: &str,
) -> (r: Result<PatchPlan, String>)
    requires
        header_content@.len() <= isize::MAX,
    ensures
        match patch_plan(model_name@, profile_name@, c_struct_str@, author@, sob@, header_content@, date@) {
            Ok((msgs, content, file)) => r matches Ok(p) && strings_view(p.messages@) == msgs && p.content@
                == content && p.file_name@ == file,
            Err(e) => r matches Err(x) && x@ == e,
        },
{
    let lines = split_lines(header_content);
    let ghost ls = strings_view(lines@);
    let start = match first_line_containing(lines.as_slice(), "static const struct dmi_system_id power_limits[]") {
        Some(s) => s,
        None => {
            return Err("Could not find power_limits table in asus-armoury.h".to_string());
        },
    };
    proof {
        lemma_first_containing(ls, table_marker(), 0);
    }
    let n = lines.len();
    assert(start < n);
    let (entries, end) = scan_table(lines.as_slice(), start + 1);
    let end = match end {
        Some(e) => e,
        None => {
            return Err("Could not find end of power_limits table in asus-armoury.h".to_string());
        },
    };
    let generated = split_lines(c_struct_str);
    let mut messages: Vec<String> = Vec::new();
    assert(strings_view(messages@) =~= Seq::<Seq<char>>::empty());
    let (new_lines, chosen) = place_entry(lines.as_slice(), &entries, end, model_name, generated.as_slice(), &mut messages);
    assert(Seq::<Seq<char>>::empty() + placement_messages(ls, entries_model(entries@), model_name@, strings_view(generated@))
        =~= placement_messages(ls, entries_model(entries@), model_name@, strings_view(generated@)));
    let (diff_text, additions, deletions) = crate::diff::generate_unified_diff(
        lines.as_slice(),
        new_lines.as_slice(),
        "drivers/platform/x86/asus-armoury.h",
    );
    proof {
        crate::diff::lemma_hunk_reconstructs(ls, strings_view(new_lines@));
    }
    let stat = stat_line_exec(additions, deletions);
    let summary = summary_line_exec(additions, deletions);
    let action: &str = if chosen.is_some() {
        "Update"
    } else {
        "Add"
    };
    let target: &str = match &chosen {
        Some(Some(s)) => s.as_str(),
        _ => model_name,
    };
    let content = patch_text_exec(
        author,
        date,
        action,
        target,
        profile_name,
        sob,
        stat.as_str(),
        summary.as_str(),
        diff_text.as_str(),
    );
    let mut f: Vec<char> = Vec::new();
    push_str(&mut f, "0001-platform-x86-asus-armoury-add-power-limits-for-");
    push_str(&mut f, model_name);
    push_str(&mut f, ".patch");
    Ok(PatchPlan { messages, content, file_name: chars_to_string(f.as_slice()) })
}

// ---------------------------------------------------------------------------
// The author line
// ---------------------------------------------------------------------------

pub open spec fn is_angle(c: char) -> bool {
    c == '<' || c == '>'
}

/// Number of leading `<` and `>`.
pub open spec fn angles_before(s: Seq<char>) -> nat
    decreases s.len(),
{
    if s.len() > 0 && is_angle(s[0]) {
        1 + angles_before(s.drop_first())
    } else {
        0
    }
}

/// Number of trailing `<` and `>`.
pub open spec fn angles_after(s: Seq<char>) -> nat
    decreases s.len(),
{
    if s.len() > 0 && is_angle(s.last()) {
        1 + angles_after(s.drop_last())
    } else {
        0
    }
}

/// `s` without leading and trailing `<` and `>`, as `str::trim_matches`.
pub open spec fn trim_angles(s: Seq<char>) -> Seq<char> {
    let r = s.skip(angles_before(s) as int);
    r.take(r.len() - angles_after(r))
}

/// The identity of a patch author: `name <email>`, the email without any
/// angle brackets around it.
pub fn author_identity(name: &str, email: &str) -> (r: String)
    ensures
        r@ == name@ + " <"@ + trim_angles(email@) + ">"@,
{
    let e = str_chars(email);
    let mut start: usize = 0;
    assert(e@.skip(0) =~= e@);
    while start < e.len() && (e[start] == '<' || e[start] == '>')
        invariant
            start <= e@.len(),
            angles_before(e@) == start + angles_before(e@.skip(start as int)),
        decreases e.len() - start,
    {
        assert(e@.skip(start as int).drop_first() =~= e@.skip(start + 1));
        start = start + 1;
    }
    let ghost r = e@.skip(start as int);
    let mut end: usize = e.len();
    assert(r.take(end - start) =~= r);
    while end > start && (e[end - 1] == '<' || e[end - 1] == '>')
        invariant
            start <= end <= e@.len(),
            r == e@.skip(start as int),
            angles_after(r) == (e@.len() - end) + angles_after(r.take(end - start)),
        decreases end,
    {
        assert(r.take(end - start).drop_last() =~= r.take(end - 1 - start));
        end = end - 1;
    }
    let mid = chars_slice(e.as_slice(), start, end);
    assert(mid@ =~= trim_angles(email@));
    let mut v: Vec<char> = Vec::new();
    push_str(&mut v, name);
    push_str(&mut v, " <");
    crate::text::push_all(&mut v, mid.as_slice());
    push_str(&mut v, ">");
    chars_to_string(v.as_slice())
}

} // verus!
