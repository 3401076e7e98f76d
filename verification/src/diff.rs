//! A single-hunk unified diff between two versions of a file.

use vstd::prelude::*;
use crate::c_struct::{join, join_strings};
use crate::text::{chars_to_string, nat_text, push_all, push_line, push_str, push_u64, str_chars, strings_view};

verus! {

broadcast use vstd::string::group_string_axioms;

/// Number of leading lines the two files share.
pub open spec fn common_prefix(a: Seq<Seq<char>>, b: Seq<Seq<char>>) -> nat
    decreases a.len(),
{
    if a.len() > 0 && b.len() > 0 && a[0] == b[0] {
        1 + common_prefix(a.drop_first(), b.drop_first())
    } else {
        0
    }
}

/// Number of trailing lines the two files share.
pub open spec fn common_suffix(a: Seq<Seq<char>>, b: Seq<Seq<char>>) -> nat
    decreases a.len(),
{
    if a.len() > 0 && b.len() > 0 && a.last() == b.last() {
        1 + common_suffix(a.drop_last(), b.drop_last())
    } else {
        0
    }
}

/// Each line with a marker in front.
pub open spec fn marked(marker: Seq<char>, lines: Seq<Seq<char>>) -> Seq<Seq<char>> {
    Seq::new(lines.len(), |i: int| marker + lines[i])
}

/// The changed region: the shared prefix length, and where the changed lines
/// end in the original and in the modified file.
pub open spec fn hunk_bounds(a: Seq<Seq<char>>, b: Seq<Seq<char>>) -> (int, int, int) {
    let p = common_prefix(a, b) as int;
    let s = common_suffix(a.skip(p), b.skip(p)) as int;
    (p, a.len() - s, b.len() - s)
}

/// The diff lines: headers, a hunk header, up to three lines of context on
/// each side, the removed lines and the added lines.
pub open spec fn diff_lines(a: Seq<Seq<char>>, b: Seq<Seq<char>>, file: Seq<char>) -> Seq<Seq<char>> {
    let (p, oe, me) = hunk_bounds(a, b);
    let start = if p > 3 {
        p - 3
    } else {
        0
    };
    let end = if oe + 3 < a.len() {
        oe + 3
    } else {
        a.len() as int
    };
    seq![
        "--- a/"@ + file,
        "+++ b/"@ + file,
        "@@ -"@ + nat_text((start + 1) as nat) + ","@ + nat_text((end - start) as nat) + " +"@ + nat_text(
            (start + 1) as nat,
        ) + ","@ + nat_text(((p - start) + (me - p) + (end - oe)) as nat) + " @@"@,
    ] + marked(" "@, a.subrange(start, p)) + marked("-"@, a.subrange(p, oe)) + marked(
        "+"@,
        b.subrange(p, me),
    ) + marked(" "@, a.subrange(oe, end))
}

pub proof fn lemma_common_prefix(a: Seq<Seq<char>>, b: Seq<Seq<char>>)
    ensures
        common_prefix(a, b) <= a.len(),
        common_prefix(a, b) <= b.len(),
        forall|i: int| 0 <= i < common_prefix(a, b) ==> a[i] == b[i],
    decreases a.len(),
{
    if a.len() > 0 && b.len() > 0 && a[0] == b[0] {
        lemma_common_prefix(a.drop_first(), b.drop_first());
        assert forall|i: int| 0 <= i < common_prefix(a, b) implies a[i] == b[i] by {
            if i > 0 {
                assert(a[i] == a.drop_first()[i - 1]);
                assert(b[i] == b.drop_first()[i - 1]);
            }
        }
    }
}

pub proof fn lemma_common_suffix(a: Seq<Seq<char>>, b: Seq<Seq<char>>)
    ensures
        common_suffix(a, b) <= a.len(),
        common_suffix(a, b) <= b.len(),
        forall|i: int|
            a.len() - common_suffix(a, b) <= i < a.len() ==> #[trigger] a[i] == b[i + b.len() - a.len()],
    decreases a.len(),
{
    if a.len() > 0 && b.len() > 0 && a.last() == b.last() {
        lemma_common_suffix(a.drop_last(), b.drop_last());
        assert forall|i: int| a.len() - common_suffix(a, b) <= i < a.len() implies #[trigger] a[i] == b[i
            + b.len() - a.len()] by {
            if i < a.len() - 1 {
                assert(a[i] == a.drop_last()[i]);
                assert(b[i + b.len() - a.len()] == b.drop_last()[i + b.len() - a.len()]);
            }
        }
    }
}

/// The hunk describes the change: both files consist of the same leading
/// lines, then the removed (respectively added) lines, then the same
/// trailing lines.
pub proof fn lemma_hunk_reconstructs(a: Seq<Seq<char>>, b: Seq<Seq<char>>)
    ensures
        ({
            let (p, oe, me) = hunk_bounds(a, b);
            &&& 0 <= p <= oe <= a.len()
            &&& p <= me <= b.len()
            &&& a.take(p) == b.take(p)
            &&& a.skip(oe) == b.skip(me)
            &&& a == a.take(p) + a.subrange(p, oe) + a.skip(oe)
            &&& b == b.take(p) + b.subrange(p, me) + b.skip(me)
        }),
{
    let (p, oe, me) = hunk_bounds(a, b);
    lemma_common_prefix(a, b);
    lemma_common_suffix(a.skip(p), b.skip(p));
    assert(a.take(p) =~= b.take(p));
    let s = common_suffix(a.skip(p), b.skip(p)) as int;
    assert forall|k: int| 0 <= k < s implies a.skip(oe)[k] == b.skip(me)[k] by {
        assert(a.skip(p)[oe - p + k] == b.skip(p)[oe - p + k + b.skip(p).len() - a.skip(p).len()]);
    }
    assert(a.skip(oe) =~= b.skip(me));
    assert(a =~= a.take(p) + a.subrange(p, oe) + a.skip(oe));
    assert(b =~= b.take(p) + b.subrange(p, me) + b.skip(me));
}

pub(crate) fn push_marked(out: &mut Vec<String>, marker: &str, lines: &[String], from: usize, to: usize)
    requires
        from <= to <= lines@.len(),
    ensures
        strings_view(final(out)@) == strings_view(old(out)@) + marked(
            marker@,
            strings_view(lines@).subrange(from as int, to as int),
        ),
{
    let ghost ls = strings_view(lines@);
    let mut i = from;
    while i < to
        invariant
            from <= i <= to,
            to <= lines@.len(),
            ls == strings_view(lines@),
            strings_view(out@) == strings_view(old(out)@) + marked(marker@, ls.subrange(from as int, i as int)),
        decreases to - i,
    {
        let mut w: Vec<char> = Vec::new();
        push_str(&mut w, marker);
        let c = str_chars(lines[i].as_str());
        push_all(&mut w, c.as_slice());
        push_line(out, chars_to_string(w.as_slice()));
        assert(strings_view(out@) =~= strings_view(old(out)@) + marked(marker@, ls.subrange(from as int, i + 1)));
        i = i + 1;
    }
}

/// Length of the longest common prefix of the two files.
fn prefix_length(original: &[String], modified: &[String]) -> (n: usize)
    ensures
        n == common_prefix(strings_view(original@), strings_view(modified@)),
{
    let ghost a = strings_view(original@);
    let ghost b = strings_view(modified@);
    let mut prefix_len: usize = 0;
    assert(a.skip(0) =~= a);
    assert(b.skip(0) =~= b);
    while prefix_len < original.len() && prefix_len < modified.len() && original[prefix_len]
        == modified[prefix_len]
        invariant
            prefix_len <= original@.len(),
            prefix_len <= modified@.len(),
            a == strings_view(original@),
            b == strings_view(modified@),
            common_prefix(a, b) == prefix_len + common_prefix(
                a.skip(prefix_len as int),
                b.skip(prefix_len as int),
            ),
        decreases original.len() - prefix_len,
    {
        assert(a.skip(prefix_len as int).drop_first() =~= a.skip(prefix_len + 1));
        assert(b.skip(prefix_len as int).drop_first() =~= b.skip(prefix_len + 1));
        prefix_len = prefix_len + 1;
    }
    prefix_len
}

/// Length of the longest common suffix of the two files once their first
/// `skip` lines are left out.
fn suffix_length(original: &[String], modified: &[String], skip: usize) -> (n: usize)
    requires
        skip <= original@.len(),
        skip <= modified@.len(),
    ensures
        n == common_suffix(
            strings_view(original@).skip(skip as int),
            strings_view(modified@).skip(skip as int),
        ),
{
    let ghost a = strings_view(original@);
    let ghost b = strings_view(modified@);
    let ghost ap = a.skip(skip as int);
    let ghost bp = b.skip(skip as int);
    let mut suffix_len: usize = 0;
    assert(ap.take(ap.len() as int) =~= ap);
    assert(bp.take(bp.len() as int) =~= bp);
    while suffix_len < original.len() - skip && suffix_len < modified.len() - skip
        && original[original.len() - 1 - suffix_len] == modified[modified.len() - 1 - suffix_len]
        invariant
            skip <= original@.len(),
            skip <= modified@.len(),
            suffix_len <= original@.len() - skip,
            suffix_len <= modified@.len() - skip,
            a == strings_view(original@),
            b == strings_view(modified@),
            ap == a.skip(skip as int),
            bp == b.skip(skip as int),
            common_suffix(ap, bp) == suffix_len + common_suffix(
                ap.take(ap.len() - suffix_len),
                bp.take(bp.len() - suffix_len),
            ),
        decreases original.len() - suffix_len,
    {
        proof {
            let at = ap.take(ap.len() - suffix_len);
            let bt = bp.take(bp.len() - suffix_len);
            assert(at.last() == a[original.len() - 1 - suffix_len]);
            assert(bt.last() == b[modified.len() - 1 - suffix_len]);
            assert(at.drop_last() =~= ap.take(ap.len() - (suffix_len + 1)));
            assert(bt.drop_last() =~= bp.take(bp.len() - (suffix_len + 1)));
        }
        suffix_len = suffix_len + 1;
    }
    proof {
        let at = ap.take(ap.len() - suffix_len);
        let bt = bp.take(bp.len() - suffix_len);
        if at.len() > 0 && bt.len() > 0 {
            assert(at.last() == a[original.len() - 1 - suffix_len]);
            assert(bt.last() == b[modified.len() - 1 - suffix_len]);
        }
    }
    suffix_len
}

/// The line `prefix` followed by the file name.
fn header_line(prefix: &str, filename: &str) -> (r: String)
    ensures
        r@ == prefix@ + filename@,
{
    let mut h: Vec<char> = Vec::new();
    push_str(&mut h, prefix);
    push_str(&mut h, filename);
    chars_to_string(h.as_slice())
}

/// The hunk header `@@ -start,orig_len +start,mod_len @@`.
fn hunk_header(start: u64, orig_len: u64, mod_len: u64) -> (r: String)
    ensures
        r@ == "@@ -"@ + nat_text(start as nat) + ","@ + nat_text(orig_len as nat) + " +"@ + nat_text(
            start as nat,
        ) + ","@ + nat_text(mod_len as nat) + " @@"@,
{
    let mut h: Vec<char> = Vec::new();
    push_str(&mut h, "@@ -");
    push_u64(&mut h, start);
    push_str(&mut h, ",");
    push_u64(&mut h, orig_len);
    push_str(&mut h, " +");
    push_u64(&mut h, start);
    push_str(&mut h, ",");
    push_u64(&mut h, mod_len);
    push_str(&mut h, " @@");
    chars_to_string(h.as_slice())
}

/// A unified diff with one hunk covering everything between the longest
/// common prefix and suffix of the two files, with three lines of context;
/// also the numbers of added and removed lines.
pub fn generate_unified_diff(original: &[String], modified: &[String], filename: &str) -> (r: (
    String,
    usize,
    usize,
))
    ensures
        ({
            let a = strings_view(original@);
            let b = strings_view(modified@);
            let (p, oe, me) = hunk_bounds(a, b);
            &&& r.0@ == join(diff_lines(a, b, filename@), "\n"@)
            &&& r.1 == me - p
            &&& r.2 == oe - p
        }),
{
    let ghost a = strings_view(original@);
    let ghost b = strings_view(modified@);
    proof {
        lemma_common_prefix(a, b);
    }
    let prefix_len = prefix_length(original, modified);
    let suffix_len = suffix_length(original, modified, prefix_len);
    proof {
        lemma_common_suffix(a.skip(prefix_len as int), b.skip(prefix_len as int));
    }
    let orig_mid_start = prefix_len;
    let orig_mid_end = original.len() - suffix_len;
    let mod_mid_start = prefix_len;
    let mod_mid_end = modified.len() - suffix_len;
    let start_context_idx: usize = if orig_mid_start > 3 {
        orig_mid_start - 3
    } else {
        0
    };
    let end_context_idx: usize = if original.len() - orig_mid_end > 3 {
        orig_mid_end + 3
    } else {
        original.len()
    };
    let mut diff: Vec<String> = Vec::new();
    push_line(&mut diff, header_line("--- a/", filename));
    push_line(&mut diff, header_line("+++ b/", filename));
    let orig_len = end_context_idx - start_context_idx;
    let mod_len = (orig_mid_start - start_context_idx) + (mod_mid_end - mod_mid_start) + (
    end_context_idx - orig_mid_end);
    push_line(
        &mut diff,
        hunk_header((start_context_idx + 1) as u64, orig_len as u64, mod_len as u64),
    );
    push_marked(&mut diff, " ", original, start_context_idx, orig_mid_start);
    push_marked(&mut diff, "-", original, orig_mid_start, orig_mid_end);
    push_marked(&mut diff, "+", modified, mod_mid_start, mod_mid_end);
    push_marked(&mut diff, " ", original, orig_mid_end, end_context_idx);
    assert(strings_view(diff@) =~= diff_lines(a, b, filename@));
    let text = join_strings(&diff, "\n");
    (chars_to_string(text.as_slice()), mod_mid_end - mod_mid_start, orig_mid_end - orig_mid_start)
}

} // verus!
