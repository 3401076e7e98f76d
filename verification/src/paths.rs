//! The name of the file a converted XML file is written to.

use vstd::prelude::*;
use crate::text::{chars_ends_with, chars_eq_str, chars_slice, chars_to_string, ends_with, push_all, push_str, str_chars};

verus! {

broadcast use vstd::string::group_string_axioms;

/// What `Path::parent` gives for a path, as text; `None` where the path has
/// no parent.
pub uninterp spec fn path_parent_of(p: Seq<char>) -> Option<Seq<char>>;

/// What `Path::file_stem` gives for a path, as text.
pub uninterp spec fn path_file_stem_of(p: Seq<char>) -> Option<Seq<char>>;

/// What `Path::extension` gives for a path, as text.
pub uninterp spec fn path_extension_of(p: Seq<char>) -> Option<Seq<char>>;

/// What `Path::join` gives for a directory and a file name, as text.
pub uninterp spec fn path_join_of(dir: Seq<char>, name: Seq<char>) -> Seq<char>;

/// `Path::parent` of a path, as text. Its result is named, not described:
/// the contract says only that it is `path_parent_of` of the argument.
#[verifier::external_body]
fn path_parent(p: &str) -> (r: Option<String>)
    ensures
        match r {
            Some(x) => path_parent_of(p@) == Some(x@),
            None => path_parent_of(p@) is None,
        },
{
    match std::path::Path::new(p).parent() {
        Some(q) => Some(q.to_string_lossy().into_owned()),
        None => None,
    }
}

/// `Path::file_stem` of a path, as text; named by `path_file_stem_of`.
#[verifier::external_body]
fn path_file_stem(p: &str) -> (r: Option<String>)
    ensures
        match r {
            Some(x) => path_file_stem_of(p@) == Some(x@),
            None => path_file_stem_of(p@) is None,
        },
{
    match std::path::Path::new(p).file_stem() {
        Some(s) => Some(s.to_string_lossy().into_owned()),
        None => None,
    }
}

/// `Path::extension` of a path, as text; named by `path_extension_of`.
#[verifier::external_body]
fn path_extension(p: &str) -> (r: Option<String>)
    ensures
        match r {
            Some(x) => path_extension_of(p@) == Some(x@),
            None => path_extension_of(p@) is None,
        },
{
    match std::path::Path::new(p).extension() {
        Some(s) => Some(s.to_string_lossy().into_owned()),
        None => None,
    }
}

/// `Path::join` of a directory and a file name, as text; named by
/// `path_join_of`.
#[verifier::external_body]
fn path_join(dir: &str, name: &str) -> (r: String)
    ensures
        r@ == path_join_of(dir@, name@),
{
    std::path::Path::new(dir).join(name).to_string_lossy().into_owned()
}

/// A stem without a `_decrypted` or `_encrypted` suffix.
pub open spec fn base_stem(s: Seq<char>) -> Seq<char> {
    if ends_with(s, "_decrypted"@) {
        s.take(s.len() - "_decrypted"@.len())
    } else if ends_with(s, "_encrypted"@) {
        s.take(s.len() - "_encrypted"@.len())
    } else {
        s
    }
}

/// The suffix of the output of a conversion: `_decrypted` for an encrypted
/// input, `_encrypted` otherwise.
pub open spec fn suffix_for(cryptography: Seq<char>) -> Seq<char> {
    if cryptography == "Encrypted"@ {
        "_decrypted"@
    } else {
        "_encrypted"@
    }
}

/// The output file name: the stem (default `output`) without its
/// `_decrypted`/`_encrypted` suffix, then `_decrypted` for an encrypted input
/// and `_encrypted` otherwise, then `.` and the extension (default `xml`).
pub open spec fn output_name(stem: Option<Seq<char>>, ext: Option<Seq<char>>, cryptography: Seq<char>) -> Seq<char> {
    let s = match stem {
        Some(x) => x,
        None => "output"@,
    };
    base_stem(s) + suffix_for(cryptography) + "."@ + match ext {
        Some(e) => e,
        None => "xml"@,
    }
}

/// Naming an output file again gives the name its input would get: the
/// suffix that the first conversion added is replaced, not repeated. (The
/// stem of an output name is its base stem followed by the suffix.)
pub proof fn lemma_output_name_again(stem: Seq<char>, ext: Option<Seq<char>>, c1: Seq<char>, c2: Seq<char>)
    ensures
        base_stem(base_stem(stem) + suffix_for(c1)) == base_stem(stem),
        output_name(Some(base_stem(stem) + suffix_for(c1)), ext, c2) == output_name(Some(stem), ext, c2),
{
    reveal_strlit("_decrypted");
    reveal_strlit("_encrypted");
    let b = base_stem(stem);
    let d = "_decrypted"@;
    let n = "_encrypted"@;
    let x = b + suffix_for(c1);
    assert(d.len() == 10 && n.len() == 10);
    assert(d[1] != n[1]);
    assert(x.skip(x.len() - 10) =~= suffix_for(c1));
    assert(x.take(x.len() - 10) =~= b);
    if suffix_for(c1) == n {
        assert(x.skip(x.len() - d.len()) != d) by {
            assert(x.skip(x.len() - 10)[1] == n[1]);
        }
    }
}

/// An output name ends with the suffix for the conversion, a dot and the
/// extension (`xml` when the input has none); without a parent directory the
/// output path is that name.
pub proof fn lemma_output_name_ending(input: Seq<char>, stem: Option<Seq<char>>, ext: Option<Seq<char>>, c: Seq<char>)
    ensures
        ends_with(
            output_name(stem, ext, c),
            suffix_for(c) + "."@ + match ext {
                Some(e) => e,
                None => "xml"@,
            },
        ),
        (path_parent_of(input) matches Some(d) ==> d.len() == 0) ==> output_path(input, c) == output_name(
            path_file_stem_of(input),
            path_extension_of(input),
            c,
        ),
{
    let s = match stem {
        Some(x) => x,
        None => "output"@,
    };
    let tail = suffix_for(c) + "."@ + match ext {
        Some(e) => e,
        None => "xml"@,
    };
    let n = output_name(stem, ext, c);
    assert(n =~= base_stem(s) + tail);
    assert(n.skip(n.len() - tail.len()) =~= tail);
}

/// The output path: the output name, in the input's directory where it has
/// a non-empty one.
pub open spec fn output_path(input: Seq<char>, cryptography: Seq<char>) -> Seq<char> {
    let name = output_name(path_file_stem_of(input), path_extension_of(input), cryptography);
    match path_parent_of(input) {
        Some(d) => if d.len() == 0 {
            name
        } else {
            path_join_of(d, name)
        },
        None => name,
    }
}

/// The file name the output of a conversion gets, from the stem and the
/// extension of the input's file name.
pub fn output_file_name(stem: Option<&str>, extension: Option<&str>, cryptography: &str) -> (r: String)
    ensures
        r@ == output_name(
            match stem {
                Some(s) => Some(s@),
                None => None,
            },
            match extension {
                Some(e) => Some(e@),
                None => None,
            },
            cryptography@,
        ),
{
    let s = match stem {
        Some(x) => str_chars(x),
        None => str_chars("output"),
    };
    let dec = str_chars("_decrypted");
    let enc = str_chars("_encrypted");
    let base = if chars_ends_with(s.as_slice(), dec.as_slice()) {
        chars_slice(s.as_slice(), 0, s.len() - dec.len())
    } else if chars_ends_with(s.as_slice(), enc.as_slice()) {
        chars_slice(s.as_slice(), 0, s.len() - enc.len())
    } else {
        s
    };
    let crypto = str_chars(cryptography);
    let mut v: Vec<char> = Vec::new();
    push_all(&mut v, base.as_slice());
    if chars_eq_str(crypto.as_slice(), "Encrypted") {
        push_str(&mut v, "_decrypted");
    } else {
        push_str(&mut v, "_encrypted");
    }
    push_str(&mut v, ".");
    match extension {
        Some(e) => push_str(&mut v, e),
        None => push_str(&mut v, "xml"),
    }
    chars_to_string(v.as_slice())
}

/// The path the output of a conversion is written to: next to the input,
/// named after it with `_decrypted` for an encrypted input and `_encrypted`
/// otherwise (replacing such a suffix the input's name already has).
pub fn derive_output_filename(input_path: &str, cryptography: &str) -> (r: String)
    ensures
        r@ == output_path(input_path@, cryptography@),
{
    let stem = path_file_stem(input_path);
    let ext = path_extension(input_path);
    let stem_ref: Option<&str> = match &stem {
        Some(s) => Some(s.as_str()),
        None => None,
    };
    let ext_ref: Option<&str> = match &ext {
        Some(e) => Some(e.as_str()),
        None => None,
    };
    let name = output_file_name(stem_ref, ext_ref, cryptography);
    match path_parent(input_path) {
        Some(d) => {
            if str_chars(d.as_str()).len() == 0 {
                name
            } else {
                path_join(d.as_str(), name.as_str())
            }
        },
        None => name,
    }
}

} // verus!
