//! Key and IV derivation, AES-256-CBC through the `aes` and `cbc` crates, and
//! a Base64 codec (RFC 4648 alphabet, `=` padding).

use vstd::prelude::*;
use vstd::string::StringSliceAdditionalSpecFns;
use crate::text::{
    chars_eq_str, chars_slice, chars_to_string, find_char, is_whitespace, is_ws, parse_i32,
    parse_i32_chars, str_chars,
};
use vstd::utf8::encode_utf8;
use aes::cipher::block_padding::Pkcs7;
use aes::cipher::{BlockDecryptMut, BlockEncryptMut, KeyIvInit};

verus! {

broadcast use vstd::string::group_string_axioms;

// ---------------------------------------------------------------------------
// Key and IV derivation
// ---------------------------------------------------------------------------

/// The pieces of `s` separated by `c`, as `str::split(c)` yields them.
pub open spec fn split_on(s: Seq<char>, c: char) -> Seq<Seq<char>>
    decreases s.len(),
{
    match find_char(s, c) {
        None => seq![s],
        Some(i) => {
            if 0 <= i < s.len() {
                seq![s.take(i)] + split_on(s.skip(i + 1), c)
            } else {
                seq![s]
            }
        },
    }
}

/// The `k`-th dotted component of a version string parsed as `i32`, or `default`
/// when it is missing or does not parse.
pub open spec fn version_component(version: Seq<char>, k: int, default: i32) -> i32 {
    let parts = split_on(version, '.');
    if k < parts.len() {
        match parse_i32(parts[k]) {
            Some(v) => v,
            None => default,
        }
    } else {
        default
    }
}

/// `i32::to_le_bytes`.
pub open spec fn le_bytes(v: i32) -> Seq<u8> {
    let u = v as u32;
    seq![(u & 0xff) as u8, ((u >> 8) & 0xff) as u8, ((u >> 16) & 0xff) as u8, ((u >> 24) & 0xff) as u8]
}

/// The 32-byte key: a type marker byte (`1` for `"DT"`, else `0`) followed by
/// up to 31 bytes of the model name, zero-filled.
pub open spec fn derived_key(model: Seq<u8>, type_is_dt: bool) -> Seq<u8> {
    Seq::new(
        32,
        |i: int|
            if i == 0 {
                if type_is_dt {
                    1u8
                } else {
                    0u8
                }
            } else if i - 1 < model.len() {
                model[i - 1]
            } else {
                0u8
            },
    )
}

/// The 16-byte IV: major, minor, build and revision as little-endian `i32`;
/// a missing or unreadable component counts as -1.
pub open spec fn derived_iv(version: Seq<char>) -> Seq<u8> {
    le_bytes(version_component(version, 0, -1i32)) + le_bytes(version_component(version, 1, -1i32))
        + le_bytes(version_component(version, 2, -1i32)) + le_bytes(version_component(version, 3, -1i32))
}

fn i32_le_bytes(out: &mut Vec<u8>, v: i32)
    ensures
        final(out)@ == old(out)@ + le_bytes(v),
{
    let u = v as u32;
    out.push((u & 0xff) as u8);
    out.push(((u >> 8) & 0xff) as u8);
    out.push(((u >> 16) & 0xff) as u8);
    out.push(((u >> 24) & 0xff) as u8);
    assert(out@ =~= old(out)@ + le_bytes(v));
}

/// Index of the first `c` at or after `from`, or `s.len()`.
fn find_from(s: &[char], c: char, from: usize) -> (r: usize)
    requires
        from <= s.len(),
    ensures
        from <= r <= s.len(),
        r < s.len() ==> find_char(s@.skip(from as int), c) == Some(r - from),
        r == s.len() ==> find_char(s@.skip(from as int), c) is None,
{
    let mut i = from;
    assert(s@.skip(from as int).skip(0) =~= s@.skip(from as int));
    while i < s.len()
        invariant
            from <= i <= s.len(),
            find_char(s@.skip(from as int), c) == (match find_char(s@.skip(i as int), c) {
                Some(k) => Some(k + (i - from)),
                None => None,
            }),
        decreases s.len() - i,
    {
        if s[i] == c {
            return i;
        }
        assert(s@.skip(i as int).drop_first() =~= s@.skip(i + 1));
        i = i + 1;
    }
    i
}

/// The `k`-th component of the version string, parsed, or `default`.
fn version_part(v: &[char], k: usize, default: i32) -> (r: i32)
    ensures
        r == version_component(v@, k as int, default),
{
    let mut pos: usize = 0;
    let mut idx: usize = 0;
    let ghost total = split_on(v@, '.');
    assert(v@.skip(0) =~= v@);
    loop
        invariant
            pos <= v.len(),
            idx <= k,
            total == split_on(v@, '.'),
            idx <= total.len(),
            total.skip(idx as int) == split_on(v@.skip(pos as int), '.'),
        decreases v.len() - pos + (k - idx),
    {
        let end = find_from(v, '.', pos);
        let ghost rest = v@.skip(pos as int);
        if idx == k {
            let piece = chars_slice(v, pos, end);
            proof {
                if end < v.len() {
                    assert(piece@ =~= rest.take((end - pos) as int));
                } else {
                    assert(piece@ =~= rest);
                }
                assert(total.skip(idx as int)[0] == total[idx as int]);
            }
            return match parse_i32_chars(piece.as_slice()) {
                Some(x) => x,
                None => default,
            };
        }
        if end == v.len() {
            proof {
                assert(split_on(rest, '.') =~= seq![rest]);
                assert(total.len() == idx + 1);
            }
            return default;
        }
        proof {
            assert(rest.skip((end - pos) + 1) =~= v@.skip(end + 1));
            assert(total.skip(idx + 1) =~= total.skip(idx as int).drop_first());
        }
        pos = end + 1;
        idx = idx + 1;
    }
}

/// Derives the AES key and IV from the root attributes `ModelName`,
/// `Version` and `Type`.
pub fn get_key_and_iv(model_name: &str, version_str: &str, type_str: &str) -> (r: (
    Vec<u8>,
    Vec<u8>,
))
    ensures
        r.0@ == derived_key(model_name.spec_bytes(), type_str@ == "DT"@),
        r.1@ == derived_iv(version_str@),
        r.0@.len() == 32,
        r.1@.len() == 16,
{
    let type_chars = str_chars(type_str);
    let is_dt = chars_eq_str(type_chars.as_slice(), "DT");
    let model = model_name.as_bytes();
    let mut key: Vec<u8> = Vec::new();
    key.push(if is_dt {
        1u8
    } else {
        0u8
    });
    let ghost target = derived_key(model_name.spec_bytes(), is_dt);
    let mut i: usize = 1;
    while i < 32
        invariant
            1 <= i <= 32,
            model@ == model_name.spec_bytes(),
            target == derived_key(model_name.spec_bytes(), is_dt),
            key@ == target.take(i as int),
        decreases 32 - i,
    {
        let b = if i - 1 < model.len() {
            model[i - 1]
        } else {
            0u8
        };
        key.push(b);
        assert(key@ =~= target.take(i + 1));
        i = i + 1;
    }
    assert(key@ =~= target);

    let v = str_chars(version_str);
    let major = version_part(v.as_slice(), 0, -1);
    let minor = version_part(v.as_slice(), 1, -1);
    let build = version_part(v.as_slice(), 2, -1);
    let revision = version_part(v.as_slice(), 3, -1);
    let mut iv: Vec<u8> = Vec::new();
    i32_le_bytes(&mut iv, major);
    i32_le_bytes(&mut iv, minor);
    i32_le_bytes(&mut iv, build);
    i32_le_bytes(&mut iv, revision);
    assert(iv@ =~= derived_iv(version_str@));
    (key, iv)
}

// ---------------------------------------------------------------------------
// AES-256-CBC with PKCS#7 padding
// ---------------------------------------------------------------------------

/// The ciphertext that `cbc::Encryptor::<aes::Aes256>` with PKCS#7 padding
/// produces for a plaintext, key and IV.
pub uninterp spec fn aes256_cbc_encrypt(plaintext: Seq<u8>, key: Seq<u8>, iv: Seq<u8>) -> Seq<u8>;

/// What `cbc::Decryptor::<aes::Aes256>` with PKCS#7 unpadding yields for a
/// ciphertext, key and IV: the plaintext, or `None` when the padding check fails.
pub uninterp spec fn aes256_cbc_decrypt(ciphertext: Seq<u8>, key: Seq<u8>, iv: Seq<u8>) -> Option<
    Seq<u8>,
>;

/// Calls `encrypt_padded_vec_mut::<Pkcs7>` on `cbc::Encryptor::<aes::Aes256>`.
/// Claims: the result is the named ciphertext, padded to the next whole
/// 16-byte block (a full block of padding when the plaintext already ends on
/// one), and decrypting it with the same key and IV gives the plaintext back
/// (CBC with PKCS#7 is invertible).
#[verifier::external_body]
fn cbc_encrypt_padded(plaintext: &[u8], key: &[u8], iv: &[u8]) -> (out: Vec<u8>)
    requires
        key@.len() == 32,
        iv@.len() == 16,
    ensures
        out@ == aes256_cbc_encrypt(plaintext@, key@, iv@),
        out@.len() == 16 * (plaintext@.len() / 16 + 1),
        aes256_cbc_decrypt(out@, key@, iv@) == Some(plaintext@),
{
    cbc::Encryptor::<aes::Aes256>::new(key.into(), iv.into()).encrypt_padded_vec_mut::<Pkcs7>(
        plaintext,
    )
}

/// Calls `decrypt_padded_vec_mut::<Pkcs7>` on `cbc::Decryptor::<aes::Aes256>`.
/// Claims: the result is the named plaintext, `None` exactly when the crate
/// reports an unpadding error.
#[verifier::external_body]
fn cbc_decrypt_padded(ciphertext: &[u8], key: &[u8], iv: &[u8]) -> (out: Option<Vec<u8>>)
    requires
        key@.len() == 32,
        iv@.len() == 16,
    ensures
        out matches Some(p) ==> aes256_cbc_decrypt(ciphertext@, key@, iv@) == Some(p@),
        out is None ==> aes256_cbc_decrypt(ciphertext@, key@, iv@) is None,
{
    cbc::Decryptor::<aes::Aes256>::new(key.into(), iv.into()).decrypt_padded_vec_mut::<Pkcs7>(
        ciphertext,
    ).ok()
}

/// The first `n` bytes of `s`.
fn first_bytes(s: &[u8], n: usize) -> (r: Vec<u8>)
    requires
        n <= s@.len(),
    ensures
        r@ == s@.take(n as int),
{
    let mut r: Vec<u8> = Vec::new();
    let mut i: usize = 0;
    while i < n
        invariant
            i <= n,
            n <= s@.len(),
            r@ == s@.take(i as int),
        decreases n - i,
    {
        r.push(s[i]);
        assert(r@ =~= s@.take(i + 1));
        i = i + 1;
    }
    r
}

/// Decrypts AES-256-CBC ciphertext with PKCS#7 padding, with the first 32
/// bytes of `key` as the key and the first 16 bytes of `iv` as the IV.
pub fn decrypt_aes_256_cbc(ciphertext: &[u8], key: &[u8], iv: &[u8]) -> (r: Result<
    Vec<u8>,
    String,
>)
    requires
        key@.len() >= 32,
        iv@.len() >= 16,
    ensures
        match aes256_cbc_decrypt(ciphertext@, key@.take(32), iv@.take(16)) {
            Some(p) => r matches Ok(v) && v@ == p,
            None => r matches Err(e) && e@ == "EVP_DecryptFinal_ex failed (probably bad padding or key)"@,
        },
{
    let k = first_bytes(key, 32);
    let v = first_bytes(iv, 16);
    match cbc_decrypt_padded(ciphertext, k.as_slice(), v.as_slice()) {
        Some(p) => Ok(p),
        None => Err(String::from_str("EVP_DecryptFinal_ex failed (probably bad padding or key)")),
    }
}

/// Encrypts plaintext with AES-256-CBC and PKCS#7 padding, with the first 32
/// bytes of `key` as the key and the first 16 bytes of `iv` as the IV.
pub fn encrypt_aes_256_cbc(plaintext: &[u8], key: &[u8], iv: &[u8]) -> (r: Result<
    Vec<u8>,
    String,
>)
    requires
        key@.len() >= 32,
        iv@.len() >= 16,
    ensures
        r matches Ok(c) && c@ == aes256_cbc_encrypt(plaintext@, key@.take(32), iv@.take(16)),
        r matches Ok(c) && c@.len() == 16 * (plaintext@.len() / 16 + 1),
        r matches Ok(c) && aes256_cbc_decrypt(c@, key@.take(32), iv@.take(16)) == Some(plaintext@),
{
    let k = first_bytes(key, 32);
    let v = first_bytes(iv, 16);
    Ok(cbc_encrypt_padded(plaintext, k.as_slice(), v.as_slice()))
}


// ---------------------------------------------------------------------------
// Base64
// ---------------------------------------------------------------------------

/// The Base64 alphabet character for a 6-bit value.
pub open spec fn b64_char(v: u8) -> char {
    if v < 26 {
        ((65 + v) as u8) as char
    } else if v < 52 {
        ((71 + v) as u8) as char
    } else if v < 62 {
        ((v - 4) as u8) as char
    } else if v == 62 {
        '+'
    } else {
        '/'
    }
}

/// The 6-bit value of a Base64 alphabet byte; any other byte counts as `0`.
pub open spec fn b64_value(b: u8) -> u8 {
    if 65 <= b <= 90 {
        (b - 65) as u8
    } else if 97 <= b <= 122 {
        (b - 71) as u8
    } else if 48 <= b <= 57 {
        (b + 4) as u8
    } else if b == 43 {
        62
    } else if b == 47 {
        63
    } else {
        0
    }
}

/// The four characters that encode one group of `n` (1 to 3) input bytes.
pub open spec fn b64_group(b0: u8, b1: u8, b2: u8, n: int) -> Seq<char> {
    let c0 = b0 >> 2;
    let c1 = ((b0 & 3) << 4) | (b1 >> 4);
    let c2 = ((b1 & 15) << 2) | (b2 >> 6);
    let c3 = b2 & 63;
    seq![
        b64_char(c0),
        b64_char(c1),
        if n > 1 {
            b64_char(c2)
        } else {
            '='
        },
        if n > 2 {
            b64_char(c3)
        } else {
            '='
        },
    ]
}

/// Base64 encoding with `=` padding.
pub open spec fn base64_encoding(s: Seq<u8>) -> Seq<char>
    decreases s.len(),
{
    if s.len() == 0 {
        seq![]
    } else {
        let g = b64_group(
            s[0],
            if s.len() > 1 {
                s[1]
            } else {
                0
            },
            if s.len() > 2 {
                s[2]
            } else {
                0
            },
            if s.len() < 3 {
                s.len() as int
            } else {
                3
            },
        );
        if s.len() <= 3 {
            g
        } else {
            g + base64_encoding(s.skip(3))
        }
    }
}

/// The bytes that one group of four input bytes decodes to: the third and
/// fourth output bytes are dropped where the input holds `=` there.
pub open spec fn b64_decode_group(x0: u8, x1: u8, x2: u8, x3: u8) -> Seq<u8> {
    let c0 = b64_value(x0);
    let c1 = b64_value(x1);
    let has2 = x2 != 61;
    let has3 = x3 != 61;
    let c2 = if has2 {
        b64_value(x2)
    } else {
        0
    };
    let c3 = if has3 {
        b64_value(x3)
    } else {
        0
    };
    let v0 = (c0 << 2) | (c1 >> 4);
    let v1 = ((c1 & 15) << 4) | (c2 >> 2);
    let v2 = ((c2 & 3) << 6) | c3;
    seq![v0] + (if has2 {
        seq![v1]
    } else {
        seq![]
    }) + (if has3 {
        seq![v2]
    } else {
        seq![]
    })
}

/// Decoding of a byte string whose length is a multiple of four, group by group.
pub open spec fn b64_decode_bytes(b: Seq<u8>) -> Seq<u8>
    decreases b.len(),
{
    if b.len() < 4 {
        seq![]
    } else {
        b64_decode_group(b[0], b[1], b[2], b[3]) + b64_decode_bytes(b.skip(4))
    }
}

/// `s` without its whitespace characters.
pub open spec fn strip_ws(s: Seq<char>) -> Seq<char>
    decreases s.len(),
{
    if s.len() == 0 {
        seq![]
    } else if is_ws(s.last()) {
        strip_ws(s.drop_last())
    } else {
        strip_ws(s.drop_last()).push(s.last())
    }
}

/// What `base64_decode` returns: whitespace is dropped, the UTF-8 bytes of
/// the rest must come in groups of four, and each group is decoded.
pub open spec fn base64_decoding(input: Seq<char>) -> Result<Seq<u8>, Seq<char>> {
    let bytes = encode_utf8(strip_ws(input));
    if bytes.len() == 0 {
        Ok(seq![])
    } else if bytes.len() % 4 != 0 {
        Err("Invalid base64 length"@)
    } else {
        Ok(b64_decode_bytes(bytes))
    }
}

fn b64_char_exec(v: u8) -> (c: char)
    requires
        v < 64,
    ensures
        c == b64_char(v),
{
    if v < 26 {
        (65 + v) as char
    } else if v < 52 {
        (71 + v) as char
    } else if v < 62 {
        (v - 4) as char
    } else if v == 62 {
        '+'
    } else {
        '/'
    }
}

fn b64_value_exec(b: u8) -> (v: u8)
    ensures
        v == b64_value(b),
        v < 64,
{
    if 65 <= b && b <= 90 {
        b - 65
    } else if 97 <= b && b <= 122 {
        b - 71
    } else if 48 <= b && b <= 57 {
        b + 4
    } else if b == 43 {
        62
    } else if b == 47 {
        63
    } else {
        0
    }
}

proof fn lemma_b64_fields(b0: u8, b1: u8, b2: u8)
    ensures
        b0 >> 2 < 64,
        ((b0 & 3) << 4) | (b1 >> 4) < 64,
        ((b1 & 15) << 2) | (b2 >> 6) < 64,
        b2 & 63 < 64,
{
    assert(b0 >> 2 < 64) by (bit_vector);
    assert(((b0 & 3) << 4) | (b1 >> 4) < 64) by (bit_vector);
    assert(((b1 & 15) << 2) | (b2 >> 6) < 64) by (bit_vector);
    assert(b2 & 63 < 64) by (bit_vector);
}

/// Base64-encodes bytes with the standard alphabet and `=` padding.
pub fn base64_encode(input: &[u8]) -> (r: String)
    ensures
        r@ == base64_encoding(input@),
{
    let mut out: Vec<char> = Vec::new();
    let len = input.len();
    let mut i: usize = 0;
    assert(input@.skip(0) =~= input@);
    while i < len
        invariant
            i <= len,
            len == input@.len(),
            base64_encoding(input@) == out@ + base64_encoding(input@.skip(i as int)),
        decreases len - i,
    {
        let ghost rest = input@.skip(i as int);
        let b0 = input[i];
        let b1 = if len - i > 1 {
            input[i + 1]
        } else {
            0
        };
        let b2 = if len - i > 2 {
            input[i + 2]
        } else {
            0
        };
        proof {
            lemma_b64_fields(b0, b1, b2);
        }
        let c0 = b0 >> 2;
        let c1 = ((b0 & 3) << 4) | (b1 >> 4);
        let c2 = ((b1 & 15) << 2) | (b2 >> 6);
        let c3 = b2 & 63;
        let ghost before = out@;
        out.push(b64_char_exec(c0));
        out.push(b64_char_exec(c1));
        if len - i > 1 {
            out.push(b64_char_exec(c2));
        } else {
            out.push('=');
        }
        if len - i > 2 {
            out.push(b64_char_exec(c3));
        } else {
            out.push('=');
        }
        let ghost n: int = if rest.len() < 3 {
            rest.len() as int
        } else {
            3
        };
        assert(out@ =~= before + b64_group(b0, b1, b2, n));
        if len - i <= 3 {
            assert(base64_encoding(rest) == b64_group(b0, b1, b2, n));
            assert(input@.skip(len as int) =~= Seq::<u8>::empty());
            i = len;
        } else {
            assert(rest.skip(3) =~= input@.skip(i + 3));
            i = i + 3;
        }
    }
    assert(input@.skip(len as int) =~= Seq::<u8>::empty());
    chars_to_string(out.as_slice())
}

/// Decodes Base64 text, ignoring whitespace.
pub fn base64_decode(input: &str) -> (r: Result<Vec<u8>, String>)
    ensures
        match base64_decoding(input@) {
            Ok(v) => r matches Ok(x) && x@ == v,
            Err(e) => r matches Err(x) && x@ == e,
        },
{
    let chars = str_chars(input);
    let mut clean: Vec<char> = Vec::new();
    let mut k: usize = 0;
    while k < chars.len()
        invariant
            k <= chars.len(),
            chars@ == input@,
            clean@ == strip_ws(chars@.take(k as int)),
        decreases chars.len() - k,
    {
        assert(chars@.take(k + 1).drop_last() =~= chars@.take(k as int));
        if !is_whitespace(chars[k]) {
            clean.push(chars[k]);
        }
        k = k + 1;
    }
    assert(chars@.take(chars.len() as int) =~= chars@);
    let clean_string = chars_to_string(clean.as_slice());
    let bytes = clean_string.as_str().as_bytes();
    if bytes.len() == 0 {
        return Ok(Vec::new());
    }
    if bytes.len() % 4 != 0 {
        return Err(String::from_str("Invalid base64 length"));
    }
    let mut out: Vec<u8> = Vec::new();
    let mut i: usize = 0;
    assert(bytes@.skip(0) =~= bytes@);
    while i < bytes.len()
        invariant
            i <= bytes.len(),
            bytes.len() % 4 == 0,
            i % 4 == 0,
            b64_decode_bytes(bytes@) == out@ + b64_decode_bytes(bytes@.skip(i as int)),
        decreases bytes.len() - i,
    {
        let ghost rest = bytes@.skip(i as int);
        let c0 = b64_value_exec(bytes[i]);
        let c1 = b64_value_exec(bytes[i + 1]);
        let has_c2 = bytes[i + 2] != 61;
        let has_c3 = bytes[i + 3] != 61;
        let c2 = if has_c2 {
            b64_value_exec(bytes[i + 2])
        } else {
            0
        };
        let c3 = if has_c3 {
            b64_value_exec(bytes[i + 3])
        } else {
            0
        };
        let v0 = (c0 << 2) | (c1 >> 4);
        let v1 = ((c1 & 15) << 4) | (c2 >> 2);
        let v2 = ((c2 & 3) << 6) | c3;
        let ghost before = out@;
        out.push(v0);
        if has_c2 {
            out.push(v1);
        }
        if has_c3 {
            out.push(v2);
        }
        assert(out@ =~= before + b64_decode_group(rest[0], rest[1], rest[2], rest[3]));
        assert(rest.skip(4) =~= bytes@.skip(i + 4));
        i = i + 4;
    }
    assert(bytes@.skip(bytes.len() as int) =~= Seq::<u8>::empty());
    Ok(out)
}

// ---------------------------------------------------------------------------
// Base64 round trip
// ---------------------------------------------------------------------------

/// The characters that `base64_encode` can emit.
pub open spec fn is_b64_symbol(c: char) -> bool {
    ('A' <= c <= 'Z') || ('a' <= c <= 'z') || ('0' <= c <= '9') || c == '+' || c == '/' || c
        == '='
}

proof fn lemma_b64_char_symbol(v: u8)
    requires
        v < 64,
    ensures
        is_b64_symbol(b64_char(v)),
        b64_char(v) != '=',
        b64_value(b64_char(v) as u8) == v,
{
}

proof fn lemma_encoding_symbols(s: Seq<u8>)
    ensures
        forall|i: int| 0 <= i < base64_encoding(s).len() ==> is_b64_symbol(#[trigger] base64_encoding(s)[i]),
        base64_encoding(s).len() % 4 == 0,
        base64_encoding(s).len() == 0 <==> s.len() == 0,
    decreases s.len(),
{
    if s.len() > 0 {
        let b0 = s[0];
        let b1: u8 = if s.len() > 1 { s[1] } else { 0 };
        let b2: u8 = if s.len() > 2 { s[2] } else { 0 };
        lemma_b64_fields(b0, b1, b2);
        lemma_b64_char_symbol(b0 >> 2);
        lemma_b64_char_symbol(((b0 & 3) << 4) | (b1 >> 4));
        lemma_b64_char_symbol(((b1 & 15) << 2) | (b2 >> 6));
        lemma_b64_char_symbol(b2 & 63);
        if s.len() > 3 {
            lemma_encoding_symbols(s.skip(3));
        }
    }
}

proof fn lemma_strip_ws_symbols(s: Seq<char>)
    requires
        forall|i: int| 0 <= i < s.len() ==> is_b64_symbol(#[trigger] s[i]),
    ensures
        strip_ws(s) == s,
    decreases s.len(),
{
    if s.len() > 0 {
        assert(is_b64_symbol(s[s.len() - 1]));
        lemma_strip_ws_symbols(s.drop_last());
        assert(s.drop_last().push(s.last()) =~= s);
    }
}

proof fn lemma_group_roundtrip(b0: u8, b1: u8, b2: u8)
    ensures
        ((b0 >> 2) << 2) | ((((b0 & 3) << 4) | (b1 >> 4)) >> 4) == b0,
        ((((((b0 & 3) << 4) | (b1 >> 4)) & 15) << 4) | ((((b1 & 15) << 2) | (b2 >> 6)) >> 2)) == b1,
        (((((b1 & 15) << 2) | (b2 >> 6)) & 3) << 6) | (b2 & 63) == b2,
        ((((((b0 & 3) << 4) | (0u8 >> 4)) & 15) << 4) | (0u8 >> 2)) == 0,
{
    assert(((b0 >> 2) << 2) | ((((b0 & 3) << 4) | (b1 >> 4)) >> 4) == b0) by (bit_vector);
    assert(((((((b0 & 3) << 4) | (b1 >> 4)) & 15) << 4) | ((((b1 & 15) << 2) | (b2 >> 6)) >> 2))
        == b1) by (bit_vector);
    assert((((((b1 & 15) << 2) | (b2 >> 6)) & 3) << 6) | (b2 & 63) == b2) by (bit_vector);
    assert(((((((b0 & 3) << 4) | (0u8 >> 4)) & 15) << 4) | (0u8 >> 2)) == 0) by (bit_vector);
}

/// The bytes of an ASCII character sequence.
pub open spec fn ascii_bytes(s: Seq<char>) -> Seq<u8> {
    Seq::new(s.len(), |i: int| s[i] as u8)
}

proof fn lemma_decode_encoding(s: Seq<u8>)
    ensures
        b64_decode_bytes(ascii_bytes(base64_encoding(s))) == s,
    decreases s.len(),
{
    let e = base64_encoding(s);
    if s.len() == 0 {
        assert(ascii_bytes(e) =~= Seq::<u8>::empty());
        assert(s =~= Seq::<u8>::empty());
    } else {
        let b0 = s[0];
        let b1: u8 = if s.len() > 1 { s[1] } else { 0 };
        let b2: u8 = if s.len() > 2 { s[2] } else { 0 };
        lemma_b64_fields(b0, b1, b2);
        lemma_b64_char_symbol(b0 >> 2);
        lemma_b64_char_symbol(((b0 & 3) << 4) | (b1 >> 4));
        lemma_b64_char_symbol(((b1 & 15) << 2) | (b2 >> 6));
        lemma_b64_char_symbol(b2 & 63);
        lemma_group_roundtrip(b0, b1, b2);
        let n: int = if s.len() < 3 { s.len() as int } else { 3 };
        let g = b64_group(b0, b1, b2, n);
        let bytes = ascii_bytes(e);
        assert('=' as u8 == 61u8);
        if s.len() <= 3 {
            assert(bytes.skip(4) =~= Seq::<u8>::empty());
            assert(b64_decode_bytes(bytes.skip(4)) == Seq::<u8>::empty());
            assert(b64_decode_group(bytes[0], bytes[1], bytes[2], bytes[3]) =~= s);
            assert(b64_decode_bytes(bytes) =~= s);
        } else {
            lemma_decode_encoding(s.skip(3));
            assert(e == g + base64_encoding(s.skip(3)));
            assert(bytes.skip(4) =~= ascii_bytes(base64_encoding(s.skip(3))));
            assert(b64_decode_group(bytes[0], bytes[1], bytes[2], bytes[3]) =~= s.take(3));
            assert(s =~= s.take(3) + s.skip(3));
        }
    }
}

/// Decoding what `base64_encode` produced gives the original bytes back.
pub proof fn lemma_base64_roundtrip(data: Seq<u8>)
    ensures
        base64_decoding(base64_encoding(data)) == Ok::<Seq<u8>, Seq<char>>(data),
{
    let e = base64_encoding(data);
    lemma_encoding_symbols(data);
    lemma_strip_ws_symbols(e);
    assert(vstd::utf8::is_ascii_chars(e));
    vstd::utf8::is_ascii_chars_encode_utf8(e);
    assert(encode_utf8(e) =~= ascii_bytes(e));
    lemma_decode_encoding(data);
    if data.len() == 0 {
        assert(data =~= Seq::<u8>::empty());
    }
}

pub proof fn lemma_strip_ws_idempotent(s: Seq<char>)
    ensures
        strip_ws(strip_ws(s)) == strip_ws(s),
    decreases s.len(),
{
    if s.len() > 0 {
        lemma_strip_ws_idempotent(s.drop_last());
        if !is_ws(s.last()) {
            let t = strip_ws(s.drop_last()).push(s.last());
            assert(t.drop_last() =~= strip_ws(s.drop_last()));
            assert(t.last() == s.last());
        }
    }
}

/// Base64 decoding ignores whitespace: decoding the text with its whitespace
/// removed gives the same result. It fails, with `Invalid base64 length`,
/// exactly when the UTF-8 length of the text without whitespace is not a
/// multiple of four, and text that is only whitespace decodes to no bytes.
pub proof fn lemma_base64_decoding_whitespace(input: Seq<char>)
    ensures
        base64_decoding(input) == base64_decoding(strip_ws(input)),
        base64_decoding(input) is Err <==> encode_utf8(strip_ws(input)).len() % 4 != 0,
        base64_decoding(input) is Err ==> base64_decoding(input) == Err::<Seq<u8>, Seq<char>>(
            "Invalid base64 length"@,
        ),
        strip_ws(input).len() == 0 ==> base64_decoding(input) == Ok::<Seq<u8>, Seq<char>>(seq![]),
{
    lemma_strip_ws_idempotent(input);
    if strip_ws(input).len() == 0 {
        assert(encode_utf8(strip_ws(input)) =~= Seq::<u8>::empty());
    }
}

} // verus!
