//! W3C XML Encryption of the children of a ThrottleGear root element:
//! each child element is serialized, encrypted with AES-256-CBC, prefixed
//! with its IV, Base64-encoded and wrapped in an `<EncryptedData>` element;
//! decryption reverses this.

use vstd::prelude::*;
use vstd::utf8::{decode_utf8, encode_utf8, valid_utf8};
use crate::crypto::{
    aes256_cbc_decrypt, aes256_cbc_encrypt, base64_decode, base64_decoding, base64_encode,
    base64_encoding, decrypt_aes_256_cbc, encrypt_aes_256_cbc, lemma_base64_roundtrip,
};
use crate::strmap::{map_get, map_insert, StrMap};
use crate::text::{chars_ends_with, chars_eq_str, concat2, ends_with, push_all, str_chars};
use crate::xml::{
    find_elem, lemma_nodes_model_index, lemma_nodes_model_push, node_model, nodes_model,
    ElemModel, NodeModel, XmlElement, XmlNode,
};
use crate::xml_parse::{parse_element, parse_xml_str};
use crate::xml_write::{elem_depth, element_text, serialize_xml, nodes_depth};
use crate::xml_roundtrip::{element_children_ok, element_nodes, lemma_reparse_nodes};

verus! {

broadcast use vstd::string::group_string_axioms;

/// The `Algorithm` of AES-256-CBC in XML Encryption.
pub open spec fn aes_uri() -> Seq<char> {
    "http://www.w3.org/2001/04/xmlenc#aes256-cbc"@
}

/// The `Type` of an encrypted element in XML Encryption.
pub open spec fn element_type_uri() -> Seq<char> {
    "http://www.w3.org/2001/04/xmlenc#Element"@
}

/// The XML Encryption namespace.
pub open spec fn xmlenc_ns() -> Seq<char> {
    "http://www.w3.org/2001/04/xmlenc#"@
}

/// `MinLoaderVersion` of the root, or its default `5.7.7.0`.
pub open spec fn min_loader_version(root: ElemModel) -> Seq<char> {
    match map_get(root.attrs, "MinLoaderVersion"@) {
        Some(v) => v,
        None => "5.7.7.0"@,
    }
}

/// The root attributes after a transform: `MinLoaderVersion` kept (or set to
/// its default) and `Cryptography` set to `status`.
pub open spec fn transformed_attrs(root: ElemModel, status: Seq<char>) -> Seq<(Seq<char>, Seq<char>)> {
    map_insert(
        map_insert(root.attrs, "MinLoaderVersion"@, min_loader_version(root)),
        "Cryptography"@,
        status,
    )
}

// ---------------------------------------------------------------------------
// UTF-8 decoding
// ---------------------------------------------------------------------------

/// The text that `Display` writes for the `Utf8Error` that `std::str::from_utf8`
/// reports on these bytes.
pub uninterp spec fn utf8_error_text(bytes: Seq<u8>) -> Seq<char>;

/// Calls `std::str::from_utf8` and writes a reported error with `Display`.
/// Claims, as the documentation of `from_utf8` says: the bytes are accepted
/// exactly when they are valid UTF-8, and then the string holds the decoded
/// characters; a string never spans more than `isize::MAX` bytes.
#[verifier::external_body]
fn utf8_str(bytes: &[u8]) -> (r: Result<&str, String>)
    ensures
        r is Ok <==> valid_utf8(bytes@),
        r matches Ok(s) ==> s@ == decode_utf8(bytes@) && s@.len() <= isize::MAX,
        r matches Err(e) ==> e@ == utf8_error_text(bytes@),
{
    match std::str::from_utf8(bytes) {
        Ok(s) => Ok(s),
        Err(e) => Err(format!("{}", e)),
    }
}

// ---------------------------------------------------------------------------
// Decryption
// ---------------------------------------------------------------------------

/// What one `<EncryptedData>` element decrypts to: the parsed element, `None`
/// when its `CipherValue` does not start with text, or the error.
pub open spec fn decrypt_encrypted_data(elem: ElemModel, key: Seq<u8>) -> Result<
    Option<ElemModel>,
    Seq<char>,
> {
    match find_elem(elem, "EncryptionMethod"@) {
        None => Err("EncryptionMethod not found in EncryptedData"@),
        Some(method) => match map_get(method.attrs, "Algorithm"@) {
            None => Err("Algorithm attribute missing"@),
            Some(algo) => if algo != aes_uri() {
                Err("Unsupported algorithm: "@ + algo)
            } else {
                match find_elem(elem, "CipherValue"@) {
                    None => Err("CipherValue not found in EncryptedData"@),
                    Some(cv) => if cv.children.len() == 0 {
                        Err("CipherValue is empty"@)
                    } else {
                        match cv.children[0] {
                            NodeModel::Element(_) => Ok(None),
                            NodeModel::Text(b64) => match base64_decoding(b64) {
                                Err(e) => Err(e),
                                Ok(full) => if full.len() < 16 {
                                    Err("Ciphertext too short"@)
                                } else {
                                    match aes256_cbc_decrypt(full.skip(16), key.take(32), full.take(16)) {
                                        None => Err(
                                            "EVP_DecryptFinal_ex failed (probably bad padding or key)"@,
                                        ),
                                        Some(plain) => if !valid_utf8(plain) {
                                            Err(
                                                "Decrypted string is not UTF-8: "@
                                                    + utf8_error_text(plain),
                                            )
                                        } else {
                                            match parse_element(decode_utf8(plain), 0) {
                                                Ok((m, _)) => Ok(Some(m)),
                                                Err(e) => Err(e),
                                            }
                                        },
                                    }
                                },
                            },
                        }
                    },
                }
            },
        },
    }
}

/// A child of the root: elements whose name ends with `EncryptedData` are
/// decrypted, anything else is left out.
pub open spec fn decrypt_node(n: NodeModel, key: Seq<u8>) -> Result<Option<ElemModel>, Seq<char>> {
    match n {
        NodeModel::Element(e) => if ends_with(e.name, "EncryptedData"@) {
            decrypt_encrypted_data(e, key)
        } else {
            Ok(None)
        },
        NodeModel::Text(_) => Ok(None),
    }
}

pub open spec fn opt_node(o: Option<ElemModel>) -> Seq<NodeModel> {
    match o {
        Some(m) => seq![NodeModel::Element(m)],
        None => seq![],
    }
}

/// The decrypted children, in order, or the first error.
pub open spec fn decrypt_nodes(ns: Seq<NodeModel>, key: Seq<u8>) -> Result<Seq<NodeModel>, Seq<char>>
    decreases ns.len(),
{
    if ns.len() == 0 {
        Ok(seq![])
    } else {
        match decrypt_node(ns[0], key) {
            Err(e) => Err(e),
            Ok(o) => match decrypt_nodes(ns.drop_first(), key) {
                Err(e) => Err(e),
                Ok(rest) => Ok(opt_node(o) + rest),
            },
        }
    }
}

fn decrypt_encrypted_data_exec(elem: &XmlElement, key: &[u8]) -> (r: Result<Option<XmlElement>, String>)
    requires
        key@.len() >= 32,
    ensures
        match decrypt_encrypted_data(elem@, key@) {
            Ok(Some(m)) => r matches Ok(Some(x)) && x@ == m,
            Ok(None) => r matches Ok(None),
            Err(e) => r matches Err(x) && x@ == e,
        },
{
    let method = match elem.find_child_recursive("EncryptionMethod") {
        Some(m) => m,
        None => {
            return Err(String::from_str("EncryptionMethod not found in EncryptedData"));
        },
    };
    let algo = match method.get_attribute("Algorithm") {
        Some(a) => a,
        None => {
            return Err(String::from_str("Algorithm attribute missing"));
        },
    };
    let algo_chars = str_chars(algo.as_str());
    if !chars_eq_str(algo_chars.as_slice(), "http://www.w3.org/2001/04/xmlenc#aes256-cbc") {
        return Err(concat2("Unsupported algorithm: ", algo_chars.as_slice()));
    }
    let cipher_value = match elem.find_child_recursive("CipherValue") {
        Some(c) => c,
        None => {
            return Err(String::from_str("CipherValue not found in EncryptedData"));
        },
    };
    if cipher_value.children.len() == 0 {
        return Err(String::from_str("CipherValue is empty"));
    }
    proof {
        lemma_nodes_model_index(cipher_value.children@);
    }
    let b64 = match &cipher_value.children[0] {
        XmlNode::Text(t) => t,
        XmlNode::Element(_) => {
            return Ok(None);
        },
    };
    let full = match base64_decode(b64.as_str()) {
        Ok(f) => f,
        Err(e) => {
            return Err(e);
        },
    };
    if full.len() < 16 {
        return Err(String::from_str("Ciphertext too short"));
    }
    let mut iv: Vec<u8> = Vec::new();
    let mut ct: Vec<u8> = Vec::new();
    let mut i: usize = 0;
    while i < full.len()
        invariant
            i <= full.len(),
            16 <= full.len(),
            iv@ == full@.take(if i < 16 { i as int } else { 16 }),
            ct@ == if i < 16 { Seq::<u8>::empty() } else { full@.subrange(16, i as int) },
        decreases full.len() - i,
    {
        if i < 16 {
            iv.push(full[i]);
            assert(iv@ =~= full@.take(if i + 1 < 16 { i + 1 } else { 16 }));
        } else {
            ct.push(full[i]);
            assert(ct@ =~= full@.subrange(16, i + 1));
        }
        i = i + 1;
    }
    assert(ct@ =~= full@.skip(16));
    assert(iv@.take(16) =~= iv@);
    let plain = match decrypt_aes_256_cbc(ct.as_slice(), key, iv.as_slice()) {
        Ok(p) => p,
        Err(e) => {
            return Err(e);
        },
    };
    let text = match utf8_str(plain.as_slice()) {
        Ok(s) => s,
        Err(detail) => {
            let d = str_chars(detail.as_str());
            return Err(concat2("Decrypted string is not UTF-8: ", d.as_slice()));
        },
    };
    match parse_xml_str(text) {
        Ok(e) => Ok(Some(e)),
        Err(e) => Err(e),
    }
}

proof fn lemma_decrypt_nodes_skip(ns: Seq<NodeModel>, key: Seq<u8>, i: int)
    requires
        0 <= i < ns.len(),
    ensures
        decrypt_nodes(ns.skip(i), key) == match decrypt_node(ns[i], key) {
            Err(e) => Err(e),
            Ok(o) => match decrypt_nodes(ns.skip(i + 1), key) {
                Err(e) => Err(e),
                Ok(rest) => Ok(opt_node(o) + rest),
            },
        },
{
    assert(ns.skip(i).drop_first() =~= ns.skip(i + 1));
    assert(ns.skip(i)[0] == ns[i]);
}

/// Replaces the `<EncryptedData>` children of the root by the elements they
/// decrypt to, keeps `MinLoaderVersion` (or sets its default) and marks the
/// root `Cryptography="Decrypted"`. On an error the root is left unchanged.
pub fn decrypt_xml(root: &mut XmlElement, key: &[u8]) -> (r: Result<(), String>)
    requires
        key@.len() >= 32,
    ensures
        match decrypt_nodes(old(root)@.children, key@) {
            Err(e) => r matches Err(x) && x@ == e && final(root)@ == old(root)@,
            Ok(ch) => if ch.len() == 0 {
                r matches Err(x) && x@ == "No encrypted elements found"@ && final(root)@
                    == old(root)@
            } else {
                r is Ok && final(root)@ == (ElemModel {
                    name: old(root)@.name,
                    attrs: transformed_attrs(old(root)@, "Decrypted"@),
                    children: ch,
                })
            },
        },
{
    let ghost ms = nodes_model(root.children@);
    proof {
        lemma_nodes_model_index(root.children@);
    }
    let min_loader = match root.get_attribute("MinLoaderVersion") {
        Some(v) => v.clone(),
        None => String::from_str("5.7.7.0"),
    };
    let mut decrypted: Vec<XmlNode> = Vec::new();
    let mut i: usize = 0;
    let suffix = str_chars("EncryptedData");
    assert(ms.skip(0) =~= ms);
    assert(nodes_model(decrypted@) =~= Seq::<NodeModel>::empty());
    while i < root.children.len()
        invariant
            i <= root.children@.len(),
            key@.len() >= 32,
            suffix@ == "EncryptedData"@,
            ms == nodes_model(root.children@),
            ms.len() == root.children@.len(),
            forall|j: int| 0 <= j < root.children@.len() ==> #[trigger] ms[j] == node_model(root.children@[j]),
            decrypt_nodes(ms, key@) == match decrypt_nodes(ms.skip(i as int), key@) {
                Err(e) => Err(e),
                Ok(rest) => Ok(nodes_model(decrypted@) + rest),
            },
        decreases root.children.len() - i,
    {
        proof {
            lemma_decrypt_nodes_skip(ms, key@, i as int);
        }
        let ghost before = decrypted@;
        match &root.children[i] {
            XmlNode::Element(elem) => {
                let name = str_chars(elem.name.as_str());
                if chars_ends_with(name.as_slice(), suffix.as_slice()) {
                    match decrypt_encrypted_data_exec(elem, key) {
                        Err(e) => {
                            return Err(e);
                        },
                        Ok(Some(d)) => {
                            let n = XmlNode::Element(d);
                            proof {
                                lemma_nodes_model_push(decrypted@, n);
                            }
                            decrypted.push(n);
                        },
                        Ok(None) => {},
                    }
                }
            },
            XmlNode::Text(_) => {},
        }
        proof {
            if decrypt_node(ms[i as int], key@) is Ok {
                assert(nodes_model(decrypted@) =~= nodes_model(before) + opt_node(
                    decrypt_node(ms[i as int], key@)->Ok_0,
                ));
                assert forall|rest: Seq<NodeModel>|
                    #![trigger nodes_model(decrypted@) + rest]
                    nodes_model(decrypted@) + rest =~= nodes_model(before) + (opt_node(
                        decrypt_node(ms[i as int], key@)->Ok_0,
                    ) + rest) by {}
            }
        }
        i = i + 1;
    }
    assert(ms.skip(i as int) =~= Seq::<NodeModel>::empty());
    if decrypted.len() == 0 {
        return Err(String::from_str("No encrypted elements found"));
    }
    root.children = decrypted;
    root.attributes.insert(String::from_str("MinLoaderVersion"), min_loader);
    root.attributes.insert(String::from_str("Cryptography"), String::from_str("Decrypted"));
    Ok(())
}


// ---------------------------------------------------------------------------
// Encryption
// ---------------------------------------------------------------------------

/// The `<EncryptedData>` element that carries a Base64 payload.
pub open spec fn encrypted_data_model(payload: Seq<char>) -> ElemModel {
    ElemModel {
        name: "EncryptedData"@,
        attrs: map_insert(map_insert(seq![], "Type"@, element_type_uri()), "xmlns"@, xmlenc_ns()),
        children: seq![
            NodeModel::Element(
                ElemModel {
                    name: "EncryptionMethod"@,
                    attrs: map_insert(seq![], "Algorithm"@, aes_uri()),
                    children: seq![],
                },
            ),
            NodeModel::Element(
                ElemModel {
                    name: "CipherData"@,
                    attrs: seq![],
                    children: seq![
                        NodeModel::Element(
                            ElemModel {
                                name: "CipherValue"@,
                                attrs: seq![],
                                children: seq![NodeModel::Text(payload)],
                            },
                        ),
                    ],
                },
            ),
            NodeModel::Text("\n"@),
        ],
    }
}

/// The plaintext of one child: its UTF-8 serialization at level 0.
pub open spec fn child_plaintext(e: ElemModel) -> Seq<u8> {
    encode_utf8(element_text(e, 0))
}

/// Base64 of the IV followed by the ciphertext of a child.
pub open spec fn child_payload(e: ElemModel, key: Seq<u8>, iv: Seq<u8>) -> Seq<char> {
    base64_encoding(iv + aes256_cbc_encrypt(child_plaintext(e), key.take(32), iv.take(16)))
}

/// The encrypted children: one `<EncryptedData>` per child element, in
/// order; text children are left out.
pub open spec fn encrypt_nodes(ns: Seq<NodeModel>, key: Seq<u8>, iv: Seq<u8>) -> Seq<NodeModel>
    decreases ns.len(),
{
    if ns.len() == 0 {
        seq![]
    } else {
        let first = match ns[0] {
            NodeModel::Element(e) => seq![NodeModel::Element(encrypted_data_model(child_payload(e, key, iv)))],
            NodeModel::Text(_) => seq![],
        };
        first + encrypt_nodes(ns.drop_first(), key, iv)
    }
}

/// The child elements as parsing their serialization gives them back, in
/// order; text children are left out.
pub open spec fn reparse_nodes(ns: Seq<NodeModel>) -> Result<Seq<NodeModel>, Seq<char>>
    decreases ns.len(),
{
    if ns.len() == 0 {
        Ok(seq![])
    } else {
        let first = match ns[0] {
            NodeModel::Element(e) => match parse_element(element_text(e, 0), 0) {
                Ok((m, _)) => Ok(seq![NodeModel::Element(m)]),
                Err(err) => Err(err),
            },
            NodeModel::Text(_) => Ok(seq![]),
        };
        match first {
            Err(err) => Err(err),
            Ok(f) => match reparse_nodes(ns.drop_first()) {
                Err(err) => Err(err),
                Ok(rest) => Ok(f + rest),
            },
        }
    }
}

/// The cipher gives this child's plaintext back from its ciphertext.
pub open spec fn child_inverts(n: NodeModel, key: Seq<u8>, iv: Seq<u8>) -> bool {
    n matches NodeModel::Element(e) ==> aes256_cbc_decrypt(
        aes256_cbc_encrypt(child_plaintext(e), key.take(32), iv.take(16)),
        key.take(32),
        iv.take(16),
    ) == Some(child_plaintext(e))
}

proof fn lemma_decrypt_encrypted_child(e: ElemModel, key: Seq<u8>, iv: Seq<u8>)
    requires
        iv.len() == 16,
        child_inverts(NodeModel::Element(e), key, iv),
    ensures
        decrypt_node(NodeModel::Element(encrypted_data_model(child_payload(e, key, iv))), key)
            == match parse_element(element_text(e, 0), 0) {
            Ok((m, _)) => Ok::<Option<ElemModel>, Seq<char>>(Some(m)),
            Err(err) => Err(err),
        },
{
    reveal_strlit("EncryptedData");
    reveal_strlit("EncryptionMethod");
    reveal_strlit("CipherData");
    reveal_strlit("CipherValue");
    reveal_strlit("Algorithm");
    let payload_bytes = iv + aes256_cbc_encrypt(child_plaintext(e), key.take(32), iv.take(16));
    assert(iv.take(16) =~= iv);
    let d = encrypted_data_model(child_payload(e, key, iv));
    assert(ends_with(d.name, "EncryptedData"@)) by {
        assert(d.name.skip(0) =~= d.name);
    }
    let method = ElemModel {
        name: "EncryptionMethod"@,
        attrs: map_insert(seq![], "Algorithm"@, aes_uri()),
        children: seq![],
    };
    let cv = ElemModel {
        name: "CipherValue"@,
        attrs: seq![],
        children: seq![NodeModel::Text(child_payload(e, key, iv))],
    };
    let cd = ElemModel {
        name: "CipherData"@,
        attrs: seq![],
        children: seq![NodeModel::Element(cv)],
    };
    assert(d.children[0] == NodeModel::Element(method));
    assert(d.children[1] == NodeModel::Element(cd));
    assert(!crate::xml::name_matches(d.name, "EncryptionMethod"@));
    assert(find_elem(method, "EncryptionMethod"@) == Some(method));
    assert(find_elem(d, "EncryptionMethod"@) == Some(method));
    crate::strmap::lemma_map_insert_get(seq![], "Algorithm"@, aes_uri(), "Algorithm"@);
    assert(!crate::xml::name_matches(d.name, "CipherValue"@)) by {
        assert(d.name.skip(d.name.len() - 12)[0] != (seq![':'] + "CipherValue"@)[0]);
    }
    assert(!crate::xml::name_matches(method.name, "CipherValue"@)) by {
        assert(method.name.skip(method.name.len() - 12)[0] != (seq![':'] + "CipherValue"@)[0]);
    }
    assert(!crate::xml::name_matches(cd.name, "CipherValue"@));
    assert(find_elem(cv, "CipherValue"@) == Some(cv));
    assert(crate::xml::find_in_nodes(cd.children, "CipherValue"@) == Some(cv)) by {
        assert(cd.children.drop_first() =~= Seq::<NodeModel>::empty());
    }
    assert(find_elem(cd, "CipherValue"@) == Some(cv));
    assert(find_elem(method, "CipherValue"@) is None) by {
        assert(crate::xml::find_in_nodes(method.children, "CipherValue"@) is None);
    }
    assert(crate::xml::find_in_nodes(d.children, "CipherValue"@) == Some(cv)) by {
        assert(d.children.drop_first()[0] == NodeModel::Element(cd));
        assert(crate::xml::find_in_node(d.children.drop_first()[0], "CipherValue"@) == Some(cv));
        assert(crate::xml::find_in_nodes(d.children.drop_first(), "CipherValue"@) == Some(cv));
        assert(crate::xml::find_in_node(d.children[0], "CipherValue"@) is None);
    }
    assert(find_elem(d, "CipherValue"@) == Some(cv));
    lemma_base64_roundtrip(payload_bytes);
    assert(payload_bytes.take(16) =~= iv);
    assert(payload_bytes.skip(16) =~= aes256_cbc_encrypt(child_plaintext(e), key.take(32), iv.take(16)));
    vstd::utf8::encode_utf8_valid_utf8(element_text(e, 0));
    vstd::utf8::encode_utf8_decode_utf8(element_text(e, 0));
}

pub proof fn lemma_decrypt_encrypt_nodes(ns: Seq<NodeModel>, key: Seq<u8>, iv: Seq<u8>)
    requires
        iv.len() == 16,
        forall|j: int| 0 <= j < ns.len() ==> child_inverts(#[trigger] ns[j], key, iv),
    ensures
        decrypt_nodes(encrypt_nodes(ns, key, iv), key) == reparse_nodes(ns),
    decreases ns.len(),
{
    if ns.len() > 0 {
        let t = ns.drop_first();
        assert forall|j: int| 0 <= j < t.len() implies child_inverts(#[trigger] t[j], key, iv) by {
            assert(t[j] == ns[j + 1]);
        }
        lemma_decrypt_encrypt_nodes(t, key, iv);
        let enc = encrypt_nodes(ns, key, iv);
        assert(child_inverts(ns[0], key, iv));
        match ns[0] {
            NodeModel::Element(e) => {
                lemma_decrypt_encrypted_child(e, key, iv);
                assert(enc[0] == NodeModel::Element(encrypted_data_model(child_payload(e, key, iv))));
                assert(enc.drop_first() =~= encrypt_nodes(t, key, iv));
                match parse_element(element_text(e, 0), 0) {
                    Ok((m, _)) => {
                        assert(opt_node(Some(m)) =~= seq![NodeModel::Element(m)]);
                    },
                    Err(_) => {},
                }
            },
            NodeModel::Text(_) => {
                assert(enc =~= encrypt_nodes(t, key, iv));
                assert(seq![] + encrypt_nodes(t, key, iv) =~= encrypt_nodes(t, key, iv));
                if let Ok(rest) = reparse_nodes(t) {
                    assert(Seq::<NodeModel>::empty() + rest =~= rest);
                }
            },
        }
    }
}

fn build_encrypted_data(payload: String) -> (e: XmlElement)
    ensures
        e@ == encrypted_data_model(payload@),
{
    let mut encrypted_data = XmlElement::new("EncryptedData");
    encrypted_data.attributes.insert(
        String::from_str("Type"),
        String::from_str("http://www.w3.org/2001/04/xmlenc#Element"),
    );
    encrypted_data.attributes.insert(
        String::from_str("xmlns"),
        String::from_str("http://www.w3.org/2001/04/xmlenc#"),
    );
    let mut enc_method = XmlElement::new("EncryptionMethod");
    enc_method.attributes.insert(
        String::from_str("Algorithm"),
        String::from_str("http://www.w3.org/2001/04/xmlenc#aes256-cbc"),
    );
    let mut cipher_data = XmlElement::new("CipherData");
    let mut cipher_value = XmlElement::new("CipherValue");
    let t = XmlNode::Text(payload);
    proof {
        lemma_nodes_model_push(cipher_value.children@, t);
    }
    cipher_value.children.push(t);
    let cv = XmlNode::Element(cipher_value);
    proof {
        lemma_nodes_model_push(cipher_data.children@, cv);
    }
    cipher_data.children.push(cv);
    let m = XmlNode::Element(enc_method);
    proof {
        lemma_nodes_model_push(encrypted_data.children@, m);
    }
    encrypted_data.children.push(m);
    let cd = XmlNode::Element(cipher_data);
    proof {
        lemma_nodes_model_push(encrypted_data.children@, cd);
    }
    encrypted_data.children.push(cd);
    let nl = XmlNode::Text(String::from_str("\n"));
    proof {
        lemma_nodes_model_push(encrypted_data.children@, nl);
    }
    encrypted_data.children.push(nl);
    assert(encrypted_data@.children =~= encrypted_data_model(payload@).children);
    encrypted_data
}

proof fn lemma_encrypt_nodes_skip(ns: Seq<NodeModel>, key: Seq<u8>, iv: Seq<u8>, i: int)
    requires
        0 <= i < ns.len(),
    ensures
        encrypt_nodes(ns.skip(i), key, iv) == (match ns[i] {
            NodeModel::Element(e) => seq![NodeModel::Element(encrypted_data_model(child_payload(e, key, iv)))],
            NodeModel::Text(_) => seq![],
        }) + encrypt_nodes(ns.skip(i + 1), key, iv),
{
    assert(ns.skip(i).drop_first() =~= ns.skip(i + 1));
    assert(ns.skip(i)[0] == ns[i]);
}

/// Replaces each child element of the root by an `<EncryptedData>` element
/// holding Base64 of the IV followed by the AES-256-CBC ciphertext of the
/// child's serialization, drops text children, keeps `MinLoaderVersion` (or
/// sets its default) and marks the root `Cryptography="Encrypted"`.
/// Decrypting the new children with the same key gives back the child
/// elements as parsing their serialization yields them.
pub fn encrypt_xml(root: &mut XmlElement, key: &[u8], iv: &[u8]) -> (r: Result<(), String>)
    requires
        key@.len() >= 32,
        iv@.len() >= 16,
        elem_depth(old(root)@) <= usize::MAX,
    ensures
        r is Ok,
        final(root)@ == (ElemModel {
            name: old(root)@.name,
            attrs: transformed_attrs(old(root)@, "Encrypted"@),
            children: encrypt_nodes(old(root)@.children, key@, iv@),
        }),
        iv@.len() == 16 ==> decrypt_nodes(final(root)@.children, key@) == reparse_nodes(old(root)@.children),
        iv@.len() == 16 && element_children_ok(old(root)@.children) ==> decrypt_nodes(final(root)@.children, key@) == Ok::<
            Seq<NodeModel>,
            Seq<char>,
        >(element_nodes(old(root)@.children)),
{
    let ghost ms = nodes_model(root.children@);
    proof {
        lemma_nodes_model_index(root.children@);
    }
    let min_loader = match root.get_attribute("MinLoaderVersion") {
        Some(v) => v.clone(),
        None => String::from_str("5.7.7.0"),
    };
    let mut encrypted: Vec<XmlNode> = Vec::new();
    let mut i: usize = 0;
    assert(ms.skip(0) =~= ms);
    assert(nodes_model(encrypted@) =~= Seq::<NodeModel>::empty());
    while i < root.children.len()
        invariant
            i <= root.children@.len(),
            key@.len() >= 32,
            iv@.len() >= 16,
            ms == nodes_model(root.children@),
            ms.len() == root.children@.len(),
            forall|j: int| 0 <= j < root.children@.len() ==> #[trigger] ms[j] == node_model(root.children@[j]),
            nodes_depth(ms) <= usize::MAX,
            encrypt_nodes(ms, key@, iv@) == nodes_model(encrypted@) + encrypt_nodes(ms.skip(i as int), key@, iv@),
            forall|j: int| 0 <= j < i ==> child_inverts(#[trigger] ms[j], key@, iv@),
        decreases root.children.len() - i,
    {
        proof {
            lemma_encrypt_nodes_skip(ms, key@, iv@, i as int);
        }
        let ghost before = encrypted@;
        match &root.children[i] {
            XmlNode::Element(elem) => {
                proof {
                    crate::xml_write::lemma_nodes_depth(ms, i as int);
                }
                let serialized = serialize_xml(elem, 0);
                let ciphertext = match encrypt_aes_256_cbc(serialized.as_str().as_bytes(), key, iv) {
                    Ok(c) => c,
                    Err(e) => {
                        return Err(e);
                    },
                };
                let mut payload: Vec<u8> = Vec::new();
                let mut k: usize = 0;
                while k < iv.len()
                    invariant
                        k <= iv@.len(),
                        payload@ == iv@.take(k as int),
                    decreases iv.len() - k,
                {
                    payload.push(iv[k]);
                    assert(payload@ =~= iv@.take(k + 1));
                    k = k + 1;
                }
                let mut k: usize = 0;
                while k < ciphertext.len()
                    invariant
                        k <= ciphertext@.len(),
                        payload@ == iv@ + ciphertext@.take(k as int),
                    decreases ciphertext.len() - k,
                {
                    payload.push(ciphertext[k]);
                    assert(payload@ =~= iv@ + ciphertext@.take(k + 1));
                    k = k + 1;
                }
                assert(payload@ =~= iv@ + ciphertext@);
                let b64 = base64_encode(payload.as_slice());
                let n = XmlNode::Element(build_encrypted_data(b64));
                proof {
                    lemma_nodes_model_push(encrypted@, n);
                }
                encrypted.push(n);
            },
            XmlNode::Text(_) => {},
        }
        proof {
            assert(nodes_model(encrypted@) + encrypt_nodes(ms.skip(i + 1), key@, iv@) =~= nodes_model(before)
                + encrypt_nodes(ms.skip(i as int), key@, iv@));
        }
        i = i + 1;
    }
    assert(ms.skip(i as int) =~= Seq::<NodeModel>::empty());
    assert(nodes_model(encrypted@) =~= encrypt_nodes(ms, key@, iv@));
    proof {
        if iv@.len() == 16 {
            lemma_decrypt_encrypt_nodes(ms, key@, iv@);
            if element_children_ok(ms) {
                lemma_reparse_nodes(ms);
            }
        }
    }
    root.children = encrypted;
    root.attributes.insert(String::from_str("MinLoaderVersion"), min_loader);
    root.attributes.insert(String::from_str("Cryptography"), String::from_str("Encrypted"));
    Ok(())
}

} // verus!
