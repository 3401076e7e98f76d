//! Converting a ThrottleGear document: a decrypted file is encrypted and an
//! encrypted one decrypted, with the key and IV taken from its root
//! attributes.

use vstd::prelude::*;
use crate::crypto::{derived_iv, derived_key, get_key_and_iv};
use crate::strmap::{lemma_map_insert_get, map_get, map_insert};
use crate::text::{chars_eq_str, concat2, str_chars};
use crate::xml::{ElemModel, XmlElement};
use crate::xml_crypt::{
    child_inverts, decrypt_nodes, decrypt_xml, encrypt_nodes, encrypt_xml, min_loader_version,
    transformed_attrs,
};
use crate::xml_roundtrip::{
    element_children_ok, element_nodes, lemma_decrypt_encrypted_children, lemma_element_nodes_nonempty,
};
use crate::xml_write::elem_depth;
use vstd::utf8::encode_utf8;

verus! {

broadcast use vstd::string::group_string_axioms;

/// `ModelName`, `Version`, `Type` and `Cryptography` of the root, when it
/// has all four.
pub open spec fn root_attrs(r: ElemModel) -> Option<(Seq<char>, Seq<char>, Seq<char>, Seq<char>)> {
    match (
        map_get(r.attrs, "ModelName"@),
        map_get(r.attrs, "Version"@),
        map_get(r.attrs, "Type"@),
        map_get(r.attrs, "Cryptography"@),
    ) {
        (Some(m), Some(v), Some(t), Some(c)) => Some((m, v, t, c)),
        _ => None,
    }
}

pub open spec fn missing_attrs_message() -> Seq<char> {
    "XML is missing required root attributes (ModelName, Version, Type, Cryptography)."@
}

/// The attributes with `ModelName`, `Version` and `Type` set again.
pub open spec fn restored_attrs(
    a: Seq<(Seq<char>, Seq<char>)>,
    m: Seq<char>,
    v: Seq<char>,
    t: Seq<char>,
) -> Seq<(Seq<char>, Seq<char>)> {
    map_insert(map_insert(map_insert(a, "ModelName"@, m), "Version"@, v), "Type"@, t)
}

/// The key of a document with this model name and type.
pub open spec fn doc_key(m: Seq<char>, t: Seq<char>) -> Seq<u8> {
    derived_key(encode_utf8(m), t == "DT"@)
}

/// What is announced before a conversion: decrypting an encrypted document,
/// encrypting a decrypted one.
pub open spec fn conversion_notice(r: ElemModel) -> Option<Seq<char>> {
    match root_attrs(r) {
        Some((_, _, _, c)) => if c == "Encrypted"@ {
            Some("Decrypting XML file..."@)
        } else if c == "Decrypted"@ {
            Some("Encrypting XML file..."@)
        } else {
            None
        },
        None => None,
    }
}

/// The converted document: an encrypted one decrypted, a decrypted one
/// encrypted, with `ModelName`, `Version` and `Type` kept; or the message for
/// missing root attributes, an unknown `Cryptography` status or a failed
/// decryption.
pub open spec fn converted(r: ElemModel) -> Result<ElemModel, Seq<char>> {
    match root_attrs(r) {
        None => Err("Error: "@ + missing_attrs_message()),
        Some((m, v, t, c)) => {
            let key = doc_key(m, t);
            if c == "Encrypted"@ {
                match decrypt_nodes(r.children, key) {
                    Err(e) => Err("Error decrypting XML: "@ + e),
                    Ok(ch) => if ch.len() == 0 {
                        Err("Error decrypting XML: "@ + "No encrypted elements found"@)
                    } else {
                        Ok(
                            ElemModel {
                                name: r.name,
                                attrs: restored_attrs(transformed_attrs(r, "Decrypted"@), m, v, t),
                                children: ch,
                            },
                        )
                    },
                }
            } else if c == "Decrypted"@ {
                Ok(
                    ElemModel {
                        name: r.name,
                        attrs: restored_attrs(transformed_attrs(r, "Encrypted"@), m, v, t),
                        children: encrypt_nodes(r.children, key, derived_iv(v)),
                    },
                )
            } else {
                Err("Error: Unknown Cryptography status: "@ + c)
            }
        },
    }
}

/// The document made ready for reading its limits: an encrypted one is
/// decrypted (with `ModelName`, `Version` and `Type` kept), any other left
/// as it is; or the message for missing root attributes or a failed
/// decryption.
pub open spec fn readable(r: ElemModel) -> Result<ElemModel, Seq<char>> {
    match root_attrs(r) {
        None => Err("Error: "@ + missing_attrs_message()),
        Some((m, v, t, c)) => if c == "Encrypted"@ {
            match decrypt_nodes(r.children, doc_key(m, t)) {
                Err(e) => Err("Error: Failed to decrypt XML: "@ + e),
                Ok(ch) => if ch.len() == 0 {
                    Err("Error: Failed to decrypt XML: "@ + "No encrypted elements found"@)
                } else {
                    Ok(
                        ElemModel {
                            name: r.name,
                            attrs: restored_attrs(transformed_attrs(r, "Decrypted"@), m, v, t),
                            children: ch,
                        },
                    )
                },
            }
        } else {
            Ok(r)
        },
    }
}

/// The four root attributes `ModelName`, `Version`, `Type` and
/// `Cryptography`, or the error when one of them is missing.
pub fn read_root_attributes(root: &XmlElement) -> (r: Result<(String, String, String, String), String>)
    ensures
        match root_attrs(root@) {
            Some((m, v, t, c)) => r matches Ok((a, b, d, e)) && a@ == m && b@ == v && d@ == t && e@ == c,
            None => r matches Err(x) && x@ == missing_attrs_message(),
        },
{
    let m = root.get_attribute("ModelName");
    let v = root.get_attribute("Version");
    let t = root.get_attribute("Type");
    let c = root.get_attribute("Cryptography");
    match (m, v, t, c) {
        (Some(m), Some(v), Some(t), Some(c)) => Ok((m.clone(), v.clone(), t.clone(), c.clone())),
        _ => Err(
            String::from_str(
                "XML is missing required root attributes (ModelName, Version, Type, Cryptography).",
            ),
        ),
    }
}

fn restore_attributes(root: &mut XmlElement, m: String, v: String, t: String)
    ensures
        final(root)@ == (ElemModel {
            name: old(root)@.name,
            attrs: restored_attrs(old(root)@.attrs, m@, v@, t@),
            children: old(root)@.children,
        }),
{
    root.attributes.insert(String::from_str("ModelName"), m);
    root.attributes.insert(String::from_str("Version"), v);
    root.attributes.insert(String::from_str("Type"), t);
}

/// Converts a document in place: decrypts it when its `Cryptography` is
/// `Encrypted`, encrypts it when it is `Decrypted`, and keeps `ModelName`,
/// `Version` and `Type`. Returns the notice to show before the conversion
/// and the outcome; on an error the document is left as it was.
pub fn convert_document(root: &mut XmlElement) -> (r: (Option<String>, Result<(), String>))
    requires
        elem_depth(old(root)@) <= usize::MAX,
    ensures
        match conversion_notice(old(root)@) {
            Some(n) => r.0 matches Some(x) && x@ == n,
            None => r.0 is None,
        },
        match converted(old(root)@) {
            Ok(m) => r.1 is Ok && final(root)@ == m,
            Err(e) => r.1 matches Err(x) && x@ == e && final(root)@ == old(root)@,
        },
{
    let (m, v, t, c) = match read_root_attributes(root) {
        Ok(x) => x,
        Err(e) => {
            return (None, Err(concat2("Error: ", str_chars(e.as_str()).as_slice())));
        },
    };
    let (key, iv) = get_key_and_iv(m.as_str(), v.as_str(), t.as_str());
    let cc = str_chars(c.as_str());
    if chars_eq_str(cc.as_slice(), "Encrypted") {
        let notice = Some(String::from_str("Decrypting XML file..."));
        match decrypt_xml(root, key.as_slice()) {
            Err(e) => (notice, Err(concat2("Error decrypting XML: ", str_chars(e.as_str()).as_slice()))),
            Ok(()) => {
                restore_attributes(root, m, v, t);
                (notice, Ok(()))
            },
        }
    } else if chars_eq_str(cc.as_slice(), "Decrypted") {
        let notice = Some(String::from_str("Encrypting XML file..."));
        let _ = encrypt_xml(root, key.as_slice(), iv.as_slice());
        restore_attributes(root, m, v, t);
        (notice, Ok(()))
    } else {
        (None, Err(concat2("Error: Unknown Cryptography status: ", cc.as_slice())))
    }
}

/// Makes a document ready for reading its limits: decrypts it in place when
/// its `Cryptography` is `Encrypted` (keeping `ModelName`, `Version` and
/// `Type`), and leaves any other document as it is. On an error the document
/// is left as it was.
pub fn prepare_for_limits(root: &mut XmlElement) -> (r: Result<(), String>)
    ensures
        match readable(old(root)@) {
            Ok(m) => r is Ok && final(root)@ == m,
            Err(e) => r matches Err(x) && x@ == e && final(root)@ == old(root)@,
        },
{
    let (m, v, t, c) = match read_root_attributes(root) {
        Ok(x) => x,
        Err(e) => {
            return Err(concat2("Error: ", str_chars(e.as_str()).as_slice()));
        },
    };
    let cc = str_chars(c.as_str());
    if chars_eq_str(cc.as_slice(), "Encrypted") {
        let (key, _) = get_key_and_iv(m.as_str(), v.as_str(), t.as_str());
        match decrypt_xml(root, key.as_slice()) {
            Err(e) => Err(concat2("Error: Failed to decrypt XML: ", str_chars(e.as_str()).as_slice())),
            Ok(()) => {
                restore_attributes(root, m, v, t);
                Ok(())
            },
        }
    } else {
        Ok(())
    }
}

proof fn lemma_restored_get(
    a: Seq<(Seq<char>, Seq<char>)>,
    m: Seq<char>,
    v: Seq<char>,
    t: Seq<char>,
    q: Seq<char>,
)
    ensures
        map_get(restored_attrs(a, m, v, t), q) == if q == "Type"@ {
            Some(t)
        } else if q == "Version"@ {
            Some(v)
        } else if q == "ModelName"@ {
            Some(m)
        } else {
            map_get(a, q)
        },
{
    let a1 = map_insert(a, "ModelName"@, m);
    let a2 = map_insert(a1, "Version"@, v);
    lemma_map_insert_get(a, "ModelName"@, m, q);
    lemma_map_insert_get(a1, "Version"@, v, q);
    lemma_map_insert_get(a2, "Type"@, t, q);
}

proof fn lemma_transformed_get(r: ElemModel, status: Seq<char>, q: Seq<char>)
    ensures
        map_get(transformed_attrs(r, status), q) == if q == "Cryptography"@ {
            Some(status)
        } else if q == "MinLoaderVersion"@ {
            Some(min_loader_version(r))
        } else {
            map_get(r.attrs, q)
        },
{
    let a1 = map_insert(r.attrs, "MinLoaderVersion"@, min_loader_version(r));
    lemma_map_insert_get(r.attrs, "MinLoaderVersion"@, min_loader_version(r), q);
    lemma_map_insert_get(a1, "Cryptography"@, status, q);
}

/// Converting a decrypted document and converting the result again gives the
/// document back: the same name, its element children in order, and the same
/// attributes, with `MinLoaderVersion` kept (or set to its default). This
/// holds where the writer can represent the children and the cipher gives
/// each plaintext back.
pub proof fn lemma_convert_twice(r: ElemModel)
    requires
        root_attrs(r) matches Some((m, v, t, c)) && c == "Decrypted"@ && element_children_ok(r.children)
            && (exists|j: int| 0 <= j < r.children.len() && #[trigger] r.children[j] is Element)
            && forall|j: int|
            0 <= j < r.children.len() ==> child_inverts(#[trigger] r.children[j], doc_key(m, t), derived_iv(v)),
    ensures
        converted(r) matches Ok(r1) && converted(r1) matches Ok(r2) && r2.name == r.name && r2.children
            == element_nodes(r.children) && forall|q: Seq<char>|
            #[trigger] map_get(r2.attrs, q) == if q == "MinLoaderVersion"@ {
                Some(min_loader_version(r))
            } else {
                map_get(r.attrs, q)
            },
{
    reveal_strlit("ModelName");
    reveal_strlit("Version");
    reveal_strlit("Type");
    reveal_strlit("Cryptography");
    reveal_strlit("MinLoaderVersion");
    reveal_strlit("Encrypted");
    reveal_strlit("Decrypted");
    let (m, v, t, c) = root_attrs(r)->0;
    let key = doc_key(m, t);
    let iv = derived_iv(v);
    assert(iv.len() == 16);
    assert("Encrypted"@ != "Decrypted"@) by {
        assert("Encrypted"@[0] != "Decrypted"@[0]);
    }
    let r1 = ElemModel {
        name: r.name,
        attrs: restored_attrs(transformed_attrs(r, "Encrypted"@), m, v, t),
        children: encrypt_nodes(r.children, key, iv),
    };
    assert(converted(r) == Ok::<ElemModel, Seq<char>>(r1));
    // The attributes of the encrypted document.
    assert forall|q: Seq<char>|
        #[trigger] map_get(r1.attrs, q) == if q == "Cryptography"@ {
            Some("Encrypted"@)
        } else if q == "MinLoaderVersion"@ {
            Some(min_loader_version(r))
        } else {
            map_get(r.attrs, q)
        } by {
        lemma_restored_get(transformed_attrs(r, "Encrypted"@), m, v, t, q);
        lemma_transformed_get(r, "Encrypted"@, q);
    }
    assert(map_get(r1.attrs, "ModelName"@) == Some(m));
    assert(map_get(r1.attrs, "Version"@) == Some(v));
    assert(map_get(r1.attrs, "Type"@) == Some(t));
    assert(map_get(r1.attrs, "Cryptography"@) == Some("Encrypted"@));
    assert(root_attrs(r1) == Some((m, v, t, "Encrypted"@)));
    lemma_decrypt_encrypted_children(r.children, key, iv);
    let j = choose|j: int| 0 <= j < r.children.len() && #[trigger] r.children[j] is Element;
    lemma_element_nodes_nonempty(r.children, j);
    let r2 = ElemModel {
        name: r.name,
        attrs: restored_attrs(transformed_attrs(r1, "Decrypted"@), m, v, t),
        children: element_nodes(r.children),
    };
    assert(converted(r1) == Ok::<ElemModel, Seq<char>>(r2));
    assert(min_loader_version(r1) == min_loader_version(r));
    assert forall|q: Seq<char>|
        #[trigger] map_get(r2.attrs, q) == if q == "MinLoaderVersion"@ {
            Some(min_loader_version(r))
        } else {
            map_get(r.attrs, q)
        } by {
        lemma_restored_get(transformed_attrs(r1, "Decrypted"@), m, v, t, q);
        lemma_transformed_get(r1, "Decrypted"@, q);
    }
}

} // verus!
