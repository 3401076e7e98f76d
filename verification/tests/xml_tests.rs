use throttlegear::crypto::{base64_encode, encrypt_aes_256_cbc, get_key_and_iv};
use throttlegear::xml::{XmlElement, XmlNode};
use throttlegear::xml_crypt::{decrypt_xml, encrypt_xml};
use throttlegear::xml_parse::parse_xml_str;
use throttlegear::xml_write::serialize_xml;

#[test]
fn test_xml_parse_serialize() {
    let original_xml = "<Test attr1=\"val1\" attr2=\"val2\"><Child>Hello</Child></Test>";
    let parsed = parse_xml_str(original_xml).unwrap();
    assert_eq!(parsed.name, "Test");
    assert_eq!(parsed.attributes.get("attr1").unwrap(), "val1");

    let child = parsed.find_child_recursive("Child").unwrap();
    assert_eq!(child.name, "Child");

    let serialized = serialize_xml(&parsed, 0);
    assert!(serialized.contains("Hello"));
    assert!(serialized.contains("attr1=\"val1\""));
}

#[test]
fn serialize_exact_layout() {
    let parsed = parse_xml_str("<A z=\"1\" b='2'><B><C/></B><D>t</D></A>").unwrap();
    assert_eq!(
        serialize_xml(&parsed, 0),
        "<A b=\"2\" z=\"1\">\n  <B>\n    <C />\n  </B>\n  <D>t</D>\n</A>"
    );
    assert_eq!(serialize_xml(&parsed, 1).lines().next().unwrap(), "  <A b=\"2\" z=\"1\">");
}

#[test]
fn parse_skips_prolog_and_comments() {
    let parsed = parse_xml_str("<?xml version=\"1.0\"?>\n<!-- note -->\n<Root k=\"v\">  </Root>").unwrap();
    assert_eq!(parsed.name, "Root");
    assert_eq!(parsed.get_attribute("k").unwrap(), "v");
    assert!(parsed.children.is_empty());
}

#[test]
fn parse_keeps_text_and_drops_blank_text() {
    let parsed = parse_xml_str("<R>\n  <X/>\n  abc <Y/></R>").unwrap();
    assert_eq!(parsed.children.len(), 3);
    match &parsed.children[1] {
        XmlNode::Text(t) => assert_eq!(t, "\n  abc "),
        XmlNode::Element(_) => panic!("expected text"),
    }
}

#[test]
fn parse_errors() {
    assert_eq!(parse_xml_str("abc").unwrap_err(), "Expected '<'");
    assert_eq!(parse_xml_str("<A ").unwrap_err(), "Unexpected EOF in attributes");
    assert_eq!(parse_xml_str("<A b").unwrap_err(), "Expected '=' after attribute 'b'");
    assert_eq!(parse_xml_str("<A b c>").unwrap_err(), "Expected '=' after attribute 'b'");
    assert_eq!(parse_xml_str("<A b=c>").unwrap_err(), "Expected quotes for attribute value");
    assert_eq!(parse_xml_str("<A b=\"c>").unwrap_err(), "Unexpected EOF inside attribute value");
    assert_eq!(parse_xml_str("<A>text").unwrap_err(), "Unclosed tag 'A'");
    assert_eq!(parse_xml_str("<A></A").unwrap_err(), "Expected '>' after closing tag name");
    assert_eq!(parse_xml_str("<A></B>").unwrap_err(), "Mismatched tag: opened 'A', closed 'B'");
}

#[test]
fn find_child_recursive_is_depth_first() {
    let parsed = parse_xml_str("<R><A><T n=\"1\"/></A><T n=\"2\"/></R>").unwrap();
    let t = parsed.find_child_recursive("T").unwrap();
    assert_eq!(t.get_attribute("n").unwrap(), "1");
    assert!(parsed.find_child_recursive("Z").is_none());
    // The element itself is the first candidate, also under a namespace prefix.
    assert_eq!(parsed.find_child_recursive("R").unwrap().name, "R");
    let ns = parse_xml_str("<x:Q><y:T/></x:Q>").unwrap();
    assert_eq!(ns.find_child_recursive("T").unwrap().name, "y:T");
}

#[test]
fn new_element_is_empty() {
    let e = XmlElement::new("Empty");
    assert_eq!(e.name, "Empty");
    assert_eq!(e.attributes.len(), 0);
    assert!(e.children.is_empty());
    assert_eq!(serialize_xml(&e, 0), "<Empty />");
}

fn sample_root() -> XmlElement {
    parse_xml_str(
        "<ThrottlePluginConfig ModelName=\"G614PR\" Version=\"1.0.5\" Type=\"NB\" Cryptography=\"Decrypted\">\
         <Ryzen><ThrottlePluginCPUSettings><OverclockItems/></ThrottlePluginCPUSettings></Ryzen>\
         <Eng a=\"b\">x</Eng></ThrottlePluginConfig>",
    )
    .unwrap()
}

#[test]
fn encrypt_then_decrypt_restores_children() {
    let mut root = sample_root();
    let before: Vec<String> = root
        .children
        .iter()
        .map(|c| match c {
            XmlNode::Element(e) => serialize_xml(e, 0),
            XmlNode::Text(t) => t.clone(),
        })
        .collect();
    let (key, iv) = get_key_and_iv("G614PR", "1.0.5", "NB");
    encrypt_xml(&mut root, &key, &iv).unwrap();
    assert_eq!(root.get_attribute("Cryptography").unwrap(), "Encrypted");
    assert_eq!(root.get_attribute("MinLoaderVersion").unwrap(), "5.7.7.0");
    assert_eq!(root.children.len(), 2);
    for c in &root.children {
        match c {
            XmlNode::Element(e) => {
                assert_eq!(e.name, "EncryptedData");
                assert!(e.find_child_recursive("CipherValue").is_some());
            }
            XmlNode::Text(_) => panic!("expected an element"),
        }
    }

    decrypt_xml(&mut root, &key).unwrap();
    assert_eq!(root.get_attribute("Cryptography").unwrap(), "Decrypted");
    let after: Vec<String> = root
        .children
        .iter()
        .map(|c| match c {
            XmlNode::Element(e) => serialize_xml(e, 0),
            XmlNode::Text(t) => t.clone(),
        })
        .collect();
    assert_eq!(before, after);
}

#[test]
fn encrypted_payload_is_iv_then_ciphertext() {
    let mut root = parse_xml_str("<R><P/></R>").unwrap();
    let key = vec![3u8; 32];
    let iv = vec![4u8; 16];
    encrypt_xml(&mut root, &key, &iv).unwrap();
    let mut payload = iv.clone();
    payload.extend(encrypt_aes_256_cbc(b"<P />", &key, &iv).unwrap());
    let expected = base64_encode(&payload);
    let cv = root.find_child_recursive("CipherValue").unwrap();
    match &cv.children[0] {
        XmlNode::Text(t) => assert_eq!(t, &expected),
        XmlNode::Element(_) => panic!("expected text"),
    }
    let method = root.find_child_recursive("EncryptionMethod").unwrap();
    assert_eq!(
        method.get_attribute("Algorithm").unwrap(),
        "http://www.w3.org/2001/04/xmlenc#aes256-cbc"
    );
}

#[test]
fn decrypt_errors() {
    let key = vec![1u8; 32];
    let mut root = parse_xml_str("<R MinLoaderVersion=\"1\"><P/></R>").unwrap();
    assert_eq!(decrypt_xml(&mut root, &key).unwrap_err(), "No encrypted elements found");

    let mut root = parse_xml_str("<R><EncryptedData/></R>").unwrap();
    assert_eq!(decrypt_xml(&mut root, &key).unwrap_err(), "EncryptionMethod not found in EncryptedData");

    let mut root = parse_xml_str("<R><EncryptedData><EncryptionMethod/></EncryptedData></R>").unwrap();
    assert_eq!(decrypt_xml(&mut root, &key).unwrap_err(), "Algorithm attribute missing");

    let mut root =
        parse_xml_str("<R><EncryptedData><EncryptionMethod Algorithm=\"x\"/></EncryptedData></R>").unwrap();
    assert_eq!(decrypt_xml(&mut root, &key).unwrap_err(), "Unsupported algorithm: x");

    let alg = "http://www.w3.org/2001/04/xmlenc#aes256-cbc";
    let mut root = parse_xml_str(&format!(
        "<R><EncryptedData><EncryptionMethod Algorithm=\"{}\"/></EncryptedData></R>",
        alg
    ))
    .unwrap();
    assert_eq!(decrypt_xml(&mut root, &key).unwrap_err(), "CipherValue not found in EncryptedData");

    let mut root = parse_xml_str(&format!(
        "<R><EncryptedData><EncryptionMethod Algorithm=\"{}\"/><CipherValue/></EncryptedData></R>",
        alg
    ))
    .unwrap();
    assert_eq!(decrypt_xml(&mut root, &key).unwrap_err(), "CipherValue is empty");

    let mut root = parse_xml_str(&format!(
        "<R><EncryptedData><EncryptionMethod Algorithm=\"{}\"/><CipherValue>AAAA</CipherValue></EncryptedData></R>",
        alg
    ))
    .unwrap();
    assert_eq!(decrypt_xml(&mut root, &key).unwrap_err(), "Ciphertext too short");
    // A failed decryption leaves the root as it was.
    assert_eq!(root.children.len(), 1);
    assert!(root.get_attribute("Cryptography").is_none());
}

#[test]
fn parsing_written_text_gives_the_element_back() {
    let original = parse_xml_str(
        "<Root b=\"2\" a=\"1\"><Child x=\"y\">some text</Child><Empty/><Deep><Deeper k=''/></Deep></Root>",
    )
    .unwrap();
    let text = serialize_xml(&original, 0);
    let reparsed = parse_xml_str(&text).unwrap();
    assert_eq!(serialize_xml(&reparsed, 0), text);
    assert_eq!(reparsed.name, "Root");
    assert_eq!(reparsed.children.len(), 3);
    assert_eq!(reparsed.attributes.key_at(0), "a");
    let child = reparsed.find_child_recursive("Child").unwrap();
    match &child.children[0] {
        XmlNode::Text(t) => assert_eq!(t, "some text"),
        XmlNode::Element(_) => panic!("expected text"),
    }
}

#[test]
fn decrypt_reports_non_utf8_plaintext() {
    let key = vec![5u8; 32];
    let iv = vec![6u8; 16];
    let mut payload = iv.clone();
    payload.extend(encrypt_aes_256_cbc(&[0xff, 0x41], &key, &iv).unwrap());
    let xml = format!(
        "<R><EncryptedData><EncryptionMethod Algorithm=\"http://www.w3.org/2001/04/xmlenc#aes256-cbc\"/>\
         <CipherData><CipherValue>{}</CipherValue></CipherData></EncryptedData></R>",
        base64_encode(&payload)
    );
    let mut root = parse_xml_str(&xml).unwrap();
    assert_eq!(
        decrypt_xml(&mut root, &key).unwrap_err(),
        "Decrypted string is not UTF-8: invalid utf-8 sequence of 1 bytes from index 0"
    );
}

#[test]
fn written_text_reads_back_at_any_indentation() {
    let original = parse_xml_str("<A k=\"v\"><B><C>t</C></B><D/></A>").unwrap();
    for level in [0usize, 1, 3] {
        let text = serialize_xml(&original, level);
        let back = parse_xml_str(&text).unwrap();
        assert_eq!(serialize_xml(&back, 0), serialize_xml(&original, 0));
    }
}
