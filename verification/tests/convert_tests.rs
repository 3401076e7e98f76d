use throttlegear::convert::{convert_document, prepare_for_limits, read_root_attributes};
use throttlegear::xml_parse::parse_xml_str;
use throttlegear::xml_write::serialize_xml;

const PLAIN: &str = "<ThrottlePluginConfig ModelName=\"G614PR\" Version=\"1.0.5\" Type=\"NB\" Cryptography=\"Decrypted\">\
<Ryzen><ThrottlePluginCPUSettings><OverclockItems/></ThrottlePluginCPUSettings></Ryzen></ThrottlePluginConfig>";

#[test]
fn a_decrypted_document_is_encrypted_and_back() {
    let mut root = parse_xml_str(PLAIN).unwrap();
    let before = serialize_xml(&root, 0);
    let (notice, outcome) = convert_document(&mut root);
    assert_eq!(notice, Some("Encrypting XML file...".to_string()));
    assert_eq!(outcome, Ok(()));
    assert_eq!(root.get_attribute("Cryptography").unwrap(), "Encrypted");
    assert_eq!(root.get_attribute("ModelName").unwrap(), "G614PR");
    assert_eq!(root.get_attribute("Version").unwrap(), "1.0.5");
    assert_eq!(root.get_attribute("Type").unwrap(), "NB");
    assert!(root.find_child_recursive("EncryptedData").is_some());
    assert!(root.find_child_recursive("Ryzen").is_none());

    let (notice, outcome) = convert_document(&mut root);
    assert_eq!(notice, Some("Decrypting XML file...".to_string()));
    assert_eq!(outcome, Ok(()));
    // Back to the original, with MinLoaderVersion added.
    let mut expected = parse_xml_str(&before).unwrap();
    expected.attributes.insert("MinLoaderVersion".to_string(), "5.7.7.0".to_string());
    assert_eq!(serialize_xml(&root, 0), serialize_xml(&expected, 0));
}

#[test]
fn preparing_for_limits_decrypts_only_encrypted_documents() {
    let mut root = parse_xml_str(PLAIN).unwrap();
    let before = serialize_xml(&root, 0);
    assert_eq!(prepare_for_limits(&mut root), Ok(()));
    assert_eq!(serialize_xml(&root, 0), before);

    let (_, outcome) = convert_document(&mut root);
    assert_eq!(outcome, Ok(()));
    assert_eq!(prepare_for_limits(&mut root), Ok(()));
    assert_eq!(root.get_attribute("Cryptography").unwrap(), "Decrypted");
    assert!(root.find_child_recursive("Ryzen").is_some());
}

#[test]
fn conversion_errors() {
    let mut root = parse_xml_str("<R ModelName=\"M\" Version=\"1\" Type=\"NB\"/>").unwrap();
    assert_eq!(
        read_root_attributes(&root).unwrap_err(),
        "XML is missing required root attributes (ModelName, Version, Type, Cryptography)."
    );
    let (notice, outcome) = convert_document(&mut root);
    assert_eq!(notice, None);
    assert_eq!(
        outcome,
        Err("Error: XML is missing required root attributes (ModelName, Version, Type, Cryptography).".to_string())
    );

    let mut root =
        parse_xml_str("<R ModelName=\"M\" Version=\"1\" Type=\"NB\" Cryptography=\"Plain\"><A/></R>").unwrap();
    let before = serialize_xml(&root, 0);
    let (notice, outcome) = convert_document(&mut root);
    assert_eq!(notice, None);
    assert_eq!(outcome, Err("Error: Unknown Cryptography status: Plain".to_string()));
    assert_eq!(serialize_xml(&root, 0), before);

    let mut root =
        parse_xml_str("<R ModelName=\"M\" Version=\"1\" Type=\"NB\" Cryptography=\"Encrypted\"><A/></R>").unwrap();
    let (notice, outcome) = convert_document(&mut root);
    assert_eq!(notice, Some("Decrypting XML file...".to_string()));
    assert_eq!(outcome, Err("Error decrypting XML: No encrypted elements found".to_string()));
    assert_eq!(
        prepare_for_limits(&mut root),
        Err("Error: Failed to decrypt XML: No encrypted elements found".to_string())
    );
}
