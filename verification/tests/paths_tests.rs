use throttlegear::paths::{derive_output_filename, output_file_name};

#[test]
fn test_derive_output_filename() {
    assert_eq!(
        derive_output_filename("ThrottleGear_G614PR.xml", "Encrypted"),
        "ThrottleGear_G614PR_decrypted.xml"
    );
    assert_eq!(
        derive_output_filename("ThrottleGear_G614PR.xml", "Decrypted"),
        "ThrottleGear_G614PR_encrypted.xml"
    );
    assert_eq!(
        derive_output_filename("dir/subdir/ThrottleGear_G614PR.xml", "Encrypted"),
        "dir/subdir/ThrottleGear_G614PR_decrypted.xml"
    );
    assert_eq!(
        derive_output_filename("ThrottleGear_G614PR_decrypted.xml", "Decrypted"),
        "ThrottleGear_G614PR_encrypted.xml"
    );
    assert_eq!(
        derive_output_filename("ThrottleGear_G614PR_encrypted.xml", "Encrypted"),
        "ThrottleGear_G614PR_decrypted.xml"
    );
}

#[test]
fn output_name_defaults() {
    assert_eq!(output_file_name(None, None, "Encrypted"), "output_decrypted.xml");
    assert_eq!(output_file_name(Some("cfg"), Some("XML"), "Other"), "cfg_encrypted.XML");
    assert_eq!(derive_output_filename("noext", "Encrypted"), "noext_decrypted.xml");
    assert_eq!(derive_output_filename("/abs/x_encrypted.cfg", "Decrypted"), "/abs/x_encrypted.cfg");
}

#[test]
fn naming_an_output_again_replaces_its_suffix() {
    for p in ["a/b/Cfg.xml", "Cfg_decrypted.cfg", "x/y_encrypted"] {
        for c1 in ["Encrypted", "Decrypted"] {
            for c2 in ["Encrypted", "Decrypted"] {
                let once = derive_output_filename(p, c1);
                assert_eq!(derive_output_filename(&once, c2), derive_output_filename(p, c2));
            }
        }
    }
}
