use hxgrep::forensic_image::{get_format_name, is_e01_file, is_forensic_image, is_vmdk_file};

#[test]
fn test_is_e01_file() {
    assert!(is_e01_file("test.e01"));
    assert!(is_e01_file("TEST.E01"));
    assert!(is_e01_file("/path/to/image.e01"));
    assert!(!is_e01_file("test.dd"));
    assert!(!is_e01_file("test.raw"));
    assert!(!is_e01_file("test"));
}

#[test]
fn test_is_vmdk_file() {
    assert!(is_vmdk_file("test.vmdk"));
    assert!(is_vmdk_file("TEST.VMDK"));
    assert!(is_vmdk_file("/path/to/image.vmdk"));
    assert!(!is_vmdk_file("test.dd"));
    assert!(!is_vmdk_file("test.raw"));
    assert!(!is_vmdk_file("test"));
}

#[test]
fn test_is_forensic_image() {
    assert!(is_forensic_image("test.e01"));
    assert!(is_forensic_image("test.vmdk"));
    assert!(is_forensic_image("TEST.E01"));
    assert!(is_forensic_image("TEST.VMDK"));
    assert!(!is_forensic_image("test.dd"));
    assert!(!is_forensic_image("test.raw"));
    assert!(!is_forensic_image("test"));
}

#[test]
fn test_get_format_name() {
    assert_eq!(get_format_name("test.e01"), Some("E01/EWF"));
    assert_eq!(get_format_name("test.vmdk"), Some("VMDK"));
    assert_eq!(get_format_name("TEST.E01"), Some("E01/EWF"));
    assert_eq!(get_format_name("TEST.VMDK"), Some("VMDK"));
    assert_eq!(get_format_name("test.dd"), None);
    assert_eq!(get_format_name("test.raw"), None);
}

#[test]
fn hidden_file_without_extension_is_not_an_image() {
    assert!(!is_e01_file(".e01"));
    assert!(is_vmdk_file("disk.E01.VmDk"));
}
