use hidctl::usage::{describe, page_name, usage_name};

#[test]
fn page_names_of_known_pages() {
    assert_eq!(page_name(0x01), Some("Generic Desktop"));
    assert_eq!(page_name(0x0C), Some("Consumer"));
    assert_eq!(page_name(0xF1D0), Some("FIDO Alliance"));
}

#[test]
fn vendor_block_pages_share_one_name() {
    assert_eq!(page_name(0xFF00), Some("Vendor-defined"));
    assert_eq!(page_name(0xFF31), Some("Vendor-defined"));
    assert_eq!(page_name(0xFFC1), Some("Vendor-defined"));
    assert_eq!(page_name(0xFFFF), Some("Vendor-defined"));
}

#[test]
fn unknown_pages_have_no_name() {
    assert_eq!(page_name(0x13), None);
    assert_eq!(page_name(0x00), None);
    assert_eq!(page_name(0xFEFF), None);
}

#[test]
fn usage_names_depend_on_the_page() {
    assert_eq!(usage_name(0x01, 0x06), Some("Keyboard"));
    assert_eq!(usage_name(0x01, 0x02), Some("Mouse"));
    assert_eq!(usage_name(0x0B, 0x01), Some("Phone"));
    assert_eq!(usage_name(0x0D, 0x05), Some("Touch Pad"));
    assert_eq!(usage_name(0xF1D0, 0x01), Some("U2F Authenticator Device"));
    assert_eq!(usage_name(0x0C, 0x06), None);
    assert_eq!(usage_name(0x01, 0x03), None);
}

#[test]
fn describe_joins_page_and_usage() {
    assert_eq!(describe(0x01, 0x06), Some("Generic Desktop / Keyboard".to_string()));
    assert_eq!(describe(0x0D, 0x04), Some("Digitizer / Touch Screen".to_string()));
}

#[test]
fn describe_falls_back_to_the_page() {
    assert_eq!(describe(0x01, 0x99), Some("Generic Desktop".to_string()));
    assert_eq!(describe(0xFF31, 0x01), Some("Vendor-defined".to_string()));
}

#[test]
fn describe_gives_nothing_for_unknown_pages() {
    assert_eq!(describe(0x13, 0x01), None);
}
