use hidctl::hid::{
    caps_result, describe_device, description_buffer_units, detail_buffer_words,
    detail_path_capacity, enumeration_failure, find_bytes, from_wide, nonempty_from_wide, owned_device_path, parse_vid_pid, received_report,
    wide_path, Error, HidDevice, HidInfo, QueryOutcome,
};
use hidctl::win32::{
    ERROR_NO_MORE_ITEMS, HIDD_ATTRIBUTES, HIDP_CAPS, HIDP_STATUS_SUCCESS,
};

fn info(vid: u16, pid: u16) -> HidInfo {
    HidInfo {
        vendor_id: vid,
        product_id: pid,
        version: 0x0114,
        manufacturer: Some("ASUSTek".to_string()),
        product: Some("ROG STRIX SCOPE II".to_string()),
        serial_number: None,
        usage_page: 0x01,
        usage: 0x06,
        input_report_len: 9,
        output_report_len: 2,
        feature_report_len: 0,
    }
}

fn device(instance_id: Option<&str>, info: Option<HidInfo>) -> HidDevice {
    HidDevice {
        path: "\\\\?\\hid#vid_0b05&pid_1a92#1".to_string(),
        instance_id: instance_id.map(|s| s.to_string()),
        device_desc: None,
        info,
        open_error: None,
    }
}

fn wide(s: &str) -> Vec<u16> {
    s.encode_utf16().collect()
}

#[test]
fn parses_vid_and_pid_out_of_an_instance_id() {
    assert_eq!(
        parse_vid_pid("HID\\VID_0B05&PID_1A92&MI_01\\8&1BB0B39&0&0000"),
        Some((0x0B05, 0x1A92))
    );
    assert_eq!(parse_vid_pid("HID\\VID_046d&PID_c52b"), Some((0x046D, 0xC52B)));
}

#[test]
fn instance_ids_without_tags_give_nothing() {
    assert_eq!(parse_vid_pid("ACPI\\ATK4002\\2&DABA3FF&0"), None);
    assert_eq!(parse_vid_pid("HID\\VID_0B05"), None);
    assert_eq!(parse_vid_pid(""), None);
}

#[test]
fn truncated_or_non_hex_ids_give_nothing() {
    assert_eq!(parse_vid_pid("HID\\VID_0B0&PID_1A92"), None);
    assert_eq!(parse_vid_pid("HID\\VID_0G05&PID_1A92"), None);
    assert_eq!(parse_vid_pid("HID\\VID_0B05&PID_1A9"), None);
    assert_eq!(parse_vid_pid("HID\\VID_0Bé5&PID_1A92"), None);
}

#[test]
fn a_plus_sign_counts_as_a_sign_like_from_str_radix() {
    assert_eq!(parse_vid_pid("VID_+FFF&PID_0001"), Some((0x0FFF, 1)));
}

#[test]
fn only_the_first_tag_is_read() {
    assert_eq!(parse_vid_pid("VID_0001 VID_0002 PID_0003 PID_0004"), Some((1, 3)));
}

#[test]
fn find_bytes_finds_the_first_occurrence() {
    assert_eq!(find_bytes(b"abcabc", b"bc"), Some(1));
    assert_eq!(find_bytes(b"abc", b"abcd"), None);
    assert_eq!(find_bytes(b"abc", b"x"), None);
    assert_eq!(find_bytes(b"abc", b""), Some(0));
}

#[test]
fn opened_attributes_take_precedence_over_the_instance_id() {
    let d = device(Some("HID\\VID_1111&PID_2222"), Some(info(0x0B05, 0x1A92)));
    assert_eq!(d.vendor_product_id(), Some((0x0B05, 0x1A92)));
}

#[test]
fn unopened_devices_fall_back_to_the_instance_id() {
    let d = device(Some("HID\\VID_1111&PID_2222&MI_00"), None);
    assert_eq!(d.vendor_product_id(), Some((0x1111, 0x2222)));
    let d = device(Some("ACPI\\ATK4002"), None);
    assert_eq!(d.vendor_product_id(), None);
    let d = device(None, None);
    assert_eq!(d.vendor_product_id(), None);
}

#[test]
fn from_wide_stops_at_the_first_nul() {
    let mut buf = wide("HID Keyboard Device");
    buf.push(0);
    buf.extend(wide("leftover"));
    assert_eq!(from_wide(&buf), "HID Keyboard Device");
    assert_eq!(from_wide(&wide("no terminator")), "no terminator");
    assert_eq!(from_wide(&[0, 65]), "");
}

#[test]
fn from_wide_decodes_surrogate_pairs_and_replaces_lone_ones() {
    assert_eq!(from_wide(&[0xD834, 0xDD1E, 0x006D, 0]), "\u{1D11E}m");
    assert_eq!(from_wide(&[0x0069, 0xDD1E, 0x0063, 0xD834]), "i\u{FFFD}c\u{FFFD}");
}

#[test]
fn empty_wide_strings_count_as_missing() {
    assert_eq!(nonempty_from_wide(&[0, 0, 0]), None);
    assert_eq!(nonempty_from_wide(&[]), None);
    assert_eq!(nonempty_from_wide(&[0x41, 0]), Some("A".to_string()));
}

#[test]
fn wide_paths_are_nul_terminated_utf16() {
    assert_eq!(wide_path("ab"), vec![0x61, 0x62, 0]);
    assert_eq!(wide_path("\u{1D11E}"), vec![0xD834, 0xDD1E, 0]);
    assert_eq!(wide_path(""), vec![0]);
}

#[test]
fn wide_paths_read_back_as_themselves() {
    let p = "\\\\?\\hid#vid_0b05&pid_1a92&mi_01#8&1bb0b39&0&0000#{4d1e55b2}";
    assert_eq!(from_wide(&wide_path(p)), p);
}

#[test]
fn owned_device_path_keeps_one_terminator() {
    assert_eq!(owned_device_path(&[1, 2, 0, 3, 0]), vec![1, 2, 0]);
    assert_eq!(owned_device_path(&[0, 5]), vec![0]);
}

#[test]
fn owned_device_path_without_terminator_drops_the_last_unit() {
    assert_eq!(owned_device_path(&[1, 2, 3]), vec![1, 2, 0]);
    assert_eq!(owned_device_path(&[7]), vec![0]);
}

#[test]
fn buffer_sizes_round_up() {
    let header = if usize::BITS == 64 { 8 } else { 6 };
    assert_eq!(detail_buffer_words(header), Some(((header + 3) / 4) as usize));
    assert_eq!(detail_buffer_words(9), Some(3));
    assert_eq!(detail_buffer_words(13), Some(4));
    assert_eq!(detail_buffer_words(header - 1), None);
    assert_eq!(detail_buffer_words(0), None);
    assert_eq!(detail_path_capacity(100, 4), 48);
    assert_eq!(detail_path_capacity(101, 4), 48);
    assert_eq!(description_buffer_units(11), 6);
    assert_eq!(description_buffer_units(10), 5);
}

#[test]
fn reports_are_cut_to_what_was_read() {
    assert_eq!(received_report(vec![1, 2, 3, 4], 2), vec![1, 2]);
    assert_eq!(received_report(vec![1, 2, 3, 4], 4), vec![1, 2, 3, 4]);
    assert_eq!(received_report(vec![1, 2], 9), vec![1, 2]);
}

#[test]
fn error_messages_name_the_call_and_code() {
    let e = Error { call: "CreateFileW", code: 5 };
    assert_eq!(e.message(), "CreateFileW failed (error 5)");
    let e = Error { call: "HidP_GetCaps", code: 0xC011_0001 };
    assert_eq!(e.message(), "HidP_GetCaps failed (error 3222339585)");
}

fn path_units() -> Vec<u16> {
    let mut p = wide("\\\\?\\hid#x");
    p.push(0);
    p
}

#[test]
fn devices_that_cannot_be_opened_are_still_listed() {
    let d = describe_device(
        &path_units(),
        Some("HID\\VID_0B05&PID_1A92".to_string()),
        Some("HID Keyboard Device".to_string()),
        QueryOutcome::OpenFailed(5),
    );
    assert_eq!(d.path, "\\\\?\\hid#x");
    assert_eq!(d.instance_id.as_deref(), Some("HID\\VID_0B05&PID_1A92"));
    assert_eq!(d.device_desc.as_deref(), Some("HID Keyboard Device"));
    assert!(d.info.is_none());
    assert_eq!(d.open_error, Some(5));

    let d = describe_device(&path_units(), None, None, QueryOutcome::AttributesFailed(31));
    assert!(d.info.is_none());
    assert_eq!(d.open_error, Some(31));
}

#[test]
fn answered_devices_carry_their_metadata() {
    let attributes = HIDD_ATTRIBUTES { Size: 12, VendorID: 0x0B05, ProductID: 0x1A92, VersionNumber: 0x0114 };
    let mut caps = HIDP_CAPS::default();
    caps.UsagePage = 0x01;
    caps.Usage = 0x06;
    caps.InputReportByteLength = 9;
    caps.OutputReportByteLength = 2;
    caps.FeatureReportByteLength = 65;
    let d = describe_device(
        &path_units(),
        None,
        None,
        QueryOutcome::Answered {
            attributes,
            caps: Some(caps),
            manufacturer: Some("ASUSTek".to_string()),
            product: None,
            serial_number: Some("123".to_string()),
        },
    );
    assert_eq!(d.open_error, None);
    let i = d.info.expect("info");
    assert_eq!((i.vendor_id, i.product_id, i.version), (0x0B05, 0x1A92, 0x0114));
    assert_eq!((i.usage_page, i.usage), (0x01, 0x06));
    assert_eq!((i.input_report_len, i.output_report_len, i.feature_report_len), (9, 2, 65));
    assert_eq!(i.manufacturer.as_deref(), Some("ASUSTek"));
    assert_eq!(i.product, None);
    assert_eq!(i.serial_number.as_deref(), Some("123"));
}

#[test]
fn missing_capabilities_read_as_zeroes() {
    let attributes = HIDD_ATTRIBUTES { Size: 12, VendorID: 1, ProductID: 2, VersionNumber: 3 };
    let d = describe_device(
        &path_units(),
        None,
        None,
        QueryOutcome::Answered { attributes, caps: None, manufacturer: None, product: None, serial_number: None },
    );
    let i = d.info.expect("info");
    assert_eq!((i.vendor_id, i.product_id), (1, 2));
    assert_eq!((i.usage_page, i.usage, i.input_report_len, i.output_report_len, i.feature_report_len), (0, 0, 0, 0, 0));
}

#[test]
fn only_the_end_of_the_set_stops_the_walk_quietly() {
    let end = Error { call: "SetupDiEnumDeviceInterfaces", code: ERROR_NO_MORE_ITEMS };
    assert!(enumeration_failure(end).is_none());
    let denied = Error { call: "SetupDiEnumDeviceInterfaces", code: 5 };
    let kept = enumeration_failure(denied).expect("a real failure is reported");
    assert_eq!(kept.code, 5);
    assert_eq!(kept.call, "SetupDiEnumDeviceInterfaces");
}

#[test]
fn capabilities_need_the_success_status() {
    let mut caps = HIDP_CAPS::default();
    caps.UsagePage = 0x0C;
    caps.Usage = 0x01;
    let got = caps_result(HIDP_STATUS_SUCCESS, caps).ok().expect("success keeps the caps");
    assert_eq!((got.UsagePage, got.Usage), (0x0C, 0x01));
    let err = caps_result(0xC011_0001u32 as i32, caps).err().expect("any other status fails");
    assert_eq!(err.call, "HidP_GetCaps");
    assert_eq!(err.code, 0xC011_0001);
    assert_eq!(err.message(), "HidP_GetCaps failed (error 3222339585)");
}

#[test]
fn a_described_path_ends_at_its_first_nul_and_errors_exclude_metadata() {
    let units: Vec<u16> = vec![0x61, 0x62, 0, 0x63, 0];
    let d = describe_device(&units, None, None, QueryOutcome::OpenFailed(2));
    assert_eq!(d.path, "ab");
    assert!(!d.path.contains('\0'));
    assert_eq!((d.info.is_none(), d.open_error.is_some()), (true, true));
    let attributes = HIDD_ATTRIBUTES { Size: 12, VendorID: 1, ProductID: 2, VersionNumber: 3 };
    let d = describe_device(
        &units,
        None,
        None,
        QueryOutcome::Answered { attributes, caps: None, manufacturer: None, product: None, serial_number: None },
    );
    assert_eq!((d.info.is_none(), d.open_error.is_some()), (false, false));
}
