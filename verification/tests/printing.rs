use hidctl::hid::{HidDevice, HidInfo};
use hidctl::cli::Args;
use hidctl::report::{device_report, group_report, hex_dec, listing, listing_header};
use hidctl::text::{padded_decimal, padded_hex};
use hidctl::win32::{
    detail_data_cb_size, HIDD_ATTRIBUTES, HIDP_CAPS, SP_DEVICE_INTERFACE_DATA, SP_DEVINFO_DATA,
};

fn keyboard() -> HidDevice {
    HidDevice {
        path: "\\\\?\\hid#vid_0b05&pid_1a92&mi_00#1".to_string(),
        instance_id: Some("HID\\VID_0B05&PID_1A92&MI_00\\8&1BB0B39&0&0000".to_string()),
        device_desc: Some("HID Keyboard Device".to_string()),
        info: Some(HidInfo {
            vendor_id: 0x0B05,
            product_id: 0x1A92,
            version: 0x0114,
            manufacturer: Some("ASUSTeK".to_string()),
            product: Some("ROG STRIX SCOPE II".to_string()),
            serial_number: None,
            usage_page: 0x01,
            usage: 0x06,
            input_report_len: 9,
            output_report_len: 2,
            feature_report_len: 0,
        }),
        open_error: None,
    }
}

fn locked(instance: Option<&str>, error: Option<u32>) -> HidDevice {
    HidDevice {
        path: "p".to_string(),
        instance_id: instance.map(|s| s.to_string()),
        device_desc: None,
        info: None,
        open_error: error,
    }
}

#[test]
fn hex_dec_prints_both_bases() {
    assert_eq!(hex_dec(0x0B05), "0x0B05 (2821)");
    assert_eq!(hex_dec(0), "0x0000 (0)");
    assert_eq!(hex_dec(0xFFFF), "0xFFFF (65535)");
}

#[test]
fn padding() {
    assert_eq!(padded_hex(0xB, 2), "0B");
    assert_eq!(padded_hex(0x1234, 2), "1234");
    assert_eq!(padded_decimal(7, 3), "  7");
    assert_eq!(padded_decimal(1234, 3), "1234");
}

#[test]
fn opened_devices_get_the_full_entry() {
    assert_eq!(
        device_report(1, &keyboard()),
        vec![
            "[  1] 0x0B05 (2821):0x1A92 (6802) rev 1.14",
            "      product      : ROG STRIX SCOPE II",
            "      manufacturer : ASUSTeK",
            "      serial       : -",
            "      usage        : 0x0001 (1):0x0006 (6)  (Generic Desktop / Keyboard)",
            "      report bytes : in 9, out 2, feature 0",
            "      device desc  : HID Keyboard Device",
            "      instance id  : HID\\VID_0B05&PID_1A92&MI_00\\8&1BB0B39&0&0000",
            "      path         : \\\\?\\hid#vid_0b05&pid_1a92&mi_00#1",
        ]
    );
}

#[test]
fn versions_print_their_nibbles_and_unknown_usages_stay_hex() {
    let mut d = keyboard();
    if let Some(i) = d.info.as_mut() {
        i.version = 0x1A05;
        i.usage_page = 0x13;
        i.usage = 0x01;
    }
    let lines = device_report(12, &d);
    assert_eq!(lines[0], "[ 12] 0x0B05 (2821):0x1A92 (6802) rev 1A.05");
    assert_eq!(lines[4], "      usage        : 0x0013 (19):0x0001 (1)");
}

#[test]
fn unreadable_devices_show_what_is_known() {
    let lines = device_report(3, &locked(Some("HID\\VID_0B05&PID_1A92&COL01"), Some(5)));
    assert_eq!(
        lines,
        vec![
            "[  3] 0x0B05 (2821):0x1A92 (6802)  <not readable: error 5>",
            "      device desc  : -",
            "      instance id  : HID\\VID_0B05&PID_1A92&COL01",
            "      path         : p",
        ]
    );
    let lines = device_report(1000, &locked(None, None));
    assert_eq!(lines[0], "[1000] <not readable: unknown error>");
}

#[test]
fn group_summaries() {
    let k = keyboard();
    let l = locked(Some("HID\\VID_0B05&PID_1A92"), Some(5));
    assert_eq!(
        group_report(Some((0x0B05, 0x1A92)), &[&k, &l], false),
        vec!["ROG STRIX SCOPE II (0x0B05:0x1A92)", "  2 interfaces (1 not readable)"]
    );
    assert_eq!(
        group_report(Some((0x0B05, 0x1A92)), &[&k], true),
        vec!["ROG STRIX SCOPE II (0x1A92)", "  1 interface"]
    );
    assert_eq!(
        group_report(None, &[&l], true),
        vec!["Unknown device (????)", "  1 interface (1 not readable)"]
    );
}

#[test]
fn listing_headers() {
    assert_eq!(listing_header(0, &[], true), vec!["No matching HID devices present."]);
    assert_eq!(
        listing_header(1, &[keyboard()], false),
        vec!["1 device(s), 1 interface(s) present.", ""]
    );
    assert_eq!(
        listing_header(2, &[keyboard(), locked(None, Some(5)), locked(None, None)], true),
        vec![
            "2 device(s), 3 interface(s) matched.",
            "2 interface(s) could not be opened for querying.",
            "",
        ]
    );
}

#[test]
fn structure_stamps_are_their_sizes() {
    let d = SP_DEVICE_INTERFACE_DATA::new();
    assert_eq!(d.cbSize, if usize::BITS == 64 { 32 } else { 28 });
    assert_eq!((d.Flags, d.Reserved), (0, 0));
    let d = SP_DEVINFO_DATA::new();
    assert_eq!(d.cbSize, if usize::BITS == 64 { 32 } else { 28 });
    let a = HIDD_ATTRIBUTES::new();
    assert_eq!(a.Size, 12);
    assert_eq!((a.VendorID, a.ProductID, a.VersionNumber), (0, 0, 0));
    let c = HIDP_CAPS::default();
    assert_eq!((c.Usage, c.UsagePage, c.InputReportByteLength), (0, 0, 0));
}

#[test]
fn detail_record_size_follows_the_target() {
    let expected = if usize::BITS == 64 { 8 } else { 6 };
    assert_eq!(detail_data_cb_size(), expected);
}

fn mouse(path: &str) -> HidDevice {
    let mut d = keyboard();
    d.path = path.to_string();
    if let Some(i) = d.info.as_mut() {
        i.vendor_id = 0x046D;
        i.product_id = 0xC077;
        i.product = Some("USB Optical Mouse".to_string());
        i.usage = 0x02;
    }
    d
}

#[test]
fn the_grouped_listing_sorts_and_summarises() {
    let args = Args { vid: None, pid: None, detail: false };
    let lines = listing(vec![mouse("m"), keyboard(), locked(None, None)], &args);
    assert_eq!(
        lines,
        vec![
            "3 device(s), 3 interface(s) present.",
            "1 interface(s) could not be opened for querying.",
            "",
            "Unknown device (????)",
            "  1 interface (1 not readable)",
            "USB Optical Mouse (0x046D:0xC077)",
            "  1 interface",
            "ROG STRIX SCOPE II (0x0B05:0x1A92)",
            "  1 interface",
        ]
    );
}

#[test]
fn the_detailed_listing_numbers_the_filtered_interfaces() {
    let args = Args { vid: Some(0x0B05), pid: None, detail: true };
    let lines = listing(vec![mouse("m"), keyboard(), locked(None, None)], &args);
    assert_eq!(lines[0], "1 device(s), 1 interface(s) matched.");
    assert_eq!(lines[1], "");
    assert_eq!(lines[2], "[  1] 0x0B05 (2821):0x1A92 (6802) rev 1.14");
    assert_eq!(lines.len(), 11);
}

#[test]
fn a_vendor_filter_shows_product_ids_only() {
    let args = Args { vid: Some(0x0B05), pid: None, detail: false };
    let lines = listing(vec![keyboard(), mouse("m")], &args);
    assert_eq!(
        lines,
        vec!["1 device(s), 1 interface(s) matched.", "", "ROG STRIX SCOPE II (0x1A92)", "  1 interface"]
    );
}

#[test]
fn an_empty_listing_says_so() {
    let args = Args { vid: Some(0x1234), pid: None, detail: false };
    assert_eq!(listing(vec![keyboard()], &args), vec!["No matching HID devices present."]);
}
