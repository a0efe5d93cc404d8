use hidctl::cli::{group_by_product, group_name, is_generic_name, is_vendor_defined_name, Args};
use hidctl::hid::{HidDevice, HidInfo};
use hidctl::order::{filter_devices, lists_before, sort_devices};

fn info(vid: u16, pid: u16, page: u16, usage: u16, product: Option<&str>) -> HidInfo {
    HidInfo {
        vendor_id: vid,
        product_id: pid,
        version: 0x0100,
        manufacturer: None,
        product: product.map(|s| s.to_string()),
        serial_number: None,
        usage_page: page,
        usage,
        input_report_len: 0,
        output_report_len: 0,
        feature_report_len: 0,
    }
}

fn dev(path: &str, instance: Option<&str>, desc: Option<&str>, info: Option<HidInfo>) -> HidDevice {
    HidDevice {
        path: path.to_string(),
        instance_id: instance.map(|s| s.to_string()),
        device_desc: desc.map(|s| s.to_string()),
        info,
        open_error: None,
    }
}

fn opened(path: &str, vid: u16, pid: u16, page: u16, usage: u16) -> HidDevice {
    dev(path, None, None, Some(info(vid, pid, page, usage, None)))
}

fn paths(ds: &[HidDevice]) -> Vec<&str> {
    ds.iter().map(|d| d.path.as_str()).collect()
}

#[test]
fn generic_names_start_with_hid_in_any_case() {
    assert!(is_generic_name("HID-compliant mouse"));
    assert!(is_generic_name("HID Keyboard Device"));
    assert!(is_generic_name("HIDI2C Device"));
    assert!(is_generic_name("hid thing"));
    assert!(is_generic_name("HiD"));
    assert!(!is_generic_name("ROG STRIX SCOPE II"));
    assert!(!is_generic_name("HI"));
    assert!(!is_generic_name("The HID"));
}

#[test]
fn vendor_defined_names_are_found_in_any_case() {
    assert!(is_vendor_defined_name("HID-compliant vendor-defined device"));
    assert!(is_vendor_defined_name("HID-compliant Vendor-Defined device"));
    assert!(is_vendor_defined_name("vendor-defined"));
    assert!(!is_vendor_defined_name("HID Keyboard Device"));
    assert!(!is_vendor_defined_name("vendor defined"));
    assert!(!is_vendor_defined_name(""));
}

#[test]
fn the_vendor_product_name_wins() {
    let a = dev("a", None, Some("HID Keyboard Device"), None);
    let b = dev("b", None, Some("HID-compliant vendor-defined device"), Some(info(1, 2, 0, 0, Some("ROG STRIX SCOPE II"))));
    let c = dev("c", None, Some("HID Keyboard Device"), None);
    assert_eq!(group_name(&[&a, &b, &c]), "ROG STRIX SCOPE II");
}

#[test]
fn generic_names_that_are_not_vendor_defined_come_next() {
    let a = dev("a", None, Some("HID-compliant vendor-defined device"), None);
    let b = dev("b", None, Some("HID-compliant vendor-defined device"), None);
    let c = dev("c", None, Some("HID Keyboard Device"), None);
    assert_eq!(group_name(&[&a, &b, &c]), "HID Keyboard Device");
}

#[test]
fn the_most_frequent_name_wins_and_ties_go_to_the_last_seen() {
    let a = dev("a", None, Some("HID-compliant mouse"), None);
    let b = dev("b", None, Some("HID Keyboard Device"), None);
    let c = dev("c", None, Some("HID Keyboard Device"), None);
    assert_eq!(group_name(&[&a, &b, &c]), "HID Keyboard Device");
    assert_eq!(group_name(&[&a, &b]), "HID Keyboard Device");
    assert_eq!(group_name(&[&b, &a]), "HID-compliant mouse");
}

#[test]
fn vendor_defined_names_are_the_last_resort() {
    let a = dev("a", None, Some("HID-compliant vendor-defined device"), None);
    assert_eq!(group_name(&[&a]), "HID-compliant vendor-defined device");
}

#[test]
fn nameless_groups_are_unknown() {
    let a = dev("a", None, None, None);
    assert_eq!(group_name(&[&a]), "Unknown device");
    assert_eq!(group_name(&[]), "Unknown device");
}

#[test]
fn grouping_collapses_adjacent_interfaces_of_one_product() {
    let ds = vec![
        opened("a", 1, 2, 1, 6),
        opened("b", 1, 2, 0xFF00, 1),
        opened("c", 1, 3, 1, 2),
        dev("d", Some("ACPI\\X"), None, None),
        dev("e", Some("ACPI\\Y"), None, None),
        opened("f", 1, 2, 1, 1),
    ];
    let groups = group_by_product(&ds);
    let shape: Vec<(Option<(u16, u16)>, Vec<&str>)> = groups
        .iter()
        .map(|(k, members)| (*k, members.iter().map(|d| d.path.as_str()).collect()))
        .collect();
    assert_eq!(
        shape,
        vec![
            (Some((1, 2)), vec!["a", "b"]),
            (Some((1, 3)), vec!["c"]),
            (None, vec!["d", "e"]),
            (Some((1, 2)), vec!["f"]),
        ]
    );
    assert!(group_by_product(&[]).is_empty());
}

#[test]
fn sorting_orders_by_ids_usage_then_path() {
    let mut ds = vec![
        opened("z", 2, 1, 1, 6),
        opened("y", 1, 2, 1, 6),
        opened("x", 1, 2, 1, 2),
        dev("w", Some("HID\\VID_0001&PID_0002"), None, None),
        dev("v", None, None, None),
        opened("b", 1, 1, 1, 1),
        opened("a", 1, 1, 1, 1),
    ];
    sort_devices(&mut ds);
    assert_eq!(paths(&ds), vec!["v", "a", "b", "w", "x", "y", "z"]);
}

#[test]
fn sorting_keeps_equal_devices_in_their_order() {
    let mut ds = vec![
        dev("same", Some("first"), None, None),
        dev("same", Some("second"), None, None),
        dev("other", Some("third"), None, None),
    ];
    sort_devices(&mut ds);
    let ids: Vec<&str> = ds.iter().map(|d| d.instance_id.as_deref().unwrap()).collect();
    assert_eq!(ids, vec!["third", "first", "second"]);
}

#[test]
fn paths_compare_by_bytes() {
    let a = dev("Z", None, None, None);
    let b = dev("a", None, None, None);
    let c = dev("ab", None, None, None);
    assert!(lists_before(&a, &b));
    assert!(lists_before(&b, &c));
    assert!(!lists_before(&c, &b));
    assert!(!lists_before(&a, &a));
}

#[test]
fn sorted_devices_group_into_distinct_products() {
    let mut ds = vec![
        opened("a", 1, 2, 1, 6),
        opened("c", 1, 3, 1, 2),
        dev("d", Some("ACPI\\X"), None, None),
        opened("f", 1, 2, 1, 1),
        dev("e", Some("ACPI\\Y"), None, None),
    ];
    sort_devices(&mut ds);
    let groups = group_by_product(&ds);
    let keys: Vec<Option<(u16, u16)>> = groups.iter().map(|(k, _)| *k).collect();
    assert_eq!(keys, vec![None, Some((1, 2)), Some((1, 3))]);
}

fn filter(vid: Option<u16>, pid: Option<u16>) -> Args {
    Args { vid, pid, detail: false }
}

#[test]
fn filters_keep_matching_devices_in_order() {
    let ds = || vec![
        opened("a", 0x0B05, 1, 1, 1),
        dev("b", Some("HID\\VID_0B05&PID_0002&MI_00"), None, None),
        opened("c", 0x046D, 1, 1, 1),
        dev("d", Some("ACPI\\X"), None, None),
        opened("e", 0x0B05, 2, 1, 1),
    ];
    assert_eq!(paths(&filter_devices(ds(), &filter(Some(0x0B05), None))), vec!["a", "b", "e"]);
    assert_eq!(paths(&filter_devices(ds(), &filter(Some(0x0B05), Some(2)))), vec!["b", "e"]);
    assert_eq!(paths(&filter_devices(ds(), &filter(None, Some(1)))), vec!["a", "c"]);
    assert_eq!(paths(&filter_devices(ds(), &filter(None, None))), vec!["a", "b", "c", "d", "e"]);
    assert!(filter_devices(ds(), &filter(Some(9), None)).is_empty());
}

#[test]
fn sorting_has_one_outcome_and_sorting_again_changes_nothing() {
    let devices = || vec![
        opened("z", 2, 1, 1, 6),
        dev("same", Some("first"), None, None),
        opened("x", 1, 2, 1, 2),
        dev("same", Some("second"), None, None),
        opened("a", 1, 1, 1, 1),
    ];
    let mut once = devices();
    sort_devices(&mut once);
    let mut reversed_equal_ranks = devices();
    reversed_equal_ranks.swap(0, 4);
    reversed_equal_ranks.swap(2, 4);
    sort_devices(&mut reversed_equal_ranks);
    assert_eq!(paths(&once), paths(&reversed_equal_ranks));
    let mut twice = once.clone();
    sort_devices(&mut twice);
    assert_eq!(paths(&twice), paths(&once));
    let ids: Vec<Option<&str>> = twice.iter().map(|d| d.instance_id.as_deref()).collect();
    assert_eq!(ids, vec![Some("first"), Some("second"), None, None, None]);
}

#[test]
fn keys_that_come_back_later_start_a_new_group() {
    let ds = vec![opened("a", 0x0B05, 0x1A92, 1, 6), opened("b", 0x046D, 0xC52B, 1, 2), opened("c", 0x0B05, 0x1A92, 1, 1)];
    let keys: Vec<Option<(u16, u16)>> = group_by_product(&ds).iter().map(|(k, _)| *k).collect();
    assert_eq!(keys, vec![Some((0x0B05, 0x1A92)), Some((0x046D, 0xC52B)), Some((0x0B05, 0x1A92))]);
}

#[test]
fn adjacent_keys_give_one_group_per_product() {
    let ds = vec![
        opened("z", 2, 1, 1, 6),
        opened("y", 2, 1, 1, 1),
        dev("d", Some("ACPI\\X"), None, None),
        dev("e", None, None, None),
        opened("a", 1, 1, 1, 1),
    ];
    let groups = group_by_product(&ds);
    let keys: Vec<Option<(u16, u16)>> = groups.iter().map(|(k, _)| *k).collect();
    assert_eq!(keys, vec![Some((2, 1)), None, Some((1, 1))]);
    let sizes: Vec<usize> = groups.iter().map(|(_, members)| members.len()).collect();
    assert_eq!(sizes, vec![2, 2, 1]);
}

#[test]
fn the_name_is_the_most_frequent_of_the_first_tier_reached() {
    let v = dev("v", None, Some("HID-compliant vendor-defined device"), None);
    let m = dev("m", None, Some("HID-compliant mouse"), None);
    let k = dev("k", None, Some("HID Keyboard Device"), None);
    // Vendor-defined names outnumber the others but sit in the last tier.
    assert_eq!(group_name(&[&v, &v, &v, &m, &k, &k]), "HID Keyboard Device");
    // Equal counts: the name first seen last wins.
    assert_eq!(group_name(&[&k, &m, &k, &m]), "HID-compliant mouse");
    // A vendor name seen once beats generic names seen often.
    let p = dev("p", None, Some("HID Keyboard Device"), Some(info(1, 2, 1, 6, Some("ROG STRIX SCOPE II"))));
    assert_eq!(group_name(&[&k, &k, &m, &p]), "ROG STRIX SCOPE II");
}
