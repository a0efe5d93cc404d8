use hidctl::cli::{inline_value, parse_args, parse_id, take_value, Args, ASUS_VID, USAGE};

fn args(list: &[&str]) -> Vec<String> {
    list.iter().map(|s| s.to_string()).collect()
}

fn parsed(list: &[&str]) -> Args {
    parse_args(&args(list)).expect("parses")
}

#[test]
fn ids_are_decimal_unless_prefixed() {
    assert_eq!(parse_id("2821", "vendor"), Ok(0x0B05));
    assert_eq!(parse_id("0x0B05", "vendor"), Ok(0x0B05));
    assert_eq!(parse_id("0X0b05", "vendor"), Ok(0x0B05));
    assert_eq!(parse_id("0", "vendor"), Ok(0));
    assert_eq!(parse_id("65535", "vendor"), Ok(65535));
    assert_eq!(parse_id("0xffff", "vendor"), Ok(65535));
    assert_eq!(parse_id("+12", "vendor"), Ok(12));
}

#[test]
fn bare_hex_is_rejected() {
    assert_eq!(
        parse_id("0B05", "vendor"),
        Err("invalid vendor id '0B05', expected decimal (2821) or hex (0x0B05)".to_string())
    );
}

#[test]
fn out_of_range_and_empty_ids_are_rejected() {
    assert_eq!(
        parse_id("65536", "product"),
        Err("invalid product id '65536', expected decimal (2821) or hex (0x0B05)".to_string())
    );
    assert!(parse_id("0x10000", "product").is_err());
    assert!(parse_id("", "product").is_err());
    assert!(parse_id("0x", "product").is_err());
    assert!(parse_id("+", "product").is_err());
    assert!(parse_id("-1", "product").is_err());
    assert!(parse_id(" 12", "product").is_err());
}

#[test]
fn printed_ids_can_be_typed_back() {
    for v in [0u16, 1, 0x0B05, 0x1A92, 0xFFFF] {
        assert_eq!(parse_id(&format!("0x{v:04X}"), "vendor"), Ok(v));
        assert_eq!(parse_id(&format!("{v}"), "vendor"), Ok(v));
    }
}

#[test]
fn no_arguments_mean_no_filter() {
    let a = parsed(&[]);
    assert_eq!((a.vid, a.pid, a.detail), (None, None, false));
    assert!(!a.has_filter());
}

#[test]
fn separate_and_inline_values_are_the_same() {
    let a = parsed(&["--vid", "0x0B05", "--pid", "6802"]);
    let b = parsed(&["--vid=0x0B05", "--pid=6802"]);
    assert_eq!((a.vid, a.pid), (Some(0x0B05), Some(6802)));
    assert_eq!((b.vid, b.pid), (Some(0x0B05), Some(6802)));
    assert!(a.has_filter());
}

#[test]
fn detail_flags() {
    assert!(parsed(&["--detail"]).detail);
    assert!(parsed(&["-d"]).detail);
}

#[test]
fn asus_is_a_vendor_shorthand_in_any_case() {
    assert_eq!(parsed(&["asus"]).vid, Some(ASUS_VID));
    assert_eq!(parsed(&["ASUS"]).vid, Some(0x0B05));
    assert_eq!(parsed(&["AsUs"]).vid, Some(0x0B05));
    assert!(parsed(&["asus"]).has_filter());
}

#[test]
fn later_flags_override_earlier_ones() {
    assert_eq!(parsed(&["--vid", "1", "asus"]).vid, Some(0x0B05));
    assert_eq!(parsed(&["asus", "--vid=7"]).vid, Some(7));
}

#[test]
fn only_a_product_filter_counts_as_a_filter() {
    let a = parsed(&["--pid", "0x1A92"]);
    assert_eq!((a.vid, a.pid), (None, Some(0x1A92)));
    assert!(a.has_filter());
}

#[test]
fn unknown_arguments_are_rejected_with_the_usage() {
    assert_eq!(
        parse_args(&args(&["--list"])).err(),
        Some(format!("unexpected argument '--list'\n{USAGE}"))
    );
    assert!(parse_args(&args(&["asuss"])).is_err());
    assert!(parse_args(&args(&["--VID", "1"])).is_err());
}

#[test]
fn usage_text() {
    assert_eq!(
        USAGE,
        "usage: hidctl [--vid <id>] [--pid <id>] [asus] [--detail]\nids are decimal unless prefixed with 0x, e.g. 2821 or 0x0B05"
    );
}

#[test]
fn a_flag_without_its_value_is_rejected() {
    assert_eq!(
        parse_args(&args(&["--vid"])).err(),
        Some(format!("--vid needs a hex id\n{USAGE}"))
    );
    assert_eq!(
        parse_args(&args(&["-d", "--pid"])).err(),
        Some(format!("--pid needs a hex id\n{USAGE}"))
    );
}

#[test]
fn bad_values_are_reported_with_their_kind() {
    assert_eq!(
        parse_args(&args(&["--pid=0B05"])).err(),
        Some("invalid product id '0B05', expected decimal (2821) or hex (0x0B05)".to_string())
    );
    assert_eq!(
        parse_args(&args(&["--vid", "x"])).err(),
        Some("invalid vendor id 'x', expected decimal (2821) or hex (0x0B05)".to_string())
    );
}

#[test]
fn take_value_reads_the_next_argument() {
    let list = args(&["--vid", "0x0B05"]);
    assert_eq!(take_value("--vid", &list, 1), Ok("0x0B05".to_string()));
    assert_eq!(take_value("--vid", &list, 2), Err(format!("--vid needs a hex id\n{USAGE}")));
}

#[test]
fn inline_value_is_everything_after_the_first_equals() {
    assert_eq!(inline_value("--vid=0x0B05"), "0x0B05");
    assert_eq!(inline_value("--pid=a=b"), "a=b");
    assert_eq!(inline_value("--vid="), "");
}
