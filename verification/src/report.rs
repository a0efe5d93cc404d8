//! The text of every line the lister prints.
use vstd::prelude::*;
use vstd::string::*;

use crate::cli::{derefs, group_by_product, group_label, group_name, groups_view, runs, Args};
use crate::order::{filter_devices, kept, sort_devices, stably_sorted};
use crate::hid::{device_vid_pid, HidDevice};
use crate::text::{decimal, hex_upper, pad_left, padded_decimal, padded_hex, push_decimal, push_hex};
use crate::usage::{describe, description, page_label, usage_label};

verus! {

/// `0x0B05 (2821)`: a 16-bit identifier in hex and in decimal.
pub open spec fn hex_dec_text(v: u16) -> Seq<char> {
    "0x"@ + pad_left(hex_upper(v as nat), 4, '0') + " ("@ + decimal(v as nat) + ")"@
}

/// Formats a 16-bit identifier as hex plus decimal, e.g. `0x0B05 (2821)`.
pub fn hex_dec(value: u16) -> (s: String)
    ensures
        s@ == hex_dec_text(value),
{
    let mut s = String::from_str("0x");
    let h = padded_hex(value as u64, 4);
    s.append(h.as_str());
    s.append(" (");
    push_decimal(&mut s, value as u64);
    s.append(")");
    s
}

/// Number of interfaces that could not be opened for querying.
pub open spec fn unreadable_count(ds: Seq<HidDevice>) -> nat
    decreases ds.len(),
{
    if ds.len() == 0 {
        0
    } else {
        unreadable_count(ds.drop_last()) + if ds.last().info is None {
            1nat
        } else {
            0nat
        }
    }
}

/// Counts the interfaces that could not be opened for querying.
pub fn count_unreadable(devices: &[&HidDevice]) -> (n: usize)
    ensures
        n == unreadable_count(derefs(devices@)),
{
    let ghost ds = derefs(devices@);
    let mut n: usize = 0;
    let mut i: usize = 0;
    while i < devices.len()
        invariant
            i <= devices@.len(),
            ds == derefs(devices@),
            n <= i,
            n == unreadable_count(ds.subrange(0, i as int)),
        decreases devices@.len() - i,
    {
        assert(ds.subrange(0, i + 1).drop_last() =~= ds.subrange(0, i as int));
        if devices[i].info.is_none() {
            n = n + 1;
        }
        i = i + 1;
    }
    assert(ds.subrange(0, i as int) =~= ds);
    n
}

/// How a group is identified in the summary: the PID alone when a vendor
/// filter makes the VID redundant, `VID:PID` otherwise, `????` when unknown.
pub open spec fn group_id_text(key: Option<(u16, u16)>, pid_only: bool) -> Seq<char> {
    match key {
        Some((vid, pid)) => if pid_only {
            "0x"@ + pad_left(hex_upper(pid as nat), 4, '0')
        } else {
            "0x"@ + pad_left(hex_upper(vid as nat), 4, '0') + ":0x"@ + pad_left(
                hex_upper(pid as nat),
                4,
                '0',
            )
        },
        None => "????"@,
    }
}

/// The two summary lines of one physical device: its name and ID, then its
/// interface count and how many of them could not be read.
pub open spec fn group_lines(name: Seq<char>, key: Option<(u16, u16)>, ds: Seq<HidDevice>, pid_only: bool) -> Seq<Seq<char>> {
    let plural = if ds.len() == 1 {
        "interface"@
    } else {
        "interfaces"@
    };
    let count = "  "@ + decimal(ds.len()) + " "@ + plural;
    seq![
        name + " ("@ + group_id_text(key, pid_only) + ")"@,
        if unreadable_count(ds) > 0 {
            count + " ("@ + decimal(unreadable_count(ds)) + " not readable)"@
        } else {
            count
        },
    ]
}

/// The views of a list of lines.
pub open spec fn lines_view(lines: Seq<String>) -> Seq<Seq<char>> {
    lines.map_values(|l: String| l@)
}

/// The summary lines of one physical device: its most recognizable name and
/// its ID, then its interface count.
pub fn group_report(key: Option<(u16, u16)>, interfaces: &[&HidDevice], pid_only: bool) -> (lines: Vec<String>)
    requires
        interfaces@.len() * 2 < usize::MAX,
    ensures
        lines_view(lines@) == group_lines(group_label(derefs(interfaces@)), key, derefs(interfaces@), pid_only),
{
    let name = group_name(interfaces);
    let mut first = name.clone();
    first.append(" (");
    match key {
        Some((vid, pid)) => {
            first.append("0x");
            if pid_only {
                first.append(padded_hex(pid as u64, 4).as_str());
            } else {
                first.append(padded_hex(vid as u64, 4).as_str());
                first.append(":0x");
                first.append(padded_hex(pid as u64, 4).as_str());
            }
        },
        None => {
            first.append("????");
        },
    }
    first.append(")");
    assert(first@ =~= name@ + " ("@ + group_id_text(key, pid_only) + ")"@);
    let ghost label = name@;
    let mut second = String::from_str("  ");
    push_decimal(&mut second, interfaces.len() as u64);
    second.append(" ");
    second.append(if interfaces.len() == 1 { "interface" } else { "interfaces" });
    let ghost count = second@;
    let unreadable = count_unreadable(interfaces);
    if unreadable > 0 {
        second.append(" (");
        push_decimal(&mut second, unreadable as u64);
        second.append(" not readable)");
        assert(second@ =~= count + " ("@ + decimal(unreadable as nat) + " not readable)"@);
    }
    let mut lines: Vec<String> = Vec::new();
    lines.push(first);
    lines.push(second);
    assert(lines_view(lines@) =~= group_lines(label, key, derefs(interfaces@), pid_only));
    lines
}

/// An optional string, or `-` when absent.
pub open spec fn or_dash(s: Option<String>) -> Seq<char> {
    match s {
        Some(t) => t@,
        None => "-"@,
    }
}

/// The `[  n]` entry number, right-aligned in three columns.
pub open spec fn entry_number(number: usize) -> Seq<char> {
    "["@ + pad_left(decimal(number as nat), 3, ' ') + "]"@
}

/// The lines of one numbered interface entry in the detailed listing: full
/// HID metadata when the interface could be opened, or whatever VID/PID could
/// be recovered plus the reason it could not; then always its description,
/// instance ID and path.
pub open spec fn device_lines(number: usize, d: HidDevice) -> Seq<Seq<char>> {
    let top = match d.info {
        Some(info) => seq![
            entry_number(number) + " "@ + hex_dec_text(info.vendor_id) + ":"@ + hex_dec_text(
                info.product_id,
            ) + " rev "@ + hex_upper((info.version / 256) as nat) + "."@ + pad_left(
                hex_upper((info.version % 256) as nat),
                2,
                '0',
            ),
            "      product      : "@ + or_dash(info.product),
            "      manufacturer : "@ + or_dash(info.manufacturer),
            "      serial       : "@ + or_dash(info.serial_number),
            "      usage        : "@ + hex_dec_text(info.usage_page) + ":"@ + hex_dec_text(info.usage)
                + match description(info.usage_page, info.usage) {
                Some(name) => "  ("@ + name + ")"@,
                None => Seq::empty(),
            },
            "      report bytes : in "@ + decimal(info.input_report_len as nat) + ", out "@
                + decimal(info.output_report_len as nat) + ", feature "@ + decimal(
                info.feature_report_len as nat,
            ),
        ],
        None => {
            let reason = match d.open_error {
                Some(code) => "error "@ + decimal(code as nat),
                None => "unknown error"@,
            };
            match device_vid_pid(d) {
                Some((vid, pid)) => seq![
                    entry_number(number) + " "@ + hex_dec_text(vid) + ":"@ + hex_dec_text(pid)
                        + "  <not readable: "@ + reason + ">"@,
                ],
                None => seq![entry_number(number) + " <not readable: "@ + reason + ">"@],
            }
        },
    };
    top + seq![
        "      device desc  : "@ + or_dash(d.device_desc),
        "      instance id  : "@ + or_dash(d.instance_id),
        "      path         : "@ + d.path@,
    ]
}

/// A labelled line whose value is an optional string, `-` when absent.
fn labelled(label: &str, value: &Option<String>) -> (line: String)
    ensures
        line@ == label@ + or_dash(*value),
{
    let mut line = String::from_str(label);
    match value {
        Some(v) => line.append(v.as_str()),
        None => line.append("-"),
    }
    line
}

/// The lines of one numbered interface entry (`--detail` mode).
pub fn device_report(number: usize, device: &HidDevice) -> (lines: Vec<String>)
    ensures
        lines_view(lines@) == device_lines(number, *device),
{
    let mut lines: Vec<String> = Vec::new();
    let mut head = String::from_str("[");
    head.append(padded_decimal(number as u64, 3).as_str());
    head.append("]");
    assert(head@ =~= entry_number(number));
    match &device.info {
        Some(info) => {
            head.append(" ");
            head.append(hex_dec(info.vendor_id).as_str());
            head.append(":");
            head.append(hex_dec(info.product_id).as_str());
            head.append(" rev ");
            let version = info.version;
            assert((version >> 8) == version / 256) by (bit_vector);
            assert((version & 0xFF) == version % 256) by (bit_vector);
            push_hex(&mut head, (version >> 8) as u64);
            head.append(".");
            head.append(padded_hex((version & 0xFF) as u64, 2).as_str());
            let ghost l1 = head@;
            lines.push(head);
            lines.push(labelled("      product      : ", &info.product));
            lines.push(labelled("      manufacturer : ", &info.manufacturer));
            lines.push(labelled("      serial       : ", &info.serial_number));
            let mut usage = String::from_str("      usage        : ");
            usage.append(hex_dec(info.usage_page).as_str());
            usage.append(":");
            usage.append(hex_dec(info.usage).as_str());
            let ghost before_name = usage@;
            match describe(info.usage_page, info.usage) {
                Some(name) => {
                    usage.append("  (");
                    usage.append(name.as_str());
                    usage.append(")");
                    assert(usage@ =~= before_name + ("  ("@ + name@ + ")"@));
                },
                None => {
                    assert(usage@ =~= before_name + Seq::<char>::empty());
                },
            }
            let ghost l5 = usage@;
            lines.push(usage);
            let mut sizes = String::from_str("      report bytes : in ");
            push_decimal(&mut sizes, info.input_report_len as u64);
            sizes.append(", out ");
            push_decimal(&mut sizes, info.output_report_len as u64);
            sizes.append(", feature ");
            push_decimal(&mut sizes, info.feature_report_len as u64);
            let ghost l6 = sizes@;
            lines.push(sizes);
            proof {
                let ghost expect = device_lines(number, *device);
                assert(l1 =~= expect[0]);
                assert(l5 =~= expect[4]);
                assert(l6 =~= expect[5]);
                assert(lines_view(lines@) =~= expect.subrange(0, 6));
            }
        },
        None => {
            let mut reason = String::new();
            match device.open_error {
                Some(code) => {
                    reason.append("error ");
                    push_decimal(&mut reason, code as u64);
                },
                None => {
                    reason.append("unknown error");
                },
            }
            match device.vendor_product_id() {
                Some((vid, pid)) => {
                    head.append(" ");
                    head.append(hex_dec(vid).as_str());
                    head.append(":");
                    head.append(hex_dec(pid).as_str());
                    head.append("  <not readable: ");
                },
                None => {
                    head.append(" <not readable: ");
                },
            }
            head.append(reason.as_str());
            head.append(">");
            let ghost l1 = head@;
            lines.push(head);
            proof {
                let ghost expect = device_lines(number, *device);
                assert(l1 =~= expect[0]);
                assert(lines_view(lines@) =~= expect.subrange(0, 1));
            }
        },
    }
    lines.push(labelled("      device desc  : ", &device.device_desc));
    lines.push(labelled("      instance id  : ", &device.instance_id));
    let mut path = String::from_str("      path         : ");
    path.append(device.path.as_str());
    lines.push(path);
    assert(lines_view(lines@) =~= device_lines(number, *device));
    lines
}

/// The lines that open the listing: a note when nothing matched; otherwise
/// the device and interface counts ("matched" once a filter is in play,
/// "present" otherwise), how many interfaces could not be opened when any
/// could not, and a blank line.
pub open spec fn header_lines(groups: nat, ds: Seq<HidDevice>, filtered: bool) -> Seq<Seq<char>> {
    if ds.len() == 0 {
        seq!["No matching HID devices present."@]
    } else {
        let verb = if filtered {
            "matched"@
        } else {
            "present"@
        };
        let counts = decimal(groups) + " device(s), "@ + decimal(ds.len()) + " interface(s) "@ + verb
            + "."@;
        let unreadable = unreadable_count(ds);
        if unreadable > 0 {
            seq![
                counts,
                decimal(unreadable) + " interface(s) could not be opened for querying."@,
                Seq::empty(),
            ]
        } else {
            seq![counts, Seq::empty()]
        }
    }
}

/// The opening lines of the listing of `devices`, grouped into `groups`
/// physical devices.
pub fn listing_header(groups: usize, devices: &[HidDevice], filtered: bool) -> (lines: Vec<String>)
    ensures
        lines_view(lines@) == header_lines(groups as nat, devices@, filtered),
{
    let mut lines: Vec<String> = Vec::new();
    if devices.len() == 0 {
        lines.push(String::from_str("No matching HID devices present."));
        assert(lines_view(lines@) =~= header_lines(groups as nat, devices@, filtered));
        return lines;
    }
    let mut counts = String::new();
    push_decimal(&mut counts, groups as u64);
    counts.append(" device(s), ");
    push_decimal(&mut counts, devices.len() as u64);
    counts.append(" interface(s) ");
    counts.append(if filtered { "matched" } else { "present" });
    counts.append(".");
    lines.push(counts);
    let mut unreadable: usize = 0;
    let mut i: usize = 0;
    while i < devices.len()
        invariant
            i <= devices@.len(),
            unreadable <= i,
            unreadable == unreadable_count(devices@.subrange(0, i as int)),
        decreases devices@.len() - i,
    {
        assert(devices@.subrange(0, i + 1).drop_last() =~= devices@.subrange(0, i as int));
        if devices[i].info.is_none() {
            unreadable = unreadable + 1;
        }
        i = i + 1;
    }
    assert(devices@.subrange(0, i as int) =~= devices@);
    if unreadable > 0 {
        let mut note = String::new();
        push_decimal(&mut note, unreadable as u64);
        note.append(" interface(s) could not be opened for querying.");
        lines.push(note);
    }
    lines.push(String::new());
    assert(lines_view(lines@) =~= header_lines(groups as nat, devices@, filtered));
    lines
}

/// The detailed listing: every interface's entry, numbered from 1, with a
/// blank line between entries.
pub open spec fn detail_text(ds: Seq<HidDevice>) -> Seq<Seq<char>>
    decreases ds.len(),
{
    if ds.len() == 0 {
        Seq::empty()
    } else {
        let prev = detail_text(ds.drop_last());
        (if ds.len() > 1 {
            prev.push(Seq::empty())
        } else {
            prev
        }) + device_lines(ds.len() as usize, ds.last())
    }
}

/// The grouped listing: the summary of every physical device, in order.
pub open spec fn summary_text(rs: Seq<(Option<(u16, u16)>, Seq<HidDevice>)>, pid_only: bool) -> Seq<Seq<char>>
    decreases rs.len(),
{
    if rs.len() == 0 {
        Seq::empty()
    } else {
        let g = rs.last();
        summary_text(rs.drop_last(), pid_only) + group_lines(group_label(g.1), g.0, g.1, pid_only)
    }
}

/// Everything the lister prints for the devices `ds`, already filtered and
/// ordered: the header, then the detailed or the grouped listing. With a
/// vendor filter the grouped listing shows PIDs only.
pub open spec fn listing_text(ds: Seq<HidDevice>, args: Args) -> Seq<Seq<char>> {
    header_lines(runs(ds).len(), ds, args.vid is Some || args.pid is Some) + if args.detail {
        detail_text(ds)
    } else {
        summary_text(runs(ds), args.vid is Some)
    }
}

/// The whole listing of the enumerated `devices`: filtered by `args`, sorted
/// into listing order, grouped by physical device, and printed in the detailed
/// or the grouped form.
pub fn listing(devices: Vec<HidDevice>, args: &Args) -> (lines: Vec<String>)
    requires
        devices@.len() * 2 < usize::MAX,
    ensures
        exists|ds: Seq<HidDevice>|
            stably_sorted(ds, kept(devices@, *args)) && lines_view(lines@) == #[trigger] listing_text(
                ds,
                *args,
            ),
{
    let mut ds = filter_devices(devices, args);
    proof {
        crate::order::lemma_retained_len(devices@, args.vid, args.pid);
    }
    sort_devices(&mut ds);
    let groups = group_by_product(ds.as_slice());
    let ghost rs = runs(ds@);
    assert(groups_view(groups@).len() == groups@.len());
    let mut lines = listing_header(groups.len(), ds.as_slice(), args.has_filter());
    let ghost header = lines_view(lines@);
    if args.detail {
        let mut k: usize = 0;
        while k < ds.len()
            invariant
                k <= ds@.len(),
                lines_view(lines@) == header + detail_text(ds@.subrange(0, k as int)),
            decreases ds@.len() - k,
        {
            let ghost before = lines_view(lines@);
            let ghost prefix = ds@.subrange(0, k + 1);
            assert(prefix.drop_last() =~= ds@.subrange(0, k as int));
            if k > 0 {
                lines.push(String::new());
            }
            let mut entry = device_report(k + 1, &ds[k]);
            let ghost mid = lines_view(lines@);
            lines.append(&mut entry);
            proof {
                assert(lines_view(lines@) =~= mid + device_lines((k + 1) as usize, ds@[k as int]));
                if k > 0 {
                    assert(mid =~= before.push(Seq::empty()));
                }
                assert(lines_view(lines@) =~= header + detail_text(prefix));
            }
            k = k + 1;
        }
        assert(ds@.subrange(0, k as int) =~= ds@);
    } else {
        let pid_only = args.vid.is_some();
        let mut g: usize = 0;
        while g < groups.len()
            invariant
                g <= groups@.len(),
                groups_view(groups@) == rs,
                crate::cli::is_grouping(groups@, ds@),
                ds@.len() * 2 < usize::MAX,
                lines_view(lines@) == header + summary_text(rs.subrange(0, g as int), pid_only),
            decreases groups@.len() - g,
        {
            let members = groups[g].1.as_slice();
            proof {
                crate::cli::lemma_group_size(groups@, ds@, g as int);
            }
            let mut summary = group_report(groups[g].0, members, pid_only);
            let ghost mid = lines_view(lines@);
            lines.append(&mut summary);
            proof {
                let prefix = rs.subrange(0, g + 1);
                assert(prefix.drop_last() =~= rs.subrange(0, g as int));
                assert(prefix.last() == rs[g as int]);
                assert(rs[g as int] == (groups@[g as int].0, derefs(groups@[g as int].1@)));
                let gl = group_lines(
                    group_label(derefs(groups@[g as int].1@)),
                    groups@[g as int].0,
                    derefs(groups@[g as int].1@),
                    pid_only,
                );
                assert(lines_view(lines@) =~= mid + gl);
                assert(summary_text(prefix, pid_only) == summary_text(rs.subrange(0, g as int), pid_only) + gl);
                assert(lines_view(lines@) =~= header + summary_text(prefix, pid_only));
            }
            g = g + 1;
        }
        assert(rs.subrange(0, g as int) =~= rs);
    }
    assert(lines_view(lines@) == listing_text(ds@, *args));
    lines
}


/// The summary of runs `rs` has two lines per run, and its line `2 g` is the
/// name-and-ID line of run `g`.
proof fn lemma_summary_lines(rs: Seq<(Option<(u16, u16)>, Seq<HidDevice>)>, pid_only: bool, g: int)
    requires
        0 <= g < rs.len(),
    ensures
        summary_text(rs, pid_only).len() == 2 * rs.len(),
        summary_text(rs, pid_only)[2 * g] == group_label(rs[g].1) + " ("@ + group_id_text(
            rs[g].0,
            pid_only,
        ) + ")"@,
    decreases rs.len(),
{
    let prev = rs.drop_last();
    if g < prev.len() {
        lemma_summary_lines(prev, pid_only, g);
        assert(prev[g] == rs[g]);
    } else if prev.len() > 0 {
        lemma_summary_lines(prev, pid_only, 0);
    }
}

/// In the grouped listing every physical device's first line is its name and
/// ID, and the ID drops the VID exactly when a vendor filter is set (the VID is
/// then the same on every line): with no vendor filter, whatever the product
/// filter, a device keyed `(v, p)` shows `(0x<v>:0x<p>)`; under a vendor filter
/// it shows `(0x<p>)`; a device with no recoverable VID/PID shows `(????)`.
pub proof fn grouped_ids_drop_the_vid_only_under_a_vendor_filter(ds: Seq<HidDevice>, args: Args, g: int)
    requires
        !args.detail,
        0 <= g < runs(ds).len(),
    ensures
        ({
            let lines = listing_text(ds, args);
            let h = header_lines(runs(ds).len(), ds, args.vid is Some || args.pid is Some).len();
            let key = runs(ds)[g].0;
            let name = group_label(runs(ds)[g].1);
            &&& lines.len() == h + 2 * runs(ds).len()
            &&& args.vid is None ==> (key matches Some((v, p)) ==> lines[h + 2 * g] == name + " (0x"@
                + pad_left(hex_upper(v as nat), 4, '0') + ":0x"@ + pad_left(hex_upper(p as nat), 4, '0')
                + ")"@)
            &&& args.vid is Some ==> (key matches Some((v, p)) ==> lines[h + 2 * g] == name + " (0x"@
                + pad_left(hex_upper(p as nat), 4, '0') + ")"@)
            &&& key is None ==> lines[h + 2 * g] == name + " (????)"@
        }),
{
    let rs = runs(ds);
    let pid_only = args.vid is Some;
    reveal_strlit(" (");
    reveal_strlit("0x");
    reveal_strlit(" (0x");
    reveal_strlit(":0x");
    reveal_strlit(")");
    lemma_summary_lines(rs, pid_only, g);
    let h = header_lines(rs.len(), ds, args.vid is Some || args.pid is Some);
    let lines = listing_text(ds, args);
    assert(lines == h + summary_text(rs, pid_only));
    assert(lines[h.len() + 2 * g] == summary_text(rs, pid_only)[2 * g]);
    let name = group_label(rs[g].1);
    match rs[g].0 {
        Some((v, p)) => {
            if pid_only {
                assert(name + " ("@ + group_id_text(rs[g].0, pid_only) + ")"@ =~= name + " (0x"@ + pad_left(
                    hex_upper(p as nat),
                    4,
                    '0',
                ) + ")"@);
            } else {
                assert(name + " ("@ + group_id_text(rs[g].0, pid_only) + ")"@ =~= name + " (0x"@ + pad_left(
                    hex_upper(v as nat),
                    4,
                    '0',
                ) + ":0x"@ + pad_left(hex_upper(p as nat), 4, '0') + ")"@);
            }
        },
        None => {
            reveal_strlit("????");
            reveal_strlit(" (????)");
            assert(name + " ("@ + group_id_text(rs[g].0, pid_only) + ")"@ =~= name + " (????)"@);
        },
    }
}

/// In the detailed entry of an opened interface, the usage line carries the
/// name of the usage page whenever the page is known, followed by the usage's
/// name when that is known too: `  (<page>)` or `  (<page> / <usage>)` after
/// the two IDs; an unknown page leaves just the IDs.
pub proof fn detail_usage_lines_name_every_known_page(number: usize, d: HidDevice)
    requires
        d.info is Some,
    ensures
        ({
            let i = d.info->0;
            let lines = device_lines(number, d);
            let ids = "      usage        : "@ + hex_dec_text(i.usage_page) + ":"@ + hex_dec_text(i.usage);
            &&& lines.len() == 9
            &&& page_label(i.usage_page) is None ==> lines[4] == ids
            &&& page_label(i.usage_page) matches Some(page) ==> (usage_label(
                i.usage_page,
                i.usage,
            ) matches Some(u) ==> lines[4] == ids + "  ("@ + page + " / "@ + u + ")"@)
            &&& page_label(i.usage_page) matches Some(page) ==> (usage_label(i.usage_page, i.usage) is None
                ==> lines[4] == ids + "  ("@ + page + ")"@)
        }),
{
    let i = d.info->0;
    let ids = "      usage        : "@ + hex_dec_text(i.usage_page) + ":"@ + hex_dec_text(i.usage);
    crate::usage::descriptions_start_with_the_page(i.usage_page, i.usage);
    let lines = device_lines(number, d);
    match description(i.usage_page, i.usage) {
        Some(name) => {
            assert(lines[4] == ids + ("  ("@ + name + ")"@));
            assert(ids + ("  ("@ + name + ")"@) =~= ids + "  ("@ + name + ")"@);
            match usage_label(i.usage_page, i.usage) {
                Some(u) => {
                    let page = page_label(i.usage_page)->0;
                    assert(name == page + " / "@ + u);
                    assert(ids + "  ("@ + name + ")"@ =~= ids + "  ("@ + page + " / "@ + u + ")"@);
                },
                None => {},
            }
        },
        None => {
            assert(lines[4] == ids + Seq::<char>::empty());
            assert(ids + Seq::<char>::empty() =~= ids);
        },
    }
}

} // verus!
