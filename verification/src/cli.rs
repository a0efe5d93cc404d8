//! The lister's command line, and the grouping of interfaces into physical
//! devices with the name each group is shown under.
use vstd::prelude::*;
use vstd::string::*;

use crate::hid::{device_vid_pid, HidDevice};
use crate::order::{sorted, sorted_keeps_products_together};
use crate::text::{
    ascii_bytes, decimal, hex_upper, lemma_ascii_encoding, pad_left, spelled_numbers_parse_back,
    ascii_lowercase, chars_of, has_prefix, parse_u16, same_text, same_text_ignoring_ascii_case,
    starts_with_text, u16_from_radix,
};

verus! {

/// ASUSTek Computer Inc.'s USB vendor ID, selected by the `asus` shorthand.
pub const ASUS_VID: u16 = 0x0B05;

/// The usage text appended to every command-line error.
pub const USAGE: &'static str = "usage: hidctl [--vid <id>] [--pid <id>] [asus] [--detail]\nids are decimal unless prefixed with 0x, e.g. 2821 or 0x0B05";

/// Parsed command line.
pub struct Args {
    /// Only list devices from this vendor ID; `None` matches any vendor.
    pub vid: Option<u16>,
    /// Only list devices with this product ID; `None` matches any product.
    pub pid: Option<u16>,
    /// Print the full per-interface dump instead of the grouped summary.
    pub detail: bool,
}

impl Args {
    /// Whether any device filter was requested.
    pub fn has_filter(&self) -> (r: bool)
        ensures
            r == (self.vid is Some || self.pid is Some),
    {
        self.vid.is_some() || self.pid.is_some()
    }
}

/// The bytes of an identifier start with `0x` or `0X`.
pub open spec fn hex_prefixed(b: Seq<u8>) -> bool {
    b.len() >= 2 && b[0] == 48 && (b[1] == 120 || b[1] == 88)
}

/// The identifier an argument spells: hex after a `0x`/`0X` prefix, decimal otherwise.
pub open spec fn id_value(b: Seq<u8>) -> Option<u16> {
    if hex_prefixed(b) {
        parse_u16(b.subrange(2, b.len() as int), 16)
    } else {
        parse_u16(b, 10)
    }
}

/// The message for an identifier that does not parse.
pub open spec fn id_error(value: Seq<char>, kind: Seq<char>) -> Seq<char> {
    "invalid "@ + kind + " id '"@ + value + "', expected decimal (2821) or hex (0x0B05)"@
}

/// Parses a vendor or product ID given in either base: a `0x`/`0X` prefix
/// selects hex, anything else is read as decimal. `kind` only shapes the
/// error message.
pub fn parse_id(value: &str, kind: &str) -> (r: Result<u16, String>)
    ensures
        match r {
            Ok(v) => id_value(value.spec_bytes()) == Some(v),
            Err(e) => id_value(value.spec_bytes()) is None && e@ == id_error(value@, kind@),
        },
{
    let b = value.as_bytes();
    let parsed = if b.len() >= 2 && b[0] == 48u8 && (b[1] == 120u8 || b[1] == 88u8) {
        u16_from_radix(b, 2, b.len(), 16)
    } else {
        proof {
            assert(b@.subrange(0, b@.len() as int) =~= b@);
        }
        u16_from_radix(b, 0, b.len(), 10)
    };
    match parsed {
        Some(v) => Ok(v),
        None => {
            let mut e = String::from_str("invalid ");
            e.append(kind);
            e.append(" id '");
            e.append(value);
            e.append("', expected decimal (2821) or hex (0x0B05)");
            Err(e)
        },
    }
}

/// An identifier as the detailed listing prints it can be typed back in
/// either base: its zero-filled hex form `0x0B05` and its decimal form `2821`
/// both parse to the value printed.
pub proof fn printed_ids_parse_back(v: u16)
    ensures
        id_value(vstd::utf8::encode_utf8("0x"@ + pad_left(hex_upper(v as nat), 4, '0'))) == Some(v),
        id_value(vstd::utf8::encode_utf8(decimal(v as nat))) == Some(v),
{
    spelled_numbers_parse_back(v, 4);
    reveal_strlit("0x");
    let padded = pad_left(hex_upper(v as nat), 4, '0');
    let text = "0x"@ + padded;
    assert forall|i: int| 0 <= i < text.len() implies (#[trigger] text[i] as u32) < 128 by {
        if i >= 2 {
            assert(text[i] == padded[i - 2]);
        }
    }
    lemma_ascii_encoding(text);
    let b = vstd::utf8::encode_utf8(text);
    assert(b.subrange(2, b.len() as int) =~= ascii_bytes(padded));
    assert(hex_prefixed(b));
    let d = vstd::utf8::encode_utf8(decimal(v as nat));
    if d.len() >= 2 {
        assert(d[1] == ascii_bytes(decimal(v as nat))[1]);
        assert(crate::text::digit_value(d[1]) < 10);
    }
}

/// The message for a flag given without its value.
pub open spec fn missing_value_error(flag: Seq<char>) -> Seq<char> {
    flag + " needs a hex id\n"@ + USAGE@
}

/// Pulls the value that follows a `--flag value` style argument: `args[next]`.
pub fn take_value(flag: &str, args: &Vec<String>, next: usize) -> (r: Result<String, String>)
    ensures
        match r {
            Ok(v) => next < args@.len() && v == args@[next as int],
            Err(e) => next >= args@.len() && e@ == missing_value_error(flag@),
        },
{
    if next < args.len() {
        Ok(args[next].clone())
    } else {
        let mut e = String::from_str(flag);
        e.append(" needs a hex id\n");
        e.append(USAGE);
        Err(e)
    }
}

/// Index of the first `=` in a character sequence, or its length.
pub open spec fn first_equals(s: Seq<char>, i: nat) -> nat
    decreases s.len() - i,
{
    if i >= s.len() {
        s.len()
    } else if s[i as int] == '=' {
        i
    } else {
        first_equals(s, i + 1)
    }
}

/// Splits the value out of a `--flag=value` style argument: everything after
/// the first `=`.
pub fn inline_value(arg: &str) -> (value: &str)
    requires
        first_equals(arg@, 0) < arg@.len(),
    ensures
        value@ == arg@.subrange(first_equals(arg@, 0) + 1int, arg@.len() as int),
{
    let cs = chars_of(arg);
    let mut i: usize = 0;
    while i < cs.len()
        invariant
            cs@ == arg@,
            i <= cs@.len(),
            first_equals(arg@, 0) == first_equals(arg@, i as nat),
        decreases cs@.len() - i,
    {
        if cs[i] == '=' {
            return arg.substring_char(i + 1, cs.len());
        }
        i = i + 1;
    }
    arg.substring_char(cs.len(), cs.len())
}

/// The message for an argument that is none of the known ones.
pub open spec fn unexpected_error(arg: Seq<char>) -> Seq<char> {
    "unexpected argument '"@ + arg + "'\n"@ + USAGE@
}

/// What an identifier argument `value` makes of the parse so far: a vendor
/// (`vendor`) or product filter, or the error naming the value.
pub open spec fn with_id(acc: Args, value: Seq<char>, vendor: bool) -> Result<Args, Seq<char>> {
    match id_value(vstd::utf8::encode_utf8(value)) {
        Some(id) => Ok(
            if vendor {
                Args { vid: Some(id), pid: acc.pid, detail: acc.detail }
            } else {
                Args { vid: acc.vid, pid: Some(id), detail: acc.detail }
            },
        ),
        None => Err(id_error(value, if vendor { "vendor"@ } else { "product"@ })),
    }
}

/// The command line `args[i..]`, parsed on top of `acc`, left to right: flags
/// may repeat and a later one overrides an earlier one; the first bad
/// argument ends the parse with its message.
pub open spec fn parse_args_from(args: Seq<String>, i: nat, acc: Args) -> Result<Args, Seq<char>>
    decreases args.len() - i,
{
    if i >= args.len() {
        Ok(acc)
    } else {
        let a = args[i as int]@;
        if a == "--detail"@ || a == "-d"@ {
            parse_args_from(args, i + 1, Args { vid: acc.vid, pid: acc.pid, detail: true })
        } else if a == "--vid"@ || a == "--pid"@ {
            if i + 1 >= args.len() {
                Err(missing_value_error(a))
            } else {
                match with_id(acc, args[i + 1int]@, a == "--vid"@) {
                    Ok(next) => parse_args_from(args, i + 2, next),
                    Err(e) => Err(e),
                }
            }
        } else if has_prefix(a, "--vid="@) || has_prefix(a, "--pid="@) {
            match with_id(acc, a.subrange(6, a.len() as int), has_prefix(a, "--vid="@)) {
                Ok(next) => parse_args_from(args, i + 1, next),
                Err(e) => Err(e),
            }
        } else if ascii_lowercase(a) == ascii_lowercase("asus"@) {
            parse_args_from(args, i + 1, Args { vid: Some(ASUS_VID), pid: acc.pid, detail: acc.detail })
        } else {
            Err(unexpected_error(a))
        }
    }
}

/// The parse of a whole command line (program name excluded).
pub open spec fn parsed_args(args: Seq<String>) -> Result<Args, Seq<char>> {
    parse_args_from(args, 0, Args { vid: None, pid: None, detail: false })
}

/// The parse from position `i` depends only on the arguments from `i` on.
proof fn lemma_parse_suffix(x: Seq<String>, i: nat, y: Seq<String>, j: nat, acc: Args)
    requires
        i <= x.len(),
        j <= y.len(),
        x.subrange(i as int, x.len() as int) == y.subrange(j as int, y.len() as int),
    ensures
        parse_args_from(x, i, acc) == parse_args_from(y, j, acc),
    decreases x.len() - i,
{
    assert(x.subrange(i as int, x.len() as int).len() == x.len() - i);
    assert(y.subrange(j as int, y.len() as int).len() == y.len() - j);
    if i < x.len() {
        assert(x[i as int] == x.subrange(i as int, x.len() as int)[0]);
        assert(y[j as int] == y.subrange(j as int, y.len() as int)[0]);
        if i + 1 < x.len() {
            assert(x[i + 1int] == x.subrange(i as int, x.len() as int)[1]);
            assert(y[j + 1int] == y.subrange(j as int, y.len() as int)[1]);
        }
        assert(x.subrange(i + 1int, x.len() as int) =~= y.subrange(j + 1int, y.len() as int)) by {
            assert(x.subrange(i + 1int, x.len() as int) =~= x.subrange(i as int, x.len() as int).drop_first());
            assert(y.subrange(j + 1int, y.len() as int) =~= y.subrange(j as int, y.len() as int).drop_first());
        }
        if i + 2 <= x.len() {
            assert(x.subrange(i + 2int, x.len() as int) =~= y.subrange(j + 2int, y.len() as int)) by {
                assert(x.subrange(i + 2int, x.len() as int) =~= x.subrange(i as int, x.len() as int).skip(2));
                assert(y.subrange(j + 2int, y.len() as int) =~= y.subrange(j as int, y.len() as int).skip(2));
            }
        }
        let a = x[i as int]@;
        let f = Args { vid: acc.vid, pid: acc.pid, detail: true };
        lemma_parse_suffix(x, i + 1, y, j + 1, f);
        lemma_parse_suffix(x, i + 1, y, j + 1, Args { vid: Some(ASUS_VID), pid: acc.pid, detail: acc.detail });
        if i + 1 < x.len() {
            match with_id(acc, x[i + 1int]@, a == "--vid"@) {
                Ok(next) => {
                    if i + 2 <= x.len() {
                        lemma_parse_suffix(x, i + 2, y, j + 2, next);
                    }
                },
                Err(_) => {},
            }
        }
        match with_id(acc, a.subrange(6, a.len() as int), has_prefix(a, "--vid="@)) {
            Ok(next) => lemma_parse_suffix(x, i + 1, y, j + 1, next),
            Err(_) => {},
        }
    }
}

/// A filter value given as a separate argument (`--vid 0x0B05`) and one given
/// inline (`--vid=0x0B05`) parse the same, whatever the value and whatever follows.
pub proof fn separate_and_inline_values_agree(
    flag: String,
    value: String,
    joined: String,
    rest: Seq<String>,
    vendor: bool,
)
    requires
        flag@ == (if vendor { "--vid"@ } else { "--pid"@ }),
        joined@ == (if vendor { "--vid="@ } else { "--pid="@ }) + value@,
    ensures
        parsed_args(seq![flag, value] + rest) == parsed_args(seq![joined] + rest),
{
    reveal_strlit("--vid");
    reveal_strlit("--pid");
    reveal_strlit("--vid=");
    reveal_strlit("--pid=");
    reveal_strlit("--detail");
    reveal_strlit("-d");
    assert("--vid"@ =~= seq!['-', '-', 'v', 'i', 'd']);
    assert("--pid"@ =~= seq!['-', '-', 'p', 'i', 'd']);
    assert("--vid="@ =~= seq!['-', '-', 'v', 'i', 'd', '=']);
    assert("--pid="@ =~= seq!['-', '-', 'p', 'i', 'd', '=']);
    assert("--detail"@ =~= seq!['-', '-', 'd', 'e', 't', 'a', 'i', 'l']);
    assert("-d"@ =~= seq!['-', 'd']);
    let x = seq![flag, value] + rest;
    let y = seq![joined] + rest;
    let init = Args { vid: None, pid: None, detail: false };
    let j = joined@;
    assert(x[0] == flag);
    assert(x[1] == value);
    assert(y[0] == joined);
    assert(j[5] == '=');
    assert(j != "--detail"@ && j != "-d"@ && j != "--vid"@ && j != "--pid"@);
    assert(j.subrange(0, 6) =~= (if vendor { "--vid="@ } else { "--pid="@ }));
    if !vendor {
        assert(j.subrange(0, 6)[2] == 'p');
    }
    assert(j.subrange(6, j.len() as int) =~= value@);
    assert(has_prefix(j, "--vid="@) == vendor);
    assert(x.subrange(2, x.len() as int) =~= y.subrange(1, y.len() as int));
    assert(flag@ == "--vid"@ <==> vendor);
    match with_id(init, value@, vendor) {
        Ok(next) => lemma_parse_suffix(x, 2, y, 1, next),
        Err(_) => {},
    }
}

/// `asus`, in any letter case, is a shorthand for `--vid 0x0B05`, wherever it
/// stands and whatever follows.
pub proof fn asus_is_vendor_shorthand(alias: String, flag: String, value: String, rest: Seq<String>)
    requires
        ascii_lowercase(alias@) == ascii_lowercase("asus"@),
        flag@ == "--vid"@,
        value@ == "0x0B05"@,
    ensures
        parsed_args(seq![alias] + rest) == parsed_args(seq![flag, value] + rest),
{
    reveal_strlit("asus");
    reveal_strlit("--vid");
    reveal_strlit("--pid");
    reveal_strlit("--vid=");
    reveal_strlit("--pid=");
    reveal_strlit("--detail");
    reveal_strlit("-d");
    reveal_strlit("0x0B05");
    reveal_strlit("0x");
    let a = alias@;
    assert(ascii_lowercase(a).len() == 4);
    assert(a.len() == 4);
    assert(a != "--detail"@ && a != "-d"@ && a != "--vid"@ && a != "--pid"@) by {
        assert(ascii_lowercase(a)[0] == 'a');
        if a[0] == '-' {
            assert(crate::text::ascii_lower(a[0]) == '-');
        }
    }
    assert(!has_prefix(a, "--vid="@) && !has_prefix(a, "--pid="@));
    printed_ids_parse_back(0x0B05);
    assert(hex_upper(2821) =~= seq!['B', '0', '5']) by {
        reveal_with_fuel(hex_upper, 4);
    }
    assert(pad_left(hex_upper(2821), 4, '0') =~= seq!['0', 'B', '0', '5']);
    assert("0x"@ + pad_left(hex_upper(2821), 4, '0') =~= "0x0B05"@);
    let x = seq![alias] + rest;
    let y = seq![flag, value] + rest;
    assert(x[0] == alias);
    assert(y[0] == flag && y[1] == value);
    assert(x.subrange(1, x.len() as int) =~= y.subrange(2, y.len() as int));
    let next = Args { vid: Some(ASUS_VID), pid: None, detail: false };
    lemma_parse_suffix(x, 1, y, 2, next);
}

/// Each filter flag sets only its own filter: given valid IDs, `--vid v --pid p`
/// and `--pid p --vid v` parse the same, whatever follows, and on their own
/// both set the vendor filter to `v` and the product filter to `p`; after
/// `--detail` they leave the detailed mode set.
/// Each filter flag sets only its own filter: given valid IDs, `--vid v --pid p`
/// and `--pid p --vid v` parse the same, whatever follows, and on their own
/// both set the vendor filter to `v` and the product filter to `p`; after
/// `--detail` they leave the detailed mode set.
pub proof fn filter_flags_set_only_their_own_filter(
    vid_flag: String,
    vid_value: String,
    pid_flag: String,
    pid_value: String,
    detail_flag: String,
    rest: Seq<String>,
)
    requires
        vid_flag@ == "--vid"@,
        pid_flag@ == "--pid"@,
        detail_flag@ == "--detail"@,
        id_value(vstd::utf8::encode_utf8(vid_value@)) is Some,
        id_value(vstd::utf8::encode_utf8(pid_value@)) is Some,
    ensures
        parsed_args(seq![vid_flag, vid_value, pid_flag, pid_value] + rest) == parsed_args(
            seq![pid_flag, pid_value, vid_flag, vid_value] + rest,
        ),
        parsed_args(seq![vid_flag, vid_value, pid_flag, pid_value]) == Ok::<Args, Seq<char>>(
            Args {
                vid: id_value(vstd::utf8::encode_utf8(vid_value@)),
                pid: id_value(vstd::utf8::encode_utf8(pid_value@)),
                detail: false,
            },
        ),
        parsed_args(seq![detail_flag, pid_flag, pid_value, vid_flag, vid_value]) == Ok::<Args, Seq<char>>(
            Args {
                vid: id_value(vstd::utf8::encode_utf8(vid_value@)),
                pid: id_value(vstd::utf8::encode_utf8(pid_value@)),
                detail: true,
            },
        ),
{
    let both = Args {
        vid: id_value(vstd::utf8::encode_utf8(vid_value@)),
        pid: id_value(vstd::utf8::encode_utf8(pid_value@)),
        detail: false,
    };
    let x = seq![vid_flag, vid_value, pid_flag, pid_value] + rest;
    let y = seq![pid_flag, pid_value, vid_flag, vid_value] + rest;
    lemma_two_filters(vid_flag, vid_value, pid_flag, pid_value, rest, true);
    lemma_two_filters(pid_flag, pid_value, vid_flag, vid_value, rest, false);
    lemma_two_filters(vid_flag, vid_value, pid_flag, pid_value, Seq::empty(), true);
    assert(seq![vid_flag, vid_value, pid_flag, pid_value] + Seq::<String>::empty() =~= seq![
        vid_flag,
        vid_value,
        pid_flag,
        pid_value,
    ]);
    assert(x.subrange(4, x.len() as int) =~= y.subrange(4, y.len() as int));
    lemma_parse_suffix(x, 4, y, 4, both);
    lemma_detail_then_filters(vid_flag, vid_value, pid_flag, pid_value, detail_flag);
}

/// A vendor and a product flag with valid values, in either order, set both
/// filters before the rest is parsed.
proof fn lemma_two_filters(
    first_flag: String,
    first_value: String,
    second_flag: String,
    second_value: String,
    rest: Seq<String>,
    vendor_first: bool,
)
    requires
        first_flag@ == (if vendor_first { "--vid"@ } else { "--pid"@ }),
        second_flag@ == (if vendor_first { "--pid"@ } else { "--vid"@ }),
        id_value(vstd::utf8::encode_utf8(first_value@)) is Some,
        id_value(vstd::utf8::encode_utf8(second_value@)) is Some,
    ensures
        ({
            let a = id_value(vstd::utf8::encode_utf8(first_value@));
            let b = id_value(vstd::utf8::encode_utf8(second_value@));
            let x = seq![first_flag, first_value, second_flag, second_value] + rest;
            parsed_args(x) == parse_args_from(
                x,
                4,
                if vendor_first {
                    Args { vid: a, pid: b, detail: false }
                } else {
                    Args { vid: b, pid: a, detail: false }
                },
            )
        }),
{
    reveal_strlit("--vid");
    reveal_strlit("--pid");
    reveal_strlit("--detail");
    reveal_strlit("-d");
    assert("--vid"@ =~= seq!['-', '-', 'v', 'i', 'd']);
    assert("--pid"@ =~= seq!['-', '-', 'p', 'i', 'd']);
    assert("--detail"@ =~= seq!['-', '-', 'd', 'e', 't', 'a', 'i', 'l']);
    assert("-d"@ =~= seq!['-', 'd']);
    let a = id_value(vstd::utf8::encode_utf8(first_value@));
    let b = id_value(vstd::utf8::encode_utf8(second_value@));
    let x = seq![first_flag, first_value, second_flag, second_value] + rest;
    assert(x[0] == first_flag && x[1] == first_value && x[2] == second_flag && x[3] == second_value);
    let init = Args { vid: None, pid: None, detail: false };
    let one = if vendor_first {
        Args { vid: a, pid: None, detail: false }
    } else {
        Args { vid: None, pid: a, detail: false }
    };
    let two = if vendor_first {
        Args { vid: a, pid: b, detail: false }
    } else {
        Args { vid: b, pid: a, detail: false }
    };
    assert(with_id(init, first_value@, vendor_first) == Ok::<Args, Seq<char>>(one));
    assert(with_id(one, second_value@, !vendor_first) == Ok::<Args, Seq<char>>(two));
    assert(parse_args_from(x, 0, init) == parse_args_from(x, 2, one));
    assert(parse_args_from(x, 2, one) == parse_args_from(x, 4, two));
}

proof fn lemma_detail_then_filters(
    vid_flag: String,
    vid_value: String,
    pid_flag: String,
    pid_value: String,
    detail_flag: String,
)
    requires
        vid_flag@ == "--vid"@,
        pid_flag@ == "--pid"@,
        detail_flag@ == "--detail"@,
        id_value(vstd::utf8::encode_utf8(vid_value@)) is Some,
        id_value(vstd::utf8::encode_utf8(pid_value@)) is Some,
    ensures
        parsed_args(seq![detail_flag, pid_flag, pid_value, vid_flag, vid_value]) == Ok::<Args, Seq<char>>(
            Args {
                vid: id_value(vstd::utf8::encode_utf8(vid_value@)),
                pid: id_value(vstd::utf8::encode_utf8(pid_value@)),
                detail: true,
            },
        ),
{
    reveal_strlit("--vid");
    reveal_strlit("--pid");
    reveal_strlit("--detail");
    reveal_strlit("-d");
    assert("--vid"@ =~= seq!['-', '-', 'v', 'i', 'd']);
    assert("--pid"@ =~= seq!['-', '-', 'p', 'i', 'd']);
    assert("--detail"@ =~= seq!['-', '-', 'd', 'e', 't', 'a', 'i', 'l']);
    assert("-d"@ =~= seq!['-', 'd']);
    let v = id_value(vstd::utf8::encode_utf8(vid_value@))->0;
    let p = id_value(vstd::utf8::encode_utf8(pid_value@))->0;
    let init = Args { vid: None, pid: None, detail: false };
    let w = seq![detail_flag, pid_flag, pid_value, vid_flag, vid_value];
    assert(w[0] == detail_flag && w[1] == pid_flag && w[2] == pid_value && w[3] == vid_flag && w[4]
        == vid_value);
    let detailed = Args { vid: None, pid: None, detail: true };
    let detailed_pid = Args { vid: None, pid: Some(p), detail: true };
    let all = Args { vid: Some(v), pid: Some(p), detail: true };
    assert(with_id(detailed, pid_value@, false) == Ok::<Args, Seq<char>>(detailed_pid));
    assert(with_id(detailed_pid, vid_value@, true) == Ok::<Args, Seq<char>>(all));
    assert(parse_args_from(w, 0, init) == parse_args_from(w, 1, detailed));
    assert(parse_args_from(w, 1, detailed) == parse_args_from(w, 3, detailed_pid));
    assert(parse_args_from(w, 3, detailed_pid) == parse_args_from(w, 5, all));
}

/// Parses the command line (without the program name) into [`Args`].
pub fn parse_args(args: &Vec<String>) -> (r: Result<Args, String>)
    ensures
        match r {
            Ok(a) => parsed_args(args@) == Ok::<Args, Seq<char>>(a),
            Err(e) => parsed_args(args@) == Err::<Args, Seq<char>>(e@),
        },
{
    let mut acc = Args { vid: None, pid: None, detail: false };
    let mut i: usize = 0;
    proof {
        reveal_strlit("--vid=");
        reveal_strlit("--pid=");
    }
    while i < args.len()
        invariant
            i <= args@.len(),
            parsed_args(args@) == parse_args_from(args@, i as nat, acc),
            "--vid="@ == seq!['-', '-', 'v', 'i', 'd', '='],
            "--pid="@ == seq!['-', '-', 'p', 'i', 'd', '='],
        decreases args@.len() - i,
    {
        let arg = args[i].as_str();
        if same_text(arg, "--detail") || same_text(arg, "-d") {
            acc.detail = true;
            i = i + 1;
        } else if same_text(arg, "--vid") || same_text(arg, "--pid") {
            let vendor = same_text(arg, "--vid");
            let value = match take_value(arg, args, i + 1) {
                Ok(v) => v,
                Err(e) => return Err(e),
            };
            let kind = if vendor { "vendor" } else { "product" };
            match parse_id(value.as_str(), kind) {
                Ok(id) => {
                    if vendor {
                        acc.vid = Some(id);
                    } else {
                        acc.pid = Some(id);
                    }
                },
                Err(e) => return Err(e),
            }
            i = i + 2;
        } else if starts_with_text(arg, "--vid=") || starts_with_text(arg, "--pid=") {
            let vendor = starts_with_text(arg, "--vid=");
            proof {
                let a = arg@;
                assert(a[5] == '=');
                assert(first_equals(a, 0) == 5) by {
                    reveal_with_fuel(first_equals, 7);
                }
            }
            let value = inline_value(arg);
            let kind = if vendor { "vendor" } else { "product" };
            match parse_id(value, kind) {
                Ok(id) => {
                    if vendor {
                        acc.vid = Some(id);
                    } else {
                        acc.pid = Some(id);
                    }
                },
                Err(e) => return Err(e),
            }
            i = i + 1;
        } else if same_text_ignoring_ascii_case(arg, "asus") {
            acc.vid = Some(ASUS_VID);
            i = i + 1;
        } else {
            let mut e = String::from_str("unexpected argument '");
            e.append(arg);
            e.append("'\n");
            e.append(USAGE);
            return Err(e);
        }
    }
    Ok(acc)
}

/// A name Windows generated rather than the vendor: it starts with "HID" in
/// any case ("HID-compliant mouse", "HID Keyboard Device", "HIDI2C Device").
pub open spec fn generic_name(s: Seq<char>) -> bool {
    &&& s.len() >= 3
    &&& (s[0] == 'H' || s[0] == 'h')
    &&& (s[1] == 'I' || s[1] == 'i')
    &&& (s[2] == 'D' || s[2] == 'd')
}

/// `needle` occurs somewhere in `hay`.
pub open spec fn contains_text(hay: Seq<char>, needle: Seq<char>) -> bool {
    exists|i: int| 0 <= i && i + needle.len() <= hay.len() && #[trigger] hay.subrange(i, i + needle.len()) == needle
}

/// An auto-generated name of a private vendor data channel.
pub open spec fn vendor_defined_name(s: Seq<char>) -> bool {
    contains_text(ascii_lowercase(s), "vendor-defined"@)
}

/// Whether a name looks auto-generated by Windows rather than chosen by the vendor.
pub fn is_generic_name(name: &str) -> (r: bool)
    ensures
        r == generic_name(name@),
{
    let cs = chars_of(name);
    cs.len() >= 3 && (cs[0] == 'H' || cs[0] == 'h') && (cs[1] == 'I' || cs[1] == 'i') && (cs[2]
        == 'D' || cs[2] == 'd')
}

/// Whether an auto-generated name is one of the "vendor-defined" ones.
pub fn is_vendor_defined_name(name: &str) -> (r: bool)
    ensures
        r == vendor_defined_name(name@),
{
    let cs = chars_of(name);
    let pattern = chars_of("vendor-defined");
    let ghost lowered = ascii_lowercase(name@);
    if pattern.len() > cs.len() {
        return false;
    }
    let last = cs.len() - pattern.len();
    let mut i: usize = 0;
    loop
        invariant
            cs@ == name@,
            pattern@ == "vendor-defined"@,
            lowered == ascii_lowercase(name@),
            last == cs@.len() - pattern@.len(),
            i <= last,
            forall|j: int|
                0 <= j < i ==> #[trigger] lowered.subrange(j, j + pattern@.len()) != pattern@,
        decreases last - i,
    {
        let mut k: usize = 0;
        let mut matched = true;
        while k < pattern.len()
            invariant
                cs@ == name@,
                lowered == ascii_lowercase(name@),
                i + pattern@.len() <= cs.len(),
                k <= pattern@.len(),
                matched == (forall|m: int| 0 <= m < k ==> lowered[i + m] == pattern@[m]),
            decreases pattern@.len() - k,
        {
            if crate::text::lower_char(cs[i + k]) != pattern[k] {
                matched = false;
            }
            k = k + 1;
        }
        if matched {
            assert(lowered.subrange(i as int, i + pattern@.len()) =~= pattern@);
            return true;
        }
        assert(lowered.subrange(i as int, i + pattern@.len()) != pattern@) by {
            let m = choose|m: int| 0 <= m < pattern@.len() && lowered[i + m] != pattern@[m];
            assert(lowered.subrange(i as int, i + pattern@.len())[m] != pattern@[m]);
        }
        if i == last {
            return false;
        }
        i = i + 1;
    }
}

/// The names one interface carries: its device description, then its HID
/// product string, each when present.
pub open spec fn interface_names(d: HidDevice) -> Seq<Seq<char>> {
    let desc = match d.device_desc {
        Some(s) => seq![s@],
        None => Seq::empty(),
    };
    let product = match d.info {
        Some(i) => match i.product {
            Some(p) => seq![p@],
            None => Seq::empty(),
        },
        None => Seq::empty(),
    };
    desc + product
}

/// The devices behind a sequence of references.
pub open spec fn derefs(ds: Seq<&HidDevice>) -> Seq<HidDevice> {
    ds.map_values(|d: &HidDevice| *d)
}

/// All names of a group of interfaces, in order.
pub open spec fn all_names(ds: Seq<HidDevice>) -> Seq<Seq<char>>
    decreases ds.len(),
{
    if ds.len() == 0 {
        Seq::empty()
    } else {
        all_names(ds.drop_last()) + interface_names(ds.last())
    }
}

/// Position of `name` in a tally, searching from `k`.
pub open spec fn tally_position(t: Seq<(Seq<char>, nat)>, name: Seq<char>, k: nat) -> Option<nat>
    decreases t.len() - k,
{
    if k >= t.len() {
        None
    } else if t[k as int].0 == name {
        Some(k)
    } else {
        tally_position(t, name, k + 1)
    }
}

/// Distinct names with their number of occurrences, in first-seen order.
pub open spec fn tally(names: Seq<Seq<char>>) -> Seq<(Seq<char>, nat)>
    decreases names.len(),
{
    if names.len() == 0 {
        Seq::empty()
    } else {
        let t = tally(names.drop_last());
        let n = names.last();
        match tally_position(t, n, 0) {
            Some(k) => t.update(k as int, (n, t[k as int].1 + 1)),
            None => t.push((n, 1nat)),
        }
    }
}

/// Whether a name takes part in a naming tier: first the names that do not
/// look auto-generated, then those that are not vendor-defined, then any.
pub open spec fn in_tier(name: Seq<char>, tier: nat) -> bool {
    if tier == 0 {
        !generic_name(name)
    } else if tier == 1 {
        !vendor_defined_name(name)
    } else {
        true
    }
}

/// Position of the most frequent name of a tier; among equally frequent ones
/// the last, as `max_by_key` picks.
pub open spec fn most_frequent(t: Seq<(Seq<char>, nat)>, tier: nat) -> Option<nat>
    decreases t.len(),
{
    if t.len() == 0 {
        None
    } else {
        let prev = most_frequent(t.drop_last(), tier);
        let k = (t.len() - 1) as nat;
        if in_tier(t[k as int].0, tier) && (prev is None || t[prev->0 as int].1 <= t[k as int].1) {
            Some(k)
        } else {
            prev
        }
    }
}

/// The most recognizable name for a group of interfaces.
pub open spec fn group_label(ds: Seq<HidDevice>) -> Seq<char> {
    let t = tally(all_names(ds));
    match most_frequent(t, 0) {
        Some(k) => t[k as int].0,
        None => match most_frequent(t, 1) {
            Some(k) => t[k as int].0,
            None => match most_frequent(t, 2) {
                Some(k) => t[k as int].0,
                None => "Unknown device"@,
            },
        },
    }
}

proof fn lemma_tally_position(t: Seq<(Seq<char>, nat)>, name: Seq<char>, k: nat)
    ensures
        tally_position(t, name, k) matches Some(p) ==> k <= p < t.len() && t[p as int].0 == name,
        tally_position(t, name, k) is None ==> forall|q: int| k <= q < t.len() ==> #[trigger] t[q].0 != name,
    decreases t.len() - k,
{
    if k < t.len() && t[k as int].0 != name {
        lemma_tally_position(t, name, k + 1);
    }
}

/// The tally holds exactly the names counted.
proof fn lemma_tally_names(names: Seq<Seq<char>>)
    ensures
        forall|j: int| 0 <= j < names.len() ==> exists|k: int|
            0 <= k < tally(names).len() && #[trigger] tally(names)[k].0 == #[trigger] names[j],
        forall|k: int| 0 <= k < tally(names).len() ==> names.contains(#[trigger] tally(names)[k].0),
    decreases names.len(),
{
    if names.len() > 0 {
        let prev = names.drop_last();
        lemma_tally_names(prev);
        let t0 = tally(prev);
        let n = names.last();
        let t = tally(names);
        lemma_tally_position(t0, n, 0);
        assert forall|j: int| 0 <= j < names.len() implies exists|k: int|
            0 <= k < t.len() && #[trigger] t[k].0 == #[trigger] names[j] by {
            if j == names.len() - 1 {
                match tally_position(t0, n, 0) {
                    Some(p) => assert(t[p as int].0 == n),
                    None => assert(t[t0.len() as int].0 == n),
                }
            } else {
                assert(names[j] == prev[j]);
                let k0 = choose|k: int| 0 <= k < t0.len() && #[trigger] t0[k].0 == prev[j];
                assert(t[k0].0 == t0[k0].0);
            }
        }
        assert forall|k: int| 0 <= k < t.len() implies names.contains(#[trigger] t[k].0) by {
            if k < t0.len() && t[k].0 == t0[k].0 {
                let j = choose|j: int| 0 <= j < prev.len() && prev[j] == t0[k].0;
                assert(names[j] == prev[j]);
            } else {
                assert(t[k].0 == n);
                assert(names[names.len() - 1] == n);
            }
        }
    }
}

proof fn lemma_most_frequent(t: Seq<(Seq<char>, nat)>, tier: nat)
    ensures
        most_frequent(t, tier) matches Some(k) ==> k < t.len() && in_tier(t[k as int].0, tier),
        (exists|k: int| 0 <= k < t.len() && in_tier(#[trigger] t[k].0, tier)) ==> most_frequent(t, tier) is Some,
    decreases t.len(),
{
    if t.len() > 0 {
        let prev = t.drop_last();
        lemma_most_frequent(prev, tier);
        if exists|k: int| 0 <= k < t.len() && in_tier(#[trigger] t[k].0, tier) {
            let k = choose|k: int| 0 <= k < t.len() && in_tier(#[trigger] t[k].0, tier);
            if k < t.len() - 1 {
                assert(prev[k] == t[k]);
            }
        }
    }
}

/// The name a group is given is one of the names its interfaces carry
/// ("Unknown device" only when they carry none), and a name the vendor chose
/// wins over every name Windows generated: when any interface carries a name
/// that does not look auto-generated, the group's name does not either.
pub proof fn group_label_prefers_vendor_names(ds: Seq<HidDevice>)
    ensures
        all_names(ds).len() == 0 ==> group_label(ds) == "Unknown device"@,
        all_names(ds).len() > 0 ==> all_names(ds).contains(group_label(ds)),
        (exists|j: int| 0 <= j < all_names(ds).len() && !generic_name(#[trigger] all_names(ds)[j]))
            ==> !generic_name(group_label(ds)),
{
    let names = all_names(ds);
    let t = tally(names);
    lemma_tally_names(names);
    lemma_most_frequent(t, 0);
    lemma_most_frequent(t, 1);
    lemma_most_frequent(t, 2);
    if names.len() > 0 {
        let k = choose|k: int| 0 <= k < t.len() && #[trigger] t[k].0 == names[0];
        assert(in_tier(t[k].0, 2));
    } else {
        assert(t.len() == 0);
    }
    if exists|j: int| 0 <= j < names.len() && !generic_name(#[trigger] names[j]) {
        let j = choose|j: int| 0 <= j < names.len() && !generic_name(#[trigger] names[j]);
        let k = choose|k: int| 0 <= k < t.len() && #[trigger] t[k].0 == names[j];
        assert(in_tier(t[k].0, 0));
    }
}

/// How many times `name` occurs among `names`.
pub open spec fn occurrences(names: Seq<Seq<char>>, name: Seq<char>) -> nat
    decreases names.len(),
{
    if names.len() == 0 {
        0
    } else {
        occurrences(names.drop_last(), name) + if names.last() == name {
            1nat
        } else {
            0nat
        }
    }
}

/// The position where `name` first occurs among `names` (when it occurs).
pub open spec fn first_seen(names: Seq<Seq<char>>, name: Seq<char>) -> int
    decreases names.len(),
{
    if names.len() == 0 {
        0
    } else if occurrences(names.drop_last(), name) > 0 {
        first_seen(names.drop_last(), name)
    } else {
        names.len() - 1
    }
}

/// The first naming tier that any of the names takes part in.
pub open spec fn first_tier(names: Seq<Seq<char>>) -> nat {
    if exists|j: int| 0 <= j < names.len() && in_tier(#[trigger] names[j], 0) {
        0
    } else if exists|j: int| 0 <= j < names.len() && in_tier(#[trigger] names[j], 1) {
        1
    } else {
        2
    }
}

proof fn lemma_occurrences(names: Seq<Seq<char>>, name: Seq<char>)
    ensures
        occurrences(names, name) > 0 ==> 0 <= first_seen(names, name) < names.len() && names[first_seen(
            names,
            name,
        )] == name,
        forall|j: int| 0 <= j < names.len() && #[trigger] names[j] == name ==> occurrences(names, name) > 0,
    decreases names.len(),
{
    if names.len() > 0 {
        let prev = names.drop_last();
        lemma_occurrences(prev, name);
        assert forall|j: int| 0 <= j < names.len() && #[trigger] names[j] == name implies occurrences(
            names,
            name,
        ) > 0 by {
            if j < prev.len() {
                assert(prev[j] == names[j]);
            }
        }
        if occurrences(prev, name) > 0 {
            assert(names[first_seen(prev, name)] == prev[first_seen(prev, name)]);
        }
    }
}

/// The tally counts every name's occurrences, and lists the names in the
/// order in which they first occur.
proof fn lemma_tally_counts(names: Seq<Seq<char>>)
    ensures
        forall|k: int|
            0 <= k < tally(names).len() ==> (#[trigger] tally(names)[k]).1 == occurrences(
                names,
                tally(names)[k].0,
            ) && occurrences(names, tally(names)[k].0) > 0,
        forall|k1: int, k2: int|
            0 <= k1 < k2 < tally(names).len() ==> first_seen(names, #[trigger] tally(names)[k1].0)
                < first_seen(names, #[trigger] tally(names)[k2].0),
    decreases names.len(),
{
    if names.len() > 0 {
        let prev = names.drop_last();
        let n = names.last();
        let t0 = tally(prev);
        let t = tally(names);
        lemma_tally_counts(prev);
        lemma_tally_names(prev);
        lemma_tally_position(t0, n, 0);
        match tally_position(t0, n, 0) {
            Some(p) => {
                let p = p as int;
                assert(t0[p].0 == n);
                assert forall|k: int| 0 <= k < t0.len() && k != p implies #[trigger] t0[k].0 != n by {
                    if k < p {
                        assert(first_seen(prev, t0[k].0) < first_seen(prev, t0[p].0));
                    } else {
                        assert(first_seen(prev, t0[p].0) < first_seen(prev, t0[k].0));
                    }
                }
                assert forall|k: int| 0 <= k < t.len() implies (#[trigger] t[k]).1 == occurrences(
                    names,
                    t[k].0,
                ) && occurrences(names, t[k].0) > 0 by {
                    if k != p {
                        assert(t[k] == t0[k]);
                    }
                }
                assert forall|k1: int, k2: int| 0 <= k1 < k2 < t.len() implies first_seen(
                    names,
                    #[trigger] t[k1].0,
                ) < first_seen(names, #[trigger] t[k2].0) by {
                    assert(t[k1].0 == t0[k1].0);
                    assert(t[k2].0 == t0[k2].0);
                    assert(first_seen(prev, t0[k1].0) < first_seen(prev, t0[k2].0));
                }
            },
            None => {
                if occurrences(prev, n) > 0 {
                    lemma_occurrences(prev, n);
                    let j = first_seen(prev, n);
                    let k = choose|k: int| 0 <= k < t0.len() && #[trigger] t0[k].0 == prev[j];
                    assert(t0[k].0 == n);
                }
                assert(t =~= t0.push((n, 1nat)));
                assert forall|k: int| 0 <= k < t.len() implies (#[trigger] t[k]).1 == occurrences(
                    names,
                    t[k].0,
                ) && occurrences(names, t[k].0) > 0 by {
                    if k < t0.len() {
                        assert(t[k] == t0[k]);
                        assert(t0[k].0 != n);
                    }
                }
                assert forall|k1: int, k2: int| 0 <= k1 < k2 < t.len() implies first_seen(
                    names,
                    #[trigger] t[k1].0,
                ) < first_seen(names, #[trigger] t[k2].0) by {
                    assert(t[k1] == t0[k1]);
                    assert(t0[k1].0 != n);
                    lemma_occurrences(prev, t0[k1].0);
                    if k2 < t0.len() {
                        assert(t[k2] == t0[k2]);
                        assert(first_seen(prev, t0[k1].0) < first_seen(prev, t0[k2].0));
                    }
                }
            },
        }
    }
}

/// The position `most_frequent` picks has the highest count of its tier, and
/// is the last of the positions with that count.
proof fn lemma_most_frequent_is_maximal(t: Seq<(Seq<char>, nat)>, tier: nat)
    ensures
        most_frequent(t, tier) matches Some(k) ==> forall|q: int|
            0 <= q < t.len() && in_tier(#[trigger] t[q].0, tier) ==> t[q].1 <= t[k as int].1 && (t[q].1
                == t[k as int].1 ==> q <= k),
    decreases t.len(),
{
    if t.len() > 0 {
        let prev = t.drop_last();
        lemma_most_frequent_is_maximal(prev, tier);
        lemma_most_frequent(prev, tier);
        if let Some(k) = most_frequent(t, tier) {
            assert forall|q: int| 0 <= q < t.len() && in_tier(#[trigger] t[q].0, tier) implies t[q].1
                <= t[k as int].1 && (t[q].1 == t[k as int].1 ==> q <= k) by {
                if q < prev.len() {
                    assert(prev[q] == t[q]);
                    assert(in_tier(prev[q].0, tier));
                    let kp = most_frequent(prev, tier)->0;
                    assert(prev[kp as int] == t[kp as int]);
                }
            }
        }
    }
}

/// A group is named after the most frequent name of the first tier its names
/// reach (names that do not look auto-generated, then names that are not
/// vendor-defined, then any name): no name of that tier occurs more often,
/// and of equally frequent ones the name picked is the one first seen last.
pub proof fn group_label_is_most_frequent_in_its_tier(ds: Seq<HidDevice>)
    ensures
        all_names(ds).len() > 0 ==> {
            let names = all_names(ds);
            let label = group_label(ds);
            let tier = first_tier(names);
            &&& occurrences(names, label) > 0
            &&& in_tier(label, tier)
            &&& forall|j: int|
                0 <= j < names.len() && in_tier(#[trigger] names[j], tier) ==> occurrences(names, names[j])
                    <= occurrences(names, label)
            &&& forall|j: int|
                0 <= j < names.len() && in_tier(#[trigger] names[j], tier) && names[j] != label
                    && occurrences(names, names[j]) == occurrences(names, label) ==> first_seen(names, names[j])
                    < first_seen(names, label)
        },
{
    let names = all_names(ds);
    if names.len() > 0 {
        let t = tally(names);
        lemma_tally_names(names);
        lemma_tally_counts(names);
        lemma_most_frequent(t, 0);
        lemma_most_frequent(t, 1);
        lemma_most_frequent(t, 2);
        let tier = first_tier(names);
        assert forall|tr: nat| tr < tier implies most_frequent(t, tr) is None by {
            if most_frequent(t, tr) is Some {
                let k = most_frequent(t, tr)->0 as int;
                let j = choose|j: int| 0 <= j < names.len() && names[j] == t[k].0;
                assert(in_tier(names[j], tr));
            }
        }
        let jt = if tier == 0 {
            choose|j: int| 0 <= j < names.len() && in_tier(#[trigger] names[j], 0)
        } else if tier == 1 {
            choose|j: int| 0 <= j < names.len() && in_tier(#[trigger] names[j], 1)
        } else {
            0
        };
        assert(in_tier(names[jt], tier));
        let kt = choose|k: int| 0 <= k < t.len() && #[trigger] t[k].0 == names[jt];
        assert(in_tier(t[kt].0, tier));
        assert(most_frequent(t, tier) is Some);
        let k = most_frequent(t, tier)->0 as int;
        assert(group_label(ds) == t[k].0);
        lemma_most_frequent_is_maximal(t, tier);
        let label = t[k].0;
        assert forall|j: int| 0 <= j < names.len() && in_tier(#[trigger] names[j], tier) implies occurrences(
            names,
            names[j],
        ) <= occurrences(names, label) && (names[j] != label && occurrences(names, names[j])
            == occurrences(names, label) ==> first_seen(names, names[j]) < first_seen(names, label)) by {
            let q = choose|q: int| 0 <= q < t.len() && #[trigger] t[q].0 == names[j];
            assert(in_tier(t[q].0, tier));
            assert(t[q].1 <= t[k].1);
            if names[j] != label && t[q].1 == t[k].1 {
                assert(q != k);
                assert(q < k);
            }
        }
    }
}

/// The plain view of the candidate list.
pub open spec fn tally_view(c: Seq<(String, usize)>) -> Seq<(Seq<char>, nat)> {
    c.map_values(|e: (String, usize)| (e.0@, e.1 as nat))
}

/// Counts one more occurrence of `name`.
fn count_name(candidates: &mut Vec<(String, usize)>, name: &String, Ghost(seen): Ghost<nat>)
    requires
        seen < usize::MAX,
        forall|k: int| 0 <= k < old(candidates)@.len() ==> #[trigger] old(candidates)@[k].1 <= seen,
    ensures
        forall|k: int| 0 <= k < final(candidates)@.len() ==> #[trigger] final(candidates)@[k].1 <= seen + 1,
        tally_view(final(candidates)@) == ({
            let t = tally_view(old(candidates)@);
            match tally_position(t, name@, 0) {
                Some(k) => t.update(k as int, (name@, t[k as int].1 + 1)),
                None => t.push((name@, 1nat)),
            }
        }),
{
    let ghost t = tally_view(candidates@);
    let mut k: usize = 0;
    while k < candidates.len()
        invariant
            k <= candidates@.len(),
            t == tally_view(candidates@),
            t == tally_view(old(candidates)@),
            tally_position(t, name@, 0) == tally_position(t, name@, k as nat),
            seen < usize::MAX,
            forall|j: int| 0 <= j < candidates@.len() ==> #[trigger] candidates@[j].1 <= seen,
        decreases candidates@.len() - k,
    {
        assert(t[k as int] == (candidates@[k as int].0@, candidates@[k as int].1 as nat));
        if candidates[k].0 == *name {
            assert(tally_position(t, name@, k as nat) == Some(k as nat));
            let count = candidates[k].1;
            candidates.set(k, (name.clone(), count + 1));
            assert(tally_view(candidates@) =~= t.update(k as int, (name@, t[k as int].1 + 1)));
            return;
        }
        k = k + 1;
    }
    candidates.push((name.clone(), 1));
    assert(tally_view(candidates@) =~= t.push((name@, 1nat)));
}

/// The first-seen position of the most frequent candidate of a tier.
fn pick(candidates: &Vec<(String, usize)>, tier: u8) -> (r: Option<usize>)
    requires
        tier <= 2,
    ensures
        match r {
            Some(k) => k < candidates@.len() && most_frequent(tally_view(candidates@), tier as nat)
                == Some(k as nat),
            None => most_frequent(tally_view(candidates@), tier as nat) is None,
        },
{
    let ghost t = tally_view(candidates@);
    let mut best: Option<usize> = None;
    let mut k: usize = 0;
    while k < candidates.len()
        invariant
            k <= candidates@.len(),
            t == tally_view(candidates@),
            tier <= 2,
            match best {
                Some(b) => b < k && most_frequent(t.subrange(0, k as int), tier as nat) == Some(
                    b as nat,
                ),
                None => most_frequent(t.subrange(0, k as int), tier as nat) is None,
            },
        decreases candidates@.len() - k,
    {
        let name = candidates[k].0.as_str();
        assert(t[k as int] == (candidates@[k as int].0@, candidates@[k as int].1 as nat));
        if let Some(b) = best {
            assert(t[b as int] == (candidates@[b as int].0@, candidates@[b as int].1 as nat));
            assert(t.subrange(0, k + 1)[b as int] == t[b as int]);
        }
        assert(t.subrange(0, k + 1)[k as int] == t[k as int]);
        let eligible = if tier == 0 {
            !is_generic_name(name)
        } else if tier == 1 {
            !is_vendor_defined_name(name)
        } else {
            true
        };
        let ghost prefix = t.subrange(0, k + 1);
        assert(prefix.drop_last() =~= t.subrange(0, k as int));
        if eligible {
            match best {
                Some(b) => {
                    if candidates[b].1 <= candidates[k].1 {
                        best = Some(k);
                    }
                },
                None => {
                    best = Some(k);
                },
            }
        }
        k = k + 1;
    }
    assert(t.subrange(0, k as int) =~= t);
    best
}

/// Picks the most recognizable name for a group of interfaces: the most
/// frequent name that does not look auto-generated, else the most frequent
/// one that is not vendor-defined, else the most frequent of all, else
/// "Unknown device".
pub fn group_name(interfaces: &[&HidDevice]) -> (name: String)
    requires
        interfaces@.len() * 2 < usize::MAX,
    ensures
        name@ == group_label(derefs(interfaces@)),
{
    let ghost ds = derefs(interfaces@);
    let mut candidates: Vec<(String, usize)> = Vec::new();
    let mut i: usize = 0;
    while i < interfaces.len()
        invariant
            i <= interfaces@.len(),
            interfaces@.len() * 2 < usize::MAX,
            ds == derefs(interfaces@),
            tally_view(candidates@) == tally(all_names(ds.subrange(0, i as int))),
            forall|k: int| 0 <= k < candidates@.len() ==> #[trigger] candidates@[k].1 <= 2 * i,
        decreases interfaces@.len() - i,
    {
        let device = interfaces[i];
        let ghost before = all_names(ds.subrange(0, i as int));
        assert(ds.subrange(0, i + 1).drop_last() =~= ds.subrange(0, i as int));
        assert(ds.subrange(0, i + 1).last() == *device);
        let ghost mut names = before;
        if let Some(desc) = &device.device_desc {
            count_name(&mut candidates, desc, Ghost((2 * i) as nat));
            proof {
                let next = names.push(desc@);
                assert(next.drop_last() =~= names);
                assert(next.last() == desc@);
                names = next;
            }
        }
        assert(tally_view(candidates@) == tally(names));
        assert(forall|k: int| 0 <= k < candidates@.len() ==> #[trigger] candidates@[k].1 <= 2 * i + 1);
        if let Some(info) = &device.info {
            if let Some(product) = &info.product {
                count_name(&mut candidates, product, Ghost((2 * i + 1) as nat));
                proof {
                    let next = names.push(product@);
                    assert(next.drop_last() =~= names);
                    assert(next.last() == product@);
                    names = next;
                }
            }
        }
        assert(tally_view(candidates@) == tally(names));
        assert(names =~= before + interface_names(*device));
        i = i + 1;
    }
    assert(ds.subrange(0, i as int) =~= ds);
    let chosen = match pick(&candidates, 0) {
        Some(k) => Some(k),
        None => match pick(&candidates, 1) {
            Some(k) => Some(k),
            None => pick(&candidates, 2),
        },
    };
    match chosen {
        Some(k) => candidates[k].0.clone(),
        None => String::from_str("Unknown device"),
    }
}

/// Interfaces of one physical device, keyed by `(VID, PID)`.
pub type Group<'a> = (Option<(u16, u16)>, Vec<&'a HidDevice>);

/// The interfaces of all groups, in order.
pub open spec fn flatten_groups(gs: Seq<Group>) -> Seq<HidDevice>
    decreases gs.len(),
{
    if gs.len() == 0 {
        Seq::empty()
    } else {
        flatten_groups(gs.drop_last()) + derefs(gs.last().1@)
    }
}

/// `gs` cuts `ds` into maximal runs of interfaces with the same `(VID, PID)`:
/// the groups hold the interfaces in order, none is empty, every member has
/// its group's key, and neighbouring groups have different keys.
pub open spec fn is_grouping(gs: Seq<Group>, ds: Seq<HidDevice>) -> bool {
    &&& flatten_groups(gs) == ds
    &&& forall|g: int| 0 <= g < gs.len() ==> #[trigger] gs[g].1@.len() > 0
    &&& forall|g: int, m: int|
        0 <= g < gs.len() && 0 <= m < gs[g].1@.len() ==> device_vid_pid(*#[trigger] gs[g].1@[m])
            == gs[g].0
    &&& forall|g: int| 0 < g < gs.len() ==> #[trigger] gs[g].0 != gs[g - 1].0
}

/// The maximal runs of interfaces with the same `(VID, PID)`, in order, as
/// keys with their members.
pub open spec fn runs(ds: Seq<HidDevice>) -> Seq<(Option<(u16, u16)>, Seq<HidDevice>)>
    decreases ds.len(),
{
    if ds.len() == 0 {
        Seq::empty()
    } else {
        let r = runs(ds.drop_last());
        let d = ds.last();
        let k = device_vid_pid(d);
        if r.len() > 0 && r.last().0 == k {
            r.update(r.len() - 1, (k, r.last().1.push(d)))
        } else {
            r.push((k, seq![d]))
        }
    }
}

/// The plain view of a list of groups.
pub open spec fn groups_view(gs: Seq<Group>) -> Seq<(Option<(u16, u16)>, Seq<HidDevice>)> {
    gs.map_values(|g: Group| (g.0, derefs(g.1@)))
}

/// Whether two optional `(VID, PID)` keys are equal.
fn same_key(a: Option<(u16, u16)>, b: Option<(u16, u16)>) -> (r: bool)
    ensures
        r == (a == b),
{
    match (a, b) {
        (Some((v1, p1)), Some((v2, p2))) => v1 == v2 && p1 == p2,
        (None, None) => true,
        _ => false,
    }
}

/// Collapses the flat interface list into one entry per physical device by
/// walking it and starting a new group whenever the `(VID, PID)` changes.
/// Interfaces with no recoverable VID/PID share `None` groups.
pub fn group_by_product<'a>(devices: &'a [HidDevice]) -> (groups: Vec<Group<'a>>)
    ensures
        is_grouping(groups@, devices@),
        groups_view(groups@) == runs(devices@),
{
    let mut groups: Vec<Group<'a>> = Vec::new();
    let mut i: usize = 0;
    assert(flatten_groups(groups@) =~= devices@.subrange(0, 0));
    while i < devices.len()
        invariant
            i <= devices@.len(),
            is_grouping(groups@, devices@.subrange(0, i as int)),
            groups_view(groups@) == runs(devices@.subrange(0, i as int)),
            i > 0 ==> groups@.len() > 0 && groups@.last().0 == device_vid_pid(devices@[i - 1]),
            i == 0 ==> groups@.len() == 0,
        decreases devices@.len() - i,
    {
        let device = &devices[i];
        let key = device.vendor_product_id();
        let ghost old_groups = groups@;
        assert(devices@.subrange(0, i + 1) =~= devices@.subrange(0, i as int).push(*device));
        assert(devices@.subrange(0, i + 1).drop_last() =~= devices@.subrange(0, i as int));
        let ghost before = runs(devices@.subrange(0, i as int));
        if groups.len() > 0 && same_key(groups[groups.len() - 1].0, key) {
            let (gkey, mut members) = groups.pop().unwrap();
            let ghost old_members = members@;
            members.push(device);
            groups.push((gkey, members));
            proof {
                let n = old_groups.len() - 1;
                assert(groups@ =~= old_groups.update(n, (gkey, members)));
                assert(groups@.drop_last() =~= old_groups.drop_last());
                assert(derefs(members@) =~= derefs(old_members).push(*device));
                assert(flatten_groups(groups@) =~= flatten_groups(old_groups).push(*device));
                assert(before.last() == groups_view(old_groups)[n]);
                assert(groups_view(groups@) =~= before.update(
                    before.len() - 1,
                    (key, before.last().1.push(*device)),
                ));
                assert forall|g: int, m: int|
                    0 <= g < groups@.len() && 0 <= m < groups@[g].1@.len() implies device_vid_pid(
                    *#[trigger] groups@[g].1@[m],
                ) == groups@[g].0 by {
                    if g < n {
                        assert(groups@[g] == old_groups[g]);
                    } else if m < old_members.len() {
                        assert(groups@[g].1@[m] == old_members[m]);
                    }
                }
                assert forall|g: int| 0 < g < groups@.len() implies #[trigger] groups@[g].0
                    != groups@[g - 1].0 by {
                    assert(groups@[g - 1] == old_groups[g - 1]);
                    if g < n {
                        assert(groups@[g] == old_groups[g]);
                    }
                }
            }
        } else {
            let mut members: Vec<&'a HidDevice> = Vec::new();
            members.push(device);
            groups.push((key, members));
            proof {
                assert(groups@.drop_last() =~= old_groups);
                assert(derefs(members@) =~= seq![*device]);
                assert(flatten_groups(groups@) =~= flatten_groups(old_groups).push(*device));
                if old_groups.len() > 0 {
                    assert(before.last() == groups_view(old_groups)[old_groups.len() - 1]);
                }
                assert(groups_view(groups@) =~= before.push((key, seq![*device])));
                assert forall|g: int, m: int|
                    0 <= g < groups@.len() && 0 <= m < groups@[g].1@.len() implies device_vid_pid(
                    *#[trigger] groups@[g].1@[m],
                ) == groups@[g].0 by {
                    if g < old_groups.len() {
                        assert(groups@[g] == old_groups[g]);
                    }
                }
                assert forall|g: int| 0 < g < groups@.len() implies #[trigger] groups@[g].0
                    != groups@[g - 1].0 by {
                    assert(groups@[g - 1] == old_groups[g - 1]);
                    if g < old_groups.len() {
                        assert(groups@[g] == old_groups[g]);
                    }
                }
            }
        }
        i = i + 1;
    }
    assert(devices@.subrange(0, i as int) =~= devices@);
    groups
}

proof fn lemma_flatten_prefix(gs: Seq<Group>, a: int)
    requires
        0 <= a <= gs.len(),
    ensures
        flatten_groups(gs.take(a)).len() <= flatten_groups(gs).len(),
        forall|i: int|
            0 <= i < flatten_groups(gs.take(a)).len() ==> #[trigger] flatten_groups(gs.take(a))[i]
                == flatten_groups(gs)[i],
    decreases gs.len(),
{
    if a == gs.len() {
        assert(gs.take(a) =~= gs);
    } else {
        let prev = gs.drop_last();
        assert(prev.take(a) =~= gs.take(a));
        lemma_flatten_prefix(prev, a);
        assert forall|i: int| 0 <= i < flatten_groups(gs.take(a)).len() implies #[trigger] flatten_groups(
            gs.take(a),
        )[i] == flatten_groups(gs)[i] by {
            assert(flatten_groups(gs)[i] == flatten_groups(prev)[i]);
        }
    }
}

/// Where the members of group `g` start in the flattened list.
spec fn group_start(gs: Seq<Group>, g: int) -> int {
    flatten_groups(gs.take(g)).len() as int
}

proof fn lemma_member_position(gs: Seq<Group>, g: int, m: int)
    requires
        0 <= g < gs.len(),
        0 <= m < gs[g].1@.len(),
    ensures
        group_start(gs, g) + m < flatten_groups(gs).len(),
        flatten_groups(gs)[group_start(gs, g) + m] == *gs[g].1@[m],
        group_start(gs, g + 1) == group_start(gs, g) + gs[g].1@.len(),
{
    let t = gs.take(g + 1);
    assert(t.drop_last() =~= gs.take(g));
    assert(t.last() == gs[g]);
    lemma_flatten_prefix(gs, g + 1);
    let off = group_start(gs, g);
    assert(flatten_groups(t)[off + m] == derefs(gs[g].1@)[m]);
}

proof fn lemma_group_start_monotone(gs: Seq<Group>, a: int, b: int)
    requires
        0 <= a <= b <= gs.len(),
    ensures
        group_start(gs, a) <= group_start(gs, b),
{
    let tb = gs.take(b);
    assert(tb.take(a) =~= gs.take(a));
    lemma_flatten_prefix(tb, a);
}

/// No group has more members than there are interfaces.
pub(crate) proof fn lemma_group_size(gs: Seq<Group>, ds: Seq<HidDevice>, g: int)
    requires
        is_grouping(gs, ds),
        0 <= g < gs.len(),
    ensures
        gs[g].1@.len() <= ds.len(),
{
    lemma_member_position(gs, g, 0);
    let last = gs[g].1@.len() - 1;
    lemma_member_position(gs, g, last);
}

/// Interfaces with the same `(VID, PID)` stand together: every interface
/// between two with the same key (or two with none) has that key too.
pub open spec fn products_adjacent(ds: Seq<HidDevice>) -> bool {
    forall|i: int, j: int, k: int|
        #![trigger ds[i], ds[j], ds[k]]
        0 <= i < j < k < ds.len() && device_vid_pid(ds[i]) == device_vid_pid(ds[k])
            ==> device_vid_pid(ds[j]) == device_vid_pid(ds[i])
}

/// The distinct `(VID, PID)` keys of the interfaces, `None` for those without one.
pub open spec fn product_keys(ds: Seq<HidDevice>) -> Set<Option<(u16, u16)>> {
    ds.map_values(|d: HidDevice| device_vid_pid(d)).to_set()
}

/// Every interface of the flattened groups is a member of some group.
proof fn lemma_every_interface_in_a_group(gs: Seq<Group>, i: int)
    requires
        0 <= i < flatten_groups(gs).len(),
    ensures
        exists|g: int, m: int|
            #![trigger gs[g].1@[m]]
            0 <= g < gs.len() && 0 <= m < gs[g].1@.len() && flatten_groups(gs)[i] == *gs[g].1@[m],
    decreases gs.len(),
{
    let prev = gs.drop_last();
    let before = flatten_groups(prev);
    if i < before.len() {
        lemma_every_interface_in_a_group(prev, i);
        let (g, m) = choose|g: int, m: int|
            #![trigger prev[g].1@[m]]
            0 <= g < prev.len() && 0 <= m < prev[g].1@.len() && before[i] == *prev[g].1@[m];
        assert(gs[g] == prev[g]);
        assert(flatten_groups(gs)[i] == before[i]);
        assert(flatten_groups(gs)[i] == *gs[g].1@[m]);
    } else {
        let g = gs.len() - 1;
        let m = i - before.len();
        assert(flatten_groups(gs)[i] == derefs(gs[g].1@)[m]);
        assert(flatten_groups(gs)[i] == *gs[g].1@[m]);
    }
}

/// When interfaces of one key stand together, no two groups share a key.
proof fn lemma_adjacent_groups_distinct(gs: Seq<Group>, ds: Seq<HidDevice>, g1: int, g2: int)
    requires
        products_adjacent(ds),
        is_grouping(gs, ds),
        0 <= g1 < g2 < gs.len(),
    ensures
        gs[g1].0 != gs[g2].0,
{
    if gs[g1].0 == gs[g2].0 {
        let g = g1 + 1;
        assert(gs[g].0 != gs[g - 1].0);
        assert(g < g2);
        assert(gs[g1].1@.len() > 0);
        assert(gs[g].1@.len() > 0);
        assert(gs[g2].1@.len() > 0);
        lemma_member_position(gs, g1, 0);
        lemma_member_position(gs, g, 0);
        lemma_member_position(gs, g2, 0);
        lemma_group_start_monotone(gs, g + 1, g2);
        let i = group_start(gs, g1);
        let j = group_start(gs, g);
        let k = group_start(gs, g2);
        assert(device_vid_pid(ds[i]) == gs[g1].0);
        assert(device_vid_pid(ds[j]) == gs[g].0);
        assert(device_vid_pid(ds[k]) == gs[g2].0);
    }
}

/// Grouping interfaces whose keys stand together (as `group_by_product` is
/// meant to be used) gives every physical device exactly one group: no two
/// groups share a `(VID, PID)`, every interface's key has a group (so all
/// interfaces without a recoverable VID/PID share the single `None` group),
/// and there are as many groups as distinct keys.
pub proof fn grouping_gives_one_group_per_product(gs: Seq<Group>, ds: Seq<HidDevice>)
    requires
        is_grouping(gs, ds),
        products_adjacent(ds),
    ensures
        forall|g1: int, g2: int| 0 <= g1 < g2 < gs.len() ==> #[trigger] gs[g1].0 != #[trigger] gs[g2].0,
        forall|i: int|
            #![trigger ds[i]]
            0 <= i < ds.len() ==> exists|g: int|
                #![trigger gs[g]]
                0 <= g < gs.len() && gs[g].0 == device_vid_pid(ds[i]),
        gs.len() == product_keys(ds).len(),
{
    assert forall|g1: int, g2: int| 0 <= g1 < g2 < gs.len() implies #[trigger] gs[g1].0
        != #[trigger] gs[g2].0 by {
        lemma_adjacent_groups_distinct(gs, ds, g1, g2);
    }
    assert forall|i: int| #![trigger ds[i]] 0 <= i < ds.len() implies exists|g: int|
        #![trigger gs[g]]
        0 <= g < gs.len() && gs[g].0 == device_vid_pid(ds[i]) by {
        lemma_every_interface_in_a_group(gs, i);
        let (g, m) = choose|g: int, m: int|
            #![trigger gs[g].1@[m]]
            0 <= g < gs.len() && 0 <= m < gs[g].1@.len() && flatten_groups(gs)[i] == *gs[g].1@[m];
        assert(device_vid_pid(*gs[g].1@[m]) == gs[g].0);
        assert(gs[g].0 == device_vid_pid(ds[i]));
    }
    let keys = gs.map_values(|g: Group| g.0);
    let f = |d: HidDevice| device_vid_pid(d);
    let mapped = ds.map_values(f);
    assert(keys.no_duplicates()) by {
        assert forall|a: int, b: int| 0 <= a < keys.len() && 0 <= b < keys.len() && a != b implies keys[a]
            != keys[b] by {
            if a < b {
                lemma_adjacent_groups_distinct(gs, ds, a, b);
            } else {
                lemma_adjacent_groups_distinct(gs, ds, b, a);
            }
        }
    }
    keys.unique_seq_to_set();
    assert(keys.to_set() =~= product_keys(ds)) by {
        assert forall|x: Option<(u16, u16)>| keys.to_set().contains(x) implies product_keys(ds).contains(x) by {
            let g = choose|g: int| 0 <= g < keys.len() && keys[g] == x;
            lemma_member_position(gs, g, 0);
            let i = group_start(gs, g);
            assert(device_vid_pid(*gs[g].1@[0]) == gs[g].0);
            assert(mapped[i] == x);
        }
        assert forall|x: Option<(u16, u16)>| product_keys(ds).contains(x) implies keys.to_set().contains(x) by {
            let i = choose|i: int| 0 <= i < mapped.len() && mapped[i] == x;
            lemma_every_interface_in_a_group(gs, i);
            let (g, m) = choose|g: int, m: int|
                #![trigger gs[g].1@[m]]
                0 <= g < gs.len() && 0 <= m < gs[g].1@.len() && flatten_groups(gs)[i] == *gs[g].1@[m];
            assert(device_vid_pid(*gs[g].1@[m]) == gs[g].0);
            assert(keys[g] == x);
        }
    }
}

/// Grouping the interfaces in listing order gives every physical device one
/// group: no two groups share a `(VID, PID)`, and all interfaces without a
/// recoverable VID/PID end up in a single group.
pub proof fn sorted_listing_groups_are_distinct(gs: Seq<Group>, ds: Seq<HidDevice>, g1: int, g2: int)
    requires
        sorted(ds),
        is_grouping(gs, ds),
        0 <= g1 < g2 < gs.len(),
    ensures
        gs[g1].0 != gs[g2].0,
{
    assert forall|i: int, j: int, k: int|
        #![trigger ds[i], ds[j], ds[k]]
        0 <= i < j < k < ds.len() && device_vid_pid(ds[i]) == device_vid_pid(ds[k]) implies device_vid_pid(
        ds[j],
    ) == device_vid_pid(ds[i]) by {
        sorted_keeps_products_together(ds, i, j, k);
    }
    lemma_adjacent_groups_distinct(gs, ds, g1, g2);
}

} // verus!
