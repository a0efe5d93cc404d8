//! The device records the lister builds, and the computations that turn the
//! raw values read from SetupAPI and the HID class driver into them.
use vstd::prelude::*;
use vstd::string::*;
use vstd::utf8::*;

use crate::text::{decimal, parse_u16, push_decimal, u16_from_radix};
use crate::win32::{
    detail_data_cb_size, ERROR_NO_MORE_ITEMS, HIDD_ATTRIBUTES, HIDP_CAPS, HIDP_STATUS_SUCCESS,
};

verus! {

/// A Win32 call that failed, with the error code it reported.
#[derive(Debug)]
pub struct Error {
    /// Name of the API that failed.
    pub call: &'static str,
    /// The value `GetLastError()` (or, for `HidP_GetCaps`, the raw status)
    /// reported right after the failing call.
    pub code: u32,
}

impl Error {
    /// The text of the error: `"<call> failed (error <code>)"`.
    pub open spec fn text(self) -> Seq<char> {
        self.call@ + " failed (error "@ + decimal(self.code as nat) + ")"@
    }

    /// The error as the lister prints it.
    pub fn message(&self) -> (s: String)
        ensures
            s@ == self.text(),
    {
        let mut s = String::from_str(self.call);
        s.append(" failed (error ");
        push_decimal(&mut s, self.code as u64);
        s.append(")");
        s
    }
}

/// Attributes readable only after the device interface is opened.
#[derive(Debug, Clone)]
pub struct HidInfo {
    /// USB (or USB-style) vendor ID.
    pub vendor_id: u16,
    pub product_id: u16,
    /// Device-reported version, a binary-coded-decimal `u16`.
    pub version: u16,
    /// `None` when the device has no manufacturer string at all.
    pub manufacturer: Option<String>,
    pub product: Option<String>,
    pub serial_number: Option<String>,
    /// HID usage page of this top-level collection.
    pub usage_page: u16,
    /// HID usage within that page.
    pub usage: u16,
    pub input_report_len: u16,
    pub output_report_len: u16,
    pub feature_report_len: u16,
}

/// One HID device interface as reported by the device interface enumerator.
#[derive(Debug, Clone)]
pub struct HidDevice {
    /// The `\\?\hid#...` symbolic link path of the interface.
    pub path: String,
    /// PnP instance ID, e.g. `HID\VID_0B05&PID_1A92&MI_01\8&1BB0B39&0&0000`.
    pub instance_id: Option<String>,
    /// Device Manager's display name for the underlying device node.
    pub device_desc: Option<String>,
    /// `None` when the interface could not be opened; `open_error` says why.
    pub info: Option<HidInfo>,
    /// The error code of the failed open or attribute query, when `info` is `None`.
    pub open_error: Option<u32>,
}

/// `needle` occurs in `hay` starting at byte `i`.
pub open spec fn occurs_at(hay: Seq<u8>, needle: Seq<u8>, i: int) -> bool {
    0 <= i && i + needle.len() <= hay.len() && hay.subrange(i, i + needle.len()) == needle
}

/// The first position at or after `i` where `needle` occurs in `hay`.
pub open spec fn find_from(hay: Seq<u8>, needle: Seq<u8>, i: nat) -> Option<nat>
    decreases hay.len() + 1 - i,
{
    if i + needle.len() > hay.len() {
        None
    } else if occurs_at(hay, needle, i as int) {
        Some(i)
    } else {
        find_from(hay, needle, i + 1)
    }
}

/// The bytes `VID_`.
pub open spec fn vid_tag() -> Seq<u8> {
    seq![86u8, 73u8, 68u8, 95u8]
}

/// The bytes `PID_`.
pub open spec fn pid_tag() -> Seq<u8> {
    seq![80u8, 73u8, 68u8, 95u8]
}

/// The four hex digits right after the first occurrence of `tag` in the
/// UTF-8 text `bytes`, read as `u16::from_str_radix(.., 16)` reads them; nothing
/// when the tag is missing or the four bytes are not a whole piece of the text.
pub open spec fn id_after(bytes: Seq<u8>, tag: Seq<u8>) -> Option<u16> {
    match find_from(bytes, tag, 0) {
        Some(p) => if p + 8 <= bytes.len() && is_char_boundary(bytes, p + 4 as int)
            && is_char_boundary(bytes, p + 8 as int) {
            parse_u16(bytes.subrange(p + 4 as int, p + 8 as int), 16)
        } else {
            None
        },
        None => None,
    }
}

/// `(VID, PID)` as spelled in an instance ID `HID\VID_xxxx&PID_yyyy&...`.
pub open spec fn instance_vid_pid(bytes: Seq<u8>) -> Option<(u16, u16)> {
    match (id_after(bytes, vid_tag()), id_after(bytes, pid_tag())) {
        (Some(v), Some(p)) => Some((v, p)),
        _ => None,
    }
}

/// VID/PID of a device: from its opened attributes, or else from its instance ID.
pub open spec fn device_vid_pid(d: HidDevice) -> Option<(u16, u16)> {
    match d.info {
        Some(info) => Some((info.vendor_id, info.product_id)),
        None => match d.instance_id {
            Some(id) => instance_vid_pid(encode_utf8(id@)),
            None => None,
        },
    }
}

/// Whether `needle` occurs in `hay` at byte `i`.
fn bytes_occur_at(hay: &[u8], needle: &[u8], i: usize) -> (b: bool)
    requires
        i + needle@.len() <= hay@.len(),
    ensures
        b == occurs_at(hay@, needle@, i as int),
{
    let mut k: usize = 0;
    while k < needle.len()
        invariant
            i + needle@.len() <= hay.len(),
            k <= needle@.len(),
            forall|j: int| 0 <= j < k ==> hay@[i + j] == needle@[j],
        decreases needle@.len() - k,
    {
        if hay[i + k] != needle[k] {
            assert(hay@.subrange(i as int, i + needle@.len())[k as int] != needle@[k as int]);
            return false;
        }
        k = k + 1;
    }
    assert(hay@.subrange(i as int, i + needle@.len()) =~= needle@);
    true
}

/// The first byte position where `needle` occurs in `hay`.
pub fn find_bytes(hay: &[u8], needle: &[u8]) -> (r: Option<usize>)
    ensures
        match r {
            Some(i) => find_from(hay@, needle@, 0) == Some(i as nat),
            None => find_from(hay@, needle@, 0) is None,
        },
{
    if needle.len() > hay.len() {
        return None;
    }
    let last = hay.len() - needle.len();
    let mut i: usize = 0;
    loop
        invariant
            last == hay@.len() - needle@.len(),
            i <= last,
            find_from(hay@, needle@, 0) == find_from(hay@, needle@, i as nat),
        decreases last - i,
    {
        if bytes_occur_at(hay, needle, i) {
            return Some(i);
        }
        if i == last {
            assert(find_from(hay@, needle@, (i + 1) as nat) is None);
            return None;
        }
        i = i + 1;
    }
}

/// The four hex digits after the first `tag`, as `get(p + 4..p + 8)` followed
/// by `u16::from_str_radix(.., 16)` reads them.
fn id_after_tag(instance_id: &str, tag: &[u8]) -> (r: Option<u16>)
    ensures
        r == id_after(instance_id.spec_bytes(), tag@),
{
    let bytes = instance_id.as_bytes();
    let p = match find_bytes(bytes, tag) {
        Some(p) => p,
        None => return None,
    };
    if p > bytes.len() || bytes.len() - p < 8 {
        return None;
    }
    if !instance_id.is_char_boundary(p + 4) || !instance_id.is_char_boundary(p + 8) {
        return None;
    }
    u16_from_radix(bytes, p + 4, p + 8, 16)
}

/// Extracts `(VID, PID)` from a `HID\VID_xxxx&PID_yyyy&...` instance ID.
pub fn parse_vid_pid(instance_id: &str) -> (r: Option<(u16, u16)>)
    ensures
        r == instance_vid_pid(instance_id.spec_bytes()),
{
    let vid_tag_bytes: [u8; 4] = [86u8, 73u8, 68u8, 95u8];
    let pid_tag_bytes: [u8; 4] = [80u8, 73u8, 68u8, 95u8];
    assert(vid_tag_bytes@ =~= vid_tag());
    assert(pid_tag_bytes@ =~= pid_tag());
    let vid = match id_after_tag(instance_id, vid_tag_bytes.as_slice()) {
        Some(v) => v,
        None => return None,
    };
    let pid = match id_after_tag(instance_id, pid_tag_bytes.as_slice()) {
        Some(p) => p,
        None => return None,
    };
    Some((vid, pid))
}

impl HidDevice {
    /// VID/PID either from the opened attributes, or parsed back out of the
    /// instance ID for devices that could not be opened.
    pub fn vendor_product_id(&self) -> (r: Option<(u16, u16)>)
        ensures
            r == device_vid_pid(*self),
    {
        if let Some(info) = &self.info {
            return Some((info.vendor_id, info.product_id));
        }
        match &self.instance_id {
            Some(id) => parse_vid_pid(id.as_str()),
            None => None,
        }
    }
}

/// Whether a UTF-16 unit is a surrogate.
pub open spec fn is_surrogate(u: u16) -> bool {
    0xD800 <= u <= 0xDFFF
}

/// UTF-16 decoding that replaces every unpaired surrogate with U+FFFD, as
/// `String::from_utf16_lossy` is documented to do.
pub open spec fn utf16_lossy(units: Seq<u16>) -> Seq<char>
    decreases units.len(),
{
    if units.len() == 0 {
        seq![]
    } else if !is_surrogate(units[0]) {
        seq![units[0] as char] + utf16_lossy(units.drop_first())
    } else if units[0] <= 0xDBFF && units.len() >= 2 && 0xDC00 <= units[1] <= 0xDFFF {
        seq![
            (0x10000 + (units[0] - 0xD800) * 0x400 + (units[1] - 0xDC00)) as char,
        ] + utf16_lossy(units.subrange(2, units.len() as int))
    } else {
        seq!['\u{FFFD}'] + utf16_lossy(units.drop_first())
    }
}

/// UTF-16 encoding of a character sequence, as `str::encode_utf16` produces it.
pub open spec fn utf16_encode(chars: Seq<char>) -> Seq<u16>
    decreases chars.len(),
{
    if chars.len() == 0 {
        seq![]
    } else {
        let c = chars[0] as int;
        if c < 0x10000 {
            seq![c as u16] + utf16_encode(chars.drop_first())
        } else {
            seq![
                (0xD800 + (c - 0x10000) / 0x400) as u16,
                (0xDC00 + (c - 0x10000) % 0x400) as u16,
            ] + utf16_encode(chars.drop_first())
        }
    }
}

/// Calls std's `String::from_utf16_lossy`. Trusted, not proved: the contract
/// claims what std documents of it, that the result is `units` decoded as
/// UTF-16 with every unpaired surrogate replaced by U+FFFD (`utf16_lossy`).
#[verifier::external_body]
fn string_from_utf16_lossy(units: &[u16]) -> (s: String)
    ensures
        s@ == utf16_lossy(units@),
{
    String::from_utf16_lossy(units)
}

/// Calls std's `str::encode_utf16` and collects the units into a `Vec`.
/// Trusted, not proved: the contract claims what std documents of it, that
/// the units are the UTF-16 encoding of the text's characters, one unit for
/// a character below U+10000 and a surrogate pair otherwise (`utf16_encode`).
#[verifier::external_body]
fn str_encode_utf16(text: &str) -> (units: Vec<u16>)
    ensures
        units@ == utf16_encode(text@),
{
    text.encode_utf16().collect()
}

proof fn lemma_utf16_decode_encode(cs: Seq<char>)
    ensures
        utf16_lossy(utf16_encode(cs)) == cs,
        forall|k: int|
            0 <= k < utf16_encode(cs).len() && #[trigger] utf16_encode(cs)[k] == 0 ==> exists|m: int|
                0 <= m < cs.len() && cs[m] == '\0',
    decreases cs.len(),
{
    if cs.len() > 0 {
        let c = cs[0];
        let rest = cs.drop_first();
        lemma_utf16_decode_encode(rest);
        vstd::utf8::char_is_scalar(c);
        let v = c as u32;
        vstd::utf8::char_u32_cast(c, v);
        let e = utf16_encode(cs);
        let er = utf16_encode(rest);
        if (v as int) < 0x10000 {
            assert(e =~= seq![v as u16] + er);
            assert(e.drop_first() =~= er);
            assert(((v as u16) as char) == c);
            assert(utf16_lossy(e) =~= seq![c] + rest);
            assert forall|k: int| 0 <= k < e.len() && #[trigger] e[k] == 0 implies exists|m: int|
                0 <= m < cs.len() && cs[m] == '\0' by {
                if k == 0 {
                    assert(cs[0] == '\0');
                } else {
                    assert(e[k] == er[k - 1]);
                    let m = choose|m: int| 0 <= m < rest.len() && rest[m] == '\0';
                    assert(cs[m + 1] == '\0');
                }
            }
        } else {
            let hi = (0xD800 + (v - 0x10000) / 0x400) as u16;
            let lo = (0xDC00 + (v - 0x10000) % 0x400) as u16;
            assert(e =~= seq![hi, lo] + er);
            assert(e.subrange(2, e.len() as int) =~= er);
            assert(0x10000 + (hi - 0xD800) * 0x400 + (lo - 0xDC00) == v);
            assert(utf16_lossy(e) =~= seq![c] + rest);
            assert forall|k: int| 0 <= k < e.len() && #[trigger] e[k] == 0 implies exists|m: int|
                0 <= m < cs.len() && cs[m] == '\0' by {
                assert(k >= 2);
                assert(e[k] == er[k - 2]);
                let m = choose|m: int| 0 <= m < rest.len() && rest[m] == '\0';
                assert(cs[m + 1] == '\0');
            }
        }
    }
}

proof fn lemma_nul_index_at_end(units: Seq<u16>, i: nat)
    requires
        i <= units.len(),
        forall|k: int| 0 <= k < units.len() ==> #[trigger] units[k] != 0,
    ensures
        nul_index(units.push(0), i) == units.len(),
    decreases units.len() - i,
{
    if i < units.len() {
        assert(units.push(0)[i as int] == units[i as int]);
        lemma_nul_index_at_end(units, i + 1);
    }
}

/// A path decoded from the device list and encoded again to be opened reads
/// back as itself: decoding the NUL-terminated `wide_path` of a path without
/// NUL characters gives the path.
pub proof fn wide_path_round_trip(path: Seq<char>)
    requires
        forall|i: int| 0 <= i < path.len() ==> path[i] != '\0',
    ensures
        utf16_lossy(before_nul(utf16_encode(path).push(0))) == path,
{
    lemma_utf16_decode_encode(path);
    let e = utf16_encode(path);
    lemma_nul_index_at_end(e, 0);
    assert(e.push(0).subrange(0, e.len() as int) =~= e);
}

/// Index of the first NUL unit at or after `i`, or the length when there is none.
pub open spec fn nul_index(units: Seq<u16>, i: nat) -> nat
    decreases units.len() - i,
{
    if i >= units.len() {
        units.len()
    } else if units[i as int] == 0 {
        i
    } else {
        nul_index(units, i + 1)
    }
}

proof fn lemma_nul_index_bounds(units: Seq<u16>, i: nat)
    requires
        i <= units.len(),
    ensures
        i <= nul_index(units, i) <= units.len(),
        forall|k: int| i <= k < nul_index(units, i) ==> #[trigger] units[k] != 0,
    decreases units.len() - i,
{
    if i < units.len() && units[i as int] != 0 {
        lemma_nul_index_bounds(units, i + 1);
    }
}

/// Decoding units none of which is NUL gives no NUL character.
proof fn lemma_lossy_without_nul(units: Seq<u16>)
    requires
        forall|k: int| 0 <= k < units.len() ==> #[trigger] units[k] != 0,
    ensures
        forall|m: int| 0 <= m < utf16_lossy(units).len() ==> #[trigger] utf16_lossy(units)[m] != '\0',
    decreases units.len(),
{
    if units.len() > 0 {
        let d = utf16_lossy(units);
        if !is_surrogate(units[0]) {
            let rest = units.drop_first();
            lemma_lossy_without_nul(rest);
            assert(units[0] != 0);
            assert((units[0] as char) != '\0');
            assert forall|m: int| 0 <= m < d.len() implies #[trigger] d[m] != '\0' by {
                if m > 0 {
                    assert(d[m] == utf16_lossy(rest)[m - 1]);
                }
            }
        } else if units[0] <= 0xDBFF && units.len() >= 2 && 0xDC00 <= units[1] <= 0xDFFF {
            let rest = units.subrange(2, units.len() as int);
            lemma_lossy_without_nul(rest);
            assert forall|m: int| 0 <= m < d.len() implies #[trigger] d[m] != '\0' by {
                if m > 0 {
                    assert(d[m] == utf16_lossy(rest)[m - 1]);
                }
            }
        } else {
            let rest = units.drop_first();
            lemma_lossy_without_nul(rest);
            assert forall|m: int| 0 <= m < d.len() implies #[trigger] d[m] != '\0' by {
                if m > 0 {
                    assert(d[m] == utf16_lossy(rest)[m - 1]);
                }
            }
        }
    }
}

/// A buffer decoded up to its first NUL holds no NUL character.
proof fn lemma_decoded_has_no_nul(units: Seq<u16>)
    ensures
        forall|m: int|
            0 <= m < utf16_lossy(before_nul(units)).len() ==> #[trigger] utf16_lossy(before_nul(units))[m]
                != '\0',
{
    lemma_nul_index_bounds(units, 0);
    let b = before_nul(units);
    assert forall|k: int| 0 <= k < b.len() implies #[trigger] b[k] != 0 by {
        assert(b[k] == units[k]);
    }
    lemma_lossy_without_nul(b);
}

/// The units of a NUL-terminated buffer before its terminator.
pub open spec fn before_nul(units: Seq<u16>) -> Seq<u16> {
    units.subrange(0, nul_index(units, 0) as int)
}

/// Position of the first NUL unit, or the length of the buffer.
fn first_nul(buf: &[u16]) -> (n: usize)
    ensures
        n as nat == nul_index(buf@, 0),
        n <= buf@.len(),
{
    let mut i: usize = 0;
    while i < buf.len()
        invariant
            i <= buf@.len(),
            nul_index(buf@, 0) == nul_index(buf@, i as nat),
        decreases buf@.len() - i,
    {
        if buf[i] == 0 {
            return i;
        }
        i = i + 1;
    }
    i
}

/// Decodes a NUL-terminated UTF-16 buffer, stopping at the terminator.
pub fn from_wide(buf: &[u16]) -> (s: String)
    ensures
        s@ == utf16_lossy(before_nul(buf@)),
        forall|m: int| 0 <= m < s@.len() ==> #[trigger] s@[m] != '\0',
{
    let end = first_nul(buf);
    proof {
        lemma_decoded_has_no_nul(buf@);
    }
    let s = string_from_utf16_lossy(&buf[0..end]);
    assert(buf@.subrange(0, end as int) =~= before_nul(buf@));
    s
}

/// A decoded wide string, or nothing when it is empty.
pub fn nonempty_from_wide(buf: &[u16]) -> (s: Option<String>)
    ensures
        match s {
            Some(t) => t@ == utf16_lossy(before_nul(buf@)) && t@.len() > 0,
            None => utf16_lossy(before_nul(buf@)).len() == 0,
        },
{
    let s = from_wide(buf);
    if s.as_str().is_empty() {
        None
    } else {
        Some(s)
    }
}

/// A path handed to `CreateFileW`: its UTF-16 encoding followed by a NUL.
pub fn wide_path(path: &str) -> (w: Vec<u16>)
    ensures
        w@ == utf16_encode(path@).push(0),
{
    let mut w = str_encode_utf16(path);
    w.push(0);
    w
}

/// Copies the interface path out of the raw detail record: the units up to the
/// first NUL (or all but the last unit when there is none), then a NUL.
pub fn owned_device_path(path: &[u16]) -> (owned: Vec<u16>)
    requires
        path@.len() >= 1,
    ensures
        owned@ == (if nul_index(path@, 0) < path@.len() {
            before_nul(path@)
        } else {
            path@.drop_last()
        }).push(0),
{
    let mut end = first_nul(path);
    if end == path.len() {
        end = path.len() - 1;
    }
    let mut owned: Vec<u16> = Vec::new();
    let mut i: usize = 0;
    while i < end
        invariant
            end <= path@.len(),
            i <= end,
            owned@ == path@.subrange(0, i as int),
        decreases end - i,
    {
        owned.push(path[i]);
        assert(owned@ =~= path@.subrange(0, i + 1));
        i = i + 1;
    }
    owned.push(0);
    owned
}

/// Number of `u32` words holding a detail record of `required` bytes, the size
/// the sizing call reported; `None` when that is smaller than the record's
/// fixed header, which means the call failed.
pub fn detail_buffer_words(required: u32) -> (n: Option<usize>)
    requires
        required + 3 <= usize::MAX,
    ensures
        n == (if required < (if usize::BITS == 64 { 8u32 } else { 6u32 }) {
            None
        } else {
            Some(((required + 3) / 4) as usize)
        }),
{
    if required < detail_data_cb_size() {
        return None;
    }
    Some((required as usize + 3) / 4)
}

/// What a failed `SetupDiEnumDeviceInterfaces` means for the walk over the
/// interface set: nothing when it only reports that no interface is left
/// (the walk is over), the error otherwise.
pub fn enumeration_failure(err: Error) -> (r: Option<Error>)
    ensures
        r == (if err.code == ERROR_NO_MORE_ITEMS {
            None
        } else {
            Some(err)
        }),
{
    if err.code == ERROR_NO_MORE_ITEMS {
        None
    } else {
        Some(err)
    }
}

/// The capabilities `HidP_GetCaps` filled in when its status is
/// `HIDP_STATUS_SUCCESS`; otherwise the failure, with the status as its code.
pub fn caps_result(status: i32, caps: HIDP_CAPS) -> (r: Result<HIDP_CAPS, Error>)
    ensures
        status == HIDP_STATUS_SUCCESS ==> r == Ok::<HIDP_CAPS, Error>(caps),
        status != HIDP_STATUS_SUCCESS ==> (r matches Err(e) && e.call@ == "HidP_GetCaps"@
            && e.code == status as u32),
{
    if status != HIDP_STATUS_SUCCESS {
        return Err(Error { call: "HidP_GetCaps", code: status as u32 });
    }
    Ok(caps)
}

/// Number of path units a detail record of `required` bytes has room for,
/// past the path's byte offset in the record.
pub fn detail_path_capacity(required: u32, path_offset: usize) -> (n: usize)
    requires
        path_offset <= required,
    ensures
        n == (required - path_offset) / 2,
{
    (required as usize - path_offset) / 2
}

/// Number of `u16` units holding a registry string of `required` bytes.
pub fn description_buffer_units(required: u32) -> (n: usize)
    requires
        required + 1 <= usize::MAX,
    ensures
        n == (required + 1) / 2,
{
    (required as usize + 1) / 2
}

/// What opening the interface and querying it for its HID metadata yielded.
pub enum QueryOutcome {
    /// `CreateFileW` failed with this error code.
    OpenFailed(u32),
    /// `HidD_GetAttributes` failed with this error code.
    AttributesFailed(u32),
    /// The device answered; `caps` is absent when the preparsed data or its
    /// capabilities could not be read.
    Answered {
        attributes: HIDD_ATTRIBUTES,
        caps: Option<HIDP_CAPS>,
        manufacturer: Option<String>,
        product: Option<String>,
        serial_number: Option<String>,
    },
}

/// Collects everything learned about one device interface. SetupAPI metadata
/// is always kept; HID metadata only when the device answered, otherwise the
/// error is recorded instead, so the interface is still listed: a record has
/// HID metadata exactly when it has no error. The path is decoded up to its
/// first NUL and so holds none.
pub fn describe_device(
    path: &[u16],
    instance_id: Option<String>,
    device_desc: Option<String>,
    outcome: QueryOutcome,
) -> (d: HidDevice)
    ensures
        d.path@ == utf16_lossy(before_nul(path@)),
        forall|m: int| 0 <= m < d.path@.len() ==> #[trigger] d.path@[m] != '\0',
        d.info is None <==> d.open_error is Some,
        d.instance_id == instance_id,
        d.device_desc == device_desc,
        match outcome {
            QueryOutcome::OpenFailed(code) => d.info is None && d.open_error == Some(code),
            QueryOutcome::AttributesFailed(code) => d.info is None && d.open_error == Some(code),
            QueryOutcome::Answered { attributes, caps, manufacturer, product, serial_number } => {
                &&& d.open_error is None
                &&& d.info matches Some(info)
                &&& info.vendor_id == attributes.VendorID
                &&& info.product_id == attributes.ProductID
                &&& info.version == attributes.VersionNumber
                &&& info.manufacturer == manufacturer
                &&& info.product == product
                &&& info.serial_number == serial_number
                &&& match caps {
                    Some(c) => {
                        &&& info.usage_page == c.UsagePage
                        &&& info.usage == c.Usage
                        &&& info.input_report_len == c.InputReportByteLength
                        &&& info.output_report_len == c.OutputReportByteLength
                        &&& info.feature_report_len == c.FeatureReportByteLength
                    },
                    None => {
                        &&& info.usage_page == 0
                        &&& info.usage == 0
                        &&& info.input_report_len == 0
                        &&& info.output_report_len == 0
                        &&& info.feature_report_len == 0
                    },
                }
            },
        },
{
    let mut device = HidDevice {
        path: from_wide(path),
        instance_id,
        device_desc,
        info: None,
        open_error: None,
    };
    match outcome {
        QueryOutcome::OpenFailed(code) => {
            device.open_error = Some(code);
        },
        QueryOutcome::AttributesFailed(code) => {
            device.open_error = Some(code);
        },
        QueryOutcome::Answered { attributes, caps, manufacturer, product, serial_number } => {
            let caps = match caps {
                Some(c) => c,
                None => HIDP_CAPS::default(),
            };
            device.info = Some(
                HidInfo {
                    vendor_id: attributes.VendorID,
                    product_id: attributes.ProductID,
                    version: attributes.VersionNumber,
                    manufacturer,
                    product,
                    serial_number,
                    usage_page: caps.UsagePage,
                    usage: caps.Usage,
                    input_report_len: caps.InputReportByteLength,
                    output_report_len: caps.OutputReportByteLength,
                    feature_report_len: caps.FeatureReportByteLength,
                },
            );
        },
    }
    device
}

/// The bytes of one input report: the read buffer cut to what was read.
pub fn received_report(buf: Vec<u8>, read: u32) -> (report: Vec<u8>)
    ensures
        report@ == (if read <= buf@.len() {
            buf@.subrange(0, read as int)
        } else {
            buf@
        }),
{
    let mut buf = buf;
    buf.truncate(read as usize);
    buf
}

} // verus!
