//! Which devices the lister keeps, and the order it lists them in: by
//! `(VID, PID, usage page, usage)`, so that the interfaces of one physical
//! device are adjacent, then by path.
use vstd::prelude::*;
use vstd::string::*;
use vstd::utf8::encode_utf8;

use crate::cli::Args;
use crate::hid::{device_vid_pid, HidDevice};

verus! {

/// Sort key of a device: its `(VID, PID)` with its usage page and usage
/// (zeros when it could not be opened); nothing when no VID/PID is known.
pub open spec fn sort_key(d: HidDevice) -> Option<(u16, u16, (u16, u16))> {
    match device_vid_pid(d) {
        Some((vid, pid)) => Some(
            (
                vid,
                pid,
                match d.info {
                    Some(i) => (i.usage_page, i.usage),
                    None => (0u16, 0u16),
                },
            ),
        ),
        None => None,
    }
}

/// The order of `Option<(u16, u16, (u16, u16))>`: `None` first, then tuples
/// lexicographically.
pub open spec fn key_lt(a: Option<(u16, u16, (u16, u16))>, b: Option<(u16, u16, (u16, u16))>) -> bool {
    match (a, b) {
        (None, Some(_)) => true,
        (Some(x), Some(y)) => {
            ||| x.0 < y.0
            ||| (x.0 == y.0 && x.1 < y.1)
            ||| (x.0 == y.0 && x.1 == y.1 && x.2.0 < y.2.0)
            ||| (x.0 == y.0 && x.1 == y.1 && x.2.0 == y.2.0 && x.2.1 < y.2.1)
        },
        _ => false,
    }
}

/// Lexicographic order of byte strings, as `String`s compare.
pub open spec fn bytes_lt(a: Seq<u8>, b: Seq<u8>) -> bool
    decreases a.len(),
{
    if a.len() == 0 {
        b.len() > 0
    } else if b.len() == 0 {
        false
    } else if a[0] != b[0] {
        a[0] < b[0]
    } else {
        bytes_lt(a.drop_first(), b.drop_first())
    }
}

/// `a` is listed before `b`: a smaller key, or the same key and a smaller path.
pub open spec fn precedes(a: HidDevice, b: HidDevice) -> bool {
    ||| key_lt(sort_key(a), sort_key(b))
    ||| (sort_key(a) == sort_key(b) && bytes_lt(encode_utf8(a.path@), encode_utf8(b.path@)))
}

/// Neither device is listed before the other.
pub open spec fn same_rank(a: HidDevice, b: HidDevice) -> bool {
    !precedes(a, b) && !precedes(b, a)
}

proof fn lemma_bytes_lt_irreflexive(a: Seq<u8>)
    ensures
        !bytes_lt(a, a),
    decreases a.len(),
{
    if a.len() > 0 {
        lemma_bytes_lt_irreflexive(a.drop_first());
    }
}

proof fn lemma_bytes_lt_transitive(a: Seq<u8>, b: Seq<u8>, c: Seq<u8>)
    requires
        bytes_lt(a, b),
        bytes_lt(b, c),
    ensures
        bytes_lt(a, c),
    decreases a.len(),
{
    if a.len() > 0 && b.len() > 0 && c.len() > 0 && a[0] == b[0] && b[0] == c[0] {
        lemma_bytes_lt_transitive(a.drop_first(), b.drop_first(), c.drop_first());
    }
}

proof fn lemma_bytes_lt_total(a: Seq<u8>, b: Seq<u8>)
    ensures
        a == b || bytes_lt(a, b) || bytes_lt(b, a),
    decreases a.len(),
{
    if a.len() > 0 && b.len() > 0 && a[0] == b[0] {
        lemma_bytes_lt_total(a.drop_first(), b.drop_first());
        if a.drop_first() == b.drop_first() {
            assert(a =~= seq![a[0]] + a.drop_first());
            assert(b =~= seq![b[0]] + b.drop_first());
        }
    } else if a.len() == 0 && b.len() == 0 {
        assert(a =~= b);
    }
}

proof fn lemma_bytes_lt_asymmetric(a: Seq<u8>, b: Seq<u8>)
    requires
        bytes_lt(a, b),
    ensures
        !bytes_lt(b, a),
{
    if bytes_lt(b, a) {
        lemma_bytes_lt_transitive(a, b, a);
        lemma_bytes_lt_irreflexive(a);
    }
}

/// Listing order is asymmetric.
pub proof fn lemma_precedes_asymmetric(a: HidDevice, b: HidDevice)
    requires
        precedes(a, b),
    ensures
        !precedes(b, a),
{
    let (pa, pb) = (encode_utf8(a.path@), encode_utf8(b.path@));
    if sort_key(a) == sort_key(b) && bytes_lt(pa, pb) {
        lemma_bytes_lt_asymmetric(pa, pb);
    }
}

/// Listing order is transitive.
pub proof fn lemma_precedes_transitive(a: HidDevice, b: HidDevice, c: HidDevice)
    requires
        precedes(a, b),
        precedes(b, c),
    ensures
        precedes(a, c),
{
    let (pa, pb, pc) = (encode_utf8(a.path@), encode_utf8(b.path@), encode_utf8(c.path@));
    if sort_key(a) == sort_key(b) && sort_key(b) == sort_key(c) {
        lemma_bytes_lt_transitive(pa, pb, pc);
    }
}

/// "Not listed after" is transitive.
pub proof fn lemma_not_precedes_transitive(a: HidDevice, b: HidDevice, c: HidDevice)
    requires
        !precedes(a, b),
        !precedes(b, c),
    ensures
        !precedes(a, c),
{
    let (pa, pb, pc) = (encode_utf8(a.path@), encode_utf8(b.path@), encode_utf8(c.path@));
    lemma_bytes_lt_total(pa, pb);
    lemma_bytes_lt_total(pb, pc);
    if precedes(a, c) {
        if sort_key(a) == sort_key(b) && sort_key(b) == sort_key(c) {
            if pa == pb {
            } else if pb == pc {
            } else {
                lemma_bytes_lt_transitive(pc, pb, pa);
                lemma_bytes_lt_asymmetric(pc, pa);
            }
        }
    }
}

/// Whether byte string `a` sorts before `b`.
fn bytes_less(a: &[u8], b: &[u8]) -> (r: bool)
    ensures
        r == bytes_lt(a@, b@),
{
    let mut i: usize = 0;
    assert(a@.skip(0) =~= a@);
    assert(b@.skip(0) =~= b@);
    loop
        invariant
            i <= a@.len(),
            i <= b@.len(),
            bytes_lt(a@, b@) == bytes_lt(a@.skip(i as int), b@.skip(i as int)),
        decreases a@.len() - i,
    {
        if i == a.len() {
            return i < b.len();
        }
        if i == b.len() {
            return false;
        }
        if a[i] != b[i] {
            return a[i] < b[i];
        }
        assert(a@.skip(i as int).drop_first() =~= a@.skip(i + 1));
        assert(b@.skip(i as int).drop_first() =~= b@.skip(i + 1));
        i = i + 1;
    }
}

/// The sort key of a device.
fn key_of(d: &HidDevice) -> (k: Option<(u16, u16, (u16, u16))>)
    ensures
        k == sort_key(*d),
{
    match d.vendor_product_id() {
        Some((vid, pid)) => {
            let usage = match &d.info {
                Some(i) => (i.usage_page, i.usage),
                None => (0u16, 0u16),
            };
            Some((vid, pid, usage))
        },
        None => None,
    }
}

/// Whether key `a` sorts before key `b`.
fn key_less(a: Option<(u16, u16, (u16, u16))>, b: Option<(u16, u16, (u16, u16))>) -> (r: bool)
    ensures
        r == key_lt(a, b),
{
    match (a, b) {
        (None, Some(_)) => true,
        (Some(x), Some(y)) => x.0 < y.0 || (x.0 == y.0 && x.1 < y.1) || (x.0 == y.0 && x.1 == y.1
            && x.2.0 < y.2.0) || (x.0 == y.0 && x.1 == y.1 && x.2.0 == y.2.0 && x.2.1 < y.2.1),
        _ => false,
    }
}

/// Whether device `a` is listed before device `b`.
pub fn lists_before(a: &HidDevice, b: &HidDevice) -> (r: bool)
    ensures
        r == precedes(*a, *b),
{
    let ka = key_of(a);
    let kb = key_of(b);
    if key_less(ka, kb) {
        return true;
    }
    let equal_keys = !key_less(kb, ka);
    if equal_keys {
        assert(ka == kb);
        bytes_less(a.path.as_str().as_bytes(), b.path.as_str().as_bytes())
    } else {
        false
    }
}

/// No device of `s` is listed before one that comes earlier in `s`.
pub open spec fn sorted(s: Seq<HidDevice>) -> bool {
    forall|i: int, j: int| 0 <= i < j < s.len() ==> !precedes(#[trigger] s[j], #[trigger] s[i])
}

/// `out[k] == inp[perm[k]]` for a permutation `perm` of the positions.
pub open spec fn permutes(out: Seq<HidDevice>, inp: Seq<HidDevice>, perm: Seq<int>) -> bool {
    &&& out.len() == inp.len()
    &&& perm.len() == out.len()
    &&& forall|k: int| 0 <= k < perm.len() ==> 0 <= #[trigger] perm[k] < inp.len()
    &&& forall|a: int, b: int| 0 <= a < b < perm.len() ==> #[trigger] perm[a] != #[trigger] perm[b]
    &&& forall|k: int| 0 <= k < out.len() ==> #[trigger] out[k] == inp[perm[k]]
}

/// `out` is `inp` sorted in listing order by a stable sort: equally ranked
/// devices keep their relative order.
pub open spec fn stably_sorted(out: Seq<HidDevice>, inp: Seq<HidDevice>) -> bool {
    &&& sorted(out)
    &&& exists|perm: Seq<int>|
        {
            &&& permutes(out, inp, perm)
            &&& forall|a: int, b: int|
                0 <= a < b < out.len() && same_rank(#[trigger] out[a], #[trigger] out[b])
                    ==> perm[a] < perm[b]
        }
}

/// Every position of the input is taken by a permutation.
proof fn lemma_permutation_onto(perm: Seq<int>, n: int, j: int)
    requires
        perm.len() == n,
        forall|k: int| 0 <= k < n ==> 0 <= #[trigger] perm[k] < n,
        forall|a: int, b: int| 0 <= a < b < n ==> #[trigger] perm[a] != #[trigger] perm[b],
        0 <= j < n,
    ensures
        exists|k: int| 0 <= k < n && perm[k] == j,
{
    assert(perm.no_duplicates()) by {
        assert forall|a: int, b: int| 0 <= a < perm.len() && 0 <= b < perm.len() && a != b implies perm[a]
            != perm[b] by {
            if b < a {
                assert(perm[b] != perm[a]);
            }
        }
    }
    perm.unique_seq_to_set();
    vstd::seq_lib::seq_to_set_is_finite(perm);
    vstd::set_lib::lemma_int_range(0, n);
    let range = vstd::set_lib::set_int_range(0, n);
    assert(perm.to_set().subset_of(range)) by {
        assert forall|x: int| perm.to_set().contains(x) implies range.contains(x) by {
            let k = choose|k: int| 0 <= k < perm.len() && perm[k] == x;
        }
    }
    vstd::set_lib::lemma_subset_equality(perm.to_set(), range);
    assert(range.contains(j));
    assert(perm.to_set().contains(j));
}

/// Input position `i` comes out before input position `j` under a stable sort:
/// its device is listed first, or they rank equally and `i` came first.
spec fn comes_out_before(inp: Seq<HidDevice>, i: int, j: int) -> bool {
    ||| precedes(inp[i], inp[j])
    ||| (same_rank(inp[i], inp[j]) && i < j)
}

/// The permutations of two stable sorts of one input agree on their first `k` positions.
proof fn lemma_stable_permutations_agree(
    inp: Seq<HidDevice>,
    p1: Seq<int>,
    p2: Seq<int>,
    k: int,
)
    requires
        p1.len() == inp.len(),
        p2.len() == inp.len(),
        0 <= k <= inp.len(),
        forall|a: int| 0 <= a < inp.len() ==> 0 <= #[trigger] p1[a] < inp.len(),
        forall|a: int| 0 <= a < inp.len() ==> 0 <= #[trigger] p2[a] < inp.len(),
        forall|a: int, b: int| 0 <= a < b < inp.len() ==> #[trigger] p1[a] != #[trigger] p1[b],
        forall|a: int, b: int| 0 <= a < b < inp.len() ==> #[trigger] p2[a] != #[trigger] p2[b],
        forall|a: int, b: int|
            0 <= a < b < inp.len() ==> comes_out_before(inp, #[trigger] p1[a], #[trigger] p1[b]),
        forall|a: int, b: int|
            0 <= a < b < inp.len() ==> comes_out_before(inp, #[trigger] p2[a], #[trigger] p2[b]),
    ensures
        forall|a: int| 0 <= a < k ==> #[trigger] p1[a] == p2[a],
    decreases k,
{
    if k > 0 {
        let c = k - 1;
        lemma_stable_permutations_agree(inp, p1, p2, c);
        let (i, j) = (p1[c], p2[c]);
        if i != j {
            let n = inp.len() as int;
            lemma_permutation_onto(p1, n, j);
            let m = choose|m: int| 0 <= m < n && p1[m] == j;
            lemma_permutation_onto(p2, n, i);
            let m2 = choose|m: int| 0 <= m < n && p2[m] == i;
            if m < c {
                assert(p1[m] == p2[m]);
                assert(p2[m] != p2[c]);
            }
            if m2 < c {
                assert(p1[m2] == p2[m2]);
                assert(p1[m2] != p1[c]);
            }
            assert(comes_out_before(inp, p1[c], p1[m]));
            assert(comes_out_before(inp, p2[c], p2[m2]));
            if precedes(inp[i], inp[j]) {
                lemma_precedes_asymmetric(inp[i], inp[j]);
            }
        }
    }
}

/// A stable sort has a single outcome: two stably sorted arrangements of the
/// same devices are the same sequence.
pub proof fn stable_sort_is_unique(inp: Seq<HidDevice>, out1: Seq<HidDevice>, out2: Seq<HidDevice>)
    requires
        stably_sorted(out1, inp),
        stably_sorted(out2, inp),
    ensures
        out1 == out2,
{
    let p1 = choose|perm: Seq<int>|
        {
            &&& permutes(out1, inp, perm)
            &&& forall|a: int, b: int|
                0 <= a < b < out1.len() && same_rank(#[trigger] out1[a], #[trigger] out1[b])
                    ==> perm[a] < perm[b]
        };
    let p2 = choose|perm: Seq<int>|
        {
            &&& permutes(out2, inp, perm)
            &&& forall|a: int, b: int|
                0 <= a < b < out2.len() && same_rank(#[trigger] out2[a], #[trigger] out2[b])
                    ==> perm[a] < perm[b]
        };
    assert forall|a: int, b: int| 0 <= a < b < inp.len() implies comes_out_before(
        inp,
        #[trigger] p1[a],
        #[trigger] p1[b],
    ) by {
        assert(out1[a] == inp[p1[a]] && out1[b] == inp[p1[b]]);
        assert(!precedes(out1[b], out1[a]));
    }
    assert forall|a: int, b: int| 0 <= a < b < inp.len() implies comes_out_before(
        inp,
        #[trigger] p2[a],
        #[trigger] p2[b],
    ) by {
        assert(out2[a] == inp[p2[a]] && out2[b] == inp[p2[b]]);
        assert(!precedes(out2[b], out2[a]));
    }
    lemma_stable_permutations_agree(inp, p1, p2, inp.len() as int);
    assert forall|a: int| 0 <= a < out1.len() implies out1[a] == out2[a] by {
        assert(p1[a] == p2[a]);
    }
    assert(out1 =~= out2);
}

/// Sorting devices that are already in listing order leaves them as they are.
pub proof fn sorting_sorted_devices_changes_nothing(ds: Seq<HidDevice>, out: Seq<HidDevice>)
    requires
        sorted(ds),
        stably_sorted(out, ds),
    ensures
        out == ds,
{
    let id = Seq::new(ds.len(), |k: int| k);
    assert(permutes(ds, ds, id));
    assert(stably_sorted(ds, ds));
    stable_sort_is_unique(ds, out, ds);
}

/// Where position `k` of the sequence took its element from when the element
/// at `i` moved to `j <= i`.
spec fn moved_from(k: int, i: int, j: int) -> int {
    if k < j {
        k
    } else if k == j {
        i
    } else if k <= i {
        k - 1
    } else {
        k
    }
}

/// Sorts the devices in listing order, keeping equally ranked ones in their
/// relative order from the input (insertion sort: each device moves left past the
/// devices it is listed before).
pub fn sort_devices(devices: &mut Vec<HidDevice>)
    ensures
        stably_sorted(final(devices)@, old(devices)@),
{
    let ghost orig = devices@;
    let n = devices.len();
    let ghost mut perm: Seq<int> = Seq::new(n as nat, |k: int| k);
    let mut i: usize = 0;
    while i < n
        invariant
            n == devices@.len(),
            n == orig.len(),
            i <= n,
            permutes(devices@, orig, perm),
            forall|a: int, b: int|
                0 <= a < b < i ==> !precedes(#[trigger] devices@[b], #[trigger] devices@[a]),
            forall|a: int, b: int|
                0 <= a < b < i && same_rank(#[trigger] devices@[a], #[trigger] devices@[b])
                    ==> perm[a] < perm[b],
            forall|k: int| i <= k < n ==> #[trigger] perm[k] == k,
            forall|k: int| 0 <= k < i ==> #[trigger] perm[k] < i,
        decreases n - i,
    {
        let ghost v0 = devices@;
        let ghost p0 = perm;
        let x = devices.remove(i);
        let ghost w = devices@;
        assert(forall|k: int| 0 <= k < i ==> #[trigger] w[k] == v0[k]);
        let mut j: usize = i;
        while j > 0 && lists_before(&x, &devices[j - 1])
            invariant
                j <= i,
                i < n,
                devices@ == w,
                w.len() == n - 1,
                x == v0[i as int],
                forall|k: int| 0 <= k < i ==> #[trigger] w[k] == v0[k],
                forall|k: int| j <= k < i ==> precedes(x, #[trigger] v0[k]),
            decreases j,
        {
            j = j - 1;
        }
        let ghost jj = j as int;
        let ghost ii = i as int;
        assert(jj == 0 || !precedes(x, v0[jj - 1]));
        devices.insert(j, x);
        proof {
            let v1 = devices@;
            let p1 = Seq::new(n as nat, |k: int| p0[moved_from(k, ii, jj)]);
            assert forall|k: int| 0 <= k < n implies #[trigger] v1[k] == v0[moved_from(
                k,
                ii,
                jj,
            )] by {
                if k > ii {
                    assert(v1[k] == w[k - 1]);
                }
            }
            assert forall|a: int, b: int| 0 <= a < b < p1.len() implies #[trigger] p1[a]
                != #[trigger] p1[b] by {
                assert(moved_from(a, ii, jj) != moved_from(b, ii, jj));
                let (ma, mb) = (moved_from(a, ii, jj), moved_from(b, ii, jj));
                if ma < mb {
                    assert(p0[ma] != p0[mb]);
                } else {
                    assert(p0[mb] != p0[ma]);
                }
            }
            assert forall|k: int| 0 <= k < p1.len() implies 0 <= #[trigger] p1[k] < orig.len() by {
                assert(0 <= moved_from(k, ii, jj) < n);
            }
            assert forall|k: int| 0 <= k < v1.len() implies #[trigger] v1[k] == orig[p1[k]] by {
                assert(v1[k] == v0[moved_from(k, ii, jj)]);
            }
            assert forall|a: int, b: int| 0 <= a < b < ii + 1 implies !precedes(
                #[trigger] v1[b],
                #[trigger] v1[a],
            ) by {
                let (ma, mb) = (moved_from(a, ii, jj), moved_from(b, ii, jj));
                assert(v1[a] == v0[ma]);
                assert(v1[b] == v0[mb]);
                if a == jj {
                    lemma_precedes_asymmetric(x, v0[mb]);
                } else if b == jj {
                    if a < jj - 1 {
                        assert(!precedes(v0[jj - 1], v0[a]));
                        lemma_not_precedes_transitive(x, v0[jj - 1], v0[a]);
                    }
                } else {
                    assert(ma < mb < ii);
                }
            }
            assert forall|a: int, b: int|
                0 <= a < b < ii + 1 && same_rank(#[trigger] v1[a], #[trigger] v1[b]) implies p1[a]
                < p1[b] by {
                let (ma, mb) = (moved_from(a, ii, jj), moved_from(b, ii, jj));
                assert(v1[a] == v0[ma]);
                assert(v1[b] == v0[mb]);
                if a == jj {
                    assert(precedes(x, v0[mb]));
                } else if b == jj {
                    assert(p0[ma] < ii);
                    assert(p0[ii] == ii);
                } else {
                    assert(ma < mb < ii);
                    assert(same_rank(v0[ma], v0[mb]));
                }
            }
            assert forall|k: int| ii + 1 <= k < n implies #[trigger] p1[k] == k by {
                assert(p0[k] == k);
            }
            assert forall|k: int| 0 <= k < ii + 1 implies #[trigger] p1[k] < ii + 1 by {
                let mk = moved_from(k, ii, jj);
                if mk < ii {
                    assert(p0[mk] < ii);
                } else {
                    assert(p0[ii] == ii);
                }
            }
            perm = p1;
        }
        i = i + 1;
    }
    assert(permutes(devices@, orig, perm));
}

/// A device matches the vendor and product filters: its VID/PID is known and
/// agrees with each filter that is set.
pub open spec fn wanted(d: HidDevice, vid: Option<u16>, pid: Option<u16>) -> bool {
    match device_vid_pid(d) {
        Some((v, p)) => (vid is None || vid == Some(v)) && (pid is None || pid == Some(p)),
        None => false,
    }
}

/// The devices of `ds` that match the filters, in the order they came in.
pub open spec fn retained(ds: Seq<HidDevice>, vid: Option<u16>, pid: Option<u16>) -> Seq<HidDevice>
    decreases ds.len(),
{
    if ds.len() == 0 {
        Seq::empty()
    } else {
        let r = retained(ds.drop_last(), vid, pid);
        if wanted(ds.last(), vid, pid) {
            r.push(ds.last())
        } else {
            r
        }
    }
}

pub(crate) proof fn lemma_retained_len(ds: Seq<HidDevice>, vid: Option<u16>, pid: Option<u16>)
    ensures
        retained(ds, vid, pid).len() <= ds.len(),
    decreases ds.len(),
{
    if ds.len() > 0 {
        lemma_retained_len(ds.drop_last(), vid, pid);
    }
}

/// What the lister keeps of the enumeration: everything when no filter is
/// set, otherwise the matching devices.
pub open spec fn kept(ds: Seq<HidDevice>, args: Args) -> Seq<HidDevice> {
    if args.vid is Some || args.pid is Some {
        retained(ds, args.vid, args.pid)
    } else {
        ds
    }
}

/// Drops the devices the vendor/product filters exclude, keeping the order of
/// the rest. A device whose VID/PID cannot be recovered never matches a filter.
pub fn filter_devices(devices: Vec<HidDevice>, args: &Args) -> (out: Vec<HidDevice>)
    ensures
        out@ == kept(devices@, *args),
{
    if !args.has_filter() {
        return devices;
    }
    let ghost orig = devices@;
    let n = devices.len();
    let mut rest = devices;
    let mut out: Vec<HidDevice> = Vec::new();
    let mut i: usize = 0;
    assert(orig.subrange(0, 0) =~= Seq::<HidDevice>::empty());
    assert(orig.subrange(0, n as int) =~= orig);
    while i < n
        invariant
            n == orig.len(),
            i <= n,
            rest@ == orig.subrange(i as int, n as int),
            out@ == retained(orig.subrange(0, i as int), args.vid, args.pid),
        decreases n - i,
    {
        let d = rest.remove(0);
        assert(d == orig[i as int]);
        assert(rest@ =~= orig.subrange(i + 1, n as int));
        assert(orig.subrange(0, i + 1).drop_last() =~= orig.subrange(0, i as int));
        let keep = match d.vendor_product_id() {
            Some((vid, pid)) => {
                (match args.vid {
                    Some(want) => want == vid,
                    None => true,
                }) && (match args.pid {
                    Some(want) => want == pid,
                    None => true,
                })
            },
            None => false,
        };
        if keep {
            out.push(d);
        }
        i = i + 1;
    }
    out
}

/// In listing order, the interfaces of one physical device are adjacent: any
/// device listed between two devices with the same `(VID, PID)` (or two
/// devices with none) has that same `(VID, PID)` too.
pub proof fn sorted_keeps_products_together(ds: Seq<HidDevice>, i: int, j: int, k: int)
    requires
        sorted(ds),
        0 <= i < j < k < ds.len(),
        device_vid_pid(ds[i]) == device_vid_pid(ds[k]),
    ensures
        device_vid_pid(ds[j]) == device_vid_pid(ds[i]),
{
    assert(!precedes(ds[j], ds[i]));
    assert(!precedes(ds[k], ds[j]));
}

/// Every device the filters keep matches them, and without filters nothing is dropped.
pub proof fn kept_devices_match(ds: Seq<HidDevice>, args: Args)
    ensures
        args.vid is Some || args.pid is Some ==> forall|k: int|
            0 <= k < kept(ds, args).len() ==> wanted(#[trigger] kept(ds, args)[k], args.vid, args.pid),
        args.vid is None && args.pid is None ==> kept(ds, args) == ds,
    decreases ds.len(),
{
    if ds.len() > 0 && (args.vid is Some || args.pid is Some) {
        kept_devices_match(ds.drop_last(), args);
        let r = retained(ds.drop_last(), args.vid, args.pid);
        assert forall|k: int| 0 <= k < kept(ds, args).len() implies wanted(
            #[trigger] kept(ds, args)[k],
            args.vid,
            args.pid,
        ) by {
            if k < r.len() {
                assert(kept(ds, args)[k] == r[k]);
                assert(kept(ds.drop_last(), args)[k] == r[k]);
            }
        }
    }
}


/// Whether a device's recoverable `(VID, PID)` agrees with the filters that
/// are set; a device whose VID/PID cannot be recovered agrees with none.
pub open spec fn matches_filters(d: HidDevice, vid: Option<u16>, pid: Option<u16>) -> bool {
    match device_vid_pid(d) {
        Some((v, p)) => (vid is None || vid == Some(v)) && (pid is None || pid == Some(p)),
        None => false,
    }
}

/// The filters keep exactly the devices that match them, every one of them,
/// in the order they came in — whether or not a device could be opened, since
/// an unopened device is matched through the VID/PID of its instance ID — and
/// without filters every device is kept.
pub proof fn filters_keep_exactly_the_matching_devices(ds: Seq<HidDevice>, args: Args)
    ensures
        (args.vid is Some || args.pid is Some) ==> kept(ds, args) == ds.filter(
            |d: HidDevice| matches_filters(d, args.vid, args.pid),
        ),
        (args.vid is None && args.pid is None) ==> kept(ds, args) == ds,
        forall|k: int|
            #![trigger ds[k]]
            0 <= k < ds.len() && matches_filters(ds[k], args.vid, args.pid) ==> kept(ds, args).contains(
                ds[k],
            ),
    decreases ds.len(),
{
    reveal(Seq::filter);
    let pred = |d: HidDevice| matches_filters(d, args.vid, args.pid);
    if ds.len() > 0 {
        filters_keep_exactly_the_matching_devices(ds.drop_last(), args);
    }
    if args.vid is Some || args.pid is Some {
        assert(retained(ds, args.vid, args.pid) == ds.filter(pred)) by {
            lemma_retained_is_filter(ds, args.vid, args.pid);
        }
        assert forall|k: int|
            #![trigger ds[k]]
            0 <= k < ds.len() && matches_filters(ds[k], args.vid, args.pid) implies kept(ds, args).contains(
            ds[k],
        ) by {
            ds.lemma_filter_contains(pred, k);
        }
    } else {
        assert forall|k: int| #![trigger ds[k]] 0 <= k < ds.len() && matches_filters(ds[k], args.vid, args.pid)
            implies kept(ds, args).contains(ds[k]) by {
            assert(kept(ds, args)[k] == ds[k]);
        }
    }
}

proof fn lemma_retained_is_filter(ds: Seq<HidDevice>, vid: Option<u16>, pid: Option<u16>)
    ensures
        retained(ds, vid, pid) == ds.filter(|d: HidDevice| matches_filters(d, vid, pid)),
    decreases ds.len(),
{
    reveal(Seq::filter);
    if ds.len() > 0 {
        lemma_retained_is_filter(ds.drop_last(), vid, pid);
    }
}

/// The usage page a device is ordered by: its own once opened, zero otherwise.
pub open spec fn order_page(d: HidDevice) -> u16 {
    match d.info {
        Some(i) => i.usage_page,
        None => 0,
    }
}

/// The usage a device is ordered by: its own once opened, zero otherwise.
pub open spec fn order_usage(d: HidDevice) -> u16 {
    match d.info {
        Some(i) => i.usage,
        None => 0,
    }
}

/// Listing order compares, in turn: whether a VID/PID is known at all (devices
/// without one first), the VID, the PID, the usage page (zero for a device that
/// could not be opened), the usage, and last the path's bytes; the first of
/// these that differs decides, whatever the later ones are.
pub proof fn listing_order_compares_ids_then_usage_then_path(a: HidDevice, b: HidDevice)
    ensures
        device_vid_pid(a) is None && device_vid_pid(b) is Some ==> precedes(a, b),
        device_vid_pid(a) is Some && device_vid_pid(b) is None ==> !precedes(a, b),
        device_vid_pid(a) matches Some((va, pa)) ==> device_vid_pid(b) matches Some((vb, pb)) ==> {
            &&& va < vb ==> precedes(a, b)
            &&& va == vb && pa < pb ==> precedes(a, b)
            &&& va == vb && pa == pb && order_page(a) < order_page(b) ==> precedes(a, b)
            &&& va == vb && pa == pb && order_page(a) == order_page(b) && order_usage(a) < order_usage(b)
                ==> precedes(a, b)
        },
        device_vid_pid(a) == device_vid_pid(b) && order_page(a) == order_page(b) && order_usage(a)
            == order_usage(b) ==> (precedes(a, b) <==> bytes_lt(encode_utf8(a.path@), encode_utf8(b.path@))),
{
}

/// In listing order, the interfaces of one physical device come by usage page,
/// and by usage within a page.
pub proof fn sorted_devices_come_by_usage_page(ds: Seq<HidDevice>, i: int, j: int)
    requires
        sorted(ds),
        0 <= i < j < ds.len(),
        device_vid_pid(ds[i]) is Some,
        device_vid_pid(ds[i]) == device_vid_pid(ds[j]),
    ensures
        order_page(ds[i]) <= order_page(ds[j]),
        order_page(ds[i]) == order_page(ds[j]) ==> order_usage(ds[i]) <= order_usage(ds[j]),
{
    listing_order_compares_ids_then_usage_then_path(ds[j], ds[i]);
    assert(!precedes(ds[j], ds[i]));
}


/// Paths compare byte by byte, as strings do: at the first byte where two
/// paths differ the smaller byte comes first, and a path that runs out first
/// (a proper prefix of the other) comes first; no path comes before itself.
pub proof fn paths_compare_byte_by_byte(a: Seq<u8>, b: Seq<u8>, k: int)
    requires
        0 <= k <= a.len(),
        k <= b.len(),
        a.subrange(0, k) == b.subrange(0, k),
    ensures
        k == a.len() && k < b.len() ==> bytes_lt(a, b),
        k < a.len() && k < b.len() && a[k] < b[k] ==> bytes_lt(a, b),
        k < a.len() && k < b.len() && a[k] > b[k] ==> !bytes_lt(a, b),
        !bytes_lt(a, a),
    decreases k,
{
    lemma_bytes_lt_irreflexive(a);
    if k > 0 {
        assert(a[0] == a.subrange(0, k)[0]);
        assert(b[0] == b.subrange(0, k)[0]);
        assert(a.drop_first().subrange(0, k - 1) =~= b.drop_first().subrange(0, k - 1)) by {
            assert forall|m: int| 0 <= m < k - 1 implies a.drop_first()[m] == b.drop_first()[m] by {
                assert(a.subrange(0, k)[m + 1] == b.subrange(0, k)[m + 1]);
                assert(a.subrange(0, k)[m + 1] == a[m + 1]);
                assert(b.subrange(0, k)[m + 1] == b[m + 1]);
            }
        }
        paths_compare_byte_by_byte(a.drop_first(), b.drop_first(), k - 1);
    }
}

} // verus!
