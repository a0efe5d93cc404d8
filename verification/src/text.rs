//! Number formatting and parsing on the byte and character level.
use vstd::prelude::*;
use vstd::string::*;

verus! {

/// The character of a digit value in `0..16`, upper case past nine.
pub open spec fn digit_char(d: nat) -> char {
    if d < 10 {
        ((d + 48) as u32) as char
    } else {
        ((d + 55) as u32) as char
    }
}

/// Decimal spelling of `n`, without leading zeros.
pub open spec fn decimal(n: nat) -> Seq<char>
    decreases n,
{
    if n < 10 {
        seq![digit_char(n)]
    } else {
        decimal(n / 10).push(digit_char(n % 10))
    }
}

/// Upper-case hexadecimal spelling of `n`, without leading zeros.
pub open spec fn hex_upper(n: nat) -> Seq<char>
    decreases n,
{
    if n < 16 {
        seq![digit_char(n)]
    } else {
        hex_upper(n / 16).push(digit_char(n % 16))
    }
}

/// `s` right-aligned in a field of `width` characters filled with `fill`.
pub open spec fn pad_left(s: Seq<char>, width: nat, fill: char) -> Seq<char> {
    if s.len() >= width {
        s
    } else {
        Seq::new((width - s.len()) as nat, |_i: int| fill) + s
    }
}

/// A one-character string holding the digit `d`.
fn digit_str(d: u64) -> (s: &'static str)
    requires
        d < 16,
    ensures
        s@ == seq![digit_char(d as nat)],
{
    match d {
        0 => { proof { reveal_strlit("0"); } "0" },
        1 => { proof { reveal_strlit("1"); } "1" },
        2 => { proof { reveal_strlit("2"); } "2" },
        3 => { proof { reveal_strlit("3"); } "3" },
        4 => { proof { reveal_strlit("4"); } "4" },
        5 => { proof { reveal_strlit("5"); } "5" },
        6 => { proof { reveal_strlit("6"); } "6" },
        7 => { proof { reveal_strlit("7"); } "7" },
        8 => { proof { reveal_strlit("8"); } "8" },
        9 => { proof { reveal_strlit("9"); } "9" },
        10 => { proof { reveal_strlit("A"); } "A" },
        11 => { proof { reveal_strlit("B"); } "B" },
        12 => { proof { reveal_strlit("C"); } "C" },
        13 => { proof { reveal_strlit("D"); } "D" },
        14 => { proof { reveal_strlit("E"); } "E" },
        _ => { proof { reveal_strlit("F"); } "F" },
    }
}

/// Appends the decimal spelling of `n`.
pub fn push_decimal(out: &mut String, n: u64)
    ensures
        final(out)@ == old(out)@ + decimal(n as nat),
    decreases n,
{
    if n >= 10 {
        push_decimal(out, n / 10);
    }
    out.append(digit_str(n % 10));
}

/// Appends the upper-case hexadecimal spelling of `n`.
pub fn push_hex(out: &mut String, n: u64)
    ensures
        final(out)@ == old(out)@ + hex_upper(n as nat),
    decreases n,
{
    if n >= 16 {
        push_hex(out, n / 16);
    }
    out.append(digit_str(n % 16));
}

/// Appends `width - len` copies of the one-character string `fill`, then `body`.
fn push_padded(out: &mut String, body: &String, width: usize, fill: &str)
    requires
        fill@.len() == 1,
    ensures
        final(out)@ == old(out)@ + pad_left(body@, width as nat, fill@[0]),
{
    let len = body.as_str().unicode_len();
    let ghost start = out@;
    if len < width {
        let mut i: usize = 0;
        while i < width - len
            invariant
                len == body@.len(),
                len < width,
                fill@.len() == 1,
                i <= width - len,
                out@ == start + Seq::new(i as nat, |_j: int| fill@[0]),
            decreases width - len - i,
        {
            out.append(fill);
            proof {
                assert(Seq::new(i as nat, |_j: int| fill@[0]) + fill@ =~= Seq::new(
                    (i + 1) as nat,
                    |_j: int| fill@[0],
                ));
            }
            i = i + 1;
        }
    }
    out.append(body.as_str());
    proof {
        if len < width {
            assert(out@ =~= start + (Seq::new((width - len) as nat, |_j: int| fill@[0]) + body@));
        } else {
            assert(out@ =~= start + body@);
        }
    }
}

/// Upper-case hexadecimal, zero-filled to at least `width` digits (`{:0width$X}`).
pub fn padded_hex(n: u64, width: usize) -> (s: String)
    ensures
        s@ == pad_left(hex_upper(n as nat), width as nat, '0'),
{
    let mut digits = String::new();
    push_hex(&mut digits, n);
    assert(digits@ =~= hex_upper(n as nat));
    let mut s = String::new();
    proof {
        reveal_strlit("0");
    }
    push_padded(&mut s, &digits, width, "0");
    assert(s@ =~= pad_left(hex_upper(n as nat), width as nat, '0'));
    s
}

/// Decimal, right-aligned with spaces to at least `width` characters (`{:>width$}`).
pub fn padded_decimal(n: u64, width: usize) -> (s: String)
    ensures
        s@ == pad_left(decimal(n as nat), width as nat, ' '),
{
    let mut digits = String::new();
    push_decimal(&mut digits, n);
    assert(digits@ =~= decimal(n as nat));
    let mut s = String::new();
    proof {
        reveal_strlit(" ");
    }
    push_padded(&mut s, &digits, width, " ");
    assert(s@ =~= pad_left(decimal(n as nat), width as nat, ' '));
    s
}

/// Value of an ASCII digit byte (`0-9`, `a-z`, `A-Z`); 36 for any other byte,
/// which is out of range for every radix.
pub open spec fn digit_value(b: u8) -> nat {
    if 48 <= b <= 57 {
        (b - 48) as nat
    } else if 97 <= b <= 122 {
        (b - 87) as nat
    } else if 65 <= b <= 90 {
        (b - 55) as nat
    } else {
        36
    }
}

/// Every byte of `s` is a digit in `radix`.
pub open spec fn all_digits(s: Seq<u8>, radix: nat) -> bool {
    forall|i: int| 0 <= i < s.len() ==> digit_value(#[trigger] s[i]) < radix
}

/// The number the digits of `s` spell in `radix`, most significant first.
pub open spec fn digits_value(s: Seq<u8>, radix: nat) -> nat
    decreases s.len(),
{
    if s.len() == 0 {
        0
    } else {
        digits_value(s.drop_last(), radix) * radix + digit_value(s.last())
    }
}

/// `s` without one leading `+`.
pub open spec fn unsigned_digits(s: Seq<u8>) -> Seq<u8> {
    if s.len() > 0 && s[0] == 43 {
        s.drop_first()
    } else {
        s
    }
}

/// What `u16::from_str_radix` accepts: an optional `+` followed by at least one
/// digit of `radix`, the whole spelling a value that fits in 16 bits.
pub open spec fn parse_u16(s: Seq<u8>, radix: nat) -> Option<u16> {
    let d = unsigned_digits(s);
    if d.len() > 0 && all_digits(d, radix) && digits_value(d, radix) <= 0xFFFF {
        Some(digits_value(d, radix) as u16)
    } else {
        None
    }
}

/// Appending digits never makes the value smaller.
proof fn lemma_digits_value_prefix(s: Seq<u8>, radix: nat, i: int)
    requires
        radix >= 1,
        0 <= i <= s.len(),
    ensures
        digits_value(s.subrange(0, i), radix) <= digits_value(s, radix),
    decreases s.len(),
{
    if i < s.len() {
        let t = s.drop_last();
        assert(t.subrange(0, i) =~= s.subrange(0, i));
        lemma_digits_value_prefix(t, radix, i);
        let v = digits_value(t, radix);
        assert(v <= v * radix) by (nonlinear_arith)
            requires
                radix >= 1,
        ;
    } else {
        assert(s.subrange(0, i) =~= s);
    }
}

/// Parses `bytes[start..end]` as `u16::from_str_radix` does.
pub fn u16_from_radix(bytes: &[u8], start: usize, end: usize, radix: u32) -> (r: Option<u16>)
    requires
        start <= end <= bytes@.len(),
        2 <= radix <= 36,
    ensures
        r == parse_u16(bytes@.subrange(start as int, end as int), radix as nat),
{
    let ghost s = bytes@.subrange(start as int, end as int);
    let mut first = start;
    if start < end && bytes[start] == 43u8 {
        first = start + 1;
    }
    let ghost d = bytes@.subrange(first as int, end as int);
    assert(d =~= unsigned_digits(s));
    if first == end {
        return None;
    }
    let mut acc: u32 = 0;
    let mut i = first;
    while i < end
        invariant
            first <= i <= end <= bytes@.len(),
            2 <= radix <= 36,
            d == bytes@.subrange(first as int, end as int),
            s == bytes@.subrange(start as int, end as int),
            d == unsigned_digits(s),
            d.len() > 0,
            acc <= 0xFFFF,
            acc as nat == digits_value(d.subrange(0, i - first), radix as nat),
            all_digits(d.subrange(0, i - first), radix as nat),
        decreases end - i,
    {
        let b = bytes[i];
        let v: u32 = if 48 <= b && b <= 57 {
            (b - 48) as u32
        } else if 97 <= b && b <= 122 {
            (b - 87) as u32
        } else if 65 <= b && b <= 90 {
            (b - 55) as u32
        } else {
            36
        };
        assert(v as nat == digit_value(d[i - first]));
        if v >= radix {
            assert(!all_digits(d, radix as nat));
            return None;
        }
        let ghost k = i - first;
        assert(d.subrange(0, k + 1).drop_last() =~= d.subrange(0, k));
        assert(acc * radix <= 0xFFFF * 36) by (nonlinear_arith)
            requires
                acc <= 0xFFFF,
                radix <= 36,
        ;
        acc = acc * radix + v;
        assert(acc as nat == digits_value(d.subrange(0, k + 1), radix as nat)) by {
            assert(d.subrange(0, k + 1).last() == d[k]);
        }
        assert(all_digits(d.subrange(0, k + 1), radix as nat)) by {
            assert forall|j: int| 0 <= j < k + 1 implies digit_value(
                #[trigger] d.subrange(0, k + 1)[j],
            ) < radix as nat by {
                if j < k {
                    assert(d.subrange(0, k + 1)[j] == d.subrange(0, k)[j]);
                }
            }
        }
        if acc > 0xFFFF {
            proof {
                lemma_digits_value_prefix(d, radix as nat, k + 1);
            }
            return None;
        }
        i = i + 1;
    }
    assert(d.subrange(0, end - first) =~= d);
    Some(acc as u16)
}

/// The characters of a string, one per element.
pub fn chars_of(s: &str) -> (cs: Vec<char>)
    ensures
        cs@ == s@,
{
    let n = s.unicode_len();
    let mut cs: Vec<char> = Vec::new();
    let mut i: usize = 0;
    while i < n
        invariant
            n == s@.len(),
            i <= n,
            cs@ == s@.subrange(0, i as int),
        decreases n - i,
    {
        cs.push(s.get_char(i));
        assert(cs@ =~= s@.subrange(0, i + 1));
        i = i + 1;
    }
    assert(cs@ =~= s@);
    cs
}

/// Whether two strings hold the same characters.
pub fn same_text(a: &str, b: &str) -> (r: bool)
    ensures
        r == (a@ == b@),
{
    let x = chars_of(a);
    let y = chars_of(b);
    if x.len() != y.len() {
        return false;
    }
    let mut i: usize = 0;
    while i < x.len()
        invariant
            x@ == a@,
            y@ == b@,
            x@.len() == y@.len(),
            i <= x@.len(),
            forall|j: int| 0 <= j < i ==> x@[j] == y@[j],
        decreases x@.len() - i,
    {
        if x[i] != y[i] {
            return false;
        }
        i = i + 1;
    }
    assert(a@ =~= b@);
    true
}

/// `text` begins with the characters of `prefix`.
pub open spec fn has_prefix(text: Seq<char>, prefix: Seq<char>) -> bool {
    prefix.len() <= text.len() && text.subrange(0, prefix.len() as int) == prefix
}

/// Whether `text` begins with `prefix`.
pub fn starts_with_text(text: &str, prefix: &str) -> (r: bool)
    ensures
        r == has_prefix(text@, prefix@),
{
    let x = chars_of(text);
    let y = chars_of(prefix);
    if y.len() > x.len() {
        return false;
    }
    let mut i: usize = 0;
    while i < y.len()
        invariant
            x@ == text@,
            y@ == prefix@,
            y@.len() <= x@.len(),
            i <= y@.len(),
            forall|j: int| 0 <= j < i ==> x@[j] == y@[j],
        decreases y@.len() - i,
    {
        if x[i] != y[i] {
            assert(text@.subrange(0, prefix@.len() as int)[i as int] != prefix@[i as int]);
            return false;
        }
        i = i + 1;
    }
    assert(text@.subrange(0, prefix@.len() as int) =~= prefix@);
    true
}

/// ASCII lower-casing of one character; every other character is kept.
pub open spec fn ascii_lower(c: char) -> char {
    if 'A' <= c <= 'Z' {
        ((c as u32) + 32) as char
    } else {
        c
    }
}

/// ASCII lower-casing of a character sequence (`to_ascii_lowercase`).
pub open spec fn ascii_lowercase(s: Seq<char>) -> Seq<char> {
    s.map_values(|c: char| ascii_lower(c))
}

/// ASCII lower-casing of one character.
pub fn lower_char(c: char) -> (r: char)
    ensures
        r == ascii_lower(c),
{
    if 'A' <= c && c <= 'Z' {
        ((c as u32) + 32) as u8 as char
    } else {
        c
    }
}

/// Whether two strings are equal ignoring ASCII case (`eq_ignore_ascii_case`).
pub fn same_text_ignoring_ascii_case(a: &str, b: &str) -> (r: bool)
    ensures
        r == (ascii_lowercase(a@) == ascii_lowercase(b@)),
{
    let x = chars_of(a);
    let y = chars_of(b);
    if x.len() != y.len() {
        assert(ascii_lowercase(a@).len() != ascii_lowercase(b@).len());
        return false;
    }
    let mut i: usize = 0;
    while i < x.len()
        invariant
            x@ == a@,
            y@ == b@,
            x@.len() == y@.len(),
            i <= x@.len(),
            forall|j: int| 0 <= j < i ==> ascii_lower(x@[j]) == ascii_lower(y@[j]),
        decreases x@.len() - i,
    {
        if lower_char(x[i]) != lower_char(y[i]) {
            assert(ascii_lowercase(a@)[i as int] != ascii_lowercase(b@)[i as int]);
            return false;
        }
        i = i + 1;
    }
    assert(ascii_lowercase(a@) =~= ascii_lowercase(b@));
    true
}

/// The bytes of a character sequence taken one byte per character.
pub open spec fn ascii_bytes(s: Seq<char>) -> Seq<u8> {
    s.map_values(|c: char| (c as u32) as u8)
}

proof fn lemma_digit_char(d: nat, radix: nat)
    requires
        d < radix <= 16,
    ensures
        (digit_char(d) as u32) < 128,
        digit_value((digit_char(d) as u32) as u8) == d,
        digit_char(d) != 'x' && digit_char(d) != 'X' && digit_char(d) != '+',
{
}

/// The spelling of `n` in `radix` (10 or 16), most significant digit first.
pub open spec fn spelled(n: nat, radix: nat) -> Seq<char> {
    if radix == 10 {
        decimal(n)
    } else {
        hex_upper(n)
    }
}

proof fn lemma_spelled_digits(n: nat, radix: nat)
    requires
        radix == 10 || radix == 16,
    ensures
        spelled(n, radix).len() > 0,
        forall|i: int| 0 <= i < spelled(n, radix).len() ==> (#[trigger] spelled(n, radix)[i] as u32) < 128,
        forall|i: int|
            0 <= i < spelled(n, radix).len() ==> #[trigger] spelled(n, radix)[i] != 'x'
                && spelled(n, radix)[i] != 'X' && spelled(n, radix)[i] != '+',
        all_digits(ascii_bytes(spelled(n, radix)), radix),
        digits_value(ascii_bytes(spelled(n, radix)), radix) == n,
    decreases n,
{
    let s = spelled(n, radix);
    if n < radix {
        lemma_digit_char(n, radix);
        assert(ascii_bytes(s).drop_last() =~= Seq::<u8>::empty());
        assert(digits_value(Seq::<u8>::empty(), radix) * radix == 0) by (nonlinear_arith)
            requires
                digits_value(Seq::<u8>::empty(), radix) == 0,
        ;
    } else {
        let q = n / radix;
        let r = n % radix;
        lemma_spelled_digits(q, radix);
        lemma_digit_char(r, radix);
        let p = spelled(q, radix);
        assert(s =~= p.push(digit_char(r)));
        assert(ascii_bytes(s).drop_last() =~= ascii_bytes(p));
        assert(ascii_bytes(s).last() == (digit_char(r) as u32) as u8);
        assert forall|i: int| 0 <= i < ascii_bytes(s).len() implies digit_value(
            #[trigger] ascii_bytes(s)[i],
        ) < radix by {
            if i < p.len() {
                assert(ascii_bytes(s)[i] == ascii_bytes(p)[i]);
            }
        }
        assert forall|i: int| 0 <= i < s.len() implies (#[trigger] s[i] as u32) < 128 by {
            if i < p.len() {
                assert(s[i] == p[i]);
            }
        }
        assert forall|i: int| 0 <= i < s.len() implies #[trigger] s[i] != 'x' && s[i] != 'X' && s[i]
            != '+' by {
            if i < p.len() {
                assert(s[i] == p[i]);
            }
        }
        assert(q * radix + r == n) by (nonlinear_arith)
            requires
                radix > 0,
                q == n / radix,
                r == n % radix,
        ;
    }
}

proof fn lemma_leading_zeros_value(zeros: Seq<u8>, s: Seq<u8>, radix: nat)
    requires
        forall|i: int| 0 <= i < zeros.len() ==> #[trigger] zeros[i] == 48,
    ensures
        digits_value(zeros + s, radix) == digits_value(s, radix),
    decreases s.len(),
{
    if s.len() == 0 {
        lemma_zeros_value(zeros, radix);
        assert(zeros + s =~= zeros);
    } else {
        assert((zeros + s).drop_last() =~= zeros + s.drop_last());
        lemma_leading_zeros_value(zeros, s.drop_last(), radix);
    }
}

proof fn lemma_zeros_value(zeros: Seq<u8>, radix: nat)
    requires
        forall|i: int| 0 <= i < zeros.len() ==> #[trigger] zeros[i] == 48,
    ensures
        digits_value(zeros, radix) == 0,
    decreases zeros.len(),
{
    if zeros.len() > 0 {
        lemma_zeros_value(zeros.drop_last(), radix);
        let v = digits_value(zeros.drop_last(), radix);
        assert(v * radix == 0) by (nonlinear_arith)
            requires
                v == 0,
        ;
    }
}

/// The UTF-8 bytes of ASCII text are its characters, one byte each.
pub(crate) proof fn lemma_ascii_encoding(s: Seq<char>)
    requires
        forall|i: int| 0 <= i < s.len() ==> (#[trigger] s[i] as u32) < 128,
    ensures
        vstd::utf8::encode_utf8(s) == ascii_bytes(s),
    decreases s.len(),
{
    if s.len() > 0 {
        let v = s[0] as u32;
        assert((v & 0x7F) as u8 == v as u8) by (bit_vector)
            requires
                v < 128,
        ;
        assert forall|i: int| 0 <= i < s.drop_first().len() implies (#[trigger] s.drop_first()[i] as u32)
            < 128 by {
            assert(s.drop_first()[i] == s[i + 1]);
        }
        lemma_ascii_encoding(s.drop_first());
        assert(ascii_bytes(s) =~= seq![v as u8] + ascii_bytes(s.drop_first()));
    }
    assert(vstd::utf8::encode_utf8(s) =~= ascii_bytes(s));
}

/// A number spelled in decimal parses back to itself, and so does one spelled in
/// hexadecimal, with or without zero fill.
pub proof fn spelled_numbers_parse_back(v: u16, width: nat)
    ensures
        parse_u16(vstd::utf8::encode_utf8(decimal(v as nat)), 10) == Some(v),
        parse_u16(vstd::utf8::encode_utf8(pad_left(hex_upper(v as nat), width, '0')), 16) == Some(v),
        vstd::utf8::encode_utf8(decimal(v as nat)) == ascii_bytes(decimal(v as nat)),
        vstd::utf8::encode_utf8(pad_left(hex_upper(v as nat), width, '0')) == ascii_bytes(
            pad_left(hex_upper(v as nat), width, '0'),
        ),
        all_digits(ascii_bytes(decimal(v as nat)), 10),
        forall|i: int|
            0 <= i < pad_left(hex_upper(v as nat), width, '0').len() ==> (#[trigger] pad_left(
                hex_upper(v as nat),
                width,
                '0',
            )[i] as u32) < 128,
{
    lemma_spelled_digits(v as nat, 10);
    lemma_spelled_digits(v as nat, 16);
    let d = decimal(v as nat);
    let h = hex_upper(v as nat);
    lemma_ascii_encoding(d);
    assert(unsigned_digits(ascii_bytes(d)) == ascii_bytes(d));
    let padded = pad_left(h, width, '0');
    let zs = if h.len() >= width {
        Seq::<char>::empty()
    } else {
        Seq::new((width - h.len()) as nat, |_i: int| '0')
    };
    assert(padded =~= zs + h);
    assert forall|i: int| 0 <= i < padded.len() implies (#[trigger] padded[i] as u32) < 128 by {
        if i >= zs.len() {
            assert(padded[i] == h[i - zs.len()]);
        }
    }
    lemma_ascii_encoding(padded);
    assert(ascii_bytes(padded) =~= ascii_bytes(zs) + ascii_bytes(h));
    assert(spelled(v as nat, 10) == d);
    lemma_leading_zeros_value(ascii_bytes(zs), ascii_bytes(h), 16);
    assert forall|i: int| 0 <= i < ascii_bytes(padded).len() implies digit_value(
        #[trigger] ascii_bytes(padded)[i],
    ) < 16 by {
        if i >= zs.len() {
            assert(ascii_bytes(padded)[i] == ascii_bytes(h)[i - zs.len()]);
        }
    }
    assert(ascii_bytes(padded)[0] != 43);
    assert(unsigned_digits(ascii_bytes(padded)) == ascii_bytes(padded));
}

} // verus!
