//! Byte strings as they occur in header values: comparison, splitting, trimming and numerals.

use vstd::prelude::*;
use vstd::slice::slice_subrange;
use vstd::string::StringSliceAdditionalSpecFns;

verus! {

/// `,`
pub const COMMA: u8 = 0x2c;

/// `;`
pub const SEMICOLON: u8 = 0x3b;

/// `-`
pub const HYPHEN: u8 = 0x2d;

/// `.`
pub const DOT: u8 = 0x2e;

/// `"`
pub const QUOTE: u8 = 0x22;

/// `/`
pub const SLASH: u8 = 0x2f;

/// `0`
pub const ZERO: u8 = 0x30;

/// `1`
pub const ONE: u8 = 0x31;

/// The position of the first `b` in `s`, or the length of `s` if there is none.
pub open spec fn find(s: Seq<u8>, b: u8) -> int
    decreases s.len(),
{
    if s.len() == 0 || s[0] == b {
        0
    } else {
        1 + find(s.drop_first(), b)
    }
}

/// The position of the last `b` in `s`, or -1 if there is none.
pub open spec fn rfind(s: Seq<u8>, b: u8) -> int
    decreases s.len(),
{
    if s.len() == 0 || s.last() == b {
        s.len() - 1
    } else {
        rfind(s.drop_last(), b)
    }
}

/// The pieces of `s` between the occurrences of `sep`: always at least one.
pub open spec fn split(s: Seq<u8>, sep: u8) -> Seq<Seq<u8>>
    decreases s.len(),
    via split_decreases
{
    let i = find(s, sep);
    if i < s.len() {
        seq![s.take(i)] + split(s.skip(i + 1), sep)
    } else {
        seq![s]
    }
}

#[via_fn]
proof fn split_decreases(s: Seq<u8>, sep: u8) {
    lemma_find(s, sep);
}

/// Whether `s` begins with `prefix`.
pub open spec fn has_prefix(s: Seq<u8>, prefix: Seq<u8>) -> bool {
    prefix.len() <= s.len() && s.take(prefix.len() as int) == prefix
}

/// Optional whitespace: a space or a tab.
pub open spec fn is_ows(b: u8) -> bool {
    b == 0x20 || b == 0x09
}

/// `s` without its leading whitespace.
pub open spec fn trim_start(s: Seq<u8>) -> Seq<u8>
    decreases s.len(),
{
    if s.len() > 0 && is_ows(s[0]) {
        trim_start(s.drop_first())
    } else {
        s
    }
}

/// `s` without its trailing whitespace.
pub open spec fn trim_end(s: Seq<u8>) -> Seq<u8>
    decreases s.len(),
{
    if s.len() > 0 && is_ows(s.last()) {
        trim_end(s.drop_last())
    } else {
        s
    }
}

/// `s` without the whitespace at either end.
pub open spec fn trim(s: Seq<u8>) -> Seq<u8> {
    trim_end(trim_start(s))
}

/// `0` to `9`.
pub open spec fn is_digit(b: u8) -> bool {
    ZERO <= b <= 0x39
}

/// Whether every byte of `s` is a decimal digit.
pub open spec fn all_digits(s: Seq<u8>) -> bool {
    forall|i: int| 0 <= i < s.len() ==> is_digit(#[trigger] s[i])
}

/// The number that a sequence of decimal digits denotes.
pub open spec fn digits_value(s: Seq<u8>) -> int
    decreases s.len(),
{
    if s.len() == 0 {
        0
    } else {
        digits_value(s.drop_last()) * 10 + (s.last() - ZERO)
    }
}

/// The 64-bit number that `s` denotes: one or more decimal digits.
pub open spec fn number(s: Seq<u8>) -> Option<u64> {
    if s.len() > 0 && all_digits(s) && digits_value(s) <= u64::MAX {
        Some(digits_value(s) as u64)
    } else {
        None
    }
}

/// The decimal numeral of `n`, without leading zeros.
pub open spec fn decimal(n: nat) -> Seq<u8>
    decreases n,
{
    if n < 10 {
        seq![(ZERO + n) as u8]
    } else {
        decimal(n / 10).push((ZERO + n % 10) as u8)
    }
}

/// The lower-case hexadecimal digit for a number below sixteen.
pub open spec fn hex_digit(d: nat) -> u8 {
    if d < 10 {
        (ZERO + d) as u8
    } else {
        (0x61 + (d - 10)) as u8
    }
}

/// The lower-case hexadecimal numeral of `n`, without leading zeros.
pub open spec fn hex(n: nat) -> Seq<u8>
    decreases n,
{
    if n < 16 {
        seq![hex_digit(n)]
    } else {
        hex(n / 16).push(hex_digit(n % 16))
    }
}

/// What [`find`] returns is the first position that holds the byte.
pub proof fn lemma_find(s: Seq<u8>, b: u8)
    ensures
        0 <= find(s, b) <= s.len(),
        find(s, b) < s.len() ==> s[find(s, b)] == b,
        forall|j: int| 0 <= j < find(s, b) ==> s[j] != b,
        find(s, b) < s.len() <==> s.contains(b),
    decreases s.len(),
{
    if s.len() > 0 && s[0] != b {
        lemma_find(s.drop_first(), b);
        assert forall|j: int| 0 <= j < find(s, b) implies s[j] != b by {
            if j > 0 {
                assert(s[j] == s.drop_first()[j - 1]);
            }
        }
        if s.contains(b) {
            let k = choose|k: int| 0 <= k < s.len() && s[k] == b;
            assert(s.drop_first()[k - 1] == b);
        }
    }
}

/// A position that holds the byte, with none before it, is the one that [`find`] returns.
pub proof fn lemma_find_is(s: Seq<u8>, b: u8, i: int)
    requires
        0 <= i <= s.len(),
        i < s.len() ==> s[i] == b,
        forall|j: int| 0 <= j < i ==> s[j] != b,
    ensures
        find(s, b) == i,
{
    lemma_find(s, b);
    if find(s, b) < i {
        assert(s[find(s, b)] == b);
    }
}

/// A position that holds the byte, with none after it, is the one that [`rfind`] returns.
pub proof fn lemma_rfind_is(s: Seq<u8>, b: u8, i: int)
    requires
        -1 <= i < s.len(),
        i >= 0 ==> s[i] == b,
        forall|j: int| i < j < s.len() ==> s[j] != b,
    ensures
        rfind(s, b) == i,
    decreases s.len(),
{
    if s.len() > 0 && i < s.len() - 1 {
        lemma_rfind_is(s.drop_last(), b, i);
    }
}

/// Whether two byte strings are the same.
pub fn bytes_eq(a: &[u8], b: &[u8]) -> (r: bool)
    ensures
        r == (a@ == b@),
{
    if a.len() != b.len() {
        return false;
    }
    let mut i: usize = 0;
    while i < a.len()
        invariant
            i <= a@.len(),
            a@.len() == b@.len(),
            forall|j: int| 0 <= j < i ==> a@[j] == b@[j],
        decreases a@.len() - i,
    {
        if a[i] != b[i] {
            return false;
        }
        i += 1;
    }
    assert(a@ =~= b@);
    true
}

/// Whether `s` begins with `prefix`.
pub fn starts_with(s: &[u8], prefix: &[u8]) -> (r: bool)
    ensures
        r == has_prefix(s@, prefix@),
{
    if s.len() < prefix.len() {
        return false;
    }
    bytes_eq(slice_subrange(s, 0, prefix.len()), prefix)
}

/// The position of the first `b` in `s`, or the length of `s` if there is none.
pub fn find_byte(s: &[u8], b: u8) -> (r: usize)
    ensures
        r == find(s@, b),
        r <= s@.len(),
{
    let mut i: usize = 0;
    while i < s.len() && s[i] != b
        invariant
            i <= s@.len(),
            forall|j: int| 0 <= j < i ==> s@[j] != b,
        decreases s@.len() - i,
    {
        i += 1;
    }
    proof {
        lemma_find_is(s@, b, i as int);
    }
    i
}

/// The position of the last `b` in `s`, if there is one.
pub fn rfind_byte(s: &[u8], b: u8) -> (r: Option<usize>)
    ensures
        match r {
            Some(i) => i < s@.len() && rfind(s@, b) == i,
            None => rfind(s@, b) == -1,
        },
{
    let mut i: usize = s.len();
    while i > 0
        invariant
            i <= s@.len(),
            forall|j: int| i <= j < s@.len() ==> s@[j] != b,
        decreases i,
    {
        i -= 1;
        if s[i] == b {
            proof {
                lemma_rfind_is(s@, b, i as int);
            }
            return Some(i);
        }
    }
    proof {
        lemma_rfind_is(s@, b, -1);
    }
    None
}

/// `s` without its leading whitespace.
pub fn trimmed_start(s: &[u8]) -> (r: &[u8])
    ensures
        r@ == trim_start(s@),
        r@.len() <= s@.len(),
{
    let mut i: usize = 0;
    assert(s@.skip(0) =~= s@);
    while i < s.len() && (s[i] == 0x20 || s[i] == 0x09)
        invariant
            i <= s@.len(),
            trim_start(s@.skip(i as int)) == trim_start(s@),
        decreases s@.len() - i,
    {
        assert(s@.skip(i as int).drop_first() =~= s@.skip(i + 1));
        i += 1;
    }
    assert(s@.subrange(i as int, s@.len() as int) =~= s@.skip(i as int));
    slice_subrange(s, i, s.len())
}

/// `s` without its trailing whitespace.
pub fn trimmed_end(s: &[u8]) -> (r: &[u8])
    ensures
        r@ == trim_end(s@),
{
    let mut i: usize = s.len();
    assert(s@.take(i as int) =~= s@);
    while i > 0 && (s[i - 1] == 0x20 || s[i - 1] == 0x09)
        invariant
            i <= s@.len(),
            trim_end(s@.take(i as int)) == trim_end(s@),
        decreases i,
    {
        assert(s@.take(i as int).drop_last() =~= s@.take(i - 1));
        i -= 1;
    }
    assert(s@.subrange(0, i as int) =~= s@.take(i as int));
    slice_subrange(s, 0, i)
}

/// `s` without the whitespace at either end.
pub fn trimmed(s: &[u8]) -> (r: &[u8])
    ensures
        r@ == trim(s@),
{
    trimmed_end(trimmed_start(s))
}

/// A longer numeral denotes at least as much as the one it begins with.
proof fn lemma_digits_value_grows(s: Seq<u8>, i: int)
    requires
        all_digits(s),
        0 <= i <= s.len(),
    ensures
        0 <= digits_value(s.take(i)) <= digits_value(s),
    decreases s.len(),
{
    if i == s.len() {
        assert(s.take(i) =~= s);
        if s.len() > 0 {
            lemma_digits_value_grows(s.drop_last(), s.len() - 1);
            assert(s.drop_last().take(s.len() - 1) =~= s.drop_last());
        }
    } else {
        lemma_digits_value_grows(s.drop_last(), i);
        assert(s.drop_last().take(i) =~= s.take(i));
    }
}

/// Reads a 64-bit number.
pub fn parse_number(s: &[u8]) -> (r: Option<u64>)
    ensures
        r == number(s@),
{
    if s.len() == 0 {
        return None;
    }
    let mut i: usize = 0;
    let mut n: u64 = 0;
    while i < s.len()
        invariant
            i <= s@.len(),
            forall|j: int| 0 <= j < i ==> is_digit(#[trigger] s@[j]),
            n == digits_value(s@.take(i as int)),
        decreases s@.len() - i,
    {
        let b = s[i];
        if b < ZERO || b > 0x39 {
            assert(!is_digit(s@[i as int]));
            return None;
        }
        let v: u64 = (b - ZERO) as u64;
        assert(s@.take(i + 1).drop_last() =~= s@.take(i as int));
        assert(digits_value(s@.take(i + 1)) == n * 10 + v);
        if n > u64::MAX / 10 || n * 10 > u64::MAX - v {
            proof {
                if all_digits(s@) {
                    lemma_digits_value_grows(s@, i + 1);
                }
            }
            return None;
        }
        n = n * 10 + v;
        i += 1;
    }
    assert(s@.take(i as int) =~= s@);
    Some(n)
}

/// Appends the decimal numeral of `n`.
pub fn push_decimal(buf: &mut Vec<u8>, n: u64)
    ensures
        final(buf)@ == old(buf)@ + decimal(n as nat),
    decreases n,
{
    if n >= 10 {
        push_decimal(buf, n / 10);
    }
    buf.push(ZERO + (n % 10) as u8);
    assert(buf@ =~= old(buf)@ + decimal(n as nat));
}

/// Appends the lower-case hexadecimal numeral of `n`.
pub fn push_hex(buf: &mut Vec<u8>, n: u64)
    ensures
        final(buf)@ == old(buf)@ + hex(n as nat),
    decreases n,
{
    if n >= 16 {
        push_hex(buf, n / 16);
    }
    let d: u8 = (n % 16) as u8;
    if d < 10 {
        buf.push(ZERO + d);
    } else {
        buf.push(0x61 + (d - 10));
    }
    assert(buf@ =~= old(buf)@ + hex(n as nat));
}

/// Appends the bytes of a text.
pub fn push_text(buf: &mut Vec<u8>, s: &str)
    ensures
        final(buf)@ == old(buf)@ + s.spec_bytes(),
{
    let b = s.as_bytes();
    buf.extend_from_slice(b);
    assert(buf@ =~= old(buf)@ + b@);
}

/// A decimal numeral holds digits alone, at least one of them, and is read back as the number
/// that was written.
pub proof fn law_decimal_read_back(n: u64)
    ensures
        decimal(n as nat).len() > 0,
        all_digits(decimal(n as nat)),
        number(decimal(n as nat)) == Some(n),
{
    lemma_decimal(n as nat);
}

proof fn lemma_decimal(n: nat)
    ensures
        decimal(n).len() > 0,
        all_digits(decimal(n)),
        digits_value(decimal(n)) == n,
    decreases n,
{
    if n < 10 {
        let s = decimal(n);
        assert(s.drop_last() =~= Seq::<u8>::empty());
        assert(digits_value(s.drop_last()) == 0);
    } else {
        lemma_decimal(n / 10);
        assert(decimal(n).drop_last() =~= decimal(n / 10));
    }
}

/// A text without the separator is its own only piece, and such a text in front of a separator is
/// the first piece of the whole.
pub proof fn law_split(a: Seq<u8>, sep: u8, b: Seq<u8>)
    requires
        forall|i: int| 0 <= i < a.len() ==> a[i] != sep,
    ensures
        split(a, sep) == seq![a],
        split(a + seq![sep] + b, sep) == seq![a] + split(b, sep),
{
    lemma_find_is(a, sep, a.len() as int);
    let s = a + seq![sep] + b;
    lemma_find_is(s, sep, a.len() as int);
    assert(s.take(a.len() as int) =~= a);
    assert(s.skip(a.len() as int + 1) =~= b);
}

/// Spaces and tabs at the ends of a text are trimmed, and nothing else is: not what stands between
/// other characters.
pub proof fn law_trim(a: Seq<u8>, s: Seq<u8>, b: Seq<u8>)
    requires
        forall|i: int| 0 <= i < a.len() ==> #[trigger] a[i] == 0x20 || a[i] == 0x09,
        forall|i: int| 0 <= i < b.len() ==> #[trigger] b[i] == 0x20 || b[i] == 0x09,
        s.len() > 0 ==> s[0] != 0x20 && s[0] != 0x09 && s.last() != 0x20 && s.last() != 0x09,
    ensures
        trim(a + s + b) == s,
        s.len() > 0 ==> trim_start(a + s + b) == s + b,
        s.len() > 0 ==> trim_end(a + s + b) == a + s,
{
    if s.len() > 0 {
        assert(a + s + b =~= a + (s + b));
        lemma_trim_start_concat(a, s + b);
        lemma_trim_end_concat(s, b);
        assert((a + s).last() == s.last());
        lemma_trim_end_concat(a + s, b);
    } else {
        assert(a + s + b =~= a + b);
        assert forall|i: int| 0 <= i < (a + b).len() implies is_ows(#[trigger] (a + b)[i]) by {
            if i >= a.len() {
                assert((a + b)[i] == b[i - a.len()]);
            }
        }
        assert(a + b =~= (a + b) + Seq::empty());
        lemma_trim_start_concat(a + b, Seq::empty());
        assert(s =~= Seq::empty());
    }
}

/// Whitespace in front of a text that begins with none is trimmed.
pub proof fn lemma_trim_start_concat(space: Seq<u8>, s: Seq<u8>)
    requires
        forall|i: int| 0 <= i < space.len() ==> is_ows(#[trigger] space[i]),
        s.len() > 0 ==> !is_ows(s[0]),
    ensures
        trim_start(space + s) == s,
    decreases space.len(),
{
    if space.len() == 0 {
        assert(space + s =~= s);
    } else {
        assert((space + s).drop_first() =~= space.drop_first() + s);
        lemma_trim_start_concat(space.drop_first(), s);
    }
}

/// Whitespace behind a text that ends with none is trimmed.
pub proof fn lemma_trim_end_concat(s: Seq<u8>, space: Seq<u8>)
    requires
        forall|i: int| 0 <= i < space.len() ==> is_ows(#[trigger] space[i]),
        s.len() > 0 ==> !is_ows(s.last()),
    ensures
        trim_end(s + space) == s,
    decreases space.len(),
{
    if space.len() == 0 {
        assert(s + space =~= s);
    } else {
        assert((s + space).drop_last() =~= s + space.drop_last());
        lemma_trim_end_concat(s, space.drop_last());
    }
}

/// A text begins with another iff it is that text with something behind it.
pub proof fn law_prefix(s: Seq<u8>, prefix: Seq<u8>, rest: Seq<u8>)
    ensures
        has_prefix(prefix + rest, prefix),
        has_prefix(s, prefix) <==> prefix.len() <= s.len() && forall|i: int|
            0 <= i < prefix.len() ==> s[i] == #[trigger] prefix[i],
{
    assert((prefix + rest).take(prefix.len() as int) =~= prefix);
    if prefix.len() <= s.len() {
        let head = s.take(prefix.len() as int);
        if forall|i: int| 0 <= i < prefix.len() ==> s[i] == #[trigger] prefix[i] {
            assert(head =~= prefix);
        }
        if head == prefix {
            assert forall|i: int| 0 <= i < prefix.len() implies s[i] == #[trigger] prefix[i] by {
                assert(head[i] == s[i]);
            }
        }
    }
}

/// A digit behind a number multiplies it by ten and adds the digit, as long as the result can be
/// held in 64 bits. A single digit is a number, and what holds anything but digits is none.
pub proof fn law_number(s: Seq<u8>, d: u8)
    ensures
        number(Seq::empty()) is None,
        number(s.push(d)) == if d < 0x30 || d > 0x39 {
            None
        } else if s.len() == 0 {
            Some((d - 0x30) as u64)
        } else {
            match number(s) {
                Some(n) if n * 10 + (d - 0x30) <= 0xffff_ffff_ffff_ffff => Some(
                    (n * 10 + (d - 0x30)) as u64,
                ),
                _ => None,
            }
        },
{
    let longer = s.push(d);
    assert(longer.drop_last() =~= s);
    assert(longer[s.len() as int] == d);
    if all_digits(longer) {
        assert(is_digit(d));
        assert forall|i: int| 0 <= i < s.len() implies is_digit(#[trigger] s[i]) by {
            assert(longer[i] == s[i]);
        }
        lemma_digits_value_grows(longer, s.len() as int);
        assert(longer.take(s.len() as int) =~= s);
        if s.len() == 0 {
            assert(digits_value(s) == 0);
        }
    } else if is_digit(d) {
        let k = choose|k: int| 0 <= k < longer.len() && !is_digit(#[trigger] longer[k]);
        assert(longer[k] == s[k]);
        assert(!all_digits(s));
    } else {
        assert(!is_digit(longer[s.len() as int]));
    }
}

/// The decimal numeral of a number below ten is its digit, that of a larger one is the numeral of
/// its tens with the digit of its ones behind it.
pub proof fn law_decimal(tens: nat, ones: nat)
    requires
        ones < 10,
    ensures
        decimal(10 * tens + ones) == if tens == 0 {
            seq![(0x30 + ones) as u8]
        } else {
            decimal(tens).push((0x30 + ones) as u8)
        },
{
}

/// The hexadecimal numeral of a number below sixteen is its digit, that of a larger one is the
/// numeral of its sixteenth part with the digit of the rest behind it.
pub proof fn law_hex(high: nat, low: nat)
    requires
        low < 16,
    ensures
        ({
            let digit: u8 = if low < 10 {
                (0x30 + low) as u8
            } else {
                (0x57 + low) as u8
            };
            hex(16 * high + low) == if high == 0 {
                seq![digit]
            } else {
                hex(high).push(digit)
            }
        }),
{
}

/// The whitespace in front of a text and behind it, which is what trimming takes away.
pub proof fn lemma_trim_parts(s: Seq<u8>) -> (r: (Seq<u8>, Seq<u8>))
    ensures
        s == r.0 + trim(s) + r.1,
        forall|i: int| 0 <= i < r.0.len() ==> is_ows(#[trigger] r.0[i]),
        forall|i: int| 0 <= i < r.1.len() ==> is_ows(#[trigger] r.1[i]),
        trim(s).len() > 0 ==> !is_ows(trim(s)[0]) && !is_ows(trim(s).last()),
{
    let front = lemma_trim_start_part(s);
    let behind = lemma_trim_end_part(trim_start(s));
    assert(s =~= front + trim(s) + behind);
    if trim(s).len() > 0 {
        assert(trim(s)[0] == trim_start(s)[0]);
    }
    (front, behind)
}

proof fn lemma_trim_start_part(s: Seq<u8>) -> (r: Seq<u8>)
    ensures
        s == r + trim_start(s),
        forall|i: int| 0 <= i < r.len() ==> is_ows(#[trigger] r[i]),
        trim_start(s).len() > 0 ==> !is_ows(trim_start(s)[0]),
    decreases s.len(),
{
    if s.len() > 0 && is_ows(s[0]) {
        let more = lemma_trim_start_part(s.drop_first());
        let all = seq![s[0]] + more;
        assert(s =~= seq![s[0]] + s.drop_first());
        assert(s =~= all + trim_start(s));
        assert forall|i: int| 0 <= i < all.len() implies is_ows(#[trigger] all[i]) by {
            if i > 0 {
                assert(all[i] == more[i - 1]);
            }
        }
        all
    } else {
        assert(s =~= Seq::<u8>::empty() + s);
        Seq::empty()
    }
}

proof fn lemma_trim_end_part(s: Seq<u8>) -> (r: Seq<u8>)
    ensures
        s == trim_end(s) + r,
        forall|i: int| 0 <= i < r.len() ==> is_ows(#[trigger] r[i]),
        trim_end(s).len() > 0 ==> !is_ows(trim_end(s).last()),
    decreases s.len(),
{
    if s.len() > 0 && is_ows(s.last()) {
        let more = lemma_trim_end_part(s.drop_last());
        let all = more.push(s.last());
        assert(s =~= s.drop_last().push(s.last()));
        assert(s =~= trim_end(s) + all);
        assert forall|i: int| 0 <= i < all.len() implies is_ows(#[trigger] all[i]) by {
            if i < more.len() {
                assert(all[i] == more[i]);
            }
        }
        all
    } else {
        assert(s =~= s + Seq::<u8>::empty());
        Seq::empty()
    }
}

/// The pieces of two texts with a separator between them are those of the first and then those of
/// the second.
pub proof fn law_split_concat(a: Seq<u8>, sep: u8, b: Seq<u8>)
    ensures
        split(a + seq![sep] + b, sep) == split(a, sep) + split(b, sep),
    decreases a.len(),
{
    lemma_find(a, sep);
    let i = find(a, sep);
    if i < a.len() {
        let first = a.take(i);
        let rest = a.skip(i + 1);
        assert(a =~= first + seq![sep] + rest);
        assert(a + seq![sep] + b =~= first + seq![sep] + (rest + seq![sep] + b));
        law_split(first, sep, rest);
        law_split(first, sep, rest + seq![sep] + b);
        law_split_concat(rest, sep, b);
        assert(split(a + seq![sep] + b, sep) =~= split(a, sep) + split(b, sep));
    } else {
        law_split(a, sep, b);
    }
}

} // verus!
