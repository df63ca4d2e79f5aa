//! The `Range` request header.

use crate::headers::{all_visible, is_visible, lemma_ascii_text_bytes, value_bytes};
use crate::text::{
    decimal, find, find_byte, has_prefix, is_digit, is_ows, law_decimal_read_back, lemma_find,
    lemma_find_is, lemma_trim_end_concat, number, parse_number, starts_with, trim_end, trim_start, trimmed_end,
    trimmed_start, COMMA, HYPHEN,
};
use core::ops::Range;
use http::header::HeaderValue;
use smallvec::SmallVec;
use vstd::prelude::*;
use vstd::slice::slice_subrange;
use vstd::string::StringSliceAdditionalSpecFns;

verus! {

/// A list of byte ranges, which holds a single one without an allocation.
#[verifier::external_body]
#[derive(Debug, Eq, PartialEq)]
pub struct RangeList {
    inner: SmallVec<[Range<u64>; 1]>,
}

/// The ranges that a list holds, in the order in which they were added.
pub uninterp spec fn range_items(list: RangeList) -> Seq<Range<u64>>;

/// Whether a list has room for one more range: twice as many ranges as it holds, of two 64-bit
/// numbers each, still fit in memory.
pub open spec fn has_room(count: nat) -> bool {
    count < isize::MAX / 32
}

impl RangeList {
    /// `SmallVec::new` gives a list that holds nothing.
    #[verifier::external_body]
    pub(crate) fn new() -> (r: RangeList)
        ensures
            range_items(r) == Seq::<Range<u64>>::empty(),
    {
        RangeList { inner: SmallVec::new() }
    }

    /// `SmallVec::push` adds an item at the end.
    #[verifier::external_body]
    pub(crate) fn push(&mut self, range: Range<u64>)
        requires
            has_room(range_items(*old(self)).len()),
        ensures
            range_items(*final(self)) == range_items(*old(self)).push(range),
    {
        self.inner.push(range);
    }

    /// `SmallVec::len` gives the number of items.
    #[verifier::external_body]
    pub(crate) fn len(&self) -> (r: usize)
        ensures
            r == range_items(*self).len(),
    {
        self.inner.len()
    }

    /// `SmallVec::into_vec` gives the items in their order.
    #[verifier::external_body]
    pub(crate) fn into_vec(self) -> (r: Vec<Range<u64>>)
        ensures
            r@ == range_items(self),
    {
        self.inner.into_vec()
    }

    /// Makes a list of the given ranges.
    pub fn of(ranges: &[Range<u64>]) -> (r: RangeList)
        requires
            has_room(ranges@.len()),
        ensures
            range_items(r) == ranges@,
    {
        let mut list = RangeList::new();
        let mut i: usize = 0;
        while i < ranges.len()
            invariant
                i <= ranges@.len(),
                has_room(ranges@.len()),
                range_items(list) == ranges@.take(i as int),
            decreases ranges@.len() - i,
        {
            list.push(ranges[i].start..ranges[i].end);
            assert(ranges@.take(i + 1) =~= ranges@.take(i as int).push(ranges@[i as int]));
            i += 1;
        }
        assert(ranges@.take(i as int) =~= ranges@);
        list
    }
}

/// Represents a `Range:` header which has been parsed and resolved to a particular entity length.
#[derive(Debug, Eq, PartialEq)]
pub enum ResolvedRanges {
    /// No `Range:` header was supplied, or one that cannot be read.
    Ignored,
    /// A `Range:` header was supplied, but none of the ranges were possible to satisfy with the
    /// given entity length.
    NotSatisfiable,
    /// A `Range:` header was supplied with at least one satisfiable range, included here.
    /// Non-satisfiable ranges have been dropped. Ranges are converted from the HTTP closed
    /// interval style to the the std::ops::Range half-open interval style (start inclusive, end
    /// exclusive).
    Satisfiable(RangeList),
}

/// What one element of a byte-range-set selects from an entity of length `len`: `None` if it
/// cannot be read, `Some(None)` if it cannot be satisfied. A last position before the first one
/// makes it unreadable. A suffix that is longer than the entity selects the whole of it.
/// ```text
/// byte-range-spec = first-byte-pos "-" [ last-byte-pos ]
/// suffix-byte-range-spec = "-" suffix-length
/// ```
pub open spec fn resolve_spec(element: Seq<u8>, len: u64) -> Option<Option<Range<u64>>> {
    let spec = trim_start(element);
    let hyphen = find(spec, HYPHEN);
    if hyphen == spec.len() {
        None
    } else if hyphen == 0 {
        match number(spec.skip(1)) {
            None => None,
            Some(suffix) => if suffix == 0 || len == 0 {
                Some(None)
            } else {
                let start = if suffix < len {
                    (len - suffix) as u64
                } else {
                    0
                };
                Some(Some(Range { start, end: len }))
            },
        }
    } else {
        match number(spec.take(hyphen)) {
            None => None,
            Some(first) => if spec.len() == hyphen + 1 {
                if first < len {
                    Some(Some(Range { start: first, end: len }))
                } else {
                    Some(None)
                }
            } else {
                match number(spec.skip(hyphen + 1)) {
                    None => None,
                    Some(last) => if last < first {
                        None
                    } else if first >= len {
                        Some(None)
                    } else {
                        let end = if last < len {
                            (last + 1) as u64
                        } else {
                            len
                        };
                        Some(Some(Range { start: first, end }))
                    },
                }
            },
        }
    }
}

/// The elements of a byte-range-set, which commas separate, without the whitespace in front of a
/// comma.
pub open spec fn set_elements(s: Seq<u8>) -> Seq<Seq<u8>>
    decreases s.len(),
    via set_elements_decreases
{
    let i = find(s, COMMA);
    if i < s.len() {
        seq![trim_end(s.take(i))] + set_elements(s.skip(i + 1))
    } else {
        seq![s]
    }
}

#[via_fn]
proof fn set_elements_decreases(s: Seq<u8>) {
    lemma_find(s, COMMA);
}

/// The ranges that the elements of a byte-range-set select, in their order, without those that
/// cannot be satisfied; `None` if an element cannot be read.
pub open spec fn resolve_set(elements: Seq<Seq<u8>>, len: u64) -> Option<Seq<Range<u64>>>
    decreases elements.len(),
{
    if elements.len() == 0 {
        Some(Seq::empty())
    } else {
        match (resolve_set(elements.drop_last(), len), resolve_spec(elements.last(), len)) {
            (Some(ranges), Some(Some(range))) => Some(ranges.push(range)),
            (Some(ranges), Some(None)) => Some(ranges),
            _ => None,
        }
    }
}

/// The ranges that the value of a `Range` header selects from an entity of length `len`; `None`
/// if it cannot be read.
/// ```text
/// byte-ranges-specifier = bytes-unit "=" byte-range-set
/// byte-range-set  = 1#( byte-range-spec / suffix-byte-range-spec )
/// ```
pub open spec fn resolve(value: Seq<u8>, len: u64) -> Option<Seq<Range<u64>>> {
    if all_visible(value) && has_prefix(value, "bytes=".spec_bytes()) {
        resolve_set(set_elements(value.skip(6)), len)
    } else {
        None
    }
}

/// Whether a range lies within an entity of length `len`, and is not empty.
pub open spec fn is_within(range: Range<u64>, len: u64) -> bool {
    range.start < range.end <= len
}

/// Every range that a value selects lies within the entity, and none is empty.
pub proof fn law_ranges_within(value: Seq<u8>, len: u64)
    ensures
        resolve(value, len) matches Some(ranges) ==> forall|i: int|
            0 <= i < ranges.len() ==> is_within(#[trigger] ranges[i], len),
{
    if all_visible(value) && has_prefix(value, "bytes=".spec_bytes()) {
        lemma_set_within(set_elements(value.skip(6)), len);
    }
}

proof fn lemma_set_within(elements: Seq<Seq<u8>>, len: u64)
    ensures
        resolve_set(elements, len) matches Some(ranges) ==> ranges.len() <= elements.len() && (
        forall|i: int| 0 <= i < ranges.len() ==> is_within(#[trigger] ranges[i], len)),
    decreases elements.len(),
{
    if elements.len() > 0 {
        lemma_set_within(elements.drop_last(), len);
    }
}

/// A value selects no more ranges than it has bytes.
pub proof fn lemma_ranges_count(value: Seq<u8>, len: u64)
    ensures
        resolve(value, len) matches Some(ranges) ==> ranges.len() <= value.len(),
{
    if all_visible(value) && has_prefix(value, "bytes=".spec_bytes()) {
        reveal_strlit("bytes=");
        assert("bytes=".is_ascii());
        lemma_set_within(set_elements(value.skip(6)), len);
        lemma_elements_count(value.skip(6));
    }
}

proof fn lemma_elements_count(s: Seq<u8>)
    ensures
        set_elements(s).len() <= s.len() + 1,
    decreases s.len(),
{
    lemma_find(s, COMMA);
    let i = find(s, COMMA);
    if i < s.len() {
        lemma_elements_count(s.skip(i + 1));
    }
}

/// From an entity that holds nothing no range is selected.
pub proof fn law_empty_entity_has_no_ranges(value: Seq<u8>)
    ensures
        resolve(value, 0) matches Some(ranges) ==> ranges.len() == 0,
{
    law_ranges_within(value, 0);
    if let Some(ranges) = resolve(value, 0) {
        if ranges.len() > 0 {
            assert(is_within(ranges[0], 0));
        }
    }
}

/// The value that asks for the bytes from position `first` on, up to and with position `last`.
pub open spec fn closed_range_value(first: u64, last: u64) -> Seq<u8> {
    "bytes=".spec_bytes() + decimal(first as nat) + seq![HYPHEN] + decimal(last as nat)
}

/// The value that asks for the bytes from position `first` on.
pub open spec fn open_range_value(first: u64) -> Seq<u8> {
    "bytes=".spec_bytes() + decimal(first as nat) + seq![HYPHEN]
}

/// The value that asks for the last `count` bytes.
pub open spec fn suffix_range_value(count: u64) -> Seq<u8> {
    "bytes=".spec_bytes() + seq![HYPHEN] + decimal(count as nat)
}

/// A value that names the first and the last position selects those and what is between them, as
/// far as the entity goes.
pub proof fn law_closed_range(first: u64, last: u64, len: u64)
    requires
        first <= last,
        first < len,
    ensures
        resolve(closed_range_value(first, last), len) == Some(
            seq![
                Range {
                    start: first,
                    end: if last < len {
                        (last + 1) as u64
                    } else {
                        len
                    },
                },
            ],
        ),
{
    let head = decimal(first as nat);
    let tail = decimal(last as nat);
    law_decimal_read_back(first);
    law_decimal_read_back(last);
    let spec = head + seq![HYPHEN] + tail;
    assert(closed_range_value(first, last) =~= "bytes=".spec_bytes() + spec);
    lemma_single_spec(spec, len);
    lemma_find_is(spec, HYPHEN, head.len() as int);
    assert(is_digit(spec[0]));
    assert(spec.take(head.len() as int) =~= head);
    assert(spec.skip(head.len() as int + 1) =~= tail);
}

/// A value that names the first position selects it and all that follows.
pub proof fn law_open_range(first: u64, len: u64)
    requires
        first < len,
    ensures
        resolve(open_range_value(first), len) == Some(seq![Range { start: first, end: len }]),
{
    let head = decimal(first as nat);
    law_decimal_read_back(first);
    let spec = head + seq![HYPHEN];
    assert(open_range_value(first) =~= "bytes=".spec_bytes() + spec);
    lemma_single_spec(spec, len);
    lemma_find_is(spec, HYPHEN, head.len() as int);
    assert(is_digit(spec[0]));
    assert(spec.take(head.len() as int) =~= head);
}

/// A value that names a number of bytes selects that many at the end of the entity, or the whole
/// of it where it has no more.
pub proof fn law_suffix_range(count: u64, len: u64)
    requires
        0 < count,
        0 < len,
    ensures
        resolve(suffix_range_value(count), len) == Some(
            seq![
                Range {
                    start: if count < len {
                        (len - count) as u64
                    } else {
                        0
                    },
                    end: len,
                },
            ],
        ),
{
    let tail = decimal(count as nat);
    law_decimal_read_back(count);
    let spec = seq![HYPHEN] + tail;
    assert(suffix_range_value(count) =~= "bytes=".spec_bytes() + spec);
    lemma_single_spec(spec, len);
    lemma_find_is(spec, HYPHEN, 0);
    assert(spec.skip(1) =~= tail);
}

/// A value with a single element that holds no whitespace is resolved as that element is.
proof fn lemma_single_spec(spec: Seq<u8>, len: u64)
    requires
        spec.len() > 0,
        forall|i: int| 0 <= i < spec.len() ==> #[trigger] spec[i] == HYPHEN || is_digit(spec[i]),
    ensures
        trim_start(spec) == spec,
        resolve("bytes=".spec_bytes() + spec, len) == match resolve_spec(spec, len) {
            None => None,
            Some(None) => Some(Seq::empty()),
            Some(Some(range)) => Some(seq![range]),
        },
{
    reveal_strlit("bytes=");
    assert("bytes=".is_ascii());
    let unit = "bytes=".spec_bytes();
    let value = unit + spec;
    assert forall|i: int| 0 <= i < value.len() implies is_visible(#[trigger] value[i]) by {
        if i >= unit.len() {
            assert(value[i] == spec[i - unit.len()]);
        }
    }
    assert(value.take(6) =~= unit);
    assert(value.skip(6) =~= spec);
    assert(spec[0] == HYPHEN || is_digit(spec[0]));
    lemma_find_is(spec, COMMA, spec.len() as int);
    let elements = set_elements(spec);
    assert(elements =~= seq![spec]);
    assert(elements.drop_last() =~= Seq::empty());
    assert(resolve_set(elements.drop_last(), len) == Some(Seq::<Range<u64>>::empty()));
    if let Some(Some(range)) = resolve_spec(spec, len) {
        assert(Seq::<Range<u64>>::empty().push(range) =~= seq![range]);
    }
}

/// An element that cannot be read makes the whole set unreadable.
proof fn lemma_unreadable(elements: Seq<Seq<u8>>, len: u64, i: int)
    requires
        0 <= i < elements.len(),
        resolve_spec(elements[i], len) is None,
    ensures
        resolve_set(elements, len) is None,
    decreases elements.len(),
{
    if i < elements.len() - 1 {
        lemma_unreadable(elements.drop_last(), len, i);
    }
}

/// Resolves one element of a byte-range-set.
fn parse_spec(element: &[u8], len: u64) -> (r: Option<Option<Range<u64>>>)
    ensures
        r == resolve_spec(element@, len),
{
    // Trim OWS = *( SP / HTAB )
    let spec = trimmed_start(element);
    let hyphen = find_byte(spec, HYPHEN);
    proof {
        lemma_find(spec@, HYPHEN);
    }
    if hyphen == spec.len() {
        return None;
    }
    let tail = slice_subrange(spec, hyphen + 1, spec.len());
    assert(tail@ =~= spec@.skip(hyphen + 1));
    if hyphen == 0 {
        // It's a suffix-byte-range-spec.
        let suffix: u64 = match parse_number(tail) {
            None => return None,
            Some(n) => n,
        };
        if suffix == 0 || len == 0 {
            return Some(None);
        }
        let start: u64 = if suffix < len {
            len - suffix
        } else {
            0
        };
        return Some(Some(start..len));
    }
    let head = slice_subrange(spec, 0, hyphen);
    assert(head@ =~= spec@.take(hyphen as int));
    let first: u64 = match parse_number(head) {
        None => return None,
        Some(n) => n,
    };
    let end: u64 = if tail.len() > 0 {
        match parse_number(tail) {
            None => return None,
            Some(last) => if last < first {
                return None;
            } else if last < len {
                last + 1
            } else {
                len
            },
        }
    } else {
        len
    };
    if first >= len {
        Some(None)
    } else {
        Some(Some(first..end))
    }
}

/// Parses the byte-range-set in the range header as described in [RFC 7233 section
/// 2.1](https://tools.ietf.org/html/rfc7233#section-2.1).
pub fn parse(range: Option<&HeaderValue>, len: u64) -> (r: ResolvedRanges)
    requires
        range matches Some(v) ==> has_room(value_bytes(*v).len()),
    ensures
        match range {
            None => r is Ignored,
            Some(v) => match resolve(value_bytes(*v), len) {
                None => r is Ignored,
                Some(ranges) => if ranges.len() == 0 {
                    r is NotSatisfiable
                } else {
                    r matches ResolvedRanges::Satisfiable(list) && range_items(list) == ranges
                },
            },
        },
{
    let value = match range {
        None => return ResolvedRanges::Ignored,
        Some(v) => v,
    };
    let text = match value.to_str() {
        Err(_) => return ResolvedRanges::Ignored,
        Ok(s) => s,
    };
    proof {
        lemma_ascii_text_bytes(text, value_bytes(*value));
        reveal_strlit("bytes=");
        assert("bytes=".is_ascii());
    }
    let bytes = text.as_bytes();

    // byte-ranges-specifier = bytes-unit "=" byte-range-set
    if !starts_with(bytes, "bytes=".as_bytes()) {
        return ResolvedRanges::Ignored;
    }
    let mut rest: &[u8] = slice_subrange(bytes, 6, bytes.len());
    assert(rest@ =~= bytes@.skip(6));
    let ghost elements = set_elements(rest@);
    let ghost mut done: Seq<Seq<u8>> = Seq::empty();
    assert(done + set_elements(rest@) =~= elements);

    // byte-range-set  = 1#( byte-range-spec / suffix-byte-range-spec )
    let mut ranges = RangeList::new();
    let mut more: bool = true;
    while more
        invariant
            elements == set_elements(value_bytes(*value).skip(6)),
            resolve(value_bytes(*value), len) == resolve_set(elements, len),
            more ==> elements == done + set_elements(rest@),
            !more ==> elements == done,
            resolve_set(done, len) == Some(range_items(ranges)),
            has_room(value_bytes(*value).len()),
            more ==> range_items(ranges).len() + rest@.len() <= value_bytes(*value).len(),
            range == Some(value),
        decreases (if more { rest@.len() + 1 } else { 0 }),
    {
        let comma = find_byte(rest, COMMA);
        let mut element = slice_subrange(rest, 0, comma);
        assert(element@ =~= rest@.take(comma as int));
        if comma < rest.len() {
            element = trimmed_end(element);
        }
        let ghost before = done;
        proof {
            done = done.push(element@);
            assert(done.drop_last() =~= before);
        }
        if comma == rest.len() {
            assert(element@ =~= rest@);
            assert(elements =~= done);
            more = false;
        } else {
            let tail = slice_subrange(rest, comma + 1, rest.len());
            assert(tail@ =~= rest@.skip(comma + 1));
            assert(elements =~= done + set_elements(tail@));
            rest = tail;
        }
        match parse_spec(element, len) {
            None => {
                proof {
                    assert(elements[before.len() as int] == element@);
                    lemma_unreadable(elements, len, before.len() as int);
                }
                return ResolvedRanges::Ignored;
            },
            // This range is not satisfiable; skip.
            Some(None) => {},
            Some(Some(r)) => {
                ranges.push(r);
            },
        }
    }
    if ranges.len() > 0 {
        ResolvedRanges::Satisfiable(ranges)
    } else {
        ResolvedRanges::NotSatisfiable
    }
}

/// The bytes of `bytes=`.
pub open spec fn unit_bytes() -> Seq<u8> {
    seq![0x62u8, 0x79u8, 0x74u8, 0x65u8, 0x73u8, 0x3du8]
}

proof fn lemma_unit()
    ensures
        "bytes=".spec_bytes() == unit_bytes(),
{
    reveal_strlit("bytes=");
    assert("bytes=".is_ascii());
    assert("bytes=".spec_bytes() =~= unit_bytes());
}

/// A value can be read only if it begins with `bytes=` and holds nothing but visible characters,
/// spaces and tabs.
pub proof fn law_range_unit(value: Seq<u8>, len: u64)
    requires
        resolve(value, len) is Some,
    ensures
        value.len() >= 6,
        value.take(6) == unit_bytes(),
        forall|i: int|
            0 <= i < value.len() ==> 0x20 <= #[trigger] value[i] <= 0x7e || value[i] == 0x09,
{
    lemma_unit();
    assert forall|i: int| 0 <= i < value.len() implies 0x20 <= #[trigger] value[i] <= 0x7e
        || value[i] == 0x09 by {
        assert(is_visible(value[i]));
    }
}

proof fn lemma_visible_concat(a: Seq<u8>, b: Seq<u8>)
    ensures
        all_visible(a + b) <==> all_visible(a) && all_visible(b),
{
    let s = a + b;
    if all_visible(s) {
        assert forall|i: int| 0 <= i < a.len() implies is_visible(#[trigger] a[i]) by {
            assert(is_visible(s[i]));
        }
        assert forall|i: int| 0 <= i < b.len() implies is_visible(#[trigger] b[i]) by {
            assert(is_visible(s[a.len() + i]));
        }
    }
}

/// What stands behind `bytes=` decides.
proof fn lemma_after_unit(s: Seq<u8>, len: u64)
    ensures
        resolve(unit_bytes() + s, len) == if all_visible(s) {
            resolve_set(set_elements(s), len)
        } else {
            None
        },
{
    lemma_unit();
    let value = unit_bytes() + s;
    assert(value.take(6) =~= unit_bytes());
    assert(value.skip(6) =~= s);
    lemma_visible_concat(unit_bytes(), s);
    assert(all_visible(unit_bytes()));
}

/// The elements of a list are read one by one: the ranges that are selected by what stands in front
/// of a comma, with or without whitespace before the comma, come first, then those that are
/// selected by what stands behind it. If either cannot be read, the whole cannot.
pub proof fn law_range_list(a: Seq<u8>, space: Seq<u8>, b: Seq<u8>, len: u64)
    requires
        a.len() > 0 ==> a.last() != 0x20 && a.last() != 0x09,
        forall|i: int| 0 <= i < space.len() ==> #[trigger] space[i] == 0x20 || space[i] == 0x09,
    ensures
        resolve(unit_bytes() + (a + space + seq![0x2cu8] + b), len) == match (
            resolve(unit_bytes() + a, len),
            resolve(unit_bytes() + b, len),
        ) {
            (Some(first), Some(more)) => Some(first + more),
            _ => None,
        },
{
    let whole = a + space + seq![0x2cu8] + b;
    lemma_after_unit(whole, len);
    lemma_after_unit(a, len);
    lemma_after_unit(b, len);
    lemma_visible_concat(a + space + seq![0x2cu8], b);
    lemma_visible_concat(a + space, seq![0x2cu8]);
    lemma_visible_concat(a, space);
    assert(all_visible(space)) by {
        assert forall|i: int| 0 <= i < space.len() implies is_visible(#[trigger] space[i]) by {}
    }
    assert(all_visible(seq![0x2cu8]));
    lemma_elements_concat(a, space, b);
    lemma_resolve_concat(set_elements(a), set_elements(b), len);
}

proof fn lemma_elements_concat(a: Seq<u8>, space: Seq<u8>, b: Seq<u8>)
    requires
        a.len() > 0 ==> a.last() != 0x20 && a.last() != 0x09,
        forall|i: int| 0 <= i < space.len() ==> #[trigger] space[i] == 0x20 || space[i] == 0x09,
    ensures
        set_elements(a + space + seq![COMMA] + b) == set_elements(a) + set_elements(b),
    decreases a.len(),
{
    let s = a + space + seq![COMMA] + b;
    lemma_find(a, COMMA);
    let i = find(a, COMMA);
    if i < a.len() {
        lemma_find_is(s, COMMA, i);
        let rest = a.skip(i + 1);
        assert(s.take(i) =~= a.take(i));
        assert(s.skip(i + 1) =~= rest + space + seq![COMMA] + b);
        assert(rest.len() > 0 ==> rest.last() == a.last());
        lemma_elements_concat(rest, space, b);
        assert(set_elements(s) =~= set_elements(a) + set_elements(b));
    } else {
        let n = a.len() + space.len();
        assert forall|j: int| 0 <= j < n implies s[j] != COMMA by {
            if j >= a.len() {
                assert(s[j] == space[j - a.len()]);
            } else {
                assert(s[j] == a[j]);
            }
        }
        lemma_find_is(s, COMMA, n as int);
        assert(s.take(n as int) =~= a + space);
        assert(s.skip(n as int + 1) =~= b);
        lemma_trim_end_concat(a, space);
        assert(set_elements(a) =~= seq![a]);
    }
}

proof fn lemma_resolve_concat(a: Seq<Seq<u8>>, b: Seq<Seq<u8>>, len: u64)
    ensures
        resolve_set(a + b, len) == match (resolve_set(a, len), resolve_set(b, len)) {
            (Some(first), Some(more)) => Some(first + more),
            _ => None,
        },
    decreases b.len(),
{
    let all = a + b;
    if b.len() == 0 {
        assert(all =~= a);
        if let Some(first) = resolve_set(a, len) {
            assert(first + Seq::<Range<u64>>::empty() =~= first);
        }
    } else {
        assert(all.drop_last() =~= a + b.drop_last());
        assert(all.last() == b.last());
        lemma_resolve_concat(a, b.drop_last(), len);
        if let (Some(first), Some(more), Some(Some(r))) = (
            resolve_set(a, len),
            resolve_set(b.drop_last(), len),
            resolve_spec(b.last(), len),
        ) {
            assert((first + more).push(r) =~= first + more.push(r));
        }
    }
}

/// An element without a comma in it.
proof fn lemma_one_element(s: Seq<u8>, len: u64)
    requires
        forall|i: int| 0 <= i < s.len() ==> s[i] != 0x2c,
    ensures
        resolve(unit_bytes() + s, len) == if !all_visible(s) {
            None
        } else {
            match resolve_spec(s, len) {
                None => None,
                Some(None) => Some(Seq::empty()),
                Some(Some(range)) => Some(seq![range]),
            }
        },
{
    lemma_after_unit(s, len);
    lemma_find_is(s, COMMA, s.len() as int);
    let elements = set_elements(s);
    assert(elements =~= seq![s]);
    assert(elements.drop_last() =~= Seq::empty());
    assert(resolve_set(elements.drop_last(), len) == Some(Seq::<Range<u64>>::empty()));
    if let Some(Some(range)) = resolve_spec(s, len) {
        assert(Seq::<Range<u64>>::empty().push(range) =~= seq![range]);
    }
}

/// Whitespace in front of an element does not matter.
pub proof fn law_range_leading_space(space: Seq<u8>, s: Seq<u8>, len: u64)
    requires
        forall|i: int| 0 <= i < space.len() ==> #[trigger] space[i] == 0x20 || space[i] == 0x09,
        forall|i: int| 0 <= i < s.len() ==> s[i] != 0x2c,
    ensures
        resolve(unit_bytes() + (space + s), len) == resolve(unit_bytes() + s, len),
{
    let longer = space + s;
    assert forall|i: int| 0 <= i < longer.len() implies longer[i] != 0x2c by {
        if i >= space.len() {
            assert(longer[i] == s[i - space.len()]);
        }
    }
    lemma_one_element(longer, len);
    lemma_one_element(s, len);
    lemma_visible_concat(space, s);
    assert(all_visible(space)) by {
        assert forall|i: int| 0 <= i < space.len() implies is_visible(#[trigger] space[i]) by {}
    }
    lemma_trim_more(space, s);
}

proof fn lemma_trim_more(space: Seq<u8>, s: Seq<u8>)
    requires
        forall|i: int| 0 <= i < space.len() ==> #[trigger] space[i] == 0x20 || space[i] == 0x09,
    ensures
        trim_start(space + s) == trim_start(s),
    decreases space.len(),
{
    if space.len() == 0 {
        assert(space + s =~= s);
    } else {
        assert((space + s).drop_first() =~= space.drop_first() + s);
        lemma_trim_more(space.drop_first(), s);
    }
}

/// An element without a hyphen cannot be read.
pub proof fn law_range_needs_hyphen(s: Seq<u8>, len: u64)
    requires
        forall|i: int| 0 <= i < s.len() ==> s[i] != 0x2c && s[i] != 0x2d,
    ensures
        resolve(unit_bytes() + s, len) is None,
{
    lemma_one_element(s, len);
    let t = trim_start(s);
    lemma_trim_start_bytes(s);
    assert forall|j: int| 0 <= j < t.len() implies t[j] != HYPHEN by {
        assert(t[j] == s[s.len() - t.len() + j]);
    }
    lemma_find_is(t, HYPHEN, t.len() as int);
}

proof fn lemma_trim_start_bytes(s: Seq<u8>)
    ensures
        trim_start(s).len() <= s.len(),
        forall|j: int|
            0 <= j < trim_start(s).len() ==> #[trigger] trim_start(s)[j] == s[s.len()
                - trim_start(s).len() + j],
    decreases s.len(),
{
    if s.len() > 0 && is_ows(s[0]) {
        lemma_trim_start_bytes(s.drop_first());
    }
}

/// What an element selects from an entity of length `len`, in terms of the numbers in front of its
/// hyphen and behind it. The positions count from 0, and the last one is selected too. What goes
/// beyond the entity is cut off. A number of bytes at the end is given without a first position.
pub proof fn law_range_element(head: Seq<u8>, tail: Seq<u8>, len: u64)
    requires
        forall|i: int| 0 <= i < head.len() ==> head[i] != 0x2c && head[i] != 0x2d,
        forall|i: int| 0 <= i < tail.len() ==> tail[i] != 0x2c,
        head.len() > 0 ==> head[0] != 0x20 && head[0] != 0x09,
    ensures
        ({
            let selected = resolve(unit_bytes() + (head + seq![0x2du8] + tail), len);
            if head.len() == 0 {
                match number(tail) {
                    None => selected is None,
                    Some(count) => if count == 0 || len == 0 {
                        selected == Some(Seq::<Range<u64>>::empty())
                    } else {
                        selected matches Some(ranges) && ranges.len() == 1 && ranges[0].end == len
                            && ranges[0].end - ranges[0].start == if count < len {
                            count
                        } else {
                            len
                        }
                    },
                }
            } else if number(head) is None || (tail.len() > 0 && number(tail) is None) {
                selected is None
            } else if tail.len() > 0 && number(tail)->0 < number(head)->0 {
                selected is None
            } else if number(head)->0 >= len {
                selected == Some(Seq::<Range<u64>>::empty())
            } else {
                &&& selected matches Some(ranges) && ranges.len() == 1 && ranges[0].start
                    == number(head)->0 && ranges[0].end == if tail.len() > 0 && number(tail)->0
                    < len {
                    number(tail)->0 + 1
                } else {
                    len as int
                }
            }
        }),
{
    let s = head + seq![0x2du8] + tail;
    let n = head.len() as int;
    assert forall|i: int| 0 <= i < s.len() implies s[i] != 0x2c by {
        if i > n {
            assert(s[i] == tail[i - n - 1]);
        }
    }
    lemma_one_element(s, len);
    assert(!is_ows(s[0]));
    assert(trim_start(s) == s);
    lemma_find_is(s, HYPHEN, n);
    assert(s.take(n) =~= head);
    assert(s.skip(n + 1) =~= tail);
    lemma_visible_concat(head + seq![0x2du8], tail);
    lemma_visible_concat(head, seq![0x2du8]);
    assert(all_visible(seq![0x2du8]));
    lemma_number_visible(head);
    lemma_number_visible(tail);
}

/// A number is visible.
proof fn lemma_number_visible(s: Seq<u8>)
    ensures
        number(s) is Some || s.len() == 0 ==> all_visible(s),
{
    if number(s) is Some {
        assert forall|i: int| 0 <= i < s.len() implies is_visible(#[trigger] s[i]) by {
            assert(is_digit(s[i]));
        }
    }
}

} // verus!
