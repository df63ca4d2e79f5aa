//! Header maps and header values of the `http` crate, and what they hold.
//!
//! A header map is modelled by the list of its names in the order in which it is walked, each
//! with its values in the order in which they were added. Names are in lower case.

use http::header::{HeaderMap, HeaderValue, InvalidHeaderValue, ToStrError};
use vstd::prelude::*;
use vstd::string::StringSliceAdditionalSpecFns;

verus! {

/// The contents of a header map.
pub type Headers = Seq<(Seq<char>, Seq<Seq<u8>>)>;

/// The header map of the `http` crate.
#[verifier::external_type_specification]
#[verifier::external_body]
#[verifier::reject_recursive_types(T)]
pub struct ExHeaderMap<T>(http::header::HeaderMap<T>);

/// The header value of the `http` crate.
#[verifier::external_type_specification]
#[verifier::external_body]
pub struct ExHeaderValue(http::header::HeaderValue);

/// The error of `HeaderValue::to_str`.
#[verifier::external_type_specification]
#[verifier::external_body]
pub struct ExToStrError(http::header::ToStrError);

/// The error of `HeaderValue::from_bytes`.
#[verifier::external_type_specification]
#[verifier::external_body]
pub struct ExInvalidHeaderValue(http::header::InvalidHeaderValue);

/// The names and values that a header map holds.
pub uninterp spec fn header_entries(map: HeaderMap<HeaderValue>) -> Seq<
    (Seq<char>, Seq<Seq<u8>>),
>;

/// The bytes that a header value holds.
pub uninterp spec fn value_bytes(value: HeaderValue) -> Seq<u8>;

/// The largest number of distinct names up to which a header map takes a further name, whatever
/// its names hash to.
pub const MAX_NAMES: usize = 6553;

/// The header names that this library reads or writes.
pub open spec fn is_known_name(name: Seq<char>) -> bool {
    ||| name == "accept-encoding"@
    ||| name == "accept-ranges"@
    ||| name == "allow"@
    ||| name == "content-encoding"@
    ||| name == "content-length"@
    ||| name == "content-range"@
    ||| name == "content-type"@
    ||| name == "date"@
    ||| name == "etag"@
    ||| name == "if-match"@
    ||| name == "if-modified-since"@
    ||| name == "if-none-match"@
    ||| name == "if-range"@
    ||| name == "if-unmodified-since"@
    ||| name == "last-modified"@
    ||| name == "range"@
    ||| name == "vary"@
}

/// The position of `name` in the list, or the length of the list if it is not there.
pub open spec fn name_index(h: Headers, name: Seq<char>) -> int
    decreases h.len(),
{
    if h.len() == 0 || h[0].0 == name {
        0
    } else {
        1 + name_index(h.drop_first(), name)
    }
}

/// The first value under `name`.
pub open spec fn first_value(h: Headers, name: Seq<char>) -> Option<Seq<u8>> {
    let i = name_index(h, name);
    if i < h.len() && h[i].1.len() > 0 {
        Some(h[i].1[0])
    } else {
        None
    }
}

/// The list with `value` as the only value under `name`.
pub open spec fn inserted(h: Headers, name: Seq<char>, value: Seq<u8>) -> Headers {
    let i = name_index(h, name);
    if i < h.len() {
        h.update(i, (name, seq![value]))
    } else {
        h.push((name, seq![value]))
    }
}

/// The list with `value` as one more value under `name`.
pub open spec fn appended(h: Headers, name: Seq<char>, value: Seq<u8>) -> Headers {
    let i = name_index(h, name);
    if i < h.len() {
        h.update(i, (name, h[i].1.push(value)))
    } else {
        h.push((name, seq![value]))
    }
}

/// The pairs of a name and a value, in the order in which the map is walked.
pub open spec fn pairs(h: Headers) -> Seq<(Seq<char>, Seq<u8>)>
    decreases h.len(),
{
    if h.len() == 0 {
        Seq::empty()
    } else {
        pairs(h.drop_last()) + h.last().1.map_values(|v: Seq<u8>| (h.last().0, v))
    }
}

/// The list with each of `more` appended in turn.
pub open spec fn extended(h: Headers, more: Seq<(Seq<char>, Seq<u8>)>) -> Headers
    decreases more.len(),
{
    if more.len() == 0 {
        h
    } else {
        appended(extended(h, more.drop_last()), more.last().0, more.last().1)
    }
}

/// A byte that `HeaderValue::to_str` takes: visible ASCII, a space or a tab.
pub open spec fn is_visible(b: u8) -> bool {
    0x20 <= b < 0x7f || b == 0x09
}

/// Whether every byte is visible ASCII, a space or a tab.
pub open spec fn all_visible(s: Seq<u8>) -> bool {
    forall|i: int| 0 <= i < s.len() ==> is_visible(#[trigger] s[i])
}

/// A byte that a header value can hold.
pub open spec fn is_value_byte(b: u8) -> bool {
    0x20 <= b && b != 0x7f || b == 0x09
}

/// Whether a header value can hold these bytes.
pub open spec fn is_value(s: Seq<u8>) -> bool {
    forall|i: int| 0 <= i < s.len() ==> is_value_byte(#[trigger] s[i])
}

/// The text whose characters have these codes.
pub open spec fn ascii_text(s: Seq<u8>) -> Seq<char> {
    s.map_values(|b: u8| b as char)
}

/// `HeaderMap::new` gives a map that holds nothing.
#[verifier::external_body]
pub(crate) fn new_map() -> (r: HeaderMap<HeaderValue>)
    ensures
        header_entries(r) == Headers::empty(),
{
    HeaderMap::new()
}

/// `HeaderMap::get` gives the first value under a name, if the map has the name.
#[verifier::external_body]
pub(crate) fn get<'a>(map: &'a HeaderMap<HeaderValue>, name: &str) -> (r: Option<&'a HeaderValue>)
    requires
        is_known_name(name@),
    ensures
        match r {
            Some(v) => first_value(header_entries(*map), name@) == Some(value_bytes(*v)),
            None => first_value(header_entries(*map), name@) is None,
        },
{
    map.get(name)
}

/// `HeaderMap::insert` puts one value under a name in place of those that were there; a new name
/// comes last.
#[verifier::external_body]
pub(crate) fn insert(map: &mut HeaderMap<HeaderValue>, name: &'static str, value: HeaderValue)
    requires
        is_known_name(name@),
        header_entries(*old(map)).len() <= MAX_NAMES,
    ensures
        header_entries(*final(map)) == inserted(
            header_entries(*old(map)),
            name@,
            value_bytes(value),
        ),
{
    map.insert(name, value);
}

/// `HeaderMap::append` adds a value behind those that the name has; a new name comes last.
#[verifier::external_body]
pub(crate) fn append(map: &mut HeaderMap<HeaderValue>, name: &'static str, value: HeaderValue)
    requires
        is_known_name(name@),
        header_entries(*old(map)).len() <= MAX_NAMES,
    ensures
        header_entries(*final(map)) == appended(
            header_entries(*old(map)),
            name@,
            value_bytes(value),
        ),
{
    map.append(name, value);
}

/// `HeaderMap::extend`, handed the pairs of another map, appends each of them in turn.
#[verifier::external_body]
pub(crate) fn extend(map: &mut HeaderMap<HeaderValue>, more: &HeaderMap<HeaderValue>)
    requires
        header_entries(*old(map)).len() + header_entries(*more).len() <= MAX_NAMES,
    ensures
        header_entries(*final(map)) == extended(
            header_entries(*old(map)),
            pairs(header_entries(*more)),
        ),
{
    map.extend(more.iter().map(|(k, v)| (k.clone(), v.clone())));
}

/// `HeaderMap::iter` walks the names in their order, and under each name its values in theirs.
#[verifier::external_body]
pub(crate) fn to_pairs(map: &HeaderMap<HeaderValue>) -> (r: Vec<(String, Vec<u8>)>)
    ensures
        r@.len() == pairs(header_entries(*map)).len(),
        forall|i: int|
            0 <= i < r@.len() ==> (#[trigger] r@[i]).0@ == pairs(header_entries(*map))[i].0
                && r@[i].1@ == pairs(header_entries(*map))[i].1,
{
    map.iter().map(|(k, v)| (k.as_str().to_string(), v.as_bytes().to_vec())).collect()
}

/// `HeaderValue::as_bytes` gives the bytes that the value holds.
pub assume_specification[ HeaderValue::as_bytes ](value: &HeaderValue) -> (r: &[u8])
    ensures
        r@ == value_bytes(*value),
;

/// `HeaderValue::to_str` gives the value as text where every byte is visible ASCII, a space or a
/// tab, and fails otherwise.
pub assume_specification[ HeaderValue::to_str ](value: &HeaderValue) -> (r: Result<
    &str,
    ToStrError,
>)
    ensures
        match r {
            Ok(s) => all_visible(value_bytes(*value)) && s@ == ascii_text(value_bytes(*value)),
            Err(_) => !all_visible(value_bytes(*value)),
        },
;

/// `HeaderValue::from_bytes` makes a value that holds the given bytes, or fails if one of them is
/// a control character.
pub assume_specification[ HeaderValue::from_bytes ](src: &[u8]) -> (r: Result<
    HeaderValue,
    InvalidHeaderValue,
>)
    ensures
        match r {
            Ok(v) => is_value(src@) && value_bytes(v) == src@,
            Err(_) => !is_value(src@),
        },
;

/// `HeaderValue::clone` makes a value that holds the same bytes.
pub assume_specification[ <HeaderValue as Clone>::clone ](value: &HeaderValue) -> (r: HeaderValue)
    ensures
        value_bytes(r) == value_bytes(*value),
;

/// The bytes of an ASCII text are the codes of its characters.
pub proof fn lemma_ascii_text_bytes(s: &str, b: Seq<u8>)
    requires
        all_visible(b),
        s@ == ascii_text(b),
    ensures
        s.spec_bytes() == b,
{
    assert forall|i: int| 0 <= i < s@.len() implies '\0' <= #[trigger] s@[i] <= '\u{7f}' by {
        assert(is_visible(b[i]));
    }
    assert(vstd::utf8::is_ascii_chars(s@));
    assert(s.is_ascii());
    assert(s.spec_bytes() =~= b);
}

/// A text of visible ASCII characters can be a header value, and reads back as itself.
pub proof fn lemma_visible_text(s: &str)
    requires
        forall|i: int| 0 <= i < s@.len() ==> ' ' <= #[trigger] s@[i] <= '~',
    ensures
        is_value(s.spec_bytes()),
        all_visible(s.spec_bytes()),
        ascii_text(s.spec_bytes()) == s@,
{
    assert forall|i: int| 0 <= i < s@.len() implies '\0' <= #[trigger] s@[i] <= '\u{7f}' by {}
    assert(vstd::utf8::is_ascii_chars(s@));
    assert(s.is_ascii());
    let b = s.spec_bytes();
    assert forall|i: int| 0 <= i < b.len() implies is_visible(#[trigger] b[i]) by {
        assert(' ' <= s@[i] <= '~');
    }
    assert forall|i: int| 0 <= i < b.len() implies is_value_byte(#[trigger] b[i]) by {
        assert(is_visible(b[i]));
    }
    assert(ascii_text(b) =~= s@);
}

/// Whether the list does not have the name.
pub open spec fn is_absent(h: Headers, name: Seq<char>) -> bool {
    forall|i: int| 0 <= i < h.len() ==> (#[trigger] h[i]).0 != name
}

/// Where a name is not in the list, its position is the list's end.
pub proof fn lemma_absent(h: Headers, name: Seq<char>)
    requires
        is_absent(h, name),
    ensures
        name_index(h, name) == h.len(),
    decreases h.len(),
{
    if h.len() > 0 {
        assert(h[0].0 != name);
        assert forall|i: int| 0 <= i < h.drop_first().len() implies (
        #[trigger] h.drop_first()[i]).0 != name by {
            assert(h.drop_first()[i] == h[i + 1]);
        }
        lemma_absent(h.drop_first(), name);
    }
}

/// Where a name stands in the list, with no earlier entry of the same name, its position is that.
pub proof fn lemma_name_index(h: Headers, name: Seq<char>, i: int)
    requires
        0 <= i < h.len(),
        h[i].0 == name,
        is_absent(h.take(i), name),
    ensures
        name_index(h, name) == i,
    decreases h.len(),
{
    if i > 0 {
        assert(h.take(i)[0].0 != name);
        assert forall|j: int| 0 <= j < i - 1 implies (#[trigger] h.drop_first().take(i - 1)[j]).0
            != name by {
            assert(h.drop_first().take(i - 1)[j] == h.take(i)[j + 1]);
        }
        lemma_name_index(h.drop_first(), name, i - 1);
    }
}

/// To append a header leaves the first value under every name as it is.
pub proof fn lemma_appended_keeps(h: Headers, name: Seq<char>, value: Seq<u8>, other: Seq<char>)
    requires
        first_value(h, other) is Some,
    ensures
        first_value(appended(h, name, value), other) == first_value(h, other),
{
    lemma_inserted_len(h, name, value);
    lemma_inserted_len(h, other, value);
    let after = appended(h, name, value);
    let i = name_index(h, other);
    assert forall|j: int| 0 <= j < h.len() implies (#[trigger] after[j]).0 == h[j].0 by {
        lemma_name_at_index(h, name);
    }
    lemma_name_at_index(h, other);
    lemma_name_at_index(after, other);
    lemma_inserted_len(after, other, value);
    if name_index(after, other) < i {
        assert(h[name_index(after, other)].0 == other);
    } else if name_index(after, other) > i {
        assert(after[i].0 == other);
    }
}

/// The entry at the position of a name has that name, and none before it has.
proof fn lemma_name_at_index(h: Headers, name: Seq<char>)
    ensures
        0 <= name_index(h, name) <= h.len(),
        name_index(h, name) < h.len() ==> h[name_index(h, name)].0 == name,
        forall|j: int| 0 <= j < name_index(h, name) ==> (#[trigger] h[j]).0 != name,
    decreases h.len(),
{
    if h.len() > 0 && h[0].0 != name {
        lemma_name_at_index(h.drop_first(), name);
        assert forall|j: int| 0 <= j < name_index(h, name) implies (#[trigger] h[j]).0 != name by {
            if j > 0 {
                assert(h[j] == h.drop_first()[j - 1]);
            }
        }
    }
}

/// To put a value under a name leaves the values under every other name as they are.
pub proof fn lemma_inserted_keeps(h: Headers, name: Seq<char>, value: Seq<u8>, other: Seq<char>)
    requires
        first_value(h, other) is Some,
        name != other,
    ensures
        first_value(inserted(h, name, value), other) == first_value(h, other),
{
    let after = inserted(h, name, value);
    let i = name_index(h, other);
    lemma_name_at_index(h, name);
    lemma_name_at_index(h, other);
    lemma_name_at_index(after, other);
    assert forall|j: int| 0 <= j < h.len() implies (#[trigger] after[j]).0 == h[j].0 by {}
    if name_index(after, other) < i {
        assert(h[name_index(after, other)].0 == other);
    } else if name_index(after, other) > i {
        assert(after[i].0 == other);
    }
}

/// To append headers leaves the first value under every name as it is.
pub proof fn lemma_extended_keeps(h: Headers, more: Seq<(Seq<char>, Seq<u8>)>, name: Seq<char>)
    requires
        first_value(h, name) is Some,
    ensures
        first_value(extended(h, more), name) == first_value(h, name),
    decreases more.len(),
{
    if more.len() > 0 {
        lemma_extended_keeps(h, more.drop_last(), name);
        lemma_appended_keeps(
            extended(h, more.drop_last()),
            more.last().0,
            more.last().1,
            name,
        );
    }
}

/// To put a value under a name adds at most one name.
pub proof fn lemma_inserted_len(h: Headers, name: Seq<char>, value: Seq<u8>)
    ensures
        0 <= name_index(h, name) <= h.len(),
        h.len() <= inserted(h, name, value).len() <= h.len() + 1,
    decreases h.len(),
{
    if h.len() > 0 && h[0].0 != name {
        lemma_inserted_len(h.drop_first(), name, value);
    }
}

/// Adds a header that the map does not have yet.
pub(crate) fn add_new(map: &mut HeaderMap<HeaderValue>, name: &'static str, value: HeaderValue)
    requires
        is_known_name(name@),
        header_entries(*old(map)).len() <= MAX_NAMES,
        is_absent(header_entries(*old(map)), name@),
    ensures
        header_entries(*final(map)) == header_entries(*old(map)).push(
            (name@, seq![value_bytes(value)]),
        ),
{
    proof {
        lemma_absent(header_entries(*map), name@);
    }
    append(map, name, value);
}

/// Makes a header value of bytes that are fit for one.
pub fn header_value(src: &[u8]) -> (r: HeaderValue)
    requires
        is_value(src@),
    ensures
        value_bytes(r) == src@,
{
    HeaderValue::from_bytes(src).unwrap()
}

/// A value that is put under a name is the one that is found there, and what is found under any
/// other name stays what it was.
pub proof fn law_inserted(h: Headers, name: Seq<char>, value: Seq<u8>, other: Seq<char>)
    requires
        name != other,
    ensures
        first_value(inserted(h, name, value), name) == Some(value),
        first_value(inserted(h, name, value), other) == first_value(h, other),
{
    let after = inserted(h, name, value);
    lemma_name_at_index(h, name);
    lemma_name_at_index(h, other);
    lemma_name_at_index(after, name);
    lemma_name_at_index(after, other);
    let i = name_index(h, name);
    assert forall|j: int| 0 <= j < h.len() implies (#[trigger] after[j]).0 == h[j].0 by {}
    if name_index(after, name) < i {
        assert(h[name_index(after, name)].0 == name);
    } else if name_index(after, name) > i {
        assert(after[i].0 == name);
    }
    let k = name_index(h, other);
    let k_after = name_index(after, other);
    if k_after < k {
        if k_after < h.len() {
            assert(h[k_after].0 == other);
        }
    } else if k_after > k && k < h.len() {
        assert(after[k].0 == other);
    } else if k_after > k {
        assert(after.len() == h.len() + 1 && after[k].0 == name);
    }
}

/// An entry at the end of a list under a name that the list did not have gives that name its value,
/// and leaves what is found under any other name.
pub proof fn law_new_header(h: Headers, name: Seq<char>, value: Seq<u8>, other: Seq<char>)
    requires
        is_absent(h, name),
        name != other,
    ensures
        first_value(h.push((name, seq![value])), name) == Some(value),
        first_value(h.push((name, seq![value])), other) == first_value(h, other),
        is_absent(h, other) ==> is_absent(h.push((name, seq![value])), other),
{
    lemma_absent(h, name);
    assert(inserted(h, name, value) == h.push((name, seq![value])));
    law_inserted(h, name, value, other);
}

} // verus!
