//! Choice of a content coding by the `Accept-Encoding` request header.

use crate::headers::{all_visible, first_value, get, header_entries, lemma_ascii_text_bytes};
use crate::text::{
    bytes_eq, find_byte, has_prefix, is_digit, is_ows, law_split, law_split_concat, law_trim,
    lemma_rfind_is, lemma_trim_parts, rfind, rfind_byte, split, starts_with, trim, trimmed, COMMA,
    DOT, ONE, SEMICOLON, ZERO,
};
use http::header::{HeaderMap, HeaderValue};
use vstd::prelude::*;
use vstd::slice::slice_subrange;
use vstd::string::StringSliceAdditionalSpecFns;

verus! {

/// The value of the digit at position `i`, or 0 behind the end.
pub open spec fn digit_at(s: Seq<u8>, i: int) -> int {
    if i < s.len() {
        s[i] - ZERO
    } else {
        0
    }
}

/// The weight, in thousandths, that a `qvalue` denotes:
/// ```text
/// qvalue = ( "0" [ "." 0*3DIGIT ] )
///        / ( "1" [ "." 0*3("0") ] )
/// ```
pub open spec fn qvalue(s: Seq<u8>) -> Option<u16> {
    if s.len() == 0 || s.len() > 5 || (s.len() > 1 && s[1] != DOT) {
        None
    } else if s[0] == ONE && forall|i: int| 2 <= i < s.len() ==> s[i] == ZERO {
        Some(1000)
    } else if s[0] == ZERO && forall|i: int| 2 <= i < s.len() ==> is_digit(#[trigger] s[i]) {
        Some((digit_at(s, 2) * 100 + digit_at(s, 3) * 10 + digit_at(s, 4)) as u16)
    } else {
        None
    }
}

/// One element of `Accept-Encoding`: a coding and its weight, which is 1 (1000 thousandths) where
/// none is given. `None` if the weight cannot be read.
pub open spec fn weighted_coding(element: Seq<u8>) -> Option<(Seq<u8>, u16)> {
    let element = trim(element);
    let i = rfind(element, SEMICOLON);
    if i < 0 {
        Some((element, 1000))
    } else {
        let parameter = trim(element.skip(i + 1));
        if has_prefix(parameter, "q=".spec_bytes()) {
            match qvalue(parameter.skip(2)) {
                Some(q) => Some((trim(element.take(i)), q)),
                None => None,
            }
        } else {
            None
        }
    }
}

/// The weight of a coding: that of the last element that names it.
pub open spec fn weight_of(elements: Seq<Seq<u8>>, coding: Seq<u8>) -> Option<u16>
    decreases elements.len(),
{
    if elements.len() == 0 {
        None
    } else {
        match weighted_coding(elements.last()) {
            Some((c, q)) if c == coding => Some(q),
            _ => weight_of(elements.drop_last(), coding),
        }
    }
}

/// The weight of a coding that may be named by `*`, and a default where neither is named.
pub open spec fn weight_or(
    elements: Seq<Seq<u8>>,
    coding: Seq<u8>,
    default_weight: u16,
) -> u16 {
    match weight_of(elements, coding) {
        Some(q) => q,
        None => match weight_of(elements, "*".spec_bytes()) {
            Some(q) => q,
            None => default_weight,
        },
    }
}

/// Whether every element of the list can be read.
pub open spec fn all_readable(elements: Seq<Seq<u8>>) -> bool {
    forall|i: int| 0 <= i < elements.len() ==> weighted_coding(#[trigger] elements[i]) is Some
}

/// Whether a value of `Accept-Encoding` prefers gzip to no coding: the value can be read, gzip is
/// acceptable, and the absence of a coding does not weigh more. The absence of a coding weighs
/// next to nothing, but is acceptable, where the value says nothing of it.
pub open spec fn prefers_gzip(value: Seq<u8>) -> bool {
    let elements = split(value, COMMA);
    &&& all_visible(value)
    &&& all_readable(elements)
    &&& weight_or(elements, "gzip".spec_bytes(), 0) > 0
    &&& weight_or(elements, "gzip".spec_bytes(), 0) >= weight_or(
        elements,
        "identity".spec_bytes(),
        1,
    )
}

/// Parses an RFC 7231 section 5.3.1 `qvalue` into an integer in [0, 1000].
/// ```text
/// qvalue = ( "0" [ "." 0*3DIGIT ] )
///        / ( "1" [ "." 0*3("0") ] )
/// ```
pub fn parse_qvalue(s: &str) -> (r: Result<u16, ()>)
    ensures
        match r {
            Ok(q) => qvalue(s.spec_bytes()) == Some(q) && q <= 1000,
            Err(_) => qvalue(s.spec_bytes()) is None,
        },
{
    parse_qvalue_bytes(s.as_bytes())
}

fn parse_qvalue_bytes(s: &[u8]) -> (r: Result<u16, ()>)
    ensures
        match r {
            Ok(q) => qvalue(s@) == Some(q) && q <= 1000,
            Err(_) => qvalue(s@) is None,
        },
{
    if s.len() == 0 || s.len() > 5 || (s.len() > 1 && s[1] != DOT) {
        return Err(());
    }
    if s[0] == ONE {
        let mut i: usize = 2;
        while i < s.len()
            invariant
                2 <= i,
                0 < s@.len() <= 5,
                s@[0] == ONE,
                forall|j: int| 2 <= j < i && j < s@.len() ==> s@[j] == ZERO,
            decreases s@.len() - i,
        {
            if s[i] != ZERO {
                assert(s@[i as int] != ZERO);
                return Err(());
            }
            i += 1;
        }
        return Ok(1000);
    }
    if s[0] != ZERO {
        return Err(());
    }
    let mut q: u16 = 0;
    let mut i: usize = 2;
    while i < s.len()
        invariant
            2 <= i <= 5,
            s@.len() <= 5,
            s@.len() > 1 ==> i <= s@.len(),
            s@.len() == 1 ==> i == 2,
            s@[0] == ZERO,
            forall|j: int| 2 <= j < i && j < s@.len() ==> is_digit(#[trigger] s@[j]),
            i == 2 ==> q == 0,
            i == 3 ==> q == digit_at(s@, 2) * 100,
            i == 4 ==> q == digit_at(s@, 2) * 100 + digit_at(s@, 3) * 10,
            i == 5 ==> q == digit_at(s@, 2) * 100 + digit_at(s@, 3) * 10 + digit_at(s@, 4),
            q <= 999,
        decreases s@.len() - i,
    {
        let b = s[i];
        if b < ZERO || b > 0x39 {
            assert(!is_digit(s@[i as int]));
            return Err(());
        }
        assert(is_digit(s@[2]));
        if i == 2 {
            q = (b - ZERO) as u16 * 100;
        } else if i == 3 {
            q = q + (b - ZERO) as u16 * 10;
        } else {
            q = q + (b - ZERO) as u16;
        }
        i += 1;
    }
    Ok(q)
}

/// Reads one element of `Accept-Encoding`.
fn parse_element(element: &[u8]) -> (r: Option<(&[u8], u16)>)
    ensures
        match r {
            Some((c, q)) => weighted_coding(element@) == Some((c@, q)),
            None => weighted_coding(element@) is None,
        },
{
    let element = trimmed(element);
    match rfind_byte(element, SEMICOLON) {
        None => Some((element, 1000)),
        Some(i) => {
            assert(i < element.len());
            let tail = slice_subrange(element, i + 1, element.len());
            assert(tail@ =~= element@.skip(i + 1));
            let parameter = trimmed(tail);
            proof {
                reveal_strlit("q=");
                assert("q=".is_ascii());
            }
            if !starts_with(parameter, "q=".as_bytes()) {
                return None;
            }
            let weight = slice_subrange(parameter, 2, parameter.len());
            assert(weight@ =~= parameter@.skip(2));
            match parse_qvalue_bytes(weight) {
                Ok(q) => {
                    let head = slice_subrange(element, 0, i);
                    assert(head@ =~= element@.take(i as int));
                    Some((trimmed(head), q))
                },
                Err(_) => None,
            }
        },
    }
}

/// Returns whether a value of `Accept-Encoding`, already known to be visible ASCII, prefers gzip
/// to no coding.
fn list_prefers_gzip(value: &[u8]) -> (r: bool)
    requires
        all_visible(value@),
    ensures
        r == prefers_gzip(value@),
{
    let ghost elements = split(value@, COMMA);
    let ghost mut done: Seq<Seq<u8>> = Seq::empty();
    let mut gzip_q: Option<u16> = None;
    let mut identity_q: Option<u16> = None;
    let mut star_q: Option<u16> = None;
    let mut rest: &[u8] = value;
    let mut more: bool = true;
    proof {
        distinct_codings();
        assert(done + split(rest@, COMMA) =~= elements);
    }
    while more
        invariant
            elements == split(value@, COMMA),
            more ==> elements == done + split(rest@, COMMA),
            !more ==> elements == done,
            all_readable(done),
            gzip_q == weight_of(done, "gzip".spec_bytes()),
            identity_q == weight_of(done, "identity".spec_bytes()),
            star_q == weight_of(done, "*".spec_bytes()),
            "gzip".spec_bytes() != "identity".spec_bytes(),
            "gzip".spec_bytes() != "*".spec_bytes(),
            "identity".spec_bytes() != "*".spec_bytes(),
        decreases (if more { rest@.len() + 1 } else { 0 }),
    {
        let i = find_byte(rest, COMMA);
        let ghost before = done;
        let element = slice_subrange(rest, 0, i);
        assert(element@ =~= rest@.take(i as int));
        proof {
            done = done.push(element@);
            assert(done.drop_last() =~= before);
            assert(done.last() == element@);
        }
        let last = i == rest.len();
        if last {
            assert(element@ =~= rest@);
            assert(elements =~= done);
            more = false;
        } else {
            let tail = slice_subrange(rest, i + 1, rest.len());
            assert(tail@ =~= rest@.skip(i + 1));
            assert(elements =~= done + split(tail@, COMMA));
            rest = tail;
        }
        match parse_element(element) {
            None => {
                proof {
                    assert(elements[before.len() as int] == element@);
                }
                return false;
            },
            Some((coding, quality)) => {
                if bytes_eq(coding, "gzip".as_bytes()) {
                    gzip_q = Some(quality);
                } else if bytes_eq(coding, "identity".as_bytes()) {
                    identity_q = Some(quality);
                } else if bytes_eq(coding, "*".as_bytes()) {
                    star_q = Some(quality);
                }
            },
        }
    }
    let gzip_weight: u16 = match gzip_q {
        Some(q) => q,
        None => match star_q {
            Some(q) => q,
            None => 0,
        },
    };
    // "If the representation has no content-coding, then it is acceptable by default unless
    // specifically excluded by the Accept-Encoding field stating either "identity;q=0" or
    // "*;q=0" without a more specific entry for "identity"."
    let identity_weight: u16 = match identity_q {
        Some(q) => q,
        None => match star_q {
            Some(q) => q,
            None => 1,
        },
    };
    gzip_weight > 0 && gzip_weight >= identity_weight
}

proof fn distinct_codings()
    ensures
        "gzip".spec_bytes() != "identity".spec_bytes(),
        "gzip".spec_bytes() != "*".spec_bytes(),
        "identity".spec_bytes() != "*".spec_bytes(),
{
    reveal_strlit("gzip");
    reveal_strlit("identity");
    reveal_strlit("*");
    assert("gzip".is_ascii());
    assert("identity".is_ascii());
    assert("*".is_ascii());
    assert("gzip".spec_bytes().len() == 4);
    assert("identity".spec_bytes().len() == 8);
    assert("*".spec_bytes().len() == 1);
}

/// Returns iff it's preferable to use `Content-Encoding: gzip` when responding to the given
/// request, rather than no content coding.
///
/// Follows the rules of [RFC 7231 section
/// 5.3.4](https://tools.ietf.org/html/rfc7231#section-5.3.4).
pub fn should_gzip(headers: &HeaderMap<HeaderValue>) -> (r: bool)
    ensures
        r == match first_value(header_entries(*headers), "accept-encoding"@) {
            Some(value) => prefers_gzip(value),
            None => false,
        },
{
    match get(headers, "accept-encoding") {
        None => false,
        Some(v) => match v.to_str() {
            Err(_) => false,
            Ok(s) => {
                proof {
                    lemma_ascii_text_bytes(s, crate::headers::value_bytes(*v));
                }
                list_prefers_gzip(s.as_bytes())
            },
        },
    }
}

/// The `qvalue` with three digits behind the point that denotes a number of thousandths.
pub open spec fn qvalue_text(q: u16) -> Seq<u8> {
    if q == 1000 {
        seq![ONE, DOT, ZERO, ZERO, ZERO]
    } else {
        seq![
            ZERO,
            DOT,
            (ZERO + q / 100) as u8,
            (ZERO + q / 10 % 10) as u8,
            (ZERO + q % 10) as u8,
        ]
    }
}

/// Every number of thousandths up to 1 can be written as a `qvalue`, and no `qvalue` denotes more.
pub proof fn law_qvalue_range(s: Seq<u8>, q: u16)
    requires
        q <= 1000,
    ensures
        qvalue(qvalue_text(q)) == Some(q),
        qvalue(s) matches Some(w) ==> w <= 1000,
{
    let text = qvalue_text(q);
    if q < 1000 {
        assert(is_digit(text[2]) && is_digit(text[3]) && is_digit(text[4]));
    }
    if s.len() > 0 && s.len() <= 5 && s[0] == ZERO && qvalue(s) is Some {
        assert(2 < s.len() ==> is_digit(s[2]));
        assert(3 < s.len() ==> is_digit(s[3]));
        assert(4 < s.len() ==> is_digit(s[4]));
    }
}

/// Where a value gives gzip no weight, or less than it gives to the absence of a coding, gzip is
/// not preferred. Where it gives weight to gzip, and no more to the absence of a coding, gzip is.
pub proof fn law_gzip_by_weight(value: Seq<u8>, gzip: u16, identity: u16)
    requires
        all_visible(value),
        all_readable(split(value, COMMA)),
        weight_of(split(value, COMMA), "gzip".spec_bytes()) == Some(gzip),
        weight_of(split(value, COMMA), "identity".spec_bytes()) == Some(identity),
    ensures
        prefers_gzip(value) <==> gzip > 0 && gzip >= identity,
{
}

/// The asterisk stands for gzip and for the absence of a coding, where they are not named.
pub proof fn law_asterisk(value: Seq<u8>, weight: u16)
    requires
        all_visible(value),
        all_readable(split(value, COMMA)),
        weight_of(split(value, COMMA), "gzip".spec_bytes()) is None,
        weight_of(split(value, COMMA), "identity".spec_bytes()) is None,
        weight_of(split(value, COMMA), "*".spec_bytes()) == Some(weight),
    ensures
        prefers_gzip(value) <==> weight > 0,
{
}

/// A `qvalue` is `0` or `1`, perhaps with a point behind it and up to three digits behind that. The
/// digits are thousandths, and behind `1` they are zeros.
pub proof fn law_qvalue(s: Seq<u8>)
    ensures
        qvalue(s) is Some <==> {
            ||| s.len() == 1 && (s[0] == 0x30 || s[0] == 0x31)
            ||| 2 <= s.len() <= 5 && s[1] == 0x2e && s[0] == 0x31 && forall|i: int|
                2 <= i < s.len() ==> s[i] == 0x30
            ||| 2 <= s.len() <= 5 && s[1] == 0x2e && s[0] == 0x30 && forall|i: int|
                2 <= i < s.len() ==> 0x30 <= #[trigger] s[i] <= 0x39
        },
        qvalue(s) matches Some(q) ==> if s[0] == 0x31 {
            q == 1000
        } else {
            &&& s.len() <= 2 ==> q == 0
            &&& s.len() == 3 ==> q == (s[2] - 0x30) * 100
            &&& s.len() == 4 ==> q == (s[2] - 0x30) * 100 + (s[3] - 0x30) * 10
            &&& s.len() == 5 ==> q == (s[2] - 0x30) * 100 + (s[3] - 0x30) * 10 + (s[4] - 0x30)
        },
{
    if s.len() > 0 && s.len() <= 5 && s[0] == ZERO {
        if forall|i: int| 2 <= i < s.len() ==> 0x30 <= #[trigger] s[i] <= 0x39 {
            assert forall|i: int| 2 <= i < s.len() implies is_digit(#[trigger] s[i]) by {}
        }
        if forall|i: int| 2 <= i < s.len() ==> is_digit(#[trigger] s[i]) {
            assert forall|i: int| 2 <= i < s.len() implies 0x30 <= #[trigger] s[i] <= 0x39 by {
                assert(is_digit(s[i]));
            }
            assert(2 < s.len() ==> is_digit(s[2]));
            assert(3 < s.len() ==> is_digit(s[3]));
            assert(4 < s.len() ==> is_digit(s[4]));
        }
    }
}

/// A coding as it may stand in a list, with whitespace around it and perhaps a weight behind it:
/// `<space> coding <space> ; <space> q= qvalue <space>`.
pub struct Item {
    pub before: Seq<u8>,
    pub coding: Seq<u8>,
    /// The whitespace in front of the semicolon and behind it, and the `qvalue`.
    pub weight: Option<(Seq<u8>, Seq<u8>, Seq<u8>)>,
    pub after: Seq<u8>,
}

/// Whether these are spaces and tabs.
pub open spec fn is_space(s: Seq<u8>) -> bool {
    forall|i: int| 0 <= i < s.len() ==> #[trigger] s[i] == 0x20 || s[i] == 0x09
}

impl Item {
    /// Whether the parts are what they are to be. A coding is any visible text without a comma or a
    /// semicolon in it and without whitespace at its ends.
    pub open spec fn wf(self) -> bool {
        let c = self.coding;
        &&& is_space(self.before)
        &&& is_space(self.after)
        &&& forall|i: int|
            0 <= i < c.len() ==> {
                &&& 0x20 <= #[trigger] c[i] <= 0x7e || c[i] == 0x09
                &&& c[i] != 0x2c
                &&& c[i] != 0x3b
            }
        &&& c.len() > 0 ==> c[0] != 0x20 && c[0] != 0x09 && c.last() != 0x20 && c.last() != 0x09
        &&& self.weight matches Some((front, behind, q)) ==> is_space(front) && is_space(behind)
            && qvalue(q) is Some
    }

    /// The item as it is written.
    pub open spec fn text(self) -> Seq<u8> {
        let named = self.before + self.coding;
        match self.weight {
            None => named + self.after,
            Some((front, behind, q)) => named + front + seq![0x3bu8] + behind + seq![0x71u8, 0x3du8]
                + q + self.after,
        }
    }

    /// The weight that the item gives to its coding, in thousandths: 1 where it says none.
    pub open spec fn value(self) -> int {
        match self.weight {
            None => 1000,
            Some((_, _, q)) => qvalue(q)->0 as int,
        }
    }
}

/// The items with commas between them.
pub open spec fn list_text(items: Seq<Item>) -> Seq<u8>
    decreases items.len(),
{
    if items.len() == 0 {
        Seq::empty()
    } else if items.len() == 1 {
        items[0].text()
    } else {
        items[0].text() + seq![0x2cu8] + list_text(items.drop_first())
    }
}

/// The weight that a list gives to a coding by its name: that of the last item which names it.
pub open spec fn named_weight(items: Seq<Item>, coding: Seq<u8>) -> Option<int>
    decreases items.len(),
{
    if items.len() == 0 {
        None
    } else if items.last().coding == coding {
        Some(items.last().value())
    } else {
        named_weight(items.drop_last(), coding)
    }
}

/// The bytes of `gzip`.
pub open spec fn gzip_bytes() -> Seq<u8> {
    seq![0x67u8, 0x7au8, 0x69u8, 0x70u8]
}

/// The bytes of `identity`.
pub open spec fn identity_bytes() -> Seq<u8> {
    seq![0x69u8, 0x64u8, 0x65u8, 0x6eu8, 0x74u8, 0x69u8, 0x74u8, 0x79u8]
}

/// The bytes of `*`.
pub open spec fn star_bytes() -> Seq<u8> {
    seq![0x2au8]
}

proof fn lemma_codings()
    ensures
        "gzip".spec_bytes() == gzip_bytes(),
        "identity".spec_bytes() == identity_bytes(),
        "*".spec_bytes() == star_bytes(),
        "q=".spec_bytes() == seq![0x71u8, 0x3du8],
{
    reveal_strlit("gzip");
    reveal_strlit("identity");
    reveal_strlit("*");
    reveal_strlit("q=");
    assert("gzip".is_ascii());
    assert("identity".is_ascii());
    assert("*".is_ascii());
    assert("q=".is_ascii());
    assert("gzip".spec_bytes() =~= gzip_bytes());
    assert("identity".spec_bytes() =~= identity_bytes());
    assert("*".spec_bytes() =~= star_bytes());
    assert("q=".spec_bytes() =~= seq![0x71u8, 0x3du8]);
}

/// Of a list of any length, gzip is preferred iff it has a weight and the absence of a coding
/// (`identity`) has no greater one. The weight of either is that under its name, or else that under
/// `*`. Where neither is named, gzip has no weight, and the absence of a coding the least there is.
pub proof fn law_list_prefers_gzip(items: Seq<Item>)
    requires
        items.len() > 0,
        forall|i: int| 0 <= i < items.len() ==> (#[trigger] items[i]).wf(),
    ensures
        ({
            let star = named_weight(items, star_bytes());
            let gzip = match (named_weight(items, gzip_bytes()), star) {
                (Some(q), _) => q,
                (None, Some(q)) => q,
                (None, None) => 0,
            };
            let identity = match (named_weight(items, identity_bytes()), star) {
                (Some(q), _) => q,
                (None, Some(q)) => q,
                (None, None) => 1,
            };
            prefers_gzip(list_text(items)) <==> gzip > 0 && gzip >= identity
        }),
{
    lemma_codings();
    let value = list_text(items);
    let texts = item_texts(items);
    lemma_list(items);
    assert(all_readable(texts)) by {
        assert forall|i: int| 0 <= i < texts.len() implies weighted_coding(
            #[trigger] texts[i],
        ) is Some by {
            assert(items[i].wf());
            lemma_item(items[i]);
        }
    }
    lemma_weights(items, gzip_bytes());
    lemma_weights(items, identity_bytes());
    lemma_weights(items, star_bytes());
}

spec fn item_texts(items: Seq<Item>) -> Seq<Seq<u8>> {
    Seq::new(items.len(), |i: int| items[i].text())
}

proof fn lemma_weights(items: Seq<Item>, coding: Seq<u8>)
    requires
        forall|i: int| 0 <= i < items.len() ==> (#[trigger] items[i]).wf(),
    ensures
        match weight_of(item_texts(items), coding) {
            Some(q) => named_weight(items, coding) == Some(q as int),
            None => named_weight(items, coding) is None,
        },
    decreases items.len(),
{
    if items.len() > 0 {
        let texts = item_texts(items);
        let fewer = items.drop_last();
        assert forall|i: int| 0 <= i < fewer.len() implies (#[trigger] fewer[i]).wf() by {
            assert(fewer[i] == items[i]);
        }
        assert(texts.drop_last() =~= item_texts(fewer));
        assert(items[items.len() - 1].wf());
        lemma_item(items.last());
        lemma_weights(fewer, coding);
    }
}

/// A list is split into its items, and is visible.
proof fn lemma_list(items: Seq<Item>)
    requires
        items.len() > 0,
        forall|i: int| 0 <= i < items.len() ==> (#[trigger] items[i]).wf(),
    ensures
        split(list_text(items), COMMA) == item_texts(items),
        all_visible(list_text(items)),
    decreases items.len(),
{
    assert(items[0].wf());
    lemma_item(items[0]);
    let first = items[0].text();
    if items.len() == 1 {
        law_split(first, COMMA, Seq::empty());
        assert(item_texts(items) =~= seq![first]);
    } else {
        let more = items.drop_first();
        assert forall|i: int| 0 <= i < more.len() implies (#[trigger] more[i]).wf() by {
            assert(more[i] == items[i + 1]);
        }
        lemma_list(more);
        let rest = list_text(more);
        law_split(first, COMMA, rest);
        assert(item_texts(items) =~= seq![first] + item_texts(more));
        let value = list_text(items);
        assert forall|i: int| 0 <= i < value.len() implies crate::headers::is_visible(
            #[trigger] value[i],
        ) by {
            if i < first.len() {
                assert(value[i] == first[i]);
            } else if i > first.len() {
                assert(value[i] == rest[i - first.len() - 1]);
            }
        }
    }
}

/// An item is read as its coding and its weight.
proof fn lemma_item(item: Item)
    requires
        item.wf(),
    ensures
        weighted_coding(item.text()) matches Some((c, q)) && c == item.coding && q == item.value(),
        all_visible(item.text()),
        forall|i: int| 0 <= i < item.text().len() ==> item.text()[i] != 0x2c,
{
    let text = item.text();
    let c = item.coding;
    match item.weight {
        None => {
            assert forall|i: int| 0 <= i < c.len() implies c[i] != SEMICOLON by {}
            law_trim(item.before, c, item.after);
            lemma_rfind_is(c, SEMICOLON, -1);
            lemma_spaced(item.before, c, item.after);
        },
        Some((front, behind, q)) => {
            lemma_codings();
            law_qvalue(q);
            assert forall|i: int| 0 <= i < q.len() implies 0x2e <= #[trigger] q[i] <= 0x39 by {}
            let eq = seq![0x71u8, 0x3du8];
            let tail = behind + eq + q;
            let core = c + front + seq![0x3bu8] + tail;
            assert(text =~= item.before + (c + front) + (seq![0x3bu8] + tail + item.after));
            lemma_weighted(item.before, c, front, tail, item.after);
            let parameter = eq + q;
            assert(tail =~= behind + parameter + Seq::empty());
            assert(parameter.last() == q.last());
            law_trim(behind, parameter, Seq::empty());
            assert(parameter.take(2) =~= eq);
            assert(parameter.skip(2) =~= q);
            assert(text =~= item.before + core + item.after);
        },
    }
}

/// What is visible and has no comma in it stays so with whitespace around it.
proof fn lemma_spaced(before: Seq<u8>, s: Seq<u8>, after: Seq<u8>)
    requires
        is_space(before),
        is_space(after),
        forall|i: int|
            0 <= i < s.len() ==> (0x20 <= #[trigger] s[i] <= 0x7e || s[i] == 0x09) && s[i] != 0x2c,
    ensures
        all_visible(before + s + after),
        forall|i: int| 0 <= i < (before + s + after).len() ==> (before + s + after)[i] != 0x2c,
{
    let t = before + s + after;
    assert forall|i: int| 0 <= i < t.len() implies crate::headers::is_visible(#[trigger] t[i])
        && t[i] != 0x2c by {
        if i < before.len() {
            assert(t[i] == before[i]);
        } else if i < before.len() + s.len() {
            assert(t[i] == s[i - before.len()]);
        } else {
            assert(t[i] == after[i - before.len() - s.len()]);
        }
    }
}

/// Where the last semicolon of an element stands, and what is in front of it and behind it.
proof fn lemma_weighted(
    before: Seq<u8>,
    c: Seq<u8>,
    front: Seq<u8>,
    tail: Seq<u8>,
    after: Seq<u8>,
)
    requires
        is_space(before),
        is_space(front),
        is_space(after),
        forall|i: int|
            0 <= i < c.len() ==> (0x20 <= #[trigger] c[i] <= 0x7e || c[i] == 0x09) && c[i] != 0x2c
                && c[i] != 0x3b,
        c.len() > 0 ==> c[0] != 0x20 && c[0] != 0x09 && c.last() != 0x20 && c.last() != 0x09,
        forall|i: int|
            0 <= i < tail.len() ==> (0x20 <= #[trigger] tail[i] <= 0x7e || tail[i] == 0x09)
                && tail[i] != 0x2c && tail[i] != 0x3b,
        tail.len() > 0,
        tail.last() != 0x20,
        tail.last() != 0x09,
    ensures
        ({
            let text = before + (c + front + seq![0x3bu8] + tail) + after;
            let element = trim(text);
            let i = rfind(element, SEMICOLON);
            &&& all_visible(text)
            &&& forall|k: int| 0 <= k < text.len() ==> text[k] != 0x2c
            &&& 0 <= i < element.len()
            &&& trim(element.take(i)) == c
            &&& element.skip(i + 1) == tail
        }),
{
    let core = c + front + seq![0x3bu8] + tail;
    let text = before + core + after;
    let n = (c.len() + front.len()) as int;
    assert forall|i: int| 0 <= i < core.len() implies (0x20 <= #[trigger] core[i] <= 0x7e || core[i]
        == 0x09) && core[i] != 0x2c by {
        if i < c.len() {
            assert(core[i] == c[i]);
        } else if i < n {
            assert(core[i] == front[i - c.len()]);
        } else if i > n {
            assert(core[i] == tail[i - n - 1]);
        }
    }
    lemma_spaced(before, core, after);
    assert(core.last() == tail.last());
    let none = Seq::<u8>::empty();
    if c.len() > 0 {
        assert(core[0] == c[0]);
        law_trim(before, core, after);
        assert forall|j: int| n < j < core.len() implies core[j] != SEMICOLON by {
            assert(core[j] == tail[j - n - 1]);
        }
        lemma_rfind_is(core, SEMICOLON, n);
        assert(core.take(n) =~= none + c + front);
        law_trim(none, c, front);
        assert(core.skip(n + 1) =~= tail);
    } else {
        let inner = seq![0x3bu8] + tail;
        let space = before + front;
        assert(is_space(space)) by {
            assert forall|i: int| 0 <= i < space.len() implies #[trigger] space[i] == 0x20
                || space[i] == 0x09 by {
                if i < before.len() {
                    assert(space[i] == before[i]);
                } else {
                    assert(space[i] == front[i - before.len()]);
                }
            }
        }
        assert(text =~= space + inner + after);
        assert(inner.last() == tail.last());
        law_trim(space, inner, after);
        assert forall|j: int| 0 < j < inner.len() implies inner[j] != SEMICOLON by {
            assert(inner[j] == tail[j - 1]);
        }
        lemma_rfind_is(inner, SEMICOLON, 0);
        assert(inner.take(0) =~= none + none + none);
        law_trim(none, none, none);
        assert(inner.skip(1) =~= tail);
        assert(c =~= none);
    }
}

/// Any coding but gzip, `identity` and `*` may be added to a list at any place, or left out of it,
/// with or without a weight: it does not change whether gzip is preferred.
pub proof fn law_other_codings_do_not_matter(a: Seq<Item>, x: Item, b: Seq<Item>)
    requires
        a.len() + b.len() > 0,
        forall|i: int| 0 <= i < a.len() ==> (#[trigger] a[i]).wf(),
        forall|i: int| 0 <= i < b.len() ==> (#[trigger] b[i]).wf(),
        x.wf(),
        x.coding != gzip_bytes(),
        x.coding != identity_bytes(),
        x.coding != star_bytes(),
    ensures
        prefers_gzip(list_text(a + seq![x] + b)) == prefers_gzip(list_text(a + b)),
{
    let longer = a + seq![x] + b;
    let shorter = a + b;
    assert forall|i: int| 0 <= i < longer.len() implies (#[trigger] longer[i]).wf() by {
        if i < a.len() {
            assert(longer[i] == a[i]);
        } else if i > a.len() {
            assert(longer[i] == b[i - a.len() - 1]);
        }
    }
    assert forall|i: int| 0 <= i < shorter.len() implies (#[trigger] shorter[i]).wf() by {
        if i < a.len() {
            assert(shorter[i] == a[i]);
        } else {
            assert(shorter[i] == b[i - a.len()]);
        }
    }
    law_list_prefers_gzip(longer);
    law_list_prefers_gzip(shorter);
    lemma_named_weight(a, x, b, gzip_bytes());
    lemma_named_weight(a, x, b, identity_bytes());
    lemma_named_weight(a, x, b, star_bytes());
}

proof fn lemma_named_weight(a: Seq<Item>, x: Item, b: Seq<Item>, coding: Seq<u8>)
    requires
        x.coding != coding,
    ensures
        named_weight(a + seq![x] + b, coding) == named_weight(a + b, coding),
    decreases b.len(),
{
    let longer = a + seq![x] + b;
    let shorter = a + b;
    if b.len() == 0 {
        assert(longer.drop_last() =~= a);
        assert(shorter =~= a);
    } else {
        assert(longer.drop_last() =~= a + seq![x] + b.drop_last());
        assert(shorter.drop_last() =~= a + b.drop_last());
        assert(longer.last() == b.last() && shorter.last() == b.last());
        lemma_named_weight(a, x, b.drop_last(), coding);
    }
}

/// A list of codings without weights that names gzip, and neither `identity` nor `*`, prefers gzip,
/// however long it is and wherever gzip stands in it. Without gzip it does not.
pub proof fn law_plain_list(items: Seq<Item>)
    requires
        items.len() > 0,
        forall|i: int|
            0 <= i < items.len() ==> {
                &&& (#[trigger] items[i]).wf()
                &&& items[i].weight is None
                &&& items[i].coding != identity_bytes()
                &&& items[i].coding != star_bytes()
            },
    ensures
        prefers_gzip(list_text(items)) <==> exists|i: int|
            0 <= i < items.len() && (#[trigger] items[i]).coding == gzip_bytes(),
{
    law_list_prefers_gzip(items);
    lemma_plain_weight(items, gzip_bytes());
    lemma_plain_weight(items, identity_bytes());
    lemma_plain_weight(items, star_bytes());
}

proof fn lemma_plain_weight(items: Seq<Item>, coding: Seq<u8>)
    requires
        forall|i: int| 0 <= i < items.len() ==> (#[trigger] items[i]).weight is None,
    ensures
        named_weight(items, coding) == if exists|i: int|
            0 <= i < items.len() && (#[trigger] items[i]).coding == coding {
            Some(1000int)
        } else {
            None
        },
    decreases items.len(),
{
    if items.len() > 0 {
        let fewer = items.drop_last();
        assert forall|i: int| 0 <= i < fewer.len() implies (#[trigger] fewer[i]).weight is None by {
            assert(fewer[i] == items[i]);
        }
        lemma_plain_weight(fewer, coding);
        let n = items.len() - 1;
        assert(items[n].weight is None);
        if items[n].coding != coding {
            if exists|i: int| 0 <= i < items.len() && (#[trigger] items[i]).coding == coding {
                let i = choose|i: int|
                    0 <= i < items.len() && (#[trigger] items[i]).coding == coding;
                assert(fewer[i].coding == coding);
            }
            if exists|i: int| 0 <= i < fewer.len() && (#[trigger] fewer[i]).coding == coding {
                let i = choose|i: int|
                    0 <= i < fewer.len() && (#[trigger] fewer[i]).coding == coding;
                assert(items[i].coding == coding);
            }
        }
    }
}

/// Whether this is what may stand behind the last semicolon of an item: a weight.
pub open spec fn is_weight(tail: Seq<u8>) -> bool {
    exists|front: Seq<u8>, q: Seq<u8>, behind: Seq<u8>|
        {
            &&& #[trigger] is_space(front)
            &&& #[trigger] is_space(behind)
            &&& tail == front + seq![0x71u8, 0x3du8] + q + behind
            &&& #[trigger] qvalue(q) is Some
        }
}

/// A list with an item in it that has a semicolon and no weight behind the last one prefers nothing.
pub proof fn law_unreadable_item(front: Seq<u8>, head: Seq<u8>, tail: Seq<u8>, behind: Seq<u8>)
    requires
        front.len() > 0 ==> front.last() == 0x2c,
        behind.len() > 0 ==> behind[0] == 0x2c,
        forall|i: int| 0 <= i < head.len() ==> head[i] != 0x2c,
        forall|i: int| 0 <= i < tail.len() ==> tail[i] != 0x2c && tail[i] != 0x3b,
        !is_weight(tail),
    ensures
        !prefers_gzip(front + (head + seq![0x3bu8] + tail) + behind),
{
    let item = head + seq![0x3bu8] + tail;
    let value = front + item + behind;
    assert forall|i: int| 0 <= i < item.len() implies item[i] != COMMA by {
        if i > head.len() {
            assert(item[i] == tail[i - head.len() - 1]);
        }
    }
    law_split(item, COMMA, Seq::empty());
    // The item is one of the pieces.
    let end = if behind.len() > 0 {
        let rest = behind.drop_first();
        assert(item + behind =~= item + seq![COMMA] + rest);
        law_split(item, COMMA, rest);
        item + behind
    } else {
        assert(item + behind =~= item);
        item
    };
    assert(split(end, COMMA)[0] == item);
    if front.len() > 0 {
        let rest = front.drop_last();
        assert(value =~= rest + seq![COMMA] + end);
        law_split_concat(rest, COMMA, end);
        assert(split(value, COMMA)[split(rest, COMMA).len() as int] == item);
    } else {
        assert(value =~= end);
    }
    lemma_codings();
    lemma_last_parameter(head, tail);
    if weighted_coding(item) is Some {
        let (before, after) = lemma_trim_parts(tail);
        let parameter = trim(tail);
        let q = parameter.skip(2);
        assert(parameter =~= seq![0x71u8, 0x3du8] + q);
        assert(tail =~= before + seq![0x71u8, 0x3du8] + q + after);
        assert(is_space(before) && is_space(after));
        assert(is_weight(tail));
    }
}

/// The parameter that is read as a weight is what stands behind the last semicolon.
proof fn lemma_last_parameter(head: Seq<u8>, tail: Seq<u8>)
    requires
        forall|i: int| 0 <= i < tail.len() ==> tail[i] != 0x3b,
    ensures
        ({
            let element = trim(head + seq![0x3bu8] + tail);
            let i = rfind(element, SEMICOLON);
            0 <= i < element.len() && trim(element.skip(i + 1)) == trim(tail)
        }),
{
    let (a, b) = lemma_trim_parts(head);
    let (c, d) = lemma_trim_parts(tail);
    let none = Seq::<u8>::empty();
    let name = trim(head);
    let parameter = trim(tail);
    // What is trimmed at the beginning, and what is not.
    let (space, begin) = if name.len() > 0 {
        (a, name + b)
    } else {
        (a + b, none)
    };
    assert forall|i: int| 0 <= i < space.len() implies #[trigger] space[i] == 0x20 || space[i]
        == 0x09 by {
        if i < a.len() {
            assert(is_ows(a[i]));
        } else {
            assert(is_ows(b[i - a.len()]));
        }
    }
    let (end, more_space) = if parameter.len() > 0 {
        (c + parameter, d)
    } else {
        (none, c + d)
    };
    assert forall|i: int| 0 <= i < more_space.len() implies #[trigger] more_space[i] == 0x20
        || more_space[i] == 0x09 by {
        if parameter.len() > 0 {
            assert(is_ows(d[i]));
        } else if i < c.len() {
            assert(is_ows(c[i]));
        } else {
            assert(is_ows(d[i - c.len()]));
        }
    }
    let inner = begin + seq![0x3bu8] + end;
    assert(head + seq![0x3bu8] + tail =~= space + inner + more_space);
    assert(inner.last() == if parameter.len() > 0 {
        parameter.last()
    } else {
        0x3bu8
    });
    law_trim(space, inner, more_space);
    let n = begin.len() as int;
    assert forall|j: int| n < j < inner.len() implies inner[j] != SEMICOLON by {
        assert(inner[j] == end[j - n - 1]);
        assert(end[j - n - 1] == tail[j - n - 1]);
    }
    lemma_rfind_is(inner, SEMICOLON, n);
    assert(inner.skip(n + 1) =~= end);
    if parameter.len() > 0 {
        assert(end =~= c + parameter + none);
        assert forall|i: int| 0 <= i < c.len() implies #[trigger] c[i] == 0x20 || c[i] == 0x09 by {
            assert(is_ows(c[i]));
        }
        law_trim(c, parameter, none);
    } else {
        assert(none + none + none =~= none);
        law_trim(none, none, none);
        assert(parameter =~= none);
    }
}

/// A value is read only if it holds nothing but visible characters, spaces and tabs.
pub proof fn law_visible_list(value: Seq<u8>)
    requires
        prefers_gzip(value),
    ensures
        forall|i: int|
            0 <= i < value.len() ==> 0x20 <= #[trigger] value[i] <= 0x7e || value[i] == 0x09,
{
    assert forall|i: int| 0 <= i < value.len() implies 0x20 <= #[trigger] value[i] <= 0x7e
        || value[i] == 0x09 by {
        assert(crate::headers::is_visible(value[i]));
    }
}

} // verus!
