//! Entity tags, and the `If-Match` and `If-None-Match` request headers.

use crate::headers::{first_value, get, header_entries, value_bytes};
use crate::text::{
    bytes_eq, find, find_byte, has_prefix, is_ows, law_prefix, lemma_find, lemma_find_is,
    starts_with, trim_start, trimmed_start, COMMA, QUOTE,
};
use http::header::{HeaderMap, HeaderValue};
use vstd::prelude::*;
use vstd::slice::slice_subrange;
use vstd::string::StringSliceAdditionalSpecFns;

verus! {

/// Whether a tag is marked as weak.
pub open spec fn is_weak(tag: Seq<u8>) -> bool {
    has_prefix(tag, "W/".spec_bytes())
}

/// A tag without the mark of a weak one.
pub open spec fn opaque_tag(tag: Seq<u8>) -> Seq<u8> {
    if is_weak(tag) {
        tag.skip(2)
    } else {
        tag
    }
}

/// Whether two tags match by the weak comparison: their opaque parts are the same.
pub open spec fn weak_match(a: Seq<u8>, b: Seq<u8>) -> bool {
    opaque_tag(a) == opaque_tag(b)
}

/// Whether two tags match by the strong comparison: they are the same, and not weak.
pub open spec fn strong_match(a: Seq<u8>, b: Seq<u8>) -> bool {
    a == b && !is_weak(a)
}

/// Weak comparison is an equivalence.
pub proof fn law_weak_match_equivalence(a: Seq<u8>, b: Seq<u8>, c: Seq<u8>)
    ensures
        weak_match(a, a),
        weak_match(a, b) ==> weak_match(b, a),
        weak_match(a, b) && weak_match(b, c) ==> weak_match(a, c),
{
}

/// Strong comparison is symmetric and transitive, and tags that match by it match weakly too. A
/// weak tag matches nothing by it, not even itself.
pub proof fn law_strong_match(a: Seq<u8>, b: Seq<u8>, c: Seq<u8>)
    ensures
        strong_match(a, b) ==> strong_match(b, a),
        strong_match(a, b) && strong_match(b, c) ==> strong_match(a, c),
        strong_match(a, b) ==> weak_match(a, b),
        is_weak(a) ==> !strong_match(a, b) && !strong_match(b, a),
        strong_match(a, a) <==> !is_weak(a),
{
}

/// Marking a tag as weak keeps its weak matches and takes away its strong ones.
pub proof fn law_weakened_tag(a: Seq<u8>, b: Seq<u8>)
    requires
        !is_weak(a),
    ensures
        weak_match("W/".spec_bytes() + a, b) == weak_match(a, b),
        !strong_match("W/".spec_bytes() + a, b),
{
    reveal_strlit("W/");
    assert("W/".is_ascii());
    let weakened = "W/".spec_bytes() + a;
    assert(weakened.take(2) =~= "W/".spec_bytes());
    assert(weakened.skip(2) =~= a);
}

/// Performs weak validation of two etags (such as `W/"foo"` or `"bar"`).
pub fn weak_eq(a: &[u8], b: &[u8]) -> (r: bool)
    ensures
        r == weak_match(a@, b@),
{
    bytes_eq(without_weak_mark(a), without_weak_mark(b))
}

fn without_weak_mark(tag: &[u8]) -> (r: &[u8])
    ensures
        r@ == opaque_tag(tag@),
{
    proof {
        reveal_strlit("W/");
        assert("W/".is_ascii());
    }
    if starts_with(tag, "W/".as_bytes()) {
        assert(tag@.subrange(2, tag@.len() as int) =~= tag@.skip(2));
        slice_subrange(tag, 2, tag.len())
    } else {
        tag
    }
}

/// Performs strong validation of two etags (such as `W/"foo"` or `"bar"`).
pub fn strong_eq(a: &[u8], b: &[u8]) -> (r: bool)
    ensures
        r == strong_match(a@, b@),
{
    bytes_eq(a, b) && !starts_with(a, "W/".as_bytes())
}

/// The length of the entity tag that `s` begins with, if it begins with one. A quote can't be
/// escaped, so that the tag ends with the next one.
/// ```text
/// entity-tag = [ "W/" ] DQUOTE *etagc DQUOTE
/// ```
pub open spec fn tag_len(s: Seq<u8>) -> Option<int> {
    let open = if is_weak(s) {
        3int
    } else {
        1int
    };
    if s.len() < open || s[open - 1] != QUOTE {
        None
    } else {
        let close = find(s.skip(open), QUOTE);
        if close < s.len() - open {
            Some(open + close + 1)
        } else {
            None
        }
    }
}

/// Whether a comma comes next in `rest`, perhaps behind whitespace.
pub open spec fn has_comma(rest: Seq<u8>) -> bool {
    trim_start(rest).len() > 0 && trim_start(rest)[0] == COMMA
}

/// Whether a tag may stand in front of `rest`: the list ends there, or a comma comes next.
pub open spec fn is_separated(rest: Seq<u8>) -> bool {
    rest.len() == 0 || has_comma(rest)
}

/// What follows a tag of length `n`, without the comma and the whitespace around the comma.
pub open spec fn after_tag(s: Seq<u8>, n: int) -> Seq<u8> {
    let rest = s.skip(n);
    if has_comma(rest) {
        trim_start(trim_start(rest).skip(1))
    } else {
        rest
    }
}

/// The tags of a list, up to its end or to the first place where no tag can be read.
pub open spec fn tags(s: Seq<u8>) -> Seq<Seq<u8>>
    decreases s.len(),
    via tags_decreases
{
    if s.len() == 0 {
        Seq::empty()
    } else {
        match tag_len(s) {
            None => Seq::empty(),
            Some(n) => if is_separated(s.skip(n)) {
                seq![s.take(n)] + tags(after_tag(s, n))
            } else {
                seq![s.take(n)]
            },
        }
    }
}

#[via_fn]
proof fn tags_decreases(s: Seq<u8>) {
    if let Some(n) = tag_len(s) {
        lemma_after_tag(s, n);
    }
}

/// Whether a list holds a place where no tag can be read.
pub open spec fn is_corrupt(s: Seq<u8>) -> bool
    decreases s.len(),
    via is_corrupt_decreases
{
    if s.len() == 0 {
        false
    } else {
        match tag_len(s) {
            None => true,
            Some(n) => !is_separated(s.skip(n)) || is_corrupt(after_tag(s, n)),
        }
    }
}

#[via_fn]
proof fn is_corrupt_decreases(s: Seq<u8>) {
    if let Some(n) = tag_len(s) {
        lemma_after_tag(s, n);
    }
}

/// A tag is not empty and lies within the list, so that what follows it is shorter.
proof fn lemma_after_tag(s: Seq<u8>, n: int)
    requires
        tag_len(s) == Some(n),
    ensures
        0 < n <= s.len(),
        after_tag(s, n).len() < s.len(),
{
    let open = if is_weak(s) {
        3int
    } else {
        1int
    };
    lemma_find(s.skip(open), QUOTE);
    let rest = trim_start(s.skip(n));
    lemma_trim_start_len(s.skip(n));
    if rest.len() > 0 {
        lemma_trim_start_len(rest.skip(1));
    }
}

proof fn lemma_trim_start_len(s: Seq<u8>)
    ensures
        trim_start(s).len() <= s.len(),
    decreases s.len(),
{
    if s.len() > 0 && is_ows(s[0]) {
        lemma_trim_start_len(s.drop_first());
    }
}

/// Matches a `1#entity-tag`, where `#` is as specified in RFC 7230 section 7.
///
/// > A construct `#` is defined, similar to `*`, for defining
/// > comma-delimited lists of elements.  The full form is `<n>#<m>element`
/// > indicating at least `<n>` and at most `<m>` elements, each separated by a
/// > single comma (`,`) and optional whitespace (OWS).
///
/// > `OWS = *( SP / HTAB )`
pub struct List<'a> {
    pub remaining: &'a [u8],
    pub corrupt: bool,
    /// Whether a tag was read that has no comma behind it, although the list goes on.
    pub comma_missing: bool,
}

impl<'a> List<'a> {
    /// The list that these bytes hold.
    pub fn from(l: &'a [u8]) -> (r: List<'a>)
        ensures
            r.remaining@ == l@,
            !r.corrupt,
            !r.comma_missing,
    {
        List { remaining: l, corrupt: false, comma_missing: false }
    }

    /// Takes the next tag from the list. At a place where no tag can be read, or no comma behind a
    /// tag, notes that the list is corrupt, and stays there.
    pub fn next(&mut self) -> (r: Option<&'a [u8]>)
        ensures
            match tag_len(old(self).remaining@) {
                Some(n) if !old(self).comma_missing => {
                    &&& r matches Some(tag) && tag@ == old(self).remaining@.take(n)
                    &&& final(self).remaining@ == after_tag(old(self).remaining@, n)
                    &&& final(self).comma_missing == !is_separated(old(self).remaining@.skip(n))
                    &&& final(self).corrupt == old(self).corrupt
                },
                _ => {
                    &&& r is None
                    &&& final(self).remaining@ == old(self).remaining@
                    &&& final(self).comma_missing == old(self).comma_missing
                    &&& final(self).corrupt == (old(self).corrupt || old(
                        self,
                    ).remaining@.len() > 0)
                },
            },
    {
        let s = self.remaining;
        if s.len() == 0 {
            return None;
        }
        if self.comma_missing {
            self.corrupt = true;
            return None;
        }
        proof {
            reveal_strlit("W/");
            assert("W/".is_ascii());
        }

        // If on an etag, find its end. Note the '"' can't be escaped, simplifying matters.
        let open: usize = if starts_with(s, "W/".as_bytes()) {
            3
        } else {
            1
        };
        if s.len() < open || s[open - 1] != QUOTE {
            self.corrupt = true;
            return None;
        }
        let inside = slice_subrange(s, open, s.len());
        assert(inside@ =~= s@.skip(open as int));
        let close = find_byte(inside, QUOTE);
        if close == inside.len() {
            self.corrupt = true;
            return None;
        }
        let n: usize = open + close + 1;
        let tag = slice_subrange(s, 0, n);
        assert(tag@ =~= s@.take(n as int));
        let behind = slice_subrange(s, n, s.len());
        assert(behind@ =~= s@.skip(n as int));
        let trimmed = trimmed_start(behind);
        if trimmed.len() > 0 && trimmed[0] == COMMA {
            let next = slice_subrange(trimmed, 1, trimmed.len());
            assert(next@ =~= trimmed@.skip(1));
            self.remaining = trimmed_start(next);
        } else {
            self.remaining = behind;
            self.comma_missing = behind.len() > 0;
        }
        Some(tag)
    }
}

/// Whether one of the tags matches by the weak comparison.
pub open spec fn any_weak_match(list: Seq<Seq<u8>>, tag: Seq<u8>) -> bool {
    exists|i: int| 0 <= i < list.len() && weak_match(#[trigger] list[i], tag)
}

/// Whether one of the tags matches by the strong comparison.
pub open spec fn any_strong_match(list: Seq<Seq<u8>>, tag: Seq<u8>) -> bool {
    exists|i: int| 0 <= i < list.len() && strong_match(#[trigger] list[i], tag)
}

/// What the value of an `If-None-Match` header says of an entity: whether none of its tags
/// matches the entity's by the weak comparison; `None` if the value is to be ignored.
pub open spec fn none_match_verdict(etag: Option<Seq<u8>>, value: Option<Seq<u8>>) -> Option<bool> {
    match value {
        None => None,
        Some(m) => if m == "*".spec_bytes() {
            Some(false)
        } else {
            match etag {
                None => Some(true),
                Some(tag) => if is_corrupt(m) {
                    None
                } else {
                    Some(!any_weak_match(tags(m), tag))
                },
            }
        },
    }
}

/// What the value of an `If-Match` header says of an entity: whether one of its tags matches the
/// entity's by the strong comparison; `None` if the value cannot be read.
pub open spec fn any_match_verdict(etag: Option<Seq<u8>>, value: Option<Seq<u8>>) -> Option<bool> {
    match value {
        None => Some(true),
        Some(m) => if m == "*".spec_bytes() {
            Some(true)
        } else {
            match etag {
                None => Some(false),
                Some(tag) => if is_corrupt(m) {
                    None
                } else {
                    Some(any_strong_match(tags(m), tag))
                },
            }
        },
    }
}

/// The bytes of an entity's tag.
pub open spec fn etag_bytes(etag: Option<HeaderValue>) -> Option<Seq<u8>> {
    match etag {
        None => None,
        Some(v) => Some(value_bytes(v)),
    }
}

/// Walks a list to its end: whether it is corrupt, and if not, whether a tag of it matches, by the
/// strong comparison or by the weak one.
fn find_match(list: &[u8], tag: &[u8], strong: bool) -> (r: Option<bool>)
    ensures
        match r {
            None => is_corrupt(list@),
            Some(found) => !is_corrupt(list@) && found == if strong {
                any_strong_match(tags(list@), tag@)
            } else {
                any_weak_match(tags(list@), tag@)
            },
        },
{
    let mut items = List::from(list);
    let mut found: bool = false;
    let ghost mut done: Seq<Seq<u8>> = Seq::empty();
    let mut more: bool = true;
    assert(tags(list@) =~= done + tags(items.remaining@));
    while more
        invariant
            tags(list@) == done + if items.comma_missing {
                Seq::empty()
            } else {
                tags(items.remaining@)
            },
            is_corrupt(list@) == (items.comma_missing || is_corrupt(items.remaining@)),
            items.comma_missing ==> items.remaining@.len() > 0,
            more ==> !items.corrupt,
            !more ==> items.corrupt == (items.remaining@.len() > 0),
            !more && !items.comma_missing ==> tags(items.remaining@) =~= Seq::empty()
                && items.corrupt == is_corrupt(items.remaining@),
            found == if strong {
                any_strong_match(done, tag@)
            } else {
                any_weak_match(done, tag@)
            },
        decreases items.remaining@.len(), (if more { 1int } else { 0int }),
    {
        let ghost before = items.remaining@;
        match items.next() {
            None => {
                more = false;
            },
            Some(item) => {
                proof {
                    lemma_after_tag(before, tag_len(before)->0);
                    let longer = done.push(item@);
                    assert(done + (seq![item@] + tags(items.remaining@)) =~= longer + tags(
                        items.remaining@,
                    ));
                    assert(done + seq![item@] =~= longer + Seq::empty());
                    assert(forall|i: int| 0 <= i < done.len() ==> longer[i] == done[i]);
                    assert(longer[done.len() as int] == item@);
                    if strong {
                        assert(any_strong_match(longer, tag@) == (any_strong_match(done, tag@)
                            || strong_match(item@, tag@)));
                    } else {
                        assert(any_weak_match(longer, tag@) == (any_weak_match(done, tag@)
                            || weak_match(item@, tag@)));
                    }
                    done = longer;
                }
                if !found {
                    found = if strong {
                        strong_eq(item, tag)
                    } else {
                        weak_eq(item, tag)
                    };
                }
            },
        }
    }
    assert(tags(list@) =~= done);
    if items.corrupt {
        None
    } else {
        Some(found)
    }
}

/// Returns true if `req_hdrs` has an `If-None-Match` header that doesn't match `etag`, false if it
/// has one that does, and `None` if it has none that can be read.
pub fn none_match(etag: &Option<HeaderValue>, req_hdrs: &HeaderMap<HeaderValue>) -> (r: Option<
    bool,
>)
    ensures
        r == none_match_verdict(
            etag_bytes(*etag),
            first_value(header_entries(*req_hdrs), "if-none-match"@),
        ),
{
    let m = match get(req_hdrs, "if-none-match") {
        None => return None,
        Some(v) => v.as_bytes(),
    };
    if bytes_eq(m, "*".as_bytes()) {
        return Some(false);
    }
    match etag {
        None => Some(true),
        // RFC 7232 section 3.2: A recipient MUST use the weak comparison function when
        // comparing entity-tags for If-None-Match
        Some(some_etag) => match find_match(m, some_etag.as_bytes(), false) {
            None => None,  // ignore the header.
            Some(found) => Some(!found),
        },
    }
}

/// Returns true if `req_hdrs` has no `If-Match` header or one which matches `etag`.
pub fn any_match(etag: &Option<HeaderValue>, req_hdrs: &HeaderMap<HeaderValue>) -> (r: Result<
    bool,
    &'static str,
>)
    ensures
        match any_match_verdict(
            etag_bytes(*etag),
            first_value(header_entries(*req_hdrs), "if-match"@),
        ) {
            Some(matches) => r == Ok::<bool, &'static str>(matches),
            None => r == Err::<bool, &'static str>("Unparseable If-Match header"),
        },
{
    let m = match get(req_hdrs, "if-match") {
        None => return Ok(true),
        Some(v) => v.as_bytes(),
    };
    if bytes_eq(m, "*".as_bytes()) {
        // The absent header and "If-Match: *" cases differ only when there is no entity to serve.
        // We always have an entity to serve, so consider them identical.
        return Ok(true);
    }
    match etag {
        None => Ok(false),
        Some(some_etag) => match find_match(m, some_etag.as_bytes(), true) {
            None => Err("Unparseable If-Match header"),
            Some(found) => Ok(found),
        },
    }
}

/// Whether `s` is an entity tag: quoted, with no quote inside, and perhaps marked as weak.
pub open spec fn is_etag(s: Seq<u8>) -> bool {
    tag_len(s) == Some(s.len() as int)
}

/// A list of one tag holds that tag.
pub proof fn law_list_of_one_tag(tag: Seq<u8>)
    requires
        is_etag(tag),
    ensures
        tags(tag) == seq![tag],
        !is_corrupt(tag),
{
    let n = tag.len() as int;
    assert(tag.take(n) =~= tag);
    assert(after_tag(tag, n) =~= Seq::empty());
    assert(tags(after_tag(tag, n)) =~= Seq::empty());
    assert(!is_corrupt(after_tag(tag, n)));
    assert(tags(tag) =~= seq![tag]);
}

/// A tag in front of a list, with a comma and whitespace on either side of it between the two, is
/// the first of the longer list.
pub proof fn law_list_grows_in_front(
    tag: Seq<u8>,
    space: Seq<u8>,
    more_space: Seq<u8>,
    list: Seq<u8>,
)
    requires
        is_etag(tag),
        forall|i: int| 0 <= i < space.len() ==> is_ows(#[trigger] space[i]),
        forall|i: int| 0 <= i < more_space.len() ==> is_ows(#[trigger] more_space[i]),
        list.len() > 0 ==> !is_ows(list[0]),
    ensures
        tags(tag + space + seq![COMMA] + more_space + list) == seq![tag] + tags(list),
        is_corrupt(tag + space + seq![COMMA] + more_space + list) == is_corrupt(list),
{
    let rest = seq![COMMA] + more_space + list;
    assert(tag + space + seq![COMMA] + more_space + list =~= tag + (space + rest));
    lemma_first_tag(tag, space + rest);
    lemma_trim_start(space, rest);
    assert(rest.skip(1) =~= more_space + list);
    lemma_trim_start(more_space, list);
}

/// Two tags with no comma between them make a list corrupt.
pub proof fn law_tags_need_a_comma(tag: Seq<u8>, space: Seq<u8>, list: Seq<u8>)
    requires
        is_etag(tag),
        forall|i: int| 0 <= i < space.len() ==> is_ows(#[trigger] space[i]),
        list.len() > 0,
        !is_ows(list[0]),
        list[0] != COMMA,
    ensures
        tags(tag + space + list) == seq![tag],
        is_corrupt(tag + space + list),
{
    lemma_first_tag(tag, space + list);
    assert(tag + (space + list) =~= tag + space + list);
    lemma_trim_start(space, list);
}

/// Whitespace at the end of a list makes it corrupt.
pub proof fn law_no_whitespace_at_the_end(tag: Seq<u8>, space: Seq<u8>)
    requires
        is_etag(tag),
        space.len() > 0,
        forall|i: int| 0 <= i < space.len() ==> is_ows(#[trigger] space[i]),
    ensures
        tags(tag + space) == seq![tag],
        is_corrupt(tag + space),
{
    lemma_first_tag(tag, space);
    lemma_trim_start(space, Seq::empty());
    assert(space + Seq::empty() =~= space);
}

/// A tag is the first thing to be read of what it stands in front of.
proof fn lemma_first_tag(tag: Seq<u8>, rest: Seq<u8>)
    requires
        is_etag(tag),
    ensures
        tag_len(tag + rest) == Some(tag.len() as int),
        (tag + rest).take(tag.len() as int) == tag,
        (tag + rest).skip(tag.len() as int) == rest,
        (tag + rest).len() > 0,
{
    reveal_strlit("W/");
    assert("W/".is_ascii());
    let s = tag + rest;
    let n = tag.len() as int;
    let open = if is_weak(tag) {
        3int
    } else {
        1int
    };
    lemma_find(tag.skip(open), QUOTE);
    if tag.len() >= 2 {
        assert(s.take(2) =~= tag.take(2));
    }
    assert(forall|i: int| 0 <= i < n ==> s[i] == tag[i]);
    let inside = s.skip(open);
    assert(forall|i: int| 0 <= i < n - open ==> inside[i] == tag.skip(open)[i]);
    lemma_find_is(inside, QUOTE, n - open - 1);
    assert(s.take(n) =~= tag);
    assert(s.skip(n) =~= rest);
}

proof fn lemma_trim_start(space: Seq<u8>, s: Seq<u8>)
    requires
        forall|i: int| 0 <= i < space.len() ==> is_ows(#[trigger] space[i]),
        s.len() > 0 ==> !is_ows(s[0]),
    ensures
        trim_start(space + s) == s,
    decreases space.len(),
{
    if space.len() == 0 {
        assert(space + s =~= s);
    } else {
        assert((space + s).drop_first() =~= space.drop_first() + s);
        lemma_trim_start(space.drop_first(), s);
    }
}

/// Whether bytes begin with the mark of a weak tag, `W/`.
pub open spec fn begins_weak(tag: Seq<u8>) -> bool {
    tag.len() >= 2 && tag[0] == 0x57 && tag[1] == 0x2f
}

/// The bytes of `W/`.
pub open spec fn weak_mark() -> Seq<u8> {
    seq![0x57u8, 0x2fu8]
}

proof fn lemma_weak(tag: Seq<u8>)
    ensures
        is_weak(tag) == begins_weak(tag),
        "W/".spec_bytes() == weak_mark(),
{
    reveal_strlit("W/");
    assert("W/".is_ascii());
    assert("W/".spec_bytes() =~= weak_mark());
    law_prefix(tag, weak_mark(), Seq::empty());
    assert(weak_mark()[0] == 0x57 && weak_mark()[1] == 0x2f);
}

/// Tags match by the weak comparison iff they are the same but for the mark of a weak one.
pub proof fn law_weak_match(a: Seq<u8>, b: Seq<u8>)
    requires
        !begins_weak(a),
        !begins_weak(b),
    ensures
        weak_match(a, b) <==> a == b,
        weak_match(weak_mark() + a, b) <==> a == b,
        weak_match(a, weak_mark() + b) <==> a == b,
        weak_match(weak_mark() + a, weak_mark() + b) <==> a == b,
{
    lemma_weak(a);
    lemma_weak(b);
    lemma_weak(weak_mark() + a);
    lemma_weak(weak_mark() + b);
    assert((weak_mark() + a).skip(2) =~= a);
    assert((weak_mark() + b).skip(2) =~= b);
}

/// Tags match by the strong comparison iff they are the same and not marked as weak.
pub proof fn law_strong_match_is_equality(a: Seq<u8>, b: Seq<u8>)
    ensures
        strong_match(a, b) <==> a == b && !begins_weak(a),
{
    lemma_weak(a);
}

/// An entity tag is a quote, any bytes but quotes, and a quote, perhaps with `W/` in front.
pub proof fn law_tag_shape(s: Seq<u8>)
    ensures
        is_etag(s) <==> {
            let open = if begins_weak(s) {
                2int
            } else {
                0int
            };
            &&& s.len() >= open + 2
            &&& s[open] == 0x22
            &&& s.last() == 0x22
            &&& forall|i: int| open < i < s.len() - 1 ==> s[i] != 0x22
        },
{
    lemma_weak(s);
    let open = if is_weak(s) {
        3int
    } else {
        1int
    };
    if s.len() >= open {
        let inside = s.skip(open);
        lemma_find(inside, QUOTE);
        if s.len() > open && s.last() == 0x22 && (forall|i: int|
            open - 1 < i < s.len() - 1 ==> s[i] != 0x22) {
            assert forall|j: int| 0 <= j < inside.len() - 1 implies inside[j] != QUOTE by {
                assert(inside[j] == s[open + j]);
            }
            assert(inside.last() == s.last());
            lemma_find_is(inside, QUOTE, inside.len() - 1);
        }
        if is_etag(s) {
            assert(find(inside, QUOTE) == inside.len() - 1);
            assert(inside.last() == s.last());
            assert forall|i: int| open - 1 < i < s.len() - 1 implies s[i] != 0x22 by {
                assert(inside[i - open] != QUOTE);
            }
        }
    }
}

/// A list that is empty holds no tags, and one that does not begin with a tag holds none that could
/// be read.
pub proof fn law_list_without_tags(s: Seq<u8>)
    requires
        forall|n: int| 0 <= n <= s.len() ==> !is_etag(#[trigger] s.take(n)),
    ensures
        tags(s) == Seq::<Seq<u8>>::empty(),
        is_corrupt(s) <==> s.len() > 0,
{
    if let Some(n) = tag_len(s) {
        lemma_after_tag(s, n);
        lemma_tag_is_etag(s, n);
        assert(is_etag(s.take(n)));
    }
}

/// What is read as a tag is one.
proof fn lemma_tag_is_etag(s: Seq<u8>, n: int)
    requires
        tag_len(s) == Some(n),
    ensures
        0 < n <= s.len(),
        is_etag(s.take(n)),
{
    lemma_after_tag(s, n);
    let open = if is_weak(s) {
        3int
    } else {
        1int
    };
    let tag = s.take(n);
    let inside = s.skip(open);
    lemma_find(inside, QUOTE);
    lemma_weak(s);
    lemma_weak(tag);
    assert(forall|i: int| 0 <= i < n ==> tag[i] == s[i]);
    let tag_inside = tag.skip(open);
    assert forall|j: int| 0 <= j < n - open - 1 implies tag_inside[j] != QUOTE by {
        assert(tag_inside[j] == inside[j]);
    }
    assert(tag_inside[n - open - 1] == inside[n - open - 1]);
    lemma_find_is(tag_inside, QUOTE, n - open - 1);
}

/// The first tag of a list is the one that it begins with. What follows the tag is read on if it is
/// nothing, or a comma with spaces and tabs around it, and makes the list corrupt otherwise.
pub proof fn law_list_with_a_tag(tag: Seq<u8>, space: Seq<u8>, rest: Seq<u8>)
    requires
        is_etag(tag),
        forall|i: int| 0 <= i < space.len() ==> #[trigger] space[i] == 0x20 || space[i] == 0x09,
        rest.len() > 0 ==> rest[0] != 0x20 && rest[0] != 0x09,
    ensures
        tags(tag) == seq![tag],
        !is_corrupt(tag),
        rest.len() > 0 && rest[0] == 0x2c ==> {
            &&& tags(tag + space + rest) == seq![tag] + tags(trim_start(rest.drop_first()))
            &&& is_corrupt(tag + space + rest) == is_corrupt(trim_start(rest.drop_first()))
        },
        space.len() + rest.len() > 0 && !(rest.len() > 0 && rest[0] == 0x2c) ==> {
            &&& tags(tag + space + rest) == seq![tag]
            &&& is_corrupt(tag + space + rest)
        },
{
    law_list_of_one_tag(tag);
    let behind = space + rest;
    lemma_first_tag(tag, behind);
    assert(tag + behind =~= tag + space + rest);
    assert forall|i: int| 0 <= i < space.len() implies is_ows(#[trigger] space[i]) by {}
    lemma_trim_start(space, rest);
    if rest.len() > 0 {
        assert(rest.skip(1) =~= rest.drop_first());
    }
}

} // verus!
