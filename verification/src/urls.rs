//! URLs as plain values.
use vstd::prelude::*;
use crate::text;

verus! {

/// The parts of a URL.
#[derive(Debug, Clone, PartialEq, Eq)]
pub struct UrlParts {
    pub scheme: String,
    pub host: Option<String>,
    pub path: String,
    /// The query's decoded pairs, in order.
    pub query: Vec<(String, String)>,
}

/// The pairs as texts.
pub open spec fn pair_texts(pairs: Seq<(String, String)>) -> Seq<(Seq<char>, Seq<char>)> {
    pairs.map_values(|p: (String, String)| (p.0@, p.1@))
}

/// An optional text.
pub open spec fn text_or_none(s: Option<String>) -> Option<Seq<char>> {
    match s {
        Some(s) => Some(s@),
        None => None,
    }
}

impl View for UrlParts {
    type V = (Seq<char>, Option<Seq<char>>, Seq<char>, Seq<(Seq<char>, Seq<char>)>);

    open spec fn view(&self) -> Self::V {
        (self.scheme@, text_or_none(self.host), self.path@, pair_texts(self.query@))
    }
}

/// What `Url::parse` makes of a text: scheme, host, path and the pairs of the
/// query, or the words of its error.
pub uninterp spec fn url_parts(s: Seq<char>) -> Result<
    (Seq<char>, Option<Seq<char>>, Seq<char>, Seq<(Seq<char>, Seq<char>)>),
    Seq<char>,
>;

/// Calls `Url::parse` and reads the parts off its result with `scheme`,
/// `host_str`, `path` and `query_pairs`. What they hold is named, not
/// described: the URL standard takes pages. A text of any length is parsed or
/// refused.
#[verifier::external_body]
pub(crate) fn parse_url(s: &str) -> (r: Result<UrlParts, String>)
    ensures
        r is Ok <==> url_parts(s@) is Ok,
        r is Ok ==> r->Ok_0@ == url_parts(s@)->Ok_0,
        r is Err ==> r->Err_0@ == url_parts(s@)->Err_0,
{
    let url = url::Url::parse(s).map_err(|e| e.to_string())?;
    Ok(
        UrlParts {
            scheme: url.scheme().to_string(),
            host: url.host_str().map(|h| h.to_string()),
            path: url.path().to_string(),
            query: url.query_pairs().map(|(k, v)| (k.into_owned(), v.into_owned())).collect(),
        },
    )
}

/// Characters that a piece of a URL may have when one is built. A character
/// takes at most twelve bytes in a path or a query, so that a URL built from
/// such pieces stays under the 4 GiB past which `Url` panics.
pub const URL_LIMIT: usize = 0x100_0000;

/// What a URL becomes when pairs are appended to its query, or the words of
/// the parse error.
pub uninterp spec fn url_queried(url: Seq<char>, pairs: Seq<(Seq<char>, Seq<char>)>) -> Result<
    Seq<char>,
    Seq<char>,
>;

/// Calls `Url::parse`, then `Url::query_pairs_mut` and
/// `Serializer::extend_pairs` with the pairs. The URL that comes out is named;
/// its encoding is not described.
#[verifier::external_body]
pub(crate) fn extend_query(url: &str, pairs: &Vec<(String, String)>) -> (r: Result<String, String>)
    requires
        url@.len() <= URL_LIMIT,
        pairs@.len() <= 4,
        forall|i: int|
            0 <= i < pairs@.len() ==> (#[trigger] pairs@[i]).0@.len() + pairs@[i].1@.len()
                <= URL_LIMIT,
    ensures
        r is Ok <==> url_queried(url@, pair_texts(pairs@)) is Ok,
        r is Ok ==> r->Ok_0@ == url_queried(url@, pair_texts(pairs@))->Ok_0,
        r is Err ==> r->Err_0@ == url_queried(url@, pair_texts(pairs@))->Err_0,
{
    let mut u = url::Url::parse(url).map_err(|e| e.to_string())?;
    u.query_pairs_mut().extend_pairs(pairs);
    Ok(u.to_string())
}

/// What a URL becomes when segments are appended to its path and pairs to its
/// query: the new URL, the words of the parse error, or `None` within for a
/// URL that has no path segments.
pub uninterp spec fn url_extended(
    url: Seq<char>,
    segments: Seq<Seq<char>>,
    pairs: Seq<(Seq<char>, Seq<char>)>,
) -> Result<Seq<char>, Option<Seq<char>>>;

/// Calls `Url::parse`, then `Url::path_segments_mut` and
/// `PathSegmentsMut::extend` with the segments, then `Url::query_pairs_mut`
/// and `Serializer::extend_pairs` with the pairs. The URL that comes out is
/// named; its encoding is not described.
#[verifier::external_body]
pub(crate) fn extend_path(
    url: &str,
    segments: &Vec<String>,
    pairs: &Vec<(String, String)>,
) -> (r: Result<String, Option<String>>)
    requires
        url@.len() <= URL_LIMIT,
        text::joined(text::texts(segments@), "/"@).len() <= URL_LIMIT,
        pairs@.len() <= 4,
        forall|i: int|
            0 <= i < pairs@.len() ==> (#[trigger] pairs@[i]).0@.len() + pairs@[i].1@.len()
                <= URL_LIMIT,
    ensures
        r is Ok <==> url_extended(url@, text::texts(segments@), pair_texts(pairs@)) is Ok,
        r is Ok ==> r->Ok_0@ == url_extended(
            url@,
            text::texts(segments@),
            pair_texts(pairs@),
        )->Ok_0,
        r is Err ==> text_or_none(r->Err_0) == url_extended(
            url@,
            text::texts(segments@),
            pair_texts(pairs@),
        )->Err_0,
{
    let mut u = url::Url::parse(url).map_err(|e| Some(e.to_string()))?;
    u.path_segments_mut().map_err(|_| None)?.extend(segments);
    u.query_pairs_mut().extend_pairs(pairs);
    Ok(u.to_string())
}

/// The value of the first pair with that key.
pub open spec fn first_value(pairs: Seq<(Seq<char>, Seq<char>)>, key: Seq<char>) -> Option<
    Seq<char>,
>
    decreases pairs.len(),
{
    if pairs.len() == 0 {
        None
    } else if pairs[0].0 == key {
        Some(pairs[0].1)
    } else {
        first_value(pairs.drop_first(), key)
    }
}

/// The value of the first query pair with that key.
pub fn query_value(pairs: &Vec<(String, String)>, key: &str) -> (r: Option<String>)
    ensures
        text_or_none(r) == first_value(pair_texts(pairs@), key@),
{
    let mut i: usize = 0;
    let ghost all = pair_texts(pairs@);
    assert(all.skip(0) =~= all);
    while i < pairs.len()
        invariant
            0 <= i <= pairs@.len(),
            all == pair_texts(pairs@),
            first_value(all, key@) == first_value(all.skip(i as int), key@),
        decreases pairs@.len() - i,
    {
        assert(all.skip(i as int)[0] == all[i as int]);
        assert(all.skip(i as int).drop_first() =~= all.skip(i + 1));
        if text::same(pairs[i].0.as_str(), key) {
            return Some(pairs[i].1.clone());
        }
        i = i + 1;
    }
    None
}

/// Of several pairs with a key the first counts; without one there is no value.
pub proof fn the_first_pair_counts(pairs: Seq<(Seq<char>, Seq<char>)>, key: Seq<char>, i: int)
    requires
        0 <= i <= pairs.len(),
        forall|j: int| 0 <= j < i ==> (#[trigger] pairs[j]).0 != key,
    ensures
        i == pairs.len() ==> first_value(pairs, key) is None,
        i < pairs.len() && pairs[i].0 == key ==> first_value(pairs, key) == Some(pairs[i].1),
    decreases i,
{
    if i > 0 {
        let rest = pairs.drop_first();
        assert(pairs[0].0 != key);
        assert forall|j: int| 0 <= j < i - 1 implies (#[trigger] rest[j]).0 != key by {
            assert(pairs[j + 1].0 != key);
        }
        the_first_pair_counts(rest, key, i - 1);
        assert(i < pairs.len() ==> rest[i - 1] == pairs[i]);
    }
}

/// The parts of a URL are read as they are: its pairs one for one, and a host
/// where it has one.
pub proof fn parts_are_read_as_they_are(parts: UrlParts, i: int)
    ensures
        parts@.0 == parts.scheme@,
        parts@.1 is Some <==> parts.host is Some,
        parts.host is Some ==> parts@.1 == Some(parts.host->0@),
        parts@.2 == parts.path@,
        parts@.3.len() == parts.query@.len(),
        0 <= i < parts.query@.len() ==> parts@.3[i] == (
            parts.query@[i].0@,
            parts.query@[i].1@,
        ),
{
}

/// An optional text is there when the string is, and is its text.
pub proof fn optional_texts_are_read(s: Option<String>)
    ensures
        text_or_none(s) is Some <==> s is Some,
        s is Some ==> text_or_none(s) == Some(s->0@),
{
}

} // verus!
