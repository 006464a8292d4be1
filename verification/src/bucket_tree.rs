//! What the bucket holds: paths and sizes, page by page.
use vstd::prelude::*;
use crate::keymap::KeyMap;
use crate::text;
use crate::urls;
use crate::urls::UrlParts;

verus! {

/// One entry of a listing. Directories have no size.
#[derive(Debug, Clone, PartialEq, Eq)]
pub struct PathInfo {
    pub kind: String,
    pub path: String,
    pub size: Option<u64>,
}

/// Paths per lookup request.
pub const PATHS_INFO_BATCH: usize = 1000;

/// Entries per listing page: the documented maximum.
pub const TREE_PAGE_LIMIT: u32 = 5000;

// ---------------------------------------------------------------------------
// Entries
// ---------------------------------------------------------------------------
/// The entry is a file with a size.
pub open spec fn sized_file(e: PathInfo) -> bool {
    e.kind@ == "file"@ && e.size is Some
}

/// Path and size of the files among the entries, in order.
pub open spec fn sized_files(entries: Seq<PathInfo>) -> Seq<(Seq<char>, u64)> {
    entries.filter(|e: PathInfo| sized_file(e)).map_values(
        |e: PathInfo| (e.path@, e.size->0),
    )
}

/// Pairs of path and size, the paths as texts.
pub open spec fn size_pairs(v: Seq<(String, u64)>) -> Seq<(Seq<char>, u64)> {
    v.map_values(|p: (String, u64)| (p.0@, p.1))
}

/// Path and size of the files (not the directories) among the entries.
pub fn file_sizes(entries: Vec<PathInfo>) -> (r: Vec<(String, u64)>)
    ensures
        size_pairs(r@) == sized_files(entries@),
{
    let ghost keep = |e: PathInfo| sized_file(e);
    let ghost pair = |e: PathInfo| (e.path@, e.size->0);
    let mut out: Vec<(String, u64)> = Vec::new();
    let mut i: usize = 0;
    assert(size_pairs(out@) =~= entries@.take(0).filter(keep).map_values(pair)) by {
        reveal(Seq::filter);
    }
    while i < entries.len()
        invariant
            0 <= i <= entries@.len(),
            keep == |e: PathInfo| sized_file(e),
            pair == |e: PathInfo| (e.path@, e.size->0),
            size_pairs(out@) == entries@.take(i as int).filter(keep).map_values(pair),
        decreases entries@.len() - i,
    {
        let ghost before = size_pairs(out@);
        proof {
            reveal(Seq::filter);
            assert(entries@.take(i + 1).drop_last() =~= entries@.take(i as int));
            assert(entries@.take(i + 1).last() == entries@[i as int]);
        }
        if text::same(entries[i].kind.as_str(), "file") {
            if let Some(size) = entries[i].size {
                let path = entries[i].path.clone();
                out.push((path, size));
                assert(size_pairs(out@) =~= before.push((path@, size)));
                assert(entries@.take(i + 1).filter(keep).map_values(pair) =~= before.push(
                    (path@, size),
                ));
            }
        }
        i = i + 1;
    }
    assert(entries@.take(entries@.len() as int) =~= entries@);
    out
}

/// `sizes` with the pairs put in one after the other.
pub open spec fn with_sizes(sizes: Map<Seq<char>, u64>, pairs: Seq<(Seq<char>, u64)>) -> Map<
    Seq<char>,
    u64,
>
    decreases pairs.len(),
{
    if pairs.len() == 0 {
        sizes
    } else {
        with_sizes(sizes, pairs.drop_last()).insert(pairs.last().0, pairs.last().1)
    }
}

/// Put the files among the entries of one response into the map.
pub fn add_sizes(sizes: &mut KeyMap<u64>, entries: Vec<PathInfo>)
    requires
        old(sizes).wf(),
    ensures
        final(sizes).wf(),
        final(sizes)@ == with_sizes(old(sizes)@, sized_files(entries@)),
{
    let pairs = file_sizes(entries);
    let ghost all = size_pairs(pairs@);
    let mut i: usize = 0;
    while i < pairs.len()
        invariant
            0 <= i <= pairs@.len(),
            all == size_pairs(pairs@),
            sizes.wf(),
            sizes@ == with_sizes(old(sizes)@, all.take(i as int)),
        decreases pairs@.len() - i,
    {
        proof {
            assert(all.take(i + 1).drop_last() =~= all.take(i as int));
            assert(all.take(i + 1).last() == all[i as int]);
        }
        sizes.insert(pairs[i].0.clone(), pairs[i].1);
        i = i + 1;
    }
    assert(all.take(all.len() as int) =~= all);
}

/// The bounds of the `i`-th lookup of `n` paths.
pub open spec fn lookup_bounds(n: nat, i: int) -> (int, int) {
    let from = i * PATHS_INFO_BATCH as int;
    let to = from + PATHS_INFO_BATCH as int;
    (from, if to < n {
        to
    } else {
        n as int
    })
}

/// The bounds are those of the lookups of `n` paths, in order.
pub open spec fn is_lookup(v: Seq<(usize, usize)>, n: nat) -> bool {
    &&& v.len() == (n + PATHS_INFO_BATCH - 1) / PATHS_INFO_BATCH as int
    &&& forall|i: int|
        #![trigger v[i]]
        0 <= i < v.len() ==> (v[i].0 as int, v[i].1 as int) == lookup_bounds(n, i)
}

/// The lookups are the paths: where there are paths there is a lookup, the
/// first starts at the first path, each of the others where the one before it
/// ends, and the last ends with the last path; none is empty and none has more
/// than a thousand.
pub proof fn the_lookups_are_the_paths(v: Seq<(usize, usize)>, n: nat)
    requires
        is_lookup(v, n),
    ensures
        v.len() == 0 <==> n == 0,
        n > 0 ==> v[0].0 == 0 && v.last().1 == n,
        forall|i: int| 1 <= i < v.len() ==> #[trigger] v[i].0 == v[i - 1].1,
        forall|i: int| 0 <= i < v.len() ==> 0 < (#[trigger] v[i]).1 - v[i].0 <= 1000,
{
    assert forall|i: int| 0 <= i < v.len() implies 0 < (#[trigger] v[i]).1 - v[i].0 <= 1000 by {
        lookups_cover_every_path(n, i);
    }
    assert forall|i: int| 1 <= i < v.len() implies #[trigger] v[i].0 == v[i - 1].1 by {
        lookups_cover_every_path(n, i - 1);
        assert(v[i - 1].1 == lookup_bounds(n, i - 1).1);
    }
    if n > 0 {
        lookups_cover_every_path(n, v.len() - 1);
    }
}

/// The bounds of the lookups that cover `n` paths: each of
/// `PATHS_INFO_BATCH`, the last of what is left.
pub fn lookups(n: usize) -> (v: Vec<(usize, usize)>)
    ensures
        is_lookup(v@, n as nat),
        v@.len() == 0 <==> n == 0,
        n > 0 ==> v@[0].0 == 0 && v@.last().1 == n,
        forall|i: int| 1 <= i < v@.len() ==> #[trigger] v@[i].0 == v@[i - 1].1,
        v@.len() == (n + PATHS_INFO_BATCH - 1) / PATHS_INFO_BATCH as int,
        forall|i: int|
            #![trigger v@[i]]
            0 <= i < v@.len() ==> (v@[i].0 as int, v@[i].1 as int) == lookup_bounds(n as nat, i),
{
    let mut v: Vec<(usize, usize)> = Vec::new();
    let mut at: usize = 0;
    while at < n
        invariant
            at <= n,
            at == n || at == v@.len() * 1000,
            v@.len() == (at + 999) / 1000,
            forall|i: int|
                #![trigger v@[i]]
                0 <= i < v@.len() ==> (v@[i].0 as int, v@[i].1 as int) == lookup_bounds(
                    n as nat,
                    i,
                ),
        decreases n - at,
    {
        let to: usize = if n - at < PATHS_INFO_BATCH {
            n
        } else {
            at + PATHS_INFO_BATCH
        };
        v.push((at, to));
        at = to;
    }
    proof {
        the_lookups_are_the_paths(v@, n as nat);
    }
    v
}

/// The lookups cover every path once: each starts where the one before it
/// ends, the first at the first path and the last ending with the last.
pub proof fn lookups_cover_every_path(n: nat, i: int)
    requires
        0 <= i < (n + PATHS_INFO_BATCH - 1) / PATHS_INFO_BATCH as int,
    ensures
        lookup_bounds(n, 0).0 == 0,
        lookup_bounds(n, i).0 < lookup_bounds(n, i).1 <= lookup_bounds(n, i).0 + PATHS_INFO_BATCH,
        lookup_bounds(n, i).1 == if i + 1 < (n + PATHS_INFO_BATCH - 1) / PATHS_INFO_BATCH as int {
            lookup_bounds(n, i + 1).0
        } else {
            n as int
        },
{
}

// ---------------------------------------------------------------------------
// Addresses
// ---------------------------------------------------------------------------
/// The address of a bucket's resource.
pub open spec fn api_address(endpoint: Seq<char>, id: Seq<char>, resource: Seq<char>) -> Seq<char> {
    endpoint + "/api/buckets/"@ + id + resource
}

/// The address of a bucket's resource.
pub fn api_url(endpoint: &str, id: &str, resource: &str) -> (r: String)
    ensures
        r@ == api_address(endpoint@, id@, resource@),
{
    let mut r = String::new();
    r.append(endpoint);
    r.append("/api/buckets/");
    r.append(id);
    r.append(resource);
    assert(r@ =~= api_address(endpoint@, id@, resource@));
    r
}

/// Why a listing has no address.
#[derive(Debug, Clone, PartialEq, Eq)]
pub enum TreeUrlError {
    /// The endpoint makes no URL: the parser's words.
    Parse(String),
    /// The endpoint's URL has no path segments.
    NotABase,
}

impl TreeUrlError {
    /// The message of the error.
    pub open spec fn words(&self) -> Seq<char> {
        match self {
            TreeUrlError::Parse(e) => "tree URL: "@ + e@,
            TreeUrlError::NotABase => "tree URL cannot be a base"@,
        }
    }

    /// The message of the error.
    pub fn message(&self) -> (r: String)
        ensures
            r@ == self.words(),
    {
        let mut r = String::new();
        match self {
            TreeUrlError::Parse(e) => {
                r.append("tree URL: ");
                r.append(e.as_str());
            },
            TreeUrlError::NotABase => {
                r.append("tree URL cannot be a base");
            },
        }
        assert(r@ =~= self.words());
        r
    }
}

/// The query of a listing page.
pub open spec fn tree_query(cursor: Option<Seq<char>>) -> Seq<(Seq<char>, Seq<char>)> {
    let fixed = seq![
        ("recursive"@, "true"@),
        ("limit"@, text::decimal(TREE_PAGE_LIMIT as nat)),
        ("sort"@, "path"@),
    ];
    match cursor {
        Some(c) => fixed.push(("cursor"@, c)),
        None => fixed,
    }
}

/// The query of a listing page: recursive, sorted by path, full pages, from
/// the cursor on.
fn tree_pairs(cursor: Option<&str>) -> (pairs: Vec<(String, String)>)
    requires
        cursor is Some ==> cursor->0@.len() < urls::URL_LIMIT - 6,
    ensures
        urls::pair_texts(pairs@) == tree_query(
            match cursor {
                Some(c) => Some(c@),
                None => None,
            },
        ),
        pairs@.len() <= 4,
        forall|i: int|
            0 <= i < pairs@.len() ==> (#[trigger] pairs@[i]).0@.len() + pairs@[i].1@.len()
                <= urls::URL_LIMIT,
{
    proof {
        reveal_strlit("recursive");
        reveal_strlit("true");
        reveal_strlit("limit");
        reveal_strlit("sort");
        reveal_strlit("path");
        reveal_strlit("cursor");
        text::lemma_decimal_len(TREE_PAGE_LIMIT as nat);
    }
    let mut pairs: Vec<(String, String)> = Vec::new();
    pairs.push(("recursive".to_owned(), "true".to_owned()));
    pairs.push(("limit".to_owned(), text::decimal_text(TREE_PAGE_LIMIT as u64)));
    pairs.push(("sort".to_owned(), "path".to_owned()));
    match cursor {
        Some(c) => {
            pairs.push(("cursor".to_owned(), c.to_owned()));
            assert(urls::pair_texts(pairs@) =~= tree_query(Some(c@)));
        },
        None => {
            assert(urls::pair_texts(pairs@) =~= tree_query(None));
        },
    }
    pairs
}

/// The outcome `r` of building a listing's address at `base`: the bucket root
/// is the base itself, and a path is appended segment by segment.
pub open spec fn tree_address(
    r: Result<String, TreeUrlError>,
    base: Seq<char>,
    path: Seq<char>,
    cursor: Option<Seq<char>>,
) -> bool {
    if path.len() == 0 {
        match urls::url_queried(base, tree_query(cursor)) {
            Ok(url) => r is Ok && r->Ok_0@ == url,
            Err(e) => r matches Err(TreeUrlError::Parse(words)) && words@ == e,
        }
    } else {
        match urls::url_extended(base, text::pieces(path, '/'), tree_query(cursor)) {
            Ok(url) => r is Ok && r->Ok_0@ == url,
            Err(Some(e)) => r matches Err(TreeUrlError::Parse(words)) && words@ == e,
            Err(None) => r == Err::<String, TreeUrlError>(TreeUrlError::NotABase),
        }
    }
}

/// The address of one page of the files under `path`. The segments of the
/// path are encoded once each; the bucket root has none.
pub fn tree_url(endpoint: &str, id: &str, path: &str, cursor: Option<&str>) -> (r: Result<
    String,
    TreeUrlError,
>)
    requires
        endpoint@.len() + id@.len() <= urls::URL_LIMIT - 18,
        path@.len() <= urls::URL_LIMIT,
        cursor is Some ==> cursor->0@.len() < urls::URL_LIMIT - 6,
    ensures
        tree_address(
            r,
            api_address(endpoint@, id@, "/tree"@),
            path@,
            match cursor {
                Some(c) => Some(c@),
                None => None,
            },
        ),
{
    proof {
        reveal_strlit("/api/buckets/");
        reveal_strlit("/tree");
    }
    let base = api_url(endpoint, id, "/tree");
    let pairs = tree_pairs(cursor);
    if path.is_empty() {
        match urls::extend_query(base.as_str(), &pairs) {
            Ok(url) => Ok(url),
            Err(e) => Err(TreeUrlError::Parse(e)),
        }
    } else {
        let segments = text::pieces_of(path, '/');
        proof {
            text::joined_pieces(path@, '/');
            reveal_strlit("/");
            assert("/"@ =~= seq!['/']);
        }
        match urls::extend_path(base.as_str(), &segments, &pairs) {
            Ok(url) => Ok(url),
            Err(Some(e)) => Err(TreeUrlError::Parse(e)),
            Err(None) => Err(TreeUrlError::NotABase),
        }
    }
}

// ---------------------------------------------------------------------------
// The next page
// ---------------------------------------------------------------------------
/// The first of the texts that holds `p`.
pub open spec fn first_holding(list: Seq<Seq<char>>, p: Seq<char>) -> Option<Seq<char>>
    decreases list.len(),
{
    if list.len() == 0 {
        None
    } else if text::holds(list[0], p) {
        Some(list[0])
    } else {
        first_holding(list.drop_first(), p)
    }
}

/// The address in a link entry: between angle brackets, before the first
/// semicolon.
pub open spec fn bracketed(part: Seq<char>) -> Option<Seq<char>> {
    match text::after_prefix(text::trimmed(text::pieces(part, ';')[0]), "<"@) {
        None => None,
        Some(rest) => text::before_suffix(rest, ">"@),
    }
}

/// The address of the `rel="next"` entry of a link header.
pub open spec fn next_address(link: Seq<char>) -> Option<Seq<char>> {
    match first_holding(text::pieces(link, ','), "rel=\"next\""@) {
        None => None,
        Some(part) => bracketed(part),
    }
}

/// The address of the `rel="next"` entry of a link header.
pub fn next_link(link: &str) -> (r: Option<String>)
    ensures
        urls::text_or_none(r) == next_address(link@),
{
    let parts = text::pieces_of(link, ',');
    let ghost all = text::texts(parts@);
    let mut i: usize = 0;
    assert(all.skip(0) =~= all);
    while i < parts.len()
        invariant
            0 <= i <= parts@.len(),
            all == text::texts(parts@),
            all == text::pieces(link@, ','),
            first_holding(all, "rel=\"next\""@) == first_holding(
                all.skip(i as int),
                "rel=\"next\""@,
            ),
        decreases parts@.len() - i,
    {
        assert(all.skip(i as int)[0] == all[i as int]);
        assert(all.skip(i as int).drop_first() =~= all.skip(i + 1));
        if text::holds_text(parts[i].as_str(), "rel=\"next\"") {
            let fields = text::pieces_of(parts[i].as_str(), ';');
            proof {
                text::pieces_not_empty(parts@[i as int]@, ';');
                assert(text::texts(fields@)[0] == fields@[0]@);
            }
            let field = text::trim(fields[0].as_str());
            return match text::strip_prefix(field.as_str(), "<") {
                None => None,
                Some(rest) => text::strip_suffix(rest.as_str(), ">"),
            };
        }
        i = i + 1;
    }
    None
}

/// The cursor in the query of a parsed address.
pub open spec fn cursor_in(parts: UrlParts) -> Option<Seq<char>> {
    urls::first_value(urls::pair_texts(parts.query@), "cursor"@)
}

/// The cursor in the query of a parsed address.
pub fn cursor_of(parts: &UrlParts) -> (r: Option<String>)
    ensures
        urls::text_or_none(r) == cursor_in(*parts),
{
    urls::query_value(&parts.query, "cursor")
}

/// The cursor of the `rel="next"` link.
pub open spec fn cursor_after(link: Seq<char>) -> Option<Seq<char>> {
    match next_address(link) {
        None => None,
        Some(address) => match urls::url_parts(address) {
            Err(_) => None,
            Ok(parts) => urls::first_value(parts.3, "cursor"@),
        },
    }
}

/// The cursor of the `rel="next"` link. Only the cursor is taken: the next
/// request goes to the same endpoint, so that the token never follows an
/// address the server chose.
pub fn next_cursor(link: &str) -> (r: Option<String>)
    ensures
        urls::text_or_none(r) == cursor_after(link@),
{
    match next_link(link) {
        None => None,
        Some(address) => match urls::parse_url(address.as_str()) {
            Err(_) => None,
            Ok(parts) => cursor_of(&parts),
        },
    }
}

// ---------------------------------------------------------------------------
// Laws
// ---------------------------------------------------------------------------
/// An entry counts exactly when it is a file and has a size; it comes after
/// those before it, with its own path and size.
pub proof fn files_with_sizes_count(entries: Seq<PathInfo>, e: PathInfo)
    ensures
        sized_files(Seq::empty()).len() == 0,
        e.kind@ == "file"@ && e.size is Some ==> sized_files(entries.push(e)) == sized_files(
            entries,
        ).push((e.path@, e.size->0)),
        e.kind@ != "file"@ || e.size is None ==> sized_files(entries.push(e)) == sized_files(
            entries,
        ),
{
    reveal(Seq::filter);
    assert(entries.push(e).drop_last() =~= entries);
    assert(sized_files(Seq::empty()) =~= Seq::empty());
    let keep = |e: PathInfo| sized_file(e);
    let pair = |e: PathInfo| (e.path@, e.size->0);
    if sized_file(e) {
        assert(entries.filter(keep).push(e).map_values(pair) =~= entries.filter(keep).map_values(
            pair,
        ).push((e.path@, e.size->0)));
    }
}

/// Of several sizes of a path the last counts; a path without one keeps what it
/// had.
pub proof fn the_last_size_counts(
    sizes: Map<Seq<char>, u64>,
    pairs: Seq<(Seq<char>, u64)>,
    path: Seq<char>,
    i: int,
)
    requires
        -1 <= i < pairs.len(),
        forall|j: int| i < j < pairs.len() ==> (#[trigger] pairs[j]).0 != path,
    ensures
        i >= 0 && pairs[i].0 == path ==> with_sizes(sizes, pairs).contains_key(path) && with_sizes(
            sizes,
            pairs,
        )[path] == pairs[i].1,
        i < 0 ==> with_sizes(sizes, pairs).contains_key(path) == sizes.contains_key(path),
        i < 0 && sizes.contains_key(path) ==> with_sizes(sizes, pairs)[path] == sizes[path],
    decreases pairs.len(),
{
    if pairs.len() > 0 && i < pairs.len() - 1 {
        let front = pairs.drop_last();
        assert(pairs[pairs.len() - 1].0 != path);
        assert forall|j: int| i < j < front.len() implies (#[trigger] front[j]).0 != path by {
            assert(pairs[j].0 != path);
        }
        the_last_size_counts(sizes, front, path, i);
        assert(i >= 0 ==> front[i] == pairs[i]);
    }
}

/// The address of a resource begins with the endpoint and ends with the
/// resource; between them stand the API's path and the bucket.
pub proof fn addresses_name_bucket_and_resource(
    endpoint: Seq<char>,
    id: Seq<char>,
    resource: Seq<char>,
)
    ensures
        ({
            let address = api_address(endpoint, id, resource);
            let n = endpoint.len() as int;
            let m = address.len() - resource.len();
            &&& address.take(n) == endpoint
            &&& address.subrange(n, m) == "/api/buckets/"@ + id
            &&& address.skip(m) == resource
        }),
{
    let address = api_address(endpoint, id, resource);
    let n = endpoint.len() as int;
    let m = address.len() - resource.len();
    assert(address.take(n) =~= endpoint);
    assert(address.subrange(n, m) =~= "/api/buckets/"@ + id);
    assert(address.skip(m) =~= resource);
}

/// A listing page is asked for recursively, sorted by path, with five thousand
/// entries, from the cursor on where there is one.
pub proof fn pages_are_asked_for(cursor: Option<Seq<char>>)
    ensures
        ({
            let query = tree_query(cursor);
            &&& urls::first_value(query, "recursive"@) == Some("true"@)
            &&& urls::first_value(query, "sort"@) == Some("path"@)
            &&& urls::first_value(query, "limit"@) == Some(text::decimal(5000))
            &&& urls::first_value(query, "cursor"@) == cursor
            &&& query.len() == if cursor is Some {
                4int
            } else {
                3int
            }
        }),
{
    reveal_strlit("recursive");
    reveal_strlit("limit");
    reveal_strlit("sort");
    reveal_strlit("cursor");
    let query = tree_query(cursor);
    assert("recursive"@.len() == 9 && "limit"@.len() == 5 && "sort"@.len() == 4 && "cursor"@.len()
        == 6);
    urls::the_first_pair_counts(query, "recursive"@, 0);
    urls::the_first_pair_counts(query, "limit"@, 1);
    urls::the_first_pair_counts(query, "sort"@, 2);
    urls::the_first_pair_counts(query, "cursor"@, 3);
}

/// The files under a path are asked for at the address that has the path's
/// segments appended, those of the root at the address itself; the address is
/// given back as it was built.
pub proof fn paths_are_asked_for_by_segments(
    r: Result<String, TreeUrlError>,
    base: Seq<char>,
    segments: Seq<Seq<char>>,
    cursor: Option<Seq<char>>,
)
    requires
        segments.len() > 0,
        forall|i: int| 0 <= i < segments.len() ==> !(#[trigger] segments[i]).contains('/'),
        tree_address(r, base, text::joined(segments, seq!['/']), cursor),
    ensures
        ({
            let root = text::joined(segments, seq!['/']).len() == 0;
            let queried = urls::url_queried(base, tree_query(cursor));
            let extended = urls::url_extended(base, segments, tree_query(cursor));
            &&& r is Ok <==> if root {
                queried is Ok
            } else {
                extended is Ok
            }
            &&& r is Ok && root ==> r->Ok_0@ == queried->Ok_0
            &&& r is Ok && !root ==> r->Ok_0@ == extended->Ok_0
            &&& r == Err::<String, TreeUrlError>(TreeUrlError::NotABase) <==> !root && extended
                == Err::<Seq<char>, Option<Seq<char>>>(None)
        }),
{
    text::joined_texts_are_split(segments, '/');
}

/// The first of the texts that holds the words is found, if one does.
pub proof fn the_first_that_holds_is_found(list: Seq<Seq<char>>, p: Seq<char>, i: int)
    requires
        0 <= i <= list.len(),
        forall|j: int| 0 <= j < i ==> !text::holds(#[trigger] list[j], p),
    ensures
        i == list.len() ==> first_holding(list, p) is None,
        i < list.len() && text::holds(list[i], p) ==> first_holding(list, p) == Some(list[i]),
    decreases i,
{
    if i > 0 {
        let rest = list.drop_first();
        assert(!text::holds(list[0], p));
        assert forall|j: int| 0 <= j < i - 1 implies !text::holds(#[trigger] rest[j], p) by {
            assert(!text::holds(list[j + 1], p));
        }
        the_first_that_holds_is_found(rest, p, i - 1);
        assert(i < list.len() ==> rest[i - 1] == list[i]);
    }
}

/// A link entry gives the address between its angle brackets, white space
/// around them or not, before the parameters.
pub proof fn links_give_their_address(
    a: Seq<char>,
    url: Seq<char>,
    b: Seq<char>,
    params: Seq<char>,
)
    requires
        forall|i: int| 0 <= i < a.len() ==> text::is_white_space(#[trigger] a[i]),
        forall|i: int| 0 <= i < b.len() ==> text::is_white_space(#[trigger] b[i]),
        !url.contains(';'),
    ensures
        bracketed(a + seq!['<'] + url + seq!['>'] + b + seq![';'] + params) == Some(url),
{
    reveal_strlit("<");
    reveal_strlit(">");
    let core = seq!['<'] + url + seq!['>'];
    let field = a + core + b;
    assert("<"@ =~= seq!['<']);
    assert(">"@ =~= seq!['>']);
    assert(!field.contains(';')) by {
        if field.contains(';') {
            let k = choose|k: int| 0 <= k < field.len() && field[k] == ';';
            if k < a.len() {
                assert(text::is_white_space(a[k]));
            } else if k >= a.len() + core.len() {
                assert(text::is_white_space(b[k - a.len() - core.len()]));
            } else if k > a.len() && k < a.len() + core.len() - 1 {
                assert(url[k - a.len() - 1] == ';');
            }
        }
    }
    text::the_first_piece_ends_at_the_separator(field, ';', params);
    assert(a + seq!['<'] + url + seq!['>'] + b + seq![';'] + params =~= field + seq![';'] + params);
    text::trimming_leaves_the_core(a, core, b);
    text::parts_are_taken_off("<"@, url + ">"@);
    assert(core =~= "<"@ + (url + ">"@));
    text::parts_are_taken_off(url, ">"@);
}

/// The next page's address is that of the first entry that says so: of the
/// entries of a link header, those between its commas.
pub proof fn the_next_link_is_the_first(entries: Seq<Seq<char>>, i: int)
    requires
        entries.len() > 0,
        forall|j: int| 0 <= j < entries.len() ==> !(#[trigger] entries[j]).contains(','),
        0 <= i <= entries.len(),
        forall|j: int| 0 <= j < i ==> !text::holds(#[trigger] entries[j], "rel=\"next\""@),
    ensures
        i == entries.len() ==> next_address(text::joined(entries, seq![','])) is None,
        i < entries.len() && text::holds(entries[i], "rel=\"next\""@) ==> next_address(
            text::joined(entries, seq![',']),
        ) == bracketed(entries[i]),
{
    text::joined_texts_are_split(entries, ',');
    the_first_that_holds_is_found(entries, "rel=\"next\""@, i);
}

/// The cursor is the value of the first pair of that name in the address's
/// query.
pub proof fn the_first_cursor_counts(parts: UrlParts, i: int)
    requires
        0 <= i <= parts.query@.len(),
        forall|j: int| 0 <= j < i ==> (#[trigger] parts.query@[j]).0@ != "cursor"@,
    ensures
        i == parts.query@.len() ==> cursor_in(parts) is None,
        i < parts.query@.len() && parts.query@[i].0@ == "cursor"@ ==> cursor_in(parts) == Some(
            parts.query@[i].1@,
        ),
{
    let pairs = urls::pair_texts(parts.query@);
    assert forall|j: int| 0 <= j < i implies (#[trigger] pairs[j]).0 != "cursor"@ by {
        assert(parts.query@[j].0@ != "cursor"@);
    }
    urls::the_first_pair_counts(pairs, "cursor"@, i);
}

/// An address is found only between angle brackets: what stands before the
/// first semicolon of the entry is then, without the white space around it, the
/// address in its brackets.
pub proof fn addresses_stand_in_brackets(part: Seq<char>)
    ensures
        bracketed(part) is Some ==> text::trimmed(text::pieces(part, ';')[0]) == "<"@ + (
        bracketed(part)->0 + ">"@),
{
    let field = text::trimmed(text::pieces(part, ';')[0]);
    text::what_is_taken_off_was_there(field, "<"@);
    if let Some(rest) = text::after_prefix(field, "<"@) {
        text::what_is_taken_off_was_there(rest, ">"@);
    }
}

/// The message gives the parser's words, where there are any.
pub proof fn address_errors_give_the_words(e: TreeUrlError)
    ensures
        match e {
            TreeUrlError::Parse(words) => e.words() == "tree URL: "@ + words@,
            TreeUrlError::NotABase => e.words() == "tree URL cannot be a base"@,
        },
{
}

/// A listing goes on exactly where a link to the next page is an address whose
/// query has a cursor, and with the first cursor there.
pub proof fn listings_go_on_at_the_cursor(link: Seq<char>, i: int)
    ensures
        next_address(link) is None ==> cursor_after(link) is None,
        next_address(link) is Some && urls::url_parts(next_address(link)->0) is Err
            ==> cursor_after(link) is None,
        next_address(link) is Some && urls::url_parts(next_address(link)->0) is Ok ==> {
            let pairs = urls::url_parts(next_address(link)->0)->Ok_0.3;
            &&& 0 <= i < pairs.len() && pairs[i].0 == "cursor"@ && (forall|j: int|
                0 <= j < i ==> (#[trigger] pairs[j]).0 != "cursor"@) ==> cursor_after(link) == Some(
                pairs[i].1,
            )
            &&& (forall|j: int| 0 <= j < pairs.len() ==> (#[trigger] pairs[j]).0 != "cursor"@)
                ==> cursor_after(link) is None
        },
{
    if next_address(link) is Some && urls::url_parts(next_address(link)->0) is Ok {
        let pairs = urls::url_parts(next_address(link)->0)->Ok_0.3;
        if 0 <= i < pairs.len() && pairs[i].0 == "cursor"@ && forall|j: int|
            0 <= j < i ==> (#[trigger] pairs[j]).0 != "cursor"@ {
            urls::the_first_pair_counts(pairs, "cursor"@, i);
        }
        if forall|j: int| 0 <= j < pairs.len() ==> (#[trigger] pairs[j]).0 != "cursor"@ {
            urls::the_first_pair_counts(pairs, "cursor"@, pairs.len() as int);
        }
    }
}

/// Pairs of path and size are read one for one.
pub proof fn size_pairs_are_read(v: Seq<(String, u64)>, i: int)
    ensures
        size_pairs(v).len() == v.len(),
        0 <= i < v.len() ==> size_pairs(v)[i] == (v[i].0@, v[i].1),
{
}

} // verus!
