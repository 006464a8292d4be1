//! Source keys, destination paths, and the mapping between them.
use globset::GlobSet;
use vstd::prelude::*;
use crate::globs;
use crate::text;

verus! {

// ---------------------------------------------------------------------------
// Keys under a prefix
// ---------------------------------------------------------------------------
/// The text ends with a slash.
pub open spec fn ends_with_slash(s: Seq<char>) -> bool {
    s.len() > 0 && s.last() == '/'
}

/// `key` belongs to `prefix`: a prefix with a trailing slash is a directory,
/// one without is an object or a directory, and siblings that merely share
/// its characters do not belong.
pub open spec fn belongs(key: Seq<char>, prefix: Seq<char>) -> bool {
    if prefix.len() == 0 {
        true
    } else if ends_with_slash(prefix) {
        prefix.is_prefix_of(key)
    } else {
        key == prefix || prefix.push('/').is_prefix_of(key)
    }
}

/// Whether `key` belongs to `prefix`.
pub fn key_belongs_to_prefix(key: &str, prefix: &str) -> (r: bool)
    ensures
        r == belongs(key@, prefix@),
{
    if prefix.is_empty() {
        return true;
    }
    if text::ends_with_char(prefix, '/') {
        return text::begins_with(key, prefix);
    }
    if text::same(key, prefix) {
        return true;
    }
    match text::strip_prefix(key, prefix) {
        None => {
            proof {
                lemma_no_child(key@, prefix@);
            }
            false
        },
        Some(rest) => {
            let r = text::begins_with(rest.as_str(), "/");
            proof {
                assert(key@.subrange(0, prefix@.len() as int) == prefix@);
                assert(key@ =~= prefix@ + rest@);
                lemma_child(key@, prefix@, rest@);
            }
            r
        },
    }
}

/// What follows a prefix begins with a slash exactly when the prefix and a
/// slash are a prefix too.
proof fn lemma_child(key: Seq<char>, prefix: Seq<char>, rest: Seq<char>)
    requires
        key == prefix + rest,
    ensures
        "/"@.is_prefix_of(rest) <==> prefix.push('/').is_prefix_of(key),
        "/"@.is_prefix_of(rest) <==> rest.len() > 0 && rest[0] == '/',
{
    reveal_strlit("/");
    assert("/"@ =~= seq!['/']);
    if rest.len() > 0 && rest[0] == '/' {
        assert(rest.subrange(0, 1) =~= seq!['/']);
        assert(key.subrange(0, prefix.len() as int + 1) =~= prefix.push('/'));
    }
    if "/"@.is_prefix_of(rest) {
        assert(rest[0] == rest.subrange(0, 1)[0]);
    }
    if prefix.push('/').is_prefix_of(key) {
        assert(key.subrange(0, prefix.len() as int + 1)[prefix.len() as int] == key[prefix.len() as int]);
    }
}

/// Where a prefix does not fit, the prefix and a slash do not either.
proof fn lemma_no_child(key: Seq<char>, prefix: Seq<char>)
    requires
        !prefix.is_prefix_of(key),
    ensures
        !prefix.push('/').is_prefix_of(key),
{
    if prefix.push('/').is_prefix_of(key) {
        let head = key.subrange(0, prefix.len() as int + 1);
        assert forall|i: int| 0 <= i < prefix.len() implies prefix[i] == key[i] by {
            assert(prefix.push('/')[i] == head[i]);
        }
        assert(prefix =~= key.subrange(0, prefix.len() as int));
    }
}

/// `s` without the slashes at its start.
pub open spec fn without_slashes(s: Seq<char>) -> Seq<char>
    decreases s.len(),
{
    if s.len() > 0 && s[0] == '/' {
        without_slashes(s.drop_first())
    } else {
        s
    }
}

/// `s` without the slashes at its start.
pub fn strip_slashes(s: &str) -> (r: String)
    ensures
        r@ == without_slashes(s@),
{
    let x = text::chars_of(s);
    let mut from: usize = 0;
    assert(x@.skip(0) =~= x@);
    while from < x.len() && x[from] == '/'
        invariant
            0 <= from <= x@.len(),
            without_slashes(x@) == without_slashes(x@.skip(from as int)),
        decreases x@.len() - from,
    {
        assert(x@.skip(from as int).drop_first() =~= x@.skip(from + 1));
        from = from + 1;
    }
    assert(x@.subrange(from as int, x@.len() as int) =~= x@.skip(from as int));
    text::text_of(&x, from, x.len())
}

/// The path of `key` relative to `prefix`; a key that is the prefix itself, or
/// does not belong to it, keeps its full name.
pub open spec fn relative(key: Seq<char>, prefix: Seq<char>) -> Seq<char> {
    if prefix.len() == 0 {
        key
    } else if ends_with_slash(prefix) {
        match text::after_prefix(key, prefix) {
            Some(rest) => rest,
            None => key,
        }
    } else if prefix.push('/').is_prefix_of(key) {
        without_slashes(key.skip(prefix.len() as int))
    } else {
        key
    }
}

/// The path of `key` relative to `prefix`.
pub fn relative_key_path(key: &str, prefix: &str) -> (r: String)
    ensures
        r@ == relative(key@, prefix@),
{
    if prefix.is_empty() {
        return key.to_owned();
    }
    if text::ends_with_char(prefix, '/') {
        return match text::strip_prefix(key, prefix) {
            Some(rest) => rest,
            None => key.to_owned(),
        };
    }
    match text::strip_prefix(key, prefix) {
        Some(rest) => {
            proof {
                assert(key@ =~= prefix@ + rest@) by {
                    assert(key@.subrange(0, prefix@.len() as int) == prefix@);
                }
                lemma_child(key@, prefix@, rest@);
            }
            if text::begins_with(rest.as_str(), "/") {
                strip_slashes(rest.as_str())
            } else {
                key.to_owned()
            }
        },
        None => {
            proof {
                lemma_no_child(key@, prefix@);
            }
            key.to_owned()
        },
    }
}

// ---------------------------------------------------------------------------
// Which keys are copied
// ---------------------------------------------------------------------------
/// The key has an empty path segment: it begins or ends with a slash, or two
/// slashes meet. Such a key is valid in S3 and has no object path.
pub open spec fn has_empty_segment(key: Seq<char>) -> bool {
    key.len() > 0 && (key[0] == '/' || key.last() == '/' || exists|i: int|
        0 <= i < key.len() - 1 && #[trigger] key[i] == '/' && key[i + 1] == '/')
}

/// Whether the key has an empty path segment.
pub fn empty_segment(key: &str) -> (r: bool)
    ensures
        r == has_empty_segment(key@),
{
    let x = text::chars_of(key);
    if x.len() == 0 {
        return false;
    }
    if x[0] == '/' || x[x.len() - 1] == '/' {
        return true;
    }
    let mut i: usize = 0;
    while i < x.len() - 1
        invariant
            0 <= i < x@.len(),
            x@ == key@,
            forall|j: int| 0 <= j < i ==> !(#[trigger] x@[j] == '/' && x@[j + 1] == '/'),
        decreases x@.len() - i,
    {
        if x[i] == '/' && x[i + 1] == '/' {
            return true;
        }
        i = i + 1;
    }
    false
}

/// What becomes of a listed key.
#[derive(Debug, Clone, Copy, PartialEq, Eq, Structural)]
pub enum KeyFilter {
    /// Copied.
    Keep,
    /// Under a sibling of the prefix.
    Outside,
    /// Has an empty path segment.
    Invalid,
    /// Matched by an exclude pattern.
    Excluded,
}

/// What becomes of a key, by what is known of it.
pub open spec fn verdict(belongs: bool, invalid: bool, excluded: bool) -> KeyFilter {
    if !belongs {
        KeyFilter::Outside
    } else if invalid {
        KeyFilter::Invalid
    } else if excluded {
        KeyFilter::Excluded
    } else {
        KeyFilter::Keep
    }
}

/// What becomes of a key listed under `prefix`.
pub open spec fn filtered(key: Seq<char>, prefix: Seq<char>, exclude: Option<GlobSet>) -> KeyFilter {
    verdict(belongs(key, prefix), has_empty_segment(key), globs::excluded(exclude, key))
}

/// What becomes of a key, given whether a pattern excludes it.
pub fn filter_key_with(key: &str, prefix: &str, excluded: bool) -> (r: KeyFilter)
    ensures
        r == verdict(belongs(key@, prefix@), has_empty_segment(key@), excluded),
{
    if !key_belongs_to_prefix(key, prefix) {
        KeyFilter::Outside
    } else if empty_segment(key) {
        KeyFilter::Invalid
    } else if excluded {
        KeyFilter::Excluded
    } else {
        KeyFilter::Keep
    }
}

/// What becomes of a key listed under `prefix`.
pub fn filter_key(key: &str, prefix: &str, exclude: &Option<GlobSet>) -> (r: KeyFilter)
    ensures
        r == filtered(key@, prefix@, *exclude),
{
    filter_key_with(key, prefix, globs::excludes(exclude, key))
}

// ---------------------------------------------------------------------------
// The mapping to the destination and back
// ---------------------------------------------------------------------------
/// The destination path of a relative path.
pub open spec fn placed(dest_prefix: Seq<char>, rel: Seq<char>) -> Seq<char> {
    if dest_prefix.len() == 0 {
        rel
    } else {
        dest_prefix + seq!['/'] + rel
    }
}

/// The destination path of a relative path.
pub fn destination_path(dest_prefix: &str, rel: &str) -> (r: String)
    ensures
        r@ == placed(dest_prefix@, rel@),
{
    if dest_prefix.is_empty() {
        return rel.to_owned();
    }
    let mut r = String::new();
    r.append(dest_prefix);
    r.push('/');
    r.append(rel);
    assert(r@ =~= placed(dest_prefix@, rel@));
    r
}

/// Where a source key lands.
pub open spec fn landed(key: Seq<char>, dest_prefix: Seq<char>, src_prefix: Seq<char>) -> Seq<
    char,
> {
    placed(dest_prefix, relative(key, src_prefix))
}

/// The source key of a relative path.
pub open spec fn rejoined(rel: Seq<char>, src_prefix: Seq<char>) -> Seq<char> {
    if rel == src_prefix && !ends_with_slash(src_prefix) {
        rel
    } else if src_prefix.len() == 0 || ends_with_slash(src_prefix) {
        src_prefix + rel
    } else {
        src_prefix + seq!['/'] + rel
    }
}

/// The relative path of a destination path; `None` where it lies outside the
/// destination.
pub open spec fn unplaced(dest_path: Seq<char>, dest_prefix: Seq<char>) -> Option<Seq<char>> {
    if dest_prefix.len() == 0 {
        Some(dest_path)
    } else {
        text::after_prefix(dest_path, dest_prefix.push('/'))
    }
}

/// The source key that a destination path came from.
pub open spec fn origin(dest_path: Seq<char>, dest_prefix: Seq<char>, src_prefix: Seq<char>) -> Option<
    Seq<char>,
> {
    match unplaced(dest_path, dest_prefix) {
        None => None,
        Some(rel) => Some(rejoined(rel, src_prefix)),
    }
}

/// The source key that a destination path came from; `None` where the path
/// lies outside the destination. A key equal to the prefix (a source of one
/// object) keeps its full name.
pub fn source_key(dest_path: &str, dest_prefix: &str, src_prefix: &str) -> (r: Option<String>)
    ensures
        r is Some <==> origin(dest_path@, dest_prefix@, src_prefix@) is Some,
        r is Some ==> r->0@ == origin(dest_path@, dest_prefix@, src_prefix@)->0,
{
    let rel: String = if dest_prefix.is_empty() {
        dest_path.to_owned()
    } else {
        let mut head = dest_prefix.to_owned();
        head.push('/');
        match text::strip_prefix(dest_path, head.as_str()) {
            None => {
                return None;
            },
            Some(rel) => rel,
        }
    };
    let slash = text::ends_with_char(src_prefix, '/');
    if text::same(rel.as_str(), src_prefix) && !slash {
        return Some(rel);
    }
    let mut key = src_prefix.to_owned();
    if !src_prefix.is_empty() && !slash {
        key.push('/');
    }
    key.append(rel.as_str());
    assert(key@ =~= rejoined(rel@, src_prefix@));
    Some(key)
}

/// The relative path of a placed one is what was placed.
proof fn lemma_unplaced(dest_prefix: Seq<char>, rel: Seq<char>)
    ensures
        unplaced(placed(dest_prefix, rel), dest_prefix) == Some(rel),
{
    if dest_prefix.len() > 0 {
        let path = placed(dest_prefix, rel);
        let head = dest_prefix.push('/');
        assert(path =~= head + rel);
        assert(path.subrange(0, head.len() as int) =~= head);
        assert(path.skip(head.len() as int) =~= rel);
    }
}

/// The check reads a destination path as the key that the copy wrote there:
/// `source_key` inverts the copier's mapping for every key that is copied,
/// but for one: under a prefix without a trailing slash, the key that is the
/// prefix, a slash and the prefix again lands where the prefix itself would.
pub proof fn source_key_inverts_the_mapping(
    key: Seq<char>,
    dest_prefix: Seq<char>,
    src_prefix: Seq<char>,
)
    requires
        belongs(key, src_prefix),
        !has_empty_segment(key),
        key != src_prefix + seq!['/'] + src_prefix,
    ensures
        origin(landed(key, dest_prefix, src_prefix), dest_prefix, src_prefix) == Some(key),
{
    let rel = relative(key, src_prefix);
    lemma_unplaced(dest_prefix, rel);
    if src_prefix.len() == 0 {
        assert(src_prefix + rel =~= key);
    } else if ends_with_slash(src_prefix) {
        assert(key.subrange(0, src_prefix.len() as int) == src_prefix);
        assert(src_prefix + rel =~= key);
    } else if src_prefix.push('/').is_prefix_of(key) {
        let rest = key.skip(src_prefix.len() as int);
        let head = key.subrange(0, src_prefix.len() as int + 1);
        assert(head == src_prefix.push('/'));
        assert(rest[0] == head[src_prefix.len() as int]);
        if rest.len() > 1 && rest[1] == '/' {
            assert(key[src_prefix.len() as int] == '/' && key[src_prefix.len() as int + 1] == '/');
        }
        reveal_with_fuel(without_slashes, 2);
        assert(rel =~= rest.drop_first());
        assert(src_prefix + seq!['/'] + rel =~= key) by {
            assert forall|i: int| 0 <= i < src_prefix.len() implies src_prefix[i] == key[i] by {
                assert(head[i] == src_prefix.push('/')[i]);
            }
        }
    }
}

/// No two copied keys land on the same destination path (under a prefix
/// without a trailing slash: the prefix, a slash and the prefix again set
/// aside).
pub proof fn copied_keys_do_not_collide(
    a: Seq<char>,
    b: Seq<char>,
    dest_prefix: Seq<char>,
    src_prefix: Seq<char>,
)
    requires
        belongs(a, src_prefix),
        belongs(b, src_prefix),
        !has_empty_segment(a),
        !has_empty_segment(b),
        a != src_prefix + seq!['/'] + src_prefix,
        b != src_prefix + seq!['/'] + src_prefix,
        landed(a, dest_prefix, src_prefix) == landed(b, dest_prefix, src_prefix),
    ensures
        a == b,
{
    source_key_inverts_the_mapping(a, dest_prefix, src_prefix);
    source_key_inverts_the_mapping(b, dest_prefix, src_prefix);
}

/// The key that a destination path is read as belongs to the source prefix,
/// and, unless it has an empty segment, lands on that path.
pub proof fn origin_lands_back(
    dest_path: Seq<char>,
    dest_prefix: Seq<char>,
    src_prefix: Seq<char>,
)
    requires
        origin(dest_path, dest_prefix, src_prefix) is Some,
    ensures
        belongs(origin(dest_path, dest_prefix, src_prefix)->0, src_prefix),
        !has_empty_segment(origin(dest_path, dest_prefix, src_prefix)->0) ==> landed(
            origin(dest_path, dest_prefix, src_prefix)->0,
            dest_prefix,
            src_prefix,
        ) == dest_path,
{
    let rel = unplaced(dest_path, dest_prefix)->0;
    let key = rejoined(rel, src_prefix);
    if dest_prefix.len() > 0 {
        let head = dest_prefix.push('/');
        assert(dest_path.subrange(0, head.len() as int) == head);
        assert(placed(dest_prefix, rel) =~= dest_path) by {
            assert(dest_path =~= head + rel);
        }
    }
    if rel == src_prefix && !ends_with_slash(src_prefix) {
        if src_prefix.push('/').is_prefix_of(key) {
            assert(false);
        }
    } else if src_prefix.len() == 0 {
        assert(key =~= rel);
    } else if ends_with_slash(src_prefix) {
        assert(key.subrange(0, src_prefix.len() as int) =~= src_prefix);
        assert(key.skip(src_prefix.len() as int) =~= rel);
    } else {
        assert(key.subrange(0, src_prefix.len() as int + 1) =~= src_prefix.push('/'));
        let rest = key.skip(src_prefix.len() as int);
        assert(rest[0] == '/');
        assert(rest.drop_first() =~= rel);
        if !has_empty_segment(key) {
            if rel.len() > 0 && rel[0] == '/' {
                assert(key[src_prefix.len() as int] == '/' && key[src_prefix.len() as int + 1] == '/');
            }
            reveal_with_fuel(without_slashes, 2);
            assert(relative(key, src_prefix) =~= rel);
        }
    }
}

// ---------------------------------------------------------------------------
// What the words mean
// ---------------------------------------------------------------------------
/// A key belongs to a prefix that it begins with, where a segment ends with the
/// prefix: nothing is left of the key, or the slash is the prefix's last
/// character or the key's next.
pub proof fn keys_belong_by_whole_segments(key: Seq<char>, prefix: Seq<char>)
    ensures
        belongs(key, prefix) <==> {
            let n = prefix.len() as int;
            &&& n <= key.len()
            &&& forall|i: int| 0 <= i < n ==> #[trigger] key[i] == prefix[i]
            &&& n == 0 || prefix[n - 1] == '/' || key.len() == n || key[n] == '/'
        },
{
    let n = prefix.len() as int;
    if belongs(key, prefix) && n > 0 {
        if ends_with_slash(prefix) {
            assert(key.subrange(0, n) == prefix);
            assert forall|i: int| 0 <= i < n implies #[trigger] key[i] == prefix[i] by {
                assert(key.subrange(0, n)[i] == prefix[i]);
            }
        } else if key != prefix {
            let head = prefix.push('/');
            assert(key.subrange(0, n + 1) == head);
            assert(key.subrange(0, n + 1)[n] == key[n]);
            assert forall|i: int| 0 <= i < n implies #[trigger] key[i] == prefix[i] by {
                assert(key.subrange(0, n + 1)[i] == head[i]);
            }
        }
    }
    if n <= key.len() && (forall|i: int| 0 <= i < n ==> #[trigger] key[i] == prefix[i]) {
        assert(key.subrange(0, n) =~= prefix);
        if n == key.len() {
            assert(key =~= prefix);
        } else if key[n] == '/' {
            assert(key.subrange(0, n + 1) =~= prefix.push('/'));
        }
    }
}

/// The relative path of a key below a prefix is what follows the prefix and its
/// slash; the prefix itself, and a key that does not belong, keep their names.
pub proof fn relative_paths_follow_the_prefix(prefix: Seq<char>, rest: Seq<char>)
    ensures
        prefix.len() == 0 ==> relative(rest, prefix) == rest,
        ends_with_slash(prefix) ==> relative(prefix + rest, prefix) == rest,
        prefix.len() > 0 && !ends_with_slash(prefix) && (rest.len() == 0 || rest[0] != '/')
            ==> relative(prefix + seq!['/'] + rest, prefix) == rest,
        prefix.len() > 0 && !ends_with_slash(prefix) && rest.len() > 0 && rest[0] == '/'
            ==> relative(prefix + seq!['/'] + rest, prefix) == relative(
            prefix + seq!['/'] + rest.skip(1),
            prefix,
        ),
        !ends_with_slash(prefix) ==> relative(prefix, prefix) == prefix,
        !belongs(rest, prefix) ==> relative(rest, prefix) == rest,
{
    text::parts_are_taken_off(prefix, rest);
    if prefix.len() > 0 && !ends_with_slash(prefix) {
        let key = prefix + seq!['/'] + rest;
        let tail = key.skip(prefix.len() as int);
        assert(key.subrange(0, prefix.len() as int + 1) =~= prefix.push('/'));
        assert(tail =~= seq!['/'] + rest);
        assert(tail.drop_first() =~= rest);
        assert(without_slashes(tail) == without_slashes(rest));
        if rest.len() > 0 && rest[0] == '/' {
            let shorter = prefix + seq!['/'] + rest.skip(1);
            assert(shorter.subrange(0, prefix.len() as int + 1) =~= prefix.push('/'));
            assert(shorter.skip(prefix.len() as int) =~= rest);
        }
    }
}

/// The slashes taken off the start of a text are all that it begins with, and
/// only slashes.
pub proof fn only_slashes_are_stripped(s: Seq<char>)
    ensures
        ({
            let r = without_slashes(s);
            let n = s.len() - r.len();
            &&& 0 <= n
            &&& s.skip(n) == r
            &&& forall|i: int| 0 <= i < n ==> #[trigger] s[i] == '/'
            &&& r.len() > 0 ==> r[0] != '/'
        }),
    decreases s.len(),
{
    if s.len() > 0 && s[0] == '/' {
        let rest = s.drop_first();
        only_slashes_are_stripped(rest);
        let n = s.len() - without_slashes(s).len();
        assert(rest.skip(n - 1) =~= s.skip(n));
        assert forall|i: int| 0 <= i < n implies #[trigger] s[i] == '/' by {
            if i > 0 {
                assert(rest[i - 1] == s[i]);
            }
        }
    } else {
        assert(s.skip(0) =~= s);
    }
}

/// A key has an empty segment exactly when one of the pieces between its
/// slashes is empty.
pub proof fn segments_are_the_pieces(key: Seq<char>)
    ensures
        has_empty_segment(key) <==> key.len() > 0 && text::pieces(key, '/').contains(
            Seq::<char>::empty(),
        ),
{
    if key.len() > 0 {
        lemma_segments(key);
        let all = text::pieces(key, '/');
        text::pieces_not_empty(key, '/');
        if all.contains(Seq::<char>::empty()) && !ends_with_slash(key) {
            let i = choose|i: int| 0 <= i < all.len() && all[i] == Seq::<char>::empty();
            assert(all[i] == Seq::<char>::empty());
            assert(i < all.len() - 1);
        }
    }
}

/// The last piece is empty where the key ends with a slash, or is empty; an
/// earlier one where the key begins with a slash or two slashes meet.
proof fn lemma_segments(key: Seq<char>)
    ensures
        ({
            let all = text::pieces(key, '/');
            &&& all.len() > 0
            &&& all.last().len() == 0 <==> key.len() == 0 || key.last() == '/'
            &&& (exists|i: int| 0 <= i < all.len() - 1 && #[trigger] all[i] == Seq::<char>::empty())
                <==> (key.len() > 0 && key[0] == '/') || (exists|i: int|
                0 <= i < key.len() - 1 && #[trigger] key[i] == '/' && key[i + 1] == '/')
        }),
    decreases key.len(),
{
    let all = text::pieces(key, '/');
    text::pieces_not_empty(key, '/');
    if key.len() > 0 {
        let front = key.drop_last();
        let before = text::pieces(front, '/');
        let n = key.len() as int;
        lemma_segments(front);
        text::pieces_not_empty(front, '/');
        let had = exists|i: int|
            0 <= i < before.len() - 1 && #[trigger] before[i] == Seq::<char>::empty();
        let met = exists|i: int|
            0 <= i < front.len() - 1 && #[trigger] front[i] == '/' && front[i + 1] == '/';
        let has = exists|i: int| 0 <= i < all.len() - 1 && #[trigger] all[i] == Seq::<char>::empty();
        let meets = exists|i: int|
            0 <= i < key.len() - 1 && #[trigger] key[i] == '/' && key[i + 1] == '/';
        if met {
            let i = choose|i: int|
                0 <= i < front.len() - 1 && #[trigger] front[i] == '/' && front[i + 1] == '/';
            assert(key[i] == '/' && key[i + 1] == '/');
        }
        if meets {
            let i = choose|i: int|
                0 <= i < key.len() - 1 && #[trigger] key[i] == '/' && key[i + 1] == '/';
            if i < front.len() - 1 {
                assert(front[i] == '/' && front[i + 1] == '/');
            }
        }
        if had {
            let i = choose|i: int|
                0 <= i < before.len() - 1 && #[trigger] before[i] == Seq::<char>::empty();
            assert(all[i] == before[i]);
        }
        if key.last() == '/' {
            assert(all.drop_last() =~= before);
            if before.last().len() == 0 {
                assert(before.last() =~= Seq::empty());
                assert(all[all.len() - 2] == Seq::<char>::empty());
                if front.len() > 0 {
                    assert(key[n - 2] == front.last());
                    assert(key[n - 2] == '/' && key[n - 1] == '/');
                }
            }
            if has {
                let i = choose|i: int|
                    0 <= i < all.len() - 1 && #[trigger] all[i] == Seq::<char>::empty();
                if i < before.len() - 1 {
                    assert(before[i] == Seq::<char>::empty());
                } else {
                    assert(all[i] == before.last());
                }
            }
            if meets && !met {
                assert(front.len() > 0 && front.last() == '/');
            }
        } else {
            if has {
                let i = choose|i: int|
                    0 <= i < all.len() - 1 && #[trigger] all[i] == Seq::<char>::empty();
                assert(before[i] == Seq::<char>::empty());
            }
        }
    } else {
        assert(all =~= seq![Seq::<char>::empty()]);
    }
}

/// What becomes of a key, each outcome with the keys it comes to.
pub proof fn keys_are_filtered_for_a_reason(
    key: Seq<char>,
    prefix: Seq<char>,
    exclude: Option<GlobSet>,
)
    ensures
        ({
            let r = filtered(key, prefix, exclude);
            let excluded = globs::excluded(exclude, key);
            &&& r == KeyFilter::Keep <==> belongs(key, prefix) && !has_empty_segment(key)
                && !excluded
            &&& r == KeyFilter::Outside <==> !belongs(key, prefix)
            &&& r == KeyFilter::Invalid <==> belongs(key, prefix) && has_empty_segment(key)
            &&& r == KeyFilter::Excluded <==> belongs(key, prefix) && !has_empty_segment(key)
                && excluded
        }),
{
}

/// A path is placed below the destination: its last part is the relative path,
/// and before it, where there is a destination prefix, that prefix and a slash.
pub proof fn paths_are_placed_below(dest_prefix: Seq<char>, rel: Seq<char>)
    ensures
        ({
            let path = placed(dest_prefix, rel);
            let n = path.len() - rel.len();
            &&& n == if dest_prefix.len() == 0 {
                0
            } else {
                dest_prefix.len() + 1
            }
            &&& path.skip(n) == rel
            &&& dest_prefix.len() > 0 ==> path.take(n - 1) == dest_prefix && path[n - 1] == '/'
            &&& unplaced(path, dest_prefix) == Some(rel)
        }),
{
    let path = placed(dest_prefix, rel);
    let n = path.len() - rel.len();
    lemma_unplaced(dest_prefix, rel);
    assert(path.skip(n) =~= rel);
    if dest_prefix.len() > 0 {
        assert(path.take(n - 1) =~= dest_prefix);
    }
}

/// Only paths below the destination have a source key, and a path below it
/// comes from the source prefix, a slash where the prefix has none, and the
/// path's own part; from the prefix alone where that part is the prefix.
pub proof fn paths_come_from_below_the_source(
    dest_prefix: Seq<char>,
    src_prefix: Seq<char>,
    rel: Seq<char>,
    path: Seq<char>,
)
    ensures
        ({
            let found = origin(placed(dest_prefix, rel), dest_prefix, src_prefix);
            &&& src_prefix.len() == 0 || ends_with_slash(src_prefix) ==> found == Some(
                src_prefix + rel,
            )
            &&& src_prefix.len() > 0 && !ends_with_slash(src_prefix) && rel != src_prefix ==> found
                == Some(src_prefix + seq!['/'] + rel)
            &&& !ends_with_slash(src_prefix) && rel == src_prefix ==> found == Some(rel)
        }),
        origin(path, dest_prefix, src_prefix) is Some ==> exists|below: Seq<char>|
            path == #[trigger] placed(dest_prefix, below),
{
    lemma_unplaced(dest_prefix, rel);
    if src_prefix.len() == 0 {
        assert(src_prefix + rel =~= rel);
    }
    if origin(path, dest_prefix, src_prefix) is Some {
        if dest_prefix.len() == 0 {
            assert(path == placed(dest_prefix, path));
        } else {
            let below = text::after_prefix(path, dest_prefix.push('/'))->0;
            text::what_is_taken_off_was_there(path, dest_prefix.push('/'));
            assert(path =~= placed(dest_prefix, below));
        }
    }
}

} // verus!
