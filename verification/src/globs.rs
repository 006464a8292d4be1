//! The patterns that exclude keys from a copy.
use globset::{GlobSet, GlobSetBuilder};
use vstd::prelude::*;
use crate::text;

verus! {

#[verifier::external_type_specification]
#[verifier::external_body]
pub struct ExGlobSet(globset::GlobSet);

#[verifier::external_type_specification]
#[verifier::external_body]
pub struct ExGlobSetBuilder(globset::GlobSetBuilder);

/// The patterns that a builder was given, in order.
pub uninterp spec fn builder_globs(b: GlobSetBuilder) -> Seq<Seq<char>>;

/// The patterns that a set was built from, in order.
pub uninterp spec fn set_globs(s: GlobSet) -> Seq<Seq<char>>;

/// What `Glob::new` says against a pattern: the words of its error, `None`
/// for a pattern that is a glob. As on a platform whose path separator is `/`.
pub uninterp spec fn glob_error(pattern: Seq<char>) -> Option<Seq<char>>;

/// Whether a glob matches a key, as on a platform whose path separator is `/`.
pub uninterp spec fn glob_matches(pattern: Seq<char>, key: Seq<char>) -> bool;

/// How deep the groups of one pattern may nest: `globset` walks them by
/// recursion.
pub const MAX_NESTING: usize = 1000;

/// Characters that the patterns may have together: the search automaton that
/// `globset` builds from them holds fewer than 2^31 states.
pub const MAX_GLOB_CHARS: usize = 0x100_0000;

/// The opening braces of a pattern.
pub open spec fn braces(pattern: Seq<char>) -> nat {
    pattern.filter(|c: char| c == '{').len()
}

/// The groups that are open after the characters, where each brace opens or
/// closes one.
pub open spec fn open_groups(pattern: Seq<char>) -> nat
    decreases pattern.len(),
{
    if pattern.len() == 0 {
        0
    } else {
        let before = open_groups(pattern.drop_last());
        if pattern.last() == '{' {
            before + 1
        } else if pattern.last() == '}' && before > 0 {
            (before - 1) as nat
        } else {
            before
        }
    }
}

/// The most groups that are open at a time, where each brace opens or closes
/// one.
pub open spec fn deepest(pattern: Seq<char>) -> nat
    decreases pattern.len(),
{
    if pattern.len() == 0 {
        0
    } else {
        let before = deepest(pattern.drop_last());
        let here = open_groups(pattern);
        if here > before {
            here
        } else {
            before
        }
    }
}

/// How deep the groups of a pattern nest at most. In a pattern with a class or
/// an escape a closing brace may stand for itself, so that every opening one
/// counts.
pub open spec fn nesting(pattern: Seq<char>) -> nat {
    if pattern.contains('[') || pattern.contains('\\') {
        braces(pattern)
    } else {
        deepest(pattern)
    }
}

/// The characters of all patterns.
pub open spec fn total_chars(patterns: Seq<Seq<char>>) -> nat
    decreases patterns.len(),
{
    if patterns.len() == 0 {
        0
    } else {
        total_chars(patterns.drop_last()) + patterns.last().len()
    }
}

/// The patterns are of a size that `globset` takes.
pub open spec fn fit(patterns: Seq<Seq<char>>) -> bool {
    &&& total_chars(patterns) <= MAX_GLOB_CHARS
    &&& forall|i: int| 0 <= i < patterns.len() ==> nesting(#[trigger] patterns[i]) <= MAX_NESTING
}

/// Calls `GlobSetBuilder::new`: a builder without patterns.
#[verifier::external_body]
fn new_builder() -> (b: GlobSetBuilder)
    ensures
        builder_globs(b) == Seq::<Seq<char>>::empty(),
{
    GlobSetBuilder::new()
}

/// Calls `Glob::new` with the pattern and, where that is a glob, hands it to
/// `GlobSetBuilder::add`, which puts it after the others. Which patterns are
/// globs is named, not described.
#[verifier::external_body]
fn add_glob(b: &mut GlobSetBuilder, pattern: &str) -> (r: Result<(), String>)
    requires
        nesting(pattern@) <= MAX_NESTING,
    ensures
        r is Ok <==> glob_error(pattern@) is None,
        r is Ok ==> builder_globs(*final(b)) == builder_globs(*old(b)).push(pattern@),
        r is Err ==> builder_globs(*final(b)) == builder_globs(*old(b)),
        r is Err ==> r->Err_0@ == glob_error(pattern@)->0,
{
    let glob = globset::Glob::new(pattern).map_err(|e| e.to_string())?;
    b.add(glob);
    Ok(())
}

/// Calls `GlobSetBuilder::build`: a set of the builder's patterns. It may be
/// refused where the compiled patterns take too much memory; when that is so
/// depends on the machine and is left unsaid.
#[verifier::external_body]
fn build_set(b: &GlobSetBuilder) -> (r: Result<GlobSet, String>)
    requires
        total_chars(builder_globs(*b)) <= MAX_GLOB_CHARS,
    ensures
        r is Ok ==> set_globs(r->Ok_0) == builder_globs(*b),
{
    b.build().map_err(|e| e.to_string())
}

/// Some pattern matches the key.
pub open spec fn any_matches(patterns: Seq<Seq<char>>, key: Seq<char>) -> bool {
    exists|i: int| 0 <= i < patterns.len() && glob_matches(#[trigger] patterns[i], key)
}

/// Calls `GlobSet::is_match`, which is true if any glob in the set matches.
/// When a glob matches is named, not described.
#[verifier::external_body]
fn set_matches(s: &GlobSet, key: &str) -> (r: bool)
    ensures
        r == (exists|i: int|
            0 <= i < set_globs(*s).len() && glob_matches(#[trigger] set_globs(*s)[i], key@)),
{
    s.is_match(key)
}

/// Why the patterns make no set.
#[derive(Debug, Clone, PartialEq, Eq)]
pub enum GlobsError {
    /// A pattern that is no glob, and the parser's words.
    Invalid { pattern: String, error: String },
    /// The patterns cannot be compiled together.
    Build(String),
}

impl GlobsError {
    /// The message of the error.
    pub open spec fn words(&self) -> Seq<char> {
        match self {
            GlobsError::Invalid { pattern, error } => "invalid --exclude glob: "@ + pattern@
                + ": "@ + error@,
            GlobsError::Build(error) => "build globset: "@ + error@,
        }
    }

    /// The message of the error.
    pub fn message(&self) -> (r: String)
        ensures
            r@ == self.words(),
    {
        let mut r = String::new();
        match self {
            GlobsError::Invalid { pattern, error } => {
                r.append("invalid --exclude glob: ");
                r.append(pattern.as_str());
                r.append(": ");
                r.append(error.as_str());
            },
            GlobsError::Build(error) => {
                r.append("build globset: ");
                r.append(error.as_str());
            },
        }
        assert(r@ =~= self.words());
        r
    }
}

/// Whether the patterns are of a size that `globset` takes.
pub fn globs_fit(patterns: &Vec<String>) -> (r: bool)
    ensures
        r == fit(text::texts(patterns@)),
{
    let ghost all = text::texts(patterns@);
    let mut total: usize = 0;
    let mut i: usize = 0;
    while i < patterns.len()
        invariant
            0 <= i <= patterns@.len(),
            all == text::texts(patterns@),
            total == total_chars(all.take(i as int)),
            total <= MAX_GLOB_CHARS,
            forall|j: int| 0 <= j < i ==> nesting(#[trigger] all[j]) <= MAX_NESTING,
        decreases patterns@.len() - i,
    {
        let x = text::chars_of(patterns[i].as_str());
        proof {
            assert(all[i as int] == x@);
            assert(all.take(i + 1).drop_last() =~= all.take(i as int));
            lemma_total_grows(all, i + 1);
        }
        if x.len() > MAX_GLOB_CHARS - total {
            return false;
        }
        total = total + x.len();
        if nesting_of(&x) > MAX_NESTING {
            return false;
        }
        i = i + 1;
    }
    assert(all.take(all.len() as int) =~= all);
    true
}

/// How deep the groups of a pattern nest at most.
fn nesting_of(x: &Vec<char>) -> (n: usize)
    ensures
        n == nesting(x@),
{
    let ghost brace = |c: char| c == '{';
    let mut opening: usize = 0;
    let mut open: usize = 0;
    let mut most: usize = 0;
    let mut special = false;
    let mut i: usize = 0;
    assert(x@.take(0).filter(brace).len() == 0) by {
        reveal(Seq::filter);
    }
    while i < x.len()
        invariant
            0 <= i <= x@.len(),
            opening <= i,
            open <= i,
            brace == |c: char| c == '{',
            opening == x@.take(i as int).filter(brace).len(),
            open == open_groups(x@.take(i as int)),
            most == deepest(x@.take(i as int)),
            special <==> exists|j: int|
                0 <= j < i && (#[trigger] x@[j] == '[' || x@[j] == '\\'),
        decreases x@.len() - i,
    {
        let c: char = x[i];
        proof {
            reveal(Seq::filter);
            assert(x@.take(i + 1).drop_last() =~= x@.take(i as int));
            assert(x@.take(i + 1).last() == c);
        }
        if c == '[' || c == '\\' {
            special = true;
            assert(x@[i as int] == c);
        }
        if c == '{' {
            opening = opening + 1;
            open = open + 1;
        } else if c == '}' && open > 0 {
            open = open - 1;
        }
        if open > most {
            most = open;
        }
        i = i + 1;
    }
    assert(x@.take(x@.len() as int) =~= x@);
    if special {
        opening
    } else {
        most
    }
}

/// The first patterns have no more characters than all of them.
proof fn lemma_total_grows(patterns: Seq<Seq<char>>, i: int)
    requires
        0 <= i <= patterns.len(),
    ensures
        total_chars(patterns.take(i)) <= total_chars(patterns),
    decreases patterns.len() - i,
{
    if i == patterns.len() {
        assert(patterns.take(i) =~= patterns);
    } else {
        lemma_total_grows(patterns, i + 1);
        assert(patterns.take(i + 1).drop_last() =~= patterns.take(i));
    }
}

/// The place of the first pattern that is no glob; the number of patterns
/// where all are.
pub open spec fn first_invalid(patterns: Seq<Seq<char>>) -> int
    decreases patterns.len(),
{
    if patterns.len() == 0 {
        0
    } else {
        let before = first_invalid(patterns.drop_last());
        if before < patterns.len() - 1 {
            before
        } else if glob_error(patterns.last()) is Some {
            patterns.len() - 1
        } else {
            patterns.len() as int
        }
    }
}

/// The set of the patterns, `None` for no patterns. The first pattern that is
/// no glob is an error that names it.
pub fn build_globset(patterns: &Vec<String>) -> (r: Result<Option<GlobSet>, GlobsError>)
    requires
        fit(text::texts(patterns@)),
    ensures
        patterns@.len() == 0 ==> r == Ok::<Option<GlobSet>, GlobsError>(None),
        ({
            let all = text::texts(patterns@);
            let bad = first_invalid(all);
            if bad < all.len() {
                r matches Err(GlobsError::Invalid { pattern, error }) && pattern@ == all[bad]
                    && error@ == glob_error(all[bad])->0
            } else {
                patterns@.len() > 0 ==> match r {
                    Ok(Some(set)) => set_globs(set) == all,
                    Ok(None) => false,
                    Err(e) => e is Build,
                }
            }
        }),
{
    if patterns.len() == 0 {
        return Ok(None);
    }
    let ghost all = text::texts(patterns@);
    let mut b = new_builder();
    let mut i: usize = 0;
    assert(all.take(0) =~= Seq::<Seq<char>>::empty());
    while i < patterns.len()
        invariant
            0 <= i <= patterns@.len(),
            all == text::texts(patterns@),
            fit(all),
            builder_globs(b) == all.take(i as int),
            first_invalid(all.take(i as int)) == i,
        decreases patterns@.len() - i,
    {
        proof {
            assert(all[i as int] == patterns@[i as int]@);
            assert(all.take(i + 1).drop_last() =~= all.take(i as int));
            assert(all.take(i + 1) =~= all.take(i as int).push(all[i as int]));
            lemma_first_invalid(all, i + 1);
        }
        match add_glob(&mut b, patterns[i].as_str()) {
            Err(error) => {
                return Err(GlobsError::Invalid { pattern: patterns[i].clone(), error });
            },
            Ok(()) => {},
        }
        i = i + 1;
    }
    assert(all.take(all.len() as int) =~= all);
    match build_set(&b) {
        Err(error) => Err(GlobsError::Build(error)),
        Ok(set) => Ok(Some(set)),
    }
}

/// An invalid pattern among the first ones is the first of all.
proof fn lemma_first_invalid(patterns: Seq<Seq<char>>, i: int)
    requires
        0 <= i <= patterns.len(),
    ensures
        first_invalid(patterns.take(i)) < i ==> first_invalid(patterns) == first_invalid(
            patterns.take(i),
        ),
    decreases patterns.len() - i,
{
    if i == patterns.len() {
        assert(patterns.take(i) =~= patterns);
    } else {
        lemma_first_invalid(patterns, i + 1);
        assert(patterns.take(i + 1).drop_last() =~= patterns.take(i));
    }
}

/// What the set excludes: nothing without a set.
pub open spec fn excluded(set: Option<GlobSet>, key: Seq<char>) -> bool {
    set is Some && any_matches(set_globs(set->0), key)
}

/// Whether the set excludes the key: any pattern that matches does.
pub fn excludes(set: &Option<GlobSet>, key: &str) -> (r: bool)
    ensures
        r == excluded(*set, key@),
{
    match set {
        None => false,
        Some(set) => set_matches(set, key),
    }
}

/// More patterns never exclude less: a key that some of the patterns exclude,
/// all of them together exclude.
pub proof fn more_patterns_exclude_more(
    patterns: Seq<Seq<char>>,
    more: Seq<Seq<char>>,
    key: Seq<char>,
)
    ensures
        any_matches(patterns + more, key) <==> any_matches(patterns, key) || any_matches(more, key),
{
    let all = patterns + more;
    if any_matches(all, key) {
        let i = choose|i: int| 0 <= i < all.len() && glob_matches(#[trigger] all[i], key);
        if i < patterns.len() {
            assert(glob_matches(patterns[i], key));
        } else {
            assert(glob_matches(more[i - patterns.len()], key));
        }
    }
    if any_matches(patterns, key) {
        let i = choose|i: int|
            0 <= i < patterns.len() && glob_matches(#[trigger] patterns[i], key);
        assert(glob_matches(all[i], key));
    }
    if any_matches(more, key) {
        let i = choose|i: int| 0 <= i < more.len() && glob_matches(#[trigger] more[i], key);
        assert(glob_matches(all[i + patterns.len()], key));
    }
}

/// The first pattern that is no glob is named: none before it is refused, and
/// it is; where none is, that is the number of patterns.
pub proof fn the_first_invalid_pattern_is_found(patterns: Seq<Seq<char>>)
    ensures
        0 <= first_invalid(patterns) <= patterns.len(),
        forall|i: int|
            0 <= i < first_invalid(patterns) ==> glob_error(#[trigger] patterns[i]) is None,
        first_invalid(patterns) < patterns.len() ==> glob_error(
            patterns[first_invalid(patterns)],
        ) is Some,
    decreases patterns.len(),
{
    if patterns.len() > 0 {
        let front = patterns.drop_last();
        the_first_invalid_pattern_is_found(front);
        let n = first_invalid(patterns);
        assert forall|i: int| 0 <= i < n implies glob_error(#[trigger] patterns[i]) is None by {
            if i < front.len() {
                assert(front[i] == patterns[i]);
            }
        }
        if n < front.len() {
            assert(front[n] == patterns[n]);
        }
    }
}

/// A key is excluded exactly when there is a set and one of its patterns
/// matches.
pub proof fn a_matching_pattern_excludes(set: Option<GlobSet>, key: Seq<char>, i: int)
    ensures
        set is None ==> !excluded(set, key),
        set is Some && 0 <= i < set_globs(set->0).len() && glob_matches(set_globs(set->0)[i], key)
            ==> excluded(set, key),
        set is Some && excluded(set, key) ==> exists|j: int|
            0 <= j < set_globs(set->0).len() && glob_matches(#[trigger] set_globs(set->0)[j], key),
{
}

/// Patterns without groups are of a size that `globset` takes up to sixteen
/// mebi characters together; a pattern adds its length.
pub proof fn plain_patterns_fit(patterns: Seq<Seq<char>>, more: Seq<char>)
    requires
        forall|i: int| 0 <= i < patterns.len() ==> !(#[trigger] patterns[i]).contains('{'),
    ensures
        fit(patterns) <==> total_chars(patterns) <= 16 * 1024 * 1024,
        total_chars(Seq::empty()) == 0,
        total_chars(patterns.push(more)) == total_chars(patterns) + more.len(),
{
    assert(patterns.push(more).drop_last() =~= patterns);
    assert forall|i: int| 0 <= i < patterns.len() implies nesting(#[trigger] patterns[i]) == 0 by {
        lemma_no_groups(patterns[i]);
    }
}

/// Patterns of up to a thousand opening braces each are of a size that `globset`
/// takes, up to sixteen mebi characters together.
pub proof fn patterns_of_few_groups_fit(patterns: Seq<Seq<char>>)
    requires
        forall|i: int|
            0 <= i < patterns.len() ==> (#[trigger] patterns[i]).filter(|c: char| c == '{').len()
                <= 1000,
    ensures
        fit(patterns) <==> total_chars(patterns) <= 16 * 1024 * 1024,
{
    assert forall|i: int| 0 <= i < patterns.len() implies nesting(#[trigger] patterns[i])
        <= 1000 by {
        lemma_groups_are_opened(patterns[i]);
        assert(braces(patterns[i]) <= 1000);
    }
}

/// No more groups nest than are opened.
proof fn lemma_groups_are_opened(p: Seq<char>)
    ensures
        open_groups(p) <= braces(p),
        deepest(p) <= braces(p),
    decreases p.len(),
{
    reveal(Seq::filter);
    if p.len() > 0 {
        lemma_groups_are_opened(p.drop_last());
    }
}

/// A pattern without an opening brace has no groups.
proof fn lemma_no_groups(p: Seq<char>)
    requires
        !p.contains('{'),
    ensures
        braces(p) == 0,
        open_groups(p) == 0,
        deepest(p) == 0,
    decreases p.len(),
{
    reveal(Seq::filter);
    if p.len() > 0 {
        let front = p.drop_last();
        assert(p[p.len() - 1] == p.last());
        assert(p.last() != '{');
        assert(!front.contains('{')) by {
            if front.contains('{') {
                let i = choose|i: int| 0 <= i < front.len() && front[i] == '{';
                assert(p[i] == '{');
            }
        }
        lemma_no_groups(front);
    }
}

/// The message names the pattern and gives the error last.
pub proof fn pattern_errors_name_the_pattern(e: GlobsError)
    ensures
        match e {
            GlobsError::Invalid { pattern, error } => {
                &&& text::holds(e.words(), pattern@)
                &&& e.words().skip(e.words().len() - error@.len()) == error@
            },
            GlobsError::Build(error) => e.words().skip(e.words().len() - error@.len()) == error@,
        },
{
    match e {
        GlobsError::Invalid { pattern, error } => {
            let head = "invalid --exclude glob: "@;
            text::texts_hold_what_is_inside(e.words(), pattern@, head, ": "@ + error@);
            assert(e.words() =~= head + pattern@ + (": "@ + error@));
            assert(e.words().skip(e.words().len() - error@.len()) =~= error@);
        },
        GlobsError::Build(error) => {
            assert(e.words().skip(e.words().len() - error@.len()) =~= error@);
        },
    }
}

} // verus!
