//! The destination of a copy.
use vstd::prelude::*;
use crate::text;

verus! {

/// A bucket, and the directory in it that a copy goes to.
#[derive(Debug, Clone, PartialEq, Eq)]
pub struct BucketRef {
    pub org: String,
    pub name: String,
    /// The directory; empty for the bucket's root.
    pub path: String,
}

/// The scheme that a destination may begin with.
pub open spec fn scheme() -> Seq<char> {
    "hf://buckets/"@
}

/// `s` without the scheme.
pub open spec fn bare(s: Seq<char>) -> Seq<char> {
    match text::after_prefix(s, scheme()) {
        Some(rest) => rest,
        None => s,
    }
}

/// What precedes the first `c` in `s`, and what follows it.
pub open spec fn split_once(s: Seq<char>, c: char) -> Option<(Seq<char>, Seq<char>)>
    decreases s.len(),
{
    if s.len() == 0 {
        None
    } else if s[0] == c {
        Some((Seq::empty(), s.drop_first()))
    } else {
        match split_once(s.drop_first(), c) {
            None => None,
            Some((head, tail)) => Some((seq![s[0]] + head, tail)),
        }
    }
}

/// What precedes the first `c` in `s`, and what follows it.
pub fn split_at_first(s: &str, c: char) -> (r: Option<(String, String)>)
    ensures
        r is Some <==> split_once(s@, c) is Some,
        r is Some ==> ((r->0).0@, (r->0).1@) == split_once(s@, c)->0,
{
    let x = text::chars_of(s);
    let mut i: usize = 0;
    assert(x@.skip(0) =~= x@);
    assert(x@.take(0) =~= Seq::empty());
    while i < x.len()
        invariant
            0 <= i <= x@.len(),
            x@ == s@,
            split_once(s@, c) == match split_once(x@.skip(i as int), c) {
                None => None,
                Some((head, tail)) => Some((x@.take(i as int) + head, tail)),
            },
        decreases x@.len() - i,
    {
        let ghost rest = x@.skip(i as int);
        assert(rest[0] == x@[i as int]);
        assert(rest.drop_first() =~= x@.skip(i + 1));
        if x[i] == c {
            let head = text::text_of(&x, 0, i);
            let tail = text::text_of(&x, i + 1, x.len());
            assert(head@ =~= x@.take(i as int) + Seq::<char>::empty());
            assert(tail@ =~= x@.skip(i + 1));
            return Some((head, tail));
        }
        proof {
            if let Some((head, tail)) = split_once(x@.skip(i + 1), c) {
                assert(x@.take(i as int) + (seq![x@[i as int]] + head) =~= x@.take(i + 1) + head);
            }
        }
        i = i + 1;
    }
    assert(x@.skip(i as int) =~= Seq::empty());
    None
}

/// The destination that `s` names: organisation, bucket, and the directory
/// after them.
pub open spec fn parsed(s: Seq<char>) -> Option<(Seq<char>, Seq<char>, Seq<char>)> {
    match split_once(bare(s), '/') {
        None => None,
        Some((org, rest)) => match split_once(rest, '/') {
            None => Some((org, rest, Seq::empty())),
            Some((name, path)) => Some((org, name, path)),
        },
    }
}

/// A destination as `org/name` or `hf://buckets/org/name`, with a directory
/// after it or none.
pub fn parse_dest(s: &str) -> (r: Result<BucketRef, String>)
    ensures
        r is Ok <==> parsed(s@) is Some,
        r is Ok ==> (r->Ok_0.org@, r->Ok_0.name@, r->Ok_0.path@) == parsed(s@)->0,
        r is Err ==> r->Err_0@
            == "bucket dest must be org/name or hf://buckets/org/name, got: "@ + bare(s@),
{
    let rest: String = match text::strip_prefix(s, "hf://buckets/") {
        Some(rest) => rest,
        None => s.to_owned(),
    };
    match split_at_first(rest.as_str(), '/') {
        None => {
            let mut words = String::new();
            words.append("bucket dest must be org/name or hf://buckets/org/name, got: ");
            words.append(rest.as_str());
            assert(words@ =~= "bucket dest must be org/name or hf://buckets/org/name, got: "@
                + bare(s@));
            Err(words)
        },
        Some((org, rest)) => match split_at_first(rest.as_str(), '/') {
            None => {
                let path = String::new();
                assert(path@ =~= Seq::empty());
                Ok(BucketRef { org, name: rest, path })
            },
            Some((name, path)) => Ok(BucketRef { org, name, path }),
        },
    }
}

impl BucketRef {
    /// The bucket's name in the API.
    pub open spec fn ident(&self) -> Seq<char> {
        self.org@ + seq!['/'] + self.name@
    }

    /// The destination as a command-line argument.
    pub open spec fn address(&self) -> Seq<char> {
        let root = scheme() + self.ident();
        if self.path@.len() == 0 {
            root
        } else {
            root + seq!['/'] + self.path@
        }
    }

    /// The bucket's name in the API.
    pub fn id(&self) -> (r: String)
        ensures
            r@ == self.ident(),
    {
        let mut r = self.org.clone();
        r.push('/');
        r.append(self.name.as_str());
        assert(r@ =~= self.ident());
        r
    }

    /// The destination as a command-line argument.
    pub fn uri(&self) -> (r: String)
        ensures
            r@ == self.address(),
    {
        let mut r = String::new();
        r.append("hf://buckets/");
        r.append(self.id().as_str());
        if !self.path.as_str().is_empty() {
            r.push('/');
            r.append(self.path.as_str());
        }
        assert(r@ =~= self.address());
        r
    }
}

/// Splitting finds the first separator.
proof fn lemma_split_joined(head: Seq<char>, c: char, tail: Seq<char>)
    requires
        !head.contains(c),
    ensures
        split_once(head + seq![c] + tail, c) == Some((head, tail)),
    decreases head.len(),
{
    let s = head + seq![c] + tail;
    if head.len() == 0 {
        assert(s.drop_first() =~= tail);
        assert(head =~= Seq::empty());
    } else {
        assert(head[0] != c) by {
            assert(head.contains(head[0]));
        }
        let rest = head.drop_first();
        assert forall|x: char| rest.contains(x) implies head.contains(x) by {
            let i = choose|i: int| 0 <= i < rest.len() && rest[i] == x;
            assert(head[i + 1] == x);
        }
        lemma_split_joined(rest, c, tail);
        assert(s.drop_first() =~= rest + seq![c] + tail);
        assert(seq![s[0]] + rest =~= head);
    }
}

/// A text without the separator is not split.
proof fn lemma_split_none(s: Seq<char>, c: char)
    requires
        !s.contains(c),
    ensures
        split_once(s, c) is None,
    decreases s.len(),
{
    if s.len() > 0 {
        assert(s.contains(s[0]));
        let rest = s.drop_first();
        assert forall|x: char| rest.contains(x) implies s.contains(x) by {
            let i = choose|i: int| 0 <= i < rest.len() && rest[i] == x;
            assert(s[i + 1] == x);
        }
        lemma_split_none(rest, c);
    }
}

/// A destination printed as an argument parses to itself: the re-run command
/// names the destination of the run.
pub proof fn printed_destinations_parse(b: BucketRef)
    requires
        !b.org@.contains('/'),
        !b.name@.contains('/'),
    ensures
        parsed(b.address()) == Some((b.org@, b.name@, b.path@)),
{
    let rest = b.address().skip(scheme().len() as int);
    assert(b.address().subrange(0, scheme().len() as int) =~= scheme());
    let tail = if b.path@.len() == 0 {
        b.name@
    } else {
        b.name@ + seq!['/'] + b.path@
    };
    assert(rest =~= b.org@ + seq!['/'] + tail);
    lemma_split_joined(b.org@, '/', tail);
    if b.path@.len() == 0 {
        lemma_split_none(b.name@, '/');
        assert(b.path@ =~= Seq::empty());
    } else {
        lemma_split_joined(b.name@, '/', b.path@);
    }
}

/// A text is split at the first separator: what precedes it holds none, and
/// the parts and the separator are the text. A text without one is not split.
pub proof fn texts_are_split_at_the_first(s: Seq<char>, c: char)
    ensures
        split_once(s, c) is None <==> !s.contains(c),
        split_once(s, c) is Some ==> {
            let (head, tail) = split_once(s, c)->0;
            s == head + seq![c] + tail && !head.contains(c)
        },
    decreases s.len(),
{
    if !s.contains(c) {
        lemma_split_none(s, c);
    } else if s[0] == c {
        assert(s =~= Seq::<char>::empty() + seq![c] + s.drop_first());
    } else {
        let rest = s.drop_first();
        let i = choose|i: int| 0 <= i < s.len() && s[i] == c;
        assert(rest[i - 1] == c);
        texts_are_split_at_the_first(rest, c);
        let (head, tail) = split_once(rest, c)->0;
        let longer = seq![s[0]] + head;
        assert(rest == head + seq![c] + tail);
        assert(s =~= seq![s[0]] + rest);
        assert(s =~= longer + seq![c] + tail);
        assert(!longer.contains(c)) by {
            if longer.contains(c) {
                let k = choose|k: int| 0 <= k < longer.len() && longer[k] == c;
                assert(head[k - 1] == c);
            }
        }
    }
}

/// A destination is an organisation, a slash and a bucket, and, after another
/// slash, a directory; the scheme before it changes nothing.
pub proof fn destinations_are_read(org: Seq<char>, name: Seq<char>, path: Seq<char>, s: Seq<char>)
    requires
        !org.contains('/'),
        !name.contains('/'),
        s == org + seq!['/'] + name || s == org + seq!['/'] + name + seq!['/'] + path,
        !"hf://buckets/"@.is_prefix_of(s),
    ensures
        s == org + seq!['/'] + name ==> parsed(s) == Some((org, name, Seq::<char>::empty())),
        s == org + seq!['/'] + name + seq!['/'] + path ==> parsed(s) == Some((org, name, path)),
        parsed("hf://buckets/"@ + s) == parsed(s),
{
    text::parts_are_taken_off("hf://buckets/"@, s);
    if s == org + seq!['/'] + name {
        lemma_split_joined(org, '/', name);
        lemma_split_none(name, '/');
    }
    if s == org + seq!['/'] + name + seq!['/'] + path {
        let rest = name + seq!['/'] + path;
        assert(s =~= org + seq!['/'] + rest);
        lemma_split_joined(org, '/', rest);
        lemma_split_joined(name, '/', path);
    }
}

/// What is no destination has no slash after the scheme.
pub proof fn only_slashes_make_a_destination(s: Seq<char>)
    ensures
        !"hf://buckets/"@.is_prefix_of(s) ==> (parsed(s) is None <==> !s.contains('/')),
        parsed("hf://buckets/"@ + s) is None <==> !s.contains('/'),
{
    text::parts_are_taken_off("hf://buckets/"@, s);
    texts_are_split_at_the_first(s, '/');
}

/// The bucket's name in the API is its organisation, a slash and its name, as
/// a destination without a directory is written.
pub proof fn bucket_names_parse(b: BucketRef)
    requires
        !b.org@.contains('/'),
        !b.name@.contains('/'),
        !"hf://buckets/"@.is_prefix_of(b.org@ + seq!['/'] + b.name@),
    ensures
        parsed(b.ident()) == Some((b.org@, b.name@, Seq::<char>::empty())),
        b.address().take("hf://buckets/"@.len() as int) == "hf://buckets/"@,
        b.path@.len() == 0 ==> b.address() == "hf://buckets/"@ + b.ident(),
        b.path@.len() > 0 ==> b.address() == "hf://buckets/"@ + b.ident() + seq!['/'] + b.path@,
{
    destinations_are_read(b.org@, b.name@, Seq::empty(), b.org@ + seq!['/'] + b.name@);
    assert(b.address().take("hf://buckets/"@.len() as int) =~= "hf://buckets/"@);
}

} // verus!
