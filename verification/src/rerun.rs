//! The command that copies one range again.
use vstd::prelude::*;
use crate::dest::BucketRef;
use crate::sync;
use crate::text;
use crate::verify::{PlannedRange, Source};

verus! {

// ---------------------------------------------------------------------------
// Quoting
// ---------------------------------------------------------------------------
/// The character needs no quotes: an ASCII letter or digit, or one of
/// `-_./=:@%+,`.
pub open spec fn plain_char(c: char) -> bool {
    let n = c as int;
    ||| 48 <= n <= 57
    ||| 65 <= n <= 90
    ||| 97 <= n <= 122
    ||| c == '-' || c == '_' || c == '.' || c == '/' || c == '=' || c == ':' || c == '@' || c == '%'
        || c == '+' || c == ','
}

/// The text needs no quotes.
pub open spec fn plain(s: Seq<char>) -> bool {
    s.len() > 0 && forall|i: int| 0 <= i < s.len() ==> plain_char(#[trigger] s[i])
}

/// The text with each single quote made to end the quotes, stand by itself
/// and begin them again.
pub open spec fn escaped(s: Seq<char>) -> Seq<char>
    decreases s.len(),
{
    if s.len() == 0 {
        Seq::empty()
    } else if s.last() == '\'' {
        escaped(s.drop_last()) + seq!['\'', '\\', '\'', '\'']
    } else {
        escaped(s.drop_last()).push(s.last())
    }
}

/// The text as one word for a POSIX shell: in single quotes where it needs
/// them.
pub open spec fn shell_quoted(s: Seq<char>) -> Seq<char> {
    if plain(s) {
        s
    } else {
        seq!['\''] + escaped(s) + seq!['\'']
    }
}

/// Whether the character needs no quotes.
fn is_plain(c: char) -> (r: bool)
    ensures
        r == plain_char(c),
{
    ('0' <= c && c <= '9') || ('A' <= c && c <= 'Z') || ('a' <= c && c <= 'z') || c == '-' || c
        == '_' || c == '.' || c == '/' || c == '=' || c == ':' || c == '@' || c == '%' || c == '+'
        || c == ','
}

/// The text as one word for a POSIX shell.
pub fn sh_quote(s: &str) -> (r: String)
    ensures
        r@ == shell_quoted(s@),
{
    let x = text::chars_of(s);
    let mut all_plain = x.len() > 0;
    let mut quoted = String::new();
    quoted.push('\'');
    let mut i: usize = 0;
    assert(quoted@ =~= seq!['\''] + escaped(x@.take(0)));
    while i < x.len()
        invariant
            0 <= i <= x@.len(),
            all_plain == (x@.len() > 0 && forall|j: int|
                0 <= j < i ==> plain_char(#[trigger] x@[j])),
            quoted@ == seq!['\''] + escaped(x@.take(i as int)),
        decreases x@.len() - i,
    {
        let c: char = x[i];
        assert(x@.take(i + 1).drop_last() =~= x@.take(i as int));
        assert(x@.take(i + 1).last() == c);
        if !is_plain(c) {
            all_plain = false;
        }
        if c == '\'' {
            quoted.push('\'');
            quoted.push('\\');
            quoted.push('\'');
            quoted.push('\'');
        } else {
            quoted.push(c);
        }
        assert(quoted@ =~= seq!['\''] + escaped(x@.take(i + 1)));
        i = i + 1;
    }
    assert(x@.take(x@.len() as int) =~= x@);
    if all_plain {
        s.to_owned()
    } else {
        quoted.push('\'');
        assert(quoted@ =~= shell_quoted(s@));
        quoted
    }
}

/// What a POSIX shell makes of a line, with `words` complete and `cur` begun:
/// single quotes keep what is between them, a backslash outside of them keeps
/// the next character, a space ends a word, and plain characters stand for
/// themselves. `None` where quotes stay open or another character stands
/// unquoted.
pub open spec fn shell_words(
    s: Seq<char>,
    inside: bool,
    cur: Seq<char>,
    words: Seq<Seq<char>>,
) -> Option<Seq<Seq<char>>>
    decreases s.len(),
{
    if s.len() == 0 {
        if inside {
            None
        } else {
            Some(words.push(cur))
        }
    } else if inside {
        if s[0] == '\'' {
            shell_words(s.drop_first(), false, cur, words)
        } else {
            shell_words(s.drop_first(), true, cur.push(s[0]), words)
        }
    } else if s[0] == '\'' {
        shell_words(s.drop_first(), true, cur, words)
    } else if s[0] == '\\' {
        if s.len() >= 2 {
            shell_words(s.skip(2), false, cur.push(s[1]), words)
        } else {
            None
        }
    } else if s[0] == ' ' {
        shell_words(s.drop_first(), false, Seq::empty(), words.push(cur))
    } else if plain_char(s[0]) {
        shell_words(s.drop_first(), false, cur.push(s[0]), words)
    } else {
        None
    }
}

/// The words that a POSIX shell reads in a line.
pub open spec fn shell_line(s: Seq<char>) -> Option<Seq<Seq<char>>> {
    shell_words(s, false, Seq::empty(), Seq::empty())
}

/// Within quotes, the escaped text stands for the text.
proof fn lemma_escaped(s: Seq<char>, rest: Seq<char>, cur: Seq<char>, words: Seq<Seq<char>>)
    ensures
        shell_words(escaped(s) + rest, true, cur, words) == shell_words(
            rest,
            true,
            cur + s,
            words,
        ),
    decreases s.len(),
{
    if s.len() == 0 {
        assert(escaped(s) + rest =~= rest);
        assert(cur + s =~= cur);
    } else {
        let c = s.last();
        let head = s.drop_last();
        assert((cur + head).push(c) =~= cur + s);
        if c == '\'' {
            let tail = seq!['\'', '\\', '\'', '\''] + rest;
            assert(escaped(s) + rest =~= escaped(head) + tail);
            lemma_escaped(head, tail, cur, words);
            let one = tail.drop_first();
            let two = one.skip(2);
            assert(one[0] == '\\' && one[1] == '\'');
            assert(two =~= seq!['\''] + rest);
            assert(two.drop_first() =~= rest);
            assert(shell_words(two, false, cur + s, words) == shell_words(
                rest,
                true,
                cur + s,
                words,
            ));
            assert(shell_words(one, false, cur + head, words) == shell_words(
                two,
                false,
                cur + s,
                words,
            ));
        } else {
            let tail = seq![c] + rest;
            assert(escaped(s) + rest =~= escaped(head) + tail);
            lemma_escaped(head, tail, cur, words);
            assert(tail.drop_first() =~= rest);
        }
    }
}

/// Plain text stands for itself.
proof fn lemma_plain(s: Seq<char>, rest: Seq<char>, cur: Seq<char>, words: Seq<Seq<char>>)
    requires
        forall|i: int| 0 <= i < s.len() ==> plain_char(#[trigger] s[i]),
    ensures
        shell_words(s + rest, false, cur, words) == shell_words(rest, false, cur + s, words),
    decreases s.len(),
{
    if s.len() > 0 {
        let tail = s.drop_first();
        assert forall|i: int| 0 <= i < tail.len() implies plain_char(#[trigger] tail[i]) by {
            assert(tail[i] == s[i + 1]);
        }
        assert(plain_char(s[0]));
        lemma_plain(tail, rest, cur.push(s[0]), words);
        assert((s + rest).drop_first() =~= tail + rest);
        assert(cur.push(s[0]) + tail =~= cur + s);
    } else {
        assert(s + rest =~= rest);
        assert(cur + s =~= cur);
    }
}

/// A quoted text stands for the text.
proof fn lemma_quoted(s: Seq<char>, rest: Seq<char>, cur: Seq<char>, words: Seq<Seq<char>>)
    ensures
        shell_words(shell_quoted(s) + rest, false, cur, words) == shell_words(
            rest,
            false,
            cur + s,
            words,
        ),
{
    if plain(s) {
        lemma_plain(s, rest, cur, words);
    } else {
        let close = seq!['\''] + rest;
        let line = shell_quoted(s) + rest;
        assert(line.drop_first() =~= escaped(s) + close);
        lemma_escaped(s, close, cur, words);
        assert(close.drop_first() =~= rest);
    }
}

/// The list with each text quoted.
pub open spec fn all_quoted(list: Seq<Seq<char>>) -> Seq<Seq<char>> {
    list.map_values(|s: Seq<char>| shell_quoted(s))
}

/// Quoted texts with a space between neighbours: the last is begun, the others
/// are complete.
proof fn lemma_joined(list: Seq<Seq<char>>, rest: Seq<char>)
    requires
        list.len() > 0,
    ensures
        shell_words(
            text::joined(all_quoted(list), " "@) + rest,
            false,
            Seq::empty(),
            Seq::empty(),
        ) == shell_words(rest, false, list.last(), list.drop_last()),
    decreases list.len(),
{
    reveal_strlit(" ");
    let quoted = all_quoted(list);
    let none = Seq::<char>::empty();
    let last = list.last();
    assert(quoted.last() == shell_quoted(last));
    assert(none + last =~= last);
    if list.len() == 1 {
        lemma_quoted(last, rest, none, Seq::empty());
        assert(list.drop_last() =~= Seq::empty());
    } else {
        let front = list.drop_last();
        let tail = " "@ + (shell_quoted(last) + rest);
        assert(quoted.drop_last() =~= all_quoted(front));
        assert(text::joined(quoted, " "@) + rest =~= text::joined(all_quoted(front), " "@) + tail);
        lemma_joined(front, tail);
        assert(tail[0] == ' ');
        assert(tail.drop_first() =~= shell_quoted(last) + rest);
        assert(front.drop_last().push(front.last()) =~= front);
        lemma_quoted(last, rest, none, front);
    }
}

/// The shell reads quoted texts, with a space between neighbours, as the
/// texts, whatever is in them.
pub proof fn the_shell_reads_the_texts_back(list: Seq<Seq<char>>)
    requires
        list.len() > 0,
    ensures
        shell_line(text::joined(all_quoted(list), " "@)) == Some(list),
{
    let line = text::joined(all_quoted(list), " "@);
    let none = Seq::<char>::empty();
    lemma_joined(list, none);
    assert(line + none =~= line);
    assert(list.drop_last().push(list.last()) =~= list);
}

// ---------------------------------------------------------------------------
// The command
// ---------------------------------------------------------------------------
/// A flag and its value, where there is one.
pub open spec fn optional_flag(flag: Seq<char>, value: Option<String>) -> Seq<Seq<char>> {
    match value {
        Some(v) => seq![flag, shell_quoted(v@)],
        None => Seq::empty(),
    }
}

/// The exclude flags.
pub open spec fn exclude_flags(globs: Seq<Seq<char>>) -> Seq<Seq<char>>
    decreases globs.len(),
{
    if globs.len() == 0 {
        Seq::empty()
    } else {
        exclude_flags(globs.drop_last()) + seq!["--exclude"@, shell_quoted(globs.last())]
    }
}

/// The words of the command that copies one range again.
pub open spec fn rerun_words(
    source: Source,
    dest: BucketRef,
    range: PlannedRange,
    no_sign_request: bool,
) -> Seq<Seq<char>> {
    seq!["hf-s3ream"@, shell_quoted(source.url@), shell_quoted(dest.address())] + optional_flag(
        "--start-after"@,
        range.start_after,
    ) + optional_flag("--stop-at"@, range.stop_at) + exclude_flags(
        text::texts(source.exclude_globs@),
    ) + seq!["--skip-existing"@] + if no_sign_request {
        seq!["--no-sign-request"@]
    } else {
        Seq::empty()
    }
}

/// A flag and its value, where there is one, as the program receives them.
pub open spec fn optional_arg(flag: Seq<char>, value: Option<String>) -> Seq<Seq<char>> {
    match value {
        Some(v) => seq![flag, v@],
        None => Seq::empty(),
    }
}

/// The arguments of the program when one range is copied again.
pub open spec fn rerun_args(
    source: Source,
    dest: BucketRef,
    range: PlannedRange,
    no_sign_request: bool,
) -> Seq<Seq<char>> {
    seq!["hf-s3ream"@, source.url@, dest.address()] + optional_arg(
        "--start-after"@,
        range.start_after,
    ) + optional_arg("--stop-at"@, range.stop_at) + sync::exclude_args(
        text::texts(source.exclude_globs@),
    ) + seq!["--skip-existing"@] + if no_sign_request {
        seq!["--no-sign-request"@]
    } else {
        Seq::empty()
    }
}

/// The words of the program's own flags need no quotes.
proof fn lemma_flags_plain()
    ensures
        plain("hf-s3ream"@),
        plain("--start-after"@),
        plain("--stop-at"@),
        plain("--exclude"@),
        plain("--skip-existing"@),
        plain("--no-sign-request"@),
{
    reveal_strlit("hf-s3ream");
    reveal_strlit("--start-after");
    reveal_strlit("--stop-at");
    reveal_strlit("--exclude");
    reveal_strlit("--skip-existing");
    reveal_strlit("--no-sign-request");
}

/// The exclude flags quoted are the exclude flags.
proof fn lemma_exclude_quoted(globs: Seq<Seq<char>>)
    ensures
        all_quoted(sync::exclude_args(globs)) == exclude_flags(globs),
    decreases globs.len(),
{
    lemma_flags_plain();
    if globs.len() == 0 {
        assert(all_quoted(sync::exclude_args(globs)) =~= exclude_flags(globs));
    } else {
        lemma_exclude_quoted(globs.drop_last());
        assert(all_quoted(sync::exclude_args(globs)) =~= exclude_flags(globs));
    }
}

/// The printed command does what it says: a shell hands the program the source,
/// the destination, the bounds and the patterns of the run, whatever is in
/// them.
pub proof fn the_command_copies_the_range(
    source: Source,
    dest: BucketRef,
    range: PlannedRange,
    no_sign_request: bool,
)
    ensures
        shell_line(text::joined(rerun_words(source, dest, range, no_sign_request), " "@)) == Some(
            rerun_args(source, dest, range, no_sign_request),
        ),
{
    let args = rerun_args(source, dest, range, no_sign_request);
    lemma_flags_plain();
    lemma_exclude_quoted(text::texts(source.exclude_globs@));
    assert(all_quoted(args) =~= rerun_words(source, dest, range, no_sign_request));
    the_shell_reads_the_texts_back(args);
}

/// Append a word.
fn push_word(argv: &mut Vec<String>, word: String)
    ensures
        text::texts(final(argv)@) == text::texts(old(argv)@).push(word@),
{
    let ghost was = text::texts(argv@);
    argv.push(word);
    assert(text::texts(argv@) =~= was.push(word@));
}

/// Append a flag and its value, where there is one.
fn push_flag(argv: &mut Vec<String>, flag: &str, value: &Option<String>)
    ensures
        text::texts(final(argv)@) == text::texts(old(argv)@) + optional_flag(flag@, *value),
{
    if let Some(v) = value {
        push_word(argv, flag.to_owned());
        push_word(argv, sh_quote(v.as_str()));
    }
    assert(text::texts(argv@) =~= text::texts(old(argv)@) + optional_flag(flag@, *value));
}

/// The command that copies one range again. `--skip-existing` makes it copy
/// only what is missing or short.
pub fn rerun_command(
    source: &Source,
    dest: &BucketRef,
    range: &PlannedRange,
    no_sign_request: bool,
) -> (r: String)
    ensures
        r@ == text::joined(rerun_words(*source, *dest, *range, no_sign_request), " "@),
{
    let mut argv: Vec<String> = Vec::new();
    push_word(&mut argv, "hf-s3ream".to_owned());
    push_word(&mut argv, sh_quote(source.url.as_str()));
    push_word(&mut argv, sh_quote(dest.uri().as_str()));
    push_flag(&mut argv, "--start-after", &range.start_after);
    push_flag(&mut argv, "--stop-at", &range.stop_at);
    let ghost head = text::texts(argv@);
    let ghost globs = text::texts(source.exclude_globs@);
    let mut i: usize = 0;
    assert(head + exclude_flags(globs.take(0)) =~= head);
    while i < source.exclude_globs.len()
        invariant
            0 <= i <= source.exclude_globs@.len(),
            globs == text::texts(source.exclude_globs@),
            text::texts(argv@) == head + exclude_flags(globs.take(i as int)),
        decreases source.exclude_globs@.len() - i,
    {
        push_word(&mut argv, "--exclude".to_owned());
        push_word(&mut argv, sh_quote(source.exclude_globs[i].as_str()));
        assert(globs.take(i + 1).drop_last() =~= globs.take(i as int));
        assert(globs.take(i + 1).last() == source.exclude_globs@[i as int]@);
        assert(text::texts(argv@) =~= head + exclude_flags(globs.take(i + 1)));
        i = i + 1;
    }
    assert(globs.take(globs.len() as int) =~= globs);
    push_word(&mut argv, "--skip-existing".to_owned());
    if no_sign_request {
        push_word(&mut argv, "--no-sign-request".to_owned());
    }
    assert(text::texts(argv@) =~= rerun_words(*source, *dest, *range, no_sign_request));
    text::join(&argv, " ")
}

/// Only letters, digits and ten marks that mean nothing to a shell stand
/// unquoted: no white space, no quote, no wildcard, no other mark.
pub proof fn only_harmless_characters_stand_unquoted(c: char)
    ensures
        plain_char(c) <==> {
            ||| '0' <= c <= '9'
            ||| 'A' <= c <= 'Z'
            ||| 'a' <= c <= 'z'
            ||| seq!['-', '_', '.', '/', '=', ':', '@', '%', '+', ','].contains(c)
        },
        text::is_white_space(c) ==> !plain_char(c),
        seq![
            '\'', '"', '\\', '$', '`', '*', '?', '[', ']', '{', '}', '(', ')', '<', '>', '|', '&',
            ';', '#', '~', '!', '^',
        ].contains(c) ==> !plain_char(c),
{
    let marks = seq!['-', '_', '.', '/', '=', ':', '@', '%', '+', ','];
    assert(marks[0] == '-' && marks[1] == '_' && marks[2] == '.' && marks[3] == '/' && marks[4]
        == '=' && marks[5] == ':' && marks[6] == '@' && marks[7] == '%' && marks[8] == '+'
        && marks[9] == ',');
}

/// The program receives, when a range is copied again: its name, the source and
/// the destination, the bounds that the range has, every pattern, and that it
/// is to skip what exists.
pub proof fn the_rerun_gets_its_range(
    source: Source,
    dest: BucketRef,
    range: PlannedRange,
    no_sign_request: bool,
)
    ensures
        ({
            let args = rerun_args(source, dest, range, no_sign_request);
            let globs = text::texts(source.exclude_globs@);
            let a: int = if range.start_after is Some {
                2
            } else {
                0
            };
            let b: int = if range.stop_at is Some {
                2
            } else {
                0
            };
            let n = 3 + a + b + 2 * globs.len();
            &&& args.len() == n + if no_sign_request {
                2int
            } else {
                1int
            }
            &&& args[0] == "hf-s3ream"@
            &&& args[1] == source.url@
            &&& args[2] == dest.address()
            &&& range.start_after is Some ==> args[3] == "--start-after"@ && args[4]
                == range.start_after->0@
            &&& range.stop_at is Some ==> args[3 + a] == "--stop-at"@ && args[3 + a + 1]
                == range.stop_at->0@
            &&& forall|i: int|
                0 <= i < globs.len() ==> sync::excludes_at(
                    args,
                    3 + a + b + 2 * i,
                    #[trigger] globs[i],
                )
            &&& args[n] == "--skip-existing"@
            &&& no_sign_request ==> args[n + 1] == "--no-sign-request"@
        }),
{
    let args = rerun_args(source, dest, range, no_sign_request);
    let globs = text::texts(source.exclude_globs@);
    let flags = sync::exclude_args(globs);
    let head = seq!["hf-s3ream"@, source.url@, dest.address()] + optional_arg(
        "--start-after"@,
        range.start_after,
    ) + optional_arg("--stop-at"@, range.stop_at);
    let tail = seq!["--skip-existing"@] + if no_sign_request {
        seq!["--no-sign-request"@]
    } else {
        Seq::empty()
    };
    sync::every_pattern_is_excluded(globs);
    assert(args =~= head + flags + tail);
    let at = head.len() as int;
    assert forall|i: int| 0 <= i < globs.len() implies sync::excludes_at(
        args,
        at + 2 * i,
        #[trigger] globs[i],
    ) by {
        assert(sync::excludes_at(flags, 2 * i, globs[i]));
        assert(args[at + 2 * i] == flags[2 * i]);
        assert(args[at + 2 * i + 1] == flags[2 * i + 1]);
    }
    assert(args[at + flags.len()] == tail[0]);
}

/// A word of plain characters is printed as it is; any other, and the empty
/// one, in single quotes.
pub proof fn plain_words_are_printed_as_they_are(s: Seq<char>)
    ensures
        (s.len() > 0 && forall|i: int| 0 <= i < s.len() ==> plain_char(#[trigger] s[i]))
            ==> shell_quoted(s) == s,
        !(s.len() > 0 && forall|i: int| 0 <= i < s.len() ==> plain_char(#[trigger] s[i])) ==> {
            let q = shell_quoted(s);
            &&& q.len() >= 2
            &&& q[0] == '\''
            &&& q.last() == '\''
            &&& q.subrange(1, q.len() - 1) == escaped(s)
        },
{
    if !plain(s) {
        let q = shell_quoted(s);
        assert(q.subrange(1, q.len() - 1) =~= escaped(s));
    }
}

/// Within the quotes every character stands for itself, but a single quote.
pub proof fn only_quotes_are_escaped(s: Seq<char>, c: char)
    ensures
        escaped(Seq::empty()).len() == 0,
        c != '\'' ==> escaped(s.push(c)) == escaped(s).push(c),
        c == '\'' ==> escaped(s.push(c)) == escaped(s) + seq!['\'', '\\', '\'', '\''],
{
    assert(s.push(c).drop_last() =~= s);
}

} // verus!
