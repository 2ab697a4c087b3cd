//! Trimming, splitting and joining of texts.

use vstd::prelude::*;
use vstd::string::*;

use crate::text::{chars_of, text_between};

verus! {

// ---------------------------------------------------------------------------
// Trimming
// ---------------------------------------------------------------------------

/// The Unicode property `White_Space`.
pub open spec fn white_space(c: char) -> bool {
    let n = c as int;
    ||| 0x9 <= n <= 0xd
    ||| n == 0x20
    ||| n == 0x85
    ||| n == 0xa0
    ||| n == 0x1680
    ||| 0x2000 <= n <= 0x200a
    ||| n == 0x2028
    ||| n == 0x2029
    ||| n == 0x202f
    ||| n == 0x205f
    ||| n == 0x3000
}

/// Whether `c` is white space.
pub fn is_white_space(c: char) -> (r: bool)
    ensures
        r == white_space(c),
{
    let n: u32 = c as u32;
    (0x9 <= n && n <= 0xd) || n == 0x20 || n == 0x85 || n == 0xa0 || n == 0x1680 || (0x2000 <= n
        && n <= 0x200a) || n == 0x2028 || n == 0x2029 || n == 0x202f || n == 0x205f || n == 0x3000
}

/// `s` without the characters at its beginning that are in `p`.
pub open spec fn trim_start_by(s: Seq<char>, p: spec_fn(char) -> bool) -> Seq<char>
    decreases s.len(),
{
    if s.len() > 0 && p(s[0]) {
        trim_start_by(s.drop_first(), p)
    } else {
        s
    }
}

/// `s` without the characters at its end that are in `p`.
pub open spec fn trim_end_by(s: Seq<char>, p: spec_fn(char) -> bool) -> Seq<char>
    decreases s.len(),
{
    if s.len() > 0 && p(s.last()) {
        trim_end_by(s.drop_last(), p)
    } else {
        s
    }
}

/// `s` without white space at either end.
pub open spec fn trimmed(s: Seq<char>) -> Seq<char> {
    trim_end_by(trim_start_by(s, |c: char| white_space(c)), |c: char| white_space(c))
}

/// `s` without white space at its end.
pub open spec fn end_trimmed(s: Seq<char>) -> Seq<char> {
    trim_end_by(s, |c: char| white_space(c))
}

/// `s` without slashes at either end.
pub open spec fn unslashed(s: Seq<char>) -> Seq<char> {
    trim_end_by(trim_start_by(s, |c: char| c == '/'), |c: char| c == '/')
}

/// `s` without slashes at its end.
pub open spec fn end_unslashed(s: Seq<char>) -> Seq<char> {
    trim_end_by(s, |c: char| c == '/')
}

/// Trimming leaves a text alone that has nothing to trim at that end.
pub proof fn lemma_trim_end_fixed(s: Seq<char>, p: spec_fn(char) -> bool)
    ensures
        trim_end_by(s, p).len() == 0 || !p(trim_end_by(s, p).last()),
        trim_end_by(s, p).is_prefix_of(s),
        trim_end_by(trim_end_by(s, p), p) == trim_end_by(s, p),
    decreases s.len(),
{
    if s.len() > 0 && p(s.last()) {
        lemma_trim_end_fixed(s.drop_last(), p);
    }
}

fn trimmed_start(
    chars: &Vec<char>,
    p: impl Fn(char) -> bool,
    Ghost(q): Ghost<spec_fn(char) -> bool>,
) -> (from: usize)
    requires
        forall|c: char| p.requires((c,)),
        forall|c: char, o: bool| p.ensures((c,), o) ==> o == q(c),
    ensures
        from <= chars.len(),
        trim_start_by(chars@, q) == chars@.subrange(from as int, chars.len() as int),
{
    let mut i: usize = 0;
    assert(chars@.skip(0) =~= chars@);
    while i < chars.len() && p(chars[i])
        invariant
            i <= chars.len(),
            forall|c: char| p.requires((c,)),
            forall|c: char, o: bool| p.ensures((c,), o) ==> o == q(c),
            trim_start_by(chars@, q) == trim_start_by(chars@.skip(i as int), q),
        decreases chars.len() - i,
    {
        assert(chars@.skip(i as int).drop_first() =~= chars@.skip(i + 1));
        i += 1;
    }
    assert(chars@.skip(i as int) =~= chars@.subrange(i as int, chars.len() as int));
    i
}

fn trimmed_end(
    chars: &Vec<char>,
    from: usize,
    p: impl Fn(char) -> bool,
    Ghost(q): Ghost<spec_fn(char) -> bool>,
) -> (to: usize)
    requires
        from <= chars.len(),
        forall|c: char| p.requires((c,)),
        forall|c: char, o: bool| p.ensures((c,), o) ==> o == q(c),
    ensures
        from <= to <= chars.len(),
        trim_end_by(chars@.subrange(from as int, chars.len() as int), q) == chars@.subrange(
            from as int,
            to as int,
        ),
{
    let mut i: usize = chars.len();
    while i > from && p(chars[i - 1])
        invariant
            from <= i <= chars.len(),
            forall|c: char| p.requires((c,)),
            forall|c: char, o: bool| p.ensures((c,), o) ==> o == q(c),
            trim_end_by(chars@.subrange(from as int, chars.len() as int), q) == trim_end_by(
                chars@.subrange(from as int, i as int),
                q,
            ),
        decreases i,
    {
        assert(chars@.subrange(from as int, i as int).drop_last() =~= chars@.subrange(
            from as int,
            i - 1,
        ));
        i -= 1;
    }
    i
}

/// The text without white space at either end.
pub fn trim(s: &str) -> (r: &str)
    ensures
        r@ == trimmed(s@),
{
    let chars = chars_of(s);
    let white = |c: char| -> (o: bool)
        ensures
            o == white_space(c),
        { is_white_space(c) };
    let from = trimmed_start(&chars, white, Ghost(|c: char| white_space(c)));
    let to = trimmed_end(&chars, from, white, Ghost(|c: char| white_space(c)));
    s.substring_char(from, to)
}

/// The text without white space at its end.
pub fn trim_end(s: &str) -> (r: &str)
    ensures
        r@ == end_trimmed(s@),
{
    let chars = chars_of(s);
    let white = |c: char| -> (o: bool)
        ensures
            o == white_space(c),
        { is_white_space(c) };
    let to = trimmed_end(&chars, 0, white, Ghost(|c: char| white_space(c)));
    assert(chars@.subrange(0, chars.len() as int) =~= s@);
    s.substring_char(0, to)
}

/// The text without slashes at either end.
pub fn trim_slashes(s: &str) -> (r: &str)
    ensures
        r@ == unslashed(s@),
{
    let chars = chars_of(s);
    let slash = |c: char| -> (o: bool)
        ensures
            o == (c == '/'),
        { c == '/' };
    let from = trimmed_start(&chars, slash, Ghost(|c: char| c == '/'));
    let to = trimmed_end(&chars, from, slash, Ghost(|c: char| c == '/'));
    s.substring_char(from, to)
}

/// The text without slashes at its end.
pub fn trim_end_slashes(s: &str) -> (r: &str)
    ensures
        r@ == end_unslashed(s@),
{
    let chars = chars_of(s);
    let slash = |c: char| -> (o: bool)
        ensures
            o == (c == '/'),
        { c == '/' };
    let to = trimmed_end(&chars, 0, slash, Ghost(|c: char| c == '/'));
    assert(chars@.subrange(0, chars.len() as int) =~= s@);
    s.substring_char(0, to)
}

/// `s` without the copies of `suffix` at its end.
pub open spec fn without_suffix(s: Seq<char>, suffix: Seq<char>) -> Seq<char>
    decreases s.len(),
{
    if suffix.len() > 0 && suffix.is_suffix_of(s) {
        without_suffix(s.take(s.len() - suffix.len()), suffix)
    } else {
        s
    }
}

/// The text without the copies of `suffix` at its end.
pub fn trim_end_text<'a>(s: &'a str, suffix: &str) -> (r: &'a str)
    requires
        suffix@.len() > 0,
    ensures
        r@ == without_suffix(s@, suffix@),
{
    let mut rest: &str = s;
    while crate::text::ends_with(rest, suffix)
        invariant
            suffix@.len() > 0,
            without_suffix(s@, suffix@) == without_suffix(rest@, suffix@),
        decreases rest@.len(),
    {
        let to: usize = rest.unicode_len() - suffix.unicode_len();
        let ghost before = rest@;
        rest = rest.substring_char(0, to);
        assert(rest@ =~= before.take(before.len() - suffix@.len()));
    }
    rest
}

// ---------------------------------------------------------------------------
// Splitting and joining
// ---------------------------------------------------------------------------

/// The pieces of `s` between occurrences of `sep`; always at least one.
pub open spec fn split_on(s: Seq<char>, sep: char) -> Seq<Seq<char>>
    decreases s.len(),
{
    if s.len() == 0 {
        seq![Seq::<char>::empty()]
    } else {
        let before = split_on(s.drop_last(), sep);
        if s.last() == sep {
            before.push(Seq::<char>::empty())
        } else {
            before.drop_last().push(before.last().push(s.last()))
        }
    }
}

/// The texts of `parts` with `sep` between neighbours.
pub open spec fn join_with(parts: Seq<Seq<char>>, sep: Seq<char>) -> Seq<char>
    decreases parts.len(),
{
    if parts.len() == 0 {
        Seq::empty()
    } else if parts.len() == 1 {
        parts[0]
    } else {
        join_with(parts.drop_last(), sep) + sep + parts.last()
    }
}

/// Splitting loses nothing: the pieces joined by the separator give the text
/// back, and no piece holds the separator.
pub proof fn lemma_split_join(s: Seq<char>, sep: char)
    ensures
        split_on(s, sep).len() > 0,
        join_with(split_on(s, sep), seq![sep]) == s,
        forall|i: int|
            0 <= i < split_on(s, sep).len() ==> !(#[trigger] split_on(s, sep)[i]).contains(sep),
    decreases s.len(),
{
    let pieces = split_on(s, sep);
    if s.len() == 0 {
        assert(pieces[0] =~= s);
    } else {
        let before = split_on(s.drop_last(), sep);
        lemma_split_join(s.drop_last(), sep);
        if s.last() == sep {
            assert(pieces.drop_last() =~= before);
            assert(join_with(pieces, seq![sep]) =~= s);
        } else {
            let longer = before.last().push(s.last());
            assert(!longer.contains(sep)) by {
                if longer.contains(sep) {
                    let k = longer.index_of(sep);
                    assert(before.last()[k] == sep);
                }
            }
            assert(pieces.drop_last() =~= before.drop_last());
            assert(join_with(pieces, seq![sep]) =~= join_with(before, seq![sep]).push(s.last()));
            assert(s =~= s.drop_last().push(s.last()));
            assert forall|i: int| 0 <= i < pieces.len() implies !(#[trigger] pieces[i]).contains(
                sep,
            ) by {
                if i < before.len() - 1 {
                    assert(pieces[i] == before[i]);
                }
            }
        }
    }
}

/// A text without the separator is one piece.
pub proof fn lemma_split_plain(a: Seq<char>, sep: char)
    requires
        !a.contains(sep),
    ensures
        split_on(a, sep) == seq![a],
    decreases a.len(),
{
    if a.len() == 0 {
        assert(a =~= Seq::<char>::empty());
    } else {
        let less = a.drop_last();
        assert(!less.contains(sep)) by {
            if less.contains(sep) {
                let i = less.index_of(sep);
                assert(a[i] == sep);
            }
        }
        assert(a.contains(a.last())) by {
            assert(a[a.len() - 1] == a.last());
        }
        lemma_split_plain(less, sep);
        assert(less.push(a.last()) =~= a);
        assert(seq![less].drop_last().push(a) =~= seq![a]);
    }
}

/// Two texts with a separator between them have the pieces of both.
pub proof fn lemma_split_concat(a: Seq<char>, b: Seq<char>, sep: char)
    ensures
        split_on(a + seq![sep] + b, sep) == split_on(a, sep) + split_on(b, sep),
    decreases b.len(),
{
    let whole = a + seq![sep] + b;
    lemma_split_join(a, sep);
    lemma_split_join(b, sep);
    if b.len() == 0 {
        assert(b =~= Seq::<char>::empty());
        assert(whole.drop_last() =~= a);
        assert(whole.last() == sep);
        assert(split_on(a, sep).push(Seq::<char>::empty()) =~= split_on(a, sep) + split_on(b, sep));
    } else {
        let less = b.drop_last();
        lemma_split_concat(a, less, sep);
        lemma_split_join(less, sep);
        assert(whole.drop_last() =~= a + seq![sep] + less);
        assert(whole.last() == b.last());
        let left = split_on(a, sep);
        let right = split_on(less, sep);
        if b.last() == sep {
            assert((left + right).push(Seq::<char>::empty()) =~= left + right.push(
                Seq::<char>::empty(),
            ));
        } else {
            let grown = right.last().push(b.last());
            assert((left + right).last() == right.last());
            assert((left + right).drop_last().push(grown) =~= left + right.drop_last().push(grown));
        }
    }
}

/// Splitting takes apart what joining put together.
pub proof fn lemma_join_split(parts: Seq<Seq<char>>, sep: char)
    requires
        parts.len() > 0,
        forall|i: int| 0 <= i < parts.len() ==> !(#[trigger] parts[i]).contains(sep),
    ensures
        split_on(join_with(parts, seq![sep]), sep) == parts,
    decreases parts.len(),
{
    if parts.len() == 1 {
        lemma_split_plain(parts[0], sep);
        assert(seq![parts[0]] =~= parts);
    } else {
        let less = parts.drop_last();
        assert forall|i: int| 0 <= i < less.len() implies !(#[trigger] less[i]).contains(sep) by {
            assert(less[i] == parts[i]);
        }
        lemma_join_split(less, sep);
        assert(!parts[parts.len() - 1].contains(sep));
        lemma_split_plain(parts.last(), sep);
        lemma_split_concat(join_with(less, seq![sep]), parts.last(), sep);
        assert(less + seq![parts.last()] =~= parts);
    }
}

/// Splits a text at each `sep`.
pub fn split(s: &str, sep: char) -> (r: Vec<String>)
    ensures
        r.deep_view() == split_on(s@, sep),
{
    let chars = chars_of(s);
    let mut out: Vec<String> = Vec::new();
    let mut piece = String::new();
    let mut i: usize = 0;
    assert(out.deep_view().push(piece@) =~= split_on(s@.take(0), sep));
    while i < chars.len()
        invariant
            chars@ == s@,
            i <= chars.len(),
            out.deep_view().push(piece@) == split_on(s@.take(i as int), sep),
        decreases chars.len() - i,
    {
        let ghost done = out.deep_view();
        let ghost part = piece@;
        let c = chars[i];
        assert(s@.take(i + 1).drop_last() =~= s@.take(i as int));
        if c == sep {
            out.push(piece);
            piece = String::new();
            assert(out.deep_view() =~= done.push(part));
        } else {
            piece.push(c);
            assert(done.push(part).drop_last() =~= done);
        }
        i += 1;
    }
    assert(s@.take(i as int) =~= s@);
    let ghost done = out.deep_view();
    let ghost part = piece@;
    out.push(piece);
    assert(out.deep_view() =~= done.push(part));
    out
}

/// The texts with `sep` between neighbours.
pub fn join(parts: &Vec<String>, sep: &str) -> (r: String)
    ensures
        r@ == join_with(parts.deep_view(), sep@),
{
    let mut out = String::new();
    let mut i: usize = 0;
    let ghost all = parts.deep_view();
    while i < parts.len()
        invariant
            all == parts.deep_view(),
            i <= parts.len(),
            out@ == join_with(all.take(i as int), sep@),
        decreases parts.len() - i,
    {
        let ghost so_far = out@;
        assert(all.take(i + 1).drop_last() =~= all.take(i as int));
        assert(all.take(i + 1).last() == parts@[i as int]@);
        if i > 0 {
            out.append(sep);
        }
        out.append(&parts[i]);
        if i == 0 {
            assert(out@ =~= parts@[0]@);
        } else {
            assert(out@ =~= so_far + sep@ + parts@[i as int]@);
        }
        i += 1;
    }
    assert(all.take(i as int) =~= all);
    out
}

// ---------------------------------------------------------------------------
// Lines and words
// ---------------------------------------------------------------------------

/// A line without the carriage return that belongs to its line end.
pub open spec fn without_return(line: Seq<char>) -> Seq<char> {
    if line.len() > 0 && line.last() == '\r' {
        line.drop_last()
    } else {
        line
    }
}

/// The lines of a text. A line ends with a line feed, or a carriage return
/// and a line feed; the last one may go without.
pub open spec fn lines_of(s: Seq<char>) -> Seq<Seq<char>> {
    let pieces = split_on(s, '\n');
    let ended = pieces.drop_last().map_values(|p: Seq<char>| without_return(p));
    if pieces.last().len() == 0 {
        ended
    } else {
        ended.push(pieces.last())
    }
}

/// The lines of a text.
pub fn lines(s: &str) -> (r: Vec<String>)
    ensures
        r.deep_view() == lines_of(s@),
{
    let pieces = split(s, '\n');
    proof {
        lemma_split_join(s@, '\n');
    }
    let ghost all = pieces.deep_view();
    let mut out: Vec<String> = Vec::new();
    let mut i: usize = 0;
    let ghost ended = all.drop_last().map_values(|p: Seq<char>| without_return(p));
    while i < pieces.len() - 1
        invariant
            all == pieces.deep_view(),
            pieces.len() > 0,
            i <= pieces.len() - 1,
            ended == all.drop_last().map_values(|p: Seq<char>| without_return(p)),
            out.deep_view() == ended.take(i as int),
        decreases pieces.len() - i,
    {
        let ghost done = out.deep_view();
        let chars = chars_of(&pieces[i]);
        let line = if chars.len() > 0 && chars[chars.len() - 1] == '\r' {
            text_between(&chars, 0, chars.len() - 1)
        } else {
            text_between(&chars, 0, chars.len())
        };
        assert(line@ =~= without_return(all[i as int]));
        let ghost l = line@;
        out.push(line);
        assert(out.deep_view() =~= done.push(l));
        assert(ended.take(i as int).push(ended[i as int]) =~= ended.take(i + 1));
        i += 1;
    }
    assert(ended.take(i as int) =~= ended);
    let last = pieces[pieces.len() - 1].clone();
    if !last.as_str().is_empty() {
        let ghost done = out.deep_view();
        out.push(last);
        assert(out.deep_view() =~= done.push(all.last()));
    }
    out
}

/// The part of `s` before its first white space.
pub open spec fn until_space(s: Seq<char>) -> Seq<char>
    decreases s.len(),
{
    if s.len() == 0 || white_space(s[0]) {
        Seq::empty()
    } else {
        seq![s[0]] + until_space(s.drop_first())
    }
}

/// The first run of characters that are not white space, if there is one.
pub open spec fn first_word_of(s: Seq<char>) -> Option<Seq<char>> {
    let rest = trim_start_by(s, |c: char| white_space(c));
    if rest.len() == 0 {
        None
    } else {
        Some(until_space(rest))
    }
}

/// The first word of a text.
pub fn first_word(s: &str) -> (r: Option<String>)
    ensures
        r.deep_view() == first_word_of(s@),
{
    let chars = chars_of(s);
    let white = |c: char| -> (o: bool)
        ensures
            o == white_space(c),
        { is_white_space(c) };
    let from = trimmed_start(&chars, white, Ghost(|c: char| white_space(c)));
    if from == chars.len() {
        return None;
    }
    let ghost rest = chars@.subrange(from as int, chars.len() as int);
    let mut word = String::new();
    let mut i: usize = from;
    assert(rest.skip(0) =~= rest);
    assert(until_space(rest) =~= Seq::<char>::empty() + until_space(rest));
    while i < chars.len() && !is_white_space(chars[i])
        invariant
            from <= i <= chars.len(),
            rest == chars@.subrange(from as int, chars.len() as int),
            until_space(rest) == word@ + until_space(rest.skip(i - from)),
        decreases chars.len() - i,
    {
        let ghost before = word@;
        word.push(chars[i]);
        assert(rest.skip(i - from).drop_first() =~= rest.skip(i + 1 - from));
        assert(word@ + until_space(rest.skip(i + 1 - from)) =~= before + (seq![chars@[i as int]]
            + until_space(rest.skip(i + 1 - from))));
        i += 1;
    }
    assert(word@ + Seq::<char>::empty() =~= word@);
    Some(word)
}

} // verus!
