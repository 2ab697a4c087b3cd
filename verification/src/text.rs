//! Text as sequences of characters: comparing, trimming, splitting and
//! formatting, each with its meaning on `Seq<char>`.

use vstd::prelude::*;
use vstd::string::*;

verus! {

/// `String::push`: the character goes to the end of the string.
pub assume_specification[ String::push ](s: &mut String, c: char)
    ensures
        final(s)@ == old(s)@.push(c),
;

// ---------------------------------------------------------------------------
// Characters and texts
// ---------------------------------------------------------------------------

/// The characters of a text, in order.
pub fn chars_of(s: &str) -> (r: Vec<char>)
    ensures
        r@ == s@,
{
    let mut out: Vec<char> = Vec::new();
    for c in it: s.chars()
        invariant
            it.seq() == s@,
            out@ == s@.take(it.index() as int),
    {
        out.push(c);
        assert(s@.take(it.index() as int).push(c) =~= s@.take(it.index() as int + 1));
    }
    assert(s@.take(s@.len() as int) =~= s@);
    out
}

/// The text made of `chars[from..to]`.
pub fn text_between(chars: &Vec<char>, from: usize, to: usize) -> (r: String)
    requires
        from <= to <= chars.len(),
    ensures
        r@ == chars@.subrange(from as int, to as int),
{
    let mut out = String::new();
    let mut i: usize = from;
    while i < to
        invariant
            from <= i <= to <= chars.len(),
            out@ == chars@.subrange(from as int, i as int),
        decreases to - i,
    {
        out.push(chars[i]);
        assert(chars@.subrange(from as int, i as int).push(chars@[i as int]) =~= chars@.subrange(
            from as int,
            i + 1,
        ));
        i += 1;
    }
    out
}

/// Whether two texts are the same.
pub fn same_text(a: &str, b: &str) -> (r: bool)
    ensures
        r == (a@ == b@),
{
    a.to_owned() == b.to_owned()
}

/// Whether `wanted` is one of `texts`.
pub fn holds_text(texts: &Vec<String>, wanted: &str) -> (r: bool)
    ensures
        r == texts.deep_view().contains(wanted@),
{
    let mut i: usize = 0;
    while i < texts.len()
        invariant
            i <= texts.len(),
            forall|j: int| 0 <= j < i ==> (#[trigger] texts@[j])@ != wanted@,
        decreases texts.len() - i,
    {
        if same_text(&texts[i], wanted) {
            assert(texts.deep_view()[i as int] == wanted@);
            return true;
        }
        i += 1;
    }
    assert forall|j: int| 0 <= j < texts.deep_view().len() implies texts.deep_view()[j]
        != wanted@ by {
        assert(texts@[j]@ != wanted@);
    }
    false
}

/// The two texts, one behind the other.
pub fn joined(a: &str, b: &str) -> (r: String)
    ensures
        r@ == a@ + b@,
{
    let mut out = a.to_owned();
    out.append(b);
    out
}

/// The parts of a text, one after the other.
pub open spec fn concat(parts: Seq<Seq<char>>) -> Seq<char>
    decreases parts.len(),
{
    if parts.len() == 0 {
        Seq::empty()
    } else {
        concat(parts.drop_last()) + parts.last()
    }
}

/// The text made of the given parts.
pub fn text_from(parts: &Vec<&str>) -> (r: String)
    ensures
        r@ == concat(parts.deep_view()),
{
    let ghost all = parts.deep_view();
    let mut out = String::new();
    let mut i: usize = 0;
    assert(all.take(0) =~= Seq::<Seq<char>>::empty());
    assert(out@ =~= concat(all.take(0)));
    while i < parts.len()
        invariant
            all == parts.deep_view(),
            i <= parts.len(),
            out@ == concat(all.take(i as int)),
        decreases parts.len() - i,
    {
        assert(all.take(i + 1).drop_last() =~= all.take(i as int));
        out.append(parts[i]);
        i += 1;
    }
    assert(all.take(i as int) =~= all);
    out
}

/// A copy of a list of texts.
pub fn copy_texts(texts: &Vec<String>) -> (r: Vec<String>)
    ensures
        r.deep_view() == texts.deep_view(),
        r@ == texts@,
{
    let mut out: Vec<String> = Vec::new();
    let mut i: usize = 0;
    while i < texts.len()
        invariant
            i <= texts.len(),
            out@ == texts@.take(i as int),
        decreases texts.len() - i,
    {
        out.push(texts[i].clone());
        assert(texts@.take(i as int).push(texts@[i as int]) =~= texts@.take(i + 1));
        i += 1;
    }
    assert(out@ =~= texts@);
    out
}

// ---------------------------------------------------------------------------
// Ordering
// ---------------------------------------------------------------------------

/// Where the first of two compared values stands.
#[derive(Debug, Clone, Copy, PartialEq, Eq, Structural)]
pub enum Side {
    Before,
    Same,
    After,
}

impl Side {
    pub open spec fn flip_spec(self) -> Side {
        match self {
            Side::Before => Side::After,
            Side::Same => Side::Same,
            Side::After => Side::Before,
        }
    }

    pub open spec fn or_spec(self, next: Side) -> Side {
        if self == Side::Same {
            next
        } else {
            self
        }
    }

    /// The comparison seen from the other value.
    pub fn flip(self) -> (r: Side)
        ensures
            r == self.flip_spec(),
    {
        match self {
            Side::Before => Side::After,
            Side::Same => Side::Same,
            Side::After => Side::Before,
        }
    }

    /// This comparison, or `next` where it does not tell the values apart.
    pub fn or(self, next: Side) -> (r: Side)
        ensures
            r == self.or_spec(next),
    {
        match self {
            Side::Same => next,
            _ => self,
        }
    }
}

pub open spec fn int_order(a: int, b: int) -> Side {
    if a < b {
        Side::Before
    } else if a > b {
        Side::After
    } else {
        Side::Same
    }
}

/// Texts are ordered by code point, the first difference deciding; a text
/// stands behind its own prefixes.
pub open spec fn text_order(a: Seq<char>, b: Seq<char>) -> Side
    decreases a.len(),
{
    if a.len() == 0 {
        if b.len() == 0 {
            Side::Same
        } else {
            Side::Before
        }
    } else if b.len() == 0 {
        Side::After
    } else {
        int_order(a[0] as int, b[0] as int).or_spec(text_order(a.drop_first(), b.drop_first()))
    }
}

/// Lists of texts are ordered by the first text in which they differ.
pub open spec fn texts_order(a: Seq<Seq<char>>, b: Seq<Seq<char>>) -> Side
    decreases a.len(),
{
    if a.len() == 0 {
        if b.len() == 0 {
            Side::Same
        } else {
            Side::Before
        }
    } else if b.len() == 0 {
        Side::After
    } else {
        text_order(a[0], b[0]).or_spec(texts_order(a.drop_first(), b.drop_first()))
    }
}

/// Exactly equal texts compare as the same.
pub proof fn lemma_text_order_same(a: Seq<char>, b: Seq<char>)
    ensures
        text_order(a, b) == Side::Same <==> a == b,
    decreases a.len(),
{
    if a.len() > 0 && b.len() > 0 {
        lemma_text_order_same(a.drop_first(), b.drop_first());
        assert(a =~= seq![a[0]] + a.drop_first());
        assert(b =~= seq![b[0]] + b.drop_first());
    } else if a.len() == 0 && b.len() == 0 {
        assert(a =~= b);
    }
}

pub proof fn lemma_text_order_flip(a: Seq<char>, b: Seq<char>)
    ensures
        text_order(b, a) == text_order(a, b).flip_spec(),
    decreases a.len(),
{
    if a.len() > 0 && b.len() > 0 {
        lemma_text_order_flip(a.drop_first(), b.drop_first());
    }
}

pub proof fn lemma_text_order_transitive(a: Seq<char>, b: Seq<char>, c: Seq<char>)
    requires
        text_order(a, b) != Side::After,
        text_order(b, c) != Side::After,
    ensures
        text_order(a, c) != Side::After,
    decreases a.len(),
{
    if a.len() > 0 && b.len() > 0 && c.len() > 0 && a[0] == b[0] && b[0] == c[0] {
        lemma_text_order_transitive(a.drop_first(), b.drop_first(), c.drop_first());
    }
}

pub proof fn lemma_texts_order_same(a: Seq<Seq<char>>, b: Seq<Seq<char>>)
    ensures
        texts_order(a, b) == Side::Same <==> a == b,
    decreases a.len(),
{
    if a.len() > 0 && b.len() > 0 {
        lemma_text_order_same(a[0], b[0]);
        lemma_texts_order_same(a.drop_first(), b.drop_first());
        assert(a =~= seq![a[0]] + a.drop_first());
        assert(b =~= seq![b[0]] + b.drop_first());
    } else if a.len() == 0 && b.len() == 0 {
        assert(a =~= b);
    }
}

pub proof fn lemma_texts_order_flip(a: Seq<Seq<char>>, b: Seq<Seq<char>>)
    ensures
        texts_order(b, a) == texts_order(a, b).flip_spec(),
    decreases a.len(),
{
    if a.len() > 0 && b.len() > 0 {
        lemma_text_order_flip(a[0], b[0]);
        lemma_texts_order_flip(a.drop_first(), b.drop_first());
    }
}

pub proof fn lemma_texts_order_transitive(a: Seq<Seq<char>>, b: Seq<Seq<char>>, c: Seq<Seq<char>>)
    requires
        texts_order(a, b) != Side::After,
        texts_order(b, c) != Side::After,
    ensures
        texts_order(a, c) != Side::After,
    decreases a.len(),
{
    if a.len() > 0 && b.len() > 0 && c.len() > 0 {
        lemma_text_order_transitive(a[0], b[0], c[0]);
        lemma_text_order_same(a[0], b[0]);
        lemma_text_order_same(b[0], c[0]);
        lemma_text_order_same(a[0], c[0]);
        lemma_text_order_flip(a[0], c[0]);
        lemma_text_order_flip(a[0], b[0]);
        if text_order(a[0], c[0]) == Side::Same {
            // a[0] <= b[0] <= c[0] == a[0], so all three are the same text.
            lemma_text_order_transitive(b[0], c[0], a[0]);
        }
        if a[0] == b[0] && b[0] == c[0] {
            lemma_texts_order_transitive(a.drop_first(), b.drop_first(), c.drop_first());
        }
    }
}

/// Compares two texts.
pub fn order_text(a: &str, b: &str) -> (r: Side)
    ensures
        r == text_order(a@, b@),
{
    let left = chars_of(a);
    let right = chars_of(b);
    let mut i: usize = 0;
    assert(left@.skip(0) =~= left@);
    assert(right@.skip(0) =~= right@);
    while i < left.len() && i < right.len()
        invariant
            left@ == a@,
            right@ == b@,
            i <= left.len(),
            i <= right.len(),
            text_order(left@, right@) == text_order(left@.skip(i as int), right@.skip(i as int)),
        decreases left.len() - i,
    {
        if left[i] < right[i] {
            return Side::Before;
        }
        if left[i] > right[i] {
            return Side::After;
        }
        assert(left@.skip(i as int).drop_first() =~= left@.skip(i + 1));
        assert(right@.skip(i as int).drop_first() =~= right@.skip(i + 1));
        i += 1;
    }
    if i < left.len() {
        Side::After
    } else if i < right.len() {
        Side::Before
    } else {
        Side::Same
    }
}

/// Compares two lists of texts.
pub fn order_texts(a: &Vec<&str>, b: &Vec<&str>) -> (r: Side)
    ensures
        r == texts_order(a.deep_view(), b.deep_view()),
{
    let ghost left = a.deep_view();
    let ghost right = b.deep_view();
    let mut i: usize = 0;
    assert(left.skip(0) =~= left);
    assert(right.skip(0) =~= right);
    while i < a.len() && i < b.len()
        invariant
            left == a.deep_view(),
            right == b.deep_view(),
            i <= a.len(),
            i <= b.len(),
            texts_order(left, right) == texts_order(left.skip(i as int), right.skip(i as int)),
        decreases a.len() - i,
    {
        assert(left.skip(i as int)[0] == a@[i as int]@);
        assert(right.skip(i as int)[0] == b@[i as int]@);
        let side = order_text(a[i], b[i]);
        if side != Side::Same {
            return side;
        }
        assert(left.skip(i as int).drop_first() =~= left.skip(i + 1));
        assert(right.skip(i as int).drop_first() =~= right.skip(i + 1));
        i += 1;
    }
    if i < a.len() {
        Side::After
    } else if i < b.len() {
        Side::Before
    } else {
        Side::Same
    }
}

/// Compares two integers.
pub fn order_i64(a: i64, b: i64) -> (r: Side)
    ensures
        r == int_order(a as int, b as int),
{
    if a < b {
        Side::Before
    } else if a > b {
        Side::After
    } else {
        Side::Same
    }
}

/// Compares two integers.
pub fn order_u64(a: u64, b: u64) -> (r: Side)
    ensures
        r == int_order(a as int, b as int),
{
    if a < b {
        Side::Before
    } else if a > b {
        Side::After
    } else {
        Side::Same
    }
}

// ---------------------------------------------------------------------------
// Searching
// ---------------------------------------------------------------------------

/// `needle` stands at position `at` of `hay`.
pub open spec fn occurs_at(hay: Seq<char>, needle: Seq<char>, at: int) -> bool {
    0 <= at && at + needle.len() <= hay.len() && hay.subrange(at, at + needle.len()) == needle
}

pub open spec fn occurs(hay: Seq<char>, needle: Seq<char>) -> bool {
    exists|at: int| occurs_at(hay, needle, at)
}

fn stands_at(hay: &Vec<char>, needle: &Vec<char>, at: usize) -> (r: bool)
    requires
        at + needle.len() <= hay.len(),
    ensures
        r == occurs_at(hay@, needle@, at as int),
{
    let mut i: usize = 0;
    while i < needle.len()
        invariant
            i <= needle.len(),
            at + needle.len() <= hay.len(),
            forall|j: int| 0 <= j < i ==> hay@[at + j] == #[trigger] needle@[j],
        decreases needle.len() - i,
    {
        if hay[at + i] != needle[i] {
            assert(hay@.subrange(at as int, at + needle.len())[i as int] != needle@[i as int]);
            return false;
        }
        i += 1;
    }
    assert(hay@.subrange(at as int, at + needle.len()) =~= needle@);
    true
}

/// Whether `needle` occurs in `hay`.
pub fn contains_text(hay: &str, needle: &str) -> (r: bool)
    ensures
        r == occurs(hay@, needle@),
{
    let h = chars_of(hay);
    let n = chars_of(needle);
    if n.len() > h.len() {
        return false;
    }
    let last: usize = h.len() - n.len();
    let mut at: usize = 0;
    while at < last
        invariant
            h@ == hay@,
            n@ == needle@,
            last == h.len() - n.len(),
            at <= last,
            forall|j: int| 0 <= j < at ==> !occurs_at(h@, n@, j),
        decreases last - at,
    {
        if stands_at(&h, &n, at) {
            assert(occurs_at(hay@, needle@, at as int));
            return true;
        }
        at += 1;
    }
    let found = stands_at(&h, &n, last);
    assert forall|j: int| !found implies !occurs_at(hay@, needle@, j) by {
        if j == last || j < 0 || j > last {
        } else {
            assert(!occurs_at(h@, n@, j));
        }
    }
    found
}

/// Whether `s` begins with `prefix`.
pub fn starts_with(s: &str, prefix: &str) -> (r: bool)
    ensures
        r == prefix@.is_prefix_of(s@),
{
    let h = chars_of(s);
    let n = chars_of(prefix);
    n.len() <= h.len() && stands_at(&h, &n, 0)
}

/// Whether `s` ends with `suffix`.
pub fn ends_with(s: &str, suffix: &str) -> (r: bool)
    ensures
        r == suffix@.is_suffix_of(s@),
{
    let h = chars_of(s);
    let n = chars_of(suffix);
    n.len() <= h.len() && stands_at(&h, &n, h.len() - n.len())
}

/// What follows `prefix` in `s`, where `s` begins with it.
pub fn strip_prefix<'a>(s: &'a str, prefix: &str) -> (r: Option<&'a str>)
    ensures
        r is Some <==> prefix@.is_prefix_of(s@),
        r matches Some(rest) ==> s@ == prefix@ + rest@,
{
    if starts_with(s, prefix) {
        let from: usize = prefix.unicode_len();
        let to: usize = s.unicode_len();
        let rest = s.substring_char(from, to);
        assert(s@ =~= prefix@ + rest@);
        Some(rest)
    } else {
        None
    }
}

/// Whether the character `c` occurs in `s`.
pub fn contains_char(s: &str, c: char) -> (r: bool)
    ensures
        r == s@.contains(c),
{
    let chars = chars_of(s);
    let mut i: usize = 0;
    while i < chars.len()
        invariant
            chars@ == s@,
            i <= chars.len(),
            forall|j: int| 0 <= j < i ==> chars@[j] != c,
        decreases chars.len() - i,
    {
        if chars[i] == c {
            return true;
        }
        i += 1;
    }
    false
}

} // verus!
