//! Text handling over sequences of characters.
//!
//! A `&str` is modelled by its view, the sequence of its characters. The executable
//! functions work on slices of characters, so that a part of a text is a subrange of it.
use vstd::prelude::*;
use vstd::utf8::encode_utf8;
use vstd::slice::slice_subrange;

verus! {

/// Trusted: `String::push` appends the one character it is given and changes nothing else.
pub assume_specification[ String::push ](s: &mut String, c: char)
    ensures
        final(s)@ == old(s)@.push(c),
;

/// What `char::is_alphanumeric` answers for a character: the Unicode properties
/// Alphabetic and Numeric, which are tables too long to state here.
pub uninterp spec fn char_is_alphanumeric(c: char) -> bool;

/// Trusted: `char::is_alphanumeric` is a function of the character alone.
#[verifier::external_body]
fn alphanumeric(c: char) -> (r: bool)
    ensures
        r == char_is_alphanumeric(c),
{
    c.is_alphanumeric()
}

/// What `str::to_lowercase` returns for a text: the Unicode lowercase mapping.
pub uninterp spec fn lowercased(s: Seq<char>) -> Seq<char>;

/// Trusted: `str::to_lowercase` is a function of the text alone.
#[verifier::external_body]
pub(crate) fn lowercase(s: &str) -> (r: String)
    ensures
        r@ == lowercased(s@),
{
    s.to_lowercase()
}

/// The characters of a text.
pub fn chars_of(s: &str) -> (r: Vec<char>)
    ensures
        r@ == s@,
{
    let mut out: Vec<char> = Vec::new();
    for c in it: s.chars()
        invariant
            out@ == it.seq().take(it.index() as int),
            it.seq() == s@,
    {
        out.push(c);
    }
    out
}

/// The text made of the given characters.
pub fn string_of(t: &[char]) -> (r: String)
    ensures
        r@ == t@,
{
    let mut out = String::new();
    for i in 0..t.len()
        invariant
            out@ == t@.take(i as int),
    {
        out.push(t[i]);
    }
    out
}

/// Whether two texts hold the same characters.
pub fn same(a: &[char], b: &[char]) -> (r: bool)
    ensures
        r == (a@ == b@),
{
    if a.len() != b.len() {
        return false;
    }
    for i in 0..a.len()
        invariant
            a@.len() == b@.len(),
            a@.take(i as int) == b@.take(i as int),
    {
        if a[i] != b[i] {
            assert(a@[i as int] != b@[i as int]);
            return false;
        }
        assert(a@.take(i + 1) =~= a@.take(i as int).push(a@[i as int]));
        assert(b@.take(i + 1) =~= b@.take(i as int).push(b@[i as int]));
    }
    assert(a@.take(a@.len() as int) =~= a@);
    assert(b@.take(b@.len() as int) =~= b@);
    true
}

/// Whether two texts hold the same characters.
pub fn same_text(a: &str, b: &str) -> (r: bool)
    ensures
        r == (a@ == b@),
{
    same(chars_of(a).as_slice(), chars_of(b).as_slice())
}

/// Whether the characters spell the given text.
pub fn spells(a: &[char], b: &str) -> (r: bool)
    ensures
        r == (a@ == b@),
{
    same(a, chars_of(b).as_slice())
}

/// Unicode White_Space, the characters that `char::is_whitespace` accepts.
pub open spec fn is_space(c: char) -> bool {
    ||| '\u{9}' <= c <= '\u{d}'
    ||| c == ' '
    ||| c == '\u{85}'
    ||| c == '\u{a0}'
    ||| c == '\u{1680}'
    ||| '\u{2000}' <= c <= '\u{200a}'
    ||| c == '\u{2028}'
    ||| c == '\u{2029}'
    ||| c == '\u{202f}'
    ||| c == '\u{205f}'
    ||| c == '\u{3000}'
}

/// Whether a character is white space.
pub fn space(c: char) -> (r: bool)
    ensures
        r == is_space(c),
{
    ('\u{9}' <= c && c <= '\u{d}') || c == ' ' || c == '\u{85}' || c == '\u{a0}' || c == '\u{1680}'
        || ('\u{2000}' <= c && c <= '\u{200a}') || c == '\u{2028}' || c == '\u{2029}' || c
        == '\u{202f}' || c == '\u{205f}' || c == '\u{3000}'
}

/// A class of characters at which a text is cut or trimmed.
#[derive(Clone, Copy)]
pub enum Sep {
    /// One particular character.
    Is(char),
    /// White space.
    Space,
    /// What ends a command in a shell line: `|`, `;` and `&`.
    Pipeline,
    /// Anything but a letter, a digit, `-` and `_`.
    NonWord,
}

impl Sep {
    /// Whether the character belongs to the class.
    pub open spec fn cuts(self, c: char) -> bool {
        match self {
            Sep::Is(x) => c == x,
            Sep::Space => is_space(c),
            Sep::Pipeline => c == '|' || c == ';' || c == '&',
            Sep::NonWord => !(char_is_alphanumeric(c) || c == '-' || c == '_'),
        }
    }

    /// Whether the character belongs to the class.
    pub fn hits(self, c: char) -> (r: bool)
        ensures
            r == self.cuts(c),
    {
        match self {
            Sep::Is(x) => c == x,
            Sep::Space => space(c),
            Sep::Pipeline => c == '|' || c == ';' || c == '&',
            Sep::NonWord => !(alphanumeric(c) || c == '-' || c == '_'),
        }
    }
}

/// How many characters stand before the first separator; all of them where there is none.
pub open spec fn until(s: Seq<char>, sep: Sep) -> int
    decreases s.len(),
{
    if s.len() == 0 || sep.cuts(s[0]) {
        0
    } else {
        1 + until(s.drop_first(), sep)
    }
}

/// `until` is the one index before which nothing separates and at which something does.
pub proof fn lemma_until(s: Seq<char>, sep: Sep)
    ensures
        0 <= until(s, sep) <= s.len(),
        forall|i: int| 0 <= i < until(s, sep) ==> !sep.cuts(#[trigger] s[i]),
        until(s, sep) < s.len() ==> sep.cuts(s[until(s, sep)]),
    decreases s.len(),
{
    if s.len() == 0 || sep.cuts(s[0]) {
    } else {
        let t = s.drop_first();
        lemma_until(t, sep);
        assert forall|i: int| 0 <= i < until(s, sep) implies !sep.cuts(#[trigger] s[i]) by {
            if i > 0 {
                assert(s[i] == t[i - 1]);
            }
        }
    }
}

/// An index before which nothing separates and at which something does, or which ends the
/// text, is `until`.
pub proof fn lemma_until_is(s: Seq<char>, sep: Sep, n: int)
    requires
        0 <= n <= s.len(),
        forall|i: int| 0 <= i < n ==> !sep.cuts(#[trigger] s[i]),
        n < s.len() ==> sep.cuts(s[n]),
    ensures
        until(s, sep) == n,
{
    lemma_until(s, sep);
    let m = until(s, sep);
    if m < n {
        assert(!sep.cuts(s[m]));
    } else if n < m {
        assert(!sep.cuts(s[n]));
    }
}

/// Finds the first separator; gives the length of the text where there is none.
pub fn reach(s: &[char], sep: Sep) -> (r: usize)
    ensures
        r == until(s@, sep),
        r <= s@.len(),
{
    let mut i: usize = 0;
    while i < s.len()
        invariant
            i <= s@.len(),
            forall|j: int| 0 <= j < i ==> !sep.cuts(#[trigger] s@[j]),
        decreases s@.len() - i,
    {
        if sep.hits(s[i]) {
            proof {
                lemma_until_is(s@, sep, i as int);
            }
            return i;
        }
        i += 1;
    }
    proof {
        lemma_until_is(s@, sep, i as int);
    }
    i
}

/// The text cut at every separator: one piece more than there are separators.
pub open spec fn fragments(s: Seq<char>, sep: Sep) -> Seq<Seq<char>>
    decreases s.len(),
    via fragments_decreases
{
    let n = until(s, sep);
    if n >= s.len() {
        seq![s]
    } else {
        seq![s.take(n)] + fragments(s.skip(n + 1), sep)
    }
}

#[via_fn]
proof fn fragments_decreases(s: Seq<char>, sep: Sep) {
    lemma_until(s, sep);
}

/// The views of a list of texts.
pub open spec fn texts(v: Seq<String>) -> Seq<Seq<char>> {
    v.map_values(|x: String| x@)
}

/// Adding a text adds its view.
pub broadcast proof fn lemma_texts_push(v: Seq<String>, x: String)
    ensures
        #[trigger] texts(v.push(x)) == texts(v).push(x@),
{
    assert(texts(v.push(x)) =~= texts(v).push(x@));
}

/// No texts have no views.
pub proof fn lemma_texts_empty()
    ensures
        texts(Seq::<String>::empty()) == Seq::<Seq<char>>::empty(),
{
    assert(texts(Seq::<String>::empty()) =~= Seq::<Seq<char>>::empty());
}

/// Cuts a text at every separator.
pub fn cut(s: &[char], sep: Sep) -> (r: Vec<String>)
    ensures
        texts(r@) == fragments(s@, sep),
        r@.len() > 0,
{
    broadcast use lemma_texts_push;

    let mut out: Vec<String> = Vec::new();
    let mut rest: &[char] = s;
    proof {
        lemma_texts_empty();
        assert(texts(out@) + fragments(rest@, sep) =~= fragments(s@, sep));
    }
    loop
        invariant
            texts(out@) + fragments(rest@, sep) == fragments(s@, sep),
        decreases rest@.len(),
    {
        let n = reach(rest, sep);
        if n >= rest.len() {
            out.push(string_of(rest));
            assert(texts(out@) =~= fragments(s@, sep));
            return out;
        }
        let ghost before = texts(out@);
        let piece = slice_subrange(rest, 0, n);
        let next = slice_subrange(rest, n + 1, rest.len());
        out.push(string_of(piece));
        proof {
            assert(piece@ =~= rest@.take(n as int));
            assert(next@ =~= rest@.skip(n + 1));
            assert(texts(out@) + fragments(next@, sep) =~= before + fragments(rest@, sep));
        }
        rest = next;
    }
}

/// The texts that are not empty, in order.
pub open spec fn nonempty(ss: Seq<Seq<char>>) -> Seq<Seq<char>>
    decreases ss.len(),
{
    if ss.len() == 0 {
        seq![]
    } else if ss.last().len() > 0 {
        nonempty(ss.drop_last()).push(ss.last())
    } else {
        nonempty(ss.drop_last())
    }
}

/// The words of a text: its white-space separated parts.
pub open spec fn words_of(s: Seq<char>) -> Seq<Seq<char>> {
    nonempty(fragments(s, Sep::Space))
}

/// Keeps the texts that are not empty.
pub fn drop_empty(v: &Vec<String>) -> (r: Vec<String>)
    ensures
        texts(r@) == nonempty(texts(v@)),
{
    broadcast use lemma_texts_push;

    let mut out: Vec<String> = Vec::new();
    proof {
        lemma_texts_empty();
        assert(texts(v@).take(0) =~= Seq::empty());
    }
    for i in 0..v.len()
        invariant
            texts(out@) == nonempty(texts(v@).take(i as int)),
    {
        proof {
            let t = texts(v@).take(i + 1);
            assert(t.drop_last() =~= texts(v@).take(i as int));
            assert(t.last() == v@[i as int]@);
        }
        if !v[i].as_str().is_empty() {
            out.push(v[i].clone());
        }
    }
    assert(texts(v@).take(v@.len() as int) =~= texts(v@));
    out
}

/// Splits a text into its words.
pub fn words(s: &[char]) -> (r: Vec<String>)
    ensures
        texts(r@) == words_of(s@),
{
    let pieces = cut(s, Sep::Space);
    drop_empty(&pieces)
}

/// The text cut once, at the first separator, which belongs to neither part.
pub open spec fn split_first(s: Seq<char>, sep: Sep) -> Option<(Seq<char>, Seq<char>)> {
    let n = until(s, sep);
    if n < s.len() {
        Some((s.take(n), s.skip(n + 1)))
    } else {
        None
    }
}

/// Cuts a text once, at the first separator.
pub fn split_once(s: &[char], sep: Sep) -> (r: Option<(&[char], &[char])>)
    ensures
        match r {
            Some((a, b)) => split_first(s@, sep) == Some((a@, b@)),
            None => split_first(s@, sep) is None,
        },
{
    let n = reach(s, sep);
    if n < s.len() {
        let a = slice_subrange(s, 0, n);
        let b = slice_subrange(s, n + 1, s.len());
        proof {
            assert(a@ =~= s@.take(n as int));
            assert(b@ =~= s@.skip(n + 1));
        }
        Some((a, b))
    } else {
        None
    }
}

/// Whether a text holds a character of the class.
pub fn holds(s: &[char], sep: Sep) -> (r: bool)
    ensures
        r == exists|i: int| 0 <= i < s@.len() && sep.cuts(#[trigger] s@[i]),
{
    let n = reach(s, sep);
    proof {
        lemma_until(s@, sep);
    }
    if n < s.len() {
        assert(sep.cuts(s@[n as int]));
        true
    } else {
        false
    }
}

/// What follows the last separator; the whole text where there is none.
pub open spec fn after_last(s: Seq<char>, sep: Sep) -> Seq<char>
    decreases s.len(),
{
    if s.len() == 0 {
        s
    } else if sep.cuts(s.last()) {
        Seq::empty()
    } else {
        after_last(s.drop_last(), sep).push(s.last())
    }
}

/// Takes what follows the last separator.
pub fn tail_after(s: &[char], sep: Sep) -> (r: &[char])
    ensures
        r@ == after_last(s@, sep),
{
    let mut i: usize = s.len();
    assert(s@.take(s@.len() as int) =~= s@);
    assert(after_last(s@, sep) =~= after_last(s@.take(i as int), sep) + s@.skip(i as int));
    while i > 0
        invariant
            i <= s@.len(),
            after_last(s@, sep) == after_last(s@.take(i as int), sep) + s@.skip(i as int),
        decreases i,
    {
        let ghost head = s@.take(i as int);
        assert(head.last() == s@[i - 1]);
        assert(head.drop_last() =~= s@.take(i - 1));
        if sep.hits(s[i - 1]) {
            assert(s@.subrange(i as int, s@.len() as int) =~= after_last(s@, sep));
            return slice_subrange(s, i, s.len());
        }
        i -= 1;
        assert(after_last(head, sep) + s@.skip(i + 1) =~= after_last(s@.take(i as int), sep)
            + s@.skip(i as int));
    }
    assert(s@.take(0) =~= Seq::empty());
    assert(after_last(s@, sep) =~= s@);
    s
}

/// The text without the separators at its start.
pub open spec fn trim_left(s: Seq<char>, sep: Sep) -> Seq<char>
    decreases s.len(),
{
    if s.len() > 0 && sep.cuts(s[0]) {
        trim_left(s.drop_first(), sep)
    } else {
        s
    }
}

/// The text without the separators at its end.
pub open spec fn trim_right(s: Seq<char>, sep: Sep) -> Seq<char>
    decreases s.len(),
{
    if s.len() > 0 && sep.cuts(s.last()) {
        trim_right(s.drop_last(), sep)
    } else {
        s
    }
}

/// The text without the separators at its two ends.
pub open spec fn trim_ends(s: Seq<char>, sep: Sep) -> Seq<char> {
    trim_right(trim_left(s, sep), sep)
}

/// The text without the white space at its two ends.
pub open spec fn trimmed(s: Seq<char>) -> Seq<char> {
    trim_ends(s, Sep::Space)
}

/// Drops the separators at the start.
pub fn strip_left(s: &[char], sep: Sep) -> (r: &[char])
    ensures
        r@ == trim_left(s@, sep),
{
    let mut rest: &[char] = s;
    while rest.len() > 0 && sep.hits(rest[0])
        invariant
            trim_left(rest@, sep) == trim_left(s@, sep),
        decreases rest@.len(),
    {
        let next = slice_subrange(rest, 1, rest.len());
        assert(next@ =~= rest@.drop_first());
        rest = next;
    }
    rest
}

/// Drops the separators at the end.
pub fn strip_right(s: &[char], sep: Sep) -> (r: &[char])
    ensures
        r@ == trim_right(s@, sep),
{
    let mut rest: &[char] = s;
    while rest.len() > 0 && sep.hits(rest[rest.len() - 1])
        invariant
            trim_right(rest@, sep) == trim_right(s@, sep),
        decreases rest@.len(),
    {
        let next = slice_subrange(rest, 0, rest.len() - 1);
        assert(next@ =~= rest@.drop_last());
        rest = next;
    }
    rest
}

/// Drops the separators at the two ends.
pub fn strip_ends(s: &[char], sep: Sep) -> (r: &[char])
    ensures
        r@ == trim_ends(s@, sep),
{
    strip_right(strip_left(s, sep), sep)
}

/// Drops the white space at the two ends.
pub fn trim(s: &[char]) -> (r: &[char])
    ensures
        r@ == trimmed(s@),
{
    strip_ends(s, Sep::Space)
}

/// Whether `p` starts the text `s`.
pub open spec fn starts(s: Seq<char>, p: Seq<char>) -> bool {
    p.len() <= s.len() && s.take(p.len() as int) == p
}

/// Whether `p` ends the text `s`.
pub open spec fn ends(s: Seq<char>, p: Seq<char>) -> bool {
    p.len() <= s.len() && s.skip(s.len() - p.len()) == p
}

/// Whether the text starts with `p`.
pub fn starts_with(s: &[char], p: &str) -> (r: bool)
    ensures
        r == starts(s@, p@),
{
    let p = chars_of(p);
    if p.len() > s.len() {
        return false;
    }
    let head = slice_subrange(s, 0, p.len());
    assert(head@ =~= s@.take(p@.len() as int));
    same(head, p.as_slice())
}

/// Whether the text ends with `p`.
pub fn ends_with(s: &[char], p: &str) -> (r: bool)
    ensures
        r == ends(s@, p@),
{
    let p = chars_of(p);
    if p.len() > s.len() {
        return false;
    }
    let tail = slice_subrange(s, s.len() - p.len(), s.len());
    assert(tail@ =~= s@.skip(s@.len() - p@.len()));
    same(tail, p.as_slice())
}

/// Drops `p` from the start, where it stands there.
pub fn strip_prefix<'a>(s: &'a [char], p: &str) -> (r: Option<&'a [char]>)
    ensures
        r is Some <==> starts(s@, p@),
        r matches Some(t) ==> t@ == s@.skip(p@.len() as int),
{
    if starts_with(s, p) {
        let n = chars_of(p).len();
        let t = slice_subrange(s, n, s.len());
        assert(t@ =~= s@.skip(n as int));
        Some(t)
    } else {
        None
    }
}

/// Drops `p` from the end, where it stands there.
pub fn strip_suffix<'a>(s: &'a [char], p: &str) -> (r: Option<&'a [char]>)
    ensures
        r is Some <==> ends(s@, p@),
        r matches Some(t) ==> t@ == s@.take(s@.len() - p@.len()),
{
    if ends_with(s, p) {
        let n = chars_of(p).len();
        let t = slice_subrange(s, 0, s.len() - n);
        assert(t@ =~= s@.take(s@.len() - n));
        Some(t)
    } else {
        None
    }
}

/// Whether `p` stands in `s` at index `i`.
pub open spec fn occurs(s: Seq<char>, p: Seq<char>, i: int) -> bool {
    0 <= i && i + p.len() <= s.len() && s.subrange(i, i + p.len()) == p
}

/// The first index, not before `from`, at which `p` stands in `s`.
pub open spec fn index_from(s: Seq<char>, p: Seq<char>, from: int) -> Option<int>
    decreases s.len() + 1 - from,
{
    if from < 0 || from + p.len() > s.len() {
        None
    } else if occurs(s, p, from) {
        Some(from)
    } else {
        index_from(s, p, from + 1)
    }
}

/// The first index at which `p` stands in `s`.
pub open spec fn index_of(s: Seq<char>, p: Seq<char>) -> Option<int> {
    index_from(s, p, 0)
}

/// `index_from` is the least occurrence from there on.
pub proof fn lemma_index_from(s: Seq<char>, p: Seq<char>, from: int)
    requires
        0 <= from,
    ensures
        match index_from(s, p, from) {
            Some(i) => from <= i && occurs(s, p, i) && forall|j: int|
                from <= j < i ==> !#[trigger] occurs(s, p, j),
            None => forall|j: int| from <= j ==> !#[trigger] occurs(s, p, j),
        },
    decreases s.len() + 1 - from,
{
    if from + p.len() > s.len() {
    } else if occurs(s, p, from) {
    } else {
        lemma_index_from(s, p, from + 1);
    }
}

/// Finds the first occurrence of `p`.
pub fn find(s: &[char], p: &str) -> (r: Option<usize>)
    ensures
        match r {
            Some(i) => index_of(s@, p@) == Some(i as int) && i + p@.len() <= s@.len(),
            None => index_of(s@, p@) is None,
        },
{
    let pat = chars_of(p);
    let m = pat.len();
    if m > s.len() {
        return None;
    }
    let last: usize = s.len() - m;
    let mut i: usize = 0;
    while i <= last
        invariant
            pat@ == p@,
            m == p@.len(),
            last == s.len() - m,
            s.len() == s@.len(),
            i <= last + 1,
            m <= s@.len(),
            index_of(s@, p@) == index_from(s@, p@, i as int),
        decreases last + 1 - i,
    {
        if same(slice_subrange(s, i, i + m), pat.as_slice()) {
            return Some(i);
        }
        if i == last {
            assert(index_from(s@, p@, i + 1) is None);
            return None;
        }
        i += 1;
    }
    None
}

/// The text with every occurrence of `p`, taken from the left, replaced by `to`.
pub open spec fn replaced(s: Seq<char>, p: Seq<char>, to: Seq<char>) -> Seq<char>
    decreases s.len(),
    via replaced_decreases
{
    if p.len() == 0 {
        s
    } else {
        match index_of(s, p) {
            None => s,
            Some(i) => s.take(i) + to + replaced(s.skip(i + p.len()), p, to),
        }
    }
}

#[via_fn]
proof fn replaced_decreases(s: Seq<char>, p: Seq<char>, to: Seq<char>) {
    lemma_index_from(s, p, 0);
}

/// Adds characters to the end of a text.
pub fn extend(out: &mut String, t: &[char])
    ensures
        final(out)@ == old(out)@ + t@,
{
    let ghost start = out@;
    for i in 0..t.len()
        invariant
            out@ == start + t@.take(i as int),
    {
        out.push(t[i]);
        assert(t@.take(i + 1) =~= t@.take(i as int).push(t@[i as int]));
    }
    assert(t@.take(t@.len() as int) =~= t@);
}

/// Replaces every occurrence of `p` by `to`.
pub fn replace(s: &[char], p: &str, to: &str) -> (r: String)
    requires
        p@.len() > 0,
    ensures
        r@ == replaced(s@, p@, to@),
{
    let n = chars_of(p).len();
    let mut out = String::new();
    let mut rest: &[char] = s;
    assert(out@ + replaced(rest@, p@, to@) =~= replaced(s@, p@, to@));
    loop
        invariant
            n == p@.len(),
            n > 0,
            out@ + replaced(rest@, p@, to@) == replaced(s@, p@, to@),
        decreases rest@.len(),
    {
        match find(rest, p) {
            None => {
                extend(&mut out, rest);
                return out;
            },
            Some(i) => {
                let ghost before = out@;
                let len = rest.len();
                let head = slice_subrange(rest, 0, i);
                let next = slice_subrange(rest, i + n, len);
                extend(&mut out, head);
                out.append(to);
                proof {
                    assert(head@ =~= rest@.take(i as int));
                    assert(next@ =~= rest@.skip(i + n));
                    assert(out@ + replaced(next@, p@, to@) =~= before + replaced(rest@, p@, to@));
                }
                rest = next;
            },
        }
    }
}

/// A line without the carriage return that may end it.
pub open spec fn without_return(s: Seq<char>) -> Seq<char> {
    if s.len() > 0 && s.last() == '\r' {
        s.drop_last()
    } else {
        s
    }
}

/// The lines of a text. A line ends with a line feed, or with a carriage return and a line
/// feed; the last one may go without.
pub open spec fn lines_of(s: Seq<char>) -> Seq<Seq<char>>
    decreases s.len(),
    via lines_of_decreases
{
    let n = until(s, Sep::Is('\n'));
    if s.len() == 0 {
        seq![]
    } else if n >= s.len() {
        seq![s]
    } else {
        seq![without_return(s.take(n))] + lines_of(s.skip(n + 1))
    }
}

#[via_fn]
proof fn lines_of_decreases(s: Seq<char>) {
    lemma_until(s, Sep::Is('\n'));
}

/// Splits a text into its lines.
pub fn lines(s: &[char]) -> (r: Vec<String>)
    ensures
        texts(r@) == lines_of(s@),
{
    broadcast use lemma_texts_push;

    let mut out: Vec<String> = Vec::new();
    let mut rest: &[char] = s;
    proof {
        lemma_texts_empty();
        assert(texts(out@) + lines_of(rest@) =~= lines_of(s@));
    }
    while rest.len() > 0
        invariant
            texts(out@) + lines_of(rest@) == lines_of(s@),
        decreases rest@.len(),
    {
        let n = reach(rest, Sep::Is('\n'));
        if n >= rest.len() {
            out.push(string_of(rest));
            assert(texts(out@) =~= lines_of(s@));
            return out;
        }
        let ghost before = texts(out@);
        let end: usize = if n > 0 && rest[n - 1] == '\r' {
            n - 1
        } else {
            n
        };
        let piece = slice_subrange(rest, 0, end);
        let next = slice_subrange(rest, n + 1, rest.len());
        out.push(string_of(piece));
        proof {
            assert(piece@ =~= without_return(rest@.take(n as int)));
            assert(next@ =~= rest@.skip(n + 1));
            assert(texts(out@) + lines_of(next@) =~= before + lines_of(rest@));
        }
        rest = next;
    }
    assert(texts(out@) =~= lines_of(s@));
    out
}

/// One text after the other.
pub fn cat(a: &str, b: &str) -> (r: String)
    ensures
        r@ == a@ + b@,
{
    let mut out = a.to_owned();
    out.append(b);
    out
}

/// Three texts, one after the other.
pub fn cat3(a: &str, b: &str, c: &str) -> (r: String)
    ensures
        r@ == a@ + b@ + c@,
{
    let mut out = cat(a, b);
    out.append(c);
    out
}

/// The texts with the separator between each two.
pub open spec fn joined(v: Seq<Seq<char>>, by: Seq<char>) -> Seq<char>
    decreases v.len(),
{
    if v.len() == 0 {
        seq![]
    } else if v.len() == 1 {
        v[0]
    } else {
        joined(v.drop_last(), by) + by + v.last()
    }
}

/// Puts texts together with a separator between each two.
pub fn join(v: &Vec<String>, by: &str) -> (r: String)
    ensures
        r@ == joined(texts(v@), by@),
{
    let mut out = String::new();
    assert(texts(v@).take(0) =~= Seq::empty());
    for i in 0..v.len()
        invariant
            out@ == joined(texts(v@).take(i as int), by@),
    {
        proof {
            let t = texts(v@).take(i + 1);
            assert(t.drop_last() =~= texts(v@).take(i as int));
            assert(t.last() == v@[i as int]@);
        }
        if i > 0 {
            out.append(by);
        }
        out.append(v[i].as_str());
        assert(out@ =~= joined(texts(v@).take(i + 1), by@));
    }
    assert(texts(v@).take(v@.len() as int) =~= texts(v@));
    out
}

/// A digit of a number written in a base up to sixteen.
pub open spec fn digit(n: int) -> char {
    if n < 10 {
        ('0' as u32 + n) as char
    } else {
        ('a' as u32 + n - 10) as char
    }
}

/// A number in decimal, without leading zeros.
pub open spec fn decimal(n: nat) -> Seq<char>
    decreases n,
{
    if n < 10 {
        seq![digit(n as int)]
    } else {
        decimal(n / 10).push(digit(n as int % 10))
    }
}

fn digit_of(n: u8) -> (r: char)
    requires
        n < 16,
    ensures
        r == digit(n as int),
{
    if n < 10 {
        (48u8 + n) as char
    } else {
        (97u8 + (n - 10)) as char
    }
}

/// Writes a number in decimal.
pub fn to_decimal(n: usize) -> (r: String)
    ensures
        r@ == decimal(n as nat),
    decreases n,
{
    if n < 10 {
        let mut out = String::new();
        out.push(digit_of(n as u8));
        assert(out@ =~= decimal(n as nat));
        out
    } else {
        let mut out = to_decimal(n / 10);
        out.push(digit_of((n % 10) as u8));
        out
    }
}

/// The last `width` digits of a number in base sixteen, with leading zeros.
pub open spec fn hexadecimal(n: nat, width: nat) -> Seq<char>
    decreases width,
{
    if width == 0 {
        seq![]
    } else {
        hexadecimal(n / 16, (width - 1) as nat).push(digit(n as int % 16))
    }
}

/// Writes the last `width` digits of a number in base sixteen.
pub fn to_hexadecimal(n: u64, width: usize) -> (r: String)
    ensures
        r@ == hexadecimal(n as nat, width as nat),
    decreases width,
{
    if width == 0 {
        let out = String::new();
        assert(out@ =~= hexadecimal(n as nat, 0));
        out
    } else {
        let mut out = to_hexadecimal(n / 16, width - 1);
        out.push(digit_of((n % 16) as u8));
        out
    }
}

/// How many bytes a text takes.
pub open spec fn byte_len(s: Seq<char>) -> usize {
    encode_utf8(s).len() as usize
}

/// Counts the bytes that a text takes.
pub fn bytes_in(s: &str) -> (r: usize)
    ensures
        r == byte_len(s@),
{
    s.len()
}

/// Whether a character is a digit of base eight.
pub open spec fn is_octal(c: char) -> bool {
    '0' <= c <= '7'
}

/// Whether a text is made of digits of base eight alone.
pub open spec fn all_octal(s: Seq<char>) -> bool {
    forall|i: int| 0 <= i < s.len() ==> is_octal(#[trigger] s[i])
}

/// The number that digits of base eight write.
pub open spec fn octal_value(s: Seq<char>) -> nat
    decreases s.len(),
{
    if s.len() == 0 {
        0
    } else {
        (octal_value(s.drop_last()) * 8 + (s.last() as int - '0' as int)) as nat
    }
}

/// A text without a leading plus sign.
pub open spec fn unsigned(s: Seq<char>) -> Seq<char> {
    if s.len() > 0 && s[0] == '+' {
        s.skip(1)
    } else {
        s
    }
}

/// The number that a text writes in base eight, where it writes one that fits.
pub open spec fn octal_number(s: Seq<char>) -> Option<u32> {
    let digits = unsigned(s);
    if digits.len() > 0 && all_octal(digits) && octal_value(digits) <= u32::MAX {
        Some(octal_value(digits) as u32)
    } else {
        None
    }
}

proof fn lemma_octal_grows(s: Seq<char>, n: int)
    requires
        all_octal(s),
        0 <= n <= s.len(),
    ensures
        octal_value(s.take(n)) <= octal_value(s),
    decreases s.len() - n,
{
    if n == s.len() {
        assert(s.take(n) =~= s);
    } else {
        let t = s.take(n + 1);
        assert(t.drop_last() =~= s.take(n));
        assert(is_octal(s[n]));
        assert(octal_value(t) >= octal_value(s.take(n)));
        lemma_octal_grows(s, n + 1);
    }
}

/// Reads a number in base eight.
pub fn parse_octal(s: &str) -> (r: Option<u32>)
    ensures
        r == octal_number(s@),
{
    let c = chars_of(s);
    let from: usize = if c.len() > 0 && c[0] == '+' {
        1
    } else {
        0
    };
    let ghost digits = unsigned(s@);
    assert(digits =~= c@.skip(from as int));
    if from == c.len() {
        return None;
    }
    let mut value: u64 = 0;
    assert(digits.take(0) =~= Seq::empty());
    for i in from..c.len()
        invariant
            c@ == s@,
            digits == unsigned(s@),
            digits == c@.skip(from as int),
            from <= i <= c@.len(),
            all_octal(digits.take(i - from)),
            value == octal_value(digits.take(i - from)),
            value <= u32::MAX,
    {
        let x = c[i];
        assert(x == digits[i - from]);
        if !('0' <= x && x <= '7') {
            assert(!is_octal(digits[i - from]));
            return None;
        }
        let ghost n = i - from;
        proof {
            let t = digits.take(n + 1);
            assert(t.drop_last() =~= digits.take(n));
            assert forall|k: int| 0 <= k < t.len() implies is_octal(#[trigger] t[k]) by {
                if k < n {
                    assert(digits.take(n)[k] == t[k]);
                }
            }
        }
        value = value * 8 + (x as u64 - '0' as u64);
        if value > 0xffff_ffff {
            proof {
                if all_octal(digits) {
                    lemma_octal_grows(digits, n + 1);
                }
            }
            return None;
        }
    }
    assert(digits.take(digits.len() as int) =~= digits);
    Some(value as u32)
}

/// A number in base eight, in at least `width` digits.
pub open spec fn octal_text(n: nat, width: nat) -> Seq<char>
    decreases n + width,
{
    if n == 0 && width == 0 {
        seq![]
    } else {
        octal_text(n / 8, if width == 0 {
            0
        } else {
            (width - 1) as nat
        }).push(digit(n as int % 8))
    }
}

/// Writes a number in base eight, in at least `width` digits.
pub fn to_octal(n: u32, width: usize) -> (r: String)
    ensures
        r@ == octal_text(n as nat, width as nat),
    decreases n + width,
{
    if n == 0 && width == 0 {
        let out = String::new();
        assert(out@ =~= octal_text(0, 0));
        out
    } else {
        let w: usize = if width == 0 {
            0
        } else {
            width - 1
        };
        let mut out = to_octal(n / 8, w);
        out.push(digit_of((n % 8) as u8));
        out
    }
}

/// A text without a separator is one piece.
pub proof fn law_nothing_to_cut(s: Seq<char>, sep: Sep)
    requires
        forall|i: int| 0 <= i < s.len() ==> !sep.cuts(#[trigger] s[i]),
    ensures
        fragments(s, sep) == seq![s],
        split_first(s, sep) is None,
        until(s, sep) == s.len(),
{
    lemma_until_is(s, sep, s.len() as int);
}

/// A text is cut at every separator: the pieces are those before it and those after it.
pub proof fn law_cut_at_every_separator(a: Seq<char>, c: char, b: Seq<char>, sep: Sep)
    requires
        sep.cuts(c),
    ensures
        fragments(a + seq![c] + b, sep) == fragments(a, sep) + fragments(b, sep),
    decreases a.len(),
{
    let all = a + seq![c] + b;
    let n = until(a, sep);
    lemma_until(a, sep);
    assert forall|i: int| 0 <= i < n implies !sep.cuts(#[trigger] all[i]) by {
        assert(all[i] == a[i]);
    }
    if n >= a.len() {
        assert(all[n] == c);
        lemma_until_is(all, sep, n);
        assert(all.take(n) =~= a);
        assert(all.skip(n + 1) =~= b);
    } else {
        assert(all[n] == a[n]);
        lemma_until_is(all, sep, n);
        let rest = a.skip(n + 1);
        assert(all.take(n) =~= a.take(n));
        assert(all.skip(n + 1) =~= rest + seq![c] + b);
        law_cut_at_every_separator(rest, c, b, sep);
        assert(fragments(all, sep) =~= fragments(a, sep) + fragments(b, sep));
    }
}

/// A text is split at its first separator.
pub proof fn law_split_at_the_first(a: Seq<char>, c: char, b: Seq<char>, sep: Sep)
    requires
        forall|i: int| 0 <= i < a.len() ==> !sep.cuts(#[trigger] a[i]),
        sep.cuts(c),
    ensures
        split_first(a + seq![c] + b, sep) == Some((a, b)),
        until(a + seq![c] + b, sep) == a.len(),
{
    let all = a + seq![c] + b;
    assert forall|i: int| 0 <= i < a.len() implies !sep.cuts(#[trigger] all[i]) by {
        assert(all[i] == a[i]);
    }
    assert(all[a.len() as int] == c);
    lemma_until_is(all, sep, a.len() as int);
    assert(all.take(a.len() as int) =~= a);
    assert(all.skip(a.len() as int + 1) =~= b);
}

/// What stands behind the last separator.
pub proof fn law_after_the_last(a: Seq<char>, c: char, b: Seq<char>, sep: Sep)
    requires
        forall|i: int| 0 <= i < b.len() ==> !sep.cuts(#[trigger] b[i]),
        sep.cuts(c),
    ensures
        after_last(a + seq![c] + b, sep) == b,
    decreases b.len(),
{
    let all = a + seq![c] + b;
    if b.len() == 0 {
        assert(all.last() == c);
        assert(b =~= Seq::empty());
    } else {
        let head = b.drop_last();
        assert(all.last() == b.last());
        assert(b.last() == b[b.len() - 1]);
        assert(all.drop_last() =~= a + seq![c] + head);
        assert forall|i: int| 0 <= i < head.len() implies !sep.cuts(#[trigger] head[i]) by {
            assert(head[i] == b[i]);
        }
        law_after_the_last(a, c, head, sep);
        assert(head.push(b.last()) =~= b);
    }
}

/// Without a separator the whole text stands behind the last one.
pub proof fn law_nothing_before(s: Seq<char>, sep: Sep)
    requires
        forall|i: int| 0 <= i < s.len() ==> !sep.cuts(#[trigger] s[i]),
    ensures
        after_last(s, sep) == s,
    decreases s.len(),
{
    if s.len() > 0 {
        let head = s.drop_last();
        assert(s.last() == s[s.len() - 1]);
        assert forall|i: int| 0 <= i < head.len() implies !sep.cuts(#[trigger] head[i]) by {
            assert(head[i] == s[i]);
        }
        law_nothing_before(head, sep);
        assert(head.push(s.last()) =~= s);
    }
}

/// Only pieces that hold something are kept.
pub proof fn law_nonempty_pieces(a: Seq<Seq<char>>, b: Seq<Seq<char>>, piece: Seq<char>)
    ensures
        nonempty(a + b) == nonempty(a) + nonempty(b),
        piece.len() > 0 ==> nonempty(seq![piece]) == seq![piece],
        piece.len() == 0 ==> nonempty(seq![piece]).len() == 0,
    decreases b.len(),
{
    let one = seq![piece];
    assert(one.last() == piece);
    assert(one.drop_last() =~= Seq::empty());
    assert(nonempty(one.drop_last()) =~= Seq::empty());
    assert(Seq::<Seq<char>>::empty().push(piece) =~= one);
    if b.len() == 0 {
        assert(a + b =~= a);
        assert(nonempty(a) + nonempty(b) =~= nonempty(a));
    } else {
        assert((a + b).drop_last() =~= a + b.drop_last());
        assert((a + b).last() == b.last());
        law_nonempty_pieces(a, b.drop_last(), piece);
        assert(nonempty(a + b) =~= nonempty(a) + nonempty(b));
    }
}

/// The words of a text are those before a space and those after it; a text without a space
/// is one word, and an empty one none.
pub proof fn law_words_stand_between_spaces(a: Seq<char>, c: char, b: Seq<char>)
    ensures
        is_space(c) ==> words_of(a + seq![c] + b) == words_of(a) + words_of(b),
        (forall|i: int| 0 <= i < a.len() ==> !is_space(#[trigger] a[i])) && a.len() > 0
            ==> words_of(a) == seq![a],
        words_of(Seq::<char>::empty()).len() == 0,
{
    if is_space(c) {
        law_cut_at_every_separator(a, c, b, Sep::Space);
        law_nonempty_pieces(fragments(a, Sep::Space), fragments(b, Sep::Space), a);
    }
    if forall|i: int| 0 <= i < a.len() ==> !is_space(#[trigger] a[i]) {
        assert forall|i: int| 0 <= i < a.len() implies !Sep::Space.cuts(#[trigger] a[i]) by {
            assert(!is_space(a[i]));
        }
        law_nothing_to_cut(a, Sep::Space);
        law_nonempty_pieces(seq![], seq![], a);
    }
    law_nothing_to_cut(Seq::<char>::empty(), Sep::Space);
    law_nonempty_pieces(seq![], seq![], Seq::<char>::empty());
}

/// A text is read line by line: a line ends at its line feed, and a carriage return before
/// it belongs to the end. The last line needs no line feed.
pub proof fn law_lines_end_at_line_feeds(a: Seq<char>, b: Seq<char>)
    requires
        !a.contains('\n'),
    ensures
        a.len() == 0 || a.last() != '\r' ==> lines_of(a + seq!['\n'] + b) == seq![a] + lines_of(b),
        lines_of(a + seq!['\r', '\n'] + b) == seq![a] + lines_of(b),
        a.len() > 0 ==> lines_of(a) == seq![a],
        lines_of(Seq::<char>::empty()).len() == 0,
{
    let sep = Sep::Is('\n');
    assert forall|i: int| 0 <= i < a.len() implies !sep.cuts(#[trigger] a[i]) by {
        if a[i] == '\n' {
            assert(a.contains('\n'));
        }
    }
    law_split_at_the_first(a, '\n', b, sep);
    let all = a + seq!['\n'] + b;
    assert(all.take(a.len() as int) =~= a);
    assert(all.skip(a.len() as int + 1) =~= b);
    let cr = a + seq!['\r'];
    assert forall|i: int| 0 <= i < cr.len() implies !sep.cuts(#[trigger] cr[i]) by {
        if i < a.len() {
            assert(cr[i] == a[i]);
        }
    }
    law_split_at_the_first(cr, '\n', b, sep);
    let long = cr + seq!['\n'] + b;
    assert(long =~= a + seq!['\r', '\n'] + b);
    assert(long.take(cr.len() as int) =~= cr);
    assert(long.skip(cr.len() as int + 1) =~= b);
    assert(cr.drop_last() =~= a);
    law_nothing_to_cut(a, sep);
}

/// Trimming takes separators from both ends, all of them and nothing else.
pub proof fn law_trimmed_at_both_ends(l: Seq<char>, s: Seq<char>, r: Seq<char>, sep: Sep)
    requires
        forall|i: int| 0 <= i < l.len() ==> sep.cuts(#[trigger] l[i]),
        forall|i: int| 0 <= i < r.len() ==> sep.cuts(#[trigger] r[i]),
        s.len() > 0,
        !sep.cuts(s[0]),
        !sep.cuts(s.last()),
    ensures
        trim_ends(l + s + r, sep) == s,
        trim_left(l + s + r, sep) == s + r,
        trim_right(l + s + r, sep) == l + s,
        trim_ends(l, sep).len() == 0,
        trim_left(l, sep).len() == 0,
{
    lemma_trim_left(l, s + r, sep);
    assert(l + s + r =~= l + (s + r));
    assert((s + r)[0] == s[0]);
    lemma_trim_right(s, r, sep);
    lemma_trim_right(l + s, r, sep);
    assert((l + s).last() == s.last());
    lemma_trim_left(l, Seq::empty(), sep);
    assert(l + Seq::<char>::empty() =~= l);
}

proof fn lemma_trim_left(l: Seq<char>, s: Seq<char>, sep: Sep)
    requires
        forall|i: int| 0 <= i < l.len() ==> sep.cuts(#[trigger] l[i]),
        s.len() > 0 ==> !sep.cuts(s[0]),
    ensures
        trim_left(l + s, sep) == s,
    decreases l.len(),
{
    if l.len() == 0 {
        assert(l + s =~= s);
    } else {
        let rest = l.drop_first();
        assert((l + s)[0] == l[0]);
        assert((l + s).drop_first() =~= rest + s);
        assert forall|i: int| 0 <= i < rest.len() implies sep.cuts(#[trigger] rest[i]) by {
            assert(rest[i] == l[i + 1]);
        }
        lemma_trim_left(rest, s, sep);
    }
}

proof fn lemma_trim_right(s: Seq<char>, r: Seq<char>, sep: Sep)
    requires
        forall|i: int| 0 <= i < r.len() ==> sep.cuts(#[trigger] r[i]),
        s.len() > 0 ==> !sep.cuts(s.last()),
    ensures
        trim_right(s + r, sep) == s,
    decreases r.len(),
{
    if r.len() == 0 {
        assert(s + r =~= s);
    } else {
        let rest = r.drop_last();
        assert((s + r).last() == r.last());
        assert(r.last() == r[r.len() - 1]);
        assert((s + r).drop_last() =~= s + rest);
        assert forall|i: int| 0 <= i < rest.len() implies sep.cuts(#[trigger] rest[i]) by {
            assert(rest[i] == r[i]);
        }
        lemma_trim_right(s, rest, sep);
    }
}

/// A text starts and ends with another where it is that other with something behind or
/// before it.
pub proof fn law_starts_and_ends(s: Seq<char>, p: Seq<char>)
    ensures
        starts(s, p) <==> exists|t: Seq<char>| s == #[trigger] (p + t),
        ends(s, p) <==> exists|t: Seq<char>| s == #[trigger] (t + p),
{
    if starts(s, p) {
        assert(s =~= p + s.skip(p.len() as int));
    }
    if exists|t: Seq<char>| s == #[trigger] (p + t) {
        assert(s.take(p.len() as int) =~= p);
    }
    if ends(s, p) {
        assert(s =~= s.take(s.len() - p.len()) + p);
    }
    if exists|t: Seq<char>| s == #[trigger] (t + p) {
        assert(s.skip(s.len() - p.len()) =~= p);
    }
}

/// A text is found at the first place where it stands.
pub proof fn law_found_at_the_first_place(s: Seq<char>, p: Seq<char>)
    ensures
        index_of(s, p) is None <==> !(exists|a: Seq<char>, b: Seq<char>|
            s == #[trigger] (a + p + b)),
        index_of(s, p) matches Some(i) ==> 0 <= i <= s.len() - p.len() && s == s.take(i) + p
            + s.skip(i + p.len()),
        forall|a: Seq<char>, b: Seq<char>|
            s == #[trigger] (a + p + b) ==> (index_of(s, p) matches Some(i) && i <= a.len()),
{
    lemma_index_from(s, p, 0);
    assert forall|a: Seq<char>, b: Seq<char>| s == #[trigger] (a + p + b) implies (index_of(s, p)
        matches Some(i) && i <= a.len()) by {
        assert(s.subrange(a.len() as int, a.len() as int + p.len()) =~= p);
        assert(occurs(s, p, a.len() as int));
    }
    match index_of(s, p) {
        Some(i) => {
            assert(s =~= s.take(i) + p + s.skip(i + p.len()));
        },
        None => {},
    }
}

/// Replacing replaces every place, from the front on, and keeps what stands between them.
pub proof fn law_every_place_is_replaced(
    a: Seq<char>,
    p: Seq<char>,
    b: Seq<char>,
    to: Seq<char>,
)
    requires
        p.len() > 0,
    ensures
        index_of(a, p) is None ==> replaced(a, p, to) == a,
        index_of(a + p + b, p) == Some(a.len() as int) ==> replaced(a + p + b, p, to) == a + to
            + replaced(b, p, to),
{
    let s = a + p + b;
    assert(s.take(a.len() as int) =~= a);
    assert(s.skip(a.len() as int + p.len()) =~= b);
}

/// Joined texts stand one behind the other with the joint between them.
pub proof fn law_joints_stand_between(a: Seq<Seq<char>>, b: Seq<Seq<char>>, by: Seq<char>)
    ensures
        a.len() > 0 && b.len() > 0 ==> joined(a + b, by) == joined(a, by) + by + joined(b, by),
        a.len() == 1 ==> joined(a, by) == a[0],
        a.len() == 0 ==> joined(a, by).len() == 0,
    decreases b.len(),
{
    if a.len() > 0 && b.len() > 0 {
        let ab = a + b;
        assert(ab.drop_last() =~= a + b.drop_last());
        assert(ab.last() == b.last());
        if b.len() == 1 {
            assert(a + b.drop_last() =~= a);
        } else {
            law_joints_stand_between(a, b.drop_last(), by);
            assert(joined(ab, by) =~= joined(a, by) + by + joined(b, by));
        }
    }
}

/// What a text of digits stands for in a base.
pub open spec fn stands_for(s: Seq<char>, base: nat) -> nat
    decreases s.len(),
{
    if s.len() == 0 {
        0
    } else {
        stands_for(s.drop_last(), base) * base + (if '0' <= s.last() <= '9' {
            (s.last() as int - '0' as int) as nat
        } else {
            (s.last() as int - 'a' as int + 10) as nat
        })
    }
}

proof fn lemma_digit(n: int)
    requires
        0 <= n < 16,
    ensures
        n < 10 ==> '0' <= digit(n) <= '9' && digit(n) as int - '0' as int == n,
        n >= 10 ==> 'a' <= digit(n) <= 'f' && digit(n) as int - 'a' as int + 10 == n,
{
}

/// A number is written with decimal digits that stand for it, and without leading zeros.
pub proof fn law_decimals_stand_for_their_number(n: nat)
    ensures
        stands_for(decimal(n), 10) == n,
        decimal(n).len() > 0,
        forall|i: int| 0 <= i < decimal(n).len() ==> '0' <= #[trigger] decimal(n)[i] <= '9',
        n > 0 ==> decimal(n)[0] != '0',
    decreases n,
{
    let s = decimal(n);
    if n < 10 {
        lemma_digit(n as int);
        assert(s.drop_last() =~= Seq::empty());
        assert(stands_for(s.drop_last(), 10) == 0);
    } else {
        law_decimals_stand_for_their_number(n / 10);
        lemma_digit(n as int % 10);
        assert(s.drop_last() =~= decimal(n / 10));
        assert(s[0] == decimal(n / 10)[0]);
        assert forall|i: int| 0 <= i < s.len() implies '0' <= #[trigger] s[i] <= '9' by {
            if i < s.len() - 1 {
                assert(s[i] == decimal(n / 10)[i]);
            }
        }
    }
}

/// A number is written in octal with digits that stand for it, at least as many as asked for.
pub proof fn law_octals_stand_for_their_number(n: nat, width: nat)
    ensures
        octal_value(octal_text(n, width)) == n,
        all_octal(octal_text(n, width)),
        octal_text(n, width).len() >= width,
    decreases n + width,
{
    let s = octal_text(n, width);
    if n > 0 || width > 0 {
        let w = if width == 0 {
            0
        } else {
            (width - 1) as nat
        };
        law_octals_stand_for_their_number(n / 8, w);
        lemma_digit(n as int % 8);
        let head = octal_text(n / 8, w);
        assert(s.drop_last() =~= head);
        assert forall|i: int| 0 <= i < s.len() implies is_octal(#[trigger] s[i]) by {
            if i < s.len() - 1 {
                assert(s[i] == head[i]);
            }
        }
    }
}

/// What is written in octal is read back.
pub proof fn law_written_octals_are_read_back(n: u32, width: nat)
    requires
        width > 0,
    ensures
        octal_number(octal_text(n as nat, width)) == Some(n),
        octal_number(seq!['+'] + octal_text(n as nat, width)) == Some(n),
{
    let s = octal_text(n as nat, width);
    law_octals_stand_for_their_number(n as nat, width);
    assert(is_octal(s[0]));
    assert((seq!['+'] + s).skip(1) =~= s);
}

/// Nothing but octal digits is read, and at least one is needed.
pub proof fn law_only_octal_digits_are_read(s: Seq<char>)
    ensures
        s.len() == 0 ==> octal_number(s) is None,
        forall|i: int|
            0 <= i < s.len() && !('0' <= #[trigger] s[i] <= '7') && (i > 0 || s[i] != '+')
                ==> octal_number(s) is None,
        octal_number(s) matches Some(n) ==> n == octal_value(unsigned(s)),
{
    assert forall|i: int|
        0 <= i < s.len() && !('0' <= #[trigger] s[i] <= '7') && (i > 0 || s[i]
            != '+') implies octal_number(s) is None by {
        let d = unsigned(s);
        if s[0] == '+' {
            assert(d[i - 1] == s[i]);
            assert(!is_octal(d[i - 1]));
        } else {
            assert(!is_octal(d[i]));
        }
    }
}

/// An octal number grows by one digit at a time.
pub proof fn law_octal_digits_weigh_eight(s: Seq<char>, d: char)
    requires
        '0' <= d <= '7',
    ensures
        octal_value(s.push(d)) == octal_value(s) * 8 + (d as int - '0' as int),
        octal_value(Seq::<char>::empty()) == 0,
{
    assert(s.push(d).drop_last() =~= s);
}

/// A number is written in hexadecimal with as many digits as asked for; where these are
/// enough for it they stand for it, so that two numbers are never written alike.
pub proof fn law_hexadecimals_stand_for_their_number(n: nat, width: nat)
    ensures
        hexadecimal(n, width).len() == width,
        n < capacity(width) ==> stands_for(hexadecimal(n, width), 16) == n,
    decreases width,
{
    if width > 0 {
        let w = (width - 1) as nat;
        let s = hexadecimal(n, width);
        law_hexadecimals_stand_for_their_number(n / 16, w);
        lemma_digit(n as int % 16);
        assert(s.drop_last() =~= hexadecimal(n / 16, w));
        if n < capacity(width) {
            let c = capacity(w);
            assert(n < 16 * c);
            assert(n / 16 < c);
        }
    }
}

/// How many numbers can be written with a number of hexadecimal digits.
pub open spec fn capacity(width: nat) -> nat
    decreases width,
{
    if width == 0 {
        1
    } else {
        16 * capacity((width - 1) as nat)
    }
}

/// Sixteen hexadecimal digits are enough for every number of sixty-four bits.
pub proof fn law_sixteen_digits_are_enough(a: u64, b: u64)
    ensures
        hexadecimal(a as nat, 16) == hexadecimal(b as nat, 16) ==> a == b,
{
    reveal_with_fuel(capacity, 17);
    assert(capacity(16) == 0x1_0000_0000_0000_0000);
    law_hexadecimals_stand_for_their_number(a as nat, 16);
    law_hexadecimals_stand_for_their_number(b as nat, 16);
}

/// No piece that is kept is empty.
pub proof fn law_nothing_empty_is_kept(pieces: Seq<Seq<char>>)
    ensures
        forall|i: int| 0 <= i < nonempty(pieces).len() ==> (#[trigger] nonempty(pieces)[i]).len() > 0,
    decreases pieces.len(),
{
    if pieces.len() > 0 {
        law_nothing_empty_is_kept(pieces.drop_last());
        let all = nonempty(pieces);
        let before = nonempty(pieces.drop_last());
        assert forall|i: int| 0 <= i < all.len() implies (#[trigger] all[i]).len() > 0 by {
            if i < before.len() {
                assert(all[i] == before[i]);
            }
        }
    }
}

/// What separates: the marks between commands of a line, and all but letters, digits, dashes
/// and underscores between words.
pub proof fn law_what_separates(c: char, x: char)
    ensures
        Sep::Is(x).cuts(c) <==> c == x,
        Sep::Pipeline.cuts(c) <==> c == '|' || c == ';' || c == '&',
        Sep::NonWord.cuts(c) <==> !char_is_alphanumeric(c) && c != '-' && c != '_',
        Sep::Space.cuts(c) <==> is_space(c),
        is_space(c) <==> {
            let n = c as u32;
            9 <= n <= 13 || n == 32 || n == 0x85 || n == 0xa0 || n == 0x1680 || 0x2000 <= n <= 0x200a
                || n == 0x2028 || n == 0x2029 || n == 0x202f || n == 0x205f || n == 0x3000
        },
{
}

} // verus!
