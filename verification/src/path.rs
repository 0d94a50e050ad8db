//! Lexical handling of `/`-separated paths, by their components.
//!
//! Two spellings of a path are the same path when they have the same components:
//! repeated separators, a trailing separator and a `.` that does not lead the path do not
//! count.
use crate::order::{
    lemma_text_antisymmetric, lemma_text_total, lemma_text_transitive, text_le, text_not_after,
};
use crate::text::{
    after_last, cat, chars_of, cut, fragments, law_after_the_last, law_nothing_before,
    lemma_texts_empty, lemma_texts_push, lemma_until,
    lemma_until_is, same_text, string_of, tail_after, texts, until, Sep,
};
use vstd::prelude::*;
use vstd::slice::slice_subrange;

verus! {

/// The component that stands for the root of the file system.
pub open spec fn root_part() -> Seq<char> {
    seq!['/']
}

/// The component that stands for the current directory.
pub open spec fn here_part() -> Seq<char> {
    seq!['.']
}

/// The component that stands for the parent directory.
pub open spec fn parent_part() -> Seq<char> {
    seq!['.', '.']
}

/// Whether a piece between separators counts as a component behind the first piece.
pub open spec fn counts(piece: Seq<char>) -> bool {
    piece.len() > 0 && piece != here_part()
}

/// The pieces that count, in order.
pub open spec fn counted(pieces: Seq<Seq<char>>) -> Seq<Seq<char>>
    decreases pieces.len(),
{
    if pieces.len() == 0 {
        seq![]
    } else if counts(pieces.last()) {
        counted(pieces.drop_last()).push(pieces.last())
    } else {
        counted(pieces.drop_last())
    }
}

/// Whether a path starts at the root of the file system.
pub open spec fn absolute(s: Seq<char>) -> bool {
    s.len() > 0 && s[0] == '/'
}

/// The components of a path.
pub open spec fn components(s: Seq<char>) -> Seq<Seq<char>> {
    let pieces = fragments(s, Sep::Is('/'));
    if absolute(s) {
        seq![root_part()] + counted(pieces)
    } else if pieces[0] == here_part() {
        seq![here_part()] + counted(pieces)
    } else {
        counted(pieces)
    }
}

fn is_here(s: &str) -> (r: bool)
    ensures
        r == (s@ == here_part()),
{
    let c = chars_of(s);
    if c.len() == 1 && c[0] == '.' {
        assert(c@ =~= here_part());
        true
    } else {
        assert(c.len() == 1 ==> here_part()[0] == '.');
        false
    }
}

fn is_root(s: &str) -> (r: bool)
    ensures
        r == (s@ == root_part()),
{
    let c = chars_of(s);
    if c.len() == 1 && c[0] == '/' {
        assert(c@ =~= root_part());
        true
    } else {
        assert(c.len() == 1 ==> root_part()[0] == '/');
        false
    }
}

fn is_parent(s: &str) -> (r: bool)
    ensures
        r == (s@ == parent_part()),
{
    let c = chars_of(s);
    if c.len() == 2 && c[0] == '.' && c[1] == '.' {
        assert(c@ =~= parent_part());
        true
    } else {
        assert(c.len() == 2 ==> parent_part()[0] == '.' && parent_part()[1] == '.');
        false
    }
}

/// Whether a path starts at the root of the file system.
pub fn is_absolute(s: &str) -> (r: bool)
    ensures
        r == absolute(s@),
{
    let c = chars_of(s);
    c.len() > 0 && c[0] == '/'
}

/// Splits a path into its components.
pub fn parts(s: &str) -> (r: Vec<String>)
    ensures
        texts(r@) == components(s@),
{
    broadcast use lemma_texts_push;

    let c = chars_of(s);
    let pieces = cut(c.as_slice(), Sep::Is('/'));
    let mut out: Vec<String> = Vec::new();
    proof {
        lemma_texts_empty();
    }
    let ghost all = texts(pieces@);
    assert(all[0] == pieces@[0]@);
    let ghost lead: Seq<Seq<char>> = if absolute(s@) {
        seq![root_part()]
    } else if all[0] == here_part() {
        seq![here_part()]
    } else {
        seq![]
    };
    if c.len() > 0 && c[0] == '/' {
        let mut root = String::new();
        root.push('/');
        assert(root@ =~= root_part());
        out.push(root);
        assert(texts(out@) =~= lead);
    } else if is_here(pieces[0].as_str()) {
        out.push(pieces[0].clone());
        assert(texts(out@) =~= lead);
    }
    assert(all.take(0) =~= Seq::empty());
    assert(texts(out@) =~= lead + counted(all.take(0)));
    for i in 0..pieces.len()
        invariant
            all == texts(pieces@),
            texts(out@) == lead + counted(all.take(i as int)),
    {
        proof {
            let t = all.take(i + 1);
            assert(t.drop_last() =~= all.take(i as int));
            assert(t.last() == pieces@[i as int]@);
        }
        let piece = &pieces[i];
        let ghost before = texts(out@);
        if !piece.as_str().is_empty() && !is_here(piece.as_str()) {
            out.push(piece.clone());
            assert(counts(piece@));
            assert(texts(out@) == before.push(piece@));
            assert(texts(out@) =~= lead + counted(all.take(i + 1)));
        } else {
            assert(!counts(piece@));
        }
    }
    assert(all.take(all.len() as int) =~= all);
    assert(texts(out@) =~= components(s@));
    out
}

/// Whether two spellings name the same path.
pub open spec fn same_path(a: Seq<char>, b: Seq<char>) -> bool {
    components(a) == components(b)
}

/// Whether the path `a` lies at or below the path `b`, by whole components.
pub open spec fn within(a: Seq<char>, b: Seq<char>) -> bool {
    components(b).len() <= components(a).len() && components(a).take(
        components(b).len() as int,
    ) == components(b)
}

/// Whether the first texts of `a` are the texts of `b`.
fn leads(a: &Vec<String>, b: &Vec<String>) -> (r: bool)
    ensures
        r == (b@.len() <= a@.len() && texts(a@).take(b@.len() as int) == texts(b@)),
{
    if b.len() > a.len() {
        return false;
    }
    for i in 0..b.len()
        invariant
            b@.len() <= a@.len(),
            forall|j: int| 0 <= j < i ==> (#[trigger] a@[j])@ == b@[j]@,
    {
        if !same_text(a[i].as_str(), b[i].as_str()) {
            assert(texts(a@).take(b@.len() as int)[i as int] != texts(b@)[i as int]);
            return false;
        }
    }
    assert(texts(a@).take(b@.len() as int) =~= texts(b@));
    true
}

/// Whether two spellings name the same path.
pub fn path_eq(a: &str, b: &str) -> (r: bool)
    ensures
        r == same_path(a@, b@),
{
    let x = parts(a);
    let y = parts(b);
    let r = x.len() == y.len() && leads(&x, &y);
    assert(texts(x@).take(x@.len() as int) =~= texts(x@));
    r
}

/// Whether the path `a` lies at or below the path `b`.
pub fn path_within(a: &str, b: &str) -> (r: bool)
    ensures
        r == within(a@, b@),
{
    let x = parts(a);
    let y = parts(b);
    leads(&x, &y)
}

/// A path lies at or below itself, however it is spelled.
pub proof fn law_within_reflexive(a: Seq<char>, b: Seq<char>)
    requires
        same_path(a, b),
    ensures
        within(a, b),
{
    assert(components(a).take(components(a).len() as int) =~= components(a));
}

/// What lies below a path that lies below another lies below that one too.
pub proof fn law_within_transitive(a: Seq<char>, b: Seq<char>, c: Seq<char>)
    requires
        within(a, b),
        within(b, c),
    ensures
        within(a, c),
{
    assert(components(a).take(components(c).len() as int) =~= components(b).take(
        components(c).len() as int,
    ));
}

/// A path put behind another; an absolute one replaces it.
pub open spec fn under(base: Seq<char>, rel: Seq<char>) -> Seq<char> {
    if absolute(rel) {
        rel
    } else if base.len() == 0 || base.last() == '/' {
        base + rel
    } else {
        base + seq!['/'] + rel
    }
}

/// Puts a path behind another.
pub fn path_join(base: &str, rel: &str) -> (r: String)
    ensures
        r@ == under(base@, rel@),
{
    if is_absolute(rel) {
        return rel.to_owned();
    }
    let c = chars_of(base);
    if c.len() == 0 || c[c.len() - 1] == '/' {
        cat(base, rel)
    } else {
        let mut out = base.to_owned();
        out.push('/');
        out.append(rel);
        assert(out@ =~= base@ + seq!['/'] + rel@);
        out
    }
}

/// Whether a component is a name, and not the root, `.` or `..`.
pub open spec fn is_name(part: Seq<char>) -> bool {
    part != root_part() && part != here_part() && part != parent_part()
}

/// The last component of a path, where it is a name.
pub open spec fn file_name(s: Seq<char>) -> Option<Seq<char>> {
    let c = components(s);
    if c.len() > 0 && is_name(c.last()) {
        Some(c.last())
    } else {
        None
    }
}

/// Where the dot of the extension stands in a name; below one where there is none: a dot
/// that starts the name makes no extension.
pub open spec fn extension_dot(name: Seq<char>) -> int {
    name.len() - after_last(name, Sep::Is('.')).len() - 1
}

/// What stands behind the last dot of a name.
pub open spec fn name_extension(name: Seq<char>) -> Option<Seq<char>> {
    if extension_dot(name) > 0 {
        Some(after_last(name, Sep::Is('.')))
    } else {
        None
    }
}

/// What stands before the last dot of a name.
pub open spec fn name_stem(name: Seq<char>) -> Seq<char> {
    if extension_dot(name) > 0 {
        name.take(extension_dot(name))
    } else {
        name
    }
}

/// The extension of the file that a path names.
pub open spec fn extension(s: Seq<char>) -> Option<Seq<char>> {
    match file_name(s) {
        Some(name) => name_extension(name),
        None => None,
    }
}

/// The extension of the file that a path names.
pub fn path_extension(s: &str) -> (r: Option<String>)
    ensures
        match r {
            Some(e) => extension(s@) == Some(e@),
            None => extension(s@) is None,
        },
{
    let p = parts(s);
    if p.len() == 0 {
        return None;
    }
    let name = &p[p.len() - 1];
    assert(components(s@).last() == name@);
    if is_root(name.as_str()) || is_here(name.as_str()) || is_parent(name.as_str()) {
        return None;
    }
    let c = chars_of(name.as_str());
    let tail = tail_after(c.as_slice(), Sep::Is('.'));
    if c.len() > tail.len() && c.len() - tail.len() > 1 {
        Some(string_of(tail))
    } else {
        None
    }
}

/// The name of a file without its extension.
pub fn stem(name: &str) -> (r: String)
    ensures
        r@ == name_stem(name@),
{
    let c = chars_of(name);
    let tail = tail_after(c.as_slice(), Sep::Is('.'));
    if c.len() > tail.len() && c.len() - tail.len() > 1 {
        let head = slice_subrange(c.as_slice(), 0, c.len() - tail.len() - 1);
        assert(head@ =~= name@.take(extension_dot(name@)));
        string_of(head)
    } else {
        name.to_owned()
    }
}

/// Whether a path stays inside the directory it is relative to: it does not start at the
/// root of the file system and no component leads upwards.
pub open spec fn contained(s: Seq<char>) -> bool {
    !absolute(s) && !components(s).contains(parent_part())
}

/// Whether a path stays inside the directory it is relative to.
pub fn is_contained(s: &str) -> (r: bool)
    ensures
        r == contained(s@),
{
    if is_absolute(s) {
        return false;
    }
    let p = parts(s);
    for i in 0..p.len()
        invariant
            texts(p@) == components(s@),
            forall|j: int| 0 <= j < i ==> (#[trigger] p@[j])@ != parent_part(),
    {
        if is_parent(p[i].as_str()) {
            assert(components(s@)[i as int] == parent_part());
            return false;
        }
    }
    proof {
        if components(s@).contains(parent_part()) {
            let j = choose|j: int|
                0 <= j < components(s@).len() && components(s@)[j] == parent_part();
            assert(p@[j]@ == parent_part());
        }
    }
    true
}

/// The kinds of component in the order in which they sort.
pub open spec fn part_rank(part: Seq<char>) -> int {
    if part == root_part() {
        0
    } else if part == here_part() {
        1
    } else if part == parent_part() {
        2
    } else {
        3
    }
}

/// The order of components: the root, `.`, `..`, then the names.
pub open spec fn part_le(a: Seq<char>, b: Seq<char>) -> bool {
    part_rank(a) < part_rank(b) || (part_rank(a) == part_rank(b) && text_le(a, b))
}

/// The order of lists of components: by the first that differs, a shorter list first.
pub open spec fn parts_le(a: Seq<Seq<char>>, b: Seq<Seq<char>>) -> bool
    decreases a.len(),
{
    if a.len() == 0 {
        true
    } else if b.len() == 0 {
        false
    } else if a[0] != b[0] {
        part_le(a[0], b[0])
    } else {
        parts_le(a.drop_first(), b.drop_first())
    }
}

/// The order of paths, by their components.
pub open spec fn path_le(a: Seq<char>, b: Seq<char>) -> bool {
    parts_le(components(a), components(b))
}

/// Of two lists of components one is at most the other.
pub proof fn lemma_parts_total(a: Seq<Seq<char>>, b: Seq<Seq<char>>)
    ensures
        parts_le(a, b) || parts_le(b, a),
    decreases a.len(),
{
    if a.len() > 0 && b.len() > 0 {
        if a[0] == b[0] {
            lemma_parts_total(a.drop_first(), b.drop_first());
        } else {
            lemma_text_total(a[0], b[0]);
        }
    }
}

/// The order of lists of components is transitive.
pub proof fn lemma_parts_transitive(a: Seq<Seq<char>>, b: Seq<Seq<char>>, c: Seq<Seq<char>>)
    requires
        parts_le(a, b),
        parts_le(b, c),
    ensures
        parts_le(a, c),
    decreases a.len(),
{
    if a.len() > 0 && b.len() > 0 && c.len() > 0 {
        if a[0] == b[0] && b[0] == c[0] {
            lemma_parts_transitive(a.drop_first(), b.drop_first(), c.drop_first());
        } else if a[0] != b[0] && b[0] != c[0] {
            if part_rank(a[0]) == part_rank(b[0]) && part_rank(b[0]) == part_rank(c[0]) {
                lemma_text_transitive(a[0], b[0], c[0]);
            }
            if a[0] == c[0] {
                lemma_text_antisymmetric(a[0], b[0]);
            }
        }
    }
}

fn rank_of(part: &str) -> (r: u8)
    ensures
        r == part_rank(part@),
{
    if is_root(part) {
        0
    } else if is_here(part) {
        1
    } else if is_parent(part) {
        2
    } else {
        3
    }
}

/// Whether a path stands at or before another.
pub fn path_not_after(a: &str, b: &str) -> (r: bool)
    ensures
        r == path_le(a@, b@),
{
    let x = parts(a);
    let y = parts(b);
    let ghost cx = components(a@);
    let ghost cy = components(b@);
    let mut i: usize = 0;
    assert(cx.skip(0) =~= cx);
    assert(cy.skip(0) =~= cy);
    while i < x.len() && i < y.len()
        invariant
            texts(x@) == cx,
            texts(y@) == cy,
            cx == components(a@),
            cy == components(b@),
            i <= x@.len(),
            i <= y@.len(),
            path_le(a@, b@) == parts_le(cx.skip(i as int), cy.skip(i as int)),
        decreases x@.len() - i,
    {
        assert(cx.skip(i as int)[0] == x@[i as int]@);
        assert(cy.skip(i as int)[0] == y@[i as int]@);
        if !same_text(x[i].as_str(), y[i].as_str()) {
            let p = rank_of(x[i].as_str());
            let q = rank_of(y[i].as_str());
            return p < q || (p == q && text_not_after(x[i].as_str(), y[i].as_str()));
        }
        assert(cx.skip(i as int).drop_first() =~= cx.skip(i + 1));
        assert(cy.skip(i as int).drop_first() =~= cy.skip(i + 1));
        i += 1;
    }
    i >= x.len()
}

/// Whether a list of texts holds a spelling of the path.
pub open spec fn lists_path(v: Seq<String>, p: Seq<char>) -> bool {
    exists|i: int| 0 <= i < v.len() && same_path((#[trigger] v[i])@, p)
}

/// Whether a list of texts holds a spelling of the path.
pub fn path_listed(v: &Vec<String>, p: &str) -> (r: bool)
    ensures
        r == lists_path(v@, p@),
{
    for i in 0..v.len()
        invariant
            forall|j: int| 0 <= j < i ==> !same_path((#[trigger] v@[j])@, p@),
    {
        if path_eq(v[i].as_str(), p) {
            return true;
        }
    }
    false
}

proof fn lemma_fragments_join(a: Seq<char>, b: Seq<char>)
    ensures
        fragments(a + seq!['/'] + b, Sep::Is('/')) == fragments(a, Sep::Is('/')) + fragments(
            b,
            Sep::Is('/'),
        ),
    decreases a.len(),
{
    let sep = Sep::Is('/');
    let all = a + seq!['/'] + b;
    let n = until(a, sep);
    lemma_until(a, sep);
    lemma_until_is(all, sep, n);
    if n >= a.len() {
        assert(all.take(n) =~= a);
        assert(all.skip(n + 1) =~= b);
    } else {
        assert(all.take(n) =~= a.take(n));
        assert(all.skip(n + 1) =~= a.skip(n + 1) + seq!['/'] + b);
        lemma_fragments_join(a.skip(n + 1), b);
        assert(seq![a.take(n)] + (fragments(a.skip(n + 1), sep) + fragments(b, sep)) =~= (seq![
            a.take(n),
        ] + fragments(a.skip(n + 1), sep)) + fragments(b, sep));
    }
}

proof fn lemma_counted_join(x: Seq<Seq<char>>, y: Seq<Seq<char>>)
    ensures
        counted(x + y) == counted(x) + counted(y),
    decreases y.len(),
{
    if y.len() == 0 {
        assert(x + y =~= x);
        assert(counted(x) + counted(y) =~= counted(x));
    } else {
        assert((x + y).drop_last() =~= x + y.drop_last());
        lemma_counted_join(x, y.drop_last());
        if counts(y.last()) {
            assert((counted(x) + counted(y.drop_last())).push(y.last()) =~= counted(x) + counted(
                y.drop_last(),
            ).push(y.last()));
        }
    }
}

/// A relative path put behind another adds its components to those of the other.
pub proof fn law_joined_components(base: Seq<char>, rel: Seq<char>)
    requires
        base.len() > 0,
        !absolute(rel),
    ensures
        components(under(base, rel)) == components(base) + counted(fragments(rel, Sep::Is('/'))),
{
    let sep = Sep::Is('/');
    let tail = fragments(rel, sep);
    let all = under(base, rel);
    if base.last() == '/' {
        let dir = base.drop_last();
        assert(all =~= dir + seq!['/'] + rel);
        assert(base =~= dir + seq!['/'] + Seq::<char>::empty());
        lemma_fragments_join(dir, rel);
        lemma_fragments_join(dir, Seq::empty());
        lemma_counted_join(fragments(dir, sep), tail);
        lemma_counted_join(fragments(dir, sep), fragments(Seq::<char>::empty(), sep));
        assert(fragments(Seq::<char>::empty(), sep) == seq![Seq::<char>::empty()]);
        reveal_with_fuel(counted, 2);
        assert(counted(seq![Seq::<char>::empty()]) =~= seq![]);
        assert(counted(fragments(base, sep)) =~= counted(fragments(dir, sep)));
        assert(fragments(all, sep)[0] == fragments(dir, sep)[0]);
        assert(fragments(base, sep)[0] == fragments(dir, sep)[0]);
    } else {
        assert(all =~= base + seq!['/'] + rel);
        lemma_fragments_join(base, rel);
        lemma_counted_join(fragments(base, sep), tail);
        assert(fragments(all, sep)[0] == fragments(base, sep)[0]);
    }
    assert(absolute(all) == absolute(base));
    assert(components(all) =~= components(base) + counted(tail));
}

/// A path that stays inside its directory lies at or below the directory it is put behind,
/// and nothing that it adds leads upwards.
pub proof fn law_contained_stays_below(base: Seq<char>, rel: Seq<char>)
    requires
        contained(rel),
    ensures
        within(under(base, rel), base),
        forall|i: int|
            components(base).len() <= i < components(under(base, rel)).len() ==> #[trigger]
            components(under(base, rel))[i] != parent_part(),
{
    let sep = Sep::Is('/');
    let tail = counted(fragments(rel, sep));
    assert(forall|i: int| 0 <= i < tail.len() ==> #[trigger] components(rel).contains(tail[i])) by {
        assert forall|i: int| 0 <= i < tail.len() implies #[trigger] components(rel).contains(
            tail[i],
        ) by {
            if fragments(rel, sep)[0] == here_part() {
                assert(components(rel)[i + 1] == tail[i]);
            } else {
                assert(components(rel)[i] == tail[i]);
            }
        }
    }
    if base.len() == 0 {
        assert(under(base, rel) =~= rel);
        reveal_with_fuel(counted, 2);
        assert(fragments(base, sep) == seq![base]);
        assert(components(base) =~= seq![]);
        assert(components(rel).take(0) =~= seq![]);
        assert forall|i: int| 0 <= i < components(rel).len() implies #[trigger] components(rel)[i]
            != parent_part() by {
            assert(components(rel).contains(components(rel)[i]));
        }
    } else {
        law_joined_components(base, rel);
        let all = components(under(base, rel));
        assert(all.take(components(base).len() as int) =~= components(base));
        assert forall|i: int| components(base).len() <= i < all.len() implies #[trigger] all[i]
            != parent_part() by {
            let k = i - components(base).len();
            assert(all[i] == tail[k]);
            assert(components(rel).contains(tail[k]));
        }
    }
}

/// A name is the one component of itself.
pub proof fn law_names_are_components(name: Seq<char>)
    requires
        name.len() > 0,
        !name.contains('/'),
    ensures
        components(name) == seq![name],
        components(Seq::<char>::empty()).len() == 0,
        components(seq!['/']) == seq![seq!['/']],
{
    lemma_one_fragment(name);
    assert(name[0] != '/') by {
        if name[0] == '/' {
            assert(name.contains('/'));
        }
    }
    law_pieces_that_count(name);
    lemma_one_fragment(Seq::empty());
    law_pieces_that_count(Seq::empty());
    let none = Seq::<char>::empty();
    assert(seq!['/'] =~= none + seq!['/'] + none);
    lemma_fragments_join(none, none);
    lemma_counted_join(seq![none], seq![none]);
    assert(components(seq!['/']) =~= seq![seq!['/']]);
    if name == here_part() {
        assert(components(name) =~= seq![name]);
    }
}

proof fn lemma_one_fragment(s: Seq<char>)
    requires
        !s.contains('/'),
    ensures
        fragments(s, Sep::Is('/')) == seq![s],
{
    assert forall|i: int| 0 <= i < s.len() implies !Sep::Is('/').cuts(#[trigger] s[i]) by {
        if s[i] == '/' {
            assert(s.contains('/'));
        }
    }
    lemma_until_is(s, Sep::Is('/'), s.len() as int);
}

/// Between two separators, only what is there and is not the directory itself counts.
pub proof fn law_pieces_that_count(piece: Seq<char>)
    ensures
        counted(seq![piece]) == if piece.len() == 0 || piece == seq!['.'] {
            Seq::<Seq<char>>::empty()
        } else {
            seq![piece]
        },
{
    assert(seq![piece].last() == piece);
    assert(seq![piece].drop_last() =~= Seq::empty());
    assert(counted(seq![piece].drop_last()) =~= Seq::empty());
    assert(Seq::<Seq<char>>::empty().push(piece) =~= seq![piece]);
}

/// Pieces count one by one.
pub proof fn law_pieces_count_one_by_one(a: Seq<Seq<char>>, b: Seq<Seq<char>>)
    ensures
        counted(a + b) == counted(a) + counted(b),
{
    lemma_counted_join(a, b);
}

/// A path has the components of what stands before a separator, and then those of what
/// stands behind it; how many separators stand there makes no difference, and at the end
/// of a path none does.
pub proof fn law_separators_only_separate(a: Seq<char>, b: Seq<char>)
    requires
        a.len() > 0,
    ensures
        components(a + seq!['/'] + b) == components(a) + counted(fragments(b, Sep::Is('/'))),
        !absolute(b) && b != seq!['.'] && !(b.len() > 1 && b[0] == '.' && b[1] == '/')
            ==> components(a + seq!['/'] + b) == components(a) + components(b),
        components(a + seq!['/']) == components(a),
        components(a + seq!['/', '/'] + b) == components(a + seq!['/'] + b),
        components(a + seq!['/', '.', '/'] + b) == components(a + seq!['/'] + b),
{
    let sep = Sep::Is('/');
    lemma_behind(a, b);
    lemma_behind(a, Seq::empty());
    assert(a + seq!['/'] + Seq::<char>::empty() =~= a + seq!['/']);
    lemma_one_fragment(Seq::empty());
    law_pieces_that_count(Seq::empty());
    assert(components(a) + Seq::<Seq<char>>::empty() =~= components(a));
    let slash = seq!['/'] + b;
    lemma_behind(a, slash);
    assert(a + seq!['/'] + slash =~= a + seq!['/', '/'] + b);
    assert(Seq::<char>::empty() + seq!['/'] + b =~= slash);
    lemma_fragments_join(Seq::empty(), b);
    lemma_counted_join(seq![Seq::<char>::empty()], fragments(b, sep));
    assert(counted(fragments(slash, sep)) =~= counted(fragments(b, sep)));
    let dot = seq!['.', '/'] + b;
    lemma_behind(a, dot);
    assert(a + seq!['/'] + dot =~= a + seq!['/', '.', '/'] + b);
    assert(seq!['.'] + seq!['/'] + b =~= dot);
    lemma_fragments_join(seq!['.'], b);
    lemma_one_fragment(seq!['.']);
    law_pieces_that_count(seq!['.']);
    lemma_counted_join(seq![seq!['.']], fragments(b, sep));
    assert(counted(fragments(dot, sep)) =~= counted(fragments(b, sep)));
    if !absolute(b) && b != seq!['.'] && !(b.len() > 1 && b[0] == '.' && b[1] == '/') {
        lemma_until(b, sep);
        let n = until(b, sep);
        if fragments(b, sep)[0] == here_part() {
            if n >= b.len() {
                assert(b == here_part());
            } else {
                assert(fragments(b, sep)[0] == b.take(n));
                assert(b.take(n).len() == 1);
                assert(b.take(n)[0] == b[0]);
                assert(b[0] == '.');
                assert(b[1] == '/');
            }
        }
    }
}

proof fn lemma_behind(a: Seq<char>, b: Seq<char>)
    requires
        a.len() > 0,
    ensures
        components(a + seq!['/'] + b) == components(a) + counted(fragments(b, Sep::Is('/'))),
{
    let sep = Sep::Is('/');
    let all = a + seq!['/'] + b;
    lemma_fragments_join(a, b);
    lemma_counted_join(fragments(a, sep), fragments(b, sep));
    lemma_until(a, sep);
    assert(fragments(a, sep).len() > 0);
    assert(fragments(all, sep)[0] == fragments(a, sep)[0]);
    assert(all[0] == a[0]);
    assert(components(all) =~= components(a) + counted(fragments(b, sep)));
}

/// An absolute path has the root as its first component.
pub proof fn law_absolute_paths_begin_at_the_root(b: Seq<char>)
    ensures
        components(seq!['/'] + b) == seq![seq!['/']] + counted(fragments(b, Sep::Is('/'))),
        absolute(seq!['/'] + b),
{
    let sep = Sep::Is('/');
    let none = Seq::<char>::empty();
    assert(none + seq!['/'] + b =~= seq!['/'] + b);
    lemma_fragments_join(none, b);
    lemma_one_fragment(none);
    law_pieces_that_count(none);
    lemma_counted_join(seq![none], fragments(b, sep));
    assert(counted(fragments(seq!['/'] + b, sep)) =~= counted(fragments(b, sep)));
}

/// A path lies at or below another exactly where it has that one's components and then its
/// own.
pub proof fn law_below_means_more_components(a: Seq<char>, b: Seq<char>)
    ensures
        within(a, b) <==> exists|rest: Seq<Seq<char>>| components(a) == #[trigger] (components(b)
            + rest),
        same_path(a, b) <==> within(a, b) && within(b, a),
{
    let x = components(a);
    let y = components(b);
    if within(a, b) {
        assert(x =~= y + x.skip(y.len() as int));
    }
    if exists|rest: Seq<Seq<char>>| x == #[trigger] (y + rest) {
        assert(x.take(y.len() as int) =~= y);
    }
    if same_path(a, b) {
        assert(x.take(x.len() as int) =~= x);
    }
    if within(a, b) && within(b, a) {
        assert(x.take(y.len() as int) =~= x);
    }
}

/// The name of a file is its last component.
pub proof fn law_files_are_named_by_their_last_component(dir: Seq<char>, name: Seq<char>)
    requires
        name.len() > 0,
        !name.contains('/'),
        name != seq!['.'],
    ensures
        name != seq!['.', '.'] ==> file_name(name) == Some(name),
        name != seq!['.', '.'] ==> file_name(dir + seq!['/'] + name) == Some(name),
        name == seq!['.', '.'] ==> file_name(dir + seq!['/'] + name) is None,
{
    law_names_are_components(name);
    lemma_one_fragment(name);
    law_pieces_that_count(name);
    assert(name != root_part()) by {
        if name == root_part() {
            assert(name[0] == '/');
            assert(name.contains('/'));
        }
    }
    if dir.len() > 0 {
        lemma_behind(dir, name);
        assert(components(dir + seq!['/'] + name).last() == name);
    } else {
        law_absolute_paths_begin_at_the_root(name);
        assert(dir + seq!['/'] + name =~= seq!['/'] + name);
        assert(components(seq!['/'] + name).last() == name);
    }
}

/// The extension of a name is what stands behind its last dot, and the stem is what stands
/// before it.
pub proof fn law_extensions_stand_behind_the_last_dot(stem: Seq<char>, ext: Seq<char>)
    requires
        stem.len() > 0,
        !ext.contains('.'),
    ensures
        name_extension(stem + seq!['.'] + ext) == Some(ext),
        name_stem(stem + seq!['.'] + ext) == stem,
{
    let name = stem + seq!['.'] + ext;
    assert forall|i: int| 0 <= i < ext.len() implies !Sep::Is('.').cuts(#[trigger] ext[i]) by {
        if ext[i] == '.' {
            assert(ext.contains('.'));
        }
    }
    law_after_the_last(stem, '.', ext, Sep::Is('.'));
    assert(name.take(stem.len() as int) =~= stem);
}

/// A name without a dot, or with none but the one that it begins with, has no extension.
pub proof fn law_hidden_names_have_no_extension(name: Seq<char>)
    requires
        !name.contains('.'),
    ensures
        name_extension(name) is None,
        name_stem(name) == name,
        name_extension(seq!['.'] + name) is None,
        name_stem(seq!['.'] + name) == seq!['.'] + name,
{
    assert forall|i: int| 0 <= i < name.len() implies !Sep::Is('.').cuts(#[trigger] name[i]) by {
        if name[i] == '.' {
            assert(name.contains('.'));
        }
    }
    law_nothing_before(name, Sep::Is('.'));
    law_after_the_last(Seq::empty(), '.', name, Sep::Is('.'));
    assert(Seq::<char>::empty() + seq!['.'] + name =~= seq!['.'] + name);
}

/// A path stays inside exactly where it is relative and no component leads upwards.
pub proof fn law_what_leads_outside(s: Seq<char>)
    ensures
        contained(s) <==> !(s.len() > 0 && s[0] == '/') && forall|i: int|
            0 <= i < components(s).len() ==> #[trigger] components(s)[i] != seq!['.', '.'],
{
    let c = components(s);
    if c.contains(parent_part()) {
        let i = choose|i: int| 0 <= i < c.len() && c[i] == parent_part();
        assert(components(s)[i] == seq!['.', '.']);
    }
    if !(forall|i: int| 0 <= i < c.len() ==> #[trigger] components(s)[i] != seq!['.', '.']) {
        let i = choose|i: int|
            0 <= i < c.len() && #[trigger] components(s)[i] == seq!['.', '.'];
        assert(c[i] == parent_part());
    }
}

/// Paths are ordered by the first component in which they differ, names by their text; what
/// lies below a path comes behind it.
pub proof fn law_first_component_decides(
    p: Seq<Seq<char>>,
    a: Seq<Seq<char>>,
    b: Seq<Seq<char>>,
)
    ensures
        parts_le(p + a, p + b) == parts_le(a, b),
        parts_le(p, p + a),
        a.len() > 0 ==> !parts_le(p + a, p),
        a.len() > 0 && b.len() > 0 && is_name(a[0]) && is_name(b[0]) && a[0] != b[0] ==> parts_le(
            a,
            b,
        ) == text_le(a[0], b[0]),
        a.len() > 0 && b.len() > 0 && !is_name(a[0]) && is_name(b[0]) ==> parts_le(a, b)
            && !parts_le(b, a),
    decreases p.len(),
{
    if p.len() == 0 {
        assert(p + a =~= a);
        assert(p + b =~= b);
    } else {
        let q = p.drop_first();
        assert((p + a).drop_first() =~= q + a);
        assert((p + b).drop_first() =~= q + b);
        law_first_component_decides(q, a, b);
    }
}

/// An absolute path stays itself wherever it is put behind, and behind nothing a path is
/// itself.
pub proof fn law_absolute_paths_replace(base: Seq<char>, rel: Seq<char>)
    ensures
        under(base, seq!['/'] + rel) == seq!['/'] + rel,
        under(Seq::empty(), rel) == rel,
        !absolute(rel) && base.len() > 0 ==> components(under(base, rel)) == components(
            base + seq!['/'] + rel,
        ),
{
    assert((seq!['/'] + rel)[0] == '/');
    assert(Seq::<char>::empty() + rel =~= rel);
    if !absolute(rel) && base.len() > 0 {
        law_joined_components(base, rel);
        lemma_behind(base, rel);
    }
}

/// The root comes before the directory itself, that before its parent, and names come behind
/// all of them.
pub proof fn law_what_comes_before_names(name: Seq<char>, a: Seq<Seq<char>>, b: Seq<Seq<char>>)
    requires
        is_name(name),
    ensures
        parts_le(seq![seq!['/']] + a, seq![seq!['.']] + b) && !parts_le(
            seq![seq!['.']] + b,
            seq![seq!['/']] + a,
        ),
        parts_le(seq![seq!['.']] + a, seq![seq!['.', '.']] + b) && !parts_le(
            seq![seq!['.', '.']] + b,
            seq![seq!['.']] + a,
        ),
        parts_le(seq![seq!['.', '.']] + a, seq![name] + b) && !parts_le(
            seq![name] + b,
            seq![seq!['.', '.']] + a,
        ),
{
    let (r, h, p) = (seq!['/'], seq!['.'], seq!['.', '.']);
    assert(r[0] == '/' && h[0] == '.' && p.len() == 2 && h.len() == 1 && r.len() == 1);
    assert((seq![r] + a)[0] == r && (seq![h] + a)[0] == h && (seq![p] + a)[0] == p);
    assert((seq![h] + b)[0] == h && (seq![p] + b)[0] == p && (seq![name] + b)[0] == name);
    assert(r != h && h != p && r != p);
    assert(name != p && name != h && name != r);
}

} // verus!
