//! The order of texts, and stable sorting.
use crate::text::chars_of;
use vstd::prelude::*;

verus! {

/// The order of texts by their characters, the same as that of their UTF-8 bytes.
pub open spec fn text_le(a: Seq<char>, b: Seq<char>) -> bool
    decreases a.len(),
{
    if a.len() == 0 {
        true
    } else if b.len() == 0 {
        false
    } else if a[0] != b[0] {
        a[0] < b[0]
    } else {
        text_le(a.drop_first(), b.drop_first())
    }
}

/// A text that stands strictly before another.
pub open spec fn text_lt(a: Seq<char>, b: Seq<char>) -> bool {
    text_le(a, b) && a != b
}

/// Every text is at most itself.
pub proof fn lemma_text_reflexive(a: Seq<char>)
    ensures
        text_le(a, a),
    decreases a.len(),
{
    if a.len() > 0 {
        lemma_text_reflexive(a.drop_first());
    }
}

/// Of two texts one is at most the other.
pub proof fn lemma_text_total(a: Seq<char>, b: Seq<char>)
    ensures
        text_le(a, b) || text_le(b, a),
    decreases a.len(),
{
    if a.len() > 0 && b.len() > 0 && a[0] == b[0] {
        lemma_text_total(a.drop_first(), b.drop_first());
    }
}

/// Texts that are at most each other are the same.
pub proof fn lemma_text_antisymmetric(a: Seq<char>, b: Seq<char>)
    requires
        text_le(a, b),
        text_le(b, a),
    ensures
        a == b,
    decreases a.len(),
{
    if a.len() > 0 && b.len() > 0 {
        lemma_text_antisymmetric(a.drop_first(), b.drop_first());
        assert(a =~= seq![a[0]] + a.drop_first());
        assert(b =~= seq![b[0]] + b.drop_first());
    } else {
        assert(a =~= b);
    }
}

/// The order of texts is transitive.
pub proof fn lemma_text_transitive(a: Seq<char>, b: Seq<char>, c: Seq<char>)
    requires
        text_le(a, b),
        text_le(b, c),
    ensures
        text_le(a, c),
    decreases a.len(),
{
    if a.len() > 0 && b.len() > 0 && c.len() > 0 && a[0] == b[0] && b[0] == c[0] {
        lemma_text_transitive(a.drop_first(), b.drop_first(), c.drop_first());
    }
}

/// Whether a text stands at or before another.
pub fn text_not_after(a: &str, b: &str) -> (r: bool)
    ensures
        r == text_le(a@, b@),
{
    let x = chars_of(a);
    let y = chars_of(b);
    let mut i: usize = 0;
    assert(x@.skip(0) =~= x@);
    assert(y@.skip(0) =~= y@);
    while i < x.len() && i < y.len()
        invariant
            x@ == a@,
            y@ == b@,
            i <= x@.len(),
            i <= y@.len(),
            text_le(x@, y@) == text_le(x@.skip(i as int), y@.skip(i as int)),
        decreases x@.len() - i,
    {
        assert(x@.skip(i as int)[0] == x@[i as int]);
        assert(y@.skip(i as int)[0] == y@[i as int]);
        if x[i] != y[i] {
            return x[i] < y[i];
        }
        assert(x@.skip(i as int).drop_first() =~= x@.skip(i + 1));
        assert(y@.skip(i as int).drop_first() =~= y@.skip(i + 1));
        i += 1;
    }
    i >= x.len()
}

/// Something with a place in an order, in which two different values may tie.
pub trait Ranked: Sized {
    /// Whether `self` stands at or before `other`.
    spec fn at_most(self, other: Self) -> bool;

    /// Of two values one is at most the other.
    proof fn total(a: Self, b: Self)
        ensures
            a.at_most(b) || b.at_most(a),
    ;

    /// The order is transitive.
    proof fn transitive(a: Self, b: Self, c: Self)
        requires
            a.at_most(b),
            b.at_most(c),
        ensures
            a.at_most(c),
    ;
}

/// Something that can be put in order.
pub trait Sortable: Ranked {
    /// Whether `self` stands at or before `other`.
    fn not_after(&self, other: &Self) -> (r: bool)
        ensures
            r == self.at_most(*other),
    ;
}

/// `x` put before the first item of `t` that is not before it.
pub open spec fn placed<T: Ranked>(x: T, t: Seq<T>) -> Seq<T>
    decreases t.len(),
{
    if t.len() == 0 {
        seq![x]
    } else if x.at_most(t[0]) {
        seq![x] + t
    } else {
        seq![t[0]] + placed(x, t.drop_first())
    }
}

/// The items in order; those that tie keep the order they came in.
pub open spec fn sorted_of<T: Ranked>(s: Seq<T>) -> Seq<T>
    decreases s.len(),
{
    if s.len() == 0 {
        seq![]
    } else {
        placed(s[0], sorted_of(s.drop_first()))
    }
}

/// Whether every item stands at or before those that follow it.
pub open spec fn in_order<T: Ranked>(s: Seq<T>) -> bool {
    forall|i: int, j: int| 0 <= i < j < s.len() ==> (#[trigger] s[i]).at_most(#[trigger] s[j])
}

/// Whether two items tie.
pub open spec fn tied<T: Ranked>(a: T, b: T) -> bool {
    a.at_most(b) && b.at_most(a)
}

/// The items that tie with `x`.
pub open spec fn ties_of<T: Ranked>(s: Seq<T>, x: T) -> Seq<T>
    decreases s.len(),
{
    if s.len() == 0 {
        seq![]
    } else if tied(s[0], x) {
        seq![s[0]] + ties_of(s.drop_first(), x)
    } else {
        ties_of(s.drop_first(), x)
    }
}

proof fn lemma_placed_index<T: Ranked>(x: T, t: Seq<T>, j: int)
    requires
        0 <= j <= t.len(),
        forall|k: int| 0 <= k < j ==> !x.at_most(#[trigger] t[k]),
        j < t.len() ==> x.at_most(t[j]),
    ensures
        placed(x, t) == t.insert(j, x),
    decreases t.len(),
{
    if j == 0 {
        assert(placed(x, t) =~= t.insert(0, x));
    } else {
        assert(!x.at_most(t[0]));
        let u = t.drop_first();
        assert forall|k: int| 0 <= k < j - 1 implies !x.at_most(#[trigger] u[k]) by {
            assert(u[k] == t[k + 1]);
        }
        lemma_placed_index(x, u, j - 1);
        assert(seq![t[0]] + u.insert(j - 1, x) =~= t.insert(j, x));
    }
}

proof fn lemma_placed_items<T: Ranked>(x: T, t: Seq<T>)
    ensures
        placed(x, t).to_multiset() == t.to_multiset().insert(x),
        placed(x, t).len() == t.len() + 1,
    decreases t.len(),
{
    broadcast use vstd::seq_lib::group_to_multiset_ensures;

    if t.len() == 0 {
        assert(placed(x, t) =~= Seq::<T>::empty().push(x));
        assert(t =~= Seq::<T>::empty());
    } else if x.at_most(t[0]) {
        assert(placed(x, t) =~= t.insert(0, x));
    } else {
        lemma_placed_items(x, t.drop_first());
        let u = placed(x, t.drop_first());
        assert(placed(x, t) =~= u.insert(0, t[0]));
        assert(t =~= t.drop_first().insert(0, t[0]));
        assert(t.drop_first().to_multiset().insert(x).insert(t[0])
            =~= t.drop_first().to_multiset().insert(t[0]).insert(x));
    }
}

proof fn lemma_placed_member<T: Ranked>(x: T, t: Seq<T>, i: int)
    requires
        0 <= i < placed(x, t).len(),
    ensures
        placed(x, t)[i] == x || t.contains(placed(x, t)[i]),
    decreases t.len(),
{
    if t.len() == 0 {
    } else if x.at_most(t[0]) {
        if i > 0 {
            assert(placed(x, t)[i] == t[i - 1]);
        }
    } else {
        if i == 0 {
            assert(t[0] == placed(x, t)[0]);
        } else {
            let u = t.drop_first();
            lemma_placed_member(x, u, i - 1);
            assert(placed(x, t)[i] == placed(x, u)[i - 1]);
            if u.contains(placed(x, u)[i - 1]) {
                let k = choose|k: int| 0 <= k < u.len() && u[k] == placed(x, u)[i - 1];
                assert(t[k + 1] == u[k]);
            }
        }
    }
}

proof fn lemma_placed_order<T: Ranked>(x: T, t: Seq<T>)
    requires
        in_order(t),
    ensures
        in_order(placed(x, t)),
    decreases t.len(),
{
    let p = placed(x, t);
    if t.len() == 0 {
    } else if x.at_most(t[0]) {
        assert forall|i: int, j: int| 0 <= i < j < p.len() implies (#[trigger] p[i]).at_most(
            #[trigger] p[j],
        ) by {
            assert(p[j] == t[j - 1]);
            if i > 0 {
                assert(p[i] == t[i - 1]);
            } else if j > 1 {
                assert(t[0].at_most(t[j - 1]));
                T::transitive(x, t[0], t[j - 1]);
            }
        }
    } else {
        let u = t.drop_first();
        assert forall|i: int, j: int| 0 <= i < j < u.len() implies (#[trigger] u[i]).at_most(
            #[trigger] u[j],
        ) by {
            assert(u[i] == t[i + 1] && u[j] == t[j + 1]);
        }
        lemma_placed_order(x, u);
        lemma_placed_items(x, u);
        let q = placed(x, u);
        assert forall|i: int, j: int| 0 <= i < j < p.len() implies (#[trigger] p[i]).at_most(
            #[trigger] p[j],
        ) by {
            assert(p[j] == q[j - 1]);
            if i > 0 {
                assert(p[i] == q[i - 1]);
            } else {
                lemma_placed_member(x, u, j - 1);
                T::total(x, t[0]);
                if u.contains(q[j - 1]) {
                    let k = choose|k: int| 0 <= k < u.len() && u[k] == q[j - 1];
                    assert(t[k + 1] == u[k]);
                    assert(t[0].at_most(t[k + 1]));
                }
            }
        }
    }
}

proof fn lemma_placed_image<T: Ranked, U: Ranked>(x: T, t: Seq<T>, f: spec_fn(T) -> U)
    requires
        forall|a: T, b: T| #[trigger] a.at_most(b) == f(a).at_most(f(b)),
    ensures
        placed(x, t).map_values(f) == placed(f(x), t.map_values(f)),
    decreases t.len(),
{
    let u = t.map_values(f);
    if t.len() == 0 {
        assert(placed(x, t).map_values(f) =~= placed(f(x), u));
    } else {
        assert(u[0] == f(t[0]));
        assert(x.at_most(t[0]) == f(x).at_most(f(t[0])));
        lemma_placed_image(x, t.drop_first(), f);
        assert(u.drop_first() =~= t.drop_first().map_values(f));
        assert(placed(x, t).map_values(f) =~= placed(f(x), u));
    }
}

/// Sorting items and sorting what stands for them is the same, where that keeps the order.
pub proof fn lemma_sorted_image<T: Ranked, U: Ranked>(s: Seq<T>, f: spec_fn(T) -> U)
    requires
        forall|a: T, b: T| #[trigger] a.at_most(b) == f(a).at_most(f(b)),
    ensures
        sorted_of(s).map_values(f) == sorted_of(s.map_values(f)),
    decreases s.len(),
{
    if s.len() > 0 {
        lemma_sorted_image(s.drop_first(), f);
        lemma_placed_image(s[0], sorted_of(s.drop_first()), f);
        assert(s.map_values(f).drop_first() =~= s.drop_first().map_values(f));
    } else {
        assert(sorted_of(s).map_values(f) =~= sorted_of(s.map_values(f)));
    }
}

/// Sorting gives the items in order.
pub proof fn law_sorting_orders<T: Ranked>(s: Seq<T>)
    ensures
        in_order(sorted_of(s)),
    decreases s.len(),
{
    if s.len() > 0 {
        law_sorting_orders(s.drop_first());
        lemma_placed_order(s[0], sorted_of(s.drop_first()));
    }
}

/// Sorting neither loses an item nor adds one.
pub proof fn law_sorting_keeps_items<T: Ranked>(s: Seq<T>)
    ensures
        sorted_of(s).to_multiset() == s.to_multiset(),
        sorted_of(s).len() == s.len(),
    decreases s.len(),
{
    broadcast use vstd::seq_lib::group_to_multiset_ensures;

    if s.len() > 0 {
        law_sorting_keeps_items(s.drop_first());
        lemma_placed_items(s[0], sorted_of(s.drop_first()));
        assert(s =~= s.drop_first().insert(0, s[0]));
    } else {
        assert(s =~= Seq::<T>::empty());
    }
}

proof fn lemma_placed_ties<T: Ranked>(x: T, t: Seq<T>, y: T)
    requires
        in_order(t),
    ensures
        ties_of(placed(x, t), y) == if tied(x, y) {
            seq![x] + ties_of(t, y)
        } else {
            ties_of(t, y)
        },
    decreases t.len(),
{
    let p = placed(x, t);
    if t.len() == 0 {
        assert(p.drop_first() =~= t);
    } else if x.at_most(t[0]) {
        assert(p.drop_first() =~= t);
    } else {
        let u = t.drop_first();
        assert forall|i: int, j: int| 0 <= i < j < u.len() implies (#[trigger] u[i]).at_most(
            #[trigger] u[j],
        ) by {
            assert(u[i] == t[i + 1] && u[j] == t[j + 1]);
        }
        lemma_placed_ties(x, u, y);
        assert(p.drop_first() =~= placed(x, u));
        if tied(x, y) && tied(t[0], y) {
            T::transitive(x, y, t[0]);
        }
    }
}

/// Sorting keeps the order of the items that tie.
pub proof fn law_sorting_is_stable<T: Ranked>(s: Seq<T>, y: T)
    ensures
        ties_of(sorted_of(s), y) == ties_of(s, y),
    decreases s.len(),
{
    if s.len() > 0 {
        law_sorting_is_stable(s.drop_first(), y);
        law_sorting_orders(s.drop_first());
        lemma_placed_ties(s[0], sorted_of(s.drop_first()), y);
    }
}

/// Puts items in order.
pub fn sort<T: Sortable>(v: Vec<T>) -> (r: Vec<T>)
    ensures
        r@ == sorted_of(v@),
{
    let mut rest = v;
    let mut out: Vec<T> = Vec::new();
    let ghost all = v@;
    assert(all.skip(all.len() as int) =~= Seq::<T>::empty());
    assert(all.take(all.len() as int) =~= all);
    while rest.len() > 0
        invariant
            rest@.len() <= all.len(),
            rest@ == all.take(rest@.len() as int),
            out@ == sorted_of(all.skip(rest@.len() as int)),
        decreases rest@.len(),
    {
        let ghost n = rest@.len() as int;
        let x = rest.pop().unwrap();
        let mut j: usize = 0;
        while j < out.len() && !x.not_after(&out[j])
            invariant
                j <= out@.len(),
                forall|k: int| 0 <= k < j ==> !x.at_most(#[trigger] out@[k]),
            decreases out@.len() - j,
        {
            j += 1;
        }
        proof {
            lemma_placed_index(x, out@, j as int);
            assert(all.skip(n - 1)[0] == x);
            assert(all.skip(n - 1).drop_first() =~= all.skip(n));
            assert(rest@ =~= all.take(n - 1));
        }
        out.insert(j, x);
    }
    assert(all.skip(0) =~= all);
    out
}

/// Texts are ordered by the first character in which they differ, and one that another
/// begins with comes before it.
pub proof fn law_first_difference_decides(p: Seq<char>, a: Seq<char>, b: Seq<char>)
    ensures
        text_le(p + a, p + b) == text_le(a, b),
        text_le(p, p + a),
        a.len() > 0 ==> !text_le(p + a, p),
        a.len() > 0 && b.len() > 0 && a[0] < b[0] ==> text_le(a, b) && !text_le(b, a),
    decreases p.len(),
{
    if p.len() == 0 {
        assert(p + a =~= a);
        assert(p + b =~= b);
    } else {
        let q = p.drop_first();
        assert((p + a).drop_first() =~= q + a);
        assert((p + b).drop_first() =~= q + b);
        law_first_difference_decides(q, a, b);
    }
}

} // verus!
