//! A table from texts to values, kept in the order of its keys.
use crate::order::{
    lemma_text_antisymmetric, lemma_text_total, lemma_text_transitive, text_le, text_lt,
    text_not_after,
};
use crate::text::{same_text, texts};
use vstd::prelude::*;

verus! {

/// Whether the keys stand in strictly ascending order, so that none occurs twice.
pub open spec fn ascending<V>(p: Seq<(Seq<char>, V)>) -> bool {
    forall|i: int, j: int| 0 <= i < j < p.len() ==> text_lt((#[trigger] p[i]).0, (#[trigger] p[j]).0)
}

/// The value under a key.
pub open spec fn lookup<V>(p: Seq<(Seq<char>, V)>, k: Seq<char>) -> Option<V>
    decreases p.len(),
{
    if p.len() == 0 {
        None
    } else if p[0].0 == k {
        Some(p[0].1)
    } else {
        lookup(p.drop_first(), k)
    }
}

/// The table with a value put under a key.
pub open spec fn put<V>(p: Seq<(Seq<char>, V)>, k: Seq<char>, v: V) -> Seq<(Seq<char>, V)>
    decreases p.len(),
{
    if p.len() == 0 {
        seq![(k, v)]
    } else if p[0].0 == k {
        seq![(k, v)] + p.drop_first()
    } else if text_le(k, p[0].0) {
        seq![(k, v)] + p
    } else {
        seq![p[0]] + put(p.drop_first(), k, v)
    }
}

/// A key holds a value exactly where it stands at some index, and that value.
pub proof fn lemma_lookup<V>(p: Seq<(Seq<char>, V)>, k: Seq<char>)
    ensures
        lookup(p, k) is Some <==> exists|i: int| 0 <= i < p.len() && (#[trigger] p[i]).0 == k,
        lookup(p, k) matches Some(v) ==> exists|i: int|
            0 <= i < p.len() && #[trigger] p[i] == (k, v),
    decreases p.len(),
{
    if p.len() == 0 {
    } else if p[0].0 == k {
        assert(p[0] == (k, p[0].1));
    } else {
        let q = p.drop_first();
        lemma_lookup(q, k);
        if lookup(q, k) is Some {
            let v = lookup(q, k).unwrap();
            let i = choose|i: int| 0 <= i < q.len() && #[trigger] q[i] == (k, v);
            assert(p[i + 1] == (k, v));
        }
        if exists|i: int| 0 <= i < p.len() && (#[trigger] p[i]).0 == k {
            let i = choose|i: int| 0 <= i < p.len() && (#[trigger] p[i]).0 == k;
            assert(q[i - 1].0 == k);
        }
    }
}

/// In a table in ascending order, a key that stands at an index holds the value there.
pub proof fn law_keys_lead_to_their_values<V>(p: Seq<(Seq<char>, V)>, i: int)
    requires
        ascending(p),
        0 <= i < p.len(),
    ensures
        lookup(p, p[i].0) == Some(p[i].1),
{
    lemma_lookup(p, p[i].0);
    let v = lookup(p, p[i].0).unwrap();
    let j = choose|j: int| 0 <= j < p.len() && #[trigger] p[j] == (p[i].0, v);
    if i < j {
        assert(text_lt(p[i].0, p[j].0));
    } else if j < i {
        assert(text_lt(p[j].0, p[i].0));
    }
}

proof fn lemma_ascending_tail<V>(p: Seq<(Seq<char>, V)>)
    requires
        ascending(p),
        p.len() > 0,
    ensures
        ascending(p.drop_first()),
{
    let q = p.drop_first();
    assert forall|i: int, j: int| 0 <= i < j < q.len() implies text_lt(
        (#[trigger] q[i]).0,
        (#[trigger] q[j]).0,
    ) by {
        assert(q[i] == p[i + 1] && q[j] == p[j + 1]);
    }
}

proof fn lemma_put_keys<V>(p: Seq<(Seq<char>, V)>, k: Seq<char>, v: V, i: int)
    requires
        0 <= i < put(p, k, v).len(),
    ensures
        put(p, k, v)[i].0 == k || exists|j: int|
            0 <= j < p.len() && (#[trigger] p[j]).0 == put(p, k, v)[i].0,
    decreases p.len(),
{
    let r = put(p, k, v);
    if p.len() == 0 {
    } else if p[0].0 == k {
        if i > 0 {
            assert(r[i] == p[i]);
        }
    } else if text_le(k, p[0].0) {
        if i > 0 {
            assert(r[i] == p[i - 1]);
        }
    } else {
        if i == 0 {
            assert(p[0].0 == r[0].0);
        } else {
            let q = p.drop_first();
            lemma_put_keys(q, k, v, i - 1);
            assert(r[i] == put(q, k, v)[i - 1]);
            if put(q, k, v)[i - 1].0 != k {
                let j = choose|j: int|
                    0 <= j < q.len() && (#[trigger] q[j]).0 == put(q, k, v)[i - 1].0;
                assert(p[j + 1].0 == r[i].0);
            }
        }
    }
}

/// Putting a value keeps the keys in ascending order.
pub proof fn law_put_keeps_order<V>(p: Seq<(Seq<char>, V)>, k: Seq<char>, v: V)
    requires
        ascending(p),
    ensures
        ascending(put(p, k, v)),
    decreases p.len(),
{
    let r = put(p, k, v);
    if p.len() == 0 {
    } else if p[0].0 == k {
        assert forall|i: int, j: int| 0 <= i < j < r.len() implies text_lt(
            (#[trigger] r[i]).0,
            (#[trigger] r[j]).0,
        ) by {
            assert(r[j] == p[j]);
            assert(r[i].0 == p[i].0);
        }
    } else if text_le(k, p[0].0) {
        assert forall|i: int, j: int| 0 <= i < j < r.len() implies text_lt(
            (#[trigger] r[i]).0,
            (#[trigger] r[j]).0,
        ) by {
            assert(r[j] == p[j - 1]);
            if i > 0 {
                assert(r[i] == p[i - 1]);
            } else if j > 1 {
                assert(text_lt(p[0].0, p[j - 1].0));
                lemma_text_transitive(k, p[0].0, p[j - 1].0);
                if k == p[j - 1].0 {
                    lemma_text_antisymmetric(k, p[0].0);
                }
            }
        }
    } else {
        let q = p.drop_first();
        lemma_ascending_tail(p);
        law_put_keeps_order(q, k, v);
        lemma_text_total(k, p[0].0);
        assert forall|i: int, j: int| 0 <= i < j < r.len() implies text_lt(
            (#[trigger] r[i]).0,
            (#[trigger] r[j]).0,
        ) by {
            assert(r[j] == put(q, k, v)[j - 1]);
            if i > 0 {
                assert(r[i] == put(q, k, v)[i - 1]);
            } else {
                lemma_put_keys(q, k, v, j - 1);
                if r[j].0 != k {
                    let m = choose|m: int|
                        0 <= m < q.len() && (#[trigger] q[m]).0 == put(q, k, v)[j - 1].0;
                    assert(p[m + 1] == q[m]);
                    assert(text_lt(p[0].0, p[m + 1].0));
                }
            }
        }
    }
}

/// A look-up gives back what was put under the key, and under every other key what stood
/// there before.
pub proof fn law_lookup_after_put<V>(p: Seq<(Seq<char>, V)>, k: Seq<char>, v: V, j: Seq<char>)
    ensures
        lookup(put(p, k, v), j) == if j == k {
            Some(v)
        } else {
            lookup(p, j)
        },
    decreases p.len(),
{
    let r = put(p, k, v);
    if p.len() == 0 {
        assert(r.drop_first() =~= p);
    } else if p[0].0 == k {
        assert(r.drop_first() =~= p.drop_first());
    } else if text_le(k, p[0].0) {
        assert(r.drop_first() =~= p);
    } else {
        law_lookup_after_put(p.drop_first(), k, v, j);
        assert(r.drop_first() =~= put(p.drop_first(), k, v));
    }
}

proof fn lemma_put_index<V>(p: Seq<(Seq<char>, V)>, k: Seq<char>, v: V, n: int)
    requires
        0 <= n <= p.len(),
        forall|i: int| 0 <= i < n ==> (#[trigger] p[i]).0 != k && !text_le(k, p[i].0),
        n < p.len() ==> p[n].0 == k || text_le(k, p[n].0),
    ensures
        put(p, k, v) == if n < p.len() && p[n].0 == k {
            p.update(n, (k, v))
        } else {
            p.insert(n, (k, v))
        },
    decreases p.len(),
{
    if n == 0 {
        if p.len() == 0 {
            assert(put(p, k, v) =~= p.insert(0, (k, v)));
        } else if p[0].0 == k {
            assert(put(p, k, v) =~= p.update(0, (k, v)));
        } else {
            assert(put(p, k, v) =~= p.insert(0, (k, v)));
        }
    } else {
        assert(p[0].0 != k && !text_le(k, p[0].0));
        let q = p.drop_first();
        assert forall|i: int| 0 <= i < n - 1 implies (#[trigger] q[i]).0 != k && !text_le(
            k,
            q[i].0,
        ) by {
            assert(q[i] == p[i + 1]);
        }
        lemma_put_index(q, k, v, n - 1);
        if n < p.len() && p[n].0 == k {
            assert(put(p, k, v) =~= p.update(n, (k, v)));
        } else {
            assert(put(p, k, v) =~= p.insert(n, (k, v)));
        }
    }
}

/// A table from texts to values. Its keys stand in ascending order, none of them twice.
pub struct Table<V> {
    entries: Vec<(String, V)>,
}

impl<V> View for Table<V> {
    type V = Seq<(Seq<char>, V)>;

    closed spec fn view(&self) -> Seq<(Seq<char>, V)> {
        self.entries@.map_values(|e: (String, V)| (e.0@, e.1))
    }
}

impl<V> Table<V> {
    /// The keys are in ascending order.
    #[verifier::type_invariant]
    pub open spec fn well_formed(self) -> bool {
        ascending(self@)
    }

    /// A table with nothing in it.
    pub fn new() -> (r: Self)
        ensures
            r@ == Seq::<(Seq<char>, V)>::empty(),
    {
        let r = Table { entries: Vec::new() };
        assert(r@ =~= Seq::<(Seq<char>, V)>::empty());
        r
    }

    /// How many keys there are.
    pub fn len(&self) -> (r: usize)
        ensures
            r == self@.len(),
    {
        self.entries.len()
    }

    /// Whether there is no key.
    pub fn is_empty(&self) -> (r: bool)
        ensures
            r == (self@.len() == 0),
    {
        self.entries.len() == 0
    }

    /// The key at an index.
    pub fn key(&self, i: usize) -> (r: &String)
        requires
            i < self@.len(),
        ensures
            r@ == self@[i as int].0,
    {
        &self.entries[i].0
    }

    /// The value at an index.
    pub fn value(&self, i: usize) -> (r: &V)
        requires
            i < self@.len(),
        ensures
            *r == self@[i as int].1,
    {
        &self.entries[i].1
    }

    /// The value under a key.
    pub fn get(&self, k: &str) -> (r: Option<&V>)
        ensures
            match r {
                Some(v) => lookup(self@, k@) == Some(*v),
                None => lookup(self@, k@) is None,
            },
    {
        assert(self@.skip(0) =~= self@);
        for i in 0..self.entries.len()
            invariant
                lookup(self@, k@) == lookup(self@.skip(i as int), k@),
                self.entries@.len() == self@.len(),
        {
            let ghost rest = self@.skip(i as int);
            assert(rest[0] == self@[i as int]);
            if same_text(self.entries[i].0.as_str(), k) {
                return Some(&self.entries[i].1);
            }
            assert(rest.drop_first() =~= self@.skip(i + 1));
        }
        assert(self@.skip(self@.len() as int) =~= Seq::<(Seq<char>, V)>::empty());
        None
    }

    /// Whether the key is there.
    pub fn contains_key(&self, k: &str) -> (r: bool)
        ensures
            r == (lookup(self@, k@) is Some),
    {
        self.get(k).is_some()
    }

    /// Puts a value under a key.
    pub fn insert(&mut self, k: String, v: V)
        ensures
            final(self)@ == put(old(self)@, k@, v),
    {
        let ghost before = self@;
        proof {
            use_type_invariant(&*self);
        }
        let mut entries: Vec<(String, V)> = Vec::new();
        std::mem::swap(&mut entries, &mut self.entries);
        let ghost all = entries@;
        let mut n: usize = 0;
        while n < entries.len() && !text_not_after(k.as_str(), entries[n].0.as_str())
            invariant
                entries@ == all,
                before == all.map_values(|e: (String, V)| (e.0@, e.1)),
                n <= entries@.len(),
                forall|i: int|
                    0 <= i < n ==> (#[trigger] before[i]).0 != k@ && !text_le(k@, before[i].0),
            decreases entries@.len() - n,
        {
            assert(before[n as int].0 == entries@[n as int].0@);
            proof {
                if before[n as int].0 == k@ {
                    crate::order::lemma_text_reflexive(k@);
                }
            }
            n += 1;
        }
        proof {
            lemma_put_index(before, k@, v, n as int);
            law_put_keeps_order(before, k@, v);
        }
        let ghost result: Seq<(String, V)> = if n < all.len() && all[n as int].0@ == k@ {
            all.update(n as int, (k, v))
        } else {
            all.insert(n as int, (k, v))
        };
        if n < entries.len() && same_text(entries[n].0.as_str(), k.as_str()) {
            assert(before[n as int].0 == k@);
            entries.remove(n);
            entries.insert(n, (k, v));
            assert(entries@ =~= result);
            assert(entries@.map_values(|e: (String, V)| (e.0@, e.1)) =~= put(before, k@, v));
        } else {
            entries.insert(n, (k, v));
            assert(entries@ =~= result);
            assert(entries@.map_values(|e: (String, V)| (e.0@, e.1)) =~= put(before, k@, v));
        }
        self.entries = entries;
    }
}

/// The keys of a table.
pub open spec fn keys_of<V>(p: Seq<(Seq<char>, V)>) -> Seq<Seq<char>> {
    p.map_values(|e: (Seq<char>, V)| e.0)
}

impl<V> Table<V> {
    /// The keys, in ascending order.
    pub fn keys(&self) -> (r: Vec<String>)
        ensures
            texts(r@) == keys_of(self@),
    {
        let mut out: Vec<String> = Vec::new();
        let n = self.len();
        for i in 0..n
            invariant
                n == self@.len(),
                texts(out@) == keys_of(self@).take(i as int),
        {
            let k = self.key(i).clone();
            proof {
                crate::text::lemma_texts_push(out@, k);
            }
            out.push(k);
            assert(keys_of(self@).take(i + 1) =~= keys_of(self@).take(i as int).push(k@));
        }
        assert(texts(out@) =~= keys_of(self@));
        out
    }
}

/// A table of texts with its values taken by their views.
pub open spec fn plain(p: Seq<(Seq<char>, String)>) -> Seq<(Seq<char>, Seq<char>)> {
    p.map_values(|e: (Seq<char>, String)| (e.0, e.1@))
}

/// Looking up in the plain table gives the view of what the table holds.
pub proof fn lemma_plain_lookup(p: Seq<(Seq<char>, String)>, k: Seq<char>)
    ensures
        lookup(plain(p), k) == match lookup(p, k) {
            Some(v) => Some(v@),
            None => None,
        },
    decreases p.len(),
{
    if p.len() > 0 {
        assert(plain(p).drop_first() =~= plain(p.drop_first()));
        lemma_plain_lookup(p.drop_first(), k);
    }
}

/// Putting a text puts its view.
pub proof fn lemma_plain_put(p: Seq<(Seq<char>, String)>, k: Seq<char>, v: String)
    ensures
        plain(put(p, k, v)) == put(plain(p), k, v@),
    decreases p.len(),
{
    if p.len() == 0 {
        assert(plain(put(p, k, v)) =~= put(plain(p), k, v@));
    } else {
        assert(plain(p).drop_first() =~= plain(p.drop_first()));
        lemma_plain_put(p.drop_first(), k, v);
        assert(plain(put(p, k, v)) =~= put(plain(p), k, v@));
    }
}

/// The text under a key of a table of texts.
pub fn text_under<'a>(t: &'a Table<String>, k: &str) -> (r: Option<&'a String>)
    ensures
        match r {
            Some(v) => lookup(plain(t@), k@) == Some(v@),
            None => lookup(plain(t@), k@) is None,
        },
{
    proof {
        lemma_plain_lookup(t@, k@);
    }
    t.get(k)
}

/// Puts a text under a key of a table of texts.
pub fn put_text(t: &mut Table<String>, k: String, v: String)
    ensures
        plain(final(t)@) == put(plain(old(t)@), k@, v@),
{
    proof {
        lemma_plain_put(t@, k@, v);
    }
    t.insert(k, v);
}

/// The values of a table, in the order of their keys.
pub open spec fn values_of(p: Seq<(Seq<char>, Seq<char>)>) -> Seq<Seq<char>> {
    p.map_values(|e: (Seq<char>, Seq<char>)| e.1)
}

/// The texts of a table of texts, in the order of their keys.
pub fn values(t: &Table<String>) -> (r: Vec<String>)
    ensures
        texts(r@) == values_of(plain(t@)),
{
    let mut out: Vec<String> = Vec::new();
    let ghost goal = values_of(plain(t@));
    let n = t.len();
    for i in 0..n
        invariant
            n == t@.len(),
            goal == values_of(plain(t@)),
            texts(out@) == goal.take(i as int),
    {
        let v = t.value(i).clone();
        proof {
            crate::text::lemma_texts_push(out@, v);
            assert(goal.take(i + 1) =~= goal.take(i as int).push(goal[i as int]));
        }
        out.push(v);
    }
    assert(goal.take(goal.len() as int) =~= goal);
    out
}

/// A copy of a table of texts.
pub fn copy_texts(t: &Table<String>) -> (r: Table<String>)
    ensures
        plain(r@) == plain(t@),
{
    let mut entries: Vec<(String, String)> = Vec::new();
    for i in 0..t.entries.len()
        invariant
            entries@.len() == i,
            forall|k: int|
                0 <= k < i ==> (#[trigger] entries@[k]).0@ == t.entries@[k].0@ && entries@[k].1@
                    == t.entries@[k].1@,
    {
        entries.push((t.entries[i].0.clone(), t.entries[i].1.clone()));
    }
    proof {
        use_type_invariant(t);
        let v = entries@.map_values(|e: (String, String)| (e.0@, e.1));
        assert forall|i: int, j: int| 0 <= i < j < v.len() implies text_lt(
            (#[trigger] v[i]).0,
            (#[trigger] v[j]).0,
        ) by {
            assert(v[i].0 == t@[i].0 && v[j].0 == t@[j].0);
        }
        assert(ascending(v));
    }
    let r = Table { entries };
    assert(plain(r@) =~= plain(t@));
    r
}

/// Whether two tables of texts hold the same.
pub fn same_texts(a: &Table<String>, b: &Table<String>) -> (r: bool)
    ensures
        r == (plain(a@) == plain(b@)),
{
    if a.len() != b.len() {
        assert(plain(a@).len() != plain(b@).len());
        return false;
    }
    let n = a.len();
    for i in 0..n
        invariant
            n == a@.len(),
            n == b@.len(),
            forall|k: int| 0 <= k < i ==> #[trigger] plain(a@)[k] == plain(b@)[k],
    {
        if !same_text(a.key(i).as_str(), b.key(i).as_str()) || !same_text(
            a.value(i).as_str(),
            b.value(i).as_str(),
        ) {
            assert(plain(a@)[i as int] != plain(b@)[i as int]);
            return false;
        }
    }
    assert(plain(a@) =~= plain(b@));
    true
}

/// The keys and the values of a table are those of its entries, in their order.
pub proof fn law_keys_and_values<V>(
    p: Seq<(Seq<char>, V)>,
    q: Seq<(Seq<char>, String)>,
    i: int,
)
    ensures
        keys_of(p).len() == p.len(),
        0 <= i < p.len() ==> keys_of(p)[i] == p[i].0,
        plain(q).len() == q.len(),
        values_of(plain(q)).len() == q.len(),
        0 <= i < q.len() ==> plain(q)[i].0 == q[i].0 && plain(q)[i].1 == q[i].1@,
        0 <= i < q.len() ==> values_of(plain(q))[i] == q[i].1@,
{
}

/// What is looked up is the first entry of its key.
pub proof fn law_the_first_entry_counts<V>(p: Seq<(Seq<char>, V)>, k: Seq<char>)
    ensures
        lookup(p, k) is None <==> forall|i: int| 0 <= i < p.len() ==> (#[trigger] p[i]).0 != k,
        lookup(p, k) matches Some(v) ==> exists|i: int|
            0 <= i < p.len() && #[trigger] p[i] == (k, v) && forall|j: int|
                0 <= j < i ==> (#[trigger] p[j]).0 != k,
    decreases p.len(),
{
    if p.len() > 0 {
        let rest = p.drop_first();
        law_the_first_entry_counts(rest, k);
        if p[0].0 == k {
            assert(p[0] == (k, p[0].1));
        } else {
            assert forall|i: int| 0 <= i < rest.len() implies #[trigger] rest[i] == p[i + 1] by {}
            match lookup(rest, k) {
                None => {
                    assert forall|i: int| 0 <= i < p.len() implies (#[trigger] p[i]).0 != k by {
                        if i > 0 {
                            assert(rest[i - 1] == p[i]);
                        }
                    }
                },
                Some(v) => {
                    let i = choose|i: int|
                        0 <= i < rest.len() && #[trigger] rest[i] == (k, v) && forall|j: int|
                            0 <= j < i ==> (#[trigger] rest[j]).0 != k;
                    assert(p[i + 1] == (k, v));
                    assert forall|j: int| 0 <= j < i + 1 implies (#[trigger] p[j]).0 != k by {
                        if j > 0 {
                            assert(rest[j - 1] == p[j]);
                        }
                    }
                },
            }
        }
    }
}

} // verus!
