//! The record of what was placed and moved aside, kept between runs.
use crate::path::{lists_path, path_eq, path_join, path_listed, same_path, under};
use crate::table::{plain, Table};
use crate::text::{lemma_texts_empty, lemma_texts_push, texts};
use vstd::prelude::*;

verus! {

/// A file that was moved aside.
pub struct Backup {
    /// Where it was, and where the link is now.
    pub dest: String,
    /// Where it is now.
    pub kept_at: String,
}

/// What earlier runs did.
pub struct State {
    /// The paths that were linked, from the root of the repository and from the home
    /// directory alike.
    pub links: Vec<String>,
    /// The files that were moved aside, oldest first.
    pub backups: Vec<Backup>,
    /// From hooks to the fingerprints of what they watch, as of when they last ran.
    pub hooks: Table<String>,
}

impl Default for State {
    fn default() -> (r: Self)
        ensures
            r.links@.len() == 0,
            r.backups@.len() == 0,
            r.hooks@.len() == 0,
    {
        State { links: Vec::new(), backups: Vec::new(), hooks: Table::new() }
    }
}

/// The paths of a list that another list lacks.
pub open spec fn lacking(links: Seq<Seq<char>>, current: Seq<String>) -> Seq<Seq<char>>
    decreases links.len(),
{
    if links.len() == 0 {
        seq![]
    } else {
        let before = lacking(links.drop_last(), current);
        if lists_path(current, links.last()) {
            before
        } else {
            before.push(links.last())
        }
    }
}

/// The paths of a list that are not a given one.
pub open spec fn without(links: Seq<Seq<char>>, rel: Seq<char>) -> Seq<Seq<char>>
    decreases links.len(),
{
    if links.len() == 0 {
        seq![]
    } else {
        let before = without(links.drop_last(), rel);
        if same_path(links.last(), rel) {
            before
        } else {
            before.push(links.last())
        }
    }
}

/// Backups by their views: where a file was, and where it is.
pub open spec fn moves(v: Seq<Backup>) -> Seq<(Seq<char>, Seq<char>)> {
    v.map_values(|b: Backup| (b.dest@, b.kept_at@))
}

/// The moves that were not from a given path.
pub open spec fn moves_elsewhere(
    v: Seq<(Seq<char>, Seq<char>)>,
    dest: Seq<char>,
) -> Seq<(Seq<char>, Seq<char>)>
    decreases v.len(),
{
    if v.len() == 0 {
        seq![]
    } else {
        let before = moves_elsewhere(v.drop_last(), dest);
        if same_path(v.last().0, dest) {
            before
        } else {
            before.push(v.last())
        }
    }
}

impl State {
    /// Where the record is kept, below the home directory: what is linked differs between
    /// machines that share a repository.
    pub fn path(home: &str) -> (r: String)
        ensures
            r@ == under(home@, ".local/state/sennit/state.json"@),
    {
        path_join(home, ".local/state/sennit/state.json")
    }

    /// The paths that were linked and are not among the current ones.
    pub fn stale(&self, current: &Vec<String>) -> (r: Vec<String>)
        ensures
            texts(r@) == lacking(texts(self.links@), current@),
    {
        let links = &self.links;
        let ghost all = texts(links@);
        let mut out: Vec<String> = Vec::new();
        proof {
            lemma_texts_empty();
            assert(all.take(0) =~= Seq::empty());
        }
        for i in 0..links.len()
            invariant
                all == texts(links@),
                texts(out@) == lacking(all.take(i as int), current@),
        {
            broadcast use lemma_texts_push;

            proof {
                let t = all.take(i + 1);
                assert(t.drop_last() =~= all.take(i as int));
                assert(t.last() == links@[i as int]@);
            }
            if !path_listed(current, links[i].as_str()) {
                out.push(links[i].clone());
            }
        }
        assert(all.take(all.len() as int) =~= all);
        out
    }

    /// Records that a path is linked no more.
    pub fn unlinked(&mut self, rel: &str)
        ensures
            texts(final(self).links@) == without(texts(old(self).links@), rel@),
            final(self).backups == old(self).backups,
            final(self).hooks == old(self).hooks,
    {
        let ghost all = texts(self.links@);
        let mut out: Vec<String> = Vec::new();
        proof {
            lemma_texts_empty();
            assert(all.take(0) =~= Seq::empty());
        }
        for i in 0..self.links.len()
            invariant
                all == texts(self.links@),
                self.backups == old(self).backups,
                self.hooks == old(self).hooks,
                texts(out@) == without(all.take(i as int), rel@),
        {
            broadcast use lemma_texts_push;

            proof {
                let t = all.take(i + 1);
                assert(t.drop_last() =~= all.take(i as int));
                assert(t.last() == self.links@[i as int]@);
            }
            if !path_eq(self.links[i].as_str(), rel) {
                out.push(self.links[i].clone());
            }
        }
        assert(all.take(all.len() as int) =~= all);
        self.links = out;
    }

    /// Records that a path is linked.
    pub fn linked(&mut self, rel: &str)
        ensures
            texts(final(self).links@) == if lists_path(old(self).links@, rel@) {
                texts(old(self).links@)
            } else {
                texts(old(self).links@).push(rel@)
            },
            texts(final(self).links@) == with_link(texts(old(self).links@), rel@),
            final(self).backups == old(self).backups,
            final(self).hooks == old(self).hooks,
    {
        proof {
            lemma_listed(self.links@, rel@);
        }
        if !path_listed(&self.links, rel) {
            let s = rel.to_owned();
            proof {
                lemma_texts_push(self.links@, s);
            }
            self.links.push(s);
        }
    }

    /// Records that a file was moved aside.
    pub fn moved(&mut self, dest: &str, kept_at: &str)
        ensures
            moves(final(self).backups@) == moves(old(self).backups@).push((dest@, kept_at@)),
            final(self).links == old(self).links,
            final(self).hooks == old(self).hooks,
    {
        let b = Backup { dest: dest.to_owned(), kept_at: kept_at.to_owned() };
        assert(moves(self.backups@.push(b)) =~= moves(self.backups@).push((b.dest@, b.kept_at@)));
        self.backups.push(b);
    }

    /// Records that nothing is moved aside from a path any more.
    pub fn restored(&mut self, dest: &str)
        ensures
            moves(final(self).backups@) == moves_elsewhere(moves(old(self).backups@), dest@),
            final(self).links == old(self).links,
            final(self).hooks == old(self).hooks,
    {
        let ghost all = moves(self.backups@);
        let mut out: Vec<Backup> = Vec::new();
        assert(moves(out@) =~= Seq::empty());
        assert(all.take(0) =~= Seq::empty());
        for i in 0..self.backups.len()
            invariant
                all == moves(self.backups@),
                self.links == old(self).links,
                self.hooks == old(self).hooks,
                moves(out@) == moves_elsewhere(all.take(i as int), dest@),
        {
            proof {
                let t = all.take(i + 1);
                assert(t.drop_last() =~= all.take(i as int));
                assert(t.last() == all[i as int]);
            }
            let b = &self.backups[i];
            if !path_eq(b.dest.as_str(), dest) {
                let kept = Backup { dest: b.dest.clone(), kept_at: b.kept_at.clone() };
                assert(moves(out@.push(kept)) =~= moves(out@).push((kept.dest@, kept.kept_at@)));
                out.push(kept);
            }
        }
        assert(all.take(all.len() as int) =~= all);
        self.backups = out;
    }

    /// Records that nothing is moved aside any more.
    pub fn rolled_back(&mut self)
        ensures
            final(self).backups@.len() == 0,
            final(self).links == old(self).links,
            final(self).hooks == old(self).hooks,
    {
        self.backups = Vec::new();
    }

    /// Records a run that came to its end: the current paths are linked, and the hooks ran.
    pub fn finished(&mut self, current: Vec<String>, hooks: Table<String>)
        ensures
            final(self).links@ == current@,
            final(self).backups == old(self).backups,
            plain(final(self).hooks@) == plain(hooks@),
    {
        self.links = current;
        self.hooks = hooks;
    }
}

/// What is stale was linked and is not current, and all that is so is stale.
pub proof fn law_stale_is_what_left(links: Seq<Seq<char>>, current: Seq<String>, p: Seq<char>)
    ensures
        lacking(links, current).contains(p) <==> links.contains(p) && !lists_path(current, p),
    decreases links.len(),
{
    if links.len() > 0 {
        let head = links.drop_last();
        law_stale_is_what_left(head, current, p);
        let b = lacking(head, current);
        let s = lacking(links, current);
        assert(links[links.len() - 1] == links.last());
        if b.contains(p) {
            let k = choose|k: int| 0 <= k < b.len() && b[k] == p;
            assert(s[k] == p);
        }
        if head.contains(p) {
            let k = choose|k: int| 0 <= k < head.len() && head[k] == p;
            assert(links[k] == p);
        }
        if links.contains(p) && p != links.last() {
            let k = choose|k: int| 0 <= k < links.len() && links[k] == p;
            assert(head[k] == p);
        }
        if !lists_path(current, links.last()) {
            assert(s[s.len() - 1] == links.last());
            if s.contains(p) && p != links.last() {
                let k = choose|k: int| 0 <= k < s.len() && s[k] == p;
                assert(b[k] == p);
            }
        }
    }
}

/// After a path is recorded as linked no more, no spelling of it is recorded, and every
/// other path stays.
pub proof fn law_unlinked_paths_leave(links: Seq<Seq<char>>, rel: Seq<char>, p: Seq<char>)
    ensures
        without(links, rel).contains(p) <==> links.contains(p) && !same_path(p, rel),
    decreases links.len(),
{
    if links.len() > 0 {
        let head = links.drop_last();
        law_unlinked_paths_leave(head, rel, p);
        let b = without(head, rel);
        let s = without(links, rel);
        assert(links[links.len() - 1] == links.last());
        if b.contains(p) {
            let k = choose|k: int| 0 <= k < b.len() && b[k] == p;
            assert(s[k] == p);
        }
        if head.contains(p) {
            let k = choose|k: int| 0 <= k < head.len() && head[k] == p;
            assert(links[k] == p);
        }
        if links.contains(p) && p != links.last() {
            let k = choose|k: int| 0 <= k < links.len() && links[k] == p;
            assert(head[k] == p);
        }
        if !same_path(links.last(), rel) {
            assert(s[s.len() - 1] == links.last());
            if s.contains(p) && p != links.last() {
                let k = choose|k: int| 0 <= k < s.len() && s[k] == p;
                assert(b[k] == p);
            }
        }
    }
}

/// After a path is recorded as restored, no move from it is recorded, and every other move
/// stays.
pub proof fn law_restored_moves_leave(
    v: Seq<(Seq<char>, Seq<char>)>,
    dest: Seq<char>,
    m: (Seq<char>, Seq<char>),
)
    ensures
        moves_elsewhere(v, dest).contains(m) <==> v.contains(m) && !same_path(m.0, dest),
    decreases v.len(),
{
    if v.len() > 0 {
        let head = v.drop_last();
        law_restored_moves_leave(head, dest, m);
        let b = moves_elsewhere(head, dest);
        let s = moves_elsewhere(v, dest);
        assert(v[v.len() - 1] == v.last());
        if b.contains(m) {
            let k = choose|k: int| 0 <= k < b.len() && b[k] == m;
            assert(s[k] == m);
        }
        if head.contains(m) {
            let k = choose|k: int| 0 <= k < head.len() && head[k] == m;
            assert(v[k] == m);
        }
        if v.contains(m) && m != v.last() {
            let k = choose|k: int| 0 <= k < v.len() && v[k] == m;
            assert(head[k] == m);
        }
        if !same_path(v.last().0, dest) {
            assert(s[s.len() - 1] == v.last());
            if s.contains(m) && m != v.last() {
                let k = choose|k: int| 0 <= k < s.len() && s[k] == m;
                assert(b[k] == m);
            }
        }
    }
}

/// One link is stale where no current path is the same.
pub proof fn law_one_link_is_stale(link: Seq<char>, current: Seq<String>)
    ensures
        lacking(seq![link], current) == if !(exists|i: int| 0 <= i < current.len() && same_path((#[trigger] current[i])@, link)) {
            seq![link]
        } else {
            Seq::<Seq<char>>::empty()
        },
{
    let one = seq![link];
    assert(one.last() == link);
    assert(one.drop_last() =~= Seq::empty());
    assert(lacking(one.drop_last(), current) =~= Seq::empty());
    assert(Seq::<Seq<char>>::empty().push(link) =~= seq![link]);
}

/// Whether a link is stale does not depend on the links around it, and their order is kept.
pub proof fn law_links_are_stale_one_by_one(a: Seq<Seq<char>>, b: Seq<Seq<char>>, current: Seq<String>)
    ensures
        lacking(a + b, current) == lacking(a, current) + lacking(b, current),
    decreases b.len(),
{
    if b.len() == 0 {
        assert(a + b =~= a);
        assert(lacking(a, current) + lacking(b, current) =~= lacking(a, current));
    } else {
        assert((a + b).drop_last() =~= a + b.drop_last());
        law_links_are_stale_one_by_one(a, b.drop_last(), current);
        assert(lacking(a + b, current) =~= lacking(a, current) + lacking(b, current));
    }
}

/// One link stays where it is at another path.
pub proof fn law_one_link_stays(link: Seq<char>, rel: Seq<char>)
    ensures
        without(seq![link], rel) == if !same_path(link, rel) {
            seq![link]
        } else {
            Seq::<Seq<char>>::empty()
        },
{
    let one = seq![link];
    assert(one.last() == link);
    assert(one.drop_last() =~= Seq::empty());
    assert(without(one.drop_last(), rel) =~= Seq::empty());
    assert(Seq::<Seq<char>>::empty().push(link) =~= seq![link]);
}

/// Whether a link stays does not depend on the links around it, and their order is kept.
pub proof fn law_links_stay_one_by_one(a: Seq<Seq<char>>, b: Seq<Seq<char>>, rel: Seq<char>)
    ensures
        without(a + b, rel) == without(a, rel) + without(b, rel),
    decreases b.len(),
{
    if b.len() == 0 {
        assert(a + b =~= a);
        assert(without(a, rel) + without(b, rel) =~= without(a, rel));
    } else {
        assert((a + b).drop_last() =~= a + b.drop_last());
        law_links_stay_one_by_one(a, b.drop_last(), rel);
        assert(without(a + b, rel) =~= without(a, rel) + without(b, rel));
    }
}

/// One move stays where it was from another path.
pub proof fn law_one_move_stays(m: (Seq<char>, Seq<char>), dest: Seq<char>)
    ensures
        moves_elsewhere(seq![m], dest) == if !same_path(m.0, dest) {
            seq![m]
        } else {
            Seq::<(Seq<char>, Seq<char>)>::empty()
        },
{
    let one = seq![m];
    assert(one.last() == m);
    assert(one.drop_last() =~= Seq::empty());
    assert(moves_elsewhere(one.drop_last(), dest) =~= Seq::empty());
    assert(Seq::<(Seq<char>, Seq<char>)>::empty().push(m) =~= seq![m]);
}

/// Whether a move stays does not depend on the moves around it, and their order is kept.
pub proof fn law_moves_stay_one_by_one(a: Seq<(Seq<char>, Seq<char>)>, b: Seq<(Seq<char>, Seq<char>)>, dest: Seq<char>)
    ensures
        moves_elsewhere(a + b, dest) == moves_elsewhere(a, dest) + moves_elsewhere(b, dest),
    decreases b.len(),
{
    if b.len() == 0 {
        assert(a + b =~= a);
        assert(moves_elsewhere(a, dest) + moves_elsewhere(b, dest) =~= moves_elsewhere(a, dest));
    } else {
        assert((a + b).drop_last() =~= a + b.drop_last());
        law_moves_stay_one_by_one(a, b.drop_last(), dest);
        assert(moves_elsewhere(a + b, dest) =~= moves_elsewhere(a, dest) + moves_elsewhere(b, dest));
    }
}

/// After a path is recorded as linked it is recorded once, under some spelling of it, and
/// every other path stays.
pub proof fn law_linked_paths_are_recorded(links: Seq<Seq<char>>, rel: Seq<char>, p: Seq<char>)
    ensures
        exists|i: int|
            0 <= i < with_link(links, rel).len() && same_path(#[trigger] with_link(links, rel)[i], rel),
        with_link(links, rel).contains(p) <==> links.contains(p) || (p == rel && !(exists|i: int|
            0 <= i < links.len() && same_path(#[trigger] links[i], rel))),
        with_link(with_link(links, rel), rel) == with_link(links, rel),
        links.len() <= with_link(links, rel).len() && with_link(links, rel).take(links.len() as int)
            == links,
{
    let all = with_link(links, rel);
    assert(all.take(links.len() as int) =~= links);
    if exists|i: int| 0 <= i < links.len() && same_path(#[trigger] links[i], rel) {
        let i = choose|i: int| 0 <= i < links.len() && same_path(#[trigger] links[i], rel);
        assert(same_path(all[i], rel));
    } else {
        assert(all[links.len() as int] == rel);
        assert(same_path(all[links.len() as int], rel));
    }
    if links.contains(p) {
        let i = choose|i: int| 0 <= i < links.len() && links[i] == p;
        assert(all[i] == p);
    }
    if all.contains(p) && !links.contains(p) {
        let i = choose|i: int| 0 <= i < all.len() && all[i] == p;
        if i < links.len() {
            assert(links[i] == p);
        }
    }
}

/// The links with one more, unless some spelling of it is among them.
pub open spec fn with_link(links: Seq<Seq<char>>, rel: Seq<char>) -> Seq<Seq<char>> {
    if exists|i: int| 0 <= i < links.len() && same_path(#[trigger] links[i], rel) {
        links
    } else {
        links.push(rel)
    }
}

proof fn lemma_listed(links: Seq<String>, rel: Seq<char>)
    ensures
        lists_path(links, rel) <==> exists|i: int|
            0 <= i < texts(links).len() && same_path(#[trigger] texts(links)[i], rel),
{
    let t = texts(links);
    if lists_path(links, rel) {
        let i = choose|i: int| 0 <= i < links.len() && same_path((#[trigger] links[i])@, rel);
        assert(same_path(t[i], rel));
    }
    if exists|i: int| 0 <= i < t.len() && same_path(#[trigger] t[i], rel) {
        let i = choose|i: int| 0 <= i < t.len() && same_path(#[trigger] t[i], rel);
        assert(same_path(links[i]@, rel));
    }
}

} // verus!
