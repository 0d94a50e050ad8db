//! Putting back what was moved aside.
use crate::path::{path_eq, same_path};
use crate::plan::Found;
use crate::state::{law_restored_moves_leave, moves, moves_elsewhere, Backup};
use crate::text::{cat, decimal, to_decimal};
use vstd::prelude::*;

verus! {

/// What becomes of a file that was moved aside.
#[derive(Debug, Clone, Copy, PartialEq, Eq, Structural)]
pub enum Verdict {
    /// It is put back.
    Restore,
    /// It stays where it is: a later one is put back in its place.
    Older,
    /// It is no longer where it was moved to.
    Gone,
}

/// Whether a later move from the same path can still be undone.
pub open spec fn outdated(v: Seq<(Seq<char>, Seq<char>)>, kept: Seq<bool>, i: int) -> bool {
    exists|j: int| i < j < v.len() && #[trigger] kept[j] && same_path(v[j].0, v[i].0)
}

/// What becomes of a file that was moved aside: of those that were moved from the same path
/// and are still there, the last is put back.
pub open spec fn verdict_of(v: Seq<(Seq<char>, Seq<char>)>, kept: Seq<bool>, i: int) -> Verdict {
    if !kept[i] {
        Verdict::Gone
    } else if outdated(v, kept, i) {
        Verdict::Older
    } else {
        Verdict::Restore
    }
}

/// Decides what becomes of each file that was moved aside. `kept` tells of each whether it
/// is still where it was moved to.
pub fn verdicts(backups: &Vec<Backup>, kept: &Vec<bool>) -> (r: Vec<Verdict>)
    requires
        kept@.len() == backups@.len(),
    ensures
        r@.len() == backups@.len(),
        forall|i: int|
            0 <= i < backups@.len() ==> #[trigger] r@[i] == verdict_of(
                moves(backups@),
                kept@,
                i,
            ),
{
    let ghost all = moves(backups@);
    let mut out: Vec<Verdict> = Vec::new();
    for i in 0..backups.len()
        invariant
            kept@.len() == backups@.len(),
            all == moves(backups@),
            out@.len() == i,
            forall|k: int| 0 <= k < i ==> #[trigger] out@[k] == verdict_of(all, kept@, k),
    {
        let mut later = false;
        for j in i + 1..backups.len()
            invariant
                i < backups@.len(),
                kept@.len() == backups@.len(),
                all == moves(backups@),
                i < j <= backups@.len(),
                later == exists|k: int|
                    i < k < j && #[trigger] kept@[k] && same_path(all[k].0, all[i as int].0),
        {
            if kept[j] && path_eq(backups[j].dest.as_str(), backups[i].dest.as_str()) {
                assert(kept@[j as int] && same_path(all[j as int].0, all[i as int].0));
                later = true;
            }
        }
        assert(later == outdated(all, kept@, i as int));
        out.push(
            if !kept[i] {
                Verdict::Gone
            } else if later {
                Verdict::Older
            } else {
                Verdict::Restore
            },
        );
    }
    out
}

/// What is done with what is in the way of a file that is put back.
#[derive(Debug, Clone, Copy, PartialEq, Eq, Structural)]
pub enum Clearing {
    /// Nothing is in the way.
    Nothing,
    /// A link is removed.
    RemoveLink,
    /// A file or a directory is moved aside.
    MoveAside,
}

/// Decides what is done with what is in the way: only a link is removed.
pub fn clearing(found: &Found) -> (r: Clearing)
    ensures
        r == match *found {
            Found::Nothing => Clearing::Nothing,
            Found::Link(_) => Clearing::RemoveLink,
            Found::UnreadableLink => Clearing::RemoveLink,
            Found::Other => Clearing::MoveAside,
        },
{
    match found {
        Found::Nothing => Clearing::Nothing,
        Found::Link(_) => Clearing::RemoveLink,
        Found::UnreadableLink => Clearing::RemoveLink,
        Found::Other => Clearing::MoveAside,
    }
}

/// How many files are put back.
pub open spec fn restores(v: Seq<Verdict>) -> nat
    decreases v.len(),
{
    if v.len() == 0 {
        0
    } else {
        restores(v.drop_last()) + if v.last() is Restore {
            1nat
        } else {
            0
        }
    }
}

/// Counts the files that are put back.
pub fn restore_count(v: &Vec<Verdict>) -> (r: usize)
    ensures
        r == restores(v@),
{
    let mut n: usize = 0;
    assert(v@.take(0) =~= Seq::empty());
    for i in 0..v.len()
        invariant
            n == restores(v@.take(i as int)),
            n <= i,
    {
        assert(v@.take(i + 1).drop_last() =~= v@.take(i as int));
        if v[i] == Verdict::Restore {
            n += 1;
        }
    }
    assert(v@.take(v@.len() as int) =~= v@);
    n
}

/// One thing to do in a rollback.
#[derive(Debug, Clone, Copy, PartialEq, Eq, Structural)]
pub enum Undo {
    /// Put a file back, by its number among those that were moved aside.
    Restore(usize),
    /// Record that nothing is moved aside any more.
    Forget,
}

/// The files that are put back, in the order in which they were moved aside.
pub open spec fn restorings(v: Seq<Verdict>) -> Seq<Undo>
    decreases v.len(),
{
    if v.len() == 0 {
        seq![]
    } else {
        let before = restorings(v.drop_last());
        if v.last() is Restore {
            before.push(Undo::Restore((v.len() - 1) as usize))
        } else {
            before
        }
    }
}

/// What is done in a rollback, in turn. A dry run does nothing.
pub open spec fn undo_of(v: Seq<Verdict>, dry_run: bool) -> Seq<Undo> {
    if dry_run || v.len() == 0 {
        seq![]
    } else {
        restorings(v).push(Undo::Forget)
    }
}

/// What is to be done in a rollback, in turn.
pub fn undoing(v: &Vec<Verdict>, dry_run: bool) -> (r: Vec<Undo>)
    ensures
        r@ == undo_of(v@, dry_run),
{
    let mut out: Vec<Undo> = Vec::new();
    if dry_run || v.len() == 0 {
        return out;
    }
    assert(v@.take(0) =~= Seq::empty());
    for i in 0..v.len()
        invariant
            out@ == restorings(v@.take(i as int)),
    {
        assert(v@.take(i + 1).drop_last() =~= v@.take(i as int));
        if v[i] == Verdict::Restore {
            out.push(Undo::Restore(i));
        }
    }
    assert(v@.take(v@.len() as int) =~= v@);
    out.push(Undo::Forget);
    out
}

/// What is said of a rollback in the end: `backups` were recorded, `restored` of them were
/// put back.
pub open spec fn rollback_words(backups: nat, restored: nat, dry_run: bool) -> Seq<char> {
    if backups == 0 {
        "nothing to roll back"@
    } else if dry_run {
        decimal(restored) + " file(s) would be restored (--dry-run)"@
    } else if restored == 0 {
        "nothing to put back: the backups are already gone"@
    } else {
        decimal(restored) + " file(s) restored"@
    }
}

/// What is said of a rollback in the end.
pub fn rollback_message(backups: usize, restored: usize, dry_run: bool) -> (r: String)
    ensures
        r@ == rollback_words(backups as nat, restored as nat, dry_run),
{
    if backups == 0 {
        return "nothing to roll back".to_owned();
    }
    let n = to_decimal(restored);
    if dry_run {
        cat(n.as_str(), " file(s) would be restored (--dry-run)")
    } else if restored == 0 {
        "nothing to put back: the backups are already gone".to_owned()
    } else {
        cat(n.as_str(), " file(s) restored")
    }
}

/// No two files are put back in the same place.
pub proof fn law_one_file_comes_back(
    v: Seq<(Seq<char>, Seq<char>)>,
    kept: Seq<bool>,
    i: int,
    j: int,
)
    requires
        kept.len() == v.len(),
        0 <= i < j < v.len(),
        verdict_of(v, kept, i) is Restore,
        verdict_of(v, kept, j) is Restore,
    ensures
        !same_path(v[i].0, v[j].0),
{
    assert(kept[j]);
}

/// For every file that is still there, the most recent one from its path is put back.
pub proof fn law_the_most_recent_comes_back(
    v: Seq<(Seq<char>, Seq<char>)>,
    kept: Seq<bool>,
    i: int,
)
    requires
        kept.len() == v.len(),
        0 <= i < v.len(),
        kept[i],
    ensures
        exists|j: int|
            i <= j < v.len() && #[trigger] verdict_of(v, kept, j) is Restore && same_path(
                v[j].0,
                v[i].0,
            ),
    decreases v.len() - i,
{
    if outdated(v, kept, i) {
        let k = choose|k: int| i < k < v.len() && #[trigger] kept[k] && same_path(v[k].0, v[i].0);
        law_the_most_recent_comes_back(v, kept, k);
        let j = choose|j: int|
            k <= j < v.len() && #[trigger] verdict_of(v, kept, j) is Restore && same_path(
                v[j].0,
                v[k].0,
            );
        assert(verdict_of(v, kept, j) is Restore);
    } else {
        assert(verdict_of(v, kept, i) is Restore);
    }
}

/// Every file that is to come back is put back once, and no other one.
pub proof fn law_restorings_are_the_verdicts(v: Seq<Verdict>, i: int)
    requires
        0 <= i < v.len() <= usize::MAX,
    ensures
        restorings(v).contains(Undo::Restore(i as usize)) <==> v[i] is Restore,
        restorings(v).len() == restores(v),
    decreases v.len(),
{
    let head = v.drop_last();
    let b = restorings(head);
    let all = restorings(v);
    let n = v.len() - 1;
    let x = Undo::Restore(i as usize);
    if i < n {
        law_restorings_are_the_verdicts(head, i);
        if b.contains(x) {
            let k = choose|k: int| 0 <= k < b.len() && b[k] == x;
            assert(all[k] == x);
        }
        if all.contains(x) {
            let k = choose|k: int| 0 <= k < all.len() && all[k] == x;
            assert(b[k] == x);
        }
    } else {
        lemma_restorings_below(head);
        if v.last() is Restore {
            assert(all[all.len() - 1] == x);
        } else if all.contains(x) {
            let k = choose|k: int| 0 <= k < all.len() && all[k] == x;
            assert(b[k] == x);
        }
    }
}

proof fn lemma_restorings_below(v: Seq<Verdict>)
    requires
        v.len() <= usize::MAX,
    ensures
        restorings(v).len() == restores(v),
        forall|k: int|
            0 <= k < restorings(v).len() ==> (#[trigger] restorings(v)[k] matches Undo::Restore(j)
                && j < v.len()),
    decreases v.len(),
{
    if v.len() > 0 {
        lemma_restorings_below(v.drop_last());
    }
}

/// After a path is recorded as restored nothing is put back there any more, whichever of the
/// files that were moved aside are still there: a rollback that stops on the way and is run
/// again puts no older file over the one that came back. Of the other paths, what is put back
/// is among what was moved aside before.
pub proof fn law_a_restored_path_is_done(
    v: Seq<(Seq<char>, Seq<char>)>,
    dest: Seq<char>,
    kept: Seq<bool>,
    i: int,
)
    requires
        0 <= i < moves_elsewhere(v, dest).len(),
        kept.len() == moves_elsewhere(v, dest).len(),
    ensures
        verdict_of(moves_elsewhere(v, dest), kept, i) is Restore ==> !same_path(
            moves_elsewhere(v, dest)[i].0,
            dest,
        ),
        !same_path(moves_elsewhere(v, dest)[i].0, dest),
        v.contains(moves_elsewhere(v, dest)[i]),
{
    let left = moves_elsewhere(v, dest);
    law_restored_moves_leave(v, dest, left[i]);
    assert(left.contains(left[i]));
}

/// What was moved aside is put back where it is still there and no later one from the same
/// path is; else it is gone or older.
pub proof fn law_what_is_put_back(v: Seq<(Seq<char>, Seq<char>)>, kept: Seq<bool>, i: int)
    requires
        0 <= i < v.len(),
        kept.len() == v.len(),
    ensures
        verdict_of(v, kept, i) is Gone <==> !kept[i],
        verdict_of(v, kept, i) is Older <==> kept[i] && exists|j: int|
            i < j < v.len() && #[trigger] kept[j] && same_path(v[j].0, v[i].0),
        verdict_of(v, kept, i) is Restore <==> kept[i] && forall|j: int|
            i < j < v.len() && #[trigger] kept[j] ==> !same_path(v[j].0, v[i].0),
{
}

/// What is put back adds up, one for every verdict that says so; after it nothing is left to
/// put back, and a dry run puts nothing back.
pub proof fn law_what_is_put_back_is_counted(a: Seq<Verdict>, b: Seq<Verdict>, verdict: Verdict)
    ensures
        restores(a + b) == restores(a) + restores(b),
        restores(seq![verdict]) == if verdict is Restore {
            1nat
        } else {
            0nat
        },
        undo_of(a, true).len() == 0,
        a.len() > 0 ==> undo_of(a, false) == restorings(a) + seq![Undo::Forget],
        a.len() == 0 ==> undo_of(a, false).len() == 0,
    decreases b.len(),
{
    let one = seq![verdict];
    assert(one.last() == verdict);
    assert(one.drop_last() =~= Seq::empty());
    assert(restores(one.drop_last()) == 0);
    if b.len() == 0 {
        assert(a + b =~= a);
    } else {
        assert((a + b).drop_last() =~= a + b.drop_last());
        law_what_is_put_back_is_counted(a, b.drop_last(), verdict);
    }
    if a.len() > 0 {
        assert(undo_of(a, false) =~= restorings(a) + seq![Undo::Forget]);
    }
}

/// Only a link is removed to put a file back; anything else that is in its place is moved
/// aside.
pub proof fn law_only_links_are_cleared_away(found: &Found, r: Clearing)
    requires
        call_ensures(clearing, (found,), r),
    ensures
        r is Nothing <==> *found is Nothing,
        r is RemoveLink <==> *found is Link || *found is UnreadableLink,
        r is MoveAside <==> *found is Other,
{
}

} // verus!
