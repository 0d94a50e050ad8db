//! What placing and restoring do to a file system, and what they keep.
//!
//! The file system is modelled as a map from paths to what is there. A directory that is in
//! the way is moved whole, so it counts as one file.
use crate::apply::{deeds_for, entry_tasks, stale_act, stale_tasks, Act, Deed, Task};
use crate::path::under;
use crate::plan::{changed, Found, Spot, Status};
use crate::rollback::Clearing;
use vstd::prelude::*;

verus! {

/// Something at a path.
pub enum Thing {
    /// A file, or a directory as a whole. The number tells it from others.
    File(int),
    /// A link to a path.
    Link(Seq<char>),
}

/// What is at which path.
pub type Disk = Map<Seq<char>, Thing>;

/// What a deed does to a disk. What is moved aside goes to `kept`.
pub open spec fn after_deed(disk: Disk, deed: Deed, kept: Seq<char>) -> Disk {
    match deed {
        Deed::Parent(_) => disk,
        Deed::Unlink(dest) => disk.remove(dest),
        Deed::Aside(dest) => disk.remove(dest).insert(kept, disk[dest]),
        Deed::Discard(dest) => disk.remove(dest),
        Deed::Place(src, dest) => disk.insert(dest, Thing::Link(src)),
        Deed::Note(_) => disk,
    }
}

/// What some deeds do to a disk, in turn.
pub open spec fn after_deeds(disk: Disk, deeds: Seq<Deed>, kept: Seq<char>) -> Disk
    decreases deeds.len(),
{
    if deeds.len() == 0 {
        disk
    } else {
        after_deed(after_deeds(disk, deeds.drop_last(), kept), deeds.last(), kept)
    }
}

/// What a job does to a disk.
pub open spec fn after_task(disk: Disk, task: Task, i: int, kept: Seq<char>) -> Disk {
    after_deeds(disk, deeds_for(task, i), kept)
}

/// What some jobs do to a disk, in turn. What the `i`-th of them moves aside goes to
/// `kept[i]`.
pub open spec fn after_tasks(disk: Disk, done: Seq<Task>, kept: Seq<Seq<char>>) -> Disk
    decreases done.len(),
{
    if done.len() == 0 {
        disk
    } else {
        let n = done.len() - 1;
        after_task(after_tasks(disk, done.drop_last(), kept), done[n], n, kept[n])
    }
}

/// Whether a job is the one for what is on a disk.
pub open spec fn fits(disk: Disk, task: Task) -> bool {
    let there = disk.dom().contains(task.dest);
    match task.act {
        Act::Prune | Act::Relink => there && disk[task.dest] is Link,
        Act::Leave | Act::Forget => true,
        Act::Link => !there,
        Act::Backup => there,
        Act::Replace => false,
    }
}

/// Whether jobs are the ones for what is on a disk, no two of them for the same path, and
/// what is moved aside goes to names that are free and no job is for.
pub open spec fn fit(disk: Disk, done: Seq<Task>, kept: Seq<Seq<char>>) -> bool {
    &&& kept.len() == done.len()
    &&& kept.no_duplicates()
    &&& forall|i: int| 0 <= i < done.len() ==> fits(disk, #[trigger] done[i])
    &&& forall|i: int, j: int|
        0 <= i < j < done.len() ==> (#[trigger] done[i]).dest != (#[trigger] done[j]).dest
    &&& forall|i: int| 0 <= i < kept.len() ==> !disk.dom().contains(#[trigger] kept[i])
    &&& forall|i: int, j: int|
        0 <= i < kept.len() && 0 <= j < done.len() ==> #[trigger] kept[i] != (
        #[trigger] done[j]).dest
}

/// Whether none of the first `n` jobs is for a path, or moves anything to it.
pub open spec fn untouched(p: Seq<char>, done: Seq<Task>, kept: Seq<Seq<char>>, n: int) -> bool {
    &&& forall|j: int| 0 <= j < n ==> p != (#[trigger] done[j]).dest
    &&& forall|j: int| 0 <= j < n ==> p != #[trigger] kept[j]
}

/// Whether two disks agree on a path.
pub open spec fn agree(a: Disk, b: Disk, p: Seq<char>) -> bool {
    &&& a.dom().contains(p) == b.dom().contains(p)
    &&& a.dom().contains(p) ==> a[p] == b[p]
}

/// Whether a file is somewhere on a disk.
pub open spec fn has_file(disk: Disk, file: int) -> bool {
    exists|p: Seq<char>| #[trigger] disk.dom().contains(p) && disk[p] == Thing::File(file)
}

proof fn lemma_after_task(disk: Disk, task: Task, i: int, kept: Seq<char>)
    requires
        fits(disk, task),
        kept != task.dest,
    ensures
        after_task(disk, task, i, kept) == match task.act {
            Act::Prune => disk.remove(task.dest),
            Act::Leave | Act::Forget => disk,
            Act::Link | Act::Relink | Act::Replace => disk.insert(
                task.dest,
                Thing::Link(task.src),
            ),
            Act::Backup => disk.insert(kept, disk[task.dest]).insert(
                task.dest,
                Thing::Link(task.src),
            ),
        },
{
    let d = deeds_for(task, i);
    reveal_with_fuel(after_deeds, 5);
    match task.act {
        Act::Prune => {
            assert(d.drop_last() =~= seq![d[0]]);
            assert(seq![d[0]].drop_last() =~= seq![]);
        },
        Act::Leave | Act::Forget => {
            assert(d.drop_last() =~= seq![]);
        },
        Act::Link => {
            assert(d.drop_last() =~= seq![d[0], d[1]]);
            assert(seq![d[0], d[1]].drop_last() =~= seq![d[0]]);
            assert(seq![d[0]].drop_last() =~= seq![]);
        },
        _ => {
            assert(d.drop_last() =~= seq![d[0], d[1], d[2]]);
            assert(seq![d[0], d[1], d[2]].drop_last() =~= seq![d[0], d[1]]);
            assert(seq![d[0], d[1]].drop_last() =~= seq![d[0]]);
            assert(seq![d[0]].drop_last() =~= seq![]);
        },
    }
    assert(after_task(disk, task, i, kept) =~= match task.act {
        Act::Prune => disk.remove(task.dest),
        Act::Leave | Act::Forget => disk,
        Act::Link | Act::Relink | Act::Replace => disk.insert(task.dest, Thing::Link(task.src)),
        Act::Backup => disk.insert(kept, disk[task.dest]).insert(
            task.dest,
            Thing::Link(task.src),
        ),
    });
}

proof fn lemma_after_tasks(disk: Disk, done: Seq<Task>, kept: Seq<Seq<char>>, n: int)
    requires
        fit(disk, done, kept),
        0 <= n <= done.len(),
    ensures
        ({
            let after = after_tasks(disk, done.take(n), kept);
            &&& forall|p: Seq<char>| untouched(p, done, kept, n) ==> #[trigger] agree(after, disk, p)
            &&& forall|j: int|
                0 <= j < n && (#[trigger] done[j]).act.places() ==> after.dom().contains(
                    done[j].dest,
                ) && after[done[j].dest] == Thing::Link(done[j].src)
            &&& forall|file: int| #[trigger] has_file(disk, file) ==> has_file(after, file)
        }),
    decreases n,
{
    let after = after_tasks(disk, done.take(n), kept);
    if n == 0 {
        assert(done.take(0) =~= seq![]);
    } else {
        let m = n - 1;
        let before = after_tasks(disk, done.take(m), kept);
        lemma_after_tasks(disk, done, kept, m);
        assert(done.take(n).drop_last() =~= done.take(m));
        let task = done[m];
        let to = kept[m];
        assert(after == after_task(before, task, m, to));
        assert(untouched(task.dest, done, kept, m));
        assert(agree(before, disk, task.dest));
        assert(fits(disk, task));
        lemma_after_task(before, task, m, to);
        assert(untouched(to, done, kept, m));
        assert(agree(before, disk, to));
        assert forall|p: Seq<char>| untouched(p, done, kept, n) implies #[trigger] agree(
            after,
            disk,
            p,
        ) by {
            assert(p != done[m].dest && p != kept[m]);
            assert(untouched(p, done, kept, m));
            assert(agree(before, disk, p));
        }
        assert forall|j: int| 0 <= j < n && (#[trigger] done[j]).act.places() implies after.dom().contains(
            done[j].dest,
        ) && after[done[j].dest] == Thing::Link(done[j].src) by {
            if j < m {
                assert(done[j].dest != task.dest);
                assert(done[j].dest != to);
            }
        }
        assert forall|file: int| #[trigger] has_file(disk, file) implies has_file(after, file) by {
            assert(has_file(before, file));
            let p = choose|p: Seq<char>| #[trigger]
                before.dom().contains(p) && before[p] == Thing::File(file);
            if p == task.dest {
                if task.act is Backup {
                    assert(after.dom().contains(to) && after[to] == Thing::File(file));
                } else {
                    assert(after.dom().contains(p) && after[p] == Thing::File(file));
                }
            } else {
                assert(p != to);
                assert(after.dom().contains(p) && after[p] == Thing::File(file));
            }
        }
    }
}

/// While things are moved aside, placing loses no file, however many of the jobs are done:
/// each file is where it was or where it was moved to. Every link that was to be placed so
/// far is in its place, and a path that no job so far was for, and nothing was moved to, is
/// as it was.
pub proof fn law_placing_loses_no_file(disk: Disk, done: Seq<Task>, kept: Seq<Seq<char>>, n: int)
    requires
        fit(disk, done, kept),
        0 <= n <= done.len(),
    ensures
        ({
            let after = after_tasks(disk, done.take(n), kept);
            &&& forall|file: int| #[trigger] has_file(disk, file) ==> has_file(after, file)
            &&& forall|j: int|
                0 <= j < n && (#[trigger] done[j]).act.places() ==> after.dom().contains(
                    done[j].dest,
                ) && after[done[j].dest] == Thing::Link(done[j].src)
            &&& forall|p: Seq<char>| untouched(p, done, kept, n) ==> #[trigger] agree(after, disk, p)
        }),
{
    lemma_after_tasks(disk, done, kept, n);
}

/// Whether what was found at a path is what is there.
pub open spec fn tells(disk: Disk, path: Seq<char>, found: Found) -> bool {
    let there = disk.dom().contains(path);
    match found {
        Found::Nothing => !there,
        Found::Link(target) => there && disk[path] == Thing::Link(target@),
        Found::UnreadableLink => there && disk[path] is Link,
        Found::Other => there && disk[path] is File,
    }
}

/// Whether an entry of a plan is right about what is at its path.
pub open spec fn right(disk: Disk, spot: Spot) -> bool {
    let there = disk.dom().contains(spot.dest);
    match spot.state {
        Status::Missing => !there,
        Status::Linked => there && disk[spot.dest] is Link,
        Status::Wrong(target) => there && disk[spot.dest] == Thing::Link(target),
        Status::Occupied => there,
    }
}

proof fn lemma_changed_are_right(disk: Disk, entries: Seq<Spot>)
    requires
        forall|i: int| 0 <= i < entries.len() ==> right(disk, #[trigger] entries[i]),
    ensures
        forall|i: int| 0 <= i < changed(entries).len() ==> right(disk, #[trigger] changed(entries)[i]),
        forall|i: int|
            0 <= i < changed(entries).len() ==> !((#[trigger] changed(entries)[i]).state is Linked),
    decreases entries.len(),
{
    if entries.len() > 0 {
        let head = entries.drop_last();
        assert forall|i: int| 0 <= i < head.len() implies right(disk, #[trigger] head[i]) by {
            assert(entries[i] == head[i]);
        }
        lemma_changed_are_right(disk, head);
        assert(right(disk, entries[entries.len() - 1]));
    }
}

/// What is to be done for a plan, and for the paths that are no longer declared, is what fits
/// the disk that they were made for, as long as things are moved aside.
pub proof fn law_a_plan_fits_the_disk(
    disk: Disk,
    root: Seq<char>,
    home: Seq<char>,
    stale: Seq<Seq<char>>,
    found: Seq<Found>,
    entries: Seq<Spot>,
    i: int,
)
    requires
        found.len() == stale.len(),
        forall|k: int|
            0 <= k < stale.len() ==> tells(
                disk,
                #[trigger] under(home, stale[k]),
                found[k],
            ),
        forall|k: int| 0 <= k < entries.len() ==> right(disk, #[trigger] entries[k]),
        0 <= i < stale.len() + changed(entries).len(),
    ensures
        fits(disk, (stale_tasks(root, home, stale, found) + entry_tasks(entries, true))[i]),
{
    let first = stale_tasks(root, home, stale, found);
    let second = entry_tasks(entries, true);
    lemma_changed_are_right(disk, entries);
    if i < stale.len() {
        assert((first + second)[i] == first[i]);
        assert(tells(disk, under(home, stale[i]), found[i]));
        assert(first[i].act == stale_act(root, found[i]));
    } else {
        let k = i - stale.len();
        assert((first + second)[i] == second[k]);
        assert(right(disk, changed(entries)[k]));
    }
}

/// What putting a file back does to a disk. What is in the way and no link goes to `aside`.
pub open spec fn after_restore(
    disk: Disk,
    dest: Seq<char>,
    kept_at: Seq<char>,
    clearing: Clearing,
    aside: Seq<char>,
) -> Disk {
    let cleared = match clearing {
        Clearing::Nothing => disk,
        Clearing::RemoveLink => disk.remove(dest),
        Clearing::MoveAside => disk.remove(dest).insert(aside, disk[dest]),
    };
    cleared.remove(kept_at).insert(dest, disk[kept_at])
}

/// Whether a way of clearing a path is the one for what is there.
pub open spec fn clears(disk: Disk, dest: Seq<char>, clearing: Clearing) -> bool {
    match clearing {
        Clearing::Nothing => !disk.dom().contains(dest),
        Clearing::RemoveLink => disk.dom().contains(dest) && disk[dest] is Link,
        Clearing::MoveAside => disk.dom().contains(dest) && disk[dest] is File,
    }
}

/// Putting a file back loses no file: what was written in its place meanwhile is moved aside
/// too.
pub proof fn law_restoring_loses_no_file(
    disk: Disk,
    dest: Seq<char>,
    kept_at: Seq<char>,
    clearing: Clearing,
    aside: Seq<char>,
    file: int,
)
    requires
        clears(disk, dest, clearing),
        disk.dom().contains(kept_at),
        kept_at != dest,
        aside != dest,
        !disk.dom().contains(aside),
        has_file(disk, file),
    ensures
        has_file(after_restore(disk, dest, kept_at, clearing, aside), file),
        after_restore(disk, dest, kept_at, clearing, aside)[dest] == disk[kept_at],
{
    let after = after_restore(disk, dest, kept_at, clearing, aside);
    let p = choose|p: Seq<char>| #[trigger] disk.dom().contains(p) && disk[p] == Thing::File(file);
    if p == dest {
        assert(after.dom().contains(aside) && after[aside] == Thing::File(file));
    } else if p == kept_at {
        assert(after.dom().contains(dest) && after[dest] == Thing::File(file));
    } else {
        assert(after.dom().contains(p) && after[p] == Thing::File(file));
    }
}

/// Restoring undoes moving aside: the disk is as it was before the link was placed.
pub proof fn law_restoring_undoes_moving_aside(
    disk: Disk,
    task: Task,
    i: int,
    kept: Seq<char>,
    aside: Seq<char>,
)
    requires
        task.act is Backup,
        fits(disk, task),
        kept != task.dest,
        !disk.dom().contains(kept),
    ensures
        ({
            let placed = after_task(disk, task, i, kept);
            &&& clears(placed, task.dest, Clearing::RemoveLink)
            &&& after_restore(placed, task.dest, kept, Clearing::RemoveLink, aside) == disk
        }),
{
    lemma_after_task(disk, task, i, kept);
    let placed = after_task(disk, task, i, kept);
    let back = after_restore(placed, task.dest, kept, Clearing::RemoveLink, aside);
    assert(back =~= disk);
}

/// A task leaves its link in its place, or nothing where it only removed one; what was moved
/// aside is where it was moved to, and every other path is as it was.
pub proof fn law_what_a_task_leaves(disk: Disk, task: Task, i: int, kept: Seq<char>, p: Seq<char>)
    requires
        kept != task.dest,
    ensures
        ({
            let after = after_task(disk, task, i, kept);
            &&& task.act.places() ==> after.dom().contains(task.dest) && after[task.dest]
                == Thing::Link(task.src)
            &&& task.act is Prune ==> !after.dom().contains(task.dest)
            &&& task.act is Leave || task.act is Forget ==> after == disk
            &&& task.act is Backup ==> after.dom().contains(kept) && after[kept] == disk[task.dest]
            &&& p != task.dest && (p != kept || !(task.act is Backup)) ==> agree(after, disk, p)
        }),
{
    let d = deeds_for(task, i);
    let n = d.len() as int;
    let d3 = d.drop_last();
    let d2 = d3.drop_last();
    let d1 = d2.drop_last();
    let d0 = d1.drop_last();
    reveal_with_fuel(after_deeds, 6);
    match task.act {
        Act::Prune => {
            assert(d3[0] == d[0]);
            assert(d2 =~= Seq::empty());
        },
        Act::Leave | Act::Forget => {
            assert(d3 =~= Seq::empty());
        },
        Act::Link => {
            assert(d3.last() == d[1]);
            assert(d2.last() == d[0]);
            assert(d1 =~= Seq::empty());
        },
        _ => {
            assert(d3.last() == d[2]);
            assert(d2.last() == d[1]);
            assert(d1.last() == d[0]);
            assert(d0 =~= Seq::empty());
        },
    }
}

} // verus!
