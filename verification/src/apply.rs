//! Placing links: what is done for each path, and what is recorded of it.
use crate::hooks::{failed_at, recorded, run_all, Hook, Outcome};
use crate::path::{lists_path, path_join, path_listed, path_within, same_path, under, within};
use crate::plan::{borrowed, changed, Found, Plan, Spot, State, Status};
use crate::state::{law_unlinked_paths_leave, without};
use crate::table::{plain, same_texts, Table};
use crate::text::{
    cat, cat3, decimal, law_decimals_stand_for_their_number, texts, to_decimal,
};
use vstd::prelude::*;

verus! {

/// What is done for a path.
#[derive(Debug, Clone, Copy, PartialEq, Eq, Structural)]
pub enum Act {
    /// Remove a link that is no longer declared.
    Prune,
    /// Leave a link alone that is no longer declared, since it points elsewhere by now.
    Leave,
    /// Do nothing for a path that is no longer declared, since no link is there.
    Forget,
    /// Place a link where nothing is.
    Link,
    /// Place a link where another one is.
    Relink,
    /// Move what is there aside, and place a link.
    Backup,
    /// Remove what is there for good, and place a link.
    Replace,
}

impl Act {
    /// Whether the act ends with a link in place.
    pub open spec fn places(self) -> bool {
        self is Link || self is Relink || self is Backup || self is Replace
    }

    /// Whether the act ends with a link in place.
    pub fn is_placing(self) -> (r: bool)
        ensures
            r == self.places(),
    {
        match self {
            Act::Link | Act::Relink | Act::Backup | Act::Replace => true,
            _ => false,
        }
    }

    /// The act in a word.
    pub fn verb(self) -> (r: &'static str)
        ensures
            r@ == match self {
                Act::Prune => "prune"@,
                Act::Leave => "left alone"@,
                Act::Forget => ""@,
                Act::Link => "link"@,
                Act::Relink => "relink"@,
                Act::Backup => "backup"@,
                Act::Replace => "replace"@,
            },
    {
        match self {
            Act::Prune => "prune",
            Act::Leave => "left alone",
            Act::Forget => "",
            Act::Link => "link",
            Act::Relink => "relink",
            Act::Backup => "backup",
            Act::Replace => "replace",
        }
    }
}

/// What is done for a path that is no longer declared. Only a link that points into the
/// repository is removed.
pub open spec fn stale_act(root: Seq<char>, found: Found) -> Act {
    match found {
        Found::Nothing => Act::Forget,
        Found::Link(target) => if within(target@, root) {
            Act::Prune
        } else {
            Act::Leave
        },
        Found::UnreadableLink => Act::Leave,
        Found::Other => Act::Forget,
    }
}

/// What is done for a path that is declared and not in place.
pub open spec fn entry_act(state: Status, backup: bool) -> Act {
    match state {
        Status::Linked => Act::Forget,
        Status::Missing => Act::Link,
        Status::Wrong(_) => Act::Relink,
        Status::Occupied => if backup {
            Act::Backup
        } else {
            Act::Replace
        },
    }
}

/// Decides what is done for a path that is no longer declared.
pub fn act_on_stale(root: &str, found: &Found) -> (r: Act)
    ensures
        r == stale_act(root@, *found),
{
    match found {
        Found::Nothing => Act::Forget,
        Found::Link(target) => if path_within(target.as_str(), root) {
            Act::Prune
        } else {
            Act::Leave
        },
        Found::UnreadableLink => Act::Leave,
        Found::Other => Act::Forget,
    }
}

/// Decides what is done for a path that is declared.
pub fn act_on_entry(state: &State, backup: bool) -> (r: Act)
    ensures
        r == entry_act(state@, backup),
{
    match state {
        State::Linked => Act::Forget,
        State::Missing => Act::Link,
        State::Wrong { .. } => Act::Relink,
        State::Occupied => if backup {
            Act::Backup
        } else {
            Act::Replace
        },
    }
}

/// Something to do for a path.
pub struct Job {
    pub act: Act,
    pub rel: String,
    /// What the link points to, where one is placed.
    pub src: String,
    pub dest: String,
}

/// A job by its view.
pub struct Task {
    pub act: Act,
    pub rel: Seq<char>,
    pub src: Seq<char>,
    pub dest: Seq<char>,
}

impl View for Job {
    type V = Task;

    open spec fn view(&self) -> Task {
        Task { act: self.act, rel: self.rel@, src: self.src@, dest: self.dest@ }
    }
}

/// Jobs by their views.
pub open spec fn tasks(v: Seq<Job>) -> Seq<Task> {
    v.map_values(|j: Job| j@)
}

/// What is done for the paths that are no longer declared.
pub open spec fn stale_tasks(
    root: Seq<char>,
    home: Seq<char>,
    stale: Seq<Seq<char>>,
    found: Seq<Found>,
) -> Seq<Task> {
    Seq::new(
        stale.len(),
        |i: int|
            Task {
                act: stale_act(root, found[i]),
                rel: stale[i],
                src: ""@,
                dest: under(home, stale[i]),
            },
    )
}

/// What is done for the entries of a plan.
pub open spec fn entry_tasks(entries: Seq<Spot>, backup: bool) -> Seq<Task> {
    changed(entries).map_values(
        |s: Spot|
            Task { act: entry_act(s.state, backup), rel: s.rel, src: s.src, dest: s.dest },
    )
}

/// What is to be done: first for the paths that are no longer declared, then for those of
/// the plan that are not in place.
pub fn jobs(
    root: &str,
    home: &str,
    stale: &Vec<String>,
    found: &Vec<Found>,
    plan: &Plan,
    backup: bool,
) -> (r: Vec<Job>)
    requires
        found@.len() == stale@.len(),
    ensures
        tasks(r@) == stale_tasks(root@, home@, texts(stale@), found@) + entry_tasks(plan@, backup),
{
    let ghost first = stale_tasks(root@, home@, texts(stale@), found@);
    let mut out: Vec<Job> = Vec::new();
    assert(tasks(out@) =~= first.take(0));
    for i in 0..stale.len()
        invariant
            found@.len() == stale@.len(),
            first == stale_tasks(root@, home@, texts(stale@), found@),
            tasks(out@) == first.take(i as int),
    {
        let rel = stale[i].clone();
        let dest = path_join(home, rel.as_str());
        let job = Job { act: act_on_stale(root, &found[i]), rel, src: "".to_owned(), dest };
        proof {
            assert(first[i as int] == job@);
            assert(tasks(out@.push(job)) =~= tasks(out@).push(job@));
            assert(first.take(i + 1) =~= first.take(i as int).push(first[i as int]));
        }
        out.push(job);
    }
    assert(first.take(first.len() as int) =~= first);
    let changes = plan.changes();
    let ghost second = entry_tasks(plan@, backup);
    assert(first + second.take(0) =~= first);
    for i in 0..changes.len()
        invariant
            borrowed(changes@) == changed(plan@),
            second == entry_tasks(plan@, backup),
            tasks(out@) == first + second.take(i as int),
    {
        let e = changes[i];
        assert(borrowed(changes@)[i as int] == e@);
        let job = Job {
            act: act_on_entry(&e.state, backup),
            rel: e.rel.clone(),
            src: e.src.clone(),
            dest: e.dest.clone(),
        };
        proof {
            assert(second[i as int] == job@);
            assert(tasks(out@.push(job)) =~= tasks(out@).push(job@));
            assert((first + second.take(i as int)).push(job@) =~= first + second.take(i + 1));
        }
        out.push(job);
    }
    assert(second.take(second.len() as int) =~= second);
    out
}

/// The recorded links after a job is done.
pub open spec fn links_after(links: Seq<Seq<char>>, task: Task) -> Seq<Seq<char>> {
    if !task.act.places() {
        without(links, task.rel)
    } else if tracks(links, task.rel) {
        links
    } else {
        links.push(task.rel)
    }
}

/// Whether some spelling of a path is among recorded links.
pub open spec fn tracks(links: Seq<Seq<char>>, p: Seq<char>) -> bool {
    exists|i: int| 0 <= i < links.len() && same_path(#[trigger] links[i], p)
}

/// The recorded links after some jobs are done.
pub open spec fn links_after_all(links: Seq<Seq<char>>, done: Seq<Task>) -> Seq<Seq<char>>
    decreases done.len(),
{
    if done.len() == 0 {
        links
    } else {
        links_after(links_after_all(links, done.drop_last()), done.last())
    }
}

proof fn lemma_tracks(links: Seq<String>, p: Seq<char>)
    ensures
        tracks(texts(links), p) == lists_path(links, p),
{
    if tracks(texts(links), p) {
        let i = choose|i: int| 0 <= i < links.len() && same_path(#[trigger] texts(links)[i], p);
        assert(same_path(links[i]@, p));
    }
    if lists_path(links, p) {
        let i = choose|i: int| 0 <= i < links.len() && same_path((#[trigger] links[i])@, p);
        assert(same_path(texts(links)[i], p));
    }
}

/// Records a job once it is done.
pub fn note(record: &mut crate::state::State, job: &Job)
    ensures
        texts(final(record).links@) == links_after(texts(old(record).links@), job@),
        final(record).backups == old(record).backups,
        final(record).hooks == old(record).hooks,
{
    proof {
        lemma_tracks(record.links@, job.rel@);
    }
    if job.act.is_placing() {
        record.linked(job.rel.as_str());
    } else {
        record.unlinked(job.rel.as_str());
    }
}

/// Records the end of a run in which these jobs were done, and the turns of the hooks came
/// to these outcomes. Tells whether the record is to be written. It stays as it is in a dry
/// run, where a hook failed, which is named then, and where there was nothing to do: no job,
/// and no hook with another fingerprint than before. So a link that was right all along is
/// recorded only in a run that does something.
pub fn conclude(
    record: &mut crate::state::State,
    current: Vec<String>,
    jobs: &Vec<Job>,
    hooks: &Table<Hook>,
    prints: &Vec<String>,
    outcomes: &Vec<Outcome>,
    dry_run: bool,
) -> (r: Result<bool, usize>)
    requires
        prints@.len() == outcomes@.len(),
        outcomes@.len() <= hooks@.len(),
    ensures
        ({
            let next = recorded(plain(old(record).hooks@), hooks@, prints@, outcomes@);
            if dry_run {
                r == Ok::<bool, usize>(false) && *final(record) == *old(record)
            } else {
                match failed_at(outcomes@) {
                    Some(i) => (r matches Err(k) && k == i) && *final(record) == *old(record),
                    None => if jobs@.len() == 0 && next == plain(old(record).hooks@) {
                        r == Ok::<bool, usize>(false) && *final(record) == *old(record)
                    } else {
                        &&& r == Ok::<bool, usize>(true)
                        &&& final(record).links@ == current@
                        &&& final(record).backups == old(record).backups
                        &&& plain(final(record).hooks@) == next
                    },
                }
            }
        }),
        r == Ok::<bool, usize>(true) <==> worth_recording(
            jobs@.len(),
            recorded(plain(old(record).hooks@), hooks@, prints@, outcomes@) != plain(
                old(record).hooks@,
            ),
            failed_at(outcomes@) is Some,
            dry_run,
        ),
{
    if dry_run {
        return Ok(false);
    }
    match run_all(hooks, prints, &record.hooks, outcomes) {
        Err(i) => Err(i),
        Ok(next) => {
            if jobs.len() == 0 && same_texts(&next, &record.hooks) {
                return Ok(false);
            }
            record.finished(current, next);
            Ok(true)
        },
    }
}

/// One thing to do in the file system, or to the record.
pub enum Op {
    /// Create the directory that a path is in.
    Parent(String),
    /// Remove the link at a path.
    Unlink(String),
    /// Move what is at a path aside, and record where to.
    Aside(String),
    /// Remove what is at a path for good.
    Discard(String),
    /// Place a link.
    Place { src: String, dest: String },
    /// Record that a job is done, by its number.
    Note(usize),
}

/// An operation by its view.
pub enum Deed {
    Parent(Seq<char>),
    Unlink(Seq<char>),
    Aside(Seq<char>),
    Discard(Seq<char>),
    Place(Seq<char>, Seq<char>),
    Note(int),
}

impl View for Op {
    type V = Deed;

    open spec fn view(&self) -> Deed {
        match self {
            Op::Parent(dest) => Deed::Parent(dest@),
            Op::Unlink(dest) => Deed::Unlink(dest@),
            Op::Aside(dest) => Deed::Aside(dest@),
            Op::Discard(dest) => Deed::Discard(dest@),
            Op::Place { src, dest } => Deed::Place(src@, dest@),
            Op::Note(i) => Deed::Note(*i as int),
        }
    }
}

/// Operations by their views.
pub open spec fn deeds(v: Seq<Op>) -> Seq<Deed> {
    v.map_values(|op: Op| op@)
}

/// What is done for a job, in turn. What is moved aside is recorded before a link takes its
/// place, and the job is recorded as soon as it is done.
pub open spec fn deeds_for(task: Task, i: int) -> Seq<Deed> {
    match task.act {
        Act::Prune => seq![Deed::Unlink(task.dest), Deed::Note(i)],
        Act::Leave | Act::Forget => seq![Deed::Note(i)],
        Act::Link => seq![
            Deed::Parent(task.dest),
            Deed::Place(task.src, task.dest),
            Deed::Note(i),
        ],
        Act::Relink => seq![
            Deed::Parent(task.dest),
            Deed::Unlink(task.dest),
            Deed::Place(task.src, task.dest),
            Deed::Note(i),
        ],
        Act::Backup => seq![
            Deed::Parent(task.dest),
            Deed::Aside(task.dest),
            Deed::Place(task.src, task.dest),
            Deed::Note(i),
        ],
        Act::Replace => seq![
            Deed::Parent(task.dest),
            Deed::Discard(task.dest),
            Deed::Place(task.src, task.dest),
            Deed::Note(i),
        ],
    }
}

/// What is done for some jobs, in turn.
pub open spec fn deeds_for_all(done: Seq<Task>) -> Seq<Deed>
    decreases done.len(),
{
    if done.len() == 0 {
        seq![]
    } else {
        deeds_for_all(done.drop_last()) + deeds_for(done.last(), done.len() - 1)
    }
}

/// What is done in a run, in turn. A dry run does nothing.
pub open spec fn script_of(done: Seq<Task>, dry_run: bool) -> Seq<Deed> {
    if dry_run {
        seq![]
    } else {
        deeds_for_all(done)
    }
}

fn add_op(out: &mut Vec<Op>, op: Op)
    ensures
        deeds(final(out)@) == deeds(old(out)@).push(op@),
{
    assert(deeds(out@.push(op)) =~= deeds(out@).push(op@));
    out.push(op);
}

/// What is to be done in a run, in turn.
pub fn script(jobs: &Vec<Job>, dry_run: bool) -> (r: Vec<Op>)
    ensures
        deeds(r@) == script_of(tasks(jobs@), dry_run),
{
    let mut out: Vec<Op> = Vec::new();
    assert(deeds(out@) =~= Seq::empty());
    if dry_run {
        return out;
    }
    let ghost all = tasks(jobs@);
    assert(all.take(0) =~= Seq::empty());
    for i in 0..jobs.len()
        invariant
            all == tasks(jobs@),
            deeds(out@) == deeds_for_all(all.take(i as int)),
    {
        let ghost before = deeds(out@);
        let job = &jobs[i];
        proof {
            let t = all.take(i + 1);
            assert(t.drop_last() =~= all.take(i as int));
            assert(t.last() == job@);
        }
        if job.act.is_placing() {
            add_op(&mut out, Op::Parent(job.dest.clone()));
        }
        match job.act {
            Act::Prune | Act::Relink => add_op(&mut out, Op::Unlink(job.dest.clone())),
            Act::Backup => add_op(&mut out, Op::Aside(job.dest.clone())),
            Act::Replace => add_op(&mut out, Op::Discard(job.dest.clone())),
            _ => {},
        }
        if job.act.is_placing() {
            add_op(&mut out, Op::Place { src: job.src.clone(), dest: job.dest.clone() });
        }
        add_op(&mut out, Op::Note(i));
        assert(deeds(out@) =~= before + deeds_for(job@, i as int));
    }
    assert(all.take(all.len() as int) =~= all);
    out
}

/// Where something can be moved aside to: the `n`-th name next to it.
pub open spec fn backup_name(dest: Seq<char>, n: nat) -> Seq<char> {
    if n == 0 {
        dest + ".sennit-backup"@
    } else {
        dest + ".sennit-backup"@ + "."@ + decimal(n)
    }
}

/// How many names there are to move something aside to.
pub const BACKUP_NAMES: usize = 1000;

/// The first name, from the `n`-th on, that is not taken.
pub open spec fn free_name(dest: Seq<char>, taken: Seq<String>, n: nat) -> Option<nat>
    decreases BACKUP_NAMES - n,
{
    if n >= BACKUP_NAMES {
        None
    } else if lists_path(taken, backup_name(dest, n)) {
        free_name(dest, taken, n + 1)
    } else {
        Some(n)
    }
}

/// All names next to a path are taken.
pub struct TooManyBackups {
    pub dest: String,
}

impl TooManyBackups {
    /// The error in words.
    pub fn message(&self) -> (r: String)
        ensures
            r@ == "too many backups next to "@ + self.dest@,
    {
        cat("too many backups next to ", self.dest.as_str())
    }
}

/// Where something is moved aside to: the first name next to it that is not among the paths
/// that are taken, so that no backup takes the place of another.
pub fn backup_path(dest: &str, taken: &Vec<String>) -> (r: Result<String, TooManyBackups>)
    ensures
        match free_name(dest@, taken@, 0) {
            Some(n) => r matches Ok(p) && p@ == backup_name(dest@, n),
            None => r matches Err(e) && e.dest@ == dest@,
        },
{
    let base = cat(dest, ".sennit-backup");
    if !path_listed(taken, base.as_str()) {
        return Ok(base);
    }
    for n in 1..BACKUP_NAMES
        invariant
            base@ == dest@ + ".sennit-backup"@,
            free_name(dest@, taken@, 0) == free_name(dest@, taken@, n as nat),
    {
        let number = to_decimal(n);
        let p = cat3(base.as_str(), ".", number.as_str());
        assert(p@ == backup_name(dest@, n as nat));
        if !path_listed(taken, p.as_str()) {
            return Ok(p);
        }
    }
    Err(TooManyBackups { dest: dest.to_owned() })
}

/// What a run did.
pub struct Tally {
    /// The links of the plan.
    pub links: usize,
    /// The links that were placed, or would be.
    pub changes: usize,
    /// The paths that are no longer declared.
    pub pruned: usize,
    /// The files that were moved aside.
    pub moved: usize,
    /// The outputs that were not generated yet.
    pub deferred: usize,
    /// The hooks that ran.
    pub hooks: usize,
}

/// How many links are placed.
pub open spec fn placings(done: Seq<Task>) -> nat
    decreases done.len(),
{
    if done.len() == 0 {
        0
    } else {
        placings(done.drop_last()) + if done.last().act.places() {
            1nat
        } else {
            0
        }
    }
}

/// How many files are moved aside.
pub open spec fn asides(done: Seq<Task>) -> nat
    decreases done.len(),
{
    if done.len() == 0 {
        0
    } else {
        asides(done.drop_last()) + if done.last().act is Backup {
            1nat
        } else {
            0
        }
    }
}

impl Tally {
    /// The count of a run in which these jobs are done, out of a plan of `links` links. Every
    /// job that places no link is for a path that is no longer declared.
    pub fn of(links: usize, jobs: &Vec<Job>, deferred: usize, hooks: usize) -> (r: Self)
        ensures
            r.links == links,
            r.changes == placings(tasks(jobs@)),
            r.pruned == jobs@.len() - placings(tasks(jobs@)),
            r.moved == asides(tasks(jobs@)),
            r.deferred == deferred,
            r.hooks == hooks,
    {
        let ghost all = tasks(jobs@);
        let mut changes: usize = 0;
        let mut moved: usize = 0;
        assert(all.take(0) =~= Seq::empty());
        for i in 0..jobs.len()
            invariant
                all == tasks(jobs@),
                changes == placings(all.take(i as int)),
                moved == asides(all.take(i as int)),
                changes <= i,
                moved <= i,
        {
            proof {
                let t = all.take(i + 1);
                assert(t.drop_last() =~= all.take(i as int));
                assert(t.last() == jobs@[i as int]@);
            }
            if jobs[i].act.is_placing() {
                changes += 1;
            }
            if jobs[i].act == Act::Backup {
                moved += 1;
            }
        }
        assert(all.take(all.len() as int) =~= all);
        Tally { links, changes, pruned: jobs.len() - changes, moved, deferred, hooks }
    }

    /// Whether nothing happened and nothing is left to happen.
    pub open spec fn idle(self) -> bool {
        self.changes == 0 && self.pruned == 0 && self.deferred == 0 && self.hooks == 0
    }

    /// What is said of a run in the end.
    pub open spec fn words(self, dry_run: bool) -> Seq<char> {
        if dry_run {
            decimal(self.changes as nat) + " change(s), "@ + decimal(self.pruned as nat)
                + " prune(s), nothing written (--dry-run)"@
        } else if self.idle() {
            "already up to date ("@ + decimal(self.links as nat) + " links)"@
        } else {
            let done = decimal(self.changes as nat) + " link(s) updated, "@ + decimal(
                self.pruned as nat,
            ) + " pruned"@;
            if self.moved == 0 {
                done
            } else {
                done + "\n"@ + decimal(self.moved as nat)
                    + " file(s) moved aside; `sennit rollback` puts them back"@
            }
        }
    }

    /// What is said of a run in the end.
    pub fn message(&self, dry_run: bool) -> (r: String)
        ensures
            r@ == self.words(dry_run),
    {
        let changes = to_decimal(self.changes);
        let pruned = to_decimal(self.pruned);
        if dry_run {
            let head = cat3(changes.as_str(), " change(s), ", pruned.as_str());
            return cat(head.as_str(), " prune(s), nothing written (--dry-run)");
        }
        if self.changes == 0 && self.pruned == 0 && self.deferred == 0 && self.hooks == 0 {
            let links = to_decimal(self.links);
            return cat3("already up to date (", links.as_str(), " links)");
        }
        let head = cat3(changes.as_str(), " link(s) updated, ", pruned.as_str());
        let done = cat(head.as_str(), " pruned");
        if self.moved == 0 {
            return done;
        }
        let moved = to_decimal(self.moved);
        let more = cat3(done.as_str(), "\n", moved.as_str());
        cat(more.as_str(), " file(s) moved aside; `sennit rollback` puts them back")
    }
}

/// Nothing that is not a link is removed while things are moved aside: what is removed is a
/// link to somewhere else where one is to be placed, or a link into the repository that is
/// no longer declared.
pub proof fn law_backups_lose_nothing(
    root: Seq<char>,
    home: Seq<char>,
    stale: Seq<Seq<char>>,
    found: Seq<Found>,
    entries: Seq<Spot>,
)
    requires
        found.len() == stale.len(),
    ensures
        forall|i: int|
            0 <= i < stale.len() ==> ((#[trigger] stale_tasks(
                root,
                home,
                stale,
                found,
            )[i]).act is Prune ==> (found[i] matches Found::Link(target) && within(
                target@,
                root,
            ))),
        forall|i: int|
            0 <= i < stale.len() ==> !(#[trigger] stale_tasks(root, home, stale, found)[i]).act.places(),
        forall|i: int|
            0 <= i < changed(entries).len() ==> {
                let act = (#[trigger] entry_tasks(entries, true)[i]).act;
                &&& !(act is Replace)
                &&& act is Relink <==> changed(entries)[i].state is Wrong
                &&& act is Backup <==> changed(entries)[i].state is Occupied
            },
{
    lemma_changed(entries);
}

proof fn lemma_changed(v: Seq<Spot>)
    ensures
        forall|i: int| 0 <= i < changed(v).len() ==> !((#[trigger] changed(v)[i]).state is Linked),
    decreases v.len(),
{
    if v.len() > 0 {
        lemma_changed(v.drop_last());
        let b = changed(v.drop_last());
        assert forall|i: int| 0 <= i < changed(v).len() implies !((#[trigger] changed(
            v,
        )[i]).state is Linked) by {
            if i < b.len() {
                assert(changed(v)[i] == b[i]);
            }
        }
    }
}

proof fn lemma_without_tracks(links: Seq<Seq<char>>, rel: Seq<char>, p: Seq<char>)
    ensures
        tracks(without(links, rel), p) <==> tracks(links, p) && !same_path(p, rel),
{
    let w = without(links, rel);
    if tracks(w, p) {
        let i = choose|i: int| 0 <= i < w.len() && same_path(#[trigger] w[i], p);
        law_unlinked_paths_leave(links, rel, w[i]);
        let k = choose|k: int| 0 <= k < links.len() && links[k] == w[i];
        assert(same_path(links[k], p));
    }
    if tracks(links, p) && !same_path(p, rel) {
        let i = choose|i: int| 0 <= i < links.len() && same_path(#[trigger] links[i], p);
        law_unlinked_paths_leave(links, rel, links[i]);
        let k = choose|k: int| 0 <= k < w.len() && w[k] == links[i];
        assert(same_path(w[k], p));
    }
}

/// Whether some job is for a path, among those that place a link or those that do not.
pub open spec fn has_task(done: Seq<Task>, p: Seq<char>, places: bool) -> bool {
    exists|i: int|
        0 <= i < done.len() && (#[trigger] done[i]).act.places() == places && same_path(
            done[i].rel,
            p,
        )
}

/// However far a run comes, the record holds the links that it placed, and those of earlier
/// runs that it did not give up.
pub proof fn law_record_is_kept_midway(links: Seq<Seq<char>>, done: Seq<Task>, p: Seq<char>)
    requires
        forall|i: int, j: int|
            0 <= i < j < done.len() && (#[trigger] done[i]).act.places() ==> (
            #[trigger] done[j]).act.places(),
    ensures
        tracks(links_after_all(links, done), p) <==> has_task(done, p, true) || (tracks(links, p)
            && !has_task(done, p, false)),
    decreases done.len(),
{
    if done.len() > 0 {
        let head = done.drop_last();
        let last = done.last();
        assert forall|i: int, j: int|
            0 <= i < j < head.len() && (#[trigger] head[i]).act.places() implies (
        #[trigger] head[j]).act.places() by {
            assert(done[i] == head[i] && done[j] == head[j]);
        }
        law_record_is_kept_midway(links, head, p);
        let before = links_after_all(links, head);
        let after = links_after_all(links, done);
        assert(done[done.len() - 1] == last);
        assert forall|b: bool| #[trigger] has_task(done, p, b) <==> has_task(head, p, b) || (
        last.act.places() == b && same_path(last.rel, p)) by {
            if has_task(head, p, b) {
                let i = choose|i: int|
                    0 <= i < head.len() && (#[trigger] head[i]).act.places() == b && same_path(
                        head[i].rel,
                        p,
                    );
                assert(done[i] == head[i]);
            }
            if has_task(done, p, b) {
                let i = choose|i: int|
                    0 <= i < done.len() && (#[trigger] done[i]).act.places() == b && same_path(
                        done[i].rel,
                        p,
                    );
                if i < head.len() {
                    assert(head[i] == done[i]);
                }
            }
        }
        if last.act.places() {
            if tracks(before, last.rel) {
                let k = choose|k: int| 0 <= k < before.len() && same_path(#[trigger] before[k], last.rel);
                if same_path(last.rel, p) {
                    assert(same_path(before[k], p));
                }
            } else {
                if tracks(before, p) {
                    let k = choose|k: int| 0 <= k < before.len() && same_path(#[trigger] before[k], p);
                    assert(same_path(after[k], p));
                }
                assert(after[after.len() - 1] == last.rel);
                if tracks(after, p) {
                    let k = choose|k: int| 0 <= k < after.len() && same_path(#[trigger] after[k], p);
                    if k < before.len() {
                        assert(same_path(before[k], p));
                    }
                }
            }
        } else {
            lemma_without_tracks(before, last.rel, p);
            assert(!has_task(head, p, true)) by {
                if has_task(head, p, true) {
                    let i = choose|i: int|
                        0 <= i < head.len() && (#[trigger] head[i]).act.places() && same_path(
                            head[i].rel,
                            p,
                        );
                    assert(done[i] == head[i]);
                    assert(done[i].act.places() && !done[done.len() - 1].act.places());
                }
            }
        }
    }
}

proof fn lemma_free_name(dest: Seq<char>, taken: Seq<String>, n: nat)
    ensures
        free_name(dest, taken, n) matches Some(k) ==> k < BACKUP_NAMES && !lists_path(
            taken,
            backup_name(dest, k),
        ),
    decreases BACKUP_NAMES - n,
{
    if n < BACKUP_NAMES {
        lemma_free_name(dest, taken, n + 1);
    }
}

/// Nothing is moved aside onto something that is there.
pub proof fn law_a_backup_takes_no_ones_place(dest: Seq<char>, taken: Seq<String>)
    ensures
        free_name(dest, taken, 0) matches Some(n) ==> !lists_path(taken, backup_name(dest, n)),
{
    lemma_free_name(dest, taken, 0);
}

proof fn lemma_deeds(done: Seq<Task>, k: int)
    requires
        0 <= k < deeds_for_all(done).len(),
    ensures
        exists|i: int|
            0 <= i < done.len() && #[trigger] deeds_for(done[i], i).contains(
                deeds_for_all(done)[k],
            ),
    decreases done.len(),
{
    let head = done.drop_last();
    let b = deeds_for_all(head);
    let n = done.len() - 1;
    if k < b.len() {
        lemma_deeds(head, k);
        let i = choose|i: int|
            0 <= i < head.len() && #[trigger] deeds_for(head[i], i).contains(b[k]);
        assert(done[i] == head[i]);
        assert(deeds_for(done[i], i).contains(deeds_for_all(done)[k]));
    } else {
        assert(deeds_for(done[n], n)[k - b.len()] == deeds_for_all(done)[k]);
        assert(deeds_for(done[n], n).contains(deeds_for_all(done)[k]));
    }
}

/// A dry run touches nothing, and while things are moved aside nothing is removed for good.
pub proof fn law_nothing_is_discarded(
    root: Seq<char>,
    home: Seq<char>,
    stale: Seq<Seq<char>>,
    found: Seq<Found>,
    entries: Seq<Spot>,
    backup: bool,
    dry_run: bool,
)
    requires
        found.len() == stale.len(),
        backup || dry_run,
    ensures
        ({
            let done = stale_tasks(root, home, stale, found) + entry_tasks(entries, backup);
            &&& dry_run ==> script_of(done, dry_run).len() == 0
            &&& forall|k: int|
                0 <= k < script_of(done, dry_run).len() ==> !(#[trigger] script_of(
                    done,
                    dry_run,
                )[k] is Discard)
        }),
{
    let first = stale_tasks(root, home, stale, found);
    let done = first + entry_tasks(entries, backup);
    if !dry_run {
        law_backups_lose_nothing(root, home, stale, found, entries);
        assert forall|k: int| 0 <= k < deeds_for_all(done).len() implies !(#[trigger] deeds_for_all(
            done,
        )[k] is Discard) by {
            lemma_deeds(done, k);
            let i = choose|i: int|
                0 <= i < done.len() && #[trigger] deeds_for(done[i], i).contains(
                    deeds_for_all(done)[k],
                );
            if i < first.len() {
                assert(done[i] == first[i]);
                assert(!first[i].act.places());
            } else {
                assert(done[i] == entry_tasks(entries, true)[i - first.len()]);
            }
            assert(!(done[i].act is Replace));
            let d = deeds_for_all(done)[k];
            let j = choose|j: int|
                0 <= j < deeds_for(done[i], i).len() && deeds_for(done[i], i)[j] == d;
            assert(!(deeds_for(done[i], i)[j] is Discard));
        }
    }
}

proof fn lemma_counts(first: Seq<Task>, second: Seq<Task>)
    ensures
        placings(first + second) == placings(first) + placings(second),
        asides(first + second) == asides(first) + asides(second),
    decreases second.len(),
{
    if second.len() == 0 {
        assert(first + second =~= first);
    } else {
        assert((first + second).drop_last() =~= first + second.drop_last());
        lemma_counts(first, second.drop_last());
    }
}

proof fn lemma_all_or_none(done: Seq<Task>, places: bool)
    requires
        forall|i: int| 0 <= i < done.len() ==> (#[trigger] done[i]).act.places() == places,
    ensures
        placings(done) == if places {
            done.len()
        } else {
            0
        },
        !places ==> asides(done) == 0,
    decreases done.len(),
{
    if done.len() > 0 {
        let head = done.drop_last();
        assert forall|i: int| 0 <= i < head.len() implies (#[trigger] head[i]).act.places()
            == places by {
            assert(head[i] == done[i]);
        }
        lemma_all_or_none(head, places);
        assert(done[done.len() - 1].act.places() == places);
    }
}

proof fn lemma_changed_place(entries: Seq<Spot>, backup: bool)
    ensures
        forall|i: int|
            0 <= i < changed(entries).len() ==> (#[trigger] entry_tasks(
                entries,
                backup,
            )[i]).act.places(),
    decreases entries.len(),
{
    if entries.len() > 0 {
        let head = entries.drop_last();
        lemma_changed_place(head, backup);
        let b = entry_tasks(head, backup);
        let all = entry_tasks(entries, backup);
        assert forall|i: int| 0 <= i < changed(entries).len() implies (
        #[trigger] all[i]).act.places() by {
            if i < changed(head).len() {
                assert(all[i] == b[i]);
            }
        }
    }
}

/// Of a run, as many links count as placed as entries of the plan were not in place, and as
/// many paths as pruned as were linked before and are no longer declared, whatever was found
/// there.
pub proof fn law_counts_are_those_of_the_plan(
    root: Seq<char>,
    home: Seq<char>,
    stale: Seq<Seq<char>>,
    found: Seq<Found>,
    entries: Seq<Spot>,
    backup: bool,
)
    ensures
        ({
            let done = stale_tasks(root, home, stale, found) + entry_tasks(entries, backup);
            &&& placings(done) == changed(entries).len()
            &&& done.len() - placings(done) == stale.len()
        }),
{
    let first = stale_tasks(root, home, stale, found);
    let second = entry_tasks(entries, backup);
    assert forall|i: int| 0 <= i < first.len() implies !(#[trigger] first[i]).act.places() by {
        assert(first[i].act == stale_act(root, found[i]));
    }
    lemma_all_or_none(first, false);
    lemma_changed_place(entries, backup);
    lemma_all_or_none(second, true);
    lemma_counts(first, second);
}

/// Of what is no longer declared only a link into the repository is removed; a link to
/// anywhere else, or one that cannot be read, is left, and anything else is not touched.
pub proof fn law_only_own_links_are_removed(root: Seq<char>, found: Found)
    ensures
        stale_act(root, found) is Prune <==> (found matches Found::Link(target) && within(
            target@,
            root,
        )),
        stale_act(root, found) is Leave <==> found is UnreadableLink || (found matches Found::Link(
            target,
        ) && !within(target@, root)),
        stale_act(root, found) is Forget <==> found is Nothing || found is Other,
        !stale_act(root, found).places(),
{
}

/// Every path that is not linked gets its link, and what is in its place is moved aside
/// unless that is not wanted; only a link is taken away.
pub proof fn law_what_is_done_for_an_entry(state: Status)
    ensures
        entry_act(state, true).places() <==> !(state is Linked),
        entry_act(state, false).places() <==> !(state is Linked),
        entry_act(state, true) is Link <==> state is Missing,
        entry_act(state, true) is Relink <==> state is Wrong,
        entry_act(state, true) is Backup <==> state is Occupied,
        entry_act(state, false) is Replace <==> state is Occupied,
        !(state is Occupied) ==> entry_act(state, true) == entry_act(state, false),
{
}

/// The tasks of a plan are for its paths that are not linked, in their order and at their
/// places.
pub proof fn law_tasks_are_for_their_entries(entries: Seq<Spot>, backup: bool, i: int)
    requires
        0 <= i < changed(entries).len(),
    ensures
        entry_tasks(entries, backup).len() == changed(entries).len(),
        entry_tasks(entries, backup)[i].rel == changed(entries)[i].rel,
        entry_tasks(entries, backup)[i].src == changed(entries)[i].src,
        entry_tasks(entries, backup)[i].dest == changed(entries)[i].dest,
        entry_tasks(entries, backup)[i].act == entry_act(changed(entries)[i].state, backup),
{
}

/// The first free name is taken: every one before it is taken already, and there is none
/// only where all of them are.
pub proof fn law_the_first_free_name_is_taken(dest: Seq<char>, taken: Seq<String>, n: nat)
    requires
        n <= 1000,
    ensures
        free_name(dest, taken, n) matches Some(k) ==> n <= k < 1000 && !lists_path(
            taken,
            backup_name(dest, k),
        ) && forall|j: nat| n <= j < k ==> lists_path(taken, #[trigger] backup_name(dest, j)),
        free_name(dest, taken, n) is None ==> forall|j: nat|
            n <= j < 1000 ==> lists_path(taken, #[trigger] backup_name(dest, j)),
    decreases 1000 - n,
{
    if n < 1000 && lists_path(taken, backup_name(dest, n)) {
        law_the_first_free_name_is_taken(dest, taken, n + 1);
        match free_name(dest, taken, n + 1) {
            Some(k) => {
                assert forall|j: nat| n <= j < k implies lists_path(
                    taken,
                    #[trigger] backup_name(dest, j),
                ) by {
                    if j > n {
                        assert(n + 1 <= j);
                    }
                }
            },
            None => {
                assert forall|j: nat| n <= j < 1000 implies lists_path(
                    taken,
                    #[trigger] backup_name(dest, j),
                ) by {
                    if j > n {
                        assert(n + 1 <= j);
                    }
                }
            },
        }
    }
}

/// The names for what is moved aside begin with the path that it is moved from, and no two
/// of them are alike.
pub proof fn law_names_for_what_is_moved_aside(dest: Seq<char>, a: nat, b: nat)
    ensures
        backup_name(dest, a).len() > dest.len(),
        backup_name(dest, a).take(dest.len() as int) == dest,
        backup_name(dest, a) == backup_name(dest, b) ==> a == b,
{
    reveal_strlit(".sennit-backup");
    reveal_strlit(".");
    let mark = ".sennit-backup"@;
    let dot = "."@;
    let x = backup_name(dest, a);
    let y = backup_name(dest, b);
    assert(x.take(dest.len() as int) =~= dest);
    law_decimals_stand_for_their_number(a);
    law_decimals_stand_for_their_number(b);
    let n = (dest.len() + mark.len() + dot.len()) as int;
    if x == y {
        if a > 0 && b > 0 {
            assert(x.skip(n) =~= decimal(a));
            assert(y.skip(n) =~= decimal(b));
        } else if a > 0 {
            assert(x.len() > y.len());
        } else if b > 0 {
            assert(y.len() > x.len());
        }
    }
}

/// The steps of a run are those of its tasks, one task after the other.
pub proof fn law_tasks_are_done_in_turn(done: Seq<Task>, last: Task)
    ensures
        deeds_for_all(done.push(last)) == deeds_for_all(done) + deeds_for(last, done.len() as int),
        deeds_for_all(Seq::empty()).len() == 0,
        script_of(done, false) == deeds_for_all(done),
        script_of(done, true).len() == 0,
{
    assert(done.push(last).drop_last() =~= done);
}

/// A task ends by being recorded; before that its link is placed, where it places one, and
/// what is in the way is cleared before.
pub proof fn law_steps_of_a_task(task: Task, i: int)
    ensures
        deeds_for(task, i).last() == Deed::Note(i),
        task.act.places() ==> deeds_for(task, i).len() > 2 && deeds_for(task, i)[0] == Deed::Parent(
            task.dest,
        ) && deeds_for(task, i)[deeds_for(task, i).len() - 2] == Deed::Place(task.src, task.dest),
        !task.act.places() ==> forall|k: int|
            0 <= k < deeds_for(task, i).len() ==> !(#[trigger] deeds_for(task, i)[k] is Place),
        deeds_for(task, i).contains(Deed::Unlink(task.dest)) <==> task.act is Prune || task.act
            is Relink,
        deeds_for(task, i).contains(Deed::Aside(task.dest)) <==> task.act is Backup,
        deeds_for(task, i).contains(Deed::Discard(task.dest)) <==> task.act is Replace,
{
    let d = deeds_for(task, i);
    match task.act {
        Act::Prune => {
            assert(d[0] == Deed::Unlink(task.dest));
        },
        Act::Relink => {
            assert(d[1] == Deed::Unlink(task.dest));
        },
        Act::Backup => {
            assert(d[1] == Deed::Aside(task.dest));
        },
        Act::Replace => {
            assert(d[1] == Deed::Discard(task.dest));
        },
        _ => {},
    }
}

/// One task counts as placing where it places a link, and as moving aside where it moves
/// something aside.
pub proof fn law_one_task_counts(task: Task)
    ensures
        placings(seq![task]) == (match task.act {
            Act::Link | Act::Relink | Act::Backup | Act::Replace => 1nat,
            _ => 0nat,
        }),
        asides(seq![task]) == (match task.act {
            Act::Backup => 1nat,
            _ => 0nat,
        }),
{
    let one = seq![task];
    assert(one.last() == task);
    assert(one.drop_last() =~= Seq::empty());
    assert(placings(one.drop_last()) == 0);
    assert(asides(one.drop_last()) == 0);
}

/// After a task its path is recorded where it placed a link, and not where it did not; every
/// other path is recorded as before.
pub proof fn law_a_task_is_recorded(links: Seq<Seq<char>>, task: Task, p: Seq<char>)
    ensures
        same_path(task.rel, p) ==> (tracks(links_after(links, task), p) <==> task.act.places()),
        !same_path(task.rel, p) ==> (tracks(links_after(links, task), p) <==> tracks(links, p)),
{
    let none = Seq::<Task>::empty();
    assert(seq![task].drop_last() =~= none);
    assert(seq![task].last() == task);
    assert(links_after_all(links, none) == links);
    assert(links_after_all(links, seq![task]) == links_after(links, task));
    law_record_is_kept_midway(links, seq![task], p);
    assert(seq![task][0] == task);
    if same_path(task.rel, p) {
        assert(has_task(seq![task], p, task.act.places()));
    }
}

/// A run with nothing to tell is one that placed, pruned and put off nothing and ran no hook.
pub proof fn law_when_a_run_is_idle(t: Tally)
    ensures
        t.idle() <==> t.changes == 0 && t.pruned == 0 && t.deferred == 0 && t.hooks == 0,
{
}

/// Placed links add up.
pub proof fn law_placings_add_up(a: Seq<Task>, b: Seq<Task>)
    ensures
        placings(a + b) == placings(a) + placings(b),
    decreases b.len(),
{
    if b.len() == 0 {
        assert(a + b =~= a);
        assert(placings(a) + placings(b) == placings(a));
    } else {
        assert((a + b).drop_last() =~= a + b.drop_last());
        law_placings_add_up(a, b.drop_last());
        assert(placings(a + b) == placings(a) + placings(b));
    }
}

/// What is moved aside adds up.
pub proof fn law_asides_add_up(a: Seq<Task>, b: Seq<Task>)
    ensures
        asides(a + b) == asides(a) + asides(b),
    decreases b.len(),
{
    if b.len() == 0 {
        assert(a + b =~= a);
        assert(asides(a) + asides(b) == asides(a));
    } else {
        assert((a + b).drop_last() =~= a + b.drop_last());
        law_asides_add_up(a, b.drop_last());
        assert(asides(a + b) == asides(a) + asides(b));
    }
}

/// What is moved aside gets the first name next to it that is free.
pub proof fn law_what_is_moved_aside_gets_a_free_name(
    dest: &str,
    taken: &Vec<String>,
    r: Result<String, TooManyBackups>,
)
    requires
        call_ensures(backup_path, (dest, taken), r),
    ensures
        r matches Ok(p) ==> !lists_path(taken@, p@) && p@.len() > dest@.len() && p@.take(
            dest@.len() as int,
        ) == dest@,
        r is Err <==> forall|n: nat| n < 1000 ==> lists_path(taken@, #[trigger] backup_name(dest@, n)),
        !lists_path(taken@, dest@ + ".sennit-backup"@) ==> (r matches Ok(p) && p@ == dest@
            + ".sennit-backup"@),
{
    law_the_first_free_name_is_taken(dest@, taken@, 0);
    if let Some(n) = free_name(dest@, taken@, 0) {
        law_names_for_what_is_moved_aside(dest@, n, n);
        assert(!lists_path(taken@, backup_name(dest@, n)));
    }
    assert(backup_name(dest@, 0) == dest@ + ".sennit-backup"@);
}

/// What a run tells of itself is what its jobs did.
pub proof fn law_what_is_counted(
    links: usize,
    jobs: &Vec<Job>,
    deferred: usize,
    hooks: usize,
    t: Tally,
)
    requires
        call_ensures(Tally::of, (links, jobs, deferred, hooks), t),
    ensures
        t.links == links && t.deferred == deferred && t.hooks == hooks,
        t.changes + t.pruned == jobs@.len(),
        t.changes == placings(tasks(jobs@)),
        t.moved == asides(tasks(jobs@)),
        t.moved <= t.changes,
{
    lemma_asides_place(tasks(jobs@));
}

proof fn lemma_asides_place(done: Seq<Task>)
    ensures
        asides(done) <= placings(done),
    decreases done.len(),
{
    if done.len() > 0 {
        lemma_asides_place(done.drop_last());
    }
}

/// A run is recorded where it did something or a hook noticed something, unless it was a dry
/// run or a hook failed.
pub proof fn law_what_is_recorded(jobs: nat, noticed: bool, failed: bool, dry_run: bool)
    ensures
        worth_recording(jobs, noticed, failed, dry_run) <==> !dry_run && !failed && (jobs > 0
            || noticed),
        !worth_recording(jobs, noticed, failed, true),
        !worth_recording(jobs, noticed, true, dry_run),
{
}

/// Whether a run with so many jobs is recorded.
pub open spec fn worth_recording(jobs: nat, noticed: bool, failed: bool, dry_run: bool) -> bool {
    !dry_run && !failed && (jobs > 0 || noticed)
}

/// What is no longer declared is looked at where it was linked, in its order.
pub proof fn law_stale_links_are_looked_at_in_place(
    root: Seq<char>,
    home: Seq<char>,
    stale: Seq<Seq<char>>,
    found: Seq<Found>,
    i: int,
)
    requires
        found.len() == stale.len(),
        0 <= i < stale.len(),
    ensures
        stale_tasks(root, home, stale, found).len() == stale.len(),
        stale_tasks(root, home, stale, found)[i].rel == stale[i],
        stale_tasks(root, home, stale, found)[i].dest == under(home, stale[i]),
        stale_tasks(root, home, stale, found)[i].act is Prune <==> (found[i] matches Found::Link(
            target,
        ) && within(target@, root)),
{
}

} // verus!
