//! Hooks: what runs after files are placed, and when it has to.
use crate::order::{
    law_sorting_keeps_items, law_sorting_orders, lemma_sorted_image, lemma_text_antisymmetric,
    lemma_text_reflexive, lemma_text_total, lemma_text_transitive, sort, sorted_of, text_le,
    text_not_after, Ranked, Sortable,
};
use crate::path::{path_join, under};
use crate::table::{
    ascending, copy_texts, law_lookup_after_put, lookup, plain, put, put_text, text_under, Table,
};
use crate::text::{
    cat, cat3, hexadecimal, law_hexadecimals_stand_for_their_number, law_sixteen_digits_are_enough,
    same_text, to_hexadecimal,
};
use std::collections::hash_map::DefaultHasher;
use std::hash::{Hash, Hasher};
use vstd::prelude::*;
use vstd::relations::{sorted_by, total_ordering};
use vstd::seq_lib::lemma_sorted_unique;
use vstd::std_specs::hash::DefaultHasherAdditionalSpecFns;

verus! {

/// Something to run after files are placed.
pub struct Hook {
    /// The paths it watches: it runs only when one of them has changed. Without any it
    /// runs every time.
    pub when_changed: Vec<String>,
    /// What to run.
    pub run: String,
    /// Where to run it, from the root of the repository; at the root where it is absent.
    pub cwd: Option<String>,
}

/// A file at or below a watched path.
pub struct Seen {
    /// Its path from the root of the repository.
    pub path: String,
    /// How far below the watched path it stands.
    pub depth: usize,
    /// When it was last changed, in seconds.
    pub modified: u64,
    /// Its size in bytes.
    pub size: u64,
}

/// How far below a watched path files are looked at.
pub const WATCH_DEPTH: usize = 8;

/// The size and the time of a file in one number.
pub open spec fn stamp_of(modified: u64, size: u64) -> u64 {
    modified ^ (size << 20u64)
}

/// The files that count, each with its size and time.
pub open spec fn marks_of(seen: Seq<Seen>) -> Seq<(Seq<char>, u64)>
    decreases seen.len(),
{
    if seen.len() == 0 {
        seq![]
    } else {
        let before = marks_of(seen.drop_last());
        let s = seen.last();
        if s.depth <= WATCH_DEPTH {
            before.push((s.path@, stamp_of(s.modified, s.size)))
        } else {
            before
        }
    }
}

/// The files that count, each with its size and time.
pub fn marks(seen: &Vec<Seen>) -> (r: Vec<(String, u64)>)
    ensures
        pairs(r@) == marks_of(seen@),
{
    let mut out: Vec<(String, u64)> = Vec::new();
    assert(seen@.take(0) =~= Seq::empty());
    assert(pairs(out@) =~= Seq::empty());
    for i in 0..seen.len()
        invariant
            pairs(out@) == marks_of(seen@.take(i as int)),
    {
        proof {
            assert(seen@.take(i + 1).drop_last() =~= seen@.take(i as int));
        }
        let s = &seen[i];
        if s.depth <= WATCH_DEPTH {
            let mark = (s.path.clone(), s.modified ^ (s.size << 20u64));
            assert(pairs(out@.push(mark)) =~= pairs(out@).push((mark.0@, mark.1)));
            out.push(mark);
        }
    }
    assert(seen@.take(seen@.len() as int) =~= seen@);
    out
}

/// Marks are ordered by path, then by size and time.
impl Ranked for (Seq<char>, u64) {
    open spec fn at_most(self, other: Self) -> bool {
        text_le(self.0, other.0) && (self.0 == other.0 ==> self.1 <= other.1)
    }

    proof fn total(a: Self, b: Self) {
        lemma_text_total(a.0, b.0);
        lemma_text_reflexive(a.0);
        if text_le(a.0, b.0) && text_le(b.0, a.0) {
            lemma_text_antisymmetric(a.0, b.0);
        }
    }

    proof fn transitive(a: Self, b: Self, c: Self) {
        lemma_text_transitive(a.0, b.0, c.0);
        if a.0 == c.0 {
            lemma_text_antisymmetric(a.0, b.0);
        }
    }
}

impl Ranked for (String, u64) {
    open spec fn at_most(self, other: Self) -> bool {
        (self.0@, self.1).at_most((other.0@, other.1))
    }

    proof fn total(a: Self, b: Self) {
        <(Seq<char>, u64)>::total((a.0@, a.1), (b.0@, b.1));
    }

    proof fn transitive(a: Self, b: Self, c: Self) {
        <(Seq<char>, u64)>::transitive((a.0@, a.1), (b.0@, b.1), (c.0@, c.1));
    }
}

impl Sortable for (String, u64) {
    fn not_after(&self, other: &Self) -> (r: bool) {
        if same_text(self.0.as_str(), other.0.as_str()) {
            proof {
                lemma_text_reflexive(self.0@);
            }
            self.1 <= other.1
        } else {
            text_not_after(self.0.as_str(), other.0.as_str())
        }
    }
}

/// Marks by the views of their paths.
pub open spec fn pairs(v: Seq<(String, u64)>) -> Seq<(Seq<char>, u64)> {
    v.map_values(|m: (String, u64)| (m.0@, m.1))
}

/// What a list of marks writes to a hasher.
pub uninterp spec fn hash_input(marks: Seq<(Seq<char>, u64)>) -> Seq<Seq<u8>>;

/// Calls `Hash::hash` of the standard library on a list of pairs. What it writes to the
/// hasher is fixed by the list, on a platform and under a release of the standard library;
/// both are fixed where this library is built.
#[verifier::external_body]
fn feed(marks: &Vec<(String, u64)>, hasher: &mut DefaultHasher)
    ensures
        final(hasher)@ == old(hasher)@ + hash_input(pairs(marks@)),
{
    marks.hash(hasher)
}

/// The hash of a list of marks.
pub open spec fn hash_of(marks: Seq<(Seq<char>, u64)>) -> u64 {
    DefaultHasher::spec_finish(hash_input(marks))
}

/// What tells one state of the watched paths from another: the hash of their files in
/// order, in sixteen digits.
pub open spec fn fingerprint_of(seen: Seq<Seen>) -> Seq<char> {
    hexadecimal(hash_of(sorted_of(marks_of(seen))) as nat, 16)
}

/// The fingerprint of the files at and below the watched paths. It holds sixteen digits
/// also where there is no file.
pub fn fingerprint(seen: &Vec<Seen>) -> (r: String)
    ensures
        r@ == fingerprint_of(seen@),
{
    let all = marks(seen);
    proof {
        let f = |m: (String, u64)| (m.0@, m.1);
        lemma_sorted_image(all@, f);
        assert(pairs(all@) =~= all@.map_values(f));
        assert(pairs(sorted_of(all@)) =~= sorted_of(all@).map_values(f));
    }
    let in_turn = sort(all);
    let mut hasher = DefaultHasher::new();
    feed(&in_turn, &mut hasher);
    assert(hasher@ =~= hash_input(pairs(in_turn@)));
    to_hexadecimal(hasher.finish(), 16)
}

/// Whether a hook has to run: nothing is watched, or what is watched is not as it was when
/// the hook last ran.
pub open spec fn due(
    hook: Hook,
    name: Seq<char>,
    print: Seq<char>,
    previous: Seq<(Seq<char>, Seq<char>)>,
) -> bool {
    hook.when_changed@.len() == 0 || lookup(previous, name) != Some(print)
}

/// Decides whether a hook has to run. `print` is the fingerprint of what it watches, taken
/// when its turn comes: what an earlier hook of the same run changed counts.
pub fn is_due(hooks: &Table<Hook>, i: usize, print: &str, previous: &Table<String>) -> (r: bool)
    requires
        i < hooks@.len(),
    ensures
        r == due(hooks@[i as int].1, hooks@[i as int].0, print@, plain(previous@)),
{
    let changed = match text_under(previous, hooks.key(i).as_str()) {
        Some(last) => !same_text(last.as_str(), print),
        None => true,
    };
    hooks.value(i).when_changed.len() == 0 || changed
}

/// What is done in the turn of a hook.
#[derive(Debug, Clone, Copy, PartialEq, Eq, Structural)]
pub enum HookStep {
    /// Nothing: what it watches is as it was.
    Skip,
    /// It would run, had this been no dry run.
    Preview,
    /// It runs.
    Run,
}

/// What is done in the turn of a hook. A dry run runs none.
pub open spec fn hook_step_of(
    hook: Hook,
    name: Seq<char>,
    print: Seq<char>,
    previous: Seq<(Seq<char>, Seq<char>)>,
    dry_run: bool,
) -> HookStep {
    if !due(hook, name, print, previous) {
        HookStep::Skip
    } else if dry_run {
        HookStep::Preview
    } else {
        HookStep::Run
    }
}

/// Decides what is done in the turn of a hook.
pub fn hook_step(
    hooks: &Table<Hook>,
    i: usize,
    print: &str,
    previous: &Table<String>,
    dry_run: bool,
) -> (r: HookStep)
    requires
        i < hooks@.len(),
    ensures
        r == hook_step_of(
            hooks@[i as int].1,
            hooks@[i as int].0,
            print@,
            plain(previous@),
            dry_run,
        ),
{
    if !is_due(hooks, i, print, previous) {
        HookStep::Skip
    } else if dry_run {
        HookStep::Preview
    } else {
        HookStep::Run
    }
}

/// What came of the turn of a hook.
#[derive(Debug, Clone, Copy, PartialEq, Eq, Structural)]
pub enum Outcome {
    /// It did not have to run.
    Skipped,
    /// It would have run.
    Previewed,
    Succeeded,
    Failed,
}

/// The first hook that failed.
pub open spec fn failed_at(outcomes: Seq<Outcome>) -> Option<int>
    decreases outcomes.len(),
{
    if outcomes.len() == 0 {
        None
    } else {
        match failed_at(outcomes.drop_last()) {
            Some(i) => Some(i),
            None => if outcomes.last() is Failed {
                Some(outcomes.len() - 1)
            } else {
                None
            },
        }
    }
}

proof fn lemma_failed_stays(outcomes: Seq<Outcome>, n: int)
    requires
        0 <= n <= outcomes.len(),
        failed_at(outcomes.take(n)) is Some,
    ensures
        failed_at(outcomes) == failed_at(outcomes.take(n)),
    decreases outcomes.len() - n,
{
    if n == outcomes.len() {
        assert(outcomes.take(n) =~= outcomes);
    } else {
        assert(outcomes.take(n + 1).drop_last() =~= outcomes.take(n));
        lemma_failed_stays(outcomes, n + 1);
    }
}

/// Finds the first hook that failed.
pub fn failed_hook(outcomes: &Vec<Outcome>) -> (r: Option<usize>)
    ensures
        match r {
            Some(i) => failed_at(outcomes@) == Some(i as int) && i < outcomes@.len(),
            None => failed_at(outcomes@) is None,
        },
{
    assert(outcomes@.take(0) =~= Seq::empty());
    for i in 0..outcomes.len()
        invariant
            failed_at(outcomes@.take(i as int)) is None,
    {
        assert(outcomes@.take(i + 1).drop_last() =~= outcomes@.take(i as int));
        if outcomes[i] == Outcome::Failed {
            proof {
                lemma_failed_stays(outcomes@, i + 1);
            }
            return Some(i);
        }
    }
    assert(outcomes@.take(outcomes@.len() as int) =~= outcomes@);
    None
}

/// The hook whose turn is next, out of `n`, after the turns before it came to these
/// outcomes: none after a failure, and none where all had their turn.
pub open spec fn next_of(n: nat, outcomes: Seq<Outcome>) -> Option<nat> {
    if failed_at(outcomes) is Some || outcomes.len() >= n {
        None
    } else {
        Some(outcomes.len())
    }
}

/// The hook whose turn is next, in the order of the names.
pub fn next_hook(hooks: &Table<Hook>, outcomes: &Vec<Outcome>) -> (r: Option<usize>)
    ensures
        match r {
            Some(i) => next_of(hooks@.len(), outcomes@) == Some(i as nat) && i < hooks@.len(),
            None => next_of(hooks@.len(), outcomes@) is None,
        },
{
    match failed_hook(outcomes) {
        Some(_) => None,
        None => if outcomes.len() < hooks.len() {
            Some(outcomes.len())
        } else {
            None
        },
    }
}

/// How many hooks ran, or would have.
pub open spec fn runs(outcomes: Seq<Outcome>) -> nat
    decreases outcomes.len(),
{
    if outcomes.len() == 0 {
        0
    } else {
        runs(outcomes.drop_last()) + if outcomes.last() is Skipped {
            0
        } else {
            1nat
        }
    }
}

/// Counts the hooks that ran, or would have.
pub fn run_count(outcomes: &Vec<Outcome>) -> (r: usize)
    ensures
        r == runs(outcomes@),
{
    let mut n: usize = 0;
    assert(outcomes@.take(0) =~= Seq::empty());
    for i in 0..outcomes.len()
        invariant
            n == runs(outcomes@.take(i as int)),
            n <= i,
    {
        assert(outcomes@.take(i + 1).drop_last() =~= outcomes@.take(i as int));
        if outcomes[i] != Outcome::Skipped {
            n += 1;
        }
    }
    assert(outcomes@.take(outcomes@.len() as int) =~= outcomes@);
    n
}

/// The fingerprints with those of the hooks that ran put in.
pub open spec fn recorded(
    previous: Seq<(Seq<char>, Seq<char>)>,
    hooks: Seq<(Seq<char>, Hook)>,
    prints: Seq<String>,
    outcomes: Seq<Outcome>,
) -> Seq<(Seq<char>, Seq<char>)>
    decreases outcomes.len(),
{
    if outcomes.len() == 0 {
        previous
    } else {
        let i = outcomes.len() - 1;
        let before = recorded(previous, hooks, prints, outcomes.drop_last());
        if outcomes[i] is Succeeded {
            put(before, hooks[i].0, prints[i]@)
        } else {
            before
        }
    }
}

/// The fingerprints to keep after the turns of the hooks came to these outcomes. `prints`
/// holds the fingerprint that each had in its turn. Where a hook failed, it is named instead.
pub fn run_all(
    hooks: &Table<Hook>,
    prints: &Vec<String>,
    previous: &Table<String>,
    outcomes: &Vec<Outcome>,
) -> (r: Result<Table<String>, usize>)
    requires
        prints@.len() == outcomes@.len(),
        outcomes@.len() <= hooks@.len(),
    ensures
        match r {
            Ok(next) => failed_at(outcomes@) is None && plain(next@) == recorded(
                plain(previous@),
                hooks@,
                prints@,
                outcomes@,
            ),
            Err(i) => failed_at(outcomes@) == Some(i as int) && i < hooks@.len(),
        },
{
    if let Some(i) = failed_hook(outcomes) {
        return Err(i);
    }
    let mut next = copy_texts(previous);
    assert(outcomes@.take(0) =~= Seq::empty());
    for i in 0..outcomes.len()
        invariant
            prints@.len() == outcomes@.len(),
            outcomes@.len() <= hooks@.len(),
            plain(next@) == recorded(
                plain(previous@),
                hooks@,
                prints@,
                outcomes@.take(i as int),
            ),
    {
        assert(outcomes@.take(i + 1).drop_last() =~= outcomes@.take(i as int));
        if outcomes[i] == Outcome::Succeeded {
            put_text(&mut next, hooks.key(i).clone(), prints[i].clone());
        }
    }
    assert(outcomes@.take(outcomes@.len() as int) =~= outcomes@);
    Ok(next)
}

/// Where a hook runs.
pub fn hook_dir(root: &str, hook: &Hook) -> (r: String)
    ensures
        r@ == match hook.cwd {
            Some(dir) => under(root@, dir@),
            None => root@,
        },
{
    match &hook.cwd {
        Some(dir) => path_join(root, dir.as_str()),
        None => root.to_owned(),
    }
}

/// What is said of a hook that failed.
pub fn hook_failed(name: &str, hook: &Hook) -> (r: String)
    ensures
        r@ == "hook `"@ + name@ + "` failed: "@ + hook.run@,
{
    let head = cat3("hook `", name, "` failed: ");
    cat(head.as_str(), hook.run.as_str())
}

spec fn mark_le() -> spec_fn((Seq<char>, u64), (Seq<char>, u64)) -> bool {
    |a: (Seq<char>, u64), b: (Seq<char>, u64)|
        text_le(a.0, b.0) && (a.0 == b.0 ==> a.1 <= b.1)
}

proof fn lemma_mark_le()
    ensures
        total_ordering(mark_le()),
{
    let le = mark_le();
    assert forall|a: (Seq<char>, u64)| #[trigger] le(a, a) by {
        lemma_text_reflexive(a.0);
    }
    assert forall|a: (Seq<char>, u64), b: (Seq<char>, u64)| #[trigger] le(a, b) && #[trigger] le(
        b,
        a,
    ) implies a == b by {
        lemma_text_antisymmetric(a.0, b.0);
    }
    assert forall|a: (Seq<char>, u64), b: (Seq<char>, u64), c: (Seq<char>, u64)| #[trigger]
        le(a, b) && #[trigger] le(b, c) implies le(a, c) by {
        lemma_text_transitive(a.0, b.0, c.0);
        if a.0 == c.0 {
            lemma_text_antisymmetric(a.0, b.0);
        }
    }
    assert forall|a: (Seq<char>, u64), b: (Seq<char>, u64)| #[trigger] le(a, b) || le(b, a) by {
        lemma_text_total(a.0, b.0);
        lemma_text_reflexive(a.0);
        if text_le(a.0, b.0) && text_le(b.0, a.0) {
            lemma_text_antisymmetric(a.0, b.0);
        }
    }
}

/// The fingerprint tells nothing of the order in which the files were listed.
pub proof fn law_fingerprint_ignores_listing_order(a: Seq<Seen>, b: Seq<Seen>)
    requires
        marks_of(a).to_multiset() == marks_of(b).to_multiset(),
    ensures
        fingerprint_of(a) == fingerprint_of(b),
{
    let x = sorted_of(marks_of(a));
    let y = sorted_of(marks_of(b));
    law_sorting_keeps_items(marks_of(a));
    law_sorting_keeps_items(marks_of(b));
    law_sorting_orders(marks_of(a));
    law_sorting_orders(marks_of(b));
    lemma_mark_le();
    assert(sorted_by(x, mark_le()));
    assert(sorted_by(y, mark_le()));
    lemma_sorted_unique(x, y, mark_le());
}

proof fn lemma_recorded(
    previous: Seq<(Seq<char>, Seq<char>)>,
    hooks: Seq<(Seq<char>, Hook)>,
    prints: Seq<String>,
    outcomes: Seq<Outcome>,
    i: int,
)
    requires
        ascending(hooks),
        0 <= i < hooks.len(),
        outcomes.len() <= hooks.len(),
    ensures
        lookup(recorded(previous, hooks, prints, outcomes), hooks[i].0) == (if i < outcomes.len()
            && outcomes[i] is Succeeded {
            Some(prints[i]@)
        } else {
            lookup(previous, hooks[i].0)
        }),
    decreases outcomes.len(),
{
    if outcomes.len() > 0 {
        let head = outcomes.drop_last();
        let j = outcomes.len() - 1;
        lemma_recorded(previous, hooks, prints, head, i);
        law_lookup_after_put(
            recorded(previous, hooks, prints, head),
            hooks[j].0,
            prints[j]@,
            hooks[i].0,
        );
        if i != j {
            assert(hooks[j].0 != hooks[i].0);
            if i < j {
                assert(head[i] == outcomes[i]);
            }
        }
    }
}

/// After every hook that had to run has run, and while what each of them watches is as it was
/// in its turn, only the hooks that watch nothing have to run.
pub proof fn law_hooks_settle(
    hooks: Seq<(Seq<char>, Hook)>,
    prints: Seq<String>,
    previous: Seq<(Seq<char>, Seq<char>)>,
    outcomes: Seq<Outcome>,
    i: int,
)
    requires
        ascending(hooks),
        0 <= i < hooks.len(),
        outcomes.len() == hooks.len(),
        forall|k: int|
            0 <= k < hooks.len() ==> #[trigger] outcomes[k] == if due(
                hooks[k].1,
                hooks[k].0,
                prints[k]@,
                previous,
            ) {
                Outcome::Succeeded
            } else {
                Outcome::Skipped
            },
    ensures
        due(hooks[i].1, hooks[i].0, prints[i]@, recorded(previous, hooks, prints, outcomes)) <==>
            hooks[i].1.when_changed@.len() == 0,
{
    lemma_recorded(previous, hooks, prints, outcomes, i);
    assert(outcomes[i] is Succeeded || outcomes[i] is Skipped);
}

/// After a hook has failed no other one has its turn.
pub proof fn law_a_failure_stops_the_hooks(n: nat, outcomes: Seq<Outcome>, k: int)
    requires
        0 <= k < outcomes.len(),
        outcomes[k] is Failed,
    ensures
        next_of(n, outcomes) is None,
{
    let t = outcomes.take(k + 1);
    assert(t.last() is Failed);
    lemma_failed_stays(outcomes, k + 1);
}

/// A run in which no hook succeeded keeps the fingerprints as they were.
pub proof fn law_without_runs_nothing_is_recorded(
    previous: Seq<(Seq<char>, Seq<char>)>,
    hooks: Seq<(Seq<char>, Hook)>,
    prints: Seq<String>,
    outcomes: Seq<Outcome>,
)
    requires
        forall|k: int| 0 <= k < outcomes.len() ==> !(#[trigger] outcomes[k] is Succeeded),
    ensures
        recorded(previous, hooks, prints, outcomes) == previous,
    decreases outcomes.len(),
{
    if outcomes.len() > 0 {
        let head = outcomes.drop_last();
        assert forall|k: int| 0 <= k < head.len() implies !(#[trigger] head[k] is Succeeded) by {
            assert(head[k] == outcomes[k]);
        }
        law_without_runs_nothing_is_recorded(previous, hooks, prints, head);
        assert(!(outcomes[outcomes.len() - 1] is Succeeded));
    }
}

/// A change of the time, or of the size, of a file changes its mark.
pub proof fn law_changes_are_noticed(a: u64, b: u64, size: u64, other: u64)
    requires
        size < 0x1000_0000_0000,
        other < 0x1000_0000_0000,
    ensures
        stamp_of(a, size) == stamp_of(b, size) ==> a == b,
        stamp_of(a, size) == stamp_of(a, other) ==> size == other,
{
    assert(a ^ (size << 20u64) == b ^ (size << 20u64) ==> a == b) by (bit_vector);
    assert(a ^ (size << 20u64) == a ^ (other << 20u64) ==> size == other) by (bit_vector)
        requires
            size < 0x1000_0000_0000,
            other < 0x1000_0000_0000,
    ;
}

/// A hook has to run where it watches nothing, where it has not run yet, and where what it
/// watches is not as it was when it last ran.
pub proof fn law_when_a_hook_runs(
    hook: Hook,
    name: Seq<char>,
    print: Seq<char>,
    previous: Seq<(Seq<char>, Seq<char>)>,
)
    ensures
        hook_step_of(hook, name, print, previous, false) is Run <==> hook.when_changed@.len() == 0
            || lookup(previous, name) is None || lookup(previous, name)->Some_0 != print,
        hook_step_of(hook, name, print, previous, true) is Preview <==> hook_step_of(
            hook,
            name,
            print,
            previous,
            false,
        ) is Run,
        hook_step_of(hook, name, print, previous, false) is Skip <==> hook_step_of(
            hook,
            name,
            print,
            previous,
            true,
        ) is Skip,
{
}

/// The hooks have their turns one after the other, until one fails or all have had theirs.
pub proof fn law_hooks_run_in_turn(n: nat, outcomes: Seq<Outcome>)
    ensures
        next_of(n, outcomes) matches Some(i) ==> i == outcomes.len() && i < n,
        next_of(n, outcomes) is None <==> outcomes.len() >= n || exists|i: int|
            0 <= i < outcomes.len() && #[trigger] outcomes[i] is Failed,
        failed_at(outcomes) matches Some(i) ==> 0 <= i < outcomes.len() && outcomes[i] is Failed
            && forall|k: int| 0 <= k < i ==> !(#[trigger] outcomes[k] is Failed),
        failed_at(outcomes) is None <==> forall|k: int|
            0 <= k < outcomes.len() ==> !(#[trigger] outcomes[k] is Failed),
    decreases outcomes.len(),
{
    if outcomes.len() > 0 {
        let head = outcomes.drop_last();
        law_hooks_run_in_turn(n, head);
        assert(outcomes[outcomes.len() - 1] == outcomes.last());
        if failed_at(head) is None {
            assert forall|k: int| 0 <= k < head.len() implies !(#[trigger] outcomes[k]
                is Failed) by {
                assert(head[k] == outcomes[k]);
            }
        } else {
            let i = failed_at(head).unwrap();
            assert(outcomes[i] == head[i]);
            assert forall|k: int| 0 <= k < i implies !(#[trigger] outcomes[k] is Failed) by {
                assert(head[k] == outcomes[k]);
            }
        }
    }
}

/// What a hook watched is recorded where it succeeded, and nothing is recorded otherwise.
pub proof fn law_success_is_recorded(
    previous: Seq<(Seq<char>, Seq<char>)>,
    hooks: Seq<(Seq<char>, Hook)>,
    prints: Seq<String>,
    outcomes: Seq<Outcome>,
    last: Outcome,
    name: Seq<char>,
)
    requires
        outcomes.len() < hooks.len(),
        prints.len() == hooks.len(),
    ensures
        recorded(previous, hooks, prints, Seq::empty()) == previous,
        lookup(recorded(previous, hooks, prints, outcomes.push(last)), name) == if last is Succeeded
            && hooks[outcomes.len() as int].0 == name {
            Some(prints[outcomes.len() as int]@)
        } else {
            lookup(recorded(previous, hooks, prints, outcomes), name)
        },
{
    let all = outcomes.push(last);
    let i = outcomes.len() as int;
    assert(all.drop_last() =~= outcomes);
    assert(all[i] == last);
    law_lookup_after_put(
        recorded(previous, hooks, prints, outcomes),
        hooks[i].0,
        prints[i]@,
        name,
    );
}

/// A hook that did not have to run does not count as run, and every other one does.
pub proof fn law_one_hook_counts(outcome: Outcome)
    ensures
        runs(seq![outcome]) == if outcome is Skipped {
            0nat
        } else {
            1nat
        },
        runs(Seq::empty()) == 0,
{
    assert(seq![outcome].last() == outcome);
    assert(seq![outcome].drop_last() =~= Seq::empty());
    assert(runs(seq![outcome].drop_last()) == 0);
}

/// Runs of hooks add up.
pub proof fn law_runs_add_up(a: Seq<Outcome>, b: Seq<Outcome>)
    ensures
        runs(a + b) == runs(a) + runs(b),
    decreases b.len(),
{
    if b.len() == 0 {
        assert(a + b =~= a);
        assert(runs(a) + runs(b) == runs(a));
    } else {
        assert((a + b).drop_last() =~= a + b.drop_last());
        law_runs_add_up(a, b.drop_last());
        assert(runs(a + b) == runs(a) + runs(b));
    }
}

/// A file counts where it is not too far below what is watched.
pub proof fn law_one_watched_file(s: Seen)
    ensures
        marks_of(seq![s]) == if s.depth <= 8 {
            seq![(s.path@, stamp_of(s.modified, s.size))]
        } else {
            Seq::<(Seq<char>, u64)>::empty()
        },
{
    let one = seq![s];
    assert(one.last() == s);
    assert(one.drop_last() =~= Seq::empty());
    assert(marks_of(one.drop_last()) =~= Seq::empty());
    assert(Seq::<(Seq<char>, u64)>::empty().push((s.path@, stamp_of(s.modified, s.size))) =~= seq![(s.path@, stamp_of(s.modified, s.size))]);
}

/// Whether a file counts does not depend on the files around it.
pub proof fn law_watched_files_count_one_by_one(a: Seq<Seen>, b: Seq<Seen>)
    ensures
        marks_of(a + b) == marks_of(a) + marks_of(b),
    decreases b.len(),
{
    if b.len() == 0 {
        assert(a + b =~= a);
        assert(marks_of(a) + marks_of(b) =~= marks_of(a));
    } else {
        assert((a + b).drop_last() =~= a + b.drop_last());
        law_watched_files_count_one_by_one(a, b.drop_last());
        assert(marks_of(a + b) =~= marks_of(a) + marks_of(b));
    }
}

/// A hook runs in the directory that it tells, from the root of the repository, and else at
/// the root.
pub proof fn law_where_a_hook_runs(root: &str, hook: &Hook, r: String)
    requires
        call_ensures(hook_dir, (root, hook), r),
    ensures
        hook.cwd is None ==> r@ == root@,
        hook.cwd matches Some(dir) ==> r@ == under(root@, dir@),
{
}

/// The hook that failed is told, the first one of all.
pub proof fn law_the_first_failure_is_told(outcomes: &Vec<Outcome>, r: Option<usize>)
    requires
        call_ensures(failed_hook, (outcomes,), r),
    ensures
        r is None <==> forall|k: int|
            0 <= k < outcomes@.len() ==> !(#[trigger] outcomes@[k] is Failed),
        r matches Some(i) ==> i < outcomes@.len() && outcomes@[i as int] is Failed && forall|k: int|
            0 <= k < i ==> !(#[trigger] outcomes@[k] is Failed),
{
    law_hooks_run_in_turn(0, outcomes@);
}

/// Two listings have the same fingerprint exactly where all that counts of them, in order,
/// has the same hash.
pub proof fn law_fingerprints_tell_hashes_apart(a: Seq<Seen>, b: Seq<Seen>)
    ensures
        fingerprint_of(a) == fingerprint_of(b) <==> hash_of(sorted_of(marks_of(a))) == hash_of(
            sorted_of(marks_of(b)),
        ),
        sorted_of(marks_of(a)).to_multiset() == marks_of(a).to_multiset(),
        fingerprint_of(a).len() == 16,
{
    law_sixteen_digits_are_enough(
        hash_of(sorted_of(marks_of(a))),
        hash_of(sorted_of(marks_of(b))),
    );
    law_sorting_keeps_items(marks_of(a));
    law_hexadecimals_stand_for_their_number(hash_of(sorted_of(marks_of(a))) as nat, 16);
}

} // verus!
