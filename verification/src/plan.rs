//! What is to be placed, and how that differs from what is there.
use crate::manifest::{pattern_matches, Manifest};
use crate::order::{
    in_order, law_sorting_keeps_items, law_sorting_orders, lemma_sorted_image, sort, sorted_of,
    Ranked, Sortable,
};
use crate::path::{
    components, lemma_parts_total, lemma_parts_transitive, lists_path, path_eq, path_join, path_le,
    path_listed, path_not_after, path_within, same_path, under, within,
};
use crate::text::{
    cat, cat3, decimal, lemma_texts_empty, lemma_texts_push, texts, to_decimal,
};
use vstd::prelude::*;

verus! {

/// How what is at a path differs from the link that is to be there.
#[derive(Debug)]
pub enum State {
    /// The link is there.
    Linked,
    /// Nothing is there.
    Missing,
    /// A link to somewhere else is there.
    Wrong { current: String },
    /// Something that is no link is there.
    Occupied,
}

/// A state by its view.
pub enum Status {
    Linked,
    Missing,
    Wrong(Seq<char>),
    Occupied,
}

impl View for State {
    type V = Status;

    open spec fn view(&self) -> Status {
        match self {
            State::Linked => Status::Linked,
            State::Missing => Status::Missing,
            State::Wrong { current } => Status::Wrong(current@),
            State::Occupied => Status::Occupied,
        }
    }
}

impl State {
    /// Whether there is anything to do.
    pub fn needs_change(&self) -> (r: bool)
        ensures
            r == !(self@ is Linked),
    {
        !matches!(self, State::Linked)
    }

    /// The state in a list of all links.
    pub fn mark(&self) -> (r: &'static str)
        ensures
            r@ == match self@ {
                Status::Linked => "ok"@,
                Status::Missing => "--"@,
                Status::Wrong(_) => "~~"@,
                Status::Occupied => "!!"@,
            },
    {
        match self {
            State::Linked => "ok",
            State::Missing => "--",
            State::Wrong { .. } => "~~",
            State::Occupied => "!!",
        }
    }

    /// The state in a list of what would change.
    pub fn sign(&self) -> (r: &'static str)
        ensures
            r@ == match self@ {
                Status::Linked => ""@,
                Status::Missing => "+"@,
                Status::Wrong(_) => "~"@,
                Status::Occupied => "!"@,
            },
    {
        match self {
            State::Linked => "",
            State::Missing => "+",
            State::Wrong { .. } => "~",
            State::Occupied => "!",
        }
    }
}

/// What was found at a path.
pub enum Found {
    Nothing,
    /// A link, and where it points to.
    Link(String),
    /// A link that could not be read.
    UnreadableLink,
    /// A file or a directory.
    Other,
}

/// How what was found differs from a link to `src`.
pub open spec fn status_of(src: Seq<char>, found: Found) -> Status {
    match found {
        Found::Nothing => Status::Missing,
        Found::Link(target) => if same_path(target@, src) {
            Status::Linked
        } else {
            Status::Wrong(target@)
        },
        Found::UnreadableLink => Status::Occupied,
        Found::Other => Status::Occupied,
    }
}

/// Tells how what was found differs from a link to `src`.
pub fn inspect(src: &str, found: &Found) -> (r: State)
    ensures
        r@ == status_of(src@, *found),
{
    match found {
        Found::Nothing => State::Missing,
        Found::Link(target) => if path_eq(target.as_str(), src) {
            State::Linked
        } else {
            State::Wrong { current: target.clone() }
        },
        Found::UnreadableLink => State::Occupied,
        Found::Other => State::Occupied,
    }
}

/// One link that is to be there.
pub struct Entry {
    /// The path from the root of the repository, and from the home directory alike.
    pub rel: String,
    /// What the link points to.
    pub src: String,
    /// Where the link is.
    pub dest: String,
    pub state: State,
}

/// An entry by its view.
pub struct Spot {
    pub rel: Seq<char>,
    pub src: Seq<char>,
    pub dest: Seq<char>,
    pub state: Status,
}

impl View for Entry {
    type V = Spot;

    open spec fn view(&self) -> Spot {
        Spot { rel: self.rel@, src: self.src@, dest: self.dest@, state: self.state@ }
    }
}

impl Entry {
    /// What would change, in words.
    pub fn difference(&self) -> (r: String)
        ensures
            r@ == match self@.state {
                Status::Linked | Status::Missing => self.rel@,
                Status::Wrong(current) => self.rel@ + "\n    now -> "@ + current
                    + "\n    new -> "@ + self.src@,
                Status::Occupied => self.rel@ + "  (not a symlink; would be replaced)"@,
            },
    {
        match &self.state {
            State::Linked | State::Missing => self.rel.clone(),
            State::Wrong { current } => {
                let now = cat3(self.rel.as_str(), "\n    now -> ", current.as_str());
                cat3(now.as_str(), "\n    new -> ", self.src.as_str())
            },
            State::Occupied => cat(self.rel.as_str(), "  (not a symlink; would be replaced)"),
        }
    }
}

/// Entries are ordered by path.
impl Ranked for Spot {
    open spec fn at_most(self, other: Self) -> bool {
        path_le(self.rel, other.rel)
    }

    proof fn total(a: Self, b: Self) {
        lemma_parts_total(components(a.rel), components(b.rel));
    }

    proof fn transitive(a: Self, b: Self, c: Self) {
        lemma_parts_transitive(components(a.rel), components(b.rel), components(c.rel));
    }
}

impl Ranked for Entry {
    open spec fn at_most(self, other: Self) -> bool {
        path_le(self.rel@, other.rel@)
    }

    proof fn total(a: Self, b: Self) {
        lemma_parts_total(components(a.rel@), components(b.rel@));
    }

    proof fn transitive(a: Self, b: Self, c: Self) {
        lemma_parts_transitive(components(a.rel@), components(b.rel@), components(c.rel@));
    }
}

impl Sortable for Entry {
    fn not_after(&self, other: &Self) -> (r: bool) {
        path_not_after(self.rel.as_str(), other.rel.as_str())
    }
}

/// What a declared path is in the repository.
pub enum Listing {
    Absent,
    File,
    /// A directory, with the files below it by their paths from the root.
    Directory(Vec<String>),
    /// Something that could not be read, or a directory with such a thing in it.
    Unreadable,
}

/// Why a plan cannot be made: a declared path could not be read.
pub struct PlanError {
    pub target: String,
}

impl PlanError {
    /// The error in words.
    pub fn message(&self) -> (r: String)
        ensures
            r@ == "failed to read "@ + self.target@,
    {
        cat("failed to read ", self.target.as_str())
    }
}

/// The first declared path that could not be read.
pub open spec fn first_unreadable(listings: Seq<Listing>) -> Option<int>
    decreases listings.len(),
{
    if listings.len() == 0 {
        None
    } else {
        match first_unreadable(listings.drop_last()) {
            Some(i) => Some(i),
            None => if listings.last() is Unreadable {
                Some(listings.len() - 1)
            } else {
                None
            },
        }
    }
}

proof fn lemma_first_unreadable(listings: Seq<Listing>, n: int)
    requires
        0 <= n <= listings.len(),
        first_unreadable(listings.take(n)) is Some,
    ensures
        first_unreadable(listings) == first_unreadable(listings.take(n)),
    decreases listings.len(),
{
    if n == listings.len() {
        assert(listings.take(n) =~= listings);
    } else {
        let head = listings.drop_last();
        assert(head.take(n) =~= listings.take(n));
        lemma_first_unreadable(head, n);
    }
}

/// Whether a path may be placed: it is no input of something generated, and is not ignored.
pub open spec fn placeable(m: Manifest, rel: Seq<char>) -> bool {
    !m.reads_template(rel) && !m.reads_ciphertext(rel) && !m.ignores(rel)
}

/// The paths of a list that may be placed.
pub open spec fn placeable_among(m: Manifest, rels: Seq<Seq<char>>) -> Seq<Seq<char>>
    decreases rels.len(),
{
    if rels.len() == 0 {
        seq![]
    } else {
        let before = placeable_among(m, rels.drop_last());
        if placeable(m, rels.last()) {
            before.push(rels.last())
        } else {
            before
        }
    }
}

/// The files that a declared path stands for.
pub open spec fn files_of(target: Seq<char>, listing: Listing) -> Seq<Seq<char>> {
    match listing {
        Listing::Absent => seq![],
        Listing::File => seq![target],
        Listing::Directory(files) => texts(files@),
        Listing::Unreadable => seq![],
    }
}

/// The outputs at or below a path that are still to be generated there.
pub open spec fn pending_below(
    pending: Seq<Seq<char>>,
    target: Seq<char>,
    files: Seq<Seq<char>>,
) -> Seq<Seq<char>>
    decreases pending.len(),
{
    if pending.len() == 0 {
        seq![]
    } else {
        let before = pending_below(pending.drop_last(), target, files);
        let out = pending.last();
        if within(out, target) && !(exists|i: int|
            0 <= i < files.len() && same_path(#[trigger] files[i], out)) {
            before.push(out)
        } else {
            before
        }
    }
}

/// The paths to place: for each declared path the files it stands for, and the outputs that
/// are generated before anything is placed.
pub open spec fn rels_of(
    m: Manifest,
    targets: Seq<Seq<char>>,
    listings: Seq<Listing>,
    pending: Seq<Seq<char>>,
) -> Seq<Seq<char>>
    decreases targets.len(),
{
    if targets.len() == 0 {
        seq![]
    } else {
        let target = targets.last();
        let files = files_of(target, listings[targets.len() - 1]);
        rels_of(m, targets.drop_last(), listings, pending) + placeable_among(
            m,
            files + pending_below(pending, target, files),
        )
    }
}

fn push_placeable(out: &mut Vec<String>, m: &Manifest, rels: &Vec<String>)
    ensures
        texts(final(out)@) == texts(old(out)@) + placeable_among(*m, texts(rels@)),
{
    let ghost before = texts(out@);
    let ghost all = texts(rels@);
    assert(all.take(0) =~= Seq::empty());
    assert(before + placeable_among(*m, all.take(0)) =~= before);
    for i in 0..rels.len()
        invariant
            all == texts(rels@),
            texts(out@) == before + placeable_among(*m, all.take(i as int)),
    {
        let ghost so_far = placeable_among(*m, all.take(i as int));
        proof {
            let t = all.take(i + 1);
            assert(t.drop_last() =~= all.take(i as int));
            assert(t.last() == rels@[i as int]@);
        }
        let rel = rels[i].as_str();
        if !m.is_template(rel) && !m.is_ciphertext(rel) && !m.is_ignored(rel) {
            let s = rels[i].clone();
            proof {
                lemma_texts_push(out@, s);
                assert((before + so_far).push(s@) =~= before + so_far.push(s@));
            }
            out.push(s);
        }
    }
    assert(all.take(all.len() as int) =~= all);
}

/// The paths to place. `listings` tells what each of the targets is in the repository;
/// `pending` are the outputs that are generated before anything is placed. Where something
/// could not be read there is no answer: it must not be taken for something that was removed.
pub fn candidates(
    m: &Manifest,
    targets: &Vec<String>,
    listings: &Vec<Listing>,
    pending: &Vec<String>,
) -> (r: Result<Vec<String>, PlanError>)
    requires
        listings@.len() == targets@.len(),
    ensures
        match first_unreadable(listings@) {
            Some(i) => r matches Err(e) && e.target@ == targets@[i]@,
            None => r matches Ok(rels) && texts(rels@) == rels_of(
                *m,
                texts(targets@),
                listings@,
                texts(pending@),
            ),
        },
{
    let ghost all = texts(targets@);
    assert(listings@.take(0) =~= Seq::empty());
    let mut out: Vec<String> = Vec::new();
    proof {
        lemma_texts_empty();
        assert(all.take(0) =~= Seq::empty());
    }
    for i in 0..targets.len()
        invariant
            all == texts(targets@),
            listings@.len() == targets@.len(),
            first_unreadable(listings@.take(i as int)) is None,
            texts(out@) == rels_of(*m, all.take(i as int), listings@, texts(pending@)),
    {
        proof {
            assert(listings@.take(i + 1).drop_last() =~= listings@.take(i as int));
            let t = all.take(i + 1);
            assert(t.drop_last() =~= all.take(i as int));
            assert(t.last() == targets@[i as int]@);
            lemma_texts_empty();
        }
        let target = targets[i].as_str();
        let mut files: Vec<String> = Vec::new();
        match &listings[i] {
            Listing::Absent => {},
            Listing::File => {
                let s = target.to_owned();
                proof {
                    lemma_texts_push(files@, s);
                }
                files.push(s);
                assert(texts(files@) =~= seq![target@]);
            },
            Listing::Directory(list) => {
                crate::manifest::push_all(&mut files, list);
                assert(texts(files@) =~= texts(list@));
            },
            Listing::Unreadable => {
                proof {
                    lemma_first_unreadable(listings@, i + 1);
                }
                return Err(PlanError { target: targets[i].clone() });
            },
        }
        let ghost listed = files_of(target@, listings@[i as int]);
        assert(texts(files@) == listed);
        let waiting = still_pending(pending, target, &files);
        crate::manifest::push_all(&mut files, &waiting);
        push_placeable(&mut out, m, &files);
    }
    assert(all.take(all.len() as int) =~= all);
    assert(listings@.take(listings@.len() as int) =~= listings@);
    Ok(out)
}

fn still_pending(pending: &Vec<String>, target: &str, files: &Vec<String>) -> (r: Vec<String>)
    ensures
        texts(r@) == pending_below(texts(pending@), target@, texts(files@)),
{
    let ghost all = texts(pending@);
    let mut out: Vec<String> = Vec::new();
    proof {
        lemma_texts_empty();
        assert(all.take(0) =~= Seq::empty());
    }
    for i in 0..pending.len()
        invariant
            all == texts(pending@),
            texts(out@) == pending_below(all.take(i as int), target@, texts(files@)),
    {
        broadcast use lemma_texts_push;

        let name = pending[i].as_str();
        proof {
            let t = all.take(i + 1);
            assert(t.drop_last() =~= all.take(i as int));
            assert(t.last() == name@);
            if lists_path(files@, name@) {
                let k = choose|k: int| 0 <= k < files@.len() && same_path((#[trigger] files@[k])@, name@);
                assert(same_path(texts(files@)[k], name@));
            } else {
                assert forall|k: int| 0 <= k < texts(files@).len() implies !same_path(
                    #[trigger] texts(files@)[k],
                    name@,
                ) by {
                    assert(texts(files@)[k] == files@[k]@);
                }
            }
        }
        if path_within(name, target) && !path_listed(files, name) {
            out.push(pending[i].clone());
        }
    }
    assert(all.take(all.len() as int) =~= all);
    out
}

/// The entry for a path, given what was found where its link is to be.
pub open spec fn spot_of(root: Seq<char>, home: Seq<char>, rel: Seq<char>, found: Found) -> Spot {
    Spot {
        rel,
        src: under(root, rel),
        dest: under(home, rel),
        state: status_of(under(root, rel), found),
    }
}

/// The entries for some paths, in the order of the paths.
pub open spec fn spots_of(
    root: Seq<char>,
    home: Seq<char>,
    rels: Seq<Seq<char>>,
    found: Seq<Found>,
) -> Seq<Spot> {
    sorted_of(Seq::new(rels.len(), |i: int| spot_of(root, home, rels[i], found[i])))
}

/// Entries by their views.
pub open spec fn spots(v: Seq<Entry>) -> Seq<Spot> {
    v.map_values(|e: Entry| e@)
}

/// The entries for which there is something to do.
pub open spec fn changed(v: Seq<Spot>) -> Seq<Spot>
    decreases v.len(),
{
    if v.len() == 0 {
        seq![]
    } else {
        let before = changed(v.drop_last());
        if v.last().state is Linked {
            before
        } else {
            before.push(v.last())
        }
    }
}

/// The links that are to be there, in the order of their paths.
pub struct Plan {
    pub entries: Vec<Entry>,
}

impl View for Plan {
    type V = Seq<Spot>;

    open spec fn view(&self) -> Seq<Spot> {
        spots(self.entries@)
    }
}

/// Borrowed entries by their views.
pub open spec fn borrowed(v: Seq<&Entry>) -> Seq<Spot> {
    v.map_values(|e: &Entry| e@)
}

impl Plan {
    /// The plan for some paths, given what was found where each link is to be.
    pub fn build(root: &str, home: &str, rels: &Vec<String>, found: &Vec<Found>) -> (r: Self)
        requires
            found@.len() == rels@.len(),
        ensures
            r@ == spots_of(root@, home@, texts(rels@), found@),
    {
        let ghost goal = Seq::new(
            texts(rels@).len(),
            |i: int| spot_of(root@, home@, texts(rels@)[i], found@[i]),
        );
        let mut entries: Vec<Entry> = Vec::new();
        assert(spots(entries@) =~= goal.take(0));
        for i in 0..rels.len()
            invariant
                found@.len() == rels@.len(),
                goal == Seq::new(
                    texts(rels@).len(),
                    |i: int| spot_of(root@, home@, texts(rels@)[i], found@[i]),
                ),
                spots(entries@) == goal.take(i as int),
        {
            let rel = rels[i].clone();
            let src = path_join(root, rel.as_str());
            let dest = path_join(home, rel.as_str());
            let state = inspect(src.as_str(), &found[i]);
            let e = Entry { rel, src, dest, state };
            proof {
                assert(goal[i as int] == e@);
                assert(spots(entries@.push(e)) =~= spots(entries@).push(e@));
                assert(goal.take(i + 1) =~= goal.take(i as int).push(goal[i as int]));
            }
            entries.push(e);
        }
        assert(goal.take(goal.len() as int) =~= goal);
        proof {
            let f = |e: Entry| e@;
            lemma_sorted_image(entries@, f);
            assert(spots(entries@) =~= entries@.map_values(f));
            assert(spots(sorted_of(entries@)) =~= sorted_of(entries@).map_values(f));
        }
        Plan { entries: sort(entries) }
    }

    /// The entries for which there is something to do.
    pub fn changes(&self) -> (r: Vec<&Entry>)
        ensures
            borrowed(r@) == changed(self@),
    {
        let ghost all = self@;
        let mut out: Vec<&Entry> = Vec::new();
        assert(borrowed(out@) =~= Seq::empty());
        assert(all.take(0) =~= Seq::empty());
        for i in 0..self.entries.len()
            invariant
                all == self@,
                borrowed(out@) == changed(all.take(i as int)),
        {
            let e = &self.entries[i];
            proof {
                let t = all.take(i + 1);
                assert(t.drop_last() =~= all.take(i as int));
                assert(t.last() == e@);
            }
            if e.state.needs_change() {
                assert(borrowed(out@.push(e)) =~= borrowed(out@).push(e@));
                out.push(e);
            }
        }
        assert(all.take(all.len() as int) =~= all);
        out
    }

    /// What is said of what would change, in the end.
    pub fn diff_message(&self) -> (r: String)
        ensures
            r@ == if changed(self@).len() == 0 {
                "no changes ("@ + decimal(self@.len()) + " links already in place)"@
            } else {
                decimal(changed(self@).len()) + " change(s)"@
            },
    {
        let changes = self.changes();
        assert(borrowed(changes@).len() == changes@.len());
        if changes.len() == 0 {
            let n = to_decimal(self.entries.len());
            cat3("no changes (", n.as_str(), " links already in place)")
        } else {
            let n = to_decimal(changes.len());
            cat(n.as_str(), " change(s)")
        }
    }

    /// What is said of all links, in the end.
    pub fn list_message(&self) -> (r: String)
        ensures
            r@ == decimal(self@.len()) + " link(s), "@ + decimal(changed(self@).len())
                + " need change"@,
    {
        let changes = self.changes();
        assert(borrowed(changes@).len() == changes@.len());
        let n = to_decimal(self.entries.len());
        let c = to_decimal(changes.len());
        let head = cat3(n.as_str(), " link(s), ", c.as_str());
        cat(head.as_str(), " need change")
    }

    /// The paths of the plan.
    pub fn rels(&self) -> (r: Vec<String>)
        ensures
            texts(r@) == self@.map_values(|s: Spot| s.rel),
    {
        let ghost goal = self@.map_values(|s: Spot| s.rel);
        let mut out: Vec<String> = Vec::new();
        proof {
            lemma_texts_empty();
        }
        for i in 0..self.entries.len()
            invariant
                goal == self@.map_values(|s: Spot| s.rel),
                texts(out@) == goal.take(i as int),
        {
            let s = self.entries[i].rel.clone();
            proof {
                lemma_texts_push(out@, s);
                assert(goal[i as int] == s@);
                assert(goal.take(i + 1) =~= goal.take(i as int).push(goal[i as int]));
            }
            out.push(s);
        }
        assert(goal.take(goal.len() as int) =~= goal);
        out
    }
}

proof fn lemma_placeable_among(m: Manifest, rels: Seq<Seq<char>>, i: int)
    requires
        0 <= i < placeable_among(m, rels).len(),
    ensures
        placeable(m, placeable_among(m, rels)[i]),
        rels.contains(placeable_among(m, rels)[i]),
    decreases rels.len(),
{
    let head = rels.drop_last();
    let b = placeable_among(m, head);
    if i < b.len() {
        lemma_placeable_among(m, head, i);
        let k = choose|k: int| 0 <= k < head.len() && head[k] == b[i];
        assert(rels[k] == b[i]);
    } else {
        assert(rels[rels.len() - 1] == rels.last());
    }
}

/// The input of something generated is never placed, whether it is ignored or not, and
/// nothing that is ignored is.
pub proof fn law_inputs_are_never_placed(
    m: Manifest,
    targets: Seq<Seq<char>>,
    listings: Seq<Listing>,
    pending: Seq<Seq<char>>,
    i: int,
)
    requires
        0 <= i < rels_of(m, targets, listings, pending).len(),
    ensures
        placeable(m, rels_of(m, targets, listings, pending)[i]),
    decreases targets.len(),
{
    let before = rels_of(m, targets.drop_last(), listings, pending);
    if i < before.len() {
        law_inputs_are_never_placed(m, targets.drop_last(), listings, pending, i);
    } else {
        let target = targets.last();
        let files = files_of(target, listings[targets.len() - 1]);
        lemma_placeable_among(
            m,
            files + pending_below(pending, target, files),
            i - before.len(),
        );
    }
}

/// A plan holds one entry for each of its paths, in the order of the paths.
pub proof fn law_plan_holds_every_path(
    root: Seq<char>,
    home: Seq<char>,
    rels: Seq<Seq<char>>,
    found: Seq<Found>,
)
    ensures
        in_order(spots_of(root, home, rels, found)),
        spots_of(root, home, rels, found).to_multiset() == Seq::new(
            rels.len(),
            |i: int| spot_of(root, home, rels[i], found[i]),
        ).to_multiset(),
{
    let all = Seq::new(rels.len(), |i: int| spot_of(root, home, rels[i], found[i]));
    law_sorting_orders(all);
    law_sorting_keeps_items(all);
}

proof fn lemma_nothing_changed(v: Seq<Spot>)
    requires
        forall|i: int| 0 <= i < v.len() ==> (#[trigger] v[i]).state is Linked,
    ensures
        changed(v).len() == 0,
    decreases v.len(),
{
    if v.len() > 0 {
        assert forall|i: int| 0 <= i < v.drop_last().len() implies (#[trigger] v.drop_last()[i]).state is Linked by {
            assert(v.drop_last()[i] == v[i]);
        }
        lemma_nothing_changed(v.drop_last());
        assert(v.last() == v[v.len() - 1]);
    }
}

/// Where every link is in its place there is nothing to do: placing twice is placing once.
pub proof fn law_placed_links_need_no_change(
    root: Seq<char>,
    home: Seq<char>,
    rels: Seq<Seq<char>>,
    found: Seq<Found>,
)
    requires
        found.len() == rels.len(),
        forall|i: int|
            0 <= i < rels.len() ==> (#[trigger] found[i] matches Found::Link(target) && same_path(
                target@,
                under(root, rels[i]),
            )),
    ensures
        changed(spots_of(root, home, rels, found)).len() == 0,
{
    broadcast use vstd::seq_lib::group_to_multiset_ensures;

    let all = Seq::new(rels.len(), |i: int| spot_of(root, home, rels[i], found[i]));
    let v = spots_of(root, home, rels, found);
    law_sorting_keeps_items(all);
    assert forall|i: int| 0 <= i < v.len() implies (#[trigger] v[i]).state is Linked by {
        assert(v.to_multiset().count(v[i]) > 0);
        assert(all.to_multiset().count(v[i]) > 0);
        let k = choose|k: int| 0 <= k < all.len() && all[k] == v[i];
        assert(found[k] is Link);
    }
    lemma_nothing_changed(v);
}

/// A path counts as linked exactly where a link is there that points to its file in the
/// repository. A link to anywhere else counts as wrong, and is told with where it points to;
/// something else that is there counts as occupied, and only where nothing is there the path
/// is missing.
pub proof fn law_only_the_right_link_counts(
    root: Seq<char>,
    home: Seq<char>,
    rel: Seq<char>,
    found: Found,
)
    ensures
        ({
            let spot = spot_of(root, home, rel, found);
            &&& spot.rel == rel
            &&& spot.src == under(root, rel)
            &&& spot.dest == under(home, rel)
            &&& spot.state is Linked <==> (found matches Found::Link(target) && components(target@)
                == components(under(root, rel)))
            &&& spot.state is Missing <==> found is Nothing
            &&& spot.state is Wrong <==> (found matches Found::Link(target) && components(target@)
                != components(under(root, rel)))
            &&& spot.state matches Status::Wrong(current) ==> (found matches Found::Link(target)
                && target@ == current)
            &&& spot.state is Occupied <==> found is Other || found is UnreadableLink
        }),
{
}

/// In a plan, the paths for which there is something to do are exactly those at which there
/// is no link to their file in the repository.
pub proof fn law_every_other_link_is_a_change(
    root: Seq<char>,
    home: Seq<char>,
    rels: Seq<Seq<char>>,
    found: Seq<Found>,
    spot: Spot,
)
    requires
        found.len() == rels.len(),
    ensures
        changed(spots_of(root, home, rels, found)).contains(spot) <==> exists|i: int|
            0 <= i < rels.len() && spot == #[trigger] spot_of(root, home, rels[i], found[i]) && !(
            found[i] matches Found::Link(target) && components(target@) == components(
                under(root, rels[i]),
            )),
{
    broadcast use vstd::seq_lib::group_to_multiset_ensures;

    let all = Seq::new(rels.len(), |i: int| spot_of(root, home, rels[i], found[i]));
    let v = spots_of(root, home, rels, found);
    law_sorting_keeps_items(all);
    law_changes_are_what_is_not_linked(v, spot);
    if v.contains(spot) {
        assert(all.to_multiset().count(spot) > 0);
        let k = choose|k: int| 0 <= k < all.len() && all[k] == spot;
        assert(spot == spot_of(root, home, rels[k], found[k]));
    }
    if exists|i: int|
        0 <= i < rels.len() && spot == #[trigger] spot_of(root, home, rels[i], found[i]) && !(
        found[i] matches Found::Link(target) && components(target@) == components(
            under(root, rels[i]),
        )) {
        let k = choose|i: int|
            0 <= i < rels.len() && spot == #[trigger] spot_of(root, home, rels[i], found[i]) && !(
            found[i] matches Found::Link(target) && components(target@) == components(
                under(root, rels[i]),
            ));
        assert(all[k] == spot);
        assert(all.to_multiset().count(spot) > 0);
        assert(v.to_multiset().count(spot) > 0);
    }
}

/// There is something to do for an entry exactly where it is not linked.
pub proof fn law_changes_are_what_is_not_linked(v: Seq<Spot>, spot: Spot)
    ensures
        changed(v).contains(spot) <==> v.contains(spot) && !(spot.state is Linked),
    decreases v.len(),
{
    if v.len() > 0 {
        let head = v.drop_last();
        law_changes_are_what_is_not_linked(head, spot);
        let c = changed(v);
        let b = changed(head);
        assert(v[v.len() - 1] == v.last());
        if v.contains(spot) && spot != v.last() {
            let k = choose|k: int| 0 <= k < v.len() && v[k] == spot;
            assert(head[k] == spot);
        }
        if head.contains(spot) {
            let k = choose|k: int| 0 <= k < head.len() && head[k] == spot;
            assert(v[k] == spot);
        }
        if b.contains(spot) {
            let k = choose|k: int| 0 <= k < b.len() && b[k] == spot;
            assert(c[k] == spot);
        }
        if !(v.last().state is Linked) {
            assert(c[c.len() - 1] == v.last());
            if c.contains(spot) && spot != v.last() {
                let k = choose|k: int| 0 <= k < c.len() && c[k] == spot;
                assert(b[k] == spot);
            }
        }
    }
}

/// A file is placed unless it is an input of something generated, or some pattern ignores it.
pub proof fn law_one_file_is_placed_or_not(m: Manifest, rel: Seq<char>)
    ensures
        placeable_among(m, seq![rel]) == if (exists|i: int|
            0 <= i < m.render@.len() && components((#[trigger] m.render@[i]).1@) == components(rel))
            || (exists|i: int|
            0 <= i < m.encrypted@.len() && components((#[trigger] m.encrypted@[i]).1@)
                == components(rel)) || (exists|i: int|
            0 <= i < m.link.ignore@.len() && pattern_matches(
                (#[trigger] m.link.ignore@[i])@,
                rel,
            )) {
            Seq::<Seq<char>>::empty()
        } else {
            seq![rel]
        },
{
    assert(seq![rel].drop_last() =~= Seq::empty());
    let templates = exists|i: int|
        0 <= i < m.render@.len() && components((#[trigger] m.render@[i]).1@) == components(rel);
    let ciphertexts = exists|i: int|
        0 <= i < m.encrypted@.len() && components((#[trigger] m.encrypted@[i]).1@) == components(
            rel,
        );
    if m.reads_template(rel) {
        let i = choose|i: int|
            0 <= i < m.render@.len() && same_path((#[trigger] m.render@[i]).1@, rel);
        assert(components(m.render@[i].1@) == components(rel));
        assert(templates);
    } else if templates {
        let i = choose|i: int|
            0 <= i < m.render@.len() && components((#[trigger] m.render@[i]).1@) == components(rel);
        assert(same_path(m.render@[i].1@, rel));
    }
    if m.reads_ciphertext(rel) {
        let i = choose|i: int|
            0 <= i < m.encrypted@.len() && same_path((#[trigger] m.encrypted@[i]).1@, rel);
        assert(components(m.encrypted@[i].1@) == components(rel));
        assert(ciphertexts);
    } else if ciphertexts {
        let i = choose|i: int|
            0 <= i < m.encrypted@.len() && components((#[trigger] m.encrypted@[i]).1@)
                == components(rel);
        assert(same_path(m.encrypted@[i].1@, rel));
    }
    assert(placeable(m, rel) <==> !templates && !ciphertexts && !m.ignores(rel));
    let before = placeable_among(m, seq![rel].drop_last());
    assert(before =~= Seq::empty());
    assert(before.push(rel) =~= seq![rel]);
    assert(seq![rel].last() == rel);
}

/// The paths of a plan are, target by target, the files that each stands for and the outputs
/// still to be generated at or below it, without those that are not placed. A file of the
/// repository stands for itself, a directory for what is below it.
pub proof fn law_targets_are_placed_in_turn(
    m: Manifest,
    targets: Seq<Seq<char>>,
    listings: Seq<Listing>,
    pending: Seq<Seq<char>>,
)
    requires
        targets.len() > 0,
        listings.len() == targets.len(),
    ensures
        rels_of(m, targets, listings, pending) == rels_of(
            m,
            targets.drop_last(),
            listings,
            pending,
        ) + rels_of(m, seq![targets.last()], seq![listings.last()], pending),
        listings.last() is Absent && pending.len() == 0 ==> rels_of(
            m,
            seq![targets.last()],
            seq![listings.last()],
            pending,
        ).len() == 0,
        listings.last() is File && pending.len() == 0 ==> rels_of(
            m,
            seq![targets.last()],
            seq![listings.last()],
            pending,
        ) == placeable_among(m, seq![targets.last()]),
        listings.last() matches Listing::Directory(files) ==> (pending.len() == 0 ==> rels_of(
            m,
            seq![targets.last()],
            seq![listings.last()],
            pending,
        ) == placeable_among(m, texts(files@))),
{
    let t = targets.last();
    let one = seq![t];
    let l = seq![listings.last()];
    assert(one.drop_last() =~= Seq::empty());
    assert(rels_of(m, one.drop_last(), l, pending) =~= Seq::empty());
    let files = files_of(t, listings.last());
    let own = placeable_among(m, files + pending_below(pending, t, files));
    assert(rels_of(m, one, l, pending) =~= own);
    if pending.len() == 0 {
        assert(files + pending_below(pending, t, files) =~= files);
    }
}

/// An output that is still to be generated is placed below a target exactly where it lies
/// at or below it and is not there yet.
pub proof fn law_one_pending_output(out: Seq<char>, target: Seq<char>, files: Seq<Seq<char>>)
    ensures
        pending_below(seq![out], target, files) == if within(out, target) && (forall|i: int|
            0 <= i < files.len() ==> components(#[trigger] files[i]) != components(out)) {
            seq![out]
        } else {
            Seq::<Seq<char>>::empty()
        },
{
    assert(seq![out].drop_last() =~= Seq::empty());
    let there = exists|i: int| 0 <= i < files.len() && same_path(#[trigger] files[i], out);
    if there {
        let i = choose|i: int| 0 <= i < files.len() && same_path(#[trigger] files[i], out);
        assert(components(files[i]) == components(out));
    } else if !(forall|i: int|
        0 <= i < files.len() ==> components(#[trigger] files[i]) != components(out)) {
        let i = choose|i: int|
            0 <= i < files.len() && components(#[trigger] files[i]) == components(out);
        assert(same_path(files[i], out));
    }
    let before = pending_below(seq![out].drop_last(), target, files);
    assert(before =~= Seq::empty());
    assert(before.push(out) =~= seq![out]);
    assert(seq![out].last() == out);
}

/// What cannot be read is told, and the first of it: nothing that cannot be read is passed
/// over.
pub proof fn law_what_is_unreadable_is_told(listings: Seq<Listing>)
    ensures
        first_unreadable(listings) is None <==> forall|i: int|
            0 <= i < listings.len() ==> !(#[trigger] listings[i] is Unreadable),
        first_unreadable(listings) matches Some(i) ==> 0 <= i < listings.len() && listings[i]
            is Unreadable && forall|k: int| 0 <= k < i ==> !(#[trigger] listings[k] is Unreadable),
    decreases listings.len(),
{
    if listings.len() > 0 {
        let head = listings.drop_last();
        law_what_is_unreadable_is_told(head);
        assert(listings.last() == listings[listings.len() - 1]);
        assert forall|i: int| 0 <= i < head.len() implies head[i] == #[trigger] listings[i] by {}
        if first_unreadable(listings) is None {
            assert forall|i: int| 0 <= i < listings.len() implies !(
            #[trigger] listings[i] is Unreadable) by {
                if i < head.len() {
                    assert(!(head[i] is Unreadable));
                }
            }
        }
        if first_unreadable(head) is Some {
            let i = first_unreadable(head)->Some_0;
            assert(listings[i] is Unreadable);
            assert forall|k: int| 0 <= k < i implies !(#[trigger] listings[k] is Unreadable) by {
                assert(!(head[k] is Unreadable));
            }
        } else {
            assert forall|k: int| 0 <= k < head.len() implies !(
            #[trigger] listings[k] is Unreadable) by {
                assert(!(head[k] is Unreadable));
            }
        }
    }
}

/// Whether a file is placed does not depend on the files around it.
pub proof fn law_files_are_placed_one_by_one(a: Seq<Seq<char>>, b: Seq<Seq<char>>, m: Manifest)
    ensures
        placeable_among(m, a + b) == placeable_among(m, a) + placeable_among(m, b),
    decreases b.len(),
{
    if b.len() == 0 {
        assert(a + b =~= a);
        assert(placeable_among(m, a) + placeable_among(m, b) =~= placeable_among(m, a));
    } else {
        assert((a + b).drop_last() =~= a + b.drop_last());
        law_files_are_placed_one_by_one(a, b.drop_last(), m);
        assert(placeable_among(m, a + b) =~= placeable_among(m, a) + placeable_among(m, b));
    }
}

/// Whether an output that is still to be generated is placed does not depend on the others.
pub proof fn law_outputs_are_placed_one_by_one(a: Seq<Seq<char>>, b: Seq<Seq<char>>, target: Seq<char>, files: Seq<Seq<char>>)
    ensures
        pending_below(a + b, target, files) == pending_below(a, target, files) + pending_below(b, target, files),
    decreases b.len(),
{
    if b.len() == 0 {
        assert(a + b =~= a);
        assert(pending_below(a, target, files) + pending_below(b, target, files) =~= pending_below(a, target, files));
    } else {
        assert((a + b).drop_last() =~= a + b.drop_last());
        law_outputs_are_placed_one_by_one(a, b.drop_last(), target, files);
        assert(pending_below(a + b, target, files) =~= pending_below(a, target, files) + pending_below(b, target, files));
    }
}

/// Whether there is something to do for an entry does not depend on the entries around it,
/// and what there is to do keeps their order.
pub proof fn law_changes_keep_their_order(a: Seq<Spot>, b: Seq<Spot>)
    ensures
        changed(a + b) == changed(a) + changed(b),
    decreases b.len(),
{
    if b.len() == 0 {
        assert(a + b =~= a);
        assert(changed(a) + changed(b) =~= changed(a));
    } else {
        assert((a + b).drop_last() =~= a + b.drop_last());
        law_changes_keep_their_order(a, b.drop_last());
        assert(changed(a + b) =~= changed(a) + changed(b));
    }
}

/// Looking at a path tells that it is linked exactly where a link is there that leads to its
/// file in the repository; a link to anywhere else is told as a wrong one.
pub proof fn law_inspecting_tells_the_right_link(src: &str, found: &Found, r: State)
    requires
        call_ensures(inspect, (src, found), r),
    ensures
        r is Linked <==> (*found matches Found::Link(target) && components(target@) == components(
            src@,
        )),
        r is Missing <==> *found is Nothing,
        r is Wrong <==> (*found matches Found::Link(target) && components(target@) != components(
            src@,
        )),
        r is Occupied <==> *found is Other || *found is UnreadableLink,
{
}

/// The states of a path are told apart by their marks and by their signs.
pub proof fn law_states_are_told_apart(
    a: &State,
    b: &State,
    mark_a: &'static str,
    mark_b: &'static str,
    sign_a: &'static str,
    sign_b: &'static str,
)
    requires
        call_ensures(State::mark, (a,), mark_a),
        call_ensures(State::mark, (b,), mark_b),
        call_ensures(State::sign, (a,), sign_a),
        call_ensures(State::sign, (b,), sign_b),
    ensures
        mark_a@ == mark_b@ ==> (*a is Linked <==> *b is Linked) && (*a is Missing <==> *b is Missing)
            && (*a is Wrong <==> *b is Wrong),
        sign_a@ == sign_b@ ==> (*a is Linked <==> *b is Linked) && (*a is Missing <==> *b is Missing)
            && (*a is Wrong <==> *b is Wrong),
{
    reveal_strlit("ok");
    reveal_strlit("--");
    reveal_strlit("~~");
    reveal_strlit("!!");
    reveal_strlit("");
    reveal_strlit("+");
    reveal_strlit("~");
    reveal_strlit("!");
    assert("ok"@[0] == 'o' && "--"@[0] == '-' && "~~"@[0] == '~' && "!!"@[0] == '!');
    assert("+"@[0] == '+' && "~"@[0] == '~' && "!"@[0] == '!' && ""@.len() == 0);
}

/// What a plan has to change is exactly what is not linked.
pub proof fn law_a_plan_changes_what_is_not_linked<'a>(plan: &'a Plan, r: Vec<&'a Entry>, spot: Spot)
    requires
        call_ensures(Plan::changes, (plan,), r),
    ensures
        borrowed(r@).contains(spot) <==> plan@.contains(spot) && !(spot.state is Linked),
{
    law_changes_are_what_is_not_linked(plan@, spot);
}

/// A plan that is built tells of every path how it stands: linked exactly where a link is
/// there that leads to its file in the repository.
pub proof fn law_a_built_plan_tells_the_right_links(
    root: &str,
    home: &str,
    rels: &Vec<String>,
    found: &Vec<Found>,
    plan: Plan,
    spot: Spot,
)
    requires
        found@.len() == rels@.len(),
        call_ensures(Plan::build, (root, home, rels, found), plan),
    ensures
        plan@.len() == rels@.len(),
        plan@.contains(spot) && spot.state is Linked ==> exists|i: int|
            0 <= i < rels@.len() && spot.rel == (#[trigger] rels@[i])@ && (
            found@[i] matches Found::Link(target) && components(target@) == components(
                under(root@, rels@[i]@),
            )),
        plan@.contains(spot) && !(spot.state is Linked) ==> exists|i: int|
            0 <= i < rels@.len() && spot.rel == (#[trigger] rels@[i])@ && !(
            found@[i] matches Found::Link(target) && components(target@) == components(
                under(root@, rels@[i]@),
            )),
{
    broadcast use vstd::seq_lib::group_to_multiset_ensures;

    let names = texts(rels@);
    let all = Seq::new(names.len(), |i: int| spot_of(root@, home@, names[i], found@[i]));
    law_sorting_keeps_items(all);
    if plan@.contains(spot) {
        assert(plan@.to_multiset().count(spot) > 0);
        let k = choose|k: int| 0 <= k < all.len() && all[k] == spot;
        assert(spot.rel == rels@[k]@);
    }
}

/// A plan is in the order of its paths.
pub proof fn law_a_plan_is_in_order(
    root: &str,
    home: &str,
    rels: &Vec<String>,
    found: &Vec<Found>,
    plan: Plan,
    i: int,
    j: int,
)
    requires
        found@.len() == rels@.len(),
        call_ensures(Plan::build, (root, home, rels, found), plan),
        0 <= i < j < plan@.len(),
    ensures
        path_le(plan@[i].rel, plan@[j].rel),
{
    let names = texts(rels@);
    let all = Seq::new(names.len(), |i: int| spot_of(root@, home@, names[i], found@[i]));
    law_sorting_orders(all);
    assert(plan@[i].at_most(plan@[j]));
}

/// Of one target, first what it stands for is placed and then what is still to be generated
/// at or below it: a file stands for itself, a directory for the files below it, and what is
/// not there or cannot be read for nothing.
pub proof fn law_one_target(
    m: Manifest,
    target: Seq<char>,
    listing: Listing,
    pending: Seq<Seq<char>>,
)
    ensures
        ({
            let files = match listing {
                Listing::File => seq![target],
                Listing::Directory(files) => texts(files@),
                _ => Seq::<Seq<char>>::empty(),
            };
            rels_of(m, seq![target], seq![listing], pending) == placeable_among(m, files)
                + placeable_among(m, pending_below(pending, target, files))
        }),
{
    let one = seq![target];
    assert(one.drop_last() =~= Seq::empty());
    assert(rels_of(m, one.drop_last(), seq![listing], pending) =~= Seq::empty());
    let files = files_of(target, listing);
    let below = pending_below(pending, target, files);
    law_files_are_placed_one_by_one(files, below, m);
    let own = placeable_among(m, files) + placeable_among(m, below);
    assert(Seq::<Seq<char>>::empty() + own =~= own);
}

} // verus!
