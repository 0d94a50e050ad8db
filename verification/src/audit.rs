//! Whether what is declared is used: by hand, as shell history tells, or by configurations.
use crate::detect::{needs, Need, Requirement};
use crate::manifest::push_all;
use crate::order::{
    law_sorting_orders, lemma_sorted_image, lemma_text_total, lemma_text_transitive, sort, sorted_of, text_le,
    text_not_after, Ranked, Sortable,
};
use crate::packages::{
    applicable_among, lemma_put_each, named, put_each, put_names, Kind, Manager, Package, Packages,
};
use crate::path::{components, parts};
use crate::provider::text_listed;
use crate::table::{law_lookup_after_put, lemma_lookup, lookup, put, Table};
use crate::text::{
    after_last, byte_len, bytes_in, chars_of, cut, fragments, holds, law_after_the_last,
    law_nothing_before, lemma_texts_empty, lemma_texts_push, lemma_until_is, lines, lines_of, same_text, split_first, split_once, string_of, tail_after,
    texts, words, words_of, Sep,
};
use vstd::prelude::*;
use vstd::slice::slice_subrange;

verus! {

/// Whether a word only introduces the command that follows it.
pub open spec fn introduces(w: Seq<char>) -> bool {
    w == "sudo"@ || w == "env"@ || w == "command"@ || w == "time"@ || w == "nohup"@ || w == "exec"@
}

fn is_introduction(w: &str) -> (r: bool)
    ensures
        r == introduces(w@),
{
    same_text(w, "sudo") || same_text(w, "env") || same_text(w, "command") || same_text(w, "time")
        || same_text(w, "nohup") || same_text(w, "exec")
}

/// The word that is run: the first that does not introduce a command. Behind one that does,
/// assignments are passed over too. Where no word is left, the last one counts.
pub open spec fn head_of(ws: Seq<Seq<char>>, introduced: bool) -> Seq<char>
    decreases ws.len(),
{
    let passed = introduces(ws[0]) || (introduced && ws[0].contains('='));
    if ws.len() <= 1 || !passed {
        ws[0]
    } else {
        head_of(ws.drop_first(), true)
    }
}

/// The command that a word names: none where it assigns or substitutes something. A path
/// before the name does not count.
pub open spec fn command_in(head: Seq<char>) -> Option<Seq<char>> {
    if head.contains('=') || (head.len() > 0 && (head[0] == '$' || head[0] == '(')) {
        None
    } else {
        let name = after_last(head, Sep::Is('/'));
        if name.len() == 0 {
            None
        } else {
            Some(name)
        }
    }
}

/// The commands of the segments of a command line.
pub open spec fn commands_among(segments: Seq<Seq<char>>) -> Seq<Seq<char>>
    decreases segments.len(),
{
    if segments.len() == 0 {
        seq![]
    } else {
        let before = commands_among(segments.drop_last());
        let ws = words_of(segments.last());
        if ws.len() == 0 {
            before
        } else {
            match command_in(head_of(ws, false)) {
                Some(name) => before.push(name),
                None => before,
            }
        }
    }
}

/// The command line of a line of history. Extended history has a time and a colon before
/// it.
pub open spec fn command_line_of(line: Seq<char>) -> Option<Seq<char>> {
    if line.len() > 0 && line[0] == ':' {
        match split_first(line.skip(1), Sep::Is(';')) {
            Some((_, command)) => Some(command),
            None => None,
        }
    } else {
        Some(line)
    }
}

/// The commands of some lines of history.
pub open spec fn commands_on(ls: Seq<Seq<char>>) -> Seq<Seq<char>>
    decreases ls.len(),
{
    if ls.len() == 0 {
        seq![]
    } else {
        let before = commands_on(ls.drop_last());
        match command_line_of(ls.last()) {
            Some(command) => before + commands_among(fragments(command, Sep::Pipeline)),
            None => before,
        }
    }
}

fn head(ws: &Vec<String>) -> (r: &String)
    requires
        ws@.len() > 0,
    ensures
        r@ == head_of(texts(ws@), false),
{
    let ghost all = texts(ws@);
    let mut i: usize = 0;
    let mut introduced = false;
    assert(all.skip(0) =~= all);
    loop
        invariant
            i < ws@.len(),
            all == texts(ws@),
            head_of(all, false) == head_of(all.skip(i as int), introduced),
        decreases ws@.len() - i,
    {
        let w = &ws[i];
        let ghost rest = all.skip(i as int);
        assert(rest[0] == w@);
        assert(rest.drop_first() =~= all.skip(i + 1));
        let c = chars_of(w.as_str());
        let assigns = holds(c.as_slice(), Sep::Is('='));
        if ws.len() - i == 1 {
            return w;
        }
        if !(is_introduction(w.as_str()) || (introduced && assigns)) {
            return w;
        }
        introduced = true;
        i += 1;
    }
}

fn command_named(head: &str) -> (r: Option<String>)
    ensures
        match r {
            Some(name) => command_in(head@) == Some(name@),
            None => command_in(head@) is None,
        },
{
    let c = chars_of(head);
    if holds(c.as_slice(), Sep::Is('=')) || (c.len() > 0 && (c[0] == '$' || c[0] == '(')) {
        return None;
    }
    let name = tail_after(c.as_slice(), Sep::Is('/'));
    if name.len() == 0 {
        None
    } else {
        Some(string_of(name))
    }
}

fn push_commands(out: &mut Vec<String>, command: &[char])
    ensures
        texts(final(out)@) == texts(old(out)@) + commands_among(
            fragments(command@, Sep::Pipeline),
        ),
{
    let ghost before = texts(out@);
    let segments = cut(command, Sep::Pipeline);
    let ghost all = texts(segments@);
    assert(all.take(0) =~= Seq::empty());
    assert(before + commands_among(all.take(0)) =~= before);
    for i in 0..segments.len()
        invariant
            all == texts(segments@),
            texts(out@) == before + commands_among(all.take(i as int)),
    {
        let ghost so_far = commands_among(all.take(i as int));
        proof {
            let t = all.take(i + 1);
            assert(t.drop_last() =~= all.take(i as int));
            assert(t.last() == segments@[i as int]@);
        }
        let c = chars_of(segments[i].as_str());
        let ws = words(c.as_slice());
        assert(texts(ws@).len() == ws@.len());
        if ws.len() > 0 {
            match command_named(head(&ws).as_str()) {
                Some(name) => {
                    proof {
                        lemma_texts_push(out@, name);
                        assert((before + so_far).push(name@) =~= before + so_far.push(name@));
                    }
                    out.push(name);
                },
                None => {},
            }
        }
    }
    assert(all.take(all.len() as int) =~= all);
}

/// The commands of a shell history, in turn.
pub fn commands(text: &str) -> (r: Vec<String>)
    ensures
        texts(r@) == commands_on(lines_of(text@)),
{
    let c = chars_of(text);
    let ls = lines(c.as_slice());
    let ghost all = lines_of(text@);
    let mut out: Vec<String> = Vec::new();
    proof {
        lemma_texts_empty();
        assert(all.take(0) =~= Seq::empty());
    }
    for i in 0..ls.len()
        invariant
            texts(ls@) == all,
            texts(out@) == commands_on(all.take(i as int)),
    {
        proof {
            let t = all.take(i + 1);
            assert(t.drop_last() =~= all.take(i as int));
            assert(t.last() == ls@[i as int]@);
        }
        let line = chars_of(ls[i].as_str());
        if line.len() > 0 && line[0] == ':' {
            let rest = slice_subrange(line.as_slice(), 1, line.len());
            assert(rest@ =~= line@.skip(1));
            match split_once(rest, Sep::Is(';')) {
                Some((_, command)) => push_commands(&mut out, command),
                None => {},
            }
        } else {
            push_commands(&mut out, line.as_slice());
        }
    }
    assert(all.take(all.len() as int) =~= all);
    out
}

/// How often each text of a list occurs.
pub open spec fn tally(names: Seq<Seq<char>>) -> Seq<(Seq<char>, usize)>
    decreases names.len(),
{
    if names.len() == 0 {
        seq![]
    } else {
        let before = tally(names.drop_last());
        let n: int = match lookup(before, names.last()) {
            Some(n) => n as int,
            None => 0,
        };
        put(before, names.last(), (n + 1) as usize)
    }
}

/// How often a text occurs in a list.
pub open spec fn occurrences(names: Seq<Seq<char>>, s: Seq<char>) -> nat
    decreases names.len(),
{
    if names.len() == 0 {
        0
    } else {
        occurrences(names.drop_last(), s) + if names.last() == s {
            1nat
        } else {
            0
        }
    }
}

/// A text is counted as often as it occurs, and not at all where it does not.
pub proof fn law_counts_are_occurrences(names: Seq<Seq<char>>, s: Seq<char>)
    requires
        names.len() <= usize::MAX,
    ensures
        occurrences(names, s) <= names.len(),
        lookup(tally(names), s) == (if occurrences(names, s) == 0 {
            None
        } else {
            Some(occurrences(names, s) as usize)
        }),
    decreases names.len(),
{
    if names.len() > 0 {
        let head = names.drop_last();
        law_counts_are_occurrences(head, s);
        law_counts_are_occurrences(head, names.last());
        let n: int = match lookup(tally(head), names.last()) {
            Some(n) => n as int,
            None => 0,
        };
        law_lookup_after_put(tally(head), names.last(), (n + 1) as usize, s);
    }
}

/// Counts the commands of a shell history.
pub fn count_commands(text: &str) -> (r: Table<usize>)
    ensures
        r@ == tally(commands_on(lines_of(text@))),
        commands_on(lines_of(text@)).len() <= usize::MAX,
{
    let names = commands(text);
    let ghost all = texts(names@);
    let mut out: Table<usize> = Table::new();
    assert(all.len() == names@.len());
    assert(all.take(0) =~= Seq::empty());
    for i in 0..names.len()
        invariant
            all == texts(names@),
            all.len() == names@.len(),
            out@ == tally(all.take(i as int)),
    {
        proof {
            let t = all.take(i + 1);
            assert(t.drop_last() =~= all.take(i as int));
            assert(t.last() == names@[i as int]@);
            law_counts_are_occurrences(all.take(i as int), names@[i as int]@);
        }
        let n: usize = match out.get(names[i].as_str()) {
            Some(n) => *n,
            None => 0,
        };
        out.insert(names[i].clone(), n + 1);
    }
    assert(all.take(all.len() as int) =~= all);
    out
}

/// The commands of a package that history is searched for: none where it has no command.
pub open spec fn commands_of(name: Seq<char>, p: Package) -> Option<Seq<Seq<char>>> {
    if p.sort() != Kind::Command || p.installer() == Manager::BrewCask {
        None
    } else {
        Some(texts(p.provides@).push(name))
    }
}

/// The commands of a package that history is searched for.
pub fn command_names(name: &str, pkg: &Package) -> (r: Option<Vec<String>>)
    ensures
        match r {
            Some(v) => commands_of(name@, *pkg) == Some(texts(v@)),
            None => commands_of(name@, *pkg) is None,
        },
{
    if pkg.kind_of() != Kind::Command || pkg.manager_of() == Manager::BrewCask {
        return None;
    }
    let mut out: Vec<String> = Vec::new();
    proof {
        lemma_texts_empty();
    }
    push_all(&mut out, &pkg.provides);
    assert(texts(out@) =~= texts(pkg.provides@));
    let own = name.to_owned();
    proof {
        lemma_texts_push(out@, own);
    }
    out.push(own);
    Some(out)
}

/// A file of a repository.
pub struct RepoFile {
    /// Its path from the root of the repository.
    pub rel: String,
    /// Its size in bytes.
    pub size: u64,
    /// What it holds, with what is no text replaced.
    pub text: String,
    /// Whether it is text throughout.
    pub utf8: bool,
}

/// How many components a path may have for its file to be looked at.
pub const DEEPEST: usize = 7;

/// The largest file that is looked at.
pub const LARGEST: u64 = 524288;

/// Whether a file is searched for words. What Git and builds keep is not, nor are the
/// declarations themselves.
pub open spec fn searched(rel: Seq<char>, size: u64) -> bool {
    let cs = components(rel);
    &&& cs.len() <= DEEPEST
    &&& !cs.contains(".git"@)
    &&& !cs.contains("target"@)
    &&& !cs.contains("packages.toml"@)
    &&& size <= LARGEST
}

fn is_searched(rel: &str, size: u64) -> (r: bool)
    ensures
        r == searched(rel@, size),
{
    let cs = parts(rel);
    assert(texts(cs@).len() == cs@.len());
    cs.len() <= DEEPEST && !text_listed(&cs, ".git") && !text_listed(&cs, "target")
        && !text_listed(&cs, "packages.toml") && size <= LARGEST
}

/// The words of a text, of two bytes and more.
pub open spec fn long_words(pieces: Seq<Seq<char>>) -> Seq<Seq<char>>
    decreases pieces.len(),
{
    if pieces.len() == 0 {
        seq![]
    } else {
        let before = long_words(pieces.drop_last());
        if byte_len(pieces.last()) > 1 {
            before.push(pieces.last())
        } else {
            before
        }
    }
}

/// The words of the files that are searched, each once and in order.
pub open spec fn words_among(files: Seq<RepoFile>) -> Seq<(Seq<char>, bool)>
    decreases files.len(),
{
    if files.len() == 0 {
        seq![]
    } else {
        let before = words_among(files.drop_last());
        let f = files.last();
        if searched(f.rel@, f.size) {
            put_each(before, long_words(fragments(f.text@, Sep::NonWord)), true)
        } else {
            before
        }
    }
}

/// The words that the files of a repository mention.
pub fn mentions(files: &Vec<RepoFile>) -> (r: Table<bool>)
    ensures
        r@ == words_among(files@),
{
    let mut out: Table<bool> = Table::new();
    assert(files@.take(0) =~= Seq::empty());
    for i in 0..files.len()
        invariant
            out@ == words_among(files@.take(i as int)),
    {
        let f = &files[i];
        proof {
            let t = files@.take(i + 1);
            assert(t.drop_last() =~= files@.take(i as int));
            assert(t.last() == f);
        }
        if is_searched(f.rel.as_str(), f.size) {
            let c = chars_of(f.text.as_str());
            let pieces = cut(c.as_slice(), Sep::NonWord);
            let ghost all = texts(pieces@);
            let mut long: Vec<String> = Vec::new();
            proof {
                lemma_texts_empty();
                assert(all.take(0) =~= Seq::empty());
            }
            for k in 0..pieces.len()
                invariant
                    all == texts(pieces@),
                    texts(long@) == long_words(all.take(k as int)),
            {
                broadcast use lemma_texts_push;

                proof {
                    let t = all.take(k + 1);
                    assert(t.drop_last() =~= all.take(k as int));
                    assert(t.last() == pieces@[k as int]@);
                }
                if bytes_in(pieces[k].as_str()) > 1 {
                    long.push(pieces[k].clone());
                }
            }
            assert(all.take(all.len() as int) =~= all);
            put_names(&mut out, &long, true);
        }
    }
    assert(files@.take(files@.len() as int) =~= files@);
    out
}

/// How often some commands occur in a history.
pub open spec fn times_used(counts: Seq<(Seq<char>, usize)>, names: Seq<Seq<char>>) -> nat
    decreases names.len(),
{
    if names.len() == 0 {
        0
    } else {
        times_used(counts, names.drop_last()) + match lookup(counts, names.last()) {
            Some(n) => n as nat,
            None => 0,
        }
    }
}

fn uses(counts: &Table<usize>, names: &Vec<String>) -> (r: u128)
    ensures
        r == times_used(counts@, texts(names@)),
{
    let ghost all = texts(names@);
    let mut sum: u128 = 0;
    assert(all.take(0) =~= Seq::empty());
    for i in 0..names.len()
        invariant
            all == texts(names@),
            sum == times_used(counts@, all.take(i as int)),
            sum <= i * 0xffff_ffff_ffff_ffff,
    {
        proof {
            let t = all.take(i + 1);
            assert(t.drop_last() =~= all.take(i as int));
            assert(t.last() == names@[i as int]@);
            assert(i * 0xffff_ffff_ffff_ffff + 0xffff_ffff_ffff_ffff <= u128::MAX)
                by (nonlinear_arith)
                requires
                    i <= 0xffff_ffff_ffff_ffff,
            ;
            assert((i + 1) * 0xffff_ffff_ffff_ffff == i * 0xffff_ffff_ffff_ffff
                + 0xffff_ffff_ffff_ffff) by (nonlinear_arith);
        }
        let n: u128 = match counts.get(names[i].as_str()) {
            Some(n) => *n as u128,
            None => 0,
        };
        sum = sum + n;
    }
    assert(all.take(all.len() as int) =~= all);
    sum
}

/// What is known of the use of a package.
pub enum Use {
    /// It has no command.
    NoCommand,
    /// It was typed, this often.
    Typed(u128),
    /// It was not typed, but a configuration refers to it or a file mentions it.
    Driven,
    /// Neither.
    Unused,
}

/// What the use of packages is judged by.
pub struct Evidence {
    /// How often each command was typed.
    pub counts: Table<usize>,
    /// The commands that configurations refer to.
    pub referenced: Vec<String>,
    /// The words that files mention.
    pub mentioned: Table<bool>,
}

/// Whether some name is referred to or mentioned.
pub open spec fn referred(e: Evidence, names: Seq<Seq<char>>) -> bool {
    exists|i: int|
        0 <= i < names.len() && (texts(e.referenced@).contains(#[trigger] names[i]) || lookup(
            e.mentioned@,
            names[i],
        ) is Some)
}

/// What is known of the use of a package. Something that a configuration runs is not unused
/// because nobody types it.
pub open spec fn use_of(e: Evidence, name: Seq<char>, p: Package) -> Use {
    match commands_of(name, p) {
        None => Use::NoCommand,
        Some(names) => {
            let n = times_used(e.counts@, names);
            if n > 0 {
                Use::Typed(n as u128)
            } else if referred(e, names) {
                Use::Driven
            } else {
                Use::Unused
            }
        },
    }
}

/// Tells what is known of the use of a package.
pub fn judge(e: &Evidence, name: &str, pkg: &Package) -> (r: Use)
    ensures
        r == use_of(*e, name@, *pkg),
{
    let names = match command_names(name, pkg) {
        None => {
            return Use::NoCommand;
        },
        Some(names) => names,
    };
    let n = uses(&e.counts, &names);
    if n > 0 {
        return Use::Typed(n);
    }
    let ghost all = texts(names@);
    for i in 0..names.len()
        invariant
            all == texts(names@),
            commands_of(name@, *pkg) == Some(all),
            times_used(e.counts@, all) == 0,
            forall|k: int|
                0 <= k < i ==> !(texts(e.referenced@).contains(#[trigger] all[k]) || lookup(
                    e.mentioned@,
                    all[k],
                ) is Some),
    {
        let s = names[i].as_str();
        assert(all[i as int] == s@);
        if text_listed(&e.referenced, s) || e.mentioned.contains_key(s) {
            assert(referred(*e, all));
            return Use::Driven;
        }
    }
    Use::Unused
}

/// How often a package was typed.
pub struct Typed {
    pub name: String,
    pub times: u128,
}

/// What was typed most comes first; what was typed as often is in the order of names.
impl Ranked for (Seq<char>, u128) {
    open spec fn at_most(self, other: Self) -> bool {
        self.1 > other.1 || (self.1 == other.1 && text_le(self.0, other.0))
    }

    proof fn total(a: Self, b: Self) {
        lemma_text_total(a.0, b.0);
    }

    proof fn transitive(a: Self, b: Self, c: Self) {
        if a.1 == b.1 && b.1 == c.1 {
            lemma_text_transitive(a.0, b.0, c.0);
        }
    }
}

impl Ranked for Typed {
    open spec fn at_most(self, other: Self) -> bool {
        (self.name@, self.times).at_most((other.name@, other.times))
    }

    proof fn total(a: Self, b: Self) {
        <(Seq<char>, u128)>::total((a.name@, a.times), (b.name@, b.times));
    }

    proof fn transitive(a: Self, b: Self, c: Self) {
        <(Seq<char>, u128)>::transitive(
            (a.name@, a.times),
            (b.name@, b.times),
            (c.name@, c.times),
        );
    }
}

impl Sortable for Typed {
    fn not_after(&self, other: &Self) -> (r: bool) {
        self.times > other.times || (self.times == other.times && text_not_after(
            self.name.as_str(),
            other.name.as_str(),
        ))
    }
}

/// The commands among what configurations require.
pub open spec fn commands_required(required: Seq<Need>) -> Seq<Seq<char>>
    decreases required.len(),
{
    if required.len() == 0 {
        seq![]
    } else {
        let before = commands_required(required.drop_last());
        if required.last().kind is Command {
            before.push(required.last().name)
        } else {
            before
        }
    }
}

/// The commands that configurations refer to. A font or an extension of the same name is
/// none.
pub fn referenced(required: &Vec<Requirement>) -> (r: Vec<String>)
    ensures
        texts(r@) == commands_required(needs(required@)),
{
    let ghost all = needs(required@);
    let mut out: Vec<String> = Vec::new();
    proof {
        lemma_texts_empty();
        assert(all.take(0) =~= Seq::empty());
    }
    for i in 0..required.len()
        invariant
            all == needs(required@),
            texts(out@) == commands_required(all.take(i as int)),
    {
        broadcast use lemma_texts_push;

        proof {
            let t = all.take(i + 1);
            assert(t.drop_last() =~= all.take(i as int));
            assert(t.last() == required@[i as int]@);
        }
        if required[i].kind == Kind::Command {
            out.push(required[i].name.clone());
        }
    }
    assert(all.take(all.len() as int) =~= all);
    out
}

/// The packages that were typed, with how often.
pub open spec fn typed_among(
    e: Evidence,
    packages: Seq<(Seq<char>, Package)>,
) -> Seq<(Seq<char>, u128)>
    decreases packages.len(),
{
    if packages.len() == 0 {
        seq![]
    } else {
        let before = typed_among(e, packages.drop_last());
        match use_of(e, packages.last().0, packages.last().1) {
            Use::Typed(n) => before.push((packages.last().0, n)),
            _ => before,
        }
    }
}

/// The packages that were not typed: those that something refers to, or the others.
pub open spec fn untyped_among(
    e: Evidence,
    packages: Seq<(Seq<char>, Package)>,
    driven: bool,
) -> Seq<Seq<char>>
    decreases packages.len(),
{
    if packages.len() == 0 {
        seq![]
    } else {
        let before = untyped_among(e, packages.drop_last(), driven);
        let u = use_of(e, packages.last().0, packages.last().1);
        if (driven && u is Driven) || (!driven && u is Unused) {
            before.push(packages.last().0)
        } else {
            before
        }
    }
}

/// How many packages have no command.
pub open spec fn commandless(e: Evidence, packages: Seq<(Seq<char>, Package)>) -> nat
    decreases packages.len(),
{
    if packages.len() == 0 {
        0
    } else {
        commandless(e, packages.drop_last()) + if use_of(
            e,
            packages.last().0,
            packages.last().1,
        ) is NoCommand {
            1nat
        } else {
            0
        }
    }
}

/// Typed packages by the views of their names.
pub open spec fn typed(v: Seq<Typed>) -> Seq<(Seq<char>, u128)> {
    v.map_values(|t: Typed| (t.name@, t.times))
}

/// How what is declared is used.
pub struct Findings {
    /// What was typed, most often first.
    pub used: Vec<Typed>,
    /// What was not typed, but something refers to it.
    pub driven: Vec<String>,
    /// What neither was typed nor is referred to.
    pub unused: Vec<String>,
    /// How many packages have no command.
    pub skipped: usize,
}

/// Tells how what is declared for a machine is used. Absence is a prompt to look, not
/// proof: history is trimmed and differs between machines.
pub fn audit(packages: &Packages, os: &str, profiles: &Vec<String>, e: &Evidence) -> (r: Findings)
    ensures
        ({
            let all = applicable_among(packages.packages@, os@, texts(profiles@));
            &&& typed(r.used@) == sorted_of(typed_among(*e, all))
            &&& texts(r.driven@) == untyped_among(*e, all, true)
            &&& texts(r.unused@) == untyped_among(*e, all, false)
            &&& r.skipped == commandless(*e, all)
        }),
{
    let list = packages.applicable(os, profiles);
    let ghost all = applicable_among(packages.packages@, os@, texts(profiles@));
    let mut used: Vec<Typed> = Vec::new();
    let mut driven: Vec<String> = Vec::new();
    let mut unused: Vec<String> = Vec::new();
    let mut skipped: usize = 0;
    proof {
        lemma_texts_empty();
        assert(all.take(0) =~= Seq::empty());
        assert(typed(used@) =~= Seq::empty());
    }
    for i in 0..list.len()
        invariant
            named(list@) == all,
            typed(used@) == typed_among(*e, all.take(i as int)),
            texts(driven@) == untyped_among(*e, all.take(i as int), true),
            texts(unused@) == untyped_among(*e, all.take(i as int), false),
            skipped == commandless(*e, all.take(i as int)),
            skipped <= i,
    {
        broadcast use lemma_texts_push;

        let name = list[i].0.clone();
        let pkg = list[i].1;
        proof {
            let t = all.take(i + 1);
            assert(t.drop_last() =~= all.take(i as int));
            assert(t.last() == (name@, *pkg));
        }
        match judge(e, name.as_str(), pkg) {
            Use::NoCommand => {
                skipped += 1;
            },
            Use::Typed(times) => {
                let t = Typed { name, times };
                assert(typed(used@.push(t)) =~= typed(used@).push((t.name@, t.times)));
                used.push(t);
            },
            Use::Driven => driven.push(name),
            Use::Unused => unused.push(name),
        }
    }
    assert(all.take(all.len() as int) =~= all);
    proof {
        let f = |t: Typed| (t.name@, t.times);
        lemma_sorted_image(used@, f);
        assert(typed(used@) =~= used@.map_values(f));
        assert(typed(sorted_of(used@)) =~= sorted_of(used@).map_values(f));
    }
    Findings { used: sort(used), driven, unused, skipped }
}

/// Every package is told of once: as typed, as driven by the configuration, as unused, or as
/// one without a command.
pub proof fn law_every_package_is_judged(e: Evidence, packages: Seq<(Seq<char>, Package)>)
    ensures
        typed_among(e, packages).len() + untyped_among(e, packages, true).len() + untyped_among(
            e,
            packages,
            false,
        ).len() + commandless(e, packages) == packages.len(),
    decreases packages.len(),
{
    if packages.len() > 0 {
        law_every_package_is_judged(e, packages.drop_last());
    }
}

/// A command occurs as often in two lists, joined, as in both of them together.
pub proof fn law_counts_add_up(a: Seq<Seq<char>>, b: Seq<Seq<char>>, s: Seq<char>)
    ensures
        occurrences(a + b, s) == occurrences(a, s) + occurrences(b, s),
    decreases b.len(),
{
    if b.len() == 0 {
        assert(a + b =~= a);
    } else {
        assert((a + b).drop_last() =~= a + b.drop_last());
        law_counts_add_up(a, b.drop_last(), s);
    }
}

/// How often names were used adds up over the names.
pub proof fn law_uses_add_up(
    counts: Seq<(Seq<char>, usize)>,
    a: Seq<Seq<char>>,
    b: Seq<Seq<char>>,
)
    ensures
        times_used(counts, a + b) == times_used(counts, a) + times_used(counts, b),
    decreases b.len(),
{
    if b.len() == 0 {
        assert(a + b =~= a);
    } else {
        assert((a + b).drop_last() =~= a + b.drop_last());
        law_uses_add_up(counts, a, b.drop_last());
    }
}

/// One name was used as often as it is counted.
pub proof fn law_one_name_is_used_as_counted(counts: Seq<(Seq<char>, usize)>, name: Seq<char>)
    ensures
        lookup(counts, name) is None ==> times_used(counts, seq![name]) == 0,
        lookup(counts, name) matches Some(n) ==> times_used(counts, seq![name]) == n,
        times_used(counts, seq![]) == 0,
{
    assert(seq![name].drop_last() =~= Seq::empty());
    assert(times_used(counts, seq![name].drop_last()) == 0);
    assert(seq![name].last() == name);
}

/// Names were used where one of them is counted.
pub proof fn law_used_means_some_name_is_counted(
    counts: Seq<(Seq<char>, usize)>,
    names: Seq<Seq<char>>,
)
    ensures
        times_used(counts, names) > 0 <==> exists|i: int|
            0 <= i < names.len() && counted(counts, #[trigger] names[i]),
    decreases names.len(),
{
    if names.len() > 0 {
        let head = names.drop_last();
        law_used_means_some_name_is_counted(counts, head);
        assert(names[names.len() - 1] == names.last());
        if times_used(counts, head) > 0 {
            let i = choose|i: int| 0 <= i < head.len() && counted(counts, #[trigger] head[i]);
            assert(names[i] == head[i]);
        }
        if exists|i: int| 0 <= i < names.len() && counted(counts, #[trigger] names[i]) {
            let i = choose|i: int| 0 <= i < names.len() && counted(counts, #[trigger] names[i]);
            if i < head.len() {
                assert(head[i] == names[i]);
            }
        }
    }
}

/// Whether a name is counted at all.
pub open spec fn counted(counts: Seq<(Seq<char>, usize)>, name: Seq<char>) -> bool {
    lookup(counts, name) matches Some(n) && n > 0
}

proof fn lemma_uses_are_bounded(counts: Seq<(Seq<char>, usize)>, names: Seq<Seq<char>>)
    ensures
        times_used(counts, names) <= names.len() * usize::MAX,
    decreases names.len(),
{
    if names.len() > 0 {
        lemma_uses_are_bounded(counts, names.drop_last());
        let n = names.len();
        assert((n - 1) * usize::MAX + usize::MAX == n * usize::MAX) by (nonlinear_arith);
    }
}

/// A package is judged by all its command names, those that it provides and its own: it is
/// typed where one of them is counted, and as often as all of them together; it is driven
/// where none is counted but one is referred to or mentioned, and else it is unused. Only a
/// package that is no command, or comes from a cask, is not judged.
pub proof fn law_all_names_of_a_package_count(e: Evidence, name: Seq<char>, p: Package)
    ensures
        use_of(e, name, p) is NoCommand <==> p.sort() != Kind::Command || p.installer()
            == Manager::BrewCask,
        use_of(e, name, p) is Typed <==> !(use_of(e, name, p) is NoCommand) && (counted(
            e.counts@,
            name,
        ) || exists|i: int|
            0 <= i < p.provides@.len() && counted(e.counts@, (#[trigger] p.provides@[i])@)),
        use_of(e, name, p) matches Use::Typed(n) ==> n == times_used(
            e.counts@,
            texts(p.provides@),
        ) + times_used(e.counts@, seq![name]),
        use_of(e, name, p) is Driven <==> !(use_of(e, name, p) is NoCommand) && !(use_of(e, name, p)
            is Typed) && (referred(e, seq![name]) || referred(e, texts(p.provides@))),
{
    let own = texts(p.provides@);
    let names = own.push(name);
    assert(names =~= own + seq![name]);
    law_uses_add_up(e.counts@, own, seq![name]);
    law_one_name_is_used_as_counted(e.counts@, name);
    law_used_means_some_name_is_counted(e.counts@, own);
    lemma_uses_are_bounded(e.counts@, names);
    assert(p.provides.len() == p.provides@.len());
    let n = names.len();
    assert(n * usize::MAX <= u128::MAX) by (nonlinear_arith)
        requires
            n <= 0x1_0000_0000_0000_0000,
            usize::MAX <= 0xffff_ffff_ffff_ffff,
    ;
    assert forall|i: int| 0 <= i < own.len() implies #[trigger] own[i] == p.provides@[i]@ by {}
    if times_used(e.counts@, own) > 0 {
        let i = choose|i: int| 0 <= i < own.len() && counted(e.counts@, #[trigger] own[i]);
        assert(counted(e.counts@, p.provides@[i]@));
    }
    if exists|i: int| 0 <= i < p.provides@.len() && counted(e.counts@, (#[trigger] p.provides@[i])@) {
        let i = choose|i: int|
            0 <= i < p.provides@.len() && counted(e.counts@, (#[trigger] p.provides@[i])@);
        assert(counted(e.counts@, own[i]));
    }
    law_referred_means_some_name_is(e, own, seq![name]);
}

/// Names are referred to where one of them is: in a configuration, or as a word of a file.
pub proof fn law_referred_means_some_name_is(e: Evidence, a: Seq<Seq<char>>, b: Seq<Seq<char>>)
    ensures
        referred(e, a + b) <==> referred(e, a) || referred(e, b),
        forall|s: Seq<char>| #[trigger]
            referred(e, seq![s]) <==> (exists|i: int|
                0 <= i < e.referenced@.len() && (#[trigger] e.referenced@[i])@ == s) || (exists|i: int|
                0 <= i < e.mentioned@.len() && (#[trigger] e.mentioned@[i]).0 == s),
{
    let ab = a + b;
    let r = texts(e.referenced@);
    if referred(e, ab) {
        let i = choose|i: int|
            0 <= i < ab.len() && (r.contains(#[trigger] ab[i]) || lookup(e.mentioned@, ab[i])
                is Some);
        if i < a.len() {
            assert(a[i] == ab[i]);
        } else {
            assert(b[i - a.len()] == ab[i]);
        }
    }
    if referred(e, a) {
        let i = choose|i: int|
            0 <= i < a.len() && (r.contains(#[trigger] a[i]) || lookup(e.mentioned@, a[i]) is Some);
        assert(ab[i] == a[i]);
    }
    if referred(e, b) {
        let i = choose|i: int|
            0 <= i < b.len() && (r.contains(#[trigger] b[i]) || lookup(e.mentioned@, b[i]) is Some);
        assert(ab[a.len() + i] == b[i]);
    }
    assert forall|s: Seq<char>| #[trigger] referred(e, seq![s]) <==> (exists|i: int|
        0 <= i < e.referenced@.len() && (#[trigger] e.referenced@[i])@ == s) || (exists|i: int|
        0 <= i < e.mentioned@.len() && (#[trigger] e.mentioned@[i]).0 == s) by {
        let one = seq![s];
        assert(one[0] == s);
        lemma_lookup(e.mentioned@, s);
        assert(referred(e, one) <==> r.contains(s) || lookup(e.mentioned@, s) is Some);
        if r.contains(s) {
            let i = choose|i: int| 0 <= i < r.len() && r[i] == s;
            assert(e.referenced@[i]@ == s);
        }
        if exists|i: int| 0 <= i < e.referenced@.len() && (#[trigger] e.referenced@[i])@ == s {
            let i = choose|i: int|
                0 <= i < e.referenced@.len() && (#[trigger] e.referenced@[i])@ == s;
            assert(r[i] == s);
        }
    }
}

/// Where the counts are those of a history, a package with a command is typed exactly where
/// the history holds one of its command names.
pub proof fn law_typed_is_what_the_history_holds(
    e: Evidence,
    history: Seq<Seq<char>>,
    name: Seq<char>,
    p: Package,
)
    requires
        history.len() <= usize::MAX,
        e.counts@ == tally(history),
        !(use_of(e, name, p) is NoCommand),
    ensures
        use_of(e, name, p) is Typed <==> history.contains(name) || exists|i: int|
            0 <= i < p.provides@.len() && history.contains((#[trigger] p.provides@[i])@),
{
    law_all_names_of_a_package_count(e, name, p);
    assert forall|s: Seq<char>| counted(e.counts@, s) <==> #[trigger] history.contains(s) by {
        law_counts_are_occurrences(history, s);
        law_occurrences_are_counted(history, s);
        broadcast use vstd::seq_lib::group_to_multiset_ensures;

    }
    if exists|i: int| 0 <= i < p.provides@.len() && counted(e.counts@, (#[trigger] p.provides@[i])@) {
        let i = choose|i: int|
            0 <= i < p.provides@.len() && counted(e.counts@, (#[trigger] p.provides@[i])@);
        assert(history.contains(p.provides@[i]@));
    }
    if exists|i: int| 0 <= i < p.provides@.len() && history.contains((#[trigger] p.provides@[i])@) {
        let i = choose|i: int|
            0 <= i < p.provides@.len() && history.contains((#[trigger] p.provides@[i])@);
        assert(counted(e.counts@, p.provides@[i]@));
    }
}

/// Occurrences are counted with their multiplicity.
pub proof fn law_occurrences_are_counted(names: Seq<Seq<char>>, s: Seq<char>)
    ensures
        occurrences(names, s) == names.to_multiset().count(s),
    decreases names.len(),
{
    broadcast use vstd::seq_lib::group_to_multiset_ensures;

    if names.len() > 0 {
        law_occurrences_are_counted(names.drop_last(), s);
        assert(names =~= names.drop_last().push(names.last()));
    }
}

/// Every package is told under what is known of its use, and only there.
pub proof fn law_one_package_is_told(e: Evidence, name: Seq<char>, p: Package)
    ensures
        typed_among(e, seq![(name, p)]) == match use_of(e, name, p) {
            Use::Typed(n) => seq![(name, n)],
            _ => Seq::<(Seq<char>, u128)>::empty(),
        },
        untyped_among(e, seq![(name, p)], true) == match use_of(e, name, p) {
            Use::Driven => seq![name],
            _ => Seq::<Seq<char>>::empty(),
        },
        untyped_among(e, seq![(name, p)], false) == match use_of(e, name, p) {
            Use::Unused => seq![name],
            _ => Seq::<Seq<char>>::empty(),
        },
        commandless(e, seq![(name, p)]) == match use_of(e, name, p) {
            Use::NoCommand => 1nat,
            _ => 0nat,
        },
{
    let one = seq![(name, p)];
    assert(one.last() == (name, p));
    let none = one.drop_last();
    assert(none =~= Seq::empty());
    assert(typed_among(e, none) =~= Seq::empty());
    assert(untyped_among(e, none, true) =~= Seq::empty());
    assert(untyped_among(e, none, false) =~= Seq::empty());
    assert(commandless(e, none) == 0);
    assert(Seq::<Seq<char>>::empty().push(name) =~= seq![name]);
    match use_of(e, name, p) {
        Use::Typed(n) => {
            assert(Seq::<(Seq<char>, u128)>::empty().push((name, n)) =~= seq![(name, n)]);
        },
        _ => {},
    }
}

/// A requirement names a command where it is one of that kind.
pub proof fn law_one_required_command(need: Need)
    ensures
        commands_required(seq![need]) == match need.kind {
            Kind::Command => seq![need.name],
            _ => Seq::<Seq<char>>::empty(),
        },
{
    assert(seq![need].last() == need);
    assert(seq![need].drop_last() =~= Seq::empty());
    assert(commands_required(seq![need].drop_last()) =~= Seq::empty());
    assert(Seq::<Seq<char>>::empty().push(need.name) =~= seq![need.name]);
}

/// The command of a line is the first word behind those that only introduce one and the
/// assignments that follow them.
pub proof fn law_introductions_are_passed(
    introductions: Seq<Seq<char>>,
    command: Seq<Seq<char>>,
    introduced: bool,
)
    requires
        command.len() > 0,
        !introduces(command[0]),
        !command[0].contains('='),
        introduced || introductions.len() == 0 || introduces(introductions[0]),
        forall|i: int|
            0 <= i < introductions.len() ==> introduces(#[trigger] introductions[i])
                || introductions[i].contains('='),
    ensures
        head_of(introductions + command, introduced) == command[0],
    decreases introductions.len(),
{
    let ws = introductions + command;
    if introductions.len() == 0 {
        assert(ws =~= command);
    } else {
        let rest = introductions.drop_first();
        assert(ws[0] == introductions[0]);
        assert(introduces(introductions[0]) || introductions[0].contains('='));
        assert(ws.drop_first() =~= rest + command);
        assert forall|i: int| 0 <= i < rest.len() implies introduces(#[trigger] rest[i])
            || rest[i].contains('=') by {
            assert(rest[i] == introductions[i + 1]);
        }
        law_introductions_are_passed(rest, command, true);
    }
}

/// A line that begins with an assignment has no command, and neither has one that begins
/// with a substitution.
pub proof fn law_assignments_are_no_commands(head: Seq<char>)
    ensures
        head.contains('=') ==> command_in(head) is None,
        head.len() > 0 && head[0] == '$' ==> command_in(head) is None,
        head.len() > 0 && head[0] == '(' ==> command_in(head) is None,
{
}

/// A command is named without the directory that it was called by.
pub proof fn law_directories_of_commands_are_left_out(dir: Seq<char>, name: Seq<char>)
    requires
        name.len() > 0,
        !name.contains('/'),
        !name.contains('='),
        !dir.contains('='),
        name[0] != '$' && name[0] != '(',
        dir.len() > 0 ==> dir[0] != '$' && dir[0] != '(',
    ensures
        command_in(name) == Some(name),
        command_in(dir + seq!['/'] + name) == Some(name),
{
    let long = dir + seq!['/'] + name;
    if long.contains('=') {
        let i = choose|i: int| 0 <= i < long.len() && long[i] == '=';
        if i < dir.len() {
            assert(dir[i] == '=');
        } else {
            assert(i > dir.len());
            assert(name[i - dir.len() - 1] == '=');
        }
    }
    assert forall|i: int| 0 <= i < name.len() implies !Sep::Is('/').cuts(#[trigger] name[i]) by {
        if name[i] == '/' {
            assert(name.contains('/'));
        }
    }
    law_after_the_last(dir, '/', name, Sep::Is('/'));
    law_nothing_before(name, Sep::Is('/'));
}

/// A history line with a time stamp holds the command behind it; another one is the command.
pub proof fn law_time_stamps_are_left_out(stamp: Seq<char>, command: Seq<char>)
    requires
        !stamp.contains(';'),
    ensures
        command_line_of(seq![':'] + stamp + seq![';'] + command) == Some(command),
        command_line_of(seq![':'] + stamp) is None,
        command.len() == 0 || command[0] != ':' ==> command_line_of(command) == Some(command),
{
    let sep = Sep::Is(';');
    let line = seq![':'] + stamp + seq![';'] + command;
    let rest = line.skip(1);
    assert(rest =~= stamp + seq![';'] + command);
    assert forall|i: int| 0 <= i < stamp.len() implies !sep.cuts(#[trigger] stamp[i]) by {
        if stamp[i] == ';' {
            assert(stamp.contains(';'));
        }
    }
    assert forall|i: int| 0 <= i < stamp.len() implies !sep.cuts(#[trigger] rest[i]) by {
        assert(rest[i] == stamp[i]);
    }
    assert(rest[stamp.len() as int] == ';');
    lemma_until_is(rest, sep, stamp.len() as int);
    assert(rest.skip(stamp.len() as int + 1) =~= command);
    assert((seq![':'] + stamp).skip(1) =~= stamp);
    lemma_until_is(stamp, sep, stamp.len() as int);
}

/// The commands of one line are those of its parts.
pub proof fn law_one_line_of_a_history(line: Seq<char>)
    ensures
        commands_on(seq![line]) == match command_line_of(line) {
            Some(command) => commands_among(fragments(command, Sep::Pipeline)),
            None => Seq::<Seq<char>>::empty(),
        },
{
    assert(seq![line].last() == line);
    assert(seq![line].drop_last() =~= Seq::empty());
    assert(commands_on(seq![line].drop_last()) =~= Seq::empty());
    match command_line_of(line) {
        Some(command) => {
            let c = commands_among(fragments(command, Sep::Pipeline));
            assert(Seq::<Seq<char>>::empty() + c =~= c);
        },
        None => {},
    }
}

/// One part of a line has at most one command, that of its first telling word.
pub proof fn law_one_part_of_a_line(part: Seq<char>)
    ensures
        words_of(part).len() == 0 ==> commands_among(seq![part]).len() == 0,
        words_of(part).len() > 0 ==> commands_among(seq![part]) == match command_in(
            head_of(words_of(part), false),
        ) {
            Some(name) => seq![name],
            None => Seq::<Seq<char>>::empty(),
        },
{
    assert(seq![part].last() == part);
    assert(seq![part].drop_last() =~= Seq::empty());
    assert(commands_among(seq![part].drop_last()) =~= Seq::empty());
    match command_in(head_of(words_of(part), false)) {
        Some(name) => {
            assert(Seq::<Seq<char>>::empty().push(name) =~= seq![name]);
        },
        None => {},
    }
}

/// A word counts as mentioned exactly where it is a word of more than one byte in some file
/// that is searched: one that is not too deep, not too large, and neither the declarations
/// themselves nor something of git or a build.
pub proof fn law_mentioned_words(files: Seq<RepoFile>, w: Seq<char>)
    ensures
        lookup(words_among(files), w) is Some <==> exists|i: int|
            0 <= i < files.len() && holds_word(#[trigger] files[i], w),
    decreases files.len(),
{
    if files.len() > 0 {
        let head = files.drop_last();
        let f = files.last();
        law_mentioned_words(head, w);
        assert(files[files.len() - 1] == f);
        let ws = long_words(fragments(f.text@, Sep::NonWord));
        lemma_put_each(words_among(head), ws, true, w);
        law_long_words(fragments(f.text@, Sep::NonWord), w);
        if exists|i: int| 0 <= i < files.len() && holds_word(#[trigger] files[i], w) {
            let i = choose|i: int| 0 <= i < files.len() && holds_word(#[trigger] files[i], w);
            if i < head.len() {
                assert(head[i] == files[i]);
            }
        }
        if exists|i: int| 0 <= i < head.len() && holds_word(#[trigger] head[i], w) {
            let i = choose|i: int| 0 <= i < head.len() && holds_word(#[trigger] head[i], w);
            assert(files[i] == head[i]);
        }
    }
}

/// Whether a file that is searched holds a word.
pub open spec fn holds_word(f: RepoFile, w: Seq<char>) -> bool {
    let cs = components(f.rel@);
    &&& cs.len() <= 7
    &&& f.size <= 512 * 1024
    &&& !cs.contains(".git"@)
    &&& !cs.contains("target"@)
    &&& !cs.contains("packages.toml"@)
    &&& byte_len(w) > 1
    &&& fragments(f.text@, Sep::NonWord).contains(w)
}

/// The words that count are those of more than one byte.
pub proof fn law_long_words(pieces: Seq<Seq<char>>, w: Seq<char>)
    ensures
        long_words(pieces).contains(w) <==> pieces.contains(w) && byte_len(w) > 1,
    decreases pieces.len(),
{
    if pieces.len() > 0 {
        let head = pieces.drop_last();
        law_long_words(head, w);
        let all = long_words(pieces);
        let before = long_words(head);
        assert(pieces[pieces.len() - 1] == pieces.last());
        if pieces.contains(w) && w != pieces.last() {
            let k = choose|k: int| 0 <= k < pieces.len() && pieces[k] == w;
            assert(head[k] == w);
        }
        if head.contains(w) {
            let k = choose|k: int| 0 <= k < head.len() && head[k] == w;
            assert(pieces[k] == w);
        }
        if before.contains(w) {
            let k = choose|k: int| 0 <= k < before.len() && before[k] == w;
            assert(all[k] == w);
        }
        if byte_len(pieces.last()) > 1 {
            assert(all[all.len() - 1] == pieces.last());
            if all.contains(w) && w != pieces.last() {
                let k = choose|k: int| 0 <= k < all.len() && all[k] == w;
                assert(before[k] == w);
            }
        }
    }
}

/// Whether a package was typed does not depend on the packages around it.
pub proof fn law_typed_packages_keep_their_order(a: Seq<(Seq<char>, Package)>, b: Seq<(Seq<char>, Package)>, e: Evidence)
    ensures
        typed_among(e, a + b) == typed_among(e, a) + typed_among(e, b),
    decreases b.len(),
{
    if b.len() == 0 {
        assert(a + b =~= a);
        assert(typed_among(e, a) + typed_among(e, b) =~= typed_among(e, a));
    } else {
        assert((a + b).drop_last() =~= a + b.drop_last());
        law_typed_packages_keep_their_order(a, b.drop_last(), e);
        assert(typed_among(e, a + b) =~= typed_among(e, a) + typed_among(e, b));
    }
}

/// Whether a package is driven or unused does not depend on the packages around it.
pub proof fn law_untyped_packages_keep_their_order(a: Seq<(Seq<char>, Package)>, b: Seq<(Seq<char>, Package)>, e: Evidence, driven: bool)
    ensures
        untyped_among(e, a + b, driven) == untyped_among(e, a, driven) + untyped_among(e, b, driven),
    decreases b.len(),
{
    if b.len() == 0 {
        assert(a + b =~= a);
        assert(untyped_among(e, a, driven) + untyped_among(e, b, driven) =~= untyped_among(e, a, driven));
    } else {
        assert((a + b).drop_last() =~= a + b.drop_last());
        law_untyped_packages_keep_their_order(a, b.drop_last(), e, driven);
        assert(untyped_among(e, a + b, driven) =~= untyped_among(e, a, driven) + untyped_among(e, b, driven));
    }
}

/// Packages without a command add up.
pub proof fn law_commandless_packages_add_up(a: Seq<(Seq<char>, Package)>, b: Seq<(Seq<char>, Package)>, e: Evidence)
    ensures
        commandless(e, a + b) == commandless(e, a) + commandless(e, b),
    decreases b.len(),
{
    if b.len() == 0 {
        assert(a + b =~= a);
        assert(commandless(e, a) + commandless(e, b) == commandless(e, a));
    } else {
        assert((a + b).drop_last() =~= a + b.drop_last());
        law_commandless_packages_add_up(a, b.drop_last(), e);
        assert(commandless(e, a + b) == commandless(e, a) + commandless(e, b));
    }
}

/// Which commands are required is told requirement by requirement.
pub proof fn law_required_commands_keep_their_order(a: Seq<Need>, b: Seq<Need>)
    ensures
        commands_required(a + b) == commands_required(a) + commands_required(b),
    decreases b.len(),
{
    if b.len() == 0 {
        assert(a + b =~= a);
        assert(commands_required(a) + commands_required(b) =~= commands_required(a));
    } else {
        assert((a + b).drop_last() =~= a + b.drop_last());
        law_required_commands_keep_their_order(a, b.drop_last());
        assert(commands_required(a + b) =~= commands_required(a) + commands_required(b));
    }
}

/// A history is read line by line.
pub proof fn law_histories_are_read_line_by_line(a: Seq<Seq<char>>, b: Seq<Seq<char>>)
    ensures
        commands_on(a + b) == commands_on(a) + commands_on(b),
    decreases b.len(),
{
    if b.len() == 0 {
        assert(a + b =~= a);
        assert(commands_on(a) + commands_on(b) =~= commands_on(a));
    } else {
        assert((a + b).drop_last() =~= a + b.drop_last());
        law_histories_are_read_line_by_line(a, b.drop_last());
        assert(commands_on(a + b) =~= commands_on(a) + commands_on(b));
    }
}

/// A line is read part by part.
pub proof fn law_lines_are_read_part_by_part(a: Seq<Seq<char>>, b: Seq<Seq<char>>)
    ensures
        commands_among(a + b) == commands_among(a) + commands_among(b),
    decreases b.len(),
{
    if b.len() == 0 {
        assert(a + b =~= a);
        assert(commands_among(a) + commands_among(b) =~= commands_among(a));
    } else {
        assert((a + b).drop_last() =~= a + b.drop_last());
        law_lines_are_read_part_by_part(a, b.drop_last());
        assert(commands_among(a + b) =~= commands_among(a) + commands_among(b));
    }
}

/// A package is judged by all the names that it is called by: it was typed as often as they
/// were together, and it was typed where one of them was.
pub proof fn law_judging_counts_every_name(e: &Evidence, name: &str, pkg: &Package, r: Use)
    requires
        call_ensures(judge, (e, name, pkg), r),
    ensures
        r is Typed <==> pkg.sort() == Kind::Command && pkg.installer() != Manager::BrewCask && (
        counted(e.counts@, name@) || exists|i: int|
            0 <= i < pkg.provides@.len() && counted(e.counts@, (#[trigger] pkg.provides@[i])@)),
        r matches Use::Typed(n) ==> n == times_used(e.counts@, texts(pkg.provides@)) + (
        match lookup(e.counts@, name@) {
            Some(k) => k as nat,
            None => 0nat,
        }),
        r is NoCommand <==> pkg.sort() != Kind::Command || pkg.installer() == Manager::BrewCask,
{
    law_all_names_of_a_package_count(*e, name@, *pkg);
    law_one_name_is_used_as_counted(e.counts@, name@);
}

/// A package is called by the names that it provides and by its own.
pub proof fn law_names_of_a_package(name: &str, pkg: &Package, r: Option<Vec<String>>, n: Seq<char>)
    requires
        call_ensures(command_names, (name, pkg), r),
    ensures
        r is None <==> pkg.sort() != Kind::Command || pkg.installer() == Manager::BrewCask,
        r matches Some(v) ==> (texts(v@).contains(n) <==> n == name@ || texts(
            pkg.provides@,
        ).contains(n)),
{
    if let Some(v) = r {
        let own = texts(pkg.provides@);
        let all = texts(v@);
        assert(all == own.push(name@));
        if all.contains(n) && n != name@ {
            let k = choose|k: int| 0 <= k < all.len() && all[k] == n;
            assert(own[k] == n);
        }
        if own.contains(n) {
            let k = choose|k: int| 0 <= k < own.len() && own[k] == n;
            assert(all[k] == n);
        }
        assert(all[own.len() as int] == name@);
    }
}

/// The words that only introduce a command.
pub proof fn law_what_introduces_a_command(w: Seq<char>)
    ensures
        introduces(w) <==> w == "sudo"@ || w == "env"@ || w == "command"@ || w == "time"@ || w
            == "nohup"@ || w == "exec"@,
{
}

/// Where nothing but introductions is there, the last of them is the command.
pub proof fn law_the_last_introduction_is_a_command(ws: Seq<Seq<char>>, introduced: bool)
    requires
        ws.len() > 0,
        introduced || introduces(ws[0]),
        forall|i: int| 0 <= i < ws.len() ==> introduces(#[trigger] ws[i]) || ws[i].contains('='),
    ensures
        head_of(ws, introduced) == ws.last(),
    decreases ws.len(),
{
    if ws.len() > 1 {
        let rest = ws.drop_first();
        assert(introduces(ws[0]) || ws[0].contains('='));
        assert forall|i: int| 0 <= i < rest.len() implies introduces(#[trigger] rest[i])
            || rest[i].contains('=') by {
            assert(rest[i] == ws[i + 1]);
        }
        law_the_last_introduction_is_a_command(rest, true);
        assert(rest.last() == ws.last());
    }
}

/// A word that introduces nothing is the command itself.
pub proof fn law_a_first_word_is_the_command(ws: Seq<Seq<char>>)
    requires
        ws.len() > 0,
        !introduces(ws[0]),
    ensures
        head_of(ws, false) == ws[0],
{
}

/// What was typed is told with the most often typed first, and by name where two were typed
/// equally often.
pub proof fn law_most_typed_first(
    packages: &Packages,
    os: &str,
    profiles: &Vec<String>,
    e: &Evidence,
    r: Findings,
    i: int,
    j: int,
)
    requires
        call_ensures(audit, (packages, os, profiles, e), r),
        0 <= i < j < r.used@.len(),
    ensures
        r.used@[i].times >= r.used@[j].times,
        r.used@[i].times == r.used@[j].times ==> text_le(r.used@[i].name@, r.used@[j].name@),
{
    let all = applicable_among(packages.packages@, os@, texts(profiles@));
    law_sorting_orders(typed_among(*e, all));
    let s = sorted_of(typed_among(*e, all));
    assert(typed(r.used@)[i] == (r.used@[i].name@, r.used@[i].times));
    assert(typed(r.used@)[j] == (r.used@[j].name@, r.used@[j].times));
    assert(s[i].at_most(s[j]));
}

} // verus!
