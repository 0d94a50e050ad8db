//! Installing the packages that are missing.
use crate::manifest::push_all;
use crate::order::{law_sorting_keeps_items, sorted_of};
use crate::packages::{chosen, wanted_among, Installable, Manager, Package};
use crate::provider::text_listed;
use crate::text::{
    cat, cat3, chars_of, decimal, ends, ends_with, is_space, join, joined,
    law_decimals_stand_for_their_number, law_trimmed_at_both_ends, lemma_texts_empty,
    lemma_texts_push, lemma_until_is, lines, lines_of, reach, same_text, string_of, texts, to_decimal, trim,
    trimmed, until, words, words_of, Sep,
};
use vstd::prelude::*;
use vstd::slice::slice_subrange;

verus! {

/// The order in which managers run: first those that others sit on.
pub open spec fn in_turn() -> Seq<Manager> {
    seq![Manager::Apt, Manager::Yay, Manager::Brew, Manager::BrewCask, Manager::Mise]
}

/// The managers in the order in which they run.
pub fn order() -> (r: Vec<Manager>)
    ensures
        r@ == in_turn(),
{
    let mut out: Vec<Manager> = Vec::new();
    out.push(Manager::Apt);
    out.push(Manager::Yay);
    out.push(Manager::Brew);
    out.push(Manager::BrewCask);
    out.push(Manager::Mise);
    assert(out@ =~= in_turn());
    out
}

/// What a manager is called.
pub fn label(m: Manager) -> (r: &'static str)
    ensures
        r@ == match m {
            Manager::Brew => "brew"@,
            Manager::BrewCask => "brew --cask"@,
            Manager::Mise => "mise"@,
            Manager::Apt => "apt"@,
            Manager::Yay => "yay"@,
            Manager::ZedExtension => "zed"@,
            Manager::Unmanaged | Manager::Unknown => "-"@,
        },
{
    match m {
        Manager::Brew => "brew",
        Manager::BrewCask => "brew --cask",
        Manager::Mise => "mise",
        Manager::Apt => "apt",
        Manager::Yay => "yay",
        Manager::ZedExtension => "zed",
        Manager::Unmanaged | Manager::Unknown => "-",
    }
}

/// Appends a word to a command line.
fn word(out: &mut Vec<String>, s: &str)
    ensures
        texts(final(out)@) == texts(old(out)@).push(s@),
{
    let s = s.to_owned();
    proof {
        lemma_texts_push(out@, s);
    }
    out.push(s);
}

/// The command that lists what a manager has installed; none where it cannot tell.
pub open spec fn query_words(m: Manager) -> Option<Seq<Seq<char>>> {
    match m {
        Manager::Brew => Some(seq!["brew"@, "list"@, "--formula"@, "-1"@]),
        Manager::BrewCask => Some(seq!["brew"@, "list"@, "--cask"@, "-1"@]),
        Manager::Mise => Some(seq!["mise"@, "ls"@, "--installed"@, "--no-header"@]),
        Manager::Apt => Some(
            seq!["dpkg-query"@, "-W"@, "-f=${binary:Package} ${db:Status-Status}\n"@],
        ),
        Manager::Yay => Some(seq!["pacman"@, "-Qq"@]),
        _ => None,
    }
}

/// The command that lists what a manager has installed.
pub fn query(m: Manager) -> (r: Option<Vec<String>>)
    ensures
        match r {
            Some(v) => query_words(m) == Some(texts(v@)),
            None => query_words(m) is None,
        },
{
    let mut v: Vec<String> = Vec::new();
    proof {
        lemma_texts_empty();
    }
    match m {
        Manager::Brew => {
            word(&mut v, "brew");
            word(&mut v, "list");
            word(&mut v, "--formula");
            word(&mut v, "-1");
            assert(texts(v@) =~= seq!["brew"@, "list"@, "--formula"@, "-1"@]);
        },
        Manager::BrewCask => {
            word(&mut v, "brew");
            word(&mut v, "list");
            word(&mut v, "--cask");
            word(&mut v, "-1");
            assert(texts(v@) =~= seq!["brew"@, "list"@, "--cask"@, "-1"@]);
        },
        Manager::Mise => {
            word(&mut v, "mise");
            word(&mut v, "ls");
            word(&mut v, "--installed");
            word(&mut v, "--no-header");
            assert(texts(v@) =~= seq!["mise"@, "ls"@, "--installed"@, "--no-header"@]);
        },
        Manager::Apt => {
            word(&mut v, "dpkg-query");
            word(&mut v, "-W");
            word(&mut v, "-f=${binary:Package} ${db:Status-Status}\n");
            assert(texts(v@) =~= seq![
                "dpkg-query"@,
                "-W"@,
                "-f=${binary:Package} ${db:Status-Status}\n"@,
            ]);
        },
        Manager::Yay => {
            word(&mut v, "pacman");
            word(&mut v, "-Qq");
            assert(texts(v@) =~= seq!["pacman"@, "-Qq"@]);
        },
        _ => {
            return None;
        },
    }
    Some(v)
}

/// The package that a line of a listing names. `apt` also lists packages that were removed,
/// and may add an architecture behind a colon.
pub open spec fn named_on(m: Manager, line: Seq<char>) -> Option<Seq<char>> {
    let ws = words_of(line);
    if ws.len() == 0 || (m is Apt && !ends(line, " installed"@)) {
        None
    } else if m is Apt {
        Some(ws[0].take(until(ws[0], Sep::Is(':'))))
    } else {
        Some(ws[0])
    }
}

/// The packages that the first lines of a listing name.
pub open spec fn named_among(m: Manager, ls: Seq<Seq<char>>) -> Seq<Seq<char>>
    decreases ls.len(),
{
    if ls.len() == 0 {
        seq![]
    } else {
        let before = named_among(m, ls.drop_last());
        match named_on(m, ls.last()) {
            Some(name) => before.push(name),
            None => before,
        }
    }
}

/// The packages that a listing names.
pub fn installed(m: Manager, output: &str) -> (r: Vec<String>)
    ensures
        texts(r@) == named_among(m, lines_of(output@)),
{
    let c = chars_of(output);
    let ls = lines(c.as_slice());
    let ghost all = lines_of(output@);
    let mut out: Vec<String> = Vec::new();
    proof {
        lemma_texts_empty();
        assert(all.take(0) =~= Seq::empty());
    }
    for i in 0..ls.len()
        invariant
            texts(ls@) == all,
            texts(out@) == named_among(m, all.take(i as int)),
    {
        proof {
            let t = all.take(i + 1);
            assert(t.drop_last() =~= all.take(i as int));
            assert(t.last() == ls@[i as int]@);
        }
        let line = chars_of(ls[i].as_str());
        let ws = words(line.as_slice());
        assert(texts(ws@).len() == ws@.len());
        let apt = m == Manager::Apt;
        if ws.len() > 0 && (!apt || ends_with(line.as_slice(), " installed")) {
            assert(texts(ws@)[0] == ws@[0]@);
            if apt {
                let first = chars_of(ws[0].as_str());
                let n = reach(first.as_slice(), Sep::Is(':'));
                let name = slice_subrange(first.as_slice(), 0, n);
                assert(name@ =~= ws@[0]@.take(until(ws@[0]@, Sep::Is(':'))));
                let name = string_of(name);
                word(&mut out, name.as_str());
            } else {
                word(&mut out, ws[0].as_str());
            }
        }
    }
    assert(all.take(all.len() as int) =~= all);
    out
}

/// The packages that a manager has, out of what the command that lists them came to. A
/// manager that cannot tell has none; a listing that failed is an error and never taken for
/// an empty one.
pub fn list_installed(m: Manager, success: bool, stdout: &str, stderr: &str) -> (r: Result<
    Vec<String>,
    String,
>)
    ensures
        match query_words(m) {
            None => r matches Ok(v) && v@.len() == 0,
            Some(line) => if success {
                r matches Ok(v) && texts(v@) == named_among(m, lines_of(stdout@))
            } else {
                r matches Err(s) && s@ == "`"@ + joined(line, " "@) + "` failed: "@ + trimmed(
                    stderr@,
                )
            },
        },
{
    match query(m) {
        None => Ok(Vec::new()),
        Some(line) => if success {
            Ok(installed(m, stdout))
        } else {
            Err(failure(&line, stderr))
        },
    }
}

/// The packages of a manager that are not installed.
pub open spec fn missing_among(
    wanted: Seq<(Seq<char>, Manager)>,
    m: Manager,
    installed: Seq<Seq<char>>,
) -> Seq<Seq<char>>
    decreases wanted.len(),
{
    if wanted.len() == 0 {
        seq![]
    } else {
        let before = missing_among(wanted.drop_last(), m, installed);
        let (name, by) = wanted.last();
        if by == m && !installed.contains(name) {
            before.push(name)
        } else {
            before
        }
    }
}

/// The packages of a manager that are not installed.
pub fn missing(wanted: &Vec<Installable>, m: Manager, installed: &Vec<String>) -> (r: Vec<String>)
    ensures
        texts(r@) == missing_among(chosen(wanted@), m, texts(installed@)),
{
    let ghost all = chosen(wanted@);
    let mut out: Vec<String> = Vec::new();
    proof {
        lemma_texts_empty();
        assert(all.take(0) =~= Seq::empty());
    }
    for i in 0..wanted.len()
        invariant
            all == chosen(wanted@),
            texts(out@) == missing_among(all.take(i as int), m, texts(installed@)),
    {
        let w = &wanted[i];
        proof {
            let t = all.take(i + 1);
            assert(t.drop_last() =~= all.take(i as int));
            assert(t.last() == (w.name@, w.manager));
        }
        if w.manager == m && !text_listed(installed, w.name.as_str()) {
            word(&mut out, w.name.as_str());
        }
    }
    assert(all.take(all.len() as int) =~= all);
    out
}

/// How many packages a manager has to have.
pub open spec fn declared_for(wanted: Seq<(Seq<char>, Manager)>, m: Manager) -> nat
    decreases wanted.len(),
{
    if wanted.len() == 0 {
        0
    } else {
        declared_for(wanted.drop_last(), m) + if wanted.last().1 == m {
            1nat
        } else {
            0
        }
    }
}

/// Counts the packages that a manager has to have.
pub fn declared_count(wanted: &Vec<Installable>, m: Manager) -> (r: usize)
    ensures
        r == declared_for(chosen(wanted@), m),
{
    let ghost all = chosen(wanted@);
    let mut n: usize = 0;
    assert(all.take(0) =~= Seq::empty());
    for i in 0..wanted.len()
        invariant
            all == chosen(wanted@),
            n == declared_for(all.take(i as int), m),
            n <= i,
    {
        proof {
            let t = all.take(i + 1);
            assert(t.drop_last() =~= all.take(i as int));
            assert(t.last() == all[i as int]);
        }
        if wanted[i].manager == m {
            n += 1;
        }
    }
    assert(all.take(all.len() as int) =~= all);
    n
}

/// How root is had, for the managers that need it.
#[derive(Debug, Clone, Copy, PartialEq, Eq, Structural)]
pub enum Escalation {
    /// It is root already.
    Direct,
    Sudo,
}

/// Why root cannot be had.
#[derive(Debug, Clone, Copy, PartialEq, Eq, Structural)]
pub enum EscalationError {
    /// It is not root, and there is no `sudo`.
    NoSudo,
    /// `sudo` would ask for a password that nobody can type.
    NoTerminal,
}

impl EscalationError {
    /// The error in words.
    pub fn message(&self) -> (r: String)
        ensures
            r@ == match *self {
                EscalationError::NoSudo =>
                    "apt requires root, but this is not root and sudo is not installed"@,
                EscalationError::NoTerminal =>
                    "apt requires root: sudo needs a password and there is no terminal to ask on.\nRun sennit from a terminal, run it as root, or allow passwordless sudo for apt-get."@,
            },
    {
        match self {
            EscalationError::NoSudo =>
                "apt requires root, but this is not root and sudo is not installed".to_owned(),
            EscalationError::NoTerminal =>
                "apt requires root: sudo needs a password and there is no terminal to ask on.\nRun sennit from a terminal, run it as root, or allow passwordless sudo for apt-get.".to_owned(),
        }
    }
}

/// Whether the user that `id -u` printed is root.
pub fn is_root(id: &str) -> (r: bool)
    ensures
        r == (trimmed(id@) == "0"@),
{
    let c = chars_of(id);
    let t = string_of(trim(c.as_slice()));
    same_text(t.as_str(), "0")
}

/// A program to run, with what it is told to do and the names it is told to do it for.
pub struct Invocation {
    /// The program and its fixed arguments.
    pub base: Vec<String>,
    pub names: Vec<String>,
}

impl View for Invocation {
    type V = (Seq<Seq<char>>, Seq<Seq<char>>);

    open spec fn view(&self) -> Self::V {
        (texts(self.base@), texts(self.names@))
    }
}

impl Invocation {
    /// The whole command line.
    pub fn line(&self) -> (r: Vec<String>)
        ensures
            texts(r@) == self@.0 + self@.1,
    {
        let mut v: Vec<String> = Vec::new();
        proof {
            lemma_texts_empty();
        }
        push_all(&mut v, &self.base);
        assert(texts(v@) =~= texts(self.base@));
        push_all(&mut v, &self.names);
        v
    }

    /// What is said where it failed. The names are left out: there can be many.
    pub fn failed(&self) -> (r: String)
        ensures
            r@ == "`"@ + joined(self@.0, " "@) + "` failed"@,
    {
        let shown = join(&self.base, " ");
        cat3("`", shown.as_str(), "` failed")
    }
}

/// An invocation of a program with its fixed arguments and some names.
pub open spec fn command_line(
    bin: Seq<char>,
    base: Seq<Seq<char>>,
    names: Seq<Seq<char>>,
) -> (Seq<Seq<char>>, Seq<Seq<char>>) {
    (seq![bin] + base, names)
}

/// Puts an invocation together.
pub fn run(bin: &str, base: &Vec<String>, names: &Vec<String>) -> (r: Invocation)
    ensures
        r@ == command_line(bin@, texts(base@), texts(names@)),
{
    let mut v: Vec<String> = Vec::new();
    let mut n: Vec<String> = Vec::new();
    proof {
        lemma_texts_empty();
    }
    word(&mut v, bin);
    assert(texts(v@) =~= seq![bin@]);
    push_all(&mut v, base);
    push_all(&mut n, names);
    assert(texts(n@) =~= texts(names@));
    Invocation { base: v, names: n }
}

impl Escalation {
    /// How root can be had. `sudo` is used where it needs no password, or where there is a
    /// terminal on which it can ask for one.
    pub fn detect(root: bool, sudo: bool, passwordless: bool, terminal: bool) -> (r: Result<
        Self,
        EscalationError,
    >)
        ensures
            r == if root {
                Ok::<Escalation, EscalationError>(Escalation::Direct)
            } else if !sudo {
                Err(EscalationError::NoSudo)
            } else if passwordless || terminal {
                Ok(Escalation::Sudo)
            } else {
                Err(EscalationError::NoTerminal)
            },
    {
        if root {
            return Ok(Escalation::Direct);
        }
        if !sudo {
            return Err(EscalationError::NoSudo);
        }
        if passwordless || terminal {
            return Ok(Escalation::Sudo);
        }
        Err(EscalationError::NoTerminal)
    }

    /// What a command is run through.
    pub fn prefix(self) -> (r: Option<&'static str>)
        ensures
            match self {
                Escalation::Direct => r is None,
                Escalation::Sudo => r matches Some(s) && s@ == "sudo"@,
            },
    {
        match self {
            Escalation::Direct => None,
            Escalation::Sudo => Some("sudo"),
        }
    }

    /// An invocation as root.
    pub open spec fn as_root(self, line: (Seq<Seq<char>>, Seq<Seq<char>>)) -> (
        Seq<Seq<char>>,
        Seq<Seq<char>>,
    ) {
        match self {
            Escalation::Direct => line,
            Escalation::Sudo => (seq!["sudo"@] + line.0, line.1),
        }
    }

    /// Puts an invocation together that runs as root.
    pub fn run(self, bin: &str, base: &Vec<String>, names: &Vec<String>) -> (r: Invocation)
        ensures
            r@ == self.as_root(command_line(bin@, texts(base@), texts(names@))),
    {
        let plain = run(bin, base, names);
        match self.prefix() {
            None => plain,
            Some(prefix) => run(prefix, &plain.base, names),
        }
    }
}

/// Whether a manager has to run as root.
pub fn needs_root(m: Manager) -> (r: bool)
    ensures
        r == (m is Apt),
{
    match m {
        Manager::Apt => true,
        _ => false,
    }
}

/// The commands that install packages, in turn. The list of packages is brought up to date
/// first where a manager works from one; `yay` refuses to run as root.
pub open spec fn install_lines(
    m: Manager,
    names: Seq<Seq<char>>,
    root: Escalation,
) -> Seq<(Seq<Seq<char>>, Seq<Seq<char>>)> {
    match m {
        Manager::Brew => seq![command_line("brew"@, seq!["install"@], names)],
        Manager::BrewCask => seq![command_line("brew"@, seq!["install"@, "--cask"@], names)],
        Manager::Mise => seq![command_line("mise"@, seq!["use"@, "-g"@], names)],
        Manager::Yay => seq![command_line("yay"@, seq!["-S"@, "--noconfirm"@], names)],
        Manager::Apt => seq![
            root.as_root(command_line("apt-get"@, seq!["update"@], seq![])),
            root.as_root(command_line("apt-get"@, seq!["install"@, "-y"@], names)),
        ],
        _ => seq![],
    }
}

/// Invocations by their views.
pub open spec fn invoked(v: Seq<Invocation>) -> Seq<(Seq<Seq<char>>, Seq<Seq<char>>)> {
    v.map_values(|i: Invocation| i@)
}

fn one(a: &str) -> (r: Vec<String>)
    ensures
        texts(r@) == seq![a@],
{
    let mut v: Vec<String> = Vec::new();
    proof {
        lemma_texts_empty();
    }
    word(&mut v, a);
    assert(texts(v@) =~= seq![a@]);
    v
}

fn two(a: &str, b: &str) -> (r: Vec<String>)
    ensures
        texts(r@) == seq![a@, b@],
{
    let mut v = one(a);
    word(&mut v, b);
    assert(texts(v@) =~= seq![a@, b@]);
    v
}

/// The commands that install packages, in turn.
pub fn install(m: Manager, names: &Vec<String>, root: Escalation) -> (r: Vec<Invocation>)
    ensures
        invoked(r@) == install_lines(m, texts(names@), root),
{
    let ghost goal = install_lines(m, texts(names@), root);
    let mut out: Vec<Invocation> = Vec::new();
    match m {
        Manager::Brew => out.push(run("brew", &one("install"), names)),
        Manager::BrewCask => out.push(run("brew", &two("install", "--cask"), names)),
        Manager::Mise => out.push(run("mise", &two("use", "-g"), names)),
        Manager::Yay => out.push(run("yay", &two("-S", "--noconfirm"), names)),
        Manager::Apt => {
            let none: Vec<String> = Vec::new();
            proof {
                lemma_texts_empty();
            }
            out.push(root.run("apt-get", &one("update"), &none));
            out.push(root.run("apt-get", &two("install", "-y"), names));
        },
        _ => {},
    }
    assert(invoked(out@) =~= goal);
    out
}

/// What is said of a command that failed, with what it printed.
pub fn failure(line: &Vec<String>, stderr: &str) -> (r: String)
    ensures
        r@ == "`"@ + joined(texts(line@), " "@) + "` failed: "@ + trimmed(stderr@),
{
    let c = chars_of(stderr);
    let why = string_of(trim(c.as_slice()));
    let shown = join(line, " ");
    let head = cat3("`", shown.as_str(), "` failed: ");
    cat(head.as_str(), why.as_str())
}

/// How many packages the managers before the `k`-th in turn have to have.
pub open spec fn declared_before(wanted: Seq<(Seq<char>, Manager)>, k: int) -> nat
    decreases k,
{
    if k <= 0 {
        0
    } else {
        declared_before(wanted, k - 1) + declared_for(wanted, in_turn()[k - 1])
    }
}

/// Whether a manager has a turn.
pub open spec fn has_turn(m: Manager) -> bool {
    in_turn().contains(m)
}

proof fn lemma_declared_before(wanted: Seq<(Seq<char>, Manager)>)
    ensures
        declared_before(wanted, 5) <= wanted.len(),
        (forall|i: int| 0 <= i < wanted.len() ==> has_turn((#[trigger] wanted[i]).1))
            ==> declared_before(wanted, 5) == wanted.len(),
    decreases wanted.len(),
{
    reveal_with_fuel(declared_before, 6);
    if wanted.len() > 0 {
        let head = wanted.drop_last();
        lemma_declared_before(head);
        if forall|i: int| 0 <= i < wanted.len() ==> has_turn((#[trigger] wanted[i]).1) {
            assert forall|i: int| 0 <= i < head.len() implies has_turn((#[trigger] head[i]).1) by {
                assert(wanted[i] == head[i]);
            }
            assert(has_turn(wanted[wanted.len() - 1].1));
            assert(has_turn(wanted.last().1));
        }
    }
}

proof fn lemma_declared_grows(wanted: Seq<(Seq<char>, Manager)>, j: int, k: int)
    requires
        0 <= j <= k,
    ensures
        declared_before(wanted, j) <= declared_before(wanted, k),
    decreases k,
{
    if j < k {
        lemma_declared_grows(wanted, j, k - 1);
    }
}

proof fn lemma_missing_of_declared(
    wanted: Seq<(Seq<char>, Manager)>,
    m: Manager,
    installed: Seq<Seq<char>>,
)
    ensures
        missing_among(wanted, m, installed).len() <= declared_for(wanted, m),
    decreases wanted.len(),
{
    if wanted.len() > 0 {
        lemma_missing_of_declared(wanted.drop_last(), m, installed);
    }
}

/// The turn, from the `at`-th on, of the first manager that has to have something.
pub open spec fn due_from(wanted: Seq<(Seq<char>, Manager)>, at: int) -> int
    decreases in_turn().len() - at,
{
    if at >= in_turn().len() || declared_for(wanted, in_turn()[at]) > 0 {
        at
    } else {
        due_from(wanted, at + 1)
    }
}

/// What is done in the turn of a manager.
pub struct Step {
    pub manager: Manager,
    /// How many packages it has to have.
    pub declared: usize,
    /// Those that are not installed.
    pub missing: Vec<String>,
    /// Whether they are installed now.
    pub install: bool,
}

/// A run through the managers in turn: each that has to have something is asked what it has,
/// and installs what is missing.
pub struct Sync {
    wanted: Vec<Installable>,
    at: usize,
    planned: usize,
}

impl Sync {
    #[verifier::type_invariant]
    spec fn counted(self) -> bool {
        &&& self.at <= in_turn().len()
        &&& self.planned <= declared_before(chosen(self.wanted@), self.at as int)
    }

    /// The packages to have, each with its manager.
    pub closed spec fn wants(self) -> Seq<(Seq<char>, Manager)> {
        chosen(self.wanted@)
    }

    /// Whose turn it is.
    pub closed spec fn turn(self) -> int {
        self.at as int
    }

    /// How many packages were missing so far.
    pub closed spec fn missed(self) -> nat {
        self.planned as nat
    }

    /// The start of a run.
    pub fn new(wanted: Vec<Installable>) -> (r: Self)
        ensures
            r.wants() == chosen(wanted@),
            r.turn() == 0,
            r.missed() == 0,
    {
        Sync { wanted, at: 0, planned: 0 }
    }

    /// Moves on to the next manager that has to have something; none where the run is over.
    pub fn next(&mut self) -> (r: Option<Manager>)
        ensures
            final(self).wants() == old(self).wants(),
            final(self).missed() == old(self).missed(),
            final(self).turn() == due_from(old(self).wants(), old(self).turn()),
            r == if final(self).turn() < in_turn().len() {
                Some(in_turn()[final(self).turn()])
            } else {
                None
            },
    {
        let turns = order();
        let ghost start = *self;
        proof {
            use_type_invariant(&*self);
        }
        let mut i: usize = self.at;
        while i < turns.len() && declared_count(&self.wanted, turns[i]) == 0
            invariant
                turns@ == in_turn(),
                start == *self,
                start.at <= i <= turns@.len(),
                due_from(start.wants(), start.turn()) == due_from(start.wants(), i as int),
            decreases turns@.len() - i,
        {
            i += 1;
        }
        proof {
            lemma_declared_grows(start.wants(), start.turn(), i as int);
        }
        self.at = i;
        if i < turns.len() {
            Some(turns[i])
        } else {
            None
        }
    }

    /// What is done in a turn, given what the manager has. Where it is nobody's turn there is
    /// nothing to do. In a dry run nothing is installed.
    pub fn step(&mut self, there: &Vec<String>, dry_run: bool) -> (r: Option<Step>)
        ensures
            final(self).wants() == old(self).wants(),
            match r {
                Some(step) => {
                    let m = in_turn()[old(self).turn()];
                    &&& 0 <= old(self).turn() < in_turn().len()
                    &&& step.manager == m
                    &&& step.declared == declared_for(old(self).wants(), m)
                    &&& texts(step.missing@) == missing_among(
                        old(self).wants(),
                        m,
                        texts(there@),
                    )
                    &&& step.install == (step.missing@.len() > 0 && !dry_run)
                    &&& step.install == installs_now(step.missing@.len(), dry_run)
                    &&& final(self).turn() == old(self).turn() + 1
                    &&& final(self).missed() == old(self).missed() + step.missing@.len()
                },
                None => *final(self) == *old(self) && old(self).turn() >= in_turn().len(),
            },
    {
        let turns = order();
        proof {
            use_type_invariant(&*self);
        }
        if self.at >= turns.len() {
            return None;
        }
        let m = turns[self.at];
        let declared = declared_count(&self.wanted, m);
        let names = missing(&self.wanted, m, there);
        proof {
            assert(texts(names@).len() == names@.len());
            lemma_missing_of_declared(self.wants(), m, texts(there@));
            lemma_declared_before(self.wants());
            lemma_declared_grows(self.wants(), self.at + 1, 5);
            assert(declared_before(self.wants(), self.at + 1) == declared_before(
                self.wants(),
                self.at as int,
            ) + declared_for(self.wants(), m));
            assert(chosen(self.wanted@).len() == self.wanted.len());
        }
        let count = self.planned + names.len();
        self.at = self.at + 1;
        self.planned = count;
        let install = names.len() > 0 && !dry_run;
        Some(Step { manager: m, declared, missing: names, install })
    }

    /// What is said in the end.
    pub fn message(&self, dry_run: bool) -> (r: String)
        ensures
            r@ == sync_words(self.missed(), dry_run),
    {
        sync_message(self.planned, dry_run)
    }
}

/// What is said in the end, where `planned` packages were missing.
pub open spec fn sync_words(planned: nat, dry_run: bool) -> Seq<char> {
    if dry_run {
        decimal(planned) + " package(s) would be installed (--dry-run)"@
    } else if planned == 0 {
        "all declared packages are already installed"@
    } else {
        decimal(planned) + " package(s) installed"@
    }
}

/// What is said in the end.
pub fn sync_message(planned: usize, dry_run: bool) -> (r: String)
    ensures
        r@ == sync_words(planned as nat, dry_run),
{
    let n = to_decimal(planned);
    if dry_run {
        cat(n.as_str(), " package(s) would be installed (--dry-run)")
    } else if planned == 0 {
        "all declared packages are already installed".to_owned()
    } else {
        cat(n.as_str(), " package(s) installed")
    }
}

/// What was missing and is installed is not missing any more: installing twice is
/// installing once.
pub proof fn law_nothing_is_installed_twice(
    wanted: Seq<(Seq<char>, Manager)>,
    m: Manager,
    before: Seq<Seq<char>>,
    after: Seq<Seq<char>>,
)
    requires
        forall|s: Seq<char>| before.contains(s) ==> after.contains(s),
        forall|s: Seq<char>| missing_among(wanted, m, before).contains(s) ==> after.contains(s),
    ensures
        missing_among(wanted, m, after).len() == 0,
    decreases wanted.len(),
{
    if wanted.len() > 0 {
        let head = wanted.drop_last();
        let b = missing_among(head, m, before);
        let all = missing_among(wanted, m, before);
        assert forall|s: Seq<char>| b.contains(s) implies after.contains(s) by {
            let k = choose|k: int| 0 <= k < b.len() && b[k] == s;
            assert(all[k] == s);
            assert(all.contains(s));
        }
        law_nothing_is_installed_twice(head, m, before, after);
        let (name, by) = wanted.last();
        if by == m && !before.contains(name) {
            assert(all[all.len() - 1] == name);
            assert(all.contains(name));
        }
    }
}

/// Every package that has a manager with a turn is dealt with in one turn, and in no other.
pub proof fn law_every_package_has_its_turn(wanted: Seq<(Seq<char>, Manager)>)
    requires
        forall|i: int| 0 <= i < wanted.len() ==> has_turn((#[trigger] wanted[i]).1),
    ensures
        declared_before(wanted, in_turn().len() as int) == wanted.len(),
{
    lemma_declared_before(wanted);
}

proof fn lemma_has_turn(m: Manager)
    requires
        !(m is Unmanaged) && !(m is Unknown) && !(m is ZedExtension),
    ensures
        has_turn(m),
{
    let i: int = match m {
        Manager::Apt => 0,
        Manager::Yay => 1,
        Manager::Brew => 2,
        Manager::BrewCask => 3,
        _ => 4,
    };
    assert(in_turn()[i] == m);
}

proof fn lemma_wanted_has_turn(
    packages: Seq<(Seq<char>, Package)>,
    os: Seq<char>,
    current: Seq<Seq<char>>,
    linux_pm: Option<Manager>,
)
    ensures
        forall|i: int|
            0 <= i < wanted_among(packages, os, current, linux_pm).len() ==> has_turn(
                (#[trigger] wanted_among(packages, os, current, linux_pm)[i]).1,
            ),
    decreases packages.len(),
{
    if packages.len() > 0 {
        lemma_wanted_has_turn(packages.drop_last(), os, current, linux_pm);
        let before = wanted_among(packages.drop_last(), os, current, linux_pm);
        let all = wanted_among(packages, os, current, linux_pm);
        assert forall|i: int| 0 <= i < all.len() implies has_turn((#[trigger] all[i]).1) by {
            if i < before.len() {
                assert(all[i] == before[i]);
            } else {
                lemma_has_turn(all[i].1);
            }
        }
    }
}

/// Everything that is to be installed is dealt with in some turn.
pub proof fn law_everything_wanted_has_its_turn(
    packages: Seq<(Seq<char>, Package)>,
    os: Seq<char>,
    current: Seq<Seq<char>>,
    linux_pm: Option<Manager>,
)
    ensures
        ({
            let wanted = sorted_of(wanted_among(packages, os, current, linux_pm));
            declared_before(wanted, in_turn().len() as int) == wanted.len()
        }),
{
    broadcast use vstd::seq_lib::group_to_multiset_ensures;

    let all = wanted_among(packages, os, current, linux_pm);
    let wanted = sorted_of(all);
    lemma_wanted_has_turn(packages, os, current, linux_pm);
    law_sorting_keeps_items(all);
    assert forall|i: int| 0 <= i < wanted.len() implies has_turn((#[trigger] wanted[i]).1) by {
        assert(wanted.to_multiset().count(wanted[i]) > 0);
        assert(all.to_multiset().count(wanted[i]) > 0);
        let k = choose|k: int| 0 <= k < all.len() && all[k] == wanted[i];
        assert(has_turn(all[k].1));
    }
    law_every_package_has_its_turn(wanted);
}

/// A turn that is passed over is one in which a manager has to have nothing.
pub proof fn law_no_turn_is_lost(wanted: Seq<(Seq<char>, Manager)>, at: int, k: int)
    requires
        0 <= at <= k < due_from(wanted, at),
    ensures
        declared_for(wanted, in_turn()[k]) == 0,
        due_from(wanted, at) <= in_turn().len(),
    decreases in_turn().len() - at,
{
    if at < k {
        law_no_turn_is_lost(wanted, at + 1, k);
    } else {
        lemma_due_from(wanted, at);
    }
}

proof fn lemma_due_from(wanted: Seq<(Seq<char>, Manager)>, at: int)
    requires
        0 <= at <= in_turn().len(),
    ensures
        at <= due_from(wanted, at) <= in_turn().len(),
    decreases in_turn().len() - at,
{
    if at < in_turn().len() && declared_for(wanted, in_turn()[at]) == 0 {
        lemma_due_from(wanted, at + 1);
    }
}

/// A name is missing for a manager exactly where it is wanted from that manager and the
/// manager does not list it.
pub proof fn law_missing_is_wanted_and_not_listed(
    wanted: Seq<(Seq<char>, Manager)>,
    m: Manager,
    installed: Seq<Seq<char>>,
    name: Seq<char>,
)
    ensures
        missing_among(wanted, m, installed).contains(name) <==> wanted.contains((name, m))
            && !installed.contains(name),
    decreases wanted.len(),
{
    if wanted.len() > 0 {
        let head = wanted.drop_last();
        law_missing_is_wanted_and_not_listed(head, m, installed, name);
        let all = missing_among(wanted, m, installed);
        let before = missing_among(head, m, installed);
        let (last, by) = wanted.last();
        assert(wanted[wanted.len() - 1] == (last, by));
        if wanted.contains((name, m)) && (last, by) != (name, m) {
            let k = choose|k: int| 0 <= k < wanted.len() && wanted[k] == (name, m);
            assert(head[k] == (name, m));
        }
        if head.contains((name, m)) {
            let k = choose|k: int| 0 <= k < head.len() && head[k] == (name, m);
            assert(wanted[k] == (name, m));
        }
        if before.contains(name) {
            let k = choose|k: int| 0 <= k < before.len() && before[k] == name;
            assert(all[k] == name);
        }
        if by == m && !installed.contains(last) {
            assert(all[all.len() - 1] == last);
            if all.contains(name) && name != last {
                let k = choose|k: int| 0 <= k < all.len() && all[k] == name;
                assert(before[k] == name);
            }
        }
    }
}

/// One wanted package is missing where its manager is asked and does not list it.
pub proof fn law_one_wanted_package(
    name: Seq<char>,
    by: Manager,
    m: Manager,
    installed: Seq<Seq<char>>,
)
    ensures
        missing_among(seq![(name, by)], m, installed) == if by == m && !installed.contains(name) {
            seq![name]
        } else {
            Seq::<Seq<char>>::empty()
        },
        declared_for(seq![(name, by)], m) == if by == m {
            1nat
        } else {
            0nat
        },
{
    let one = seq![(name, by)];
    assert(one.last() == (name, by));
    assert(one.drop_last() =~= Seq::empty());
    assert(missing_among(one.drop_last(), m, installed) =~= Seq::empty());
    assert(missing_among(one.drop_last(), m, installed).push(name) =~= seq![name]);
    assert(declared_for(one.drop_last(), m) == 0);
}

/// What is declared for a manager is what is missing of it where nothing is installed.
pub proof fn law_everything_declared_is_missing_at_first(
    wanted: Seq<(Seq<char>, Manager)>,
    m: Manager,
)
    ensures
        missing_among(wanted, m, seq![]).len() == declared_for(wanted, m),
    decreases wanted.len(),
{
    if wanted.len() > 0 {
        law_everything_declared_is_missing_at_first(wanted.drop_last(), m);
    }
}

/// One line of a manager's listing names what its first word says; for apt it counts only
/// where it ends as that of an installed package does, and the architecture is left out.
pub proof fn law_one_listed_line(m: Manager, line: Seq<char>)
    ensures
        words_of(line).len() == 0 ==> named_among(m, seq![line]).len() == 0,
        words_of(line).len() > 0 && !(m is Apt) ==> named_among(m, seq![line]) == seq![
            words_of(line)[0],
        ],
        m is Apt && !(exists|front: Seq<char>| line == #[trigger] (front + " installed"@))
            ==> named_among(m, seq![line]).len() == 0,
        m is Apt && words_of(line).len() > 0 && (exists|front: Seq<char>|
            line == #[trigger] (front + " installed"@)) ==> named_among(m, seq![line]).len() == 1,
{
    let one = seq![line];
    assert(one.last() == line);
    assert(one.drop_last() =~= Seq::empty());
    let none = named_among(m, one.drop_last());
    assert(none =~= Seq::empty());
    assert(none.push(words_of(line)[0]) =~= seq![words_of(line)[0]]);
    let p = " installed"@;
    if ends(line, p) {
        assert(line =~= line.take(line.len() - p.len()) + p);
    }
    if exists|front: Seq<char>| line == #[trigger] (front + p) {
        let front = choose|front: Seq<char>| line == #[trigger] (front + p);
        assert(line.skip(line.len() - p.len()) =~= p);
    }
}

/// What apt lists with an architecture is named without it.
pub proof fn law_architectures_are_left_out(
    name: Seq<char>,
    arch: Seq<char>,
    front: Seq<char>,
    line: Seq<char>,
)
    requires
        !name.contains(':'),
        line == front + " installed"@,
        words_of(line).len() > 0,
    ensures
        words_of(line)[0] == name + seq![':'] + arch ==> named_on(Manager::Apt, line) == Some(name),
        words_of(line)[0] == name ==> named_on(Manager::Apt, line) == Some(name),
{
    let p = " installed"@;
    assert(line.skip(line.len() - p.len()) =~= p);
    let w = words_of(line)[0];
    assert forall|i: int| 0 <= i < name.len() implies !Sep::Is(':').cuts(#[trigger] name[i]) by {
        if name[i] == ':' {
            assert(name.contains(':'));
        }
    }
    if w == name + seq![':'] + arch {
        assert forall|i: int| 0 <= i < name.len() implies !Sep::Is(':').cuts(#[trigger] w[i]) by {
            assert(w[i] == name[i]);
        }
        assert(w[name.len() as int] == ':');
        lemma_until_is(w, Sep::Is(':'), name.len() as int);
        assert(w.take(name.len() as int) =~= name);
    }
    if w == name {
        lemma_until_is(w, Sep::Is(':'), name.len() as int);
        assert(w.take(name.len() as int) =~= name);
    }
}

/// Every manager that has a turn can be asked what it has and be told to install: one line
/// hands it all the names, and no other line hands it any. Only apt asks for the rights of
/// root, and then for every line.
pub proof fn law_names_are_handed_over_once(
    m: Manager,
    names: Seq<Seq<char>>,
    others: Seq<Seq<char>>,
    root: Escalation,
)
    ensures
        has_turn(m) <==> query_words(m) is Some,
        has_turn(m) <==> install_lines(m, names, root).len() > 0,
        has_turn(m) ==> install_lines(m, names, root).last().1 == names,
        forall|i: int|
            0 <= i < install_lines(m, names, root).len() - 1 ==> (#[trigger] install_lines(
                m,
                names,
                root,
            )[i]).1.len() == 0,
        install_lines(m, names, root).len() == install_lines(m, others, root).len(),
        forall|i: int|
            0 <= i < install_lines(m, names, root).len() ==> (#[trigger] install_lines(
                m,
                names,
                root,
            )[i]).0 == install_lines(m, others, root)[i].0,
        install_lines(m, names, Escalation::Sudo).len() == install_lines(
            m,
            names,
            Escalation::Direct,
        ).len(),
        !(m is Apt) ==> install_lines(m, names, Escalation::Sudo) == install_lines(
            m,
            names,
            Escalation::Direct,
        ),
        m is Apt ==> forall|i: int|
            0 <= i < install_lines(m, names, Escalation::Sudo).len() ==> (#[trigger] install_lines(
                m,
                names,
                Escalation::Sudo,
            )[i]).0 == seq!["sudo"@] + install_lines(m, names, Escalation::Direct)[i].0,
{
    let t = in_turn();
    assert(t[0] == Manager::Apt && t[1] == Manager::Yay && t[2] == Manager::Brew && t[3]
        == Manager::BrewCask && t[4] == Manager::Mise);
}

/// Whether a package is missing does not depend on the packages around it, and what is
/// missing keeps their order.
pub proof fn law_missing_packages_keep_their_order(a: Seq<(Seq<char>, Manager)>, b: Seq<(Seq<char>, Manager)>, m: Manager, installed: Seq<Seq<char>>)
    ensures
        missing_among(a + b, m, installed) == missing_among(a, m, installed) + missing_among(b, m, installed),
    decreases b.len(),
{
    if b.len() == 0 {
        assert(a + b =~= a);
        assert(missing_among(a, m, installed) + missing_among(b, m, installed) =~= missing_among(a, m, installed));
    } else {
        assert((a + b).drop_last() =~= a + b.drop_last());
        law_missing_packages_keep_their_order(a, b.drop_last(), m, installed);
        assert(missing_among(a + b, m, installed) =~= missing_among(a, m, installed) + missing_among(b, m, installed));
    }
}

/// A listing is read line by line.
pub proof fn law_listings_are_read_line_by_line(a: Seq<Seq<char>>, b: Seq<Seq<char>>, m: Manager)
    ensures
        named_among(m, a + b) == named_among(m, a) + named_among(m, b),
    decreases b.len(),
{
    if b.len() == 0 {
        assert(a + b =~= a);
        assert(named_among(m, a) + named_among(m, b) =~= named_among(m, a));
    } else {
        assert((a + b).drop_last() =~= a + b.drop_last());
        law_listings_are_read_line_by_line(a, b.drop_last(), m);
        assert(named_among(m, a + b) =~= named_among(m, a) + named_among(m, b));
    }
}

/// What is declared for a manager adds up.
pub proof fn law_declarations_add_up(a: Seq<(Seq<char>, Manager)>, b: Seq<(Seq<char>, Manager)>, m: Manager)
    ensures
        declared_for(a + b, m) == declared_for(a, m) + declared_for(b, m),
    decreases b.len(),
{
    if b.len() == 0 {
        assert(a + b =~= a);
        assert(declared_for(a, m) + declared_for(b, m) == declared_for(a, m));
    } else {
        assert((a + b).drop_last() =~= a + b.drop_last());
        law_declarations_add_up(a, b.drop_last(), m);
        assert(declared_for(a + b, m) == declared_for(a, m) + declared_for(b, m));
    }
}

/// The missing packages of a manager are those that are wanted from it and that it does not
/// list, whichever manager it is.
pub proof fn law_missing_packages_are_found(
    wanted: &Vec<Installable>,
    m: Manager,
    installed: &Vec<String>,
    r: Vec<String>,
    name: Seq<char>,
)
    requires
        call_ensures(missing, (wanted, m, installed), r),
    ensures
        texts(r@).contains(name) <==> (exists|i: int|
            0 <= i < wanted@.len() && (#[trigger] wanted@[i]).name@ == name && wanted@[i].manager
                == m) && !(exists|i: int|
            0 <= i < installed@.len() && (#[trigger] installed@[i])@ == name),
{
    let all = chosen(wanted@);
    let there = texts(installed@);
    law_missing_is_wanted_and_not_listed(all, m, there, name);
    if all.contains((name, m)) {
        let i = choose|i: int| 0 <= i < all.len() && all[i] == (name, m);
        assert(wanted@[i].name@ == name);
    }
    if exists|i: int|
        0 <= i < wanted@.len() && (#[trigger] wanted@[i]).name@ == name && wanted@[i].manager == m {
        let i = choose|i: int|
            0 <= i < wanted@.len() && (#[trigger] wanted@[i]).name@ == name && wanted@[i].manager
                == m;
        assert(all[i] == (name, m));
    }
    if there.contains(name) {
        let i = choose|i: int| 0 <= i < there.len() && there[i] == name;
        assert(installed@[i]@ == name);
    }
    if exists|i: int| 0 <= i < installed@.len() && (#[trigger] installed@[i])@ == name {
        let i = choose|i: int| 0 <= i < installed@.len() && (#[trigger] installed@[i])@ == name;
        assert(there[i] == name);
    }
}

/// Root needs nothing; anyone else needs sudo, and either no password for it or a terminal
/// to type one on. Which of the two is missing is told.
pub proof fn law_how_root_is_had(
    root: bool,
    sudo: bool,
    passwordless: bool,
    terminal: bool,
    r: Result<Escalation, EscalationError>,
)
    requires
        call_ensures(Escalation::detect, (root, sudo, passwordless, terminal), r),
    ensures
        r matches Ok(Escalation::Direct) <==> root,
        r matches Ok(Escalation::Sudo) <==> !root && sudo && (passwordless || terminal),
        r matches Err(EscalationError::NoSudo) <==> !root && !sudo,
        r matches Err(EscalationError::NoTerminal) <==> !root && sudo && !passwordless && !terminal,
{
}

/// Only apt needs root, and only through sudo is anything put before a command.
pub proof fn law_who_needs_root(m: Manager, r: bool, how: Escalation, p: Option<&'static str>)
    requires
        call_ensures(needs_root, (m,), r),
        call_ensures(Escalation::prefix, (how,), p),
    ensures
        r <==> m is Apt,
        p is Some <==> how is Sudo,
        how.as_root((seq![], seq![])).0.len() > 0 <==> how is Sudo,
{
}

/// What a manager lists is read from its output where the listing succeeded; where it did
/// not, that is an error and no empty list. A manager that cannot be asked has nothing.
pub proof fn law_failed_listings_are_errors(
    m: Manager,
    success: bool,
    stdout: &str,
    stderr: &str,
    r: Result<Vec<String>, String>,
)
    requires
        call_ensures(list_installed, (m, success, stdout, stderr), r),
    ensures
        r is Err <==> has_turn(m) && !success,
        r matches Ok(v) ==> (has_turn(m) ==> texts(v@) == named_among(m, lines_of(stdout@))) && (
        !has_turn(m) ==> v@.len() == 0),
{
    law_names_are_handed_over_once(m, seq![], seq![], Escalation::Direct);
}

/// The user whose number is zero is root, whatever white space is told with it.
pub proof fn law_who_is_root(id: &str, r: bool, left: Seq<char>, told: Seq<char>, right: Seq<char>)
    requires
        call_ensures(is_root, (id,), r),
        id@ == left + told + right,
        told.len() > 0,
        !is_space(told[0]),
        !is_space(told.last()),
        forall|i: int| 0 <= i < left.len() ==> is_space(#[trigger] left[i]),
        forall|i: int| 0 <= i < right.len() ==> is_space(#[trigger] right[i]),
    ensures
        r <==> told == seq!['0'],
{
    assert forall|i: int| 0 <= i < left.len() implies Sep::Space.cuts(#[trigger] left[i]) by {}
    assert forall|i: int| 0 <= i < right.len() implies Sep::Space.cuts(#[trigger] right[i]) by {}
    law_trimmed_at_both_ends(left, told, right, Sep::Space);
    reveal_strlit("0");
    assert("0"@ =~= seq!['0']);
}

/// Something is installed where something is missing, and never in a dry run.
pub proof fn law_when_something_is_installed(missing: nat, dry_run: bool)
    ensures
        installs_now(missing, dry_run) <==> missing > 0 && !dry_run,
        !installs_now(missing, true),
        !installs_now(0, dry_run),
{
}

/// Whether a manager is told to install, with so many of its packages missing.
pub open spec fn installs_now(missing: nat, dry_run: bool) -> bool {
    missing > 0 && !dry_run
}

/// What is told at the end is how many packages were missing; that nothing was is told in
/// other words only where something could have been installed.
pub proof fn law_what_is_told_of_a_sync(a: nat, b: nat, dry_run: bool)
    ensures
        sync_words(a, dry_run) == sync_words(b, dry_run) && (dry_run || (a > 0 && b > 0)) ==> a == b,
{
    reveal_strlit(" package(s) would be installed (--dry-run)");
    reveal_strlit(" package(s) installed");
    law_decimals_stand_for_their_number(a);
    law_decimals_stand_for_their_number(b);
    let t = if dry_run {
        " package(s) would be installed (--dry-run)"@
    } else {
        " package(s) installed"@
    };
    if sync_words(a, dry_run) == sync_words(b, dry_run) && (dry_run || (a > 0 && b > 0)) {
        let x = decimal(a) + t;
        let y = decimal(b) + t;
        assert(x == y);
        assert(x.take(decimal(a).len() as int) =~= decimal(a));
        assert(y.take(decimal(b).len() as int) =~= decimal(b));
        assert(decimal(a).len() == decimal(b).len());
    }
}

/// How every manager is asked what it has and is told to install.
pub proof fn law_how_managers_are_called(names: Seq<Seq<char>>)
    ensures
        query_words(Manager::Brew) == Some(seq!["brew"@, "list"@, "--formula"@, "-1"@]),
        query_words(Manager::BrewCask) == Some(seq!["brew"@, "list"@, "--cask"@, "-1"@]),
        query_words(Manager::Mise) == Some(seq!["mise"@, "ls"@, "--installed"@, "--no-header"@]),
        query_words(Manager::Yay) == Some(seq!["pacman"@, "-Qq"@]),
        query_words(Manager::Apt) == Some(
            seq!["dpkg-query"@, "-W"@, "-f=${binary:Package} ${db:Status-Status}\n"@],
        ),
        install_lines(Manager::Brew, names, Escalation::Direct) == seq![
            (seq!["brew"@, "install"@], names),
        ],
        install_lines(Manager::BrewCask, names, Escalation::Direct) == seq![
            (seq!["brew"@, "install"@, "--cask"@], names),
        ],
        install_lines(Manager::Mise, names, Escalation::Direct) == seq![
            (seq!["mise"@, "use"@, "-g"@], names),
        ],
        install_lines(Manager::Yay, names, Escalation::Direct) == seq![
            (seq!["yay"@, "-S"@, "--noconfirm"@], names),
        ],
        install_lines(Manager::Apt, names, Escalation::Direct) == seq![
            (seq!["apt-get"@, "update"@], Seq::<Seq<char>>::empty()),
            (seq!["apt-get"@, "install"@, "-y"@], names),
        ],
{
    assert(seq!["brew"@] + seq!["install"@] =~= seq!["brew"@, "install"@]);
    assert(seq!["brew"@] + seq!["install"@, "--cask"@] =~= seq!["brew"@, "install"@, "--cask"@]);
    assert(seq!["mise"@] + seq!["use"@, "-g"@] =~= seq!["mise"@, "use"@, "-g"@]);
    assert(seq!["yay"@] + seq!["-S"@, "--noconfirm"@] =~= seq!["yay"@, "-S"@, "--noconfirm"@]);
    assert(seq!["apt-get"@] + seq!["update"@] =~= seq!["apt-get"@, "update"@]);
    assert(seq!["apt-get"@] + seq!["install"@, "-y"@] =~= seq!["apt-get"@, "install"@, "-y"@]);
}

/// The next manager that has its turn is the first one left that something is declared for.
pub proof fn law_the_next_turn(wanted: Seq<(Seq<char>, Manager)>, at: int)
    requires
        0 <= at <= in_turn().len(),
    ensures
        at <= due_from(wanted, at) <= in_turn().len(),
        due_from(wanted, at) < in_turn().len() ==> declared_for(
            wanted,
            in_turn()[due_from(wanted, at)],
        ) > 0,
        forall|k: int|
            at <= k < due_from(wanted, at) ==> declared_for(wanted, #[trigger] in_turn()[k]) == 0,
    decreases in_turn().len() - at,
{
    if at < in_turn().len() && declared_for(wanted, in_turn()[at]) == 0 {
        law_the_next_turn(wanted, at + 1);
    }
}

} // verus!
