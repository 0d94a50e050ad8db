//! Whether what is declared is there on a machine, and how two machines differ.
use crate::manifest::{push_all, Manifest};
use crate::modes::{mode_complaint, mode_complaint_of, Fact};
use crate::packages::{
    applicable_among, lemma_put_each, named, put_each, put_names, Kind, Manager, Package, Packages,
};
use crate::path::{path_join, under};
use crate::provider::text_listed;
use crate::table::{keys_of, lemma_lookup, Table};
use crate::text::{
    cat, chars_of, decimal, index_of, join, joined, law_starts_and_ends, lemma_index_from,
    lemma_texts_empty, lemma_texts_push, lowercase, lowercased, occurs, replace, replaced, starts, starts_with, texts, to_decimal,
};
use vstd::prelude::*;

verus! {

/// The names by which a package can be found on a machine, where it can be found at all.
/// Editors install extensions, libraries have no executable, applications are not on the
/// path, and what `mise` installs is there only in some shells. A font is found by the
/// names of its families alone.
pub open spec fn candidates_of(name: Seq<char>, p: Package) -> Option<(Kind, Seq<Seq<char>>)> {
    match p.sort() {
        Kind::Extension | Kind::Library => None,
        Kind::Font => if p.provides@.len() == 0 {
            None
        } else {
            Some((Kind::Font, texts(p.provides@)))
        },
        Kind::Command => if p.installer() is BrewCask || p.installer() is Mise {
            None
        } else if p.provides@.len() == 0 {
            Some((Kind::Command, seq![name]))
        } else {
            Some((Kind::Command, texts(p.provides@)))
        },
    }
}

/// Names of one sort.
pub open spec fn of_kind(v: Seq<(Kind, String)>, kind: Kind, names: Seq<Seq<char>>) -> bool {
    v.len() == names.len() && forall|i: int|
        0 <= i < v.len() ==> (#[trigger] v[i]).0 == kind && v[i].1@ == names[i]
}

fn all_of_kind(kind: Kind, names: &Vec<String>) -> (r: Vec<(Kind, String)>)
    ensures
        of_kind(r@, kind, texts(names@)),
{
    let mut out: Vec<(Kind, String)> = Vec::new();
    for i in 0..names.len()
        invariant
            out@.len() == i,
            forall|k: int| 0 <= k < i ==> (#[trigger] out@[k]).0 == kind && out@[k].1@ == names@[k]@,
    {
        out.push((kind, names[i].clone()));
    }
    out
}

/// The names by which a package can be found on a machine, where it can be found at all.
pub fn verifiable(name: &str, pkg: &Package) -> (r: Option<Vec<(Kind, String)>>)
    ensures
        match candidates_of(name@, *pkg) {
            Some((kind, names)) => r matches Some(v) && of_kind(v@, kind, names),
            None => r is None,
        },
{
    match pkg.kind_of() {
        Kind::Extension | Kind::Library => None,
        Kind::Font => if pkg.provides.len() == 0 {
            None
        } else {
            Some(all_of_kind(Kind::Font, &pkg.provides))
        },
        Kind::Command => {
            let manager = pkg.manager_of();
            if manager == Manager::BrewCask || manager == Manager::Mise {
                None
            } else if pkg.provides.len() == 0 {
                let mut own: Vec<(Kind, String)> = Vec::new();
                own.push((Kind::Command, name.to_owned()));
                Some(own)
            } else {
                Some(all_of_kind(Kind::Command, &pkg.provides))
            }
        },
    }
}

/// What was found on a machine.
pub struct Machine {
    /// The commands that were looked for and are on the path.
    pub commands: Vec<String>,
    /// The names of the files in the directories of fonts.
    pub fonts: Vec<String>,
}

/// Whether a mode lets anyone execute a file.
pub fn is_executable(mode: u32) -> (r: bool)
    ensures
        r == (mode & 0o111 != 0),
{
    mode & 0o111 != 0
}

/// A font's name as it is looked for: without spaces, in lower case.
pub open spec fn font_key(s: Seq<char>) -> Seq<char> {
    lowercased(replaced(s, seq![' '], Seq::empty()))
}

/// Whether a file holds a font of a family. The name of the file starts with that of the
/// family, spaces aside.
pub open spec fn holds_font(file: Seq<char>, family: Seq<char>) -> bool {
    starts(font_key(file), font_key(family))
}

fn key_of(s: &str) -> (r: String)
    ensures
        r@ == font_key(s@),
{
    proof {
        reveal_strlit(" ");
        reveal_strlit("");
        assert(" "@ =~= seq![' ']);
        assert(""@ =~= Seq::<char>::empty());
    }
    let c = chars_of(s);
    let close = replace(c.as_slice(), " ", "");
    lowercase(close.as_str())
}

/// Whether a font of a family is among the files.
pub fn font_installed(family: &str, files: &Vec<String>) -> (r: bool)
    ensures
        r == exists|i: int| 0 <= i < files@.len() && holds_font((#[trigger] files@[i])@, family@),
{
    let needle = key_of(family);
    for i in 0..files.len()
        invariant
            needle@ == font_key(family@),
            forall|k: int| 0 <= k < i ==> !holds_font((#[trigger] files@[k])@, family@),
    {
        let key = key_of(files[i].as_str());
        let c = chars_of(key.as_str());
        if starts_with(c.as_slice(), needle.as_str()) {
            assert(holds_font(files@[i as int]@, family@));
            return true;
        }
    }
    false
}

/// Whether a name is found on a machine.
pub open spec fn found_on(machine: Machine, kind: Kind, name: Seq<char>) -> bool {
    match kind {
        Kind::Font => exists|i: int|
            0 <= i < machine.fonts@.len() && holds_font((#[trigger] machine.fonts@[i])@, name),
        _ => texts(machine.commands@).contains(name),
    }
}

/// Whether a name is found on a machine.
pub fn resolves(machine: &Machine, kind: Kind, name: &str) -> (r: bool)
    ensures
        r == found_on(*machine, kind, name@),
{
    match kind {
        Kind::Font => font_installed(name, &machine.fonts),
        _ => text_listed(&machine.commands, name),
    }
}

/// The directories in which fonts are looked for.
pub fn font_dirs(home: &str, macos: bool) -> (r: Vec<String>)
    ensures
        texts(r@) == if macos {
            seq![under(home@, "Library/Fonts"@), "/Library/Fonts"@, "/System/Library/Fonts"@]
        } else {
            seq![
                under(home@, ".local/share/fonts"@),
                under(home@, ".fonts"@),
                "/usr/share/fonts"@,
                "/usr/local/share/fonts"@,
            ]
        },
{
    broadcast use lemma_texts_push;

    proof {
        lemma_texts_empty();
    }
    let mut out: Vec<String> = Vec::new();
    if macos {
        out.push(path_join(home, "Library/Fonts"));
        out.push("/Library/Fonts".to_owned());
        out.push("/System/Library/Fonts".to_owned());
        assert(texts(out@) =~= seq![
            under(home@, "Library/Fonts"@),
            "/Library/Fonts"@,
            "/System/Library/Fonts"@,
        ]);
    } else {
        out.push(path_join(home, ".local/share/fonts"));
        out.push(path_join(home, ".fonts"));
        out.push("/usr/share/fonts".to_owned());
        out.push("/usr/local/share/fonts".to_owned());
        assert(texts(out@) =~= seq![
            under(home@, ".local/share/fonts"@),
            under(home@, ".fonts"@),
            "/usr/share/fonts"@,
            "/usr/local/share/fonts"@,
        ]);
    }
    out
}

/// What is known of a package on a machine.
#[derive(Debug, Clone, Copy, PartialEq, Eq, Structural)]
pub enum Presence {
    Present,
    Missing,
    /// It cannot be told.
    Unverifiable,
}

/// Whether a package is there: one of its names is found.
pub open spec fn presence_of(machine: Machine, name: Seq<char>, p: Package) -> Presence {
    match candidates_of(name, p) {
        None => Presence::Unverifiable,
        Some((kind, names)) => if exists|i: int|
            0 <= i < names.len() && found_on(machine, kind, #[trigger] names[i]) {
            Presence::Present
        } else {
            Presence::Missing
        },
    }
}

/// Tells whether a package is there.
pub fn presence(machine: &Machine, name: &str, pkg: &Package) -> (r: Presence)
    ensures
        r == presence_of(*machine, name@, *pkg),
{
    match verifiable(name, pkg) {
        None => Presence::Unverifiable,
        Some(v) => {
            let ghost names = candidates_of(name@, *pkg).unwrap().1;
            let ghost kind = candidates_of(name@, *pkg).unwrap().0;
            for i in 0..v.len()
                invariant
                    of_kind(v@, kind, names),
                    candidates_of(name@, *pkg) == Some((kind, names)),
                    forall|k: int| 0 <= k < i ==> !found_on(*machine, kind, #[trigger] names[k]),
            {
                assert(v@[i as int].0 == kind && v@[i as int].1@ == names[i as int]);
                if resolves(machine, v[i].0, v[i].1.as_str()) {
                    assert(found_on(*machine, kind, names[i as int]));
                    return Presence::Present;
                }
            }
            Presence::Missing
        },
    }
}

/// The names of the packages that are present, missing or cannot be told.
pub open spec fn with_presence(
    machine: Machine,
    packages: Seq<(Seq<char>, Package)>,
    presence: Presence,
) -> Seq<Seq<char>>
    decreases packages.len(),
{
    if packages.len() == 0 {
        seq![]
    } else {
        let before = with_presence(machine, packages.drop_last(), presence);
        let (name, p) = packages.last();
        if presence_of(machine, name, p) == presence {
            before.push(name)
        } else {
            before
        }
    }
}

/// What a machine has of what is declared.
pub struct Report {
    pub os: String,
    pub profiles: Vec<String>,
    pub present: Vec<String>,
    pub missing: Vec<String>,
    pub unverifiable: Vec<String>,
}

/// Tells what a machine has of what is declared for it.
pub fn verify(packages: &Packages, machine: &Machine, os: &str, profiles: &Vec<String>) -> (r:
    Report)
    ensures
        ({
            let all = applicable_among(packages.packages@, os@, texts(profiles@));
            &&& r.os@ == os@
            &&& texts(r.profiles@) == texts(profiles@)
            &&& texts(r.present@) == with_presence(*machine, all, Presence::Present)
            &&& texts(r.missing@) == with_presence(*machine, all, Presence::Missing)
            &&& texts(r.unverifiable@) == with_presence(*machine, all, Presence::Unverifiable)
        }),
{
    let list = packages.applicable(os, profiles);
    let ghost all = applicable_among(packages.packages@, os@, texts(profiles@));
    let mut present: Vec<String> = Vec::new();
    let mut missing: Vec<String> = Vec::new();
    let mut unverifiable: Vec<String> = Vec::new();
    proof {
        lemma_texts_empty();
        assert(all.take(0) =~= Seq::empty());
    }
    for i in 0..list.len()
        invariant
            named(list@) == all,
            texts(present@) == with_presence(*machine, all.take(i as int), Presence::Present),
            texts(missing@) == with_presence(*machine, all.take(i as int), Presence::Missing),
            texts(unverifiable@) == with_presence(
                *machine,
                all.take(i as int),
                Presence::Unverifiable,
            ),
    {
        broadcast use lemma_texts_push;

        let name = list[i].0.clone();
        let pkg = list[i].1;
        proof {
            let t = all.take(i + 1);
            assert(t.drop_last() =~= all.take(i as int));
            assert(t.last() == (name@, *pkg));
        }
        match presence(machine, name.as_str(), pkg) {
            Presence::Present => present.push(name),
            Presence::Missing => missing.push(name),
            Presence::Unverifiable => unverifiable.push(name),
        }
    }
    assert(all.take(all.len() as int) =~= all);
    let mut kept: Vec<String> = Vec::new();
    push_all(&mut kept, profiles);
    assert(texts(kept@) =~= texts(profiles@));
    Report { os: os.to_owned(), profiles: kept, present, missing, unverifiable }
}

impl Report {
    /// Why a machine fails, given how many declared modes are complained of.
    pub open spec fn failure(self, complaints: nat) -> Option<Seq<char>> {
        if self.missing@.len() > 0 {
            Some(
                decimal(self.missing@.len()) + " declared package(s) not found on this machine"@,
            )
        } else if complaints > 0 {
            Some(decimal(complaints) + " path(s) without their declared mode"@)
        } else {
            None
        }
    }

    /// Whether a machine passes: it fails exactly where a package is missing, or a declared
    /// mode is complained of. What cannot be told fails nothing.
    pub fn verdict(&self, complaints: usize) -> (r: Result<(), String>)
        ensures
            match r {
                Ok(_) => self.failure(complaints as nat) is None,
                Err(s) => self.failure(complaints as nat) == Some(s@),
            },
            r is Ok <==> self.missing@.len() == 0 && complaints == 0,
    {
        if self.missing.len() > 0 {
            let n = to_decimal(self.missing.len());
            return Err(cat(n.as_str(), " declared package(s) not found on this machine"));
        }
        if complaints > 0 {
            let n = to_decimal(complaints);
            return Err(cat(n.as_str(), " path(s) without their declared mode"));
        }
        Ok(())
    }
}

/// What is said of the first `n` declared modes. `facts` tells what was found at each of the
/// paths they are declared for.
pub open spec fn complaints_of(m: Manifest, facts: Seq<Fact>, n: int) -> Seq<Seq<char>>
    decreases n,
{
    if n <= 0 {
        seq![]
    } else {
        let before = complaints_of(m, facts, n - 1);
        let rel = m.modes@[n - 1].0;
        match m.mode_at(rel) {
            None => before,
            Some(declared) => match mode_complaint_of(rel, declared, facts[n - 1]) {
                None => before,
                Some(said) => before.push(said),
            },
        }
    }
}

/// What is said of the declared modes.
pub fn mode_complaints(m: &Manifest, facts: &Vec<Fact>) -> (r: Vec<String>)
    requires
        facts@.len() == m.modes@.len(),
    ensures
        texts(r@) == complaints_of(*m, facts@, facts@.len() as int),
{
    let mut out: Vec<String> = Vec::new();
    proof {
        lemma_texts_empty();
    }
    for i in 0..facts.len()
        invariant
            facts@.len() == m.modes@.len(),
            texts(out@) == complaints_of(*m, facts@, i as int),
    {
        broadcast use lemma_texts_push;

        let rel = m.modes.key(i).as_str();
        match m.declared_mode(rel) {
            None => {},
            Some(declared) => {
                match mode_complaint(rel, declared, &facts[i]) {
                    None => {},
                    Some(said) => {
                        out.push(said);
                    },
                }
            },
        }
    }
    out
}

/// The names that were looked for, as they are shown.
pub open spec fn looked_for(name: Seq<char>, p: Package) -> Seq<char> {
    match candidates_of(name, p) {
        None => Seq::empty(),
        Some((_, names)) => joined(names, " / "@),
    }
}

/// The names that were looked for, as they are shown.
pub fn shown(name: &str, pkg: &Package) -> (r: String)
    ensures
        r@ == looked_for(name@, *pkg),
{
    match verifiable(name, pkg) {
        None => {
            let none = String::new();
            assert(none@ =~= Seq::empty());
            none
        },
        Some(v) => {
            let ghost names = candidates_of(name@, *pkg).unwrap().1;
            let ghost kind = candidates_of(name@, *pkg).unwrap().0;
            let mut out: Vec<String> = Vec::new();
            proof {
                lemma_texts_empty();
            }
            for i in 0..v.len()
                invariant
                    of_kind(v@, kind, names),
                    texts(out@) == names.take(i as int),
            {
                let s = v[i].1.clone();
                proof {
                    lemma_texts_push(out@, s);
                    assert(v@[i as int].1@ == names[i as int]);
                    assert(names.take(i + 1) =~= names.take(i as int).push(names[i as int]));
                }
                out.push(s);
            }
            assert(names.take(names.len() as int) =~= names);
            join(&out, " / ")
        },
    }
}

/// The texts of a list in order, each once.
pub open spec fn distinct(names: Seq<Seq<char>>) -> Seq<Seq<char>> {
    keys_of(put_each(Seq::empty(), names, true))
}

/// The texts of a list that another lacks, or those that both have.
pub open spec fn shared(
    a: Seq<Seq<char>>,
    b: Seq<Seq<char>>,
    both: bool,
) -> Seq<Seq<char>>
    decreases a.len(),
{
    if a.len() == 0 {
        seq![]
    } else {
        let before = shared(a.drop_last(), b, both);
        if b.contains(a.last()) == both {
            before.push(a.last())
        } else {
            before
        }
    }
}

fn distinct_names(names: &Vec<String>) -> (r: Vec<String>)
    ensures
        texts(r@) == distinct(texts(names@)),
{
    let mut t: Table<bool> = Table::new();
    put_names(&mut t, names, true);
    t.keys()
}

fn share(a: &Vec<String>, b: &Vec<String>, both: bool) -> (r: Vec<String>)
    ensures
        texts(r@) == shared(texts(a@), texts(b@), both),
{
    let ghost all = texts(a@);
    let mut out: Vec<String> = Vec::new();
    proof {
        lemma_texts_empty();
        assert(all.take(0) =~= Seq::empty());
    }
    for i in 0..a.len()
        invariant
            all == texts(a@),
            texts(out@) == shared(all.take(i as int), texts(b@), both),
    {
        broadcast use lemma_texts_push;

        proof {
            let t = all.take(i + 1);
            assert(t.drop_last() =~= all.take(i as int));
            assert(t.last() == a@[i as int]@);
        }
        if text_listed(b, a[i].as_str()) == both {
            out.push(a[i].clone());
        }
    }
    assert(all.take(all.len() as int) =~= all);
    out
}

/// How two machines differ.
pub struct Comparison {
    /// What only the first has.
    pub only_a: Vec<String>,
    /// What only the second has.
    pub only_b: Vec<String>,
    /// How much both have.
    pub both: usize,
}

/// Tells how two machines differ in what is present on them.
pub fn compare(a: &Report, b: &Report) -> (r: Comparison)
    ensures
        ({
            let (x, y) = (texts(a.present@), texts(b.present@));
            &&& texts(r.only_a@) == shared(distinct(x), y, false)
            &&& texts(r.only_b@) == shared(distinct(y), x, false)
            &&& r.both == shared(distinct(x), y, true).len()
        }),
{
    let x = distinct_names(&a.present);
    let y = distinct_names(&b.present);
    let both = share(&x, &b.present, true);
    assert(texts(both@).len() == both@.len());
    Comparison {
        only_a: share(&x, &b.present, false),
        only_b: share(&y, &a.present, false),
        both: both.len(),
    }
}

proof fn lemma_distinct(names: Seq<Seq<char>>, s: Seq<char>)
    ensures
        distinct(names).contains(s) <==> names.contains(s),
{
    let t = put_each(Seq::empty(), names, true);
    lemma_put_each(Seq::empty(), names, true, s);
    lemma_lookup(t, s);
    if distinct(names).contains(s) {
        let i = choose|i: int| 0 <= i < distinct(names).len() && distinct(names)[i] == s;
        assert(t[i].0 == s);
    }
    if names.contains(s) {
        let i = choose|i: int| 0 <= i < t.len() && (#[trigger] t[i]).0 == s;
        assert(distinct(names)[i] == s);
    }
}

/// A text is among those that one list has and another lacks, or both have, exactly so.
pub proof fn law_shared(a: Seq<Seq<char>>, b: Seq<Seq<char>>, both: bool, s: Seq<char>)
    ensures
        shared(a, b, both).contains(s) <==> a.contains(s) && b.contains(s) == both,
    decreases a.len(),
{
    if a.len() > 0 {
        let head = a.drop_last();
        law_shared(head, b, both, s);
        let p = shared(head, b, both);
        let q = shared(a, b, both);
        assert(a[a.len() - 1] == a.last());
        if p.contains(s) {
            let k = choose|k: int| 0 <= k < p.len() && p[k] == s;
            assert(q[k] == s);
        }
        if head.contains(s) {
            let k = choose|k: int| 0 <= k < head.len() && head[k] == s;
            assert(a[k] == s);
        }
        if a.contains(s) && s != a.last() {
            let k = choose|k: int| 0 <= k < a.len() && a[k] == s;
            assert(head[k] == s);
        }
        if b.contains(a.last()) == both {
            assert(q[q.len() - 1] == a.last());
            if q.contains(s) && s != a.last() {
                let k = choose|k: int| 0 <= k < q.len() && q[k] == s;
                assert(p[k] == s);
            }
        }
    }
}

/// Two machines agree, with nothing only on one of them, exactly where the same things are
/// present on both.
pub proof fn law_agreement(x: Seq<Seq<char>>, y: Seq<Seq<char>>)
    ensures
        shared(distinct(x), y, false).len() == 0 && shared(distinct(y), x, false).len() == 0
            <==> forall|s: Seq<char>| x.contains(s) <==> y.contains(s),
{
    let only_x = shared(distinct(x), y, false);
    let only_y = shared(distinct(y), x, false);
    if only_x.len() == 0 && only_y.len() == 0 {
        assert forall|s: Seq<char>| x.contains(s) <==> y.contains(s) by {
            lemma_distinct(x, s);
            lemma_distinct(y, s);
            law_shared(distinct(x), y, false, s);
            law_shared(distinct(y), x, false, s);
        }
    }
    if forall|s: Seq<char>| x.contains(s) <==> y.contains(s) {
        if only_x.len() > 0 {
            let s = only_x[0];
            assert(only_x.contains(s));
            lemma_distinct(x, s);
            law_shared(distinct(x), y, false, s);
        }
        if only_y.len() > 0 {
            let s = only_y[0];
            assert(only_y.contains(s));
            lemma_distinct(y, s);
            law_shared(distinct(y), x, false, s);
        }
    }
}

/// Every package is told of once: as present, as missing, or as one that cannot be told.
pub proof fn law_every_package_is_told_of(machine: Machine, packages: Seq<(Seq<char>, Package)>)
    ensures
        with_presence(machine, packages, Presence::Present).len() + with_presence(
            machine,
            packages,
            Presence::Missing,
        ).len() + with_presence(machine, packages, Presence::Unverifiable).len() == packages.len(),
    decreases packages.len(),
{
    if packages.len() > 0 {
        law_every_package_is_told_of(machine, packages.drop_last());
    }
}

/// A command is there where one of the names that it is called by is on the path, a font
/// where a file of one of its families is; the own name of a command counts where it tells
/// no other. Nothing can be told of extensions and libraries, of commands from casks or mise,
/// and of fonts that tell no family.
pub proof fn law_what_makes_a_package_present(machine: Machine, name: Seq<char>, p: Package)
    ensures
        presence_of(machine, name, p) is Unverifiable <==> p.sort() is Extension || p.sort()
            is Library || (p.sort() is Font && p.provides@.len() == 0) || (p.sort() is Command && (
        p.installer() is BrewCask || p.installer() is Mise)),
        p.sort() is Font && p.provides@.len() > 0 ==> (presence_of(machine, name, p) is Present
            <==> exists|i: int, j: int|
            0 <= i < p.provides@.len() && 0 <= j < machine.fonts@.len() && holds_font(
                (#[trigger] machine.fonts@[j])@,
                (#[trigger] p.provides@[i])@,
            )),
        p.sort() is Command && !(presence_of(machine, name, p) is Unverifiable) && p.provides@.len()
            == 0 ==> (presence_of(machine, name, p) is Present <==> exists|j: int|
            0 <= j < machine.commands@.len() && (#[trigger] machine.commands@[j])@ == name),
        p.sort() is Command && !(presence_of(machine, name, p) is Unverifiable) && p.provides@.len()
            > 0 ==> (presence_of(machine, name, p) is Present <==> exists|i: int, j: int|
            0 <= i < p.provides@.len() && 0 <= j < machine.commands@.len() && (
            #[trigger] machine.commands@[j])@ == (#[trigger] p.provides@[i])@),
{
    if let Some((kind, names)) = candidates_of(name, p) {
        let cs = texts(machine.commands@);
        if exists|i: int| 0 <= i < names.len() && found_on(machine, kind, #[trigger] names[i]) {
            let i = choose|i: int|
                0 <= i < names.len() && found_on(machine, kind, #[trigger] names[i]);
            if kind is Font {
                let j = choose|j: int|
                    0 <= j < machine.fonts@.len() && holds_font(
                        (#[trigger] machine.fonts@[j])@,
                        names[i],
                    );
                assert(holds_font(machine.fonts@[j]@, p.provides@[i]@));
            } else {
                let j = choose|j: int| 0 <= j < cs.len() && cs[j] == names[i];
                assert(machine.commands@[j]@ == names[i]);
                if p.provides@.len() > 0 {
                    assert(p.provides@[i]@ == names[i]);
                }
            }
        }
        if p.sort() is Font && exists|i: int, j: int|
            0 <= i < p.provides@.len() && 0 <= j < machine.fonts@.len() && holds_font(
                (#[trigger] machine.fonts@[j])@,
                (#[trigger] p.provides@[i])@,
            ) {
            let (i, j) = choose|i: int, j: int|
                0 <= i < p.provides@.len() && 0 <= j < machine.fonts@.len() && holds_font(
                    (#[trigger] machine.fonts@[j])@,
                    (#[trigger] p.provides@[i])@,
                );
            assert(holds_font(machine.fonts@[j]@, names[i]));
            assert(found_on(machine, kind, names[i]));
        }
        if p.sort() is Command && p.provides@.len() == 0 && exists|j: int|
            0 <= j < machine.commands@.len() && (#[trigger] machine.commands@[j])@ == name {
            let j = choose|j: int|
                0 <= j < machine.commands@.len() && (#[trigger] machine.commands@[j])@ == name;
            assert(cs[j] == name);
            assert(found_on(machine, kind, names[0]));
        }
        if p.sort() is Command && p.provides@.len() > 0 && exists|i: int, j: int|
            0 <= i < p.provides@.len() && 0 <= j < machine.commands@.len() && (
            #[trigger] machine.commands@[j])@ == (#[trigger] p.provides@[i])@ {
            let (i, j) = choose|i: int, j: int|
                0 <= i < p.provides@.len() && 0 <= j < machine.commands@.len() && (
                #[trigger] machine.commands@[j])@ == (#[trigger] p.provides@[i])@;
            assert(cs[j] == names[i]);
            assert(found_on(machine, kind, names[i]));
        }
    }
}

/// Every package is told under what is known of it, and only there.
pub proof fn law_one_package_is_told_of(machine: Machine, name: Seq<char>, p: Package)
    ensures
        with_presence(machine, seq![(name, p)], Presence::Present) == match presence_of(
            machine,
            name,
            p,
        ) {
            Presence::Present => seq![name],
            _ => Seq::<Seq<char>>::empty(),
        },
        with_presence(machine, seq![(name, p)], Presence::Missing) == match presence_of(
            machine,
            name,
            p,
        ) {
            Presence::Missing => seq![name],
            _ => Seq::<Seq<char>>::empty(),
        },
        with_presence(machine, seq![(name, p)], Presence::Unverifiable) == match presence_of(
            machine,
            name,
            p,
        ) {
            Presence::Unverifiable => seq![name],
            _ => Seq::<Seq<char>>::empty(),
        },
{
    let one = seq![(name, p)];
    assert(one.last() == (name, p));
    assert(one.drop_last() =~= Seq::empty());
    assert(with_presence(machine, one.drop_last(), Presence::Present) =~= Seq::empty());
    assert(with_presence(machine, one.drop_last(), Presence::Missing) =~= Seq::empty());
    assert(with_presence(machine, one.drop_last(), Presence::Unverifiable) =~= Seq::empty());
    assert(Seq::<Seq<char>>::empty().push(name) =~= seq![name]);
}

/// One name is shared where the others hold it.
pub proof fn law_one_name_is_shared(name: Seq<char>, b: Seq<Seq<char>>, both: bool)
    ensures
        shared(seq![name], b, both) == if b.contains(name) == both {
            seq![name]
        } else {
            Seq::<Seq<char>>::empty()
        },
{
    let one = seq![name];
    assert(one.last() == name);
    assert(one.drop_last() =~= Seq::empty());
    assert(shared(one.drop_last(), b, both) =~= Seq::empty());
    assert(Seq::<Seq<char>>::empty().push(name) =~= seq![name]);
}

/// A machine passes exactly where nothing is missing and no mode is wrong, and what is
/// missing is told first.
pub proof fn law_when_a_machine_passes(r: Report, complaints: nat)
    ensures
        r.failure(complaints) is None <==> r.missing@.len() == 0 && complaints == 0,
        r.missing@.len() > 0 ==> r.failure(complaints) == r.failure(0),
{
}

/// There is a complaint for every declared mode that a path was found without or could not
/// be told of, and for no other.
pub proof fn law_complaints_are_wrong_modes(m: Manifest, facts: Seq<Fact>, n: int)
    requires
        0 <= n <= m.modes@.len(),
        facts.len() == m.modes@.len(),
    ensures
        complaints_of(m, facts, n).len() == 0 <==> forall|i: int|
            0 <= i < n ==> !complained(m, #[trigger] facts[i], i),
        n > 0 ==> complaints_of(m, facts, n).len() == complaints_of(m, facts, n - 1).len() + if complained(
            m,
            facts[n - 1],
            n - 1,
        ) {
            1int
        } else {
            0int
        },
        n > 0 ==> complaints_of(m, facts, n - 1) == complaints_of(m, facts, n).take(
            complaints_of(m, facts, n - 1).len() as int,
        ),
    decreases n,
{
    if n > 0 {
        law_complaints_are_wrong_modes(m, facts, n - 1);
        assert(complaints_of(m, facts, n - 1) =~= complaints_of(m, facts, n).take(
            complaints_of(m, facts, n - 1).len() as int,
        ));
    }
}

/// Whether what was found of a path gives rise to a complaint.
pub open spec fn complained(m: Manifest, fact: Fact, i: int) -> bool {
    m.mode_at(m.modes@[i].0) matches Some(declared) && match fact {
        Fact::Absent => false,
        Fact::Unreadable => true,
        Fact::File(mode) | Fact::Directory(mode) => mode & 0o777 != declared,
    }
}

/// Spaces in the name of a font or of its file do not count.
pub proof fn law_spaces_in_fonts_do_not_count(a: Seq<char>, b: Seq<char>)
    ensures
        font_key(a + seq![' '] + b) == font_key(a + b),
        !a.contains(' ') ==> font_key(a) == lowercased(a),
{
    lemma_unspaced(a + seq![' '] + b);
    lemma_unspaced(a + b);
    lemma_unspaced(a);
    lemma_solid_join(a + seq![' '], b);
    lemma_solid_join(a, seq![' ']);
    lemma_solid_join(a, b);
    assert(seq![' '].drop_last() =~= Seq::empty());
    assert(solid(seq![' '].drop_last()) =~= Seq::empty());
    assert(solid(seq![' ']) =~= Seq::empty());
    assert(solid(a + seq![' '] + b) =~= solid(a + b));
    if !a.contains(' ') {
        lemma_index_from(a, seq![' '], 0);
        if let Some(i) = index_of(a, seq![' ']) {
            assert(a.subrange(i, i + 1)[0] == a[i]);
            assert(a.contains(' '));
        }
    }
}

/// A text without its spaces.
spec fn solid(s: Seq<char>) -> Seq<char>
    decreases s.len(),
{
    if s.len() == 0 {
        seq![]
    } else if s.last() == ' ' {
        solid(s.drop_last())
    } else {
        solid(s.drop_last()).push(s.last())
    }
}

proof fn lemma_solid_join(a: Seq<char>, b: Seq<char>)
    ensures
        solid(a + b) == solid(a) + solid(b),
    decreases b.len(),
{
    if b.len() == 0 {
        assert(a + b =~= a);
        assert(solid(a) + solid(b) =~= solid(a));
    } else {
        assert((a + b).drop_last() =~= a + b.drop_last());
        lemma_solid_join(a, b.drop_last());
        assert(solid(a + b) =~= solid(a) + solid(b));
    }
}

proof fn lemma_solid_text(s: Seq<char>)
    requires
        !s.contains(' '),
    ensures
        solid(s) == s,
    decreases s.len(),
{
    if s.len() > 0 {
        let head = s.drop_last();
        assert(s[s.len() - 1] == s.last());
        if head.contains(' ') {
            let i = choose|i: int| 0 <= i < head.len() && head[i] == ' ';
            assert(s[i] == ' ');
        }
        lemma_solid_text(head);
        assert(s.last() != ' ');
        assert(head.push(s.last()) =~= s);
    }
}

proof fn lemma_unspaced(s: Seq<char>)
    ensures
        replaced(s, seq![' '], Seq::empty()) == solid(s),
    decreases s.len(),
{
    let p = seq![' '];
    lemma_index_from(s, p, 0);
    match index_of(s, p) {
        None => {
            if s.contains(' ') {
                let i = choose|i: int| 0 <= i < s.len() && s[i] == ' ';
                assert(s.subrange(i, i + 1) =~= p);
                assert(occurs(s, p, i));
            }
            lemma_solid_text(s);
        },
        Some(i) => {
            let head = s.take(i);
            let rest = s.skip(i + 1);
            assert(s.subrange(i, i + 1)[0] == s[i]);
            if head.contains(' ') {
                let k = choose|k: int| 0 <= k < head.len() && head[k] == ' ';
                assert(s.subrange(k, k + 1) =~= p);
                assert(occurs(s, p, k));
            }
            lemma_unspaced(rest);
            lemma_solid_text(head);
            assert(s =~= head + seq![' '] + rest);
            lemma_solid_join(head + seq![' '], rest);
            lemma_solid_join(head, seq![' ']);
            assert(seq![' '].drop_last() =~= Seq::empty());
            assert(solid(seq![' '].drop_last()) =~= Seq::empty());
            assert(solid(seq![' ']) =~= Seq::empty());
            assert(head + Seq::<char>::empty() + solid(rest) =~= head + Seq::<char>::empty() + replaced(
                rest,
                p,
                Seq::empty(),
            ));
        },
    }
}

/// A file is one of a font where its name begins with that of the family.
pub proof fn law_files_of_fonts(family: Seq<char>, file: Seq<char>)
    ensures
        holds_font(file, family) <==> exists|t: Seq<char>| font_key(file) == #[trigger] (font_key(
            family,
        ) + t),
{
    law_starts_and_ends(font_key(file), font_key(family));
}

/// What is known of a package does not depend on the packages around it.
pub proof fn law_packages_are_told_of_one_by_one(a: Seq<(Seq<char>, Package)>, b: Seq<(Seq<char>, Package)>, machine: Machine, presence: Presence)
    ensures
        with_presence(machine, a + b, presence) == with_presence(machine, a, presence) + with_presence(machine, b, presence),
    decreases b.len(),
{
    if b.len() == 0 {
        assert(a + b =~= a);
        assert(with_presence(machine, a, presence) + with_presence(machine, b, presence) =~= with_presence(machine, a, presence));
    } else {
        assert((a + b).drop_last() =~= a + b.drop_last());
        law_packages_are_told_of_one_by_one(a, b.drop_last(), machine, presence);
        assert(with_presence(machine, a + b, presence) =~= with_presence(machine, a, presence) + with_presence(machine, b, presence));
    }
}

/// Whether a name is shared does not depend on the names around it.
pub proof fn law_names_are_shared_one_by_one(a: Seq<Seq<char>>, b: Seq<Seq<char>>, others: Seq<Seq<char>>, both: bool)
    ensures
        shared(a + b, others, both) == shared(a, others, both) + shared(b, others, both),
    decreases b.len(),
{
    if b.len() == 0 {
        assert(a + b =~= a);
        assert(shared(a, others, both) + shared(b, others, both) =~= shared(a, others, both));
    } else {
        assert((a + b).drop_last() =~= a + b.drop_last());
        law_names_are_shared_one_by_one(a, b.drop_last(), others, both);
        assert(shared(a + b, others, both) =~= shared(a, others, both) + shared(b, others, both));
    }
}

/// A file can be run where its mode lets its owner, its group or anyone else execute it.
pub proof fn law_what_can_be_run(mode: u32, r: bool)
    requires
        call_ensures(is_executable, (mode,), r),
    ensures
        r <==> mode & 0o100 != 0 || mode & 0o010 != 0 || mode & 0o001 != 0,
{
    assert((mode & 0o111 != 0) <==> mode & 0o100 != 0 || mode & 0o010 != 0 || mode & 0o001 != 0)
        by (bit_vector);
}

/// What only one machine has is what is present on it and not on the other.
pub proof fn law_what_only_one_machine_has(a: &Report, b: &Report, r: Comparison, name: Seq<char>)
    requires
        call_ensures(compare, (a, b), r),
    ensures
        texts(r.only_a@).contains(name) <==> texts(a.present@).contains(name) && !texts(
            b.present@,
        ).contains(name),
        texts(r.only_b@).contains(name) <==> texts(b.present@).contains(name) && !texts(
            a.present@,
        ).contains(name),
        r.both == shared(distinct(texts(a.present@)), texts(b.present@), true).len(),
{
    let x = texts(a.present@);
    let y = texts(b.present@);
    lemma_distinct(x, name);
    lemma_distinct(y, name);
    law_shared(distinct(x), y, false, name);
    law_shared(distinct(y), x, false, name);
}

} // verus!
