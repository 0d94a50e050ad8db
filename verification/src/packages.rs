//! The packages that a repository declares, and what they provide.
use crate::order::{
    law_sorting_keeps_items, law_sorting_orders, lemma_sorted_image, lemma_text_total, lemma_text_transitive, sort, sorted_of, text_le,
    text_not_after, Ranked, Sortable,
};
use crate::provider::text_listed;
use crate::table::{law_lookup_after_put, lookup, put, Table};
use crate::text::{
    cat3, chars_of, cut, drop_empty, fragments, is_space, law_cut_at_every_separator,
    law_nonempty_pieces, law_nothing_empty_is_kept, law_nothing_to_cut, law_trimmed_at_both_ends, lemma_texts_empty,
    lemma_texts_push, nonempty, same_text, string_of, texts, trim, trimmed, Sep,
};
use vstd::prelude::*;

verus! {

/// What sort of thing a name stands for. Names of different sorts do not meet.
#[derive(Debug, Clone, Copy, PartialEq, Eq, Hash, Structural)]
pub enum Kind {
    Command,
    Font,
    Extension,
    /// Something without an executable, such as a shared library.
    Library,
}

impl Kind {
    /// The name of the sort.
    pub open spec fn named(self) -> Seq<char> {
        match self {
            Kind::Command => "command"@,
            Kind::Font => "font"@,
            Kind::Extension => "extension"@,
            Kind::Library => "library"@,
        }
    }

    /// The name of the sort.
    pub fn label(&self) -> (r: &'static str)
        ensures
            r@ == self.named(),
    {
        match self {
            Kind::Command => "command",
            Kind::Font => "font",
            Kind::Extension => "extension",
            Kind::Library => "library",
        }
    }
}

/// What installs a package.
#[derive(Debug, Clone, Copy, PartialEq, Eq, Structural)]
pub enum Manager {
    Brew,
    BrewCask,
    Mise,
    Apt,
    Yay,
    ZedExtension,
    /// Nothing here installs it.
    Unmanaged,
    /// A spelling that stands for no manager.
    Unknown,
}

/// The manager that a declaration names; without one it is Homebrew.
pub open spec fn manager_named(s: Option<Seq<char>>) -> Manager {
    match s {
        None => Manager::Brew,
        Some(name) => if name == "brew"@ {
            Manager::Brew
        } else if name == "brew-cask"@ {
            Manager::BrewCask
        } else if name == "mise"@ {
            Manager::Mise
        } else if name == "apt"@ {
            Manager::Apt
        } else if name == "yay"@ {
            Manager::Yay
        } else if name == "zed-extension"@ {
            Manager::ZedExtension
        } else if name == "none"@ {
            Manager::Unmanaged
        } else {
            Manager::Unknown
        },
    }
}

/// The text of something that may be absent.
pub open spec fn given(s: Option<String>) -> Option<Seq<char>> {
    match s {
        Some(t) => Some(t@),
        None => None,
    }
}

/// The text of something that may be absent.
pub open spec fn lent(s: Option<&str>) -> Option<Seq<char>> {
    match s {
        Some(t) => Some(t@),
        None => None,
    }
}

fn lend(s: &Option<String>) -> (r: Option<&str>)
    ensures
        lent(r) == given(*s),
{
    match s {
        Some(t) => Some(t.as_str()),
        None => None,
    }
}

impl Manager {
    /// The manager that a declaration names.
    pub fn parse(s: Option<&str>) -> (r: Self)
        ensures
            r == manager_named(lent(s)),
    {
        match s {
            None => Manager::Brew,
            Some(name) => if same_text(name, "brew") {
                Manager::Brew
            } else if same_text(name, "brew-cask") {
                Manager::BrewCask
            } else if same_text(name, "mise") {
                Manager::Mise
            } else if same_text(name, "apt") {
                Manager::Apt
            } else if same_text(name, "yay") {
                Manager::Yay
            } else if same_text(name, "zed-extension") {
                Manager::ZedExtension
            } else if same_text(name, "none") {
                Manager::Unmanaged
            } else {
                Manager::Unknown
            },
        }
    }
}

/// A declared package.
pub struct Package {
    /// Names by which configurations refer to it, beside its own.
    pub provides: Vec<String>,
    /// What sort of thing it is; a command where it is absent.
    pub kind: Option<String>,
    /// The operating systems it is for; all where there is none.
    pub os: Vec<String>,
    /// Known, but not installed.
    pub optional: bool,
    /// The profiles it is for; all where there is none.
    pub profiles: Vec<String>,
    /// What installs it.
    pub manager: Option<String>,
    /// Its name for `apt`.
    pub apt: Option<String>,
    /// Its name for `yay`.
    pub yay: Option<String>,
}

impl Default for Package {
    fn default() -> (r: Self)
        ensures
            r.provides@.len() == 0,
            r.kind is None,
            r.os@.len() == 0,
            !r.optional,
            r.profiles@.len() == 0,
            r.manager is None,
            r.apt is None,
            r.yay is None,
    {
        Package {
            provides: Vec::new(),
            kind: None,
            os: Vec::new(),
            optional: false,
            profiles: Vec::new(),
            manager: None,
            apt: None,
            yay: None,
        }
    }
}

/// A package to install, under the name that its manager has for it.
pub struct Installable {
    pub name: String,
    pub manager: Manager,
}

/// What counts as provided without being declared.
pub struct Ignore {
    pub commands: Vec<String>,
}

/// The declared packages, by name.
pub struct Packages {
    pub packages: Table<Package>,
    pub ignore: Ignore,
}

/// The sort that a declaration names; a command where it names none.
pub open spec fn kind_named(s: Option<Seq<char>>) -> Kind {
    if s == Some("font"@) {
        Kind::Font
    } else if s == Some("extension"@) {
        Kind::Extension
    } else if s == Some("library"@) {
        Kind::Library
    } else {
        Kind::Command
    }
}

impl Package {
    /// The sort of thing it is.
    pub open spec fn sort(self) -> Kind {
        kind_named(given(self.kind))
    }

    /// What installs it.
    pub open spec fn installer(self) -> Manager {
        manager_named(given(self.manager))
    }

    /// The sort of thing it is.
    pub fn kind_of(&self) -> (r: Kind)
        ensures
            r == self.sort(),
    {
        match &self.kind {
            None => Kind::Command,
            Some(k) => if same_text(k.as_str(), "font") {
                Kind::Font
            } else if same_text(k.as_str(), "extension") {
                Kind::Extension
            } else if same_text(k.as_str(), "library") {
                Kind::Library
            } else {
                Kind::Command
            },
        }
    }

    /// What installs it.
    pub fn manager_of(&self) -> (r: Manager)
        ensures
            r == self.installer(),
    {
        Manager::parse(lend(&self.manager))
    }
}

/// Whether two lists have a text in common.
pub open spec fn overlap(a: Seq<Seq<char>>, b: Seq<Seq<char>>) -> bool {
    exists|i: int| 0 <= i < a.len() && b.contains(#[trigger] a[i])
}

/// Whether a declaration restricted to some profiles applies under the current ones.
pub open spec fn profile_matches(profiles: Seq<Seq<char>>, current: Seq<Seq<char>>) -> bool {
    profiles.len() == 0 || overlap(profiles, current)
}

/// Whether a declaration restricted to some profiles applies under the current ones. One
/// that is not restricted always does.
pub fn matches_profile(profiles: &Vec<String>, current: &Vec<String>) -> (r: bool)
    ensures
        r == profile_matches(texts(profiles@), texts(current@)),
{
    if profiles.len() == 0 {
        return true;
    }
    for i in 0..profiles.len()
        invariant
            forall|k: int| 0 <= k < i ==> !texts(current@).contains((#[trigger] profiles@[k])@),
    {
        if text_listed(current, profiles[i].as_str()) {
            assert(texts(current@).contains(texts(profiles@)[i as int]));
            return true;
        }
    }
    proof {
        assert forall|k: int| 0 <= k < profiles@.len() implies !texts(current@).contains(
            #[trigger] texts(profiles@)[k],
        ) by {
            assert(texts(profiles@)[k] == profiles@[k]@);
        }
    }
    false
}

/// The texts of a list, each without the white space around it.
pub open spec fn all_trimmed(ss: Seq<Seq<char>>) -> Seq<Seq<char>> {
    ss.map_values(|s: Seq<char>| trimmed(s))
}

/// The profiles that a text lists, separated by commas.
pub open spec fn profiles_in(value: Seq<char>) -> Seq<Seq<char>> {
    nonempty(all_trimmed(fragments(value, Sep::Is(','))))
}

/// The current profiles, out of the value of `SENNIT_PROFILE` where it is set.
pub fn current_profiles(value: Option<&str>) -> (r: Vec<String>)
    ensures
        texts(r@) == match value {
            Some(v) => profiles_in(v@),
            None => seq![],
        },
{
    proof {
        lemma_texts_empty();
    }
    match value {
        None => Vec::new(),
        Some(v) => {
            let c = chars_of(v);
            let pieces = cut(c.as_slice(), Sep::Is(','));
            let ghost goal = all_trimmed(texts(pieces@));
            let mut out: Vec<String> = Vec::new();
            for i in 0..pieces.len()
                invariant
                    goal == all_trimmed(texts(pieces@)),
                    texts(out@) == goal.take(i as int),
            {
                let p = chars_of(pieces[i].as_str());
                let t = string_of(trim(p.as_slice()));
                proof {
                    lemma_texts_push(out@, t);
                    assert(goal.take(i + 1) =~= goal.take(i as int).push(goal[i as int]));
                }
                out.push(t);
            }
            assert(goal.take(goal.len() as int) =~= goal);
            drop_empty(&out)
        },
    }
}

/// The name of the operating system.
pub fn current_os(macos: bool) -> (r: &'static str)
    ensures
        r@ == if macos {
            "darwin"@
        } else {
            "linux"@
        },
{
    if macos {
        "darwin"
    } else {
        "linux"
    }
}

/// The manager of a Linux distribution, by what is found on the machine. Where both are,
/// it is taken for Arch.
pub fn detect_linux_pm(has_yay: bool, has_apt_get: bool) -> (r: Option<Manager>)
    ensures
        r == if has_yay {
            Some(Manager::Yay)
        } else if has_apt_get {
            Some(Manager::Apt)
        } else {
            None
        },
{
    if has_yay {
        Some(Manager::Yay)
    } else if has_apt_get {
        Some(Manager::Apt)
    } else {
        None
    }
}

/// Whether a package is to be there on a machine: it is not optional, and both the
/// operating system and the profiles admit it.
pub open spec fn applies(p: Package, os: Seq<char>, current: Seq<Seq<char>>) -> bool {
    !p.optional && admitted(p, os, current)
}

/// Whether the operating system and the profiles admit a package.
pub open spec fn admitted(p: Package, os: Seq<char>, current: Seq<Seq<char>>) -> bool {
    (p.os@.len() == 0 || texts(p.os@).contains(os)) && profile_matches(texts(p.profiles@), current)
}

fn is_admitted(p: &Package, os: &str, current: &Vec<String>) -> (r: bool)
    ensures
        r == admitted(*p, os@, texts(current@)),
{
    (p.os.len() == 0 || text_listed(&p.os, os)) && matches_profile(&p.profiles, current)
}

/// The packages that are to be there, by name.
pub open spec fn applicable_among(
    packages: Seq<(Seq<char>, Package)>,
    os: Seq<char>,
    current: Seq<Seq<char>>,
) -> Seq<(Seq<char>, Package)>
    decreases packages.len(),
{
    if packages.len() == 0 {
        seq![]
    } else {
        let before = applicable_among(packages.drop_last(), os, current);
        if applies(packages.last().1, os, current) {
            before.push(packages.last())
        } else {
            before
        }
    }
}

/// Named packages by the views of their names.
pub open spec fn named(v: Seq<(String, &Package)>) -> Seq<(Seq<char>, Package)> {
    v.map_values(|e: (String, &Package)| (e.0@, *e.1))
}

/// Whether a package is a font.
pub fn is_font(pkg: &Package) -> (r: bool)
    ensures
        r == (pkg.sort() == Kind::Font),
{
    proof {
        reveal_strlit("font");
    }
    match &pkg.kind {
        Some(k) => same_text(k.as_str(), "font"),
        None => false,
    }
}

/// The name that a package has for the manager of a distribution.
pub open spec fn distro_name(p: Package, manager: Manager) -> Option<Seq<char>> {
    match manager {
        Manager::Apt => given(p.apt),
        Manager::Yay => given(p.yay),
        _ => None,
    }
}

/// The name and the manager by which a package is installed. On Linux a name for the
/// manager of the distribution decides both; a cask without one cannot be installed there,
/// unless it is a font.
pub open spec fn resolved(
    name: Seq<char>,
    p: Package,
    linux_pm: Option<Manager>,
) -> Option<(Seq<char>, Manager)> {
    match linux_pm {
        Some(pm) => match distro_name(p, pm) {
            Some(n) => Some((n, pm)),
            None => if p.installer() == Manager::BrewCask && p.sort() != Kind::Font {
                None
            } else {
                Some((name, p.installer()))
            },
        },
        None => Some((name, p.installer())),
    }
}

/// The name and the manager by which a package is installed.
pub fn resolve(name: &str, pkg: &Package, linux_pm: Option<Manager>) -> (r: Option<Installable>)
    ensures
        match r {
            Some(i) => resolved(name@, *pkg, linux_pm) == Some((i.name@, i.manager)),
            None => resolved(name@, *pkg, linux_pm) is None,
        },
{
    match linux_pm {
        Some(pm) => {
            let distro = match pm {
                Manager::Apt => lend(&pkg.apt),
                Manager::Yay => lend(&pkg.yay),
                _ => None,
            };
            match distro {
                Some(n) => {
                    return Some(Installable { name: n.to_owned(), manager: pm });
                },
                None => {},
            }
            if pkg.manager_of() == Manager::BrewCask && !is_font(pkg) {
                return None;
            }
        },
        None => {},
    }
    Some(Installable { name: name.to_owned(), manager: pkg.manager_of() })
}

/// Packages to install, by the views of their names.
pub open spec fn chosen(v: Seq<Installable>) -> Seq<(Seq<char>, Manager)> {
    v.map_values(|i: Installable| (i.name@, i.manager))
}

/// Packages to install are ordered by name.
impl Ranked for (Seq<char>, Manager) {
    open spec fn at_most(self, other: Self) -> bool {
        text_le(self.0, other.0)
    }

    proof fn total(a: Self, b: Self) {
        lemma_text_total(a.0, b.0);
    }

    proof fn transitive(a: Self, b: Self, c: Self) {
        lemma_text_transitive(a.0, b.0, c.0);
    }
}

impl Ranked for Installable {
    open spec fn at_most(self, other: Self) -> bool {
        text_le(self.name@, other.name@)
    }

    proof fn total(a: Self, b: Self) {
        lemma_text_total(a.name@, b.name@);
    }

    proof fn transitive(a: Self, b: Self, c: Self) {
        lemma_text_transitive(a.name@, b.name@, c.name@);
    }
}

impl Sortable for Installable {
    fn not_after(&self, other: &Self) -> (r: bool) {
        text_not_after(self.name.as_str(), other.name.as_str())
    }
}

/// Whether a manager is one that installs here: casks are for macOS, font casks aside.
pub open spec fn installs(p: Package, manager: Manager, os: Seq<char>) -> bool {
    match manager {
        Manager::Unmanaged | Manager::Unknown | Manager::ZedExtension => false,
        Manager::BrewCask => os == "darwin"@ || p.sort() == Kind::Font,
        _ => true,
    }
}

/// The packages to install, in the order in which they are declared.
pub open spec fn wanted_among(
    packages: Seq<(Seq<char>, Package)>,
    os: Seq<char>,
    current: Seq<Seq<char>>,
    linux_pm: Option<Manager>,
) -> Seq<(Seq<char>, Manager)>
    decreases packages.len(),
{
    if packages.len() == 0 {
        seq![]
    } else {
        let before = wanted_among(packages.drop_last(), os, current, linux_pm);
        let (name, p) = packages.last();
        match resolved(name, p, linux_pm) {
            Some((n, m)) => if applies(p, os, current) && installs(p, m, os) {
                before.push((n, m))
            } else {
                before
            },
            None => before,
        }
    }
}

/// Whether a text names a sort.
pub open spec fn is_kind(s: Seq<char>) -> bool {
    s == "command"@ || s == "font"@ || s == "extension"@ || s == "library"@
}

/// Whether a text names an operating system.
pub open spec fn is_os(s: Seq<char>) -> bool {
    s == "darwin"@ || s == "linux"@
}

/// Why declared packages are refused.
pub enum PackagesError {
    UnknownManager { name: String, manager: String },
    UnknownKind { name: String, kind: String },
    UnknownOs { name: String, os: String },
}

/// The first of a list that names no operating system.
pub open spec fn first_unknown_os(os: Seq<String>) -> Option<Seq<char>>
    decreases os.len(),
{
    if os.len() == 0 {
        None
    } else {
        match first_unknown_os(os.drop_last()) {
            Some(s) => Some(s),
            None => if is_os(os.last()@) {
                None
            } else {
                Some(os.last()@)
            },
        }
    }
}

/// What is misspelled in a declaration: its manager, then its sort, then its operating
/// systems.
pub enum Misspelled {
    Manager(Seq<char>),
    Kind(Seq<char>),
    Os(Seq<char>),
}

/// What is misspelled in a declaration, if anything.
pub open spec fn misspelled(p: Package) -> Option<Misspelled> {
    if p.manager is Some && p.installer() == Manager::Unknown {
        Some(Misspelled::Manager(p.manager.unwrap()@))
    } else if p.kind is Some && !is_kind(p.kind.unwrap()@) {
        Some(Misspelled::Kind(p.kind.unwrap()@))
    } else {
        match first_unknown_os(p.os@) {
            Some(s) => Some(Misspelled::Os(s)),
            None => None,
        }
    }
}

/// The first declaration in which something is misspelled.
pub open spec fn first_misspelled(packages: Seq<(Seq<char>, Package)>) -> Option<int>
    decreases packages.len(),
{
    if packages.len() == 0 {
        None
    } else {
        match first_misspelled(packages.drop_last()) {
            Some(i) => Some(i),
            None => if misspelled(packages.last().1) is Some {
                Some(packages.len() - 1)
            } else {
                None
            },
        }
    }
}

proof fn lemma_misspelled_stays(packages: Seq<(Seq<char>, Package)>, n: int)
    requires
        0 <= n <= packages.len(),
        first_misspelled(packages.take(n)) is Some,
    ensures
        first_misspelled(packages) == first_misspelled(packages.take(n)),
    decreases packages.len() - n,
{
    if n == packages.len() {
        assert(packages.take(n) =~= packages);
    } else {
        assert(packages.take(n + 1).drop_last() =~= packages.take(n));
        lemma_misspelled_stays(packages, n + 1);
    }
}

proof fn lemma_unknown_os_stays(os: Seq<String>, n: int)
    requires
        0 <= n <= os.len(),
        first_unknown_os(os.take(n)) is Some,
    ensures
        first_unknown_os(os) == first_unknown_os(os.take(n)),
    decreases os.len() - n,
{
    if n == os.len() {
        assert(os.take(n) =~= os);
    } else {
        assert(os.take(n + 1).drop_last() =~= os.take(n));
        lemma_unknown_os_stays(os, n + 1);
    }
}

impl PackagesError {
    /// Whether the error names a declaration and what is misspelled in it.
    pub open spec fn tells(self, package: Seq<char>, what: Misspelled) -> bool {
        match self {
            PackagesError::UnknownManager { name, manager } => name@ == package && what
                == Misspelled::Manager(manager@),
            PackagesError::UnknownKind { name, kind } => name@ == package && what
                == Misspelled::Kind(kind@),
            PackagesError::UnknownOs { name, os } => name@ == package && what == Misspelled::Os(
                os@,
            ),
        }
    }

    /// The error in words.
    pub fn message(&self) -> (r: String)
        ensures
            r@ == match *self {
                PackagesError::UnknownManager { name, manager } => "package `"@ + name@
                    + "` has an unknown manager `"@ + manager@
                    + "`; expected one of: brew, brew-cask, mise, apt, yay, zed-extension, none"@,
                PackagesError::UnknownKind { name, kind } => "package `"@ + name@
                    + "` has an unknown kind `"@ + kind@
                    + "`; expected one of: command, font, extension, library"@,
                PackagesError::UnknownOs { name, os } => "package `"@ + name@
                    + "` has an unknown os `"@ + os@ + "`; expected darwin or linux"@,
            },
    {
        match self {
            PackagesError::UnknownManager { name, manager } => {
                let head = cat3("package `", name.as_str(), "` has an unknown manager `");
                cat3(
                    head.as_str(),
                    manager.as_str(),
                    "`; expected one of: brew, brew-cask, mise, apt, yay, zed-extension, none",
                )
            },
            PackagesError::UnknownKind { name, kind } => {
                let head = cat3("package `", name.as_str(), "` has an unknown kind `");
                cat3(
                    head.as_str(),
                    kind.as_str(),
                    "`; expected one of: command, font, extension, library",
                )
            },
            PackagesError::UnknownOs { name, os } => {
                let head = cat3("package `", name.as_str(), "` has an unknown os `");
                cat3(head.as_str(), os.as_str(), "`; expected darwin or linux")
            },
        }
    }
}

fn misspelling(name: &str, pkg: &Package) -> (r: Option<PackagesError>)
    ensures
        match r {
            Some(e) => misspelled(*pkg) is Some && e.tells(name@, misspelled(*pkg).unwrap()),
            None => misspelled(*pkg) is None,
        },
{
    match &pkg.manager {
        Some(m) => if Manager::parse(Some(m.as_str())) == Manager::Unknown {
            return Some(
                PackagesError::UnknownManager { name: name.to_owned(), manager: m.clone() },
            );
        },
        None => {},
    }
    match &pkg.kind {
        Some(k) => {
            let s = k.as_str();
            if !(same_text(s, "command") || same_text(s, "font") || same_text(s, "extension")
                || same_text(s, "library")) {
                return Some(PackagesError::UnknownKind { name: name.to_owned(), kind: k.clone() });
            }
        },
        None => {},
    }
    let os = &pkg.os;
    assert(os@.take(0) =~= Seq::empty());
    for i in 0..os.len()
        invariant
            os@ == pkg.os@,
            !(pkg.manager is Some && pkg.installer() == Manager::Unknown),
            !(pkg.kind is Some && !is_kind(pkg.kind.unwrap()@)),
            first_unknown_os(os@.take(i as int)) is None,
    {
        proof {
            let t = os@.take(i + 1);
            assert(t.drop_last() =~= os@.take(i as int));
            assert(t.last() == os@[i as int]);
        }
        let s = os[i].as_str();
        if !(same_text(s, "darwin") || same_text(s, "linux")) {
            proof {
                lemma_unknown_os_stays(os@, i + 1);
            }
            return Some(PackagesError::UnknownOs { name: name.to_owned(), os: os[i].clone() });
        }
    }
    assert(os@.take(os@.len() as int) =~= os@);
    None
}

impl Packages {
    /// The packages that are to be there on a machine, by name.
    pub fn applicable(&self, os: &str, current: &Vec<String>) -> (r: Vec<(String, &Package)>)
        ensures
            named(r@) == applicable_among(self.packages@, os@, texts(current@)),
    {
        let all = &self.packages;
        let mut out: Vec<(String, &Package)> = Vec::new();
        let n = all.len();
        assert(named(out@) =~= Seq::empty());
        assert(all@.take(0) =~= Seq::empty());
        for i in 0..n
            invariant
                n == all@.len(),
                named(out@) == applicable_among(all@.take(i as int), os@, texts(current@)),
        {
            proof {
                let t = all@.take(i + 1);
                assert(t.drop_last() =~= all@.take(i as int));
                assert(t.last() == all@[i as int]);
            }
            let p = all.value(i);
            if !p.optional && is_admitted(p, os, current) {
                let entry = (all.key(i).clone(), p);
                assert(named(out@.push(entry)) =~= named(out@).push((entry.0@, *entry.1)));
                out.push(entry);
            }
        }
        assert(all@.take(all@.len() as int) =~= all@);
        out
    }

    /// The packages to install on a machine, in the order of the names they are installed
    /// under.
    pub fn installable(
        &self,
        os: &str,
        current: &Vec<String>,
        linux_pm: Option<Manager>,
    ) -> (r: Vec<Installable>)
        ensures
            chosen(r@) == sorted_of(
                wanted_among(self.packages@, os@, texts(current@), linux_pm),
            ),
    {
        let all = &self.packages;
        let mut out: Vec<Installable> = Vec::new();
        let n = all.len();
        assert(chosen(out@) =~= Seq::empty());
        assert(all@.take(0) =~= Seq::empty());
        for i in 0..n
            invariant
                n == all@.len(),
                chosen(out@) == wanted_among(
                    all@.take(i as int),
                    os@,
                    texts(current@),
                    linux_pm,
                ),
        {
            proof {
                let t = all@.take(i + 1);
                assert(t.drop_last() =~= all@.take(i as int));
                assert(t.last() == all@[i as int]);
            }
            let p = all.value(i);
            if !p.optional && is_admitted(p, os, current) {
                match resolve(all.key(i).as_str(), p, linux_pm) {
                    Some(entry) => {
                        let here = match entry.manager {
                            Manager::Unmanaged | Manager::Unknown | Manager::ZedExtension => false,
                            Manager::BrewCask => same_text(os, "darwin") || is_font(p),
                            _ => true,
                        };
                        if here {
                            assert(chosen(out@.push(entry)) =~= chosen(out@).push(
                                (entry.name@, entry.manager),
                            ));
                            out.push(entry);
                        }
                    },
                    None => {},
                }
            }
        }
        assert(all@.take(all@.len() as int) =~= all@);
        proof {
            let f = |i: Installable| (i.name@, i.manager);
            lemma_sorted_image(out@, f);
            assert(chosen(out@) =~= out@.map_values(f));
            assert(chosen(sorted_of(out@)) =~= sorted_of(out@).map_values(f));
        }
        sort(out)
    }

    /// Refuses what is misspelled: a manager that no one knows would drop a package from
    /// what is installed while it goes on being reported as missing.
    pub fn validate(&self) -> (r: Result<(), PackagesError>)
        ensures
            match first_misspelled(self.packages@) {
                Some(i) => r matches Err(e) && e.tells(
                    self.packages@[i].0,
                    misspelled(self.packages@[i].1).unwrap(),
                ),
                None => r is Ok,
            },
    {
        let all = &self.packages;
        let n = all.len();
        assert(all@.take(0) =~= Seq::empty());
        for i in 0..n
            invariant
                n == all@.len(),
                all@ == self.packages@,
                first_misspelled(all@.take(i as int)) is None,
        {
            proof {
                let t = all@.take(i + 1);
                assert(t.drop_last() =~= all@.take(i as int));
                assert(t.last() == all@[i as int]);
            }
            match misspelling(all.key(i).as_str(), all.value(i)) {
                Some(e) => {
                    proof {
                        lemma_misspelled_stays(all@, i + 1);
                    }
                    return Err(e);
                },
                None => {},
            }
        }
        assert(all@.take(all@.len() as int) =~= all@);
        Ok(())
    }
}

/// A table with the same value put under each of some names.
pub open spec fn put_each(
    t: Seq<(Seq<char>, bool)>,
    names: Seq<Seq<char>>,
    v: bool,
) -> Seq<(Seq<char>, bool)>
    decreases names.len(),
{
    if names.len() == 0 {
        t
    } else {
        put(put_each(t, names.drop_last(), v), names.last(), v)
    }
}

/// Puts the same value under each of some names.
pub fn put_names(t: &mut Table<bool>, names: &Vec<String>, v: bool)
    ensures
        final(t)@ == put_each(old(t)@, texts(names@), v),
{
    let ghost before = t@;
    let ghost all = texts(names@);
    assert(all.take(0) =~= Seq::empty());
    for i in 0..names.len()
        invariant
            all == texts(names@),
            t@ == put_each(before, all.take(i as int), v),
    {
        proof {
            let h = all.take(i + 1);
            assert(h.drop_last() =~= all.take(i as int));
            assert(h.last() == names@[i as int]@);
        }
        t.insert(names[i].clone(), v);
    }
    assert(all.take(all.len() as int) =~= all);
}

/// The names of one sort that packages provide, each with whether it is optional. A package
/// that the machine does not admit is optional there. Where two packages provide the same
/// name, the later one counts. The name of a font package is no font's name.
pub open spec fn provided_among(
    packages: Seq<(Seq<char>, Package)>,
    kind: Kind,
    os: Seq<char>,
    current: Seq<Seq<char>>,
) -> Seq<(Seq<char>, bool)>
    decreases packages.len(),
{
    if packages.len() == 0 {
        seq![]
    } else {
        let before = provided_among(packages.drop_last(), kind, os, current);
        let (name, p) = packages.last();
        let optional = p.optional || !admitted(p, os, current);
        if p.sort() != kind {
            before
        } else if kind == Kind::Font {
            put_each(before, texts(p.provides@), optional)
        } else {
            put_each(put(before, name, optional), texts(p.provides@), optional)
        }
    }
}

/// The names that are declared, by sort, each with whether it is optional.
pub struct Provided {
    pub commands: Table<bool>,
    pub fonts: Table<bool>,
    pub extensions: Table<bool>,
    pub libraries: Table<bool>,
}

impl Provided {
    /// The names of a sort.
    pub open spec fn names(self, kind: Kind) -> Seq<(Seq<char>, bool)> {
        match kind {
            Kind::Command => self.commands@,
            Kind::Font => self.fonts@,
            Kind::Extension => self.extensions@,
            Kind::Library => self.libraries@,
        }
    }

    /// The names of a sort.
    pub fn of(&self, kind: Kind) -> (r: &Table<bool>)
        ensures
            r@ == self.names(kind),
    {
        match kind {
            Kind::Command => &self.commands,
            Kind::Font => &self.fonts,
            Kind::Extension => &self.extensions,
            Kind::Library => &self.libraries,
        }
    }

    /// How many names are declared.
    pub fn count(&self) -> (r: u128)
        ensures
            r == self.names(Kind::Command).len() + self.names(Kind::Font).len() + self.names(
                Kind::Extension,
            ).len() + self.names(Kind::Library).len(),
    {
        self.commands.len() as u128 + self.fonts.len() as u128 + self.extensions.len() as u128
            + self.libraries.len() as u128
    }

    /// Whether a name is optional, where it is declared.
    pub fn get(&self, kind: Kind, name: &str) -> (r: Option<bool>)
        ensures
            r == lookup(self.names(kind), name@),
    {
        match self.of(kind).get(name) {
            Some(b) => Some(*b),
            None => None,
        }
    }
}

impl Packages {
    fn provided_of(&self, kind: Kind, os: &str, current: &Vec<String>) -> (r: Table<bool>)
        ensures
            r@ == provided_among(self.packages@, kind, os@, texts(current@)),
    {
        let all = &self.packages;
        let mut out: Table<bool> = Table::new();
        let n = all.len();
        assert(all@.take(0) =~= Seq::empty());
        for i in 0..n
            invariant
                n == all@.len(),
                out@ == provided_among(all@.take(i as int), kind, os@, texts(current@)),
        {
            proof {
                let t = all@.take(i + 1);
                assert(t.drop_last() =~= all@.take(i as int));
                assert(t.last() == all@[i as int]);
            }
            let p = all.value(i);
            if p.kind_of() == kind {
                let optional = p.optional || !is_admitted(p, os, current);
                if kind != Kind::Font {
                    out.insert(all.key(i).clone(), optional);
                }
                put_names(&mut out, &p.provides, optional);
            }
        }
        assert(all@.take(all@.len() as int) =~= all@);
        out
    }

    /// The names that are declared. Commands that are ignored count as declared.
    pub fn provided(&self, os: &str, current: &Vec<String>) -> (r: Provided)
        ensures
            r.names(Kind::Command) == put_each(
                provided_among(self.packages@, Kind::Command, os@, texts(current@)),
                texts(self.ignore.commands@),
                false,
            ),
            forall|kind: Kind|
                kind != Kind::Command ==> #[trigger] r.names(kind) == provided_among(
                    self.packages@,
                    kind,
                    os@,
                    texts(current@),
                ),
    {
        let mut commands = self.provided_of(Kind::Command, os, current);
        put_names(&mut commands, &self.ignore.commands, false);
        Provided {
            commands,
            fonts: self.provided_of(Kind::Font, os, current),
            extensions: self.provided_of(Kind::Extension, os, current),
            libraries: self.provided_of(Kind::Library, os, current),
        }
    }
}

/// A name holds the value that was put under it, or the one it held.
pub proof fn lemma_put_each(t: Seq<(Seq<char>, bool)>, names: Seq<Seq<char>>, v: bool, n: Seq<char>)
    ensures
        lookup(put_each(t, names, v), n) == (if names.contains(n) {
            Some(v)
        } else {
            lookup(t, n)
        }),
    decreases names.len(),
{
    if names.len() > 0 {
        let head = names.drop_last();
        lemma_put_each(t, head, v, n);
        law_lookup_after_put(put_each(t, head, v), names.last(), v, n);
        if head.contains(n) {
            let k = choose|k: int| 0 <= k < head.len() && head[k] == n;
            assert(names[k] == n);
        }
        if names.contains(n) && names.last() != n {
            let k = choose|k: int| 0 <= k < names.len() && names[k] == n;
            assert(head[k] == n);
        }
        assert(names[names.len() - 1] == names.last());
    }
}

/// Whether a package provides a name of its sort: its own, unless it is a font, or one that
/// it lists.
pub open spec fn provides_name(name: Seq<char>, p: Package, n: Seq<char>) -> bool {
    (p.sort() != Kind::Font && name == n) || texts(p.provides@).contains(n)
}

/// A name is provided exactly where some package of its sort provides it: names of
/// different sorts do not meet, and a list of names adds to the package's own.
pub proof fn law_provided_names(
    packages: Seq<(Seq<char>, Package)>,
    kind: Kind,
    os: Seq<char>,
    current: Seq<Seq<char>>,
    n: Seq<char>,
)
    ensures
        lookup(provided_among(packages, kind, os, current), n) is Some <==> exists|i: int|
            0 <= i < packages.len() && (#[trigger] packages[i]).1.sort() == kind && provides_name(
                packages[i].0,
                packages[i].1,
                n,
            ),
    decreases packages.len(),
{
    if packages.len() > 0 {
        let head = packages.drop_last();
        law_provided_names(head, kind, os, current, n);
        let before = provided_among(head, kind, os, current);
        let (name, p) = packages.last();
        let optional = p.optional || !admitted(p, os, current);
        assert(packages[packages.len() - 1] == (name, p));
        if p.sort() == kind {
            if kind == Kind::Font {
                lemma_put_each(before, texts(p.provides@), optional, n);
            } else {
                lemma_put_each(put(before, name, optional), texts(p.provides@), optional, n);
                law_lookup_after_put(before, name, optional, n);
            }
        }
        if lookup(before, n) is Some {
            let i = choose|i: int|
                0 <= i < head.len() && (#[trigger] head[i]).1.sort() == kind && provides_name(
                    head[i].0,
                    head[i].1,
                    n,
                );
            assert(packages[i] == head[i]);
        }
        if exists|i: int|
            0 <= i < packages.len() && (#[trigger] packages[i]).1.sort() == kind && provides_name(
                packages[i].0,
                packages[i].1,
                n,
            ) {
            let i = choose|i: int|
                0 <= i < packages.len() && (#[trigger] packages[i]).1.sort() == kind
                    && provides_name(packages[i].0, packages[i].1, n);
            if i < head.len() {
                assert(head[i] == packages[i]);
            }
        }
    }
}

/// Setting more profiles takes no package away: with none set, less is installed rather
/// than more.
pub proof fn law_more_profiles_admit_more(
    p: Package,
    os: Seq<char>,
    fewer: Seq<Seq<char>>,
    more: Seq<Seq<char>>,
)
    requires
        forall|s: Seq<char>| fewer.contains(s) ==> more.contains(s),
        applies(p, os, fewer),
    ensures
        applies(p, os, more),
{
    let profiles = texts(p.profiles@);
    if profiles.len() > 0 {
        let i = choose|i: int| 0 <= i < profiles.len() && fewer.contains(#[trigger] profiles[i]);
        assert(more.contains(profiles[i]));
    }
}

proof fn lemma_names_differ()
    ensures
        "brew"@.len() == 4 && "brew"@[0] == 'b',
        "brew-cask"@.len() == 9,
        "mise"@.len() == 4 && "mise"@[0] == 'm',
        "apt"@.len() == 3 && "apt"@[0] == 'a',
        "yay"@.len() == 3 && "yay"@[0] == 'y',
        "zed-extension"@.len() == 13,
        "none"@.len() == 4 && "none"@[0] == 'n',
        "font"@.len() == 4 && "font"@[0] == 'f',
        "extension"@.len() == 9 && "extension"@[0] == 'e',
        "library"@.len() == 7 && "library"@[0] == 'l',
        "command"@.len() == 7 && "command"@[0] == 'c',
        "darwin"@.len() == 6,
        "linux"@.len() == 5,
{
    reveal_strlit("brew");
    reveal_strlit("brew-cask");
    reveal_strlit("mise");
    reveal_strlit("apt");
    reveal_strlit("yay");
    reveal_strlit("zed-extension");
    reveal_strlit("none");
    reveal_strlit("font");
    reveal_strlit("extension");
    reveal_strlit("library");
    reveal_strlit("command");
    reveal_strlit("darwin");
    reveal_strlit("linux");
}

/// Every manager and every kind is spelled in one way; where none is told, brew installs a
/// command.
pub proof fn law_how_managers_and_kinds_are_spelled(s: Seq<char>)
    ensures
        manager_named(None) == Manager::Brew,
        manager_named(Some(s)) == Manager::Brew <==> s == "brew"@,
        manager_named(Some(s)) == Manager::BrewCask <==> s == "brew-cask"@,
        manager_named(Some(s)) == Manager::Mise <==> s == "mise"@,
        manager_named(Some(s)) == Manager::Apt <==> s == "apt"@,
        manager_named(Some(s)) == Manager::Yay <==> s == "yay"@,
        manager_named(Some(s)) == Manager::ZedExtension <==> s == "zed-extension"@,
        manager_named(Some(s)) == Manager::Unmanaged <==> s == "none"@,
        kind_named(None) == Kind::Command,
        kind_named(Some(s)) == Kind::Font <==> s == "font"@,
        kind_named(Some(s)) == Kind::Extension <==> s == "extension"@,
        kind_named(Some(s)) == Kind::Library <==> s == "library"@,
{
    lemma_names_differ();
}

/// A declaration is spelled well exactly where its manager, its kind and its operating
/// systems, as far as they are told, are ones that there are.
pub proof fn law_what_is_spelled_well(p: Package)
    ensures
        misspelled(p) is None <==> {
            &&& p.manager matches Some(m) ==> m@ == "brew"@ || m@ == "brew-cask"@ || m@ == "mise"@
                || m@ == "apt"@ || m@ == "yay"@ || m@ == "zed-extension"@ || m@ == "none"@
            &&& p.kind matches Some(k) ==> k@ == "command"@ || k@ == "font"@ || k@ == "extension"@
                || k@ == "library"@
            &&& forall|i: int|
                0 <= i < p.os@.len() ==> (#[trigger] p.os@[i])@ == "darwin"@ || p.os@[i]@
                    == "linux"@
        },
        misspelled(p) matches Some(Misspelled::Manager(s)) ==> p.manager matches Some(m) && m@ == s,
        misspelled(p) matches Some(Misspelled::Kind(s)) ==> p.kind matches Some(k) && k@ == s,
        misspelled(p) matches Some(Misspelled::Os(s)) ==> s != "darwin"@ && s != "linux"@ && texts(
            p.os@,
        ).contains(s),
{
    lemma_names_differ();
    lemma_unknown_os(p.os@);
}

proof fn lemma_unknown_os(os: Seq<String>)
    ensures
        first_unknown_os(os) is None <==> forall|i: int|
            0 <= i < os.len() ==> (#[trigger] os[i])@ == "darwin"@ || os[i]@ == "linux"@,
        first_unknown_os(os) matches Some(s) ==> s != "darwin"@ && s != "linux"@ && texts(
            os,
        ).contains(s),
    decreases os.len(),
{
    if os.len() > 0 {
        let head = os.drop_last();
        lemma_unknown_os(head);
        assert(os[os.len() - 1] == os.last());
        if first_unknown_os(head) is None {
            assert forall|i: int| 0 <= i < head.len() implies (#[trigger] os[i])@ == "darwin"@
                || os[i]@ == "linux"@ by {
                assert(head[i] == os[i]);
            }
            assert(texts(os)[os.len() - 1] == os.last()@);
        } else {
            let s = first_unknown_os(head).unwrap();
            let k = choose|k: int| 0 <= k < texts(head).len() && texts(head)[k] == s;
            assert(texts(os)[k] == s);
            assert(os[k]@ == s);
        }
    }
}

/// The first declaration with something misspelled is told, and none is passed over.
pub proof fn law_the_first_misspelled_is_told(packages: Seq<(Seq<char>, Package)>)
    ensures
        first_misspelled(packages) is None <==> forall|i: int|
            0 <= i < packages.len() ==> misspelled((#[trigger] packages[i]).1) is None,
        first_misspelled(packages) matches Some(i) ==> 0 <= i < packages.len() && misspelled(
            packages[i].1,
        ) is Some && forall|k: int| 0 <= k < i ==> misspelled((#[trigger] packages[k]).1) is None,
    decreases packages.len(),
{
    if packages.len() > 0 {
        let head = packages.drop_last();
        law_the_first_misspelled_is_told(head);
        assert(packages[packages.len() - 1] == packages.last());
        assert forall|i: int| 0 <= i < head.len() implies head[i] == #[trigger] packages[i] by {}
        if first_misspelled(head) is None {
            assert forall|i: int| 0 <= i < head.len() implies misspelled((#[trigger] packages[i]).1)
                is None by {
                assert(head[i] == packages[i]);
            }
        } else {
            let i = first_misspelled(head).unwrap();
            assert(packages[i] == head[i]);
            assert forall|k: int| 0 <= k < i implies misspelled((#[trigger] packages[k]).1)
                is None by {
                assert(head[k] == packages[k]);
            }
        }
    }
}

/// A package is for a machine where it is for every operating system or for that of the
/// machine, and for every profile or for one of the machine's.
pub open spec fn is_for(p: Package, os: Seq<char>, current: Seq<Seq<char>>) -> bool {
    &&& p.os@.len() == 0 || exists|i: int| 0 <= i < p.os@.len() && (#[trigger] p.os@[i])@ == os
    &&& p.profiles@.len() == 0 || exists|i: int, j: int|
        0 <= i < p.profiles@.len() && 0 <= j < current.len() && (#[trigger] p.profiles@[i])@
            == #[trigger] current[j]
}

proof fn lemma_is_for(p: Package, os: Seq<char>, current: Seq<Seq<char>>)
    ensures
        admitted(p, os, current) == is_for(p, os, current),
{
    let t = texts(p.os@);
    if t.contains(os) {
        let i = choose|i: int| 0 <= i < t.len() && t[i] == os;
        assert(p.os@[i]@ == os);
    }
    if exists|i: int| 0 <= i < p.os@.len() && (#[trigger] p.os@[i])@ == os {
        let i = choose|i: int| 0 <= i < p.os@.len() && (#[trigger] p.os@[i])@ == os;
        assert(t[i] == os);
    }
    let q = texts(p.profiles@);
    if overlap(q, current) {
        let i = choose|i: int| 0 <= i < q.len() && current.contains(#[trigger] q[i]);
        let j = choose|j: int| 0 <= j < current.len() && current[j] == q[i];
        assert(p.profiles@[i]@ == current[j]);
    }
    if exists|i: int, j: int|
        0 <= i < p.profiles@.len() && 0 <= j < current.len() && (#[trigger] p.profiles@[i])@
            == #[trigger] current[j] {
        let (i, j) = choose|i: int, j: int|
            0 <= i < p.profiles@.len() && 0 <= j < current.len() && (#[trigger] p.profiles@[i])@
                == #[trigger] current[j];
        assert(q[i] == current[j]);
        assert(current.contains(q[i]));
    }
}

/// A package applies to a machine that it is for, unless it is optional.
pub proof fn law_one_applicable_package(
    name: Seq<char>,
    p: Package,
    os: Seq<char>,
    current: Seq<Seq<char>>,
)
    ensures
        applicable_among(seq![(name, p)], os, current) == if !p.optional && is_for(p, os, current) {
            seq![(name, p)]
        } else {
            Seq::<(Seq<char>, Package)>::empty()
        },
{
    lemma_is_for(p, os, current);
    let one = seq![(name, p)];
    assert(one.last() == (name, p));
    assert(one.drop_last() =~= Seq::empty());
    assert(applicable_among(one.drop_last(), os, current) =~= Seq::empty());
    assert(Seq::<(Seq<char>, Package)>::empty().push((name, p)) =~= one);
}

/// A package that applies is wanted from its distribution under the name that it has there;
/// where it has none, from its own manager under its own name. A cask that is no font is
/// wanted on macOS only, and what no manager here installs is not wanted at all.
pub proof fn law_one_package_is_wanted(
    name: Seq<char>,
    p: Package,
    os: Seq<char>,
    current: Seq<Seq<char>>,
    linux_pm: Option<Manager>,
)
    ensures
        ({
            let wanted = wanted_among(seq![(name, p)], os, current, linux_pm);
            let there = match linux_pm {
                Some(Manager::Apt) => p.apt,
                Some(Manager::Yay) => p.yay,
                _ => None,
            };
            if p.optional || !is_for(p, os, current) {
                wanted.len() == 0
            } else {
                match (there, p.installer()) {
                    (Some(n), _) => wanted == seq![(n@, linux_pm.unwrap())],
                    (None, Manager::Unmanaged)
                    | (None, Manager::Unknown)
                    | (None, Manager::ZedExtension) => wanted.len() == 0,
                    (None, Manager::BrewCask) => if p.sort() is Font || (os == "darwin"@ && linux_pm
                        is None) {
                        wanted == seq![(name, Manager::BrewCask)]
                    } else {
                        wanted.len() == 0
                    },
                    (None, m) => wanted == seq![(name, m)],
                }
            }
        }),
{
    lemma_is_for(p, os, current);
    let one = seq![(name, p)];
    assert(one.last() == (name, p));
    assert(one.drop_last() =~= Seq::empty());
    let none = wanted_among(one.drop_last(), os, current, linux_pm);
    assert(none =~= Seq::empty());
    if let Some((n, m)) = resolved(name, p, linux_pm) {
        assert(none.push((n, m)) =~= seq![(n, m)]);
    }
}

/// Profiles are told with commas between them, and white space round them does not count.
pub proof fn law_profiles_stand_between_commas(
    a: Seq<char>,
    b: Seq<char>,
    left: Seq<char>,
    name: Seq<char>,
    right: Seq<char>,
)
    requires
        name.len() > 0,
        !name.contains(','),
        !is_space(name[0]),
        !is_space(name.last()),
        forall|i: int| 0 <= i < left.len() ==> is_space(#[trigger] left[i]),
        forall|i: int| 0 <= i < right.len() ==> is_space(#[trigger] right[i]),
    ensures
        profiles_in(a + seq![','] + b) == profiles_in(a) + profiles_in(b),
        profiles_in(left + name + right) == seq![name],
        profiles_in(left).len() == 0,
{
    let sep = Sep::Is(',');
    law_cut_at_every_separator(a, ',', b, sep);
    let x = fragments(a, sep);
    let y = fragments(b, sep);
    assert(all_trimmed(x + y) =~= all_trimmed(x) + all_trimmed(y));
    law_nonempty_pieces(all_trimmed(x), all_trimmed(y), name);
    let s = left + name + right;
    assert forall|i: int| 0 <= i < s.len() implies !sep.cuts(#[trigger] s[i]) by {
        if i < left.len() {
            assert(s[i] == left[i]);
            assert(is_space(left[i]));
        } else if i < left.len() + name.len() {
            assert(s[i] == name[i - left.len()]);
            assert(name.contains(name[i - left.len()]));
        } else {
            assert(s[i] == right[i - left.len() - name.len()]);
            assert(is_space(right[i - left.len() - name.len()]));
        }
    }
    law_nothing_to_cut(s, sep);
    assert forall|i: int| 0 <= i < left.len() implies Sep::Space.cuts(#[trigger] left[i]) by {}
    assert forall|i: int| 0 <= i < right.len() implies Sep::Space.cuts(#[trigger] right[i]) by {}
    law_trimmed_at_both_ends(left, name, right, Sep::Space);
    assert(all_trimmed(seq![s]) =~= seq![name]);
    assert forall|i: int| 0 <= i < left.len() implies !sep.cuts(#[trigger] left[i]) by {
        assert(is_space(left[i]));
    }
    law_nothing_to_cut(left, sep);
    assert(all_trimmed(seq![left]) =~= seq![trimmed(left)]);
    law_nonempty_pieces(seq![], seq![], trimmed(left));
}

/// The names of a package count as optional where it is optional or not for the machine, and
/// the package that is declared last decides.
pub proof fn law_the_last_declaration_decides(
    packages: Seq<(Seq<char>, Package)>,
    name: Seq<char>,
    p: Package,
    kind: Kind,
    os: Seq<char>,
    current: Seq<Seq<char>>,
    n: Seq<char>,
)
    ensures
        lookup(provided_among(packages.push((name, p)), kind, os, current), n) == if p.sort() == kind
            && ((kind != Kind::Font && n == name) || exists|i: int|
            0 <= i < p.provides@.len() && (#[trigger] p.provides@[i])@ == n) {
            Some(p.optional || !is_for(p, os, current))
        } else {
            lookup(provided_among(packages, kind, os, current), n)
        },
{
    let all = packages.push((name, p));
    assert(all.drop_last() =~= packages);
    assert(all.last() == (name, p));
    lemma_is_for(p, os, current);
    let before = provided_among(packages, kind, os, current);
    let optional = p.optional || !admitted(p, os, current);
    let own = texts(p.provides@);
    lemma_put_each(before, own, optional, n);
    lemma_put_each(put(before, name, optional), own, optional, n);
    law_lookup_after_put(before, name, optional, n);
    if own.contains(n) {
        let i = choose|i: int| 0 <= i < own.len() && own[i] == n;
        assert(p.provides@[i]@ == n);
    }
    if exists|i: int| 0 <= i < p.provides@.len() && (#[trigger] p.provides@[i])@ == n {
        let i = choose|i: int| 0 <= i < p.provides@.len() && (#[trigger] p.provides@[i])@ == n;
        assert(own[i] == n);
    }
}

/// Whether a package applies does not depend on the packages around it.
pub proof fn law_packages_apply_one_by_one(a: Seq<(Seq<char>, Package)>, b: Seq<(Seq<char>, Package)>, os: Seq<char>, current: Seq<Seq<char>>)
    ensures
        applicable_among(a + b, os, current) == applicable_among(a, os, current) + applicable_among(b, os, current),
    decreases b.len(),
{
    if b.len() == 0 {
        assert(a + b =~= a);
        assert(applicable_among(a, os, current) + applicable_among(b, os, current) =~= applicable_among(a, os, current));
    } else {
        assert((a + b).drop_last() =~= a + b.drop_last());
        law_packages_apply_one_by_one(a, b.drop_last(), os, current);
        assert(applicable_among(a + b, os, current) =~= applicable_among(a, os, current) + applicable_among(b, os, current));
    }
}

/// Whether a package is wanted does not depend on the packages around it.
pub proof fn law_packages_are_wanted_one_by_one(a: Seq<(Seq<char>, Package)>, b: Seq<(Seq<char>, Package)>, os: Seq<char>, current: Seq<Seq<char>>, linux_pm: Option<Manager>)
    ensures
        wanted_among(a + b, os, current, linux_pm) == wanted_among(a, os, current, linux_pm) + wanted_among(b, os, current, linux_pm),
    decreases b.len(),
{
    if b.len() == 0 {
        assert(a + b =~= a);
        assert(wanted_among(a, os, current, linux_pm) + wanted_among(b, os, current, linux_pm) =~= wanted_among(a, os, current, linux_pm));
    } else {
        assert((a + b).drop_last() =~= a + b.drop_last());
        law_packages_are_wanted_one_by_one(a, b.drop_last(), os, current, linux_pm);
        assert(wanted_among(a + b, os, current, linux_pm) =~= wanted_among(a, os, current, linux_pm) + wanted_among(b, os, current, linux_pm));
    }
}

/// The sort of a package and what installs it are those that its declaration spells.
pub proof fn law_declarations_are_taken_at_their_word(p: &Package, kind: Kind, manager: Manager)
    requires
        call_ensures(Package::kind_of, (p,), kind),
        call_ensures(Package::manager_of, (p,), manager),
    ensures
        kind == p.sort(),
        manager == p.installer(),
        p.kind is None ==> kind is Command,
        p.kind matches Some(k) ==> {
            &&& kind is Font <==> k@ == "font"@
            &&& kind is Extension <==> k@ == "extension"@
            &&& kind is Library <==> k@ == "library"@
        },
        p.manager is None ==> manager is Brew,
        p.manager matches Some(m) ==> {
            &&& manager is Brew <==> m@ == "brew"@
            &&& manager is BrewCask <==> m@ == "brew-cask"@
            &&& manager is Mise <==> m@ == "mise"@
            &&& manager is Apt <==> m@ == "apt"@
            &&& manager is Yay <==> m@ == "yay"@
            &&& manager is ZedExtension <==> m@ == "zed-extension"@
            &&& manager is Unmanaged <==> m@ == "none"@
        },
{
    lemma_names_differ();
}

/// Where both managers of a distribution are there, yay is the one; without either there is
/// none.
pub proof fn law_which_distribution_this_is(has_yay: bool, has_apt_get: bool, r: Option<Manager>)
    requires
        call_ensures(detect_linux_pm, (has_yay, has_apt_get), r),
    ensures
        r == Some(Manager::Yay) <==> has_yay,
        r == Some(Manager::Apt) <==> has_apt_get && !has_yay,
        r is None <==> !has_yay && !has_apt_get,
{
}

/// There are no profiles where none are told.
pub proof fn law_current_profiles(value: Option<&str>, r: Vec<String>)
    requires
        call_ensures(current_profiles, (value,), r),
    ensures
        value is None ==> r@.len() == 0,
        value matches Some(v) ==> texts(r@) == profiles_in(v@),
        forall|i: int| 0 <= i < r@.len() ==> (#[trigger] r@[i])@.len() > 0,
{
    let t = texts(r@);
    if let Some(v) = value {
        law_nothing_empty_is_kept(all_trimmed(fragments(v@, Sep::Is(','))));
    }
    assert(t.len() == r@.len());
    assert forall|i: int| 0 <= i < r@.len() implies (#[trigger] r@[i])@.len() > 0 by {
        assert(t[i] == r@[i]@);
    }
}

/// Where a command is to be ignored it counts as declared and installed, whatever the
/// packages say; names of other kinds are those of the packages.
pub proof fn law_ignored_commands_are_no_surprise(
    packages: &Packages,
    os: &str,
    current: &Vec<String>,
    r: Provided,
    name: Seq<char>,
    kind: Kind,
)
    requires
        call_ensures(Packages::provided, (packages, os, current), r),
    ensures
        texts(packages.ignore.commands@).contains(name) ==> lookup(r.commands@, name) == Some(false),
        !texts(packages.ignore.commands@).contains(name) ==> lookup(r.commands@, name) == lookup(
            provided_among(packages.packages@, Kind::Command, os@, texts(current@)),
            name,
        ),
        r.fonts@ == provided_among(packages.packages@, Kind::Font, os@, texts(current@)),
        r.extensions@ == provided_among(packages.packages@, Kind::Extension, os@, texts(current@)),
        r.libraries@ == provided_among(packages.packages@, Kind::Library, os@, texts(current@)),
{
    let all = provided_among(packages.packages@, Kind::Command, os@, texts(current@));
    lemma_put_each(all, texts(packages.ignore.commands@), false, name);
    assert(r.names(Kind::Command) == r.commands@);
    assert(r.names(Kind::Font) == r.fonts@);
    assert(r.names(Kind::Extension) == r.extensions@);
    assert(r.names(Kind::Library) == r.libraries@);
}

/// What is wanted is listed by name, and nothing of it is lost.
pub proof fn law_what_is_wanted_is_in_order(
    packages: &Packages,
    os: &str,
    current: &Vec<String>,
    linux_pm: Option<Manager>,
    r: Vec<Installable>,
    i: int,
    j: int,
)
    requires
        call_ensures(Packages::installable, (packages, os, current, linux_pm), r),
        0 <= i < j < r@.len(),
    ensures
        text_le(r@[i].name@, r@[j].name@),
        r@.len() == wanted_among(packages.packages@, os@, texts(current@), linux_pm).len(),
{
    let all = wanted_among(packages.packages@, os@, texts(current@), linux_pm);
    law_sorting_orders(all);
    law_sorting_keeps_items(all);
    let s = sorted_of(all);
    assert(chosen(r@)[i] == (r@[i].name@, r@[i].manager));
    assert(chosen(r@)[j] == (r@[j].name@, r@[j].manager));
    assert(s[i].at_most(s[j]));
    assert(chosen(r@).len() == r@.len());
}

} // verus!
