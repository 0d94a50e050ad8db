//! What a repository declares: the paths to place, what is generated, and how.
use crate::encrypted::Encryption;
use crate::hooks::Hook;
use crate::path::{
    contained, extension, is_contained, law_contained_stays_below, path_eq, path_extension,
    path_within, same_path, under, within,
};
use crate::provider::Provider;
use crate::table::{keys_of, plain, values, values_of, Table};
use crate::text::{
    all_octal, byte_len, bytes_in, cat3, chars_of, is_octal, lemma_texts_empty,
    lemma_texts_push, octal_number, octal_value, parse_octal, same_text, starts, string_of,
    strip_prefix, texts, unsigned,
};
use vstd::prelude::*;

verus! {

/// The paths to place.
pub struct Link {
    pub common: Vec<String>,
    pub darwin: Vec<String>,
    pub linux: Vec<String>,
    /// What is never placed: `*.ext` stands for an extension, anything else for a path and
    /// all that lies below it.
    pub ignore: Vec<String>,
}

/// What a repository declares.
pub struct Manifest {
    pub link: Link,
    /// From outputs to the templates they are made of.
    pub render: Table<String>,
    /// What runs after files are placed.
    pub hooks: Table<Hook>,
    /// The data files that templates see.
    pub data: Vec<String>,
    /// From paths to their modes, in base eight.
    pub modes: Table<String>,
    /// From schemes to the providers that serve them.
    pub providers: Table<Provider>,
    /// From outputs to the encrypted files they are made of.
    pub encrypted: Table<String>,
    /// How encrypted files are opened.
    pub encryption: Option<Encryption>,
}

/// Copies the texts of a list behind those of another.
pub fn push_all(out: &mut Vec<String>, more: &Vec<String>)
    ensures
        texts(final(out)@) == texts(old(out)@) + texts(more@),
{
    let ghost before = texts(out@);
    assert(before + texts(more@).take(0) =~= before);
    for i in 0..more.len()
        invariant
            texts(out@) == before + texts(more@).take(i as int),
    {
        let s = more[i].clone();
        proof {
            lemma_texts_push(out@, s);
            assert(texts(more@).take(i + 1) =~= texts(more@).take(i as int).push(s@));
            assert((before + texts(more@).take(i as int)).push(s@) =~= before + texts(more@).take(
                i + 1,
            ));
        }
        out.push(s);
    }
    assert(texts(more@).take(more@.len() as int) =~= texts(more@));
}

/// Whether a pattern stands for a path.
pub open spec fn pattern_matches(pattern: Seq<char>, rel: Seq<char>) -> bool {
    if starts(pattern, seq!['*', '.']) {
        extension(rel) == Some(pattern.skip(2))
    } else {
        within(rel, pattern)
    }
}

fn matches_pattern(pattern: &str, rel: &str) -> (r: bool)
    ensures
        r == pattern_matches(pattern@, rel@),
{
    proof {
        reveal_strlit("*.");
        assert("*."@ =~= seq!['*', '.']);
    }
    let c = chars_of(pattern);
    match strip_prefix(c.as_slice(), "*.") {
        Some(ext) => match path_extension(rel) {
            Some(e) => {
                let ext = string_of(ext);
                same_text(e.as_str(), ext.as_str())
            },
            None => false,
        },
        None => path_within(rel, pattern),
    }
}

/// The longest declaration at or above a path; of two of the same length the last.
pub open spec fn longest_match(modes: Seq<(Seq<char>, Seq<char>)>, rel: Seq<char>) -> Option<int>
    decreases modes.len(),
{
    if modes.len() == 0 {
        None
    } else {
        let before = longest_match(modes.drop_last(), rel);
        let key = modes.last().0;
        if !within(rel, key) {
            before
        } else {
            match before {
                Some(b) => if byte_len(modes[b].0) > byte_len(key) {
                    before
                } else {
                    Some(modes.len() - 1)
                },
                None => Some(modes.len() - 1),
            }
        }
    }
}

/// The first declaration for a path itself.
pub open spec fn exact_match(modes: Seq<(Seq<char>, Seq<char>)>, rel: Seq<char>) -> Option<int>
    decreases modes.len(),
{
    if modes.len() == 0 {
        None
    } else {
        match exact_match(modes.drop_last(), rel) {
            Some(i) => Some(i),
            None => if same_path(rel, modes.last().0) {
                Some(modes.len() - 1)
            } else {
                None
            },
        }
    }
}

/// Whether a text is a mode: three digits of base eight.
pub open spec fn is_mode(s: Seq<char>) -> bool {
    s.len() == 3 && all_octal(s)
}

fn mode_text(s: &str) -> (r: bool)
    ensures
        r == is_mode(s@),
{
    let c = chars_of(s);
    if c.len() != 3 {
        return false;
    }
    for i in 0..3usize
        invariant
            c@ == s@,
            c@.len() == 3,
            forall|k: int| 0 <= k < i ==> is_octal(#[trigger] c@[k]),
    {
        if !('0' <= c[i] && c[i] <= '7') {
            assert(!is_octal(s@[i as int]));
            return false;
        }
    }
    true
}

/// Why a manifest is refused.
pub enum ManifestError {
    /// A declared path leaves the repository.
    Escapes(String),
    /// A mode is not three digits of base eight.
    BadMode { path: String, mode: String },
}

impl ManifestError {
    /// The error in words.
    pub fn message(&self) -> (r: String)
        ensures
            r@ == match *self {
                ManifestError::Escapes(path) => "declared path `"@ + path@
                    + "` leaves the repository: it must be relative, without `..`"@,
                ManifestError::BadMode { path, mode } => "mode `"@ + mode@ + "` of `"@ + path@
                    + "` is not three octal digits"@,
            },
    {
        match self {
            ManifestError::Escapes(path) => cat3(
                "declared path `",
                path.as_str(),
                "` leaves the repository: it must be relative, without `..`",
            ),
            ManifestError::BadMode { path, mode } => {
                let head = cat3("mode `", mode.as_str(), "` of `");
                cat3(head.as_str(), path.as_str(), "` is not three octal digits")
            },
        }
    }
}

/// The paths that hooks name.
pub open spec fn hook_paths(hooks: Seq<(Seq<char>, Hook)>) -> Seq<Seq<char>>
    decreases hooks.len(),
{
    if hooks.len() == 0 {
        seq![]
    } else {
        let hook = hooks.last().1;
        let watched = hook_paths(hooks.drop_last()) + texts(hook.when_changed@);
        match hook.cwd {
            Some(dir) => watched.push(dir@),
            None => watched,
        }
    }
}

/// The first path that leads out of the directory it is put behind.
pub open spec fn first_escape(paths: Seq<Seq<char>>) -> Option<Seq<char>>
    decreases paths.len(),
{
    if paths.len() == 0 {
        None
    } else {
        match first_escape(paths.drop_last()) {
            Some(p) => Some(p),
            None => if contained(paths.last()) {
                None
            } else {
                Some(paths.last())
            },
        }
    }
}

/// The first declaration whose mode is none.
pub open spec fn first_bad_mode(modes: Seq<(Seq<char>, Seq<char>)>) -> Option<int>
    decreases modes.len(),
{
    if modes.len() == 0 {
        None
    } else {
        match first_bad_mode(modes.drop_last()) {
            Some(i) => Some(i),
            None => if is_mode(modes.last().1) {
                None
            } else {
                Some(modes.len() - 1)
            },
        }
    }
}

impl Manifest {
    /// All paths that are declared, ignored ones aside.
    pub open spec fn declared(&self) -> Seq<Seq<char>> {
        texts(self.link.common@) + texts(self.link.darwin@) + texts(self.link.linux@) + keys_of(
            self.render@,
        ) + values_of(plain(self.render@)) + keys_of(self.encrypted@) + values_of(
            plain(self.encrypted@),
        ) + keys_of(self.modes@) + texts(self.data@) + hook_paths(self.hooks@)
    }

    /// The paths that are placed under an operating system.
    pub fn targets(&self, os: &str) -> (r: Vec<String>)
        ensures
            texts(r@) == texts(self.link.common@) + if os@ == "darwin"@ {
                texts(self.link.darwin@)
            } else {
                texts(self.link.linux@)
            },
    {
        let mut out: Vec<String> = Vec::new();
        proof {
            lemma_texts_empty();
        }
        push_all(&mut out, &self.link.common);
        assert(texts(out@) =~= texts(self.link.common@));
        if same_text(os, "darwin") {
            push_all(&mut out, &self.link.darwin);
        } else {
            push_all(&mut out, &self.link.linux);
        }
        out
    }

    /// The mode declared for a path or above it: the longest declaration counts.
    pub fn mode_for(&self, rel: &str) -> (r: Option<u32>)
        ensures
            r == match longest_match(plain(self.modes@), rel@) {
                Some(i) => octal_number(plain(self.modes@)[i].1),
                None => None,
            },
    {
        let ghost modes = plain(self.modes@);
        let mut best: Option<usize> = None;
        let n = self.modes.len();
        assert(modes.take(0) =~= Seq::empty());
        for i in 0..n
            invariant
                n == self.modes@.len(),
                modes == plain(self.modes@),
                match best {
                    Some(b) => b < i && longest_match(modes.take(i as int), rel@) == Some(
                        b as int,
                    ),
                    None => longest_match(modes.take(i as int), rel@) is None,
                },
        {
            let key = self.modes.key(i);
            proof {
                let t = modes.take(i + 1);
                assert(t.drop_last() =~= modes.take(i as int));
                assert(t.last() == modes[i as int]);
            }
            if path_within(rel, key.as_str()) {
                let longer = match best {
                    Some(b) => bytes_in(self.modes.key(b).as_str()) > bytes_in(key.as_str()),
                    None => false,
                };
                if !longer {
                    best = Some(i);
                }
            }
        }
        assert(modes.take(modes.len() as int) =~= modes);
        match best {
            Some(b) => parse_octal(self.modes.value(b).as_str()),
            None => None,
        }
    }

    /// The mode declared for a path itself.
    pub open spec fn mode_at(self, rel: Seq<char>) -> Option<u32> {
        match exact_match(plain(self.modes@), rel) {
            Some(i) => octal_number(plain(self.modes@)[i].1),
            None => None,
        }
    }

    /// The mode declared for a path itself. A declaration for a directory says nothing of
    /// the files in it.
    pub fn declared_mode(&self, rel: &str) -> (r: Option<u32>)
        ensures
            r == self.mode_at(rel@),
    {
        let ghost modes = plain(self.modes@);
        let n = self.modes.len();
        let mut found: Option<usize> = None;
        assert(modes.take(0) =~= Seq::empty());
        for i in 0..n
            invariant
                n == self.modes@.len(),
                modes == plain(self.modes@),
                match found {
                    Some(b) => b < i && exact_match(modes.take(i as int), rel@) == Some(b as int),
                    None => exact_match(modes.take(i as int), rel@) is None,
                },
        {
            proof {
                let t = modes.take(i + 1);
                assert(t.drop_last() =~= modes.take(i as int));
                assert(t.last() == modes[i as int]);
            }
            if found.is_none() && path_eq(rel, self.modes.key(i).as_str()) {
                found = Some(i);
            }
        }
        assert(modes.take(modes.len() as int) =~= modes);
        match found {
            Some(b) => parse_octal(self.modes.value(b).as_str()),
            None => None,
        }
    }

    /// Whether a path is ignored.
    pub open spec fn ignores(&self, rel: Seq<char>) -> bool {
        exists|i: int|
            0 <= i < self.link.ignore@.len() && pattern_matches(
                (#[trigger] self.link.ignore@[i])@,
                rel,
            )
    }

    /// Whether a path is ignored.
    pub fn is_ignored(&self, rel: &str) -> (r: bool)
        ensures
            r == self.ignores(rel@),
    {
        let ignore = &self.link.ignore;
        for i in 0..ignore.len()
            invariant
                ignore@ == self.link.ignore@,
                forall|k: int| 0 <= k < i ==> !pattern_matches((#[trigger] ignore@[k])@, rel@),
        {
            if matches_pattern(ignore[i].as_str(), rel) {
                assert(pattern_matches(self.link.ignore@[i as int]@, rel@));
                return true;
            }
        }
        false
    }

    /// Whether a path is what an output is rendered from.
    pub open spec fn reads_template(&self, rel: Seq<char>) -> bool {
        exists|i: int| 0 <= i < self.render@.len() && same_path((#[trigger] self.render@[i]).1@, rel)
    }

    /// Whether a path is what an output is rendered from.
    pub fn is_template(&self, rel: &str) -> (r: bool)
        ensures
            r == self.reads_template(rel@),
    {
        value_is_path(&self.render, rel)
    }

    /// Whether a path is what an output is decrypted from.
    pub open spec fn reads_ciphertext(&self, rel: Seq<char>) -> bool {
        exists|i: int|
            0 <= i < self.encrypted@.len() && same_path((#[trigger] self.encrypted@[i]).1@, rel)
    }

    /// Whether a path is what an output is decrypted from.
    pub fn is_ciphertext(&self, rel: &str) -> (r: bool)
        ensures
            r == self.reads_ciphertext(rel@),
    {
        value_is_path(&self.encrypted, rel)
    }

    /// The data files to read: those declared, or `theme.toml` where none is.
    pub fn data_files(&self) -> (r: Vec<String>)
        ensures
            texts(r@) == if self.data@.len() == 0 {
                seq!["theme.toml"@]
            } else {
                texts(self.data@)
            },
    {
        let mut out: Vec<String> = Vec::new();
        proof {
            lemma_texts_empty();
        }
        if self.data.len() == 0 {
            let name = "theme.toml".to_owned();
            proof {
                lemma_texts_push(out@, name);
            }
            out.push(name);
            assert(texts(out@) =~= seq!["theme.toml"@]);
        } else {
            push_all(&mut out, &self.data);
            assert(texts(out@) =~= texts(self.data@));
        }
        out
    }

    fn declared_paths(&self) -> (r: Vec<String>)
        ensures
            texts(r@) == self.declared(),
    {
        let mut out: Vec<String> = Vec::new();
        proof {
            lemma_texts_empty();
        }
        push_all(&mut out, &self.link.common);
        assert(texts(out@) =~= texts(self.link.common@));
        push_all(&mut out, &self.link.darwin);
        push_all(&mut out, &self.link.linux);
        push_all(&mut out, &self.render.keys());
        push_all(&mut out, &values(&self.render));
        push_all(&mut out, &self.encrypted.keys());
        push_all(&mut out, &values(&self.encrypted));
        push_all(&mut out, &self.modes.keys());
        push_all(&mut out, &self.data);
        let ghost before = texts(out@);
        let hooks = &self.hooks;
        let n = hooks.len();
        assert(before + hook_paths(hooks@.take(0)) =~= before);
        for i in 0..n
            invariant
                n == hooks@.len(),
                texts(out@) == before + hook_paths(hooks@.take(i as int)),
        {
            let ghost so_far = hook_paths(hooks@.take(i as int));
            proof {
                let t = hooks@.take(i + 1);
                assert(t.drop_last() =~= hooks@.take(i as int));
                assert(t.last() == hooks@[i as int]);
            }
            let hook = hooks.value(i);
            push_all(&mut out, &hook.when_changed);
            assert(texts(out@) =~= before + (so_far + texts(hook.when_changed@)));
            match &hook.cwd {
                Some(dir) => {
                    let dir = dir.clone();
                    proof {
                        lemma_texts_push(out@, dir);
                        assert((before + (so_far + texts(hook.when_changed@))).push(dir@)
                            =~= before + (so_far + texts(hook.when_changed@)).push(dir@));
                    }
                    out.push(dir);
                },
                None => {},
            }
        }
        assert(hooks@.take(hooks@.len() as int) =~= hooks@);
        out
    }

    /// Refuses what would leave the repository, and a mode that is none: a restriction that
    /// silently does not apply is worse than one that fails loudly.
    pub fn validate(&self) -> (r: Result<(), ManifestError>)
        ensures
            match first_escape(self.declared()) {
                Some(p) => r matches Err(ManifestError::Escapes(path)) && path@ == p,
                None => match first_bad_mode(plain(self.modes@)) {
                    Some(i) => r matches Err(ManifestError::BadMode { path, mode }) && path@
                        == plain(self.modes@)[i].0 && mode@ == plain(self.modes@)[i].1,
                    None => r is Ok,
                },
            },
    {
        let paths = self.declared_paths();
        let ghost all = self.declared();
        assert(all.take(0) =~= Seq::empty());
        for i in 0..paths.len()
            invariant
                texts(paths@) == all,
                all == self.declared(),
                first_escape(all.take(i as int)) is None,
        {
            proof {
                let t = all.take(i + 1);
                assert(t.drop_last() =~= all.take(i as int));
                assert(t.last() == paths@[i as int]@);
            }
            if !is_contained(paths[i].as_str()) {
                proof {
                    lemma_escape_stays(all, i + 1);
                }
                return Err(ManifestError::Escapes(paths[i].clone()));
            }
        }
        assert(all.take(all.len() as int) =~= all);
        let ghost modes = plain(self.modes@);
        let n = self.modes.len();
        assert(modes.take(0) =~= Seq::empty());
        for i in 0..n
            invariant
                n == self.modes@.len(),
                modes == plain(self.modes@),
                first_escape(self.declared()) is None,
                first_bad_mode(modes.take(i as int)) is None,
        {
            proof {
                let t = modes.take(i + 1);
                assert(t.drop_last() =~= modes.take(i as int));
                assert(t.last() == modes[i as int]);
            }
            if !mode_text(self.modes.value(i).as_str()) {
                proof {
                    lemma_bad_mode_stays(modes, i + 1);
                }
                return Err(
                    ManifestError::BadMode {
                        path: self.modes.key(i).clone(),
                        mode: self.modes.value(i).clone(),
                    },
                );
            }
        }
        assert(modes.take(modes.len() as int) =~= modes);
        Ok(())
    }
}

fn value_is_path(table: &Table<String>, rel: &str) -> (r: bool)
    ensures
        r == exists|i: int| 0 <= i < table@.len() && same_path((#[trigger] table@[i]).1@, rel@),
{
    let n = table.len();
    for i in 0..n
        invariant
            n == table@.len(),
            forall|k: int| 0 <= k < i ==> !same_path((#[trigger] table@[k]).1@, rel@),
    {
        if path_eq(table.value(i).as_str(), rel) {
            assert(same_path(table@[i as int].1@, rel@));
            return true;
        }
    }
    false
}

proof fn lemma_escape_stays(paths: Seq<Seq<char>>, n: int)
    requires
        0 <= n <= paths.len(),
        first_escape(paths.take(n)) is Some,
    ensures
        first_escape(paths) == first_escape(paths.take(n)),
    decreases paths.len() - n,
{
    if n == paths.len() {
        assert(paths.take(n) =~= paths);
    } else {
        assert(paths.take(n + 1).drop_last() =~= paths.take(n));
        lemma_escape_stays(paths, n + 1);
    }
}

proof fn lemma_bad_mode_stays(modes: Seq<(Seq<char>, Seq<char>)>, n: int)
    requires
        0 <= n <= modes.len(),
        first_bad_mode(modes.take(n)) is Some,
    ensures
        first_bad_mode(modes) == first_bad_mode(modes.take(n)),
    decreases modes.len() - n,
{
    if n == modes.len() {
        assert(modes.take(n) =~= modes);
    } else {
        assert(modes.take(n + 1).drop_last() =~= modes.take(n));
        lemma_bad_mode_stays(modes, n + 1);
    }
}

proof fn lemma_no_escape(paths: Seq<Seq<char>>, i: int)
    requires
        first_escape(paths) is None,
        0 <= i < paths.len(),
    ensures
        contained(paths[i]),
    decreases paths.len(),
{
    if i < paths.len() - 1 {
        lemma_no_escape(paths.drop_last(), i);
    }
}

/// Every path that an accepted manifest declares lies inside the directory it is put
/// behind, be that the repository or the home directory.
pub proof fn law_accepted_paths_stay_inside(m: Manifest, path: Seq<char>, base: Seq<char>)
    requires
        first_escape(m.declared()) is None,
        m.declared().contains(path),
    ensures
        contained(path),
        within(under(base, path), base),
{
    let i = choose|i: int| 0 <= i < m.declared().len() && m.declared()[i] == path;
    lemma_no_escape(m.declared(), i);
    law_contained_stays_below(base, path);
}

/// Every mode that an accepted manifest declares is a number of three digits: none is
/// silently passed over.
pub proof fn law_accepted_modes_are_read(modes: Seq<(Seq<char>, Seq<char>)>, i: int)
    requires
        first_bad_mode(modes) is None,
        0 <= i < modes.len(),
    ensures
        octal_number(modes[i].1) matches Some(mode) && mode <= 0o777,
    decreases modes.len(),
{
    if i < modes.len() - 1 {
        law_accepted_modes_are_read(modes.drop_last(), i);
    } else {
        let s = modes[i].1;
        assert(is_octal(s[0]) && is_octal(s[1]) && is_octal(s[2]));
        assert(unsigned(s) == s);
        let t = s.drop_last();
        let u = t.drop_last();
        assert(u.drop_last() =~= Seq::empty());
        assert(octal_value(u.drop_last()) == 0);
        assert(octal_value(u) <= 7);
        assert(octal_value(t) <= 63);
        assert(octal_value(s) <= 511);
    }
}

/// Of the declarations at or above a path, none is longer than the one that counts.
pub proof fn law_longest_declaration_wins(
    modes: Seq<(Seq<char>, Seq<char>)>,
    rel: Seq<char>,
    j: int,
)
    requires
        0 <= j < modes.len(),
        within(rel, modes[j].0),
    ensures
        longest_match(modes, rel) matches Some(i) && 0 <= i < modes.len() && within(
            rel,
            modes[i].0,
        ) && byte_len(modes[j].0) <= byte_len(modes[i].0),
    decreases modes.len(),
{
    lemma_longest_match(modes.drop_last(), rel);
    if j < modes.len() - 1 {
        assert(modes.drop_last()[j] == modes[j]);
        law_longest_declaration_wins(modes.drop_last(), rel, j);
    }
}

proof fn lemma_longest_match(modes: Seq<(Seq<char>, Seq<char>)>, rel: Seq<char>)
    ensures
        longest_match(modes, rel) matches Some(i) ==> 0 <= i < modes.len() && within(
            rel,
            modes[i].0,
        ),
    decreases modes.len(),
{
    if modes.len() > 0 {
        lemma_longest_match(modes.drop_last(), rel);
    }
}

/// A pattern that begins with a star and a dot matches what has the extension behind it; any
/// other matches what lies at or below it.
pub proof fn law_what_patterns_match(pattern: Seq<char>, ext: Seq<char>, rel: Seq<char>)
    ensures
        pattern_matches(seq!['*', '.'] + ext, rel) <==> extension(rel) == Some(ext),
        !(pattern.len() >= 2 && pattern[0] == '*' && pattern[1] == '.') ==> (pattern_matches(
            pattern,
            rel,
        ) <==> within(rel, pattern)),
{
    let p = seq!['*', '.'] + ext;
    assert(p.take(2) =~= seq!['*', '.']);
    assert(p.skip(2) =~= ext);
    if starts(pattern, seq!['*', '.']) {
        assert(pattern.take(2)[0] == pattern[0] && pattern.take(2)[1] == pattern[1]);
    }
}

/// The mode of a path is the one that is declared for that very path, first of all.
pub proof fn law_modes_are_those_of_the_path(modes: Seq<(Seq<char>, Seq<char>)>, rel: Seq<char>)
    ensures
        exact_match(modes, rel) is None <==> forall|i: int|
            0 <= i < modes.len() ==> !same_path(rel, (#[trigger] modes[i]).0),
        exact_match(modes, rel) matches Some(i) ==> 0 <= i < modes.len() && same_path(
            rel,
            modes[i].0,
        ) && forall|k: int| 0 <= k < i ==> !same_path(rel, (#[trigger] modes[k]).0),
    decreases modes.len(),
{
    if modes.len() > 0 {
        let head = modes.drop_last();
        law_modes_are_those_of_the_path(head, rel);
        assert(modes[modes.len() - 1] == modes.last());
        if exact_match(head, rel) is None {
            assert forall|i: int| 0 <= i < head.len() implies !same_path(
                rel,
                (#[trigger] modes[i]).0,
            ) by {
                assert(head[i] == modes[i]);
            }
        } else {
            let i = exact_match(head, rel).unwrap();
            assert(modes[i] == head[i]);
            assert forall|k: int| 0 <= k < i implies !same_path(rel, (#[trigger] modes[k]).0) by {
                assert(head[k] == modes[k]);
            }
        }
    }
}

/// A path that leads outside is told, and the first one; where none is told, none leads
/// outside.
pub proof fn law_the_first_escape_is_told(paths: Seq<Seq<char>>)
    ensures
        first_escape(paths) is None <==> forall|i: int|
            0 <= i < paths.len() ==> contained(#[trigger] paths[i]),
        first_escape(paths) matches Some(p) ==> exists|i: int|
            0 <= i < paths.len() && #[trigger] paths[i] == p && !contained(p) && forall|k: int|
                0 <= k < i ==> contained(#[trigger] paths[k]),
    decreases paths.len(),
{
    if paths.len() > 0 {
        let head = paths.drop_last();
        law_the_first_escape_is_told(head);
        assert(paths[paths.len() - 1] == paths.last());
        if first_escape(head) is None {
            assert forall|i: int| 0 <= i < head.len() implies contained(#[trigger] paths[i]) by {
                assert(head[i] == paths[i]);
            }
        } else {
            let p = first_escape(head).unwrap();
            let i = choose|i: int|
                0 <= i < head.len() && #[trigger] head[i] == p && !contained(p) && forall|k: int|
                    0 <= k < i ==> contained(#[trigger] head[k]);
            assert(paths[i] == p);
            assert forall|k: int| 0 <= k < i implies contained(#[trigger] paths[k]) by {
                assert(head[k] == paths[k]);
            }
        }
    }
}

/// A mode that is not three octal digits is told, and the first one; where none is told,
/// every mode is.
pub proof fn law_the_first_bad_mode_is_told(modes: Seq<(Seq<char>, Seq<char>)>)
    ensures
        first_bad_mode(modes) is None <==> forall|i: int|
            0 <= i < modes.len() ==> three_digits((#[trigger] modes[i]).1),
        first_bad_mode(modes) matches Some(i) ==> 0 <= i < modes.len() && !three_digits(modes[i].1)
            && forall|k: int| 0 <= k < i ==> three_digits((#[trigger] modes[k]).1),
    decreases modes.len(),
{
    if modes.len() > 0 {
        let head = modes.drop_last();
        let last = modes.last().1;
        law_the_first_bad_mode_is_told(head);
        assert(modes[modes.len() - 1] == modes.last());
        if is_mode(last) {
            assert(is_octal(last[0]) && is_octal(last[1]) && is_octal(last[2]));
        }
        assert(is_mode(last) == three_digits(last));
        if first_bad_mode(head) is None {
            assert forall|i: int| 0 <= i < head.len() implies three_digits(
                (#[trigger] modes[i]).1,
            ) by {
                assert(head[i] == modes[i]);
            }
        } else {
            let i = first_bad_mode(head).unwrap();
            assert(modes[i] == head[i]);
            assert forall|k: int| 0 <= k < i implies three_digits((#[trigger] modes[k]).1) by {
                assert(head[k] == modes[k]);
            }
        }
    }
}

/// Whether a text is made of three octal digits.
pub open spec fn three_digits(s: Seq<char>) -> bool {
    s.len() == 3 && '0' <= s[0] <= '7' && '0' <= s[1] <= '7' && '0' <= s[2] <= '7'
}

/// The paths of hooks are those that they watch and those that they run in.
pub proof fn law_paths_of_hooks(hooks: Seq<(Seq<char>, Hook)>, path: Seq<char>)
    ensures
        hook_paths(hooks).contains(path) <==> exists|i: int|
            0 <= i < hooks.len() && (texts((#[trigger] hooks[i]).1.when_changed@).contains(path) || (
            hooks[i].1.cwd matches Some(dir) && dir@ == path)),
    decreases hooks.len(),
{
    if hooks.len() > 0 {
        let head = hooks.drop_last();
        law_paths_of_hooks(head, path);
        let hook = hooks.last().1;
        let a = hook_paths(head);
        let b = texts(hook.when_changed@);
        let all = hook_paths(hooks);
        assert(hooks[hooks.len() - 1] == hooks.last());
        if all.contains(path) {
            let k = choose|k: int| 0 <= k < all.len() && all[k] == path;
            if k < a.len() {
                assert(a[k] == path);
            } else if k < a.len() + b.len() {
                assert(b[k - a.len()] == path);
            }
            if a.contains(path) {
                let i = choose|i: int|
                    0 <= i < head.len() && (texts((#[trigger] head[i]).1.when_changed@).contains(
                        path,
                    ) || (head[i].1.cwd matches Some(dir) && dir@ == path));
                assert(hooks[i] == head[i]);
            }
        }
        if exists|i: int|
            0 <= i < hooks.len() && (texts((#[trigger] hooks[i]).1.when_changed@).contains(path) || (
            hooks[i].1.cwd matches Some(dir) && dir@ == path)) {
            let i = choose|i: int|
                0 <= i < hooks.len() && (texts((#[trigger] hooks[i]).1.when_changed@).contains(path)
                    || (hooks[i].1.cwd matches Some(dir) && dir@ == path));
            if i < head.len() {
                assert(head[i] == hooks[i]);
                let k = choose|k: int| 0 <= k < a.len() && a[k] == path;
                assert(all[k] == path);
            } else if b.contains(path) {
                let k = choose|k: int| 0 <= k < b.len() && b[k] == path;
                assert(all[a.len() + k] == path);
            } else {
                assert(all[a.len() + b.len() as int] == path);
            }
        }
    }
}

/// Every path that a manifest tells is declared, in whatever table it stands, and no other.
pub proof fn law_every_told_path_is_declared(m: Manifest, path: Seq<char>)
    ensures
        m.declared().contains(path) <==> texts(m.link.common@).contains(path) || texts(
            m.link.darwin@,
        ).contains(path) || texts(m.link.linux@).contains(path) || keys_of(m.render@).contains(path)
            || values_of(plain(m.render@)).contains(path) || keys_of(m.encrypted@).contains(path)
            || values_of(plain(m.encrypted@)).contains(path) || keys_of(m.modes@).contains(path)
            || texts(m.data@).contains(path) || hook_paths(m.hooks@).contains(path),
{
    let a = texts(m.link.common@);
    let b = texts(m.link.darwin@);
    let c = texts(m.link.linux@);
    let d = keys_of(m.render@);
    let e = values_of(plain(m.render@));
    let f = keys_of(m.encrypted@);
    let g = values_of(plain(m.encrypted@));
    let h = keys_of(m.modes@);
    let i = texts(m.data@);
    let j = hook_paths(m.hooks@);
    lemma_in_one(a, b, path);
    lemma_in_one(a + b, c, path);
    lemma_in_one(a + b + c, d, path);
    lemma_in_one(a + b + c + d, e, path);
    lemma_in_one(a + b + c + d + e, f, path);
    lemma_in_one(a + b + c + d + e + f, g, path);
    lemma_in_one(a + b + c + d + e + f + g, h, path);
    lemma_in_one(a + b + c + d + e + f + g + h, i, path);
    lemma_in_one(a + b + c + d + e + f + g + h + i, j, path);
}

proof fn lemma_in_one(a: Seq<Seq<char>>, b: Seq<Seq<char>>, x: Seq<char>)
    ensures
        (a + b).contains(x) <==> a.contains(x) || b.contains(x),
{
    let ab = a + b;
    if ab.contains(x) {
        let k = choose|k: int| 0 <= k < ab.len() && ab[k] == x;
        if k < a.len() {
            assert(a[k] == x);
        } else {
            assert(b[k - a.len()] == x);
        }
    }
    if a.contains(x) {
        let k = choose|k: int| 0 <= k < a.len() && a[k] == x;
        assert(ab[k] == x);
    }
    if b.contains(x) {
        let k = choose|k: int| 0 <= k < b.len() && b[k] == x;
        assert(ab[a.len() + k] == x);
    }
}

/// What is linked on a machine is what is for every machine and what is for its system, and
/// nothing that is for the other one alone.
pub proof fn law_targets_are_for_the_system(m: &Manifest, os: &str, r: Vec<String>, path: Seq<char>)
    requires
        call_ensures(Manifest::targets, (m, os), r),
    ensures
        texts(r@).contains(path) <==> texts(m.link.common@).contains(path) || (os@ == "darwin"@
            && texts(m.link.darwin@).contains(path)) || (os@ != "darwin"@ && texts(
            m.link.linux@,
        ).contains(path)),
{
    lemma_in_one(
        texts(m.link.common@),
        if os@ == "darwin"@ {
            texts(m.link.darwin@)
        } else {
            texts(m.link.linux@)
        },
        path,
    );
}

/// The data files are those that are told; where none are, there is one.
pub proof fn law_data_files(m: &Manifest, r: Vec<String>)
    requires
        call_ensures(Manifest::data_files, (m,), r),
    ensures
        m.data@.len() > 0 ==> texts(r@) == texts(m.data@),
        m.data@.len() == 0 ==> r@.len() == 1 && r@[0]@ == "theme.toml"@,
{
    if m.data@.len() == 0 {
        assert(texts(r@)[0] == "theme.toml"@);
        assert(texts(r@).len() == r@.len());
    }
}

/// A path has the mode of the longest declaration that it lies at or below, and of two that
/// are equally long that of the later one; without such a declaration it has none.
pub proof fn law_modes_are_inherited(m: &Manifest, rel: &str, r: Option<u32>)
    requires
        call_ensures(Manifest::mode_for, (m, rel), r),
    ensures
        (forall|i: int| 0 <= i < m.modes@.len() ==> !within(rel@, (#[trigger] m.modes@[i]).0)) ==> r
            is None,
        r is Some ==> exists|i: int|
            0 <= i < m.modes@.len() && within(rel@, (#[trigger] m.modes@[i]).0) && r == octal_number(
                m.modes@[i].1@,
            ) && (forall|j: int|
                0 <= j < m.modes@.len() && within(rel@, (#[trigger] m.modes@[j]).0) ==> byte_len(
                    m.modes@[j].0,
                ) <= byte_len(m.modes@[i].0) && (j > i ==> byte_len(m.modes@[j].0) < byte_len(
                    m.modes@[i].0,
                ))),
{
    let modes = plain(m.modes@);
    lemma_longest(modes, rel@);
    if let Some(i) = longest_match(modes, rel@) {
        assert(modes[i].0 == m.modes@[i].0);
        assert(modes[i].1 == m.modes@[i].1@);
        assert forall|j: int|
            0 <= j < m.modes@.len() && within(rel@, (#[trigger] m.modes@[j]).0) implies byte_len(
            m.modes@[j].0,
        ) <= byte_len(m.modes@[i].0) && (j > i ==> byte_len(m.modes@[j].0) < byte_len(
            m.modes@[i].0,
        )) by {
            assert(modes[j].0 == m.modes@[j].0);
        }
        assert(within(rel@, m.modes@[i].0));
    }
}

proof fn lemma_longest(modes: Seq<(Seq<char>, Seq<char>)>, rel: Seq<char>)
    ensures
        longest_match(modes, rel) is None ==> forall|i: int|
            0 <= i < modes.len() ==> !within(rel, (#[trigger] modes[i]).0),
        longest_match(modes, rel) matches Some(i) ==> 0 <= i < modes.len() && within(
            rel,
            modes[i].0,
        ) && forall|j: int|
            0 <= j < modes.len() && within(rel, (#[trigger] modes[j]).0) ==> byte_len(modes[j].0)
                <= byte_len(modes[i].0) && (j > i ==> byte_len(modes[j].0) < byte_len(modes[i].0)),
    decreases modes.len(),
{
    if modes.len() > 0 {
        let head = modes.drop_last();
        lemma_longest(head, rel);
        assert(modes[modes.len() - 1] == modes.last());
        assert forall|i: int| 0 <= i < head.len() implies head[i] == #[trigger] modes[i] by {}
        match longest_match(head, rel) {
            None => {
                assert forall|i: int| 0 <= i < head.len() implies !within(
                    rel,
                    (#[trigger] modes[i]).0,
                ) by {
                    assert(head[i] == modes[i]);
                }
            },
            Some(b) => {
                assert forall|j: int|
                    0 <= j < head.len() && within(rel, (#[trigger] modes[j]).0) implies byte_len(
                    modes[j].0,
                ) <= byte_len(modes[b].0) && (j > b ==> byte_len(modes[j].0) < byte_len(
                    modes[b].0,
                )) by {
                    assert(head[j] == modes[j]);
                }
            },
        }
    }
}

/// A manifest is accepted exactly where every path that it tells stays inside and every mode
/// that it tells is three octal digits.
pub proof fn law_what_is_accepted(m: &Manifest, r: Result<(), ManifestError>)
    requires
        call_ensures(Manifest::validate, (m,), r),
    ensures
        r is Ok <==> (forall|i: int|
            0 <= i < m.declared().len() ==> contained(#[trigger] m.declared()[i])) && (forall|i: int|
            0 <= i < m.modes@.len() ==> three_digits((#[trigger] m.modes@[i]).1@)),
{
    let modes = plain(m.modes@);
    law_the_first_escape_is_told(m.declared());
    law_the_first_bad_mode_is_told(modes);
    if first_bad_mode(modes) is None {
        assert forall|i: int| 0 <= i < m.modes@.len() implies three_digits(
            (#[trigger] m.modes@[i]).1@,
        ) by {
            assert(modes[i].1 == m.modes@[i].1@);
            assert(three_digits(modes[i].1));
        }
    } else {
        let i = first_bad_mode(modes).unwrap();
        assert(modes[i].1 == m.modes@[i].1@);
    }
}

/// The declared mode of a path is the one that stands at that very path, under any spelling
/// of it; without one there is none.
pub proof fn law_declared_modes(m: &Manifest, rel: &str, r: Option<u32>)
    requires
        call_ensures(Manifest::declared_mode, (m, rel), r),
    ensures
        (forall|i: int| 0 <= i < m.modes@.len() ==> !same_path(rel@, (#[trigger] m.modes@[i]).0))
            ==> r is None,
        (exists|i: int| 0 <= i < m.modes@.len() && same_path(rel@, (#[trigger] m.modes@[i]).0))
            ==> exists|i: int|
            0 <= i < m.modes@.len() && same_path(rel@, (#[trigger] m.modes@[i]).0) && r
                == octal_number(m.modes@[i].1@) && forall|k: int|
                0 <= k < i ==> !same_path(rel@, (#[trigger] m.modes@[k]).0),
{
    let modes = plain(m.modes@);
    law_modes_are_those_of_the_path(modes, rel@);
    match exact_match(modes, rel@) {
        None => {
            assert forall|i: int| 0 <= i < m.modes@.len() implies !same_path(
                rel@,
                (#[trigger] m.modes@[i]).0,
            ) by {
                assert(modes[i].0 == m.modes@[i].0);
            }
        },
        Some(i) => {
            assert(modes[i].0 == m.modes@[i].0);
            assert(modes[i].1 == m.modes@[i].1@);
            assert forall|k: int| 0 <= k < i implies !same_path(
                rel@,
                (#[trigger] m.modes@[k]).0,
            ) by {
                assert(modes[k].0 == m.modes@[k].0);
            }
            assert(same_path(rel@, m.modes@[i].0));
        },
    }
}

} // verus!
