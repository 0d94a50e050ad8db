//! What the configurations of a repository depend on.
//!
//! Each format has a detector that looks only where the meaning is known.
use crate::audit::{RepoFile, LARGEST};
use crate::encrypted::Encryption;
use crate::order::{
    in_order, law_sorting_keeps_items, law_sorting_orders, lemma_sorted_image,
    lemma_text_antisymmetric, lemma_text_reflexive, lemma_text_total, lemma_text_transitive, sort,
    sorted_of, text_le, text_not_after, Ranked, Sortable,
};
use crate::packages::Kind;
use crate::path::{components, extension, name_stem, parts, path_eq, path_extension, same_path, stem};
use crate::provider::{command_words, shell_words, text_listed, Provider};
use crate::render::schemes_used;
use crate::table::{lookup, Table};
use crate::template::{asks_for, law_schemes_are_those_asked_for, schemes_in, tokens};
use crate::text::{
    after_last, cat, cat3, chars_of, ends, find, index_of, is_space, law_after_the_last,
    law_nothing_before, law_split_at_the_first, law_trimmed_at_both_ends,
    law_words_stand_between_spaces, lemma_index_from, lemma_texts_empty, lemma_texts_push, lemma_until, lines, lines_of, reach, same_text, spells,
    split_first, split_once, starts, string_of, strip_ends, strip_left, strip_suffix, tail_after,
    texts, trim, trim_ends, trim_left, trimmed, until, words, words_of, Sep,
};
use vstd::prelude::*;
use vstd::slice::slice_subrange;

verus! {

/// Something that a configuration depends on.
pub struct Requirement {
    pub kind: Kind,
    pub name: String,
    /// Where that was read.
    pub source: String,
}

/// A requirement by its view.
pub struct Need {
    pub kind: Kind,
    pub name: Seq<char>,
    pub source: Seq<char>,
}

impl View for Requirement {
    type V = Need;

    open spec fn view(&self) -> Need {
        Need { kind: self.kind, name: self.name@, source: self.source@ }
    }
}

/// Requirements by their views.
pub open spec fn needs(v: Seq<Requirement>) -> Seq<Need> {
    v.map_values(|r: Requirement| r@)
}

/// A repository as far as detectors look.
pub struct Repo {
    /// Its files.
    pub files: Vec<RepoFile>,
    /// Its directories, by their paths from the root.
    pub dirs: Vec<String>,
}

fn demand(out: &mut Vec<Requirement>, kind: Kind, name: &str, source: &str)
    ensures
        needs(final(out)@) == needs(old(out)@).push(
            (Need { kind, name: name@, source: source@ }),
        ),
{
    let r = Requirement { kind, name: name.to_owned(), source: source.to_owned() };
    assert(needs(out@.push(r)) =~= needs(out@).push(r@));
    out.push(r);
}

/// The command that a value runs. A leading `!` says that a shell runs it; arguments and
/// the path before the name do not count.
pub open spec fn command_named(value: Seq<char>) -> Option<Seq<char>> {
    let ws = words_of(trimmed(trim_left(trimmed(value), Sep::Is('!'))));
    if ws.len() == 0 {
        None
    } else {
        let name = after_last(ws[0], Sep::Is('/'));
        if name.len() == 0 {
            None
        } else {
            Some(name)
        }
    }
}

/// The command that a value runs.
pub fn command_name(value: &str) -> (r: Option<String>)
    ensures
        match r {
            Some(name) => command_named(value@) == Some(name@),
            None => command_named(value@) is None,
        },
{
    let c = chars_of(value);
    let ws = words(trim(strip_left(trim(c.as_slice()), Sep::Is('!'))));
    assert(texts(ws@).len() == ws@.len());
    if ws.len() == 0 {
        return None;
    }
    assert(texts(ws@)[0] == ws@[0]@);
    let first = chars_of(ws[0].as_str());
    let name = tail_after(first.as_slice(), Sep::Is('/'));
    if name.len() == 0 {
        None
    } else {
        Some(string_of(name))
    }
}

/// What closes a text that a prefix opens.
pub open spec fn closer(prefix: Seq<char>) -> Option<char> {
    if prefix.len() == 0 {
        None
    } else if prefix.last() == '"' {
        Some('"')
    } else if prefix.last() == '(' {
        Some(')')
    } else if prefix.last() == '[' {
        Some(']')
    } else {
        None
    }
}

/// The texts between a prefix and what closes it. The search goes on at the closing
/// character.
pub open spec fn between(text: Seq<char>, prefix: Seq<char>, close: char) -> Seq<Seq<char>>
    decreases text.len(),
    via between_decreases
{
    if prefix.len() == 0 {
        seq![]
    } else {
        match index_of(text, prefix) {
            None => seq![],
            Some(i) => {
                let after = text.skip(i + prefix.len());
                let n = until(after, Sep::Is(close));
                if n >= after.len() {
                    seq![]
                } else {
                    seq![after.take(n)] + between(after.skip(n), prefix, close)
                }
            },
        }
    }
}

#[via_fn]
proof fn between_decreases(text: Seq<char>, prefix: Seq<char>, close: char) {
    lemma_index_from(text, prefix, 0);
    match index_of(text, prefix) {
        None => {},
        Some(i) => {
            let after = text.skip(i + prefix.len());
            lemma_until(after, Sep::Is(close));
        },
    }
}

/// The texts between a prefix and what closes it.
pub open spec fn all_between(text: Seq<char>, prefix: Seq<char>) -> Seq<Seq<char>> {
    match closer(prefix) {
        Some(close) => between(text, prefix, close),
        None => seq![],
    }
}

/// Finds the texts between a prefix and what closes it: the last character of the prefix
/// tells what that is.
pub fn find_all(text: &str, prefix: &str) -> (r: Vec<String>)
    ensures
        texts(r@) == all_between(text@, prefix@),
{
    let p = chars_of(prefix);
    let mut out: Vec<String> = Vec::new();
    proof {
        lemma_texts_empty();
    }
    if p.len() == 0 {
        return out;
    }
    let last = p[p.len() - 1];
    let close = if last == '"' {
        '"'
    } else if last == '(' {
        ')'
    } else if last == '[' {
        ']'
    } else {
        return out;
    };
    let t = chars_of(text);
    let mut rest: &[char] = t.as_slice();
    let ghost goal = between(text@, prefix@, close);
    assert(Seq::<Seq<char>>::empty() + goal =~= goal);
    loop
        invariant
            p@ == prefix@,
            p@.len() > 0,
            texts(out@) + between(rest@, prefix@, close) == goal,
            closer(prefix@) == Some(close),
            goal == between(text@, prefix@, close),
        decreases rest@.len(),
    {
        proof {
            lemma_index_from(rest@, prefix@, 0);
        }
        let len = rest.len();
        match find(rest, prefix) {
            None => {
                assert(texts(out@) + Seq::<Seq<char>>::empty() =~= texts(out@));
                return out;
            },
            Some(i) => {
                let after = slice_subrange(rest, i + p.len(), len);
                assert(after@ =~= rest@.skip(i + prefix@.len()));
                let n = reach(after, Sep::Is(close));
                let m = after.len();
                if n >= m {
                    assert(texts(out@) + Seq::<Seq<char>>::empty() =~= texts(out@));
                    return out;
                }
                let found = slice_subrange(after, 0, n);
                assert(found@ =~= after@.take(n as int));
                let s = string_of(found);
                let next = slice_subrange(after, n, m);
                assert(next@ =~= after@.skip(n as int));
                proof {
                    let tail = between(next@, prefix@, close);
                    lemma_texts_push(out@, s);
                    assert(texts(out@) + (seq![s@] + tail) =~= texts(out@).push(s@) + tail);
                }
                out.push(s);
                rest = next;
            },
        }
    }
}

/// The text of a file, where it is text throughout.
pub open spec fn text_at(files: Seq<RepoFile>, rel: Seq<char>) -> Option<Seq<char>>
    decreases files.len(),
{
    if files.len() == 0 {
        None
    } else if same_path(files[0].rel@, rel) && files[0].utf8 {
        Some(files[0].text@)
    } else {
        text_at(files.drop_first(), rel)
    }
}

/// The text of a file, or of the template it is generated from where it is not there yet.
pub open spec fn read_at(files: Seq<RepoFile>, rel: Seq<char>) -> Option<Seq<char>> {
    match text_at(files, rel) {
        Some(t) => Some(t),
        None => text_at(files, rel + ".tmpl"@),
    }
}

fn text_of<'a>(files: &'a Vec<RepoFile>, rel: &str) -> (r: Option<&'a String>)
    ensures
        match r {
            Some(t) => text_at(files@, rel@) == Some(t@),
            None => text_at(files@, rel@) is None,
        },
{
    assert(files@.skip(0) =~= files@);
    for i in 0..files.len()
        invariant
            text_at(files@, rel@) == text_at(files@.skip(i as int), rel@),
    {
        let ghost rest = files@.skip(i as int);
        assert(rest[0] == files@[i as int]);
        assert(rest.drop_first() =~= files@.skip(i + 1));
        if path_eq(files[i].rel.as_str(), rel) && files[i].utf8 {
            return Some(&files[i].text);
        }
    }
    assert(files@.skip(files@.len() as int) =~= Seq::empty());
    None
}

/// Reads a file, or the template it is generated from where it is not there yet.
pub fn read<'a>(files: &'a Vec<RepoFile>, rel: &str) -> (r: Option<&'a String>)
    ensures
        match r {
            Some(t) => read_at(files@, rel@) == Some(t@),
            None => read_at(files@, rel@) is None,
        },
{
    match text_of(files, rel) {
        Some(t) => Some(t),
        None => {
            let template = cat(rel, ".tmpl");
            text_of(files, template.as_str())
        },
    }
}

/// Needs of one sort, read in one place.
pub open spec fn needs_for(kind: Kind, names: Seq<Seq<char>>, source: Seq<char>) -> Seq<Need> {
    names.map_values(|name: Seq<char>| Need { kind, name, source })
}

fn demand_all(out: &mut Vec<Requirement>, kind: Kind, names: &Vec<String>, source: &str)
    ensures
        needs(final(out)@) == needs(old(out)@) + needs_for(kind, texts(names@), source@),
{
    let ghost before = needs(out@);
    let ghost goal = needs_for(kind, texts(names@), source@);
    assert(before + goal.take(0) =~= before);
    for i in 0..names.len()
        invariant
            goal == needs_for(kind, texts(names@), source@),
            needs(out@) == before + goal.take(i as int),
    {
        demand(out, kind, names[i].as_str(), source);
        proof {
            assert(goal[i as int] == (Need { kind, name: names@[i as int]@, source: source@ }));
            assert((before + goal.take(i as int)).push(goal[i as int]) =~= before + goal.take(
                i + 1,
            ));
        }
    }
    assert(goal.take(goal.len() as int) =~= goal);
}

/// The commands that some values run, each where the value runs one.
pub open spec fn commands_run(values: Seq<Seq<char>>) -> Seq<Seq<char>>
    decreases values.len(),
{
    if values.len() == 0 {
        seq![]
    } else {
        let before = commands_run(values.drop_last());
        match command_named(values.last()) {
            Some(name) => before.push(name),
            None => before,
        }
    }
}

fn run_by(values: &Vec<String>) -> (r: Vec<String>)
    ensures
        texts(r@) == commands_run(texts(values@)),
{
    let ghost all = texts(values@);
    let mut out: Vec<String> = Vec::new();
    proof {
        lemma_texts_empty();
        assert(all.take(0) =~= Seq::empty());
    }
    for i in 0..values.len()
        invariant
            all == texts(values@),
            texts(out@) == commands_run(all.take(i as int)),
    {
        broadcast use lemma_texts_push;

        proof {
            let t = all.take(i + 1);
            assert(t.drop_last() =~= all.take(i as int));
            assert(t.last() == values@[i as int]@);
        }
        match command_name(values[i].as_str()) {
            Some(name) => out.push(name),
            None => {},
        }
    }
    assert(all.take(all.len() as int) =~= all);
    out
}

/// The command that a line of the configuration of Git runs.
pub open spec fn git_need(line: Seq<char>) -> Option<Need> {
    match split_first(trimmed(line), Sep::Is('=')) {
        None => None,
        Some((k, value)) => {
            let key = trimmed(k);
            if key == "pager"@ || key == "diffFilter"@ || key == "helper"@ {
                match command_named(value) {
                    Some(name) => Some(
                        Need {
                            kind: Kind::Command,
                            name,
                            source: ".config/git/config ("@ + key + ")"@,
                        },
                    ),
                    None => None,
                }
            } else {
                None
            }
        },
    }
}

/// The commands that some lines of the configuration of Git run.
pub open spec fn git_needs(ls: Seq<Seq<char>>) -> Seq<Need>
    decreases ls.len(),
{
    if ls.len() == 0 {
        seq![]
    } else {
        let before = git_needs(ls.drop_last());
        match git_need(ls.last()) {
            Some(need) => before.push(need),
            None => before,
        }
    }
}

/// What the configuration of Git depends on.
pub open spec fn git_of(files: Seq<RepoFile>) -> Seq<Need> {
    match read_at(files, ".config/git/config"@) {
        Some(text) => git_needs(lines_of(text)),
        None => seq![],
    }
}

/// Git runs pagers, filters of differences and helpers for credentials.
pub fn git_config(files: &Vec<RepoFile>, out: &mut Vec<Requirement>)
    ensures
        needs(final(out)@) == needs(old(out)@) + git_of(files@),
{
    let ghost before = needs(out@);
    let text = match read(files, ".config/git/config") {
        Some(text) => text,
        None => {
            assert(before + git_of(files@) =~= before);
            return ;
        },
    };
    let c = chars_of(text.as_str());
    let ls = lines(c.as_slice());
    let ghost all = lines_of(text@);
    assert(all.take(0) =~= Seq::empty());
    assert(before + git_needs(all.take(0)) =~= before);
    for i in 0..ls.len()
        invariant
            texts(ls@) == all,
            needs(out@) == before + git_needs(all.take(i as int)),
    {
        let ghost so_far = git_needs(all.take(i as int));
        proof {
            let t = all.take(i + 1);
            assert(t.drop_last() =~= all.take(i as int));
            assert(t.last() == ls@[i as int]@);
        }
        let line = chars_of(ls[i].as_str());
        match split_once(trim(line.as_slice()), Sep::Is('=')) {
            None => {},
            Some((k, value)) => {
                let key = trim(k);
                if spells(key, "pager") || spells(key, "diffFilter") || spells(key, "helper") {
                    let value = string_of(value);
                    match command_name(value.as_str()) {
                        Some(name) => {
                            let key = string_of(key);
                            let source = cat3(".config/git/config (", key.as_str(), ")");
                            demand(out, Kind::Command, name.as_str(), source.as_str());
                            proof {
                                let need = git_need(ls@[i as int]@).unwrap();
                                assert((before + so_far).push(need) =~= before + so_far.push(need));
                            }
                        },
                        None => {},
                    }
                }
            },
        }
    }
    assert(all.take(all.len() as int) =~= all);
}

/// What the configuration of Alacritty depends on.
pub open spec fn alacritty_of(files: Seq<RepoFile>) -> Seq<Need> {
    match read_at(files, ".config/alacritty/alacritty.toml"@) {
        Some(text) => needs_for(
            Kind::Font,
            all_between(text, "family = \""@),
            ".config/alacritty/alacritty.toml (font.family)"@,
        ),
        None => seq![],
    }
}

/// Alacritty names the families of fonts.
pub fn alacritty(files: &Vec<RepoFile>, out: &mut Vec<Requirement>)
    ensures
        needs(final(out)@) == needs(old(out)@) + alacritty_of(files@),
{
    match read(files, ".config/alacritty/alacritty.toml") {
        Some(text) => {
            let names = find_all(text.as_str(), "family = \"");
            demand_all(
                out,
                Kind::Font,
                &names,
                ".config/alacritty/alacritty.toml (font.family)",
            );
        },
        None => {
            assert(needs(out@) + alacritty_of(files@) =~= needs(out@));
        },
    }
}

/// The part of the settings of Zed that names extensions to install.
pub open spec fn extension_block(text: Seq<char>) -> Option<Seq<char>> {
    match index_of(text, "\"auto_install_extensions\""@) {
        None => None,
        Some(start) => {
            let rest = text.skip(start);
            let open = until(rest, Sep::Is('{'));
            let block = rest.skip(open);
            let close = until(block, Sep::Is('}'));
            if open < rest.len() && close < block.len() {
                Some(block.take(close))
            } else {
                None
            }
        },
    }
}

/// The keys of a block: the quoted texts that a colon follows.
pub open spec fn keys_in(block: Seq<char>) -> Seq<Seq<char>>
    decreases block.len(),
    via keys_in_decreases
{
    let quote = Sep::Is('"');
    let n = until(block, quote);
    let after = block.skip(n + 1);
    let m = until(after, quote);
    if n >= block.len() || m >= after.len() {
        seq![]
    } else {
        let rest = after.skip(m + 1);
        if m > 0 && starts(trim_left(rest, Sep::Space), seq![':']) {
            seq![after.take(m)] + keys_in(rest)
        } else {
            keys_in(rest)
        }
    }
}

#[via_fn]
proof fn keys_in_decreases(block: Seq<char>) {
    lemma_until(block, Sep::Is('"'));
    lemma_until(block.skip(until(block, Sep::Is('"')) + 1), Sep::Is('"'));
}

fn keys(block: &[char]) -> (r: Vec<String>)
    ensures
        texts(r@) == keys_in(block@),
{
    proof {
        reveal_strlit(":");
        assert(":"@ =~= seq![':']);
        lemma_texts_empty();
    }
    let mut out: Vec<String> = Vec::new();
    let mut left: &[char] = block;
    let ghost goal = keys_in(block@);
    assert(Seq::<Seq<char>>::empty() + goal =~= goal);
    loop
        invariant
            ":"@ == seq![':'],
            goal == keys_in(block@),
            texts(out@) + keys_in(left@) == goal,
        decreases left@.len(),
    {
        let quote = Sep::Is('"');
        let len = left.len();
        let n = reach(left, quote);
        if n >= len {
            assert(texts(out@) + Seq::<Seq<char>>::empty() =~= texts(out@));
            return out;
        }
        let after = slice_subrange(left, n + 1, len);
        assert(after@ =~= left@.skip(n + 1));
        let rest_len = after.len();
        let m = reach(after, quote);
        if m >= rest_len {
            assert(texts(out@) + Seq::<Seq<char>>::empty() =~= texts(out@));
            return out;
        }
        let rest = slice_subrange(after, m + 1, rest_len);
        assert(rest@ =~= after@.skip(m + 1));
        if m > 0 && crate::text::starts_with(strip_left(rest, Sep::Space), ":") {
            let name = slice_subrange(after, 0, m);
            assert(name@ =~= after@.take(m as int));
            let name = string_of(name);
            proof {
                let tail = keys_in(rest@);
                lemma_texts_push(out@, name);
                assert(texts(out@) + (seq![name@] + tail) =~= texts(out@).push(name@) + tail);
            }
            out.push(name);
        }
        left = rest;
    }
}

/// What the settings of Zed depend on.
pub open spec fn zed_of(files: Seq<RepoFile>) -> Seq<Need> {
    match read_at(files, ".config/zed/settings.json"@) {
        None => seq![],
        Some(text) => {
            let source = ".config/zed/settings.json (font_family)"@;
            let fonts = needs_for(
                Kind::Font,
                all_between(text, "\"buffer_font_family\": \""@),
                source,
            ) + needs_for(Kind::Font, all_between(text, "\"font_family\": \""@), source);
            match extension_block(text) {
                Some(block) => fonts + needs_for(
                    Kind::Extension,
                    keys_in(block),
                    ".config/zed/settings.json (auto_install_extensions)"@,
                ),
                None => fonts,
            }
        },
    }
}

fn extensions(text: &[char]) -> (r: Option<Vec<String>>)
    ensures
        match r {
            Some(v) => extension_block(text@) is Some && texts(v@) == keys_in(
                extension_block(text@).unwrap(),
            ),
            None => extension_block(text@) is None,
        },
{
    let len = text.len();
    match find(text, "\"auto_install_extensions\"") {
        None => None,
        Some(start) => {
            let rest = slice_subrange(text, start, len);
            assert(rest@ =~= text@.skip(start as int));
            let n = rest.len();
            let open = reach(rest, Sep::Is('{'));
            if open >= n {
                return None;
            }
            let block = slice_subrange(rest, open, n);
            assert(block@ =~= rest@.skip(open as int));
            let m = block.len();
            let close = reach(block, Sep::Is('}'));
            if close >= m {
                return None;
            }
            let inner = slice_subrange(block, 0, close);
            assert(inner@ =~= block@.take(close as int));
            Some(keys(inner))
        },
    }
}

/// Zed names the families of fonts, and extensions to install.
pub fn zed(files: &Vec<RepoFile>, out: &mut Vec<Requirement>)
    ensures
        needs(final(out)@) == needs(old(out)@) + zed_of(files@),
{
    let ghost before = needs(out@);
    let text = match read(files, ".config/zed/settings.json") {
        Some(text) => text,
        None => {
            assert(before + zed_of(files@) =~= before);
            return ;
        },
    };
    let buffer = find_all(text.as_str(), "\"buffer_font_family\": \"");
    demand_all(out, Kind::Font, &buffer, ".config/zed/settings.json (font_family)");
    let others = find_all(text.as_str(), "\"font_family\": \"");
    demand_all(out, Kind::Font, &others, ".config/zed/settings.json (font_family)");
    let c = chars_of(text.as_str());
    match extensions(c.as_slice()) {
        Some(names) => {
            demand_all(
                out,
                Kind::Extension,
                &names,
                ".config/zed/settings.json (auto_install_extensions)",
            );
        },
        None => {},
    }
    assert(needs(out@) =~= before + zed_of(files@));
}

/// The commands that a startup file of Zsh runs in `eval`, and those it asks after.
pub open spec fn zsh_needs(rel: Seq<char>, text: Seq<char>) -> Seq<Need> {
    needs_for(
        Kind::Command,
        commands_run(all_between(text, "eval \"$("@)),
        rel + " (eval)"@,
    ) + needs_for(
        Kind::Command,
        crate::text::nonempty(all_between(text, "${+commands["@)),
        rel + " (commands[])"@,
    )
}

fn zsh_file(rel: &str, text: &str, out: &mut Vec<Requirement>)
    ensures
        needs(final(out)@) == needs(old(out)@) + zsh_needs(rel@, text@),
{
    let ghost before = needs(out@);
    let evals = run_by(&find_all(text, "eval \"$("));
    let source = cat(rel, " (eval)");
    demand_all(out, Kind::Command, &evals, source.as_str());
    let asked = crate::text::drop_empty(&find_all(text, "${+commands["));
    let source = cat(rel, " (commands[])");
    demand_all(out, Kind::Command, &asked, source.as_str());
    assert(needs(out@) =~= before + zsh_needs(rel@, text@));
}

/// Whether a file lies directly in the directory of startup files.
pub open spec fn in_rc(rel: Seq<char>) -> bool {
    let cs = components(rel);
    cs.len() == 4 && cs[0] == ".config"@ && cs[1] == "zsh"@ && cs[2] == "rc"@
}

fn is_in_rc(rel: &str) -> (r: bool)
    ensures
        r == in_rc(rel@),
{
    let cs = parts(rel);
    assert(texts(cs@).len() == cs@.len());
    if cs.len() != 4 {
        return false;
    }
    assert(texts(cs@)[0] == cs@[0]@ && texts(cs@)[1] == cs@[1]@ && texts(cs@)[2] == cs@[2]@);
    same_text(cs[0].as_str(), ".config") && same_text(cs[1].as_str(), "zsh") && same_text(
        cs[2].as_str(),
        "rc",
    )
}

/// What the startup files in the directory for them depend on.
pub open spec fn rc_needs(files: Seq<RepoFile>) -> Seq<Need>
    decreases files.len(),
{
    if files.len() == 0 {
        seq![]
    } else {
        let before = rc_needs(files.drop_last());
        let f = files.last();
        if in_rc(f.rel@) && f.utf8 {
            before + zsh_needs(f.rel@, f.text@)
        } else {
            before
        }
    }
}

/// What a startup file at a path depends on.
pub open spec fn zsh_at(files: Seq<RepoFile>, rel: Seq<char>) -> Seq<Need> {
    match text_at(files, rel) {
        Some(text) => zsh_needs(rel, text),
        None => seq![],
    }
}

/// What the startup files of Zsh depend on.
pub open spec fn zsh_of(files: Seq<RepoFile>) -> Seq<Need> {
    zsh_at(files, ".zshenv"@) + rc_needs(files) + zsh_at(files, ".config/zsh/.zshrc"@)
}

fn zsh_path(files: &Vec<RepoFile>, rel: &str, out: &mut Vec<Requirement>)
    ensures
        needs(final(out)@) == needs(old(out)@) + zsh_at(files@, rel@),
{
    match text_of(files, rel) {
        Some(text) => zsh_file(rel, text.as_str(), out),
        None => {
            assert(needs(out@) + zsh_at(files@, rel@) =~= needs(out@));
        },
    }
}

/// Startup files of Zsh run commands in `eval`, and ask whether commands are there.
pub fn zsh(files: &Vec<RepoFile>, out: &mut Vec<Requirement>)
    ensures
        needs(final(out)@) == needs(old(out)@) + zsh_of(files@),
{
    let ghost start = needs(out@);
    zsh_path(files, ".zshenv", out);
    let ghost before = needs(out@);
    assert(files@.take(0) =~= Seq::empty());
    assert(before + rc_needs(files@.take(0)) =~= before);
    for i in 0..files.len()
        invariant
            needs(out@) == before + rc_needs(files@.take(i as int)),
    {
        let ghost so_far = rc_needs(files@.take(i as int));
        let f = &files[i];
        proof {
            let t = files@.take(i + 1);
            assert(t.drop_last() =~= files@.take(i as int));
            assert(t.last() == f);
        }
        if is_in_rc(f.rel.as_str()) && f.utf8 {
            zsh_file(f.rel.as_str(), f.text.as_str(), out);
            assert(before + so_far + zsh_needs(f.rel@, f.text@) =~= before + (so_far + zsh_needs(
                f.rel@,
                f.text@,
            )));
        }
    }
    assert(files@.take(files@.len() as int) =~= files@);
    zsh_path(files, ".config/zsh/.zshrc", out);
    assert(needs(out@) =~= start + zsh_of(files@));
}

/// The name of what lies directly in the directory of configurations.
pub open spec fn config_child(rel: Seq<char>) -> Option<Seq<char>> {
    let cs = components(rel);
    if cs.len() == 2 && cs[0] == ".config"@ {
        Some(cs[1])
    } else {
        None
    }
}

fn child_of_config(rel: &str) -> (r: Option<String>)
    ensures
        match r {
            Some(name) => config_child(rel@) == Some(name@),
            None => config_child(rel@) is None,
        },
{
    let cs = parts(rel);
    assert(texts(cs@).len() == cs@.len());
    if cs.len() != 2 {
        return None;
    }
    assert(texts(cs@)[0] == cs@[0]@ && texts(cs@)[1] == cs@[1]@);
    if same_text(cs[0].as_str(), ".config") {
        Some(cs[1].clone())
    } else {
        None
    }
}

/// The paths of some files.
pub open spec fn paths_of(files: Seq<RepoFile>) -> Seq<Seq<char>> {
    files.map_values(|f: RepoFile| f.rel@)
}

/// Whether something of a name lies directly in the directory of configurations.
pub open spec fn has_config(repo: Repo, name: Seq<char>) -> bool {
    (exists|i: int|
        0 <= i < repo.dirs@.len() && config_child((#[trigger] repo.dirs@[i])@) == Some(name)) || (
    exists|i: int|
        0 <= i < repo.files@.len() && config_child((#[trigger] repo.files@[i]).rel@) == Some(name))
}

fn config_exists(repo: &Repo, name: &str) -> (r: bool)
    ensures
        r == has_config(*repo, name@),
{
    for i in 0..repo.dirs.len()
        invariant
            forall|k: int|
                0 <= k < i ==> config_child((#[trigger] repo.dirs@[k])@) != Some(name@),
    {
        match child_of_config(repo.dirs[i].as_str()) {
            Some(child) => if same_text(child.as_str(), name) {
                assert(config_child(repo.dirs@[i as int]@) == Some(name@));
                return true;
            },
            None => {},
        }
    }
    for i in 0..repo.files.len()
        invariant
            forall|k: int|
                0 <= k < repo.dirs@.len() ==> config_child((#[trigger] repo.dirs@[k])@) != Some(
                    name@,
                ),
            forall|k: int|
                0 <= k < i ==> config_child((#[trigger] repo.files@[k]).rel@) != Some(name@),
    {
        match child_of_config(repo.files[i].rel.as_str()) {
            Some(child) => if same_text(child.as_str(), name) {
                assert(config_child(repo.files@[i as int].rel@) == Some(name@));
                return true;
            },
            None => {},
        }
    }
    false
}

/// The tool that something in the directory of configurations is for. A template stands for
/// what it generates, unless that is there too. The extension of a file does not count, and
/// what is hidden stands for no tool.
pub open spec fn tool_of(repo: Repo, child: Seq<char>, directory: bool) -> Option<Seq<char>> {
    let template = ends(child, ".tmpl"@);
    let base = if template {
        child.take(child.len() - 5)
    } else {
        child
    };
    let name = if directory {
        base
    } else {
        name_stem(base)
    };
    if (template && has_config(repo, base)) || name.len() == 0 || name[0] == '.' {
        None
    } else {
        Some(name)
    }
}

fn tool(repo: &Repo, child: &str, directory: bool) -> (r: Option<String>)
    ensures
        match r {
            Some(name) => tool_of(*repo, child@, directory) == Some(name@),
            None => tool_of(*repo, child@, directory) is None,
        },
{
    proof {
        reveal_strlit(".tmpl");
    }
    let c = chars_of(child);
    let base = match strip_suffix(c.as_slice(), ".tmpl") {
        Some(base) => {
            assert(base@ =~= child@.take(child@.len() - 5));
            let base = string_of(base);
            if config_exists(repo, base.as_str()) {
                return None;
            }
            base
        },
        None => child.to_owned(),
    };
    let name = if directory {
        base
    } else {
        stem(base.as_str())
    };
    let n = chars_of(name.as_str());
    if n.len() == 0 || n[0] == '.' {
        None
    } else {
        Some(name)
    }
}

/// The tools that some paths in the directory of configurations are for.
pub open spec fn tools_among(
    repo: Repo,
    paths: Seq<Seq<char>>,
    directory: bool,
) -> Seq<Seq<char>>
    decreases paths.len(),
{
    if paths.len() == 0 {
        seq![]
    } else {
        let before = tools_among(repo, paths.drop_last(), directory);
        match config_child(paths.last()) {
            None => before,
            Some(child) => match tool_of(repo, child, directory) {
                Some(name) => before.push(name),
                None => before,
            },
        }
    }
}

fn tools(repo: &Repo, paths: &Vec<String>, directory: bool) -> (r: Vec<String>)
    ensures
        texts(r@) == tools_among(*repo, texts(paths@), directory),
{
    let ghost all = texts(paths@);
    let mut out: Vec<String> = Vec::new();
    proof {
        lemma_texts_empty();
        assert(all.take(0) =~= Seq::empty());
    }
    for i in 0..paths.len()
        invariant
            all == texts(paths@),
            texts(out@) == tools_among(*repo, all.take(i as int), directory),
    {
        broadcast use lemma_texts_push;

        proof {
            let t = all.take(i + 1);
            assert(t.drop_last() =~= all.take(i as int));
            assert(t.last() == paths@[i as int]@);
        }
        match child_of_config(paths[i].as_str()) {
            None => {},
            Some(child) => match tool(repo, child.as_str(), directory) {
                Some(name) => out.push(name),
                None => {},
            },
        }
    }
    assert(all.take(all.len() as int) =~= all);
    out
}

/// What the directory of configurations depends on by what lies in it.
pub open spec fn config_of(repo: Repo) -> Seq<Need> {
    needs_for(
        Kind::Command,
        tools_among(repo, texts(repo.dirs@), true),
        ".config/ (directory exists)"@,
    ) + needs_for(
        Kind::Command,
        tools_among(repo, paths_of(repo.files@), false),
        ".config/ (directory exists)"@,
    )
}

fn file_paths(files: &Vec<RepoFile>) -> (r: Vec<String>)
    ensures
        texts(r@) == paths_of(files@),
{
    let ghost goal = paths_of(files@);
    let mut out: Vec<String> = Vec::new();
    proof {
        lemma_texts_empty();
    }
    for i in 0..files.len()
        invariant
            goal == paths_of(files@),
            texts(out@) == goal.take(i as int),
    {
        let s = files[i].rel.clone();
        proof {
            lemma_texts_push(out@, s);
            assert(goal[i as int] == s@);
            assert(goal.take(i + 1) =~= goal.take(i as int).push(goal[i as int]));
        }
        out.push(s);
    }
    assert(goal.take(goal.len() as int) =~= goal);
    out
}

/// That a tool is configured is evidence of a dependency, and sometimes the only one.
pub fn config_dirs(repo: &Repo, out: &mut Vec<Requirement>)
    ensures
        needs(final(out)@) == needs(old(out)@) + config_of(*repo),
{
    let ghost before = needs(out@);
    let by_dir = tools(repo, &repo.dirs, true);
    demand_all(out, Kind::Command, &by_dir, ".config/ (directory exists)");
    let by_file = tools(repo, &file_paths(&repo.files), false);
    demand_all(out, Kind::Command, &by_file, ".config/ (directory exists)");
    assert(needs(out@) =~= before + config_of(*repo));
}

/// Whether a file is reached by a walk that looks `deepest` components deep. What Git,
/// builds and package managers keep is left out.
pub open spec fn walked(rel: Seq<char>, deepest: nat) -> bool {
    let cs = components(rel);
    &&& cs.len() <= deepest
    &&& !cs.contains(".git"@)
    &&& !cs.contains("target"@)
    &&& !cs.contains("node_modules"@)
}

fn is_walked(cs: &Vec<String>, deepest: usize) -> (r: bool)
    ensures
        r == {
            &&& texts(cs@).len() <= deepest
            &&& !texts(cs@).contains(".git"@)
            &&& !texts(cs@).contains("target"@)
            &&& !texts(cs@).contains("node_modules"@)
        },
{
    assert(texts(cs@).len() == cs@.len());
    cs.len() <= deepest && !text_listed(cs, ".git") && !text_listed(cs, "target")
        && !text_listed(cs, "node_modules")
}

/// What a line says that its file requires, in whatever passes for a comment there.
pub open spec fn annotation(line: Seq<char>) -> Option<(Kind, Seq<char>)> {
    match index_of(line, "sennit: requires "@) {
        None => None,
        Some(i) => {
            let rest = trimmed(line.skip(i + 17));
            match split_first(rest, Sep::Space) {
                None => None,
                Some((word, v)) => {
                    let value = trimmed(trim_ends(trimmed(v), Sep::Is('"')));
                    if value.len() == 0 {
                        None
                    } else if word == "command"@ {
                        Some((Kind::Command, value))
                    } else if word == "font"@ {
                        Some((Kind::Font, value))
                    } else if word == "extension"@ {
                        Some((Kind::Extension, value))
                    } else {
                        None
                    }
                },
            }
        },
    }
}

fn annotated(line: &[char]) -> (r: Option<(Kind, String)>)
    ensures
        match r {
            Some((kind, name)) => annotation(line@) == Some((kind, name@)),
            None => annotation(line@) is None,
        },
{
    proof {
        reveal_strlit("sennit: requires ");
        lemma_index_from(line@, "sennit: requires "@, 0);
    }
    let len = line.len();
    match find(line, "sennit: requires ") {
        None => None,
        Some(i) => {
            let tail = slice_subrange(line, i + 17, len);
            assert(tail@ =~= line@.skip(i + 17));
            match split_once(trim(tail), Sep::Space) {
                None => None,
                Some((word, v)) => {
                    let value = trim(strip_ends(trim(v), Sep::Is('"')));
                    if value.len() == 0 {
                        None
                    } else if spells(word, "command") {
                        Some((Kind::Command, string_of(value)))
                    } else if spells(word, "font") {
                        Some((Kind::Font, string_of(value)))
                    } else if spells(word, "extension") {
                        Some((Kind::Extension, string_of(value)))
                    } else {
                        None
                    }
                },
            }
        },
    }
}

/// What some lines of a file say that it requires.
pub open spec fn annotations_on(rel: Seq<char>, ls: Seq<Seq<char>>) -> Seq<Need>
    decreases ls.len(),
{
    if ls.len() == 0 {
        seq![]
    } else {
        let before = annotations_on(rel, ls.drop_last());
        match annotation(ls.last()) {
            Some((kind, name)) => before.push(
                Need { kind, name, source: rel + " (annotation)"@ },
            ),
            None => before,
        }
    }
}

fn annotated_file(rel: &str, text: &str, out: &mut Vec<Requirement>)
    ensures
        needs(final(out)@) == needs(old(out)@) + annotations_on(rel@, lines_of(text@)),
{
    let ghost before = needs(out@);
    let source = cat(rel, " (annotation)");
    let c = chars_of(text);
    let ls = lines(c.as_slice());
    let ghost all = lines_of(text@);
    assert(all.take(0) =~= Seq::empty());
    assert(before + annotations_on(rel@, all.take(0)) =~= before);
    for i in 0..ls.len()
        invariant
            texts(ls@) == all,
            source@ == rel@ + " (annotation)"@,
            needs(out@) == before + annotations_on(rel@, all.take(i as int)),
    {
        let ghost so_far = annotations_on(rel@, all.take(i as int));
        proof {
            let t = all.take(i + 1);
            assert(t.drop_last() =~= all.take(i as int));
            assert(t.last() == ls@[i as int]@);
        }
        let line = chars_of(ls[i].as_str());
        match annotated(line.as_slice()) {
            Some((kind, name)) => {
                demand(out, kind, name.as_str(), source.as_str());
                proof {
                    let need = Need { kind, name: name@, source: source@ };
                    assert((before + so_far).push(need) =~= before + so_far.push(need));
                }
            },
            None => {},
        }
    }
    assert(all.take(all.len() as int) =~= all);
}

/// Whether a file below the directory of configurations is searched for annotations.
pub open spec fn annotatable(rel: Seq<char>) -> bool {
    let cs = components(rel);
    cs.len() > 1 && cs[0] == ".config"@ && walked(rel, 8)
}

/// What the files below the directory of configurations say that they require.
pub open spec fn annotations_below(files: Seq<RepoFile>) -> Seq<Need>
    decreases files.len(),
{
    if files.len() == 0 {
        seq![]
    } else {
        let before = annotations_below(files.drop_last());
        let f = files.last();
        if annotatable(f.rel@) && f.size <= LARGEST {
            before + annotations_on(f.rel@, lines_of(f.text@))
        } else {
            before
        }
    }
}

/// The file at a path, whether it is text throughout or not.
pub open spec fn file_at(files: Seq<RepoFile>, rel: Seq<char>) -> Option<RepoFile>
    decreases files.len(),
{
    if files.len() == 0 {
        None
    } else if same_path(files[0].rel@, rel) {
        Some(files[0])
    } else {
        file_at(files.drop_first(), rel)
    }
}

fn file_of<'a>(files: &'a Vec<RepoFile>, rel: &str) -> (r: Option<&'a RepoFile>)
    ensures
        match r {
            Some(f) => file_at(files@, rel@) == Some(*f),
            None => file_at(files@, rel@) is None,
        },
{
    assert(files@.skip(0) =~= files@);
    for i in 0..files.len()
        invariant
            file_at(files@, rel@) == file_at(files@.skip(i as int), rel@),
    {
        let ghost rest = files@.skip(i as int);
        assert(rest[0] == files@[i as int]);
        assert(rest.drop_first() =~= files@.skip(i + 1));
        if path_eq(files[i].rel.as_str(), rel) {
            return Some(&files[i]);
        }
    }
    assert(files@.skip(files@.len() as int) =~= Seq::empty());
    None
}

/// What the files that are searched for annotations say that they require.
pub open spec fn annotations_of(files: Seq<RepoFile>) -> Seq<Need> {
    annotations_below(files) + match file_at(files, ".zshenv"@) {
        Some(f) => if f.size <= LARGEST {
            annotations_on(".zshenv"@, lines_of(f.text@))
        } else {
            seq![]
        },
        None => seq![],
    }
}

/// A configuration can say itself what it requires, in a format that no detector reads.
pub fn annotations(files: &Vec<RepoFile>, out: &mut Vec<Requirement>)
    ensures
        needs(final(out)@) == needs(old(out)@) + annotations_of(files@),
{
    let ghost before = needs(out@);
    assert(files@.take(0) =~= Seq::empty());
    assert(before + annotations_below(files@.take(0)) =~= before);
    for i in 0..files.len()
        invariant
            needs(out@) == before + annotations_below(files@.take(i as int)),
    {
        let ghost so_far = annotations_below(files@.take(i as int));
        let f = &files[i];
        proof {
            let t = files@.take(i + 1);
            assert(t.drop_last() =~= files@.take(i as int));
            assert(t.last() == f);
        }
        let cs = parts(f.rel.as_str());
        assert(texts(cs@).len() == cs@.len());
        if cs.len() > 1 && same_text(cs[0].as_str(), ".config") && is_walked(&cs, 8) && f.size
            <= LARGEST {
            assert(texts(cs@)[0] == cs@[0]@);
            annotated_file(f.rel.as_str(), f.text.as_str(), out);
            proof {
                let more = annotations_on(f.rel@, lines_of(f.text@));
                assert(before + so_far + more =~= before + (so_far + more));
            }
        } else {
            assert(cs@.len() > 1 ==> texts(cs@)[0] == cs@[0]@);
        }
    }
    assert(files@.take(files@.len() as int) =~= files@);
    match file_of(files, ".zshenv") {
        Some(f) => if f.size <= LARGEST {
            annotated_file(".zshenv", f.text.as_str(), out);
        },
        None => {},
    }
    assert(needs(out@) =~= before + annotations_of(files@));
}

/// The commands of the providers that serve some schemes, each with where it was read. A
/// scheme that no provider serves asks for nothing here: rendering names it.
pub open spec fn scheme_needs(
    rel: Seq<char>,
    schemes: Seq<Seq<char>>,
    providers: Seq<(Seq<char>, Provider)>,
) -> Seq<Need>
    decreases schemes.len(),
{
    if schemes.len() == 0 {
        seq![]
    } else {
        let before = scheme_needs(rel, schemes.drop_last(), providers);
        match lookup(providers, schemes.last()) {
            None => before,
            Some(provider) => {
                let ws = command_words(provider.command@, None, None);
                if ws.len() == 0 {
                    before
                } else {
                    before.push(
                        Need {
                            kind: Kind::Command,
                            name: ws[0],
                            source: rel + " ("@ + schemes.last() + ":// reference)"@,
                        },
                    )
                }
            },
        }
    }
}

fn schemes_file(
    rel: &str,
    text: &str,
    providers: &Table<Provider>,
    out: &mut Vec<Requirement>,
)
    ensures
        needs(final(out)@) == needs(old(out)@) + scheme_needs(
            rel@,
            schemes_in(tokens(text@)),
            providers@,
        ),
{
    let ghost before = needs(out@);
    let schemes = schemes_used(text);
    let ghost all = schemes_in(tokens(text@));
    assert(all.take(0) =~= Seq::empty());
    assert(before + scheme_needs(rel@, all.take(0), providers@) =~= before);
    for i in 0..schemes.len()
        invariant
            texts(schemes@) == all,
            needs(out@) == before + scheme_needs(rel@, all.take(i as int), providers@),
    {
        let ghost so_far = scheme_needs(rel@, all.take(i as int), providers@);
        proof {
            let t = all.take(i + 1);
            assert(t.drop_last() =~= all.take(i as int));
            assert(t.last() == schemes@[i as int]@);
        }
        match providers.get(schemes[i].as_str()) {
            None => {},
            Some(provider) => {
                let ws = shell_words(provider.command.as_str());
                assert(texts(ws@).len() == ws@.len());
                if ws.len() > 0 {
                    assert(texts(ws@)[0] == ws@[0]@);
                    let head = cat3(rel, " (", schemes[i].as_str());
                    let source = cat(head.as_str(), ":// reference)");
                    demand(out, Kind::Command, ws[0].as_str(), source.as_str());
                    proof {
                        let need = Need { kind: Kind::Command, name: ws@[0]@, source: source@ };
                        assert((before + so_far).push(need) =~= before + so_far.push(need));
                    }
                }
            },
        }
    }
    assert(all.take(all.len() as int) =~= all);
}

/// Whether a file is a template that is searched for references to secrets.
pub open spec fn is_secret_template(f: RepoFile) -> bool {
    walked(f.rel@, 7) && extension(f.rel@) == Some("tmpl"@) && f.utf8
}

/// What the templates of a repository depend on by the secrets they refer to.
pub open spec fn secrets_of(
    files: Seq<RepoFile>,
    providers: Seq<(Seq<char>, Provider)>,
) -> Seq<Need>
    decreases files.len(),
{
    if files.len() == 0 {
        seq![]
    } else {
        let before = secrets_of(files.drop_last(), providers);
        let f = files.last();
        if is_secret_template(f) {
            before + scheme_needs(f.rel@, schemes_in(tokens(f.text@)), providers)
        } else {
            before
        }
    }
}

/// A template that refers to a secret needs the command of the provider that reads it.
pub fn secret_templates(
    files: &Vec<RepoFile>,
    providers: &Table<Provider>,
    out: &mut Vec<Requirement>,
)
    ensures
        needs(final(out)@) == needs(old(out)@) + secrets_of(files@, providers@),
{
    let ghost before = needs(out@);
    assert(files@.take(0) =~= Seq::empty());
    assert(before + secrets_of(files@.take(0), providers@) =~= before);
    for i in 0..files.len()
        invariant
            needs(out@) == before + secrets_of(files@.take(i as int), providers@),
    {
        let ghost so_far = secrets_of(files@.take(i as int), providers@);
        let f = &files[i];
        proof {
            let t = files@.take(i + 1);
            assert(t.drop_last() =~= files@.take(i as int));
            assert(t.last() == f);
        }
        let cs = parts(f.rel.as_str());
        let template = match path_extension(f.rel.as_str()) {
            Some(e) => same_text(e.as_str(), "tmpl"),
            None => false,
        };
        if is_walked(&cs, 7) && template && f.utf8 {
            schemes_file(f.rel.as_str(), f.text.as_str(), providers, out);
            proof {
                let more = scheme_needs(f.rel@, schemes_in(tokens(f.text@)), providers@);
                assert(before + so_far + more =~= before + (so_far + more));
            }
        }
    }
    assert(files@.take(files@.len() as int) =~= files@);
}

/// What opening encrypted files depends on.
pub open spec fn encryption_of(encryption: Option<Encryption>) -> Seq<Need> {
    match encryption {
        None => seq![],
        Some(enc) => {
            let ws = command_words(enc.command@, None, None);
            if ws.len() == 0 {
                seq![]
            } else {
                seq![
                    Need {
                        kind: Kind::Command,
                        name: after_last(ws[0], Sep::Is('/')),
                        source: "sennit.toml ([encryption])"@,
                    },
                ]
            }
        },
    }
}

/// A declared encryption needs the command that opens files.
pub fn encryption_tool(encryption: &Option<Encryption>, out: &mut Vec<Requirement>)
    ensures
        needs(final(out)@) == needs(old(out)@) + encryption_of(*encryption),
{
    let ghost before = needs(out@);
    match encryption {
        None => {},
        Some(enc) => {
            let ws = shell_words(enc.command.as_str());
            assert(texts(ws@).len() == ws@.len());
            if ws.len() > 0 {
                assert(texts(ws@)[0] == ws@[0]@);
                let c = chars_of(ws[0].as_str());
                let name = string_of(tail_after(c.as_slice(), Sep::Is('/')));
                demand(out, Kind::Command, name.as_str(), "sennit.toml ([encryption])");
            }
        },
    }
    assert(needs(out@) =~= before + encryption_of(*encryption));
}

/// Requirements are ordered by the names of their sorts, then by their names.
impl Ranked for Need {
    open spec fn at_most(self, other: Self) -> bool {
        text_le(self.kind.named(), other.kind.named()) && (self.kind.named() == other.kind.named()
            ==> text_le(self.name, other.name))
    }

    proof fn total(a: Self, b: Self) {
        lemma_text_total(a.kind.named(), b.kind.named());
        lemma_text_reflexive(a.kind.named());
        lemma_text_total(a.name, b.name);
        if text_le(a.kind.named(), b.kind.named()) && text_le(b.kind.named(), a.kind.named()) {
            lemma_text_antisymmetric(a.kind.named(), b.kind.named());
        }
    }

    proof fn transitive(a: Self, b: Self, c: Self) {
        lemma_text_transitive(a.kind.named(), b.kind.named(), c.kind.named());
        if a.kind.named() == c.kind.named() {
            lemma_text_antisymmetric(a.kind.named(), b.kind.named());
            lemma_text_transitive(a.name, b.name, c.name);
        }
    }
}

impl Ranked for Requirement {
    open spec fn at_most(self, other: Self) -> bool {
        self@.at_most(other@)
    }

    proof fn total(a: Self, b: Self) {
        Need::total(a@, b@);
    }

    proof fn transitive(a: Self, b: Self, c: Self) {
        Need::transitive(a@, b@, c@);
    }
}

impl Sortable for Requirement {
    fn not_after(&self, other: &Self) -> (r: bool) {
        if same_text(self.kind.label(), other.kind.label()) {
            proof {
                lemma_text_reflexive(self.kind.named());
            }
            text_not_after(self.name.as_str(), other.name.as_str())
        } else {
            text_not_after(self.kind.label(), other.kind.label())
        }
    }
}

/// Whether two requirements are for the same thing.
pub open spec fn same_need(a: Need, b: Need) -> bool {
    a.kind == b.kind && a.name == b.name
}

/// A list without the requirements that repeat the one before them.
pub open spec fn without_repeats(v: Seq<Need>) -> Seq<Need>
    decreases v.len(),
{
    if v.len() == 0 {
        seq![]
    } else {
        let before = without_repeats(v.drop_last());
        if before.len() > 0 && same_need(before.last(), v.last()) {
            before
        } else {
            before.push(v.last())
        }
    }
}

fn drop_repeats(v: Vec<Requirement>) -> (r: Vec<Requirement>)
    ensures
        needs(r@) == without_repeats(needs(v@)),
{
    let ghost all = needs(v@);
    let mut out: Vec<Requirement> = Vec::new();
    assert(needs(out@) =~= Seq::empty());
    assert(all.take(0) =~= Seq::empty());
    for i in 0..v.len()
        invariant
            all == needs(v@),
            needs(out@) == without_repeats(all.take(i as int)),
    {
        let r = &v[i];
        proof {
            let t = all.take(i + 1);
            assert(t.drop_last() =~= all.take(i as int));
            assert(t.last() == r@);
            if out@.len() > 0 {
                assert(needs(out@).last() == out@.last()@);
            }
        }
        let n = out.len();
        assert(needs(out@).len() == n);
        let repeats = n > 0 && out[n - 1].kind == r.kind && same_text(
            out[n - 1].name.as_str(),
            r.name.as_str(),
        );
        if !repeats {
            demand(&mut out, r.kind, r.name.as_str(), r.source.as_str());
        }
    }
    assert(all.take(all.len() as int) =~= all);
    out
}

/// What is found in a repository, detector by detector.
pub open spec fn found_in(
    repo: Repo,
    providers: Seq<(Seq<char>, Provider)>,
    encryption: Option<Encryption>,
) -> Seq<Need> {
    git_of(repo.files@) + alacritty_of(repo.files@) + zed_of(repo.files@) + zsh_of(repo.files@)
        + config_of(repo) + annotations_of(repo.files@) + secrets_of(repo.files@, providers)
        + encryption_of(encryption)
}

/// What a repository requires.
pub open spec fn required_by(
    repo: Repo,
    providers: Seq<(Seq<char>, Provider)>,
    encryption: Option<Encryption>,
) -> Seq<Need> {
    without_repeats(sorted_of(found_in(repo, providers, encryption)))
}

/// What a repository requires: in order, each thing once, with the first place in which it
/// was found.
pub fn scan(repo: &Repo, providers: &Table<Provider>, encryption: &Option<Encryption>) -> (r: Vec<
    Requirement,
>)
    ensures
        needs(r@) == required_by(*repo, providers@, *encryption),
{
    let mut out: Vec<Requirement> = Vec::new();
    assert(needs(out@) =~= Seq::empty());
    git_config(&repo.files, &mut out);
    alacritty(&repo.files, &mut out);
    zed(&repo.files, &mut out);
    zsh(&repo.files, &mut out);
    config_dirs(repo, &mut out);
    annotations(&repo.files, &mut out);
    secret_templates(&repo.files, providers, &mut out);
    encryption_tool(encryption, &mut out);
    assert(needs(out@) =~= found_in(*repo, providers@, *encryption));
    proof {
        let f = |r: Requirement| r@;
        lemma_sorted_image(out@, f);
        assert(needs(out@) =~= out@.map_values(f));
        assert(needs(sorted_of(out@)) =~= sorted_of(out@).map_values(f));
    }
    drop_repeats(sort(out))
}

proof fn lemma_kind_names(a: Kind, b: Kind)
    ensures
        a.named() == b.named() ==> a == b,
{
    reveal_strlit("command");
    reveal_strlit("font");
    reveal_strlit("extension");
    reveal_strlit("library");
    assert("command"@[0] == 'c' && "font"@[0] == 'f' && "extension"@[0] == 'e' && "library"@[0]
        == 'l');
}

/// What stands between two needs that are the same is the same need.
proof fn lemma_same_between(a: Need, z: Need, last: Need)
    requires
        a.at_most(z),
        z.at_most(last),
        same_need(a, last),
    ensures
        same_need(z, last),
{
    lemma_text_antisymmetric(z.kind.named(), last.kind.named());
    lemma_text_antisymmetric(z.name, last.name);
    lemma_kind_names(z.kind, last.kind);
}

#[verifier::spinoff_prover]
#[verifier::rlimit(40)]
proof fn lemma_repeats(v: Seq<Need>)
    requires
        in_order(v),
    ensures
        forall|i: int, j: int|
            0 <= i < j < without_repeats(v).len() ==> !same_need(
                #[trigger] without_repeats(v)[i],
                #[trigger] without_repeats(v)[j],
            ),
        in_order(without_repeats(v)),
        v.len() > 0 ==> without_repeats(v).len() > 0 && same_need(
            without_repeats(v).last(),
            v.last(),
        ),
        forall|i: int|
            0 <= i < without_repeats(v).len() ==> v.contains(#[trigger] without_repeats(v)[i]),
        forall|i: int|
            0 <= i < v.len() ==> exists|k: int|
                0 <= k < without_repeats(v).len() && same_need(
                    #[trigger] without_repeats(v)[k],
                    #[trigger] v[i],
                ),
    decreases v.len(),
{
    if v.len() > 0 {
        let head = v.drop_last();
        let last = v.last();
        assert(in_order(head)) by {
            assert forall|i: int, j: int| 0 <= i < j < head.len() implies (
            #[trigger] head[i]).at_most(#[trigger] head[j]) by {
                assert(head[i] == v[i] && head[j] == v[j]);
            }
        }
        lemma_repeats(head);
        let b = without_repeats(head);
        let w = without_repeats(v);
        assert(v[v.len() - 1] == last);
        assert forall|i: int| 0 <= i < b.len() implies (#[trigger] b[i]).at_most(last) by {
            assert(head.contains(b[i]));
            let k = choose|k: int| 0 <= k < head.len() && head[k] == b[i];
            assert(v[k] == b[i]);
            assert(v[k].at_most(v[v.len() - 1]));
        }
        if b.len() > 0 && same_need(b.last(), last) {
            assert(w == b);
        } else {
            assert(w == b.push(last));
            assert forall|i: int, j: int| 0 <= i < j < w.len() implies !same_need(
                #[trigger] w[i],
                #[trigger] w[j],
            ) by {
                if j == w.len() - 1 && same_need(w[i], last) {
                    // The last of the others lies between two that are the same.
                    let z = b.last();
                    assert(b[i] == w[i]);
                    if i < b.len() - 1 {
                        assert(b[i].at_most(b[b.len() - 1]));
                        assert(b[b.len() - 1].at_most(last));
                        lemma_same_between(b[i], z, last);
                    }
                    assert(same_need(z, last));
                }
            }
            assert forall|i: int, j: int| 0 <= i < j < w.len() implies (
            #[trigger] w[i]).at_most(#[trigger] w[j]) by {
                if j == w.len() - 1 {
                    assert(b[i] == w[i]);
                } else {
                    assert(w[i] == b[i] && w[j] == b[j]);
                }
            }
        }
        assert forall|i: int| 0 <= i < w.len() implies v.contains(#[trigger] w[i]) by {
            if i < b.len() {
                assert(w[i] == b[i]);
                assert(head.contains(b[i]));
                let k = choose|k: int| 0 <= k < head.len() && head[k] == b[i];
                assert(v[k] == w[i]);
            }
        }
        assert forall|i: int| 0 <= i < v.len() implies exists|k: int|
            0 <= k < w.len() && same_need(#[trigger] w[k], #[trigger] v[i]) by {
            if i < head.len() {
                assert(head[i] == v[i]);
                let k = choose|k: int| 0 <= k < b.len() && same_need(#[trigger] b[k], head[i]);
                assert(w[k] == b[k]);
            } else {
                assert(same_need(w[w.len() - 1], last));
            }
        }
    }
}

/// What a repository requires is listed in order and each thing once; all that was found
/// is listed, and nothing else.
#[verifier::spinoff_prover]
#[verifier::rlimit(40)]
pub proof fn law_each_requirement_once(
    repo: Repo,
    providers: Seq<(Seq<char>, Provider)>,
    encryption: Option<Encryption>,
    need: Need,
)
    ensures
        ({
            let r = required_by(repo, providers, encryption);
            let found = found_in(repo, providers, encryption);
            &&& in_order(r)
            &&& forall|i: int, j: int|
                0 <= i < j < r.len() ==> !same_need(#[trigger] r[i], #[trigger] r[j])
            &&& found.contains(need) ==> exists|k: int|
                0 <= k < r.len() && same_need(#[trigger] r[k], need)
            &&& r.contains(need) ==> found.contains(need)
        }),
{
    broadcast use vstd::seq_lib::group_to_multiset_ensures;

    let found = found_in(repo, providers, encryption);
    let v = sorted_of(found);
    law_sorting_orders(found);
    law_sorting_keeps_items(found);
    lemma_repeats(v);
    let r = without_repeats(v);
    if found.contains(need) {
        assert(found.to_multiset().count(need) > 0);
        assert(v.contains(need));
        let i = choose|i: int| 0 <= i < v.len() && v[i] == need;
        assert(exists|k: int| 0 <= k < r.len() && same_need(#[trigger] r[k], v[i]));
    }
    if r.contains(need) {
        let i = choose|i: int| 0 <= i < r.len() && r[i] == need;
        assert(v.contains(r[i]));
        assert(v.to_multiset().count(need) > 0);
        assert(found.to_multiset().count(need) > 0);
    }
}

/// Whether a file calls for a requirement: it is a template, as text, at most seven components
/// deep and not among what is generated or git's own, it asks for a secret of some scheme,
/// and the requirement is the first word of what the provider of the scheme runs.
pub open spec fn calls_for(
    f: RepoFile,
    scheme: Seq<char>,
    providers: Seq<(Seq<char>, Provider)>,
    need: Need,
) -> bool {
    let cs = components(f.rel@);
    &&& cs.len() <= 7
    &&& forall|k: int|
        0 <= k < cs.len() ==> #[trigger] cs[k] != ".git"@ && cs[k] != "target"@ && cs[k]
            != "node_modules"@
    &&& extension(f.rel@) == Some("tmpl"@)
    &&& f.utf8
    &&& exists|k: int| 0 <= k < tokens(f.text@).len() && asks_for(#[trigger] tokens(f.text@)[k], scheme)
    &&& lookup(providers, scheme) matches Some(p) && {
        let ws = command_words(p.command@, None, None);
        ws.len() > 0 && need == Need {
            kind: Kind::Command,
            name: ws[0],
            source: f.rel@ + " ("@ + scheme + ":// reference)"@,
        }
    }
}

proof fn lemma_walked(rel: Seq<char>, deepest: nat)
    ensures
        walked(rel, deepest) <==> components(rel).len() <= deepest && forall|k: int|
            0 <= k < components(rel).len() ==> #[trigger] components(rel)[k] != ".git"@
                && components(rel)[k] != "target"@ && components(rel)[k] != "node_modules"@,
{
    let cs = components(rel);
    if walked(rel, deepest) {
        assert forall|k: int| 0 <= k < components(rel).len() implies #[trigger] components(rel)[k]
            != ".git"@ && components(rel)[k] != "target"@ && components(rel)[k]
            != "node_modules"@ by {
            assert(cs.contains(cs[k]));
        }
    }
    if cs.len() <= deepest && forall|k: int|
        0 <= k < components(rel).len() ==> #[trigger] components(rel)[k] != ".git"@
            && components(rel)[k] != "target"@ && components(rel)[k] != "node_modules"@ {
        if cs.contains(".git"@) {
            let k = choose|k: int| 0 <= k < cs.len() && cs[k] == ".git"@;
            assert(components(rel)[k] == ".git"@);
        }
        if cs.contains("target"@) {
            let k = choose|k: int| 0 <= k < cs.len() && cs[k] == "target"@;
            assert(components(rel)[k] == "target"@);
        }
        if cs.contains("node_modules"@) {
            let k = choose|k: int| 0 <= k < cs.len() && cs[k] == "node_modules"@;
            assert(components(rel)[k] == "node_modules"@);
        }
    }
}

proof fn lemma_scheme_needs(
    rel: Seq<char>,
    schemes: Seq<Seq<char>>,
    providers: Seq<(Seq<char>, Provider)>,
    need: Need,
)
    ensures
        scheme_needs(rel, schemes, providers).contains(need) <==> exists|i: int|
            0 <= i < schemes.len() && served(rel, #[trigger] schemes[i], providers, need),
    decreases schemes.len(),
{
    if schemes.len() > 0 {
        let head = schemes.drop_last();
        lemma_scheme_needs(rel, head, providers, need);
        let all = scheme_needs(rel, schemes, providers);
        let before = scheme_needs(rel, head, providers);
        assert(schemes[schemes.len() - 1] == schemes.last());
        if before.contains(need) {
            let k = choose|k: int| 0 <= k < before.len() && before[k] == need;
            assert(all[k] == need);
            let i = choose|i: int|
                0 <= i < head.len() && served(rel, #[trigger] head[i], providers, need);
            assert(schemes[i] == head[i]);
        }
        if all.len() > before.len() {
            assert(all[all.len() - 1] == all.last());
            if all.contains(need) && !before.contains(need) {
                let k = choose|k: int| 0 <= k < all.len() && all[k] == need;
                if k < before.len() {
                    assert(before[k] == need);
                }
                assert(served(rel, schemes.last(), providers, need));
            }
        }
        if exists|i: int| 0 <= i < schemes.len() && served(rel, #[trigger] schemes[i], providers, need) {
            let i = choose|i: int|
                0 <= i < schemes.len() && served(rel, #[trigger] schemes[i], providers, need);
            if i < head.len() {
                assert(head[i] == schemes[i]);
            } else {
                assert(all[before.len() as int] == need);
            }
        }
    }
}

spec fn served(
    rel: Seq<char>,
    scheme: Seq<char>,
    providers: Seq<(Seq<char>, Provider)>,
    need: Need,
) -> bool {
    lookup(providers, scheme) matches Some(p) && {
        let ws = command_words(p.command@, None, None);
        ws.len() > 0 && need == Need {
            kind: Kind::Command,
            name: ws[0],
            source: rel + " ("@ + scheme + ":// reference)"@,
        }
    }
}

/// Every template of the repository, wherever it lies, its root included, requires the
/// commands of the providers that serve the schemes it refers to, and nothing else is
/// required on account of a secret.
pub proof fn law_templates_require_their_providers(
    files: Seq<RepoFile>,
    providers: Seq<(Seq<char>, Provider)>,
    need: Need,
)
    ensures
        secrets_of(files, providers).contains(need) <==> exists|i: int, scheme: Seq<char>|
            0 <= i < files.len() && #[trigger] calls_for(files[i], scheme, providers, need),
    decreases files.len(),
{
    if files.len() > 0 {
        let head = files.drop_last();
        let f = files.last();
        law_templates_require_their_providers(head, providers, need);
        let before = secrets_of(head, providers);
        let all = secrets_of(files, providers);
        assert(files[files.len() - 1] == f);
        lemma_walked(f.rel@, 7);
        let schemes = schemes_in(tokens(f.text@));
        let own = scheme_needs(f.rel@, schemes, providers);
        lemma_scheme_needs(f.rel@, schemes, providers, need);
        if before.contains(need) {
            let k = choose|k: int| 0 <= k < before.len() && before[k] == need;
            assert(all[k] == need);
            let (i, scheme) = choose|i: int, scheme: Seq<char>|
                0 <= i < head.len() && #[trigger] calls_for(head[i], scheme, providers, need);
            assert(calls_for(files[i], scheme, providers, need));
        }
        if all.contains(need) && !before.contains(need) {
            let k = choose|k: int| 0 <= k < all.len() && all[k] == need;
            if k < before.len() {
                assert(before[k] == need);
            } else {
                assert(own[k - before.len()] == need);
                let j = choose|j: int|
                    0 <= j < schemes.len() && served(f.rel@, #[trigger] schemes[j], providers, need);
                law_schemes_are_those_asked_for(tokens(f.text@), schemes[j]);
                assert(schemes.contains(schemes[j]));
                assert(calls_for(f, schemes[j], providers, need));
            }
        }
        if exists|i: int, scheme: Seq<char>|
            0 <= i < files.len() && #[trigger] calls_for(files[i], scheme, providers, need) {
            let (i, scheme) = choose|i: int, scheme: Seq<char>|
                0 <= i < files.len() && #[trigger] calls_for(files[i], scheme, providers, need);
            if i < head.len() {
                assert(calls_for(head[i], scheme, providers, need));
            } else {
                law_schemes_are_those_asked_for(tokens(f.text@), scheme);
                let j = choose|j: int| 0 <= j < schemes.len() && schemes[j] == scheme;
                assert(served(f.rel@, schemes[j], providers, need));
                let k = choose|k: int| 0 <= k < own.len() && own[k] == need;
                assert(all[before.len() + k] == need);
            }
        }
    }
}

/// What any detector finds is found, and nothing else is.
pub proof fn law_every_detector_is_heard(
    repo: Repo,
    providers: Seq<(Seq<char>, Provider)>,
    encryption: Option<Encryption>,
    need: Need,
)
    ensures
        found_in(repo, providers, encryption).contains(need) <==> git_of(repo.files@).contains(need)
            || alacritty_of(repo.files@).contains(need) || zed_of(repo.files@).contains(need)
            || zsh_at(repo.files@, ".zshenv"@).contains(need) || rc_needs(repo.files@).contains(need)
            || zsh_at(repo.files@, ".config/zsh/.zshrc"@).contains(need) || config_of(repo).contains(
            need,
        ) || annotations_of(repo.files@).contains(need) || secrets_of(
            repo.files@,
            providers,
        ).contains(need) || encryption_of(encryption).contains(need),
{
    let files = repo.files@;
    let a = git_of(files);
    let b = alacritty_of(files);
    let c = zed_of(files);
    let d1 = zsh_at(files, ".zshenv"@);
    let d2 = rc_needs(files);
    let d3 = zsh_at(files, ".config/zsh/.zshrc"@);
    let d = d1 + d2 + d3;
    let e = config_of(repo);
    let f = annotations_of(files);
    let g = secrets_of(files, providers);
    let h = encryption_of(encryption);
    lemma_in_either(a + b + c + d + e + f + g, h, need);
    lemma_in_either(a + b + c + d + e + f, g, need);
    lemma_in_either(a + b + c + d + e, f, need);
    lemma_in_either(a + b + c + d, e, need);
    lemma_in_either(a + b + c, d, need);
    lemma_in_either(a + b, c, need);
    lemma_in_either(a, b, need);
    lemma_in_either(d1 + d2, d3, need);
    lemma_in_either(d1, d2, need);
}

proof fn lemma_in_either(a: Seq<Need>, b: Seq<Need>, x: Need)
    ensures
        (a + b).contains(x) <==> a.contains(x) || b.contains(x),
{
    let ab = a + b;
    if ab.contains(x) {
        let k = choose|k: int| 0 <= k < ab.len() && ab[k] == x;
        if k < a.len() {
            assert(a[k] == x);
        } else {
            assert(b[k - a.len()] == x);
        }
    }
    if a.contains(x) {
        let k = choose|k: int| 0 <= k < a.len() && a[k] == x;
        assert(ab[k] == x);
    }
    if b.contains(x) {
        let k = choose|k: int| 0 <= k < b.len() && b[k] == x;
        assert(ab[a.len() + k] == x);
    }
}

/// What a template at any depth refers to is among the requirements of the repository.
pub proof fn law_secrets_are_required(
    repo: Repo,
    providers: Seq<(Seq<char>, Provider)>,
    encryption: Option<Encryption>,
    i: int,
    scheme: Seq<char>,
    need: Need,
)
    requires
        0 <= i < repo.files@.len(),
        calls_for(repo.files@[i], scheme, providers, need),
    ensures
        exists|k: int|
            0 <= k < required_by(repo, providers, encryption).len() && (#[trigger] required_by(
                repo,
                providers,
                encryption,
            )[k]).kind is Command && required_by(repo, providers, encryption)[k].name == need.name,
{
    law_templates_require_their_providers(repo.files@, providers, need);
    law_every_detector_is_heard(repo, providers, encryption, need);
    law_each_requirement_once(repo, providers, encryption, need);
    let r = required_by(repo, providers, encryption);
    let k = choose|k: int| 0 <= k < r.len() && same_need(#[trigger] r[k], need);
    assert(required_by(repo, providers, encryption)[k].name == need.name);
}

/// A command is called by the first word, without the directory that it lies in and without
/// the mark of a shell command before it.
#[verifier::spinoff_prover]
#[verifier::rlimit(30)]
pub proof fn law_commands_are_named(dir: Seq<char>, name: Seq<char>, args: Seq<char>)
    requires
        name.len() > 0,
        !name.contains('/'),
        forall|i: int| 0 <= i < name.len() ==> !is_space(#[trigger] name[i]),
        forall|i: int| 0 <= i < dir.len() ==> !is_space(#[trigger] dir[i]),
        name[0] != '!',
        dir.len() > 0 ==> dir[0] != '!',
        args.len() > 0 ==> !is_space(args.last()),
    ensures
        command_named(name) == Some(name),
        command_named(seq!['!'] + name) == Some(name),
        args.len() > 0 ==> command_named(name + seq![' '] + args) == Some(name),
        args.len() > 0 ==> command_named(seq!['!'] + name + seq![' '] + args) == Some(name),
        args.len() > 0 ==> command_named(dir + seq!['/'] + name + seq![' '] + args) == Some(name),
        command_named(dir + seq!['/'] + name) == Some(name),
        command_named(Seq::empty()) is None,
{
    let none = Seq::<char>::empty();
    let path = dir + seq!['/'] + name;
    assert forall|i: int| 0 <= i < name.len() implies !Sep::Is('/').cuts(#[trigger] name[i]) by {
        if name[i] == '/' {
            assert(name.contains('/'));
        }
    }
    law_after_the_last(dir, '/', name, Sep::Is('/'));
    law_nothing_before(name, Sep::Is('/'));
    assert forall|i: int| 0 <= i < path.len() implies !is_space(#[trigger] path[i]) by {
        if i < dir.len() {
            assert(path[i] == dir[i]);
        } else if i > dir.len() {
            assert(path[i] == name[i - dir.len() - 1]);
        }
    }
    lemma_command(name, none);
    lemma_command(path, none);
    if args.len() > 0 {
        lemma_command(name, seq![' '] + args);
        lemma_command(path, seq![' '] + args);
        assert(name + (seq![' '] + args) =~= name + seq![' '] + args);
        assert(path + (seq![' '] + args) =~= path + seq![' '] + args);
        assert(seq!['!'] + (name + (seq![' '] + args)) =~= seq!['!'] + name + seq![' '] + args);
    }
    assert(name + none =~= name);
    assert(path + none =~= path);
    assert(trimmed(none) == none);
    law_words_stand_between_spaces(none, ' ', none);
}

#[verifier::spinoff_prover]
#[verifier::rlimit(40)]
proof fn lemma_command(word: Seq<char>, rest: Seq<char>)
    requires
        word.len() > 0,
        forall|i: int| 0 <= i < word.len() ==> !is_space(#[trigger] word[i]),
        word[0] != '!',
        rest.len() > 0 ==> rest[0] == ' ' && !is_space(rest.last()),
    ensures
        ({
            let name = after_last(word, Sep::Is('/'));
            let found = if name.len() == 0 {
                None
            } else {
                Some(name)
            };
            command_named(word + rest) == found && command_named(seq!['!'] + (word + rest)) == found
        }),
{
    let s = word + rest;
    let none = Seq::<char>::empty();
    let bang = Sep::Is('!');
    assert(s[0] == word[0]);
    assert(!is_space(s.last())) by {
        if rest.len() > 0 {
            assert(s.last() == rest.last());
        } else {
            assert(s.last() == word[word.len() - 1]);
        }
    }
    assert(none + s + none =~= s);
    law_trimmed_at_both_ends(none, s, none, Sep::Space);
    let marked = seq!['!'] + s;
    assert(none + marked + none =~= marked);
    assert(marked.last() == s.last());
    law_trimmed_at_both_ends(none, marked, none, Sep::Space);
    assert(trim_left(s, bang) == s);
    assert(marked.drop_first() =~= s);
    assert(trim_left(marked, bang) == trim_left(marked.drop_first(), bang));
    law_words_stand_between_spaces(word, ' ', none);
    if rest.len() > 0 {
        let args = rest.drop_first();
        assert(s =~= word + seq![' '] + args);
        law_words_stand_between_spaces(word, ' ', args);
        assert(words_of(s)[0] == word);
    } else {
        assert(s =~= word);
    }
}

/// A setting of git requires a command where it is one that names one.
pub proof fn law_settings_that_run_commands(
    left: Seq<char>,
    key: Seq<char>,
    space: Seq<char>,
    value: Seq<char>,
)
    requires
        key.len() > 0,
        !key.contains('='),
        !is_space(key[0]),
        !is_space(key.last()),
        value.len() > 0,
        !is_space(value.last()),
        forall|i: int| 0 <= i < left.len() ==> is_space(#[trigger] left[i]),
        forall|i: int| 0 <= i < space.len() ==> is_space(#[trigger] space[i]),
    ensures
        ({
            let line = left + key + space + seq!['='] + value;
            if key == "pager"@ || key == "diffFilter"@ || key == "helper"@ {
                &&& command_named(value) is None ==> git_need(line) is None
                &&& command_named(value) matches Some(name) ==> git_need(line) == Some(
                    Need {
                        kind: Kind::Command,
                        name,
                        source: ".config/git/config ("@ + key + ")"@,
                    },
                )
            } else {
                git_need(line) is None
            }
        }),
{
    let line = left + key + space + seq!['='] + value;
    let none = Seq::<char>::empty();
    let inner = key + space + seq!['='] + value;
    assert(inner[0] == key[0]);
    assert(inner.last() == value.last());
    assert(left + inner + none =~= line);
    law_trimmed_at_both_ends(left, inner, none, Sep::Space);
    let k = key + space;
    assert forall|i: int| 0 <= i < k.len() implies !Sep::Is('=').cuts(#[trigger] k[i]) by {
        if i < key.len() {
            assert(k[i] == key[i]);
            assert(key.contains(key[i]));
        } else {
            assert(k[i] == space[i - key.len()]);
            assert(is_space(space[i - key.len()]));
        }
    }
    law_split_at_the_first(k, '=', value, Sep::Is('='));
    assert(inner =~= k + seq!['='] + value);
    law_trimmed_at_both_ends(none, key, space, Sep::Space);
    assert(none + key + space =~= k);
}

/// One line of git's configuration gives at most one requirement, one value at most one
/// command.
pub proof fn law_one_setting(line: Seq<char>, value: Seq<char>)
    ensures
        git_needs(seq![line]) == match git_need(line) {
            Some(need) => seq![need],
            None => Seq::<Need>::empty(),
        },
        commands_run(seq![value]) == match command_named(value) {
            Some(name) => seq![name],
            None => Seq::<Seq<char>>::empty(),
        },
{
    let one = seq![line];
    assert(one.last() == line);
    assert(one.drop_last() =~= Seq::empty());
    assert(git_needs(one.drop_last()) =~= Seq::empty());
    if let Some(need) = git_need(line) {
        assert(Seq::<Need>::empty().push(need) =~= seq![need]);
    }
    let v = seq![value];
    assert(v.last() == value);
    assert(v.drop_last() =~= Seq::empty());
    assert(commands_run(v.drop_last()) =~= Seq::empty());
    if let Some(name) = command_named(value) {
        assert(Seq::<Seq<char>>::empty().push(name) =~= seq![name]);
    }
}

/// What stands between a prefix and the character that closes it is found wherever the
/// prefix stands.
pub proof fn law_what_stands_between(
    a: Seq<char>,
    prefix: Seq<char>,
    x: Seq<char>,
    close: char,
    rest: Seq<char>,
)
    requires
        prefix.len() > 0,
        !x.contains(close),
        index_of(a + prefix + x + seq![close] + rest, prefix) == Some(a.len() as int),
    ensures
        between(a + prefix + x + seq![close] + rest, prefix, close) == seq![x] + between(
            seq![close] + rest,
            prefix,
            close,
        ),
{
    let text = a + prefix + x + seq![close] + rest;
    let after = text.skip(a.len() as int + prefix.len());
    assert(after =~= x + seq![close] + rest);
    assert forall|i: int| 0 <= i < x.len() implies !Sep::Is(close).cuts(#[trigger] x[i]) by {
        assert(x.contains(x[i]));
    }
    law_split_at_the_first(x, close, rest, Sep::Is(close));
    assert(after.take(x.len() as int) =~= x);
    assert(after.skip(x.len() as int) =~= seq![close] + rest);
}

/// Where the prefix does not stand, nothing stands behind it.
pub proof fn law_nothing_stands_between(text: Seq<char>, prefix: Seq<char>, close: char)
    requires
        index_of(text, prefix) is None,
    ensures
        between(text, prefix, close).len() == 0,
{
}

/// What a prefix opens is closed by the character that belongs to its last one.
pub proof fn law_what_closes(p: Seq<char>, text: Seq<char>)
    ensures
        all_between(text, p.push('"')) == between(text, p.push('"'), '"'),
        all_between(text, p.push('(')) == between(text, p.push('('), ')'),
        all_between(text, p.push('[')) == between(text, p.push('['), ']'),
{
    assert(p.push('"').last() == '"');
    assert(p.push('(').last() == '(');
    assert(p.push('[').last() == '[');
}

/// A key is a text in quotes with a colon behind it; any other text in quotes is passed.
pub proof fn law_keys_have_colons(
    pre: Seq<char>,
    key: Seq<char>,
    space: Seq<char>,
    rest: Seq<char>,
)
    requires
        !pre.contains('"'),
        !key.contains('"'),
        forall|i: int| 0 <= i < space.len() ==> is_space(#[trigger] space[i]),
        rest.len() > 0 ==> !is_space(rest[0]),
    ensures
        keys_in(pre).len() == 0,
        keys_in(pre + seq!['"'] + key + seq!['"'] + space + rest) == if key.len() > 0 && rest.len()
            > 0 && rest[0] == ':' {
            seq![key] + keys_in(space + rest)
        } else {
            keys_in(space + rest)
        },
{
    let quote = Sep::Is('"');
    let block = pre + seq!['"'] + key + seq!['"'] + space + rest;
    assert forall|i: int| 0 <= i < pre.len() implies !quote.cuts(#[trigger] pre[i]) by {
        assert(pre.contains(pre[i]));
    }
    assert forall|i: int| 0 <= i < key.len() implies !quote.cuts(#[trigger] key[i]) by {
        assert(key.contains(key[i]));
    }
    let after = key + seq!['"'] + (space + rest);
    law_split_at_the_first(pre, '"', after, quote);
    assert(block =~= pre + seq!['"'] + after);
    assert(block.skip(pre.len() as int + 1) =~= after);
    law_split_at_the_first(key, '"', space + rest, quote);
    assert(after.take(key.len() as int) =~= key);
    assert(after.skip(key.len() as int + 1) =~= space + rest);
    assert forall|i: int| 0 <= i < space.len() implies Sep::Space.cuts(#[trigger] space[i]) by {}
    let t = trim_left(space + rest, Sep::Space);
    if rest.len() > 0 {
        lemma_left_of(space, rest);
        assert(t == rest);
        assert(rest.take(1) =~= seq![rest[0]]);
        assert(starts(rest, seq![':']) == (rest[0] == ':')) by {
            if starts(rest, seq![':']) {
                assert(rest.take(1)[0] == seq![':'][0]);
            }
        }
    } else {
        assert(rest =~= Seq::empty());
        lemma_left_of(space, rest);
        assert(t.len() == 0);
    }
    crate::text::law_nothing_to_cut(pre, quote);
}

proof fn lemma_left_of(space: Seq<char>, rest: Seq<char>)
    requires
        forall|i: int| 0 <= i < space.len() ==> is_space(#[trigger] space[i]),
        rest.len() > 0 ==> !is_space(rest[0]),
    ensures
        trim_left(space + rest, Sep::Space) == rest,
    decreases space.len(),
{
    if space.len() == 0 {
        assert(space + rest =~= rest);
    } else {
        let tail = space.drop_first();
        assert((space + rest)[0] == space[0]);
        assert((space + rest).drop_first() =~= tail + rest);
        assert forall|i: int| 0 <= i < tail.len() implies is_space(#[trigger] tail[i]) by {
            assert(tail[i] == space[i + 1]);
        }
        lemma_left_of(tail, rest);
    }
}

/// The extensions that are installed are listed in the braces behind their key.
pub proof fn law_extensions_stand_in_braces(
    a: Seq<char>,
    m: Seq<char>,
    block: Seq<char>,
    rest: Seq<char>,
)
    requires
        !m.contains('{'),
        !block.contains('}'),
        index_of(
            a + "\"auto_install_extensions\""@ + m + seq!['{'] + block + seq!['}'] + rest,
            "\"auto_install_extensions\""@,
        ) == Some(a.len() as int),
    ensures
        extension_block(
            a + "\"auto_install_extensions\""@ + m + seq!['{'] + block + seq!['}'] + rest,
        ) == Some(seq!['{'] + block),
{
    let key = "\"auto_install_extensions\""@;
    reveal_strlit("\"auto_install_extensions\"");
    let text = a + key + m + seq!['{'] + block + seq!['}'] + rest;
    let tail = text.skip(a.len() as int);
    let before = key + m;
    let open = block + seq!['}'] + rest;
    assert(tail =~= before + seq!['{'] + open);
    assert forall|i: int| 0 <= i < before.len() implies !Sep::Is('{').cuts(#[trigger] before[i]) by {
        if i < key.len() {
            assert(before[i] == key[i]);
        } else {
            assert(before[i] == m[i - key.len()]);
            assert(m.contains(m[i - key.len()]));
        }
    }
    law_split_at_the_first(before, '{', open, Sep::Is('{'));
    let inner = tail.skip(before.len() as int);
    let braced = seq!['{'] + block;
    assert(inner =~= braced + seq!['}'] + rest);
    assert forall|i: int| 0 <= i < braced.len() implies !Sep::Is('}').cuts(#[trigger] braced[i]) by {
        if i > 0 {
            assert(braced[i] == block[i - 1]);
            assert(block.contains(block[i - 1]));
        }
    }
    law_split_at_the_first(braced, '}', rest, Sep::Is('}'));
    assert(inner.take(braced.len() as int) =~= braced);
}

/// A path is read from the first text that lies there; where none does, from the template
/// for it.
pub proof fn law_configurations_are_read(files: Seq<RepoFile>, rel: Seq<char>)
    ensures
        text_at(files, rel) is None <==> forall|i: int|
            0 <= i < files.len() ==> !(same_path((#[trigger] files[i]).rel@, rel) && files[i].utf8),
        text_at(files, rel) matches Some(t) ==> exists|i: int|
            0 <= i < files.len() && same_path((#[trigger] files[i]).rel@, rel) && files[i].utf8
                && files[i].text@ == t,
        text_at(files, rel) is Some ==> read_at(files, rel) == text_at(files, rel),
        text_at(files, rel) is None ==> read_at(files, rel) == text_at(files, rel + ".tmpl"@),
        files.len() > 0 && same_path(files[0].rel@, rel) && files[0].utf8 ==> text_at(files, rel)
            == Some(files[0].text@),
        files.len() > 0 && !(same_path(files[0].rel@, rel) && files[0].utf8) ==> text_at(files, rel)
            == text_at(files.drop_first(), rel),
    decreases files.len(),
{
    if files.len() > 0 {
        let rest = files.drop_first();
        law_configurations_are_read(rest, rel);
        if !(same_path(files[0].rel@, rel) && files[0].utf8) {
            if text_at(files, rel) is None {
                assert forall|i: int| 0 <= i < files.len() implies !(same_path(
                    (#[trigger] files[i]).rel@,
                    rel,
                ) && files[i].utf8) by {
                    if i > 0 {
                        assert(rest[i - 1] == files[i]);
                    }
                }
            } else {
                let i = choose|i: int|
                    0 <= i < rest.len() && same_path((#[trigger] rest[i]).rel@, rel) && rest[i].utf8
                        && rest[i].text@ == text_at(rest, rel).unwrap();
                assert(files[i + 1] == rest[i]);
            }
        }
    }
}

/// A file of the shell's configuration directory is read where it lies directly in it, and
/// one outside is not.
pub proof fn law_one_shell_file(f: RepoFile)
    ensures
        rc_needs(seq![f]) == if f.utf8 && components(f.rel@).len() == 4 && components(f.rel@)[0]
            == ".config"@ && components(f.rel@)[1] == "zsh"@ && components(f.rel@)[2] == "rc"@ {
            zsh_needs(f.rel@, f.text@)
        } else {
            Seq::<Need>::empty()
        },
{
    let one = seq![f];
    assert(one.last() == f);
    assert(one.drop_last() =~= Seq::empty());
    assert(rc_needs(one.drop_last()) =~= Seq::empty());
    assert(Seq::<Need>::empty() + zsh_needs(f.rel@, f.text@) =~= zsh_needs(f.rel@, f.text@));
}

/// A shell file requires every command that it evaluates the output of or tests for.
pub proof fn law_shell_files_require_commands(rel: Seq<char>, text: Seq<char>, name: Seq<char>)
    ensures
        zsh_needs(rel, text).contains(
            Need { kind: Kind::Command, name, source: rel + " (eval)"@ },
        ) <==> commands_run(all_between(text, "eval \"$("@)).contains(name) || (rel + " (eval)"@
            == rel + " (commands[])"@ && crate::text::nonempty(
            all_between(text, "${+commands["@),
        ).contains(name)),
        zsh_needs(rel, text).contains(
            Need { kind: Kind::Command, name, source: rel + " (commands[])"@ },
        ) <==> crate::text::nonempty(all_between(text, "${+commands["@)).contains(name) || (rel
            + " (eval)"@ == rel + " (commands[])"@ && commands_run(
            all_between(text, "eval \"$("@),
        ).contains(name)),
{
    let a = commands_run(all_between(text, "eval \"$("@));
    let b = crate::text::nonempty(all_between(text, "${+commands["@));
    let x = Need { kind: Kind::Command, name, source: rel + " (eval)"@ };
    let y = Need { kind: Kind::Command, name, source: rel + " (commands[])"@ };
    let na = needs_for(Kind::Command, a, rel + " (eval)"@);
    let nb = needs_for(Kind::Command, b, rel + " (commands[])"@);
    lemma_in_either(na, nb, x);
    lemma_in_either(na, nb, y);
    law_needs_carry_their_names(Kind::Command, a, rel + " (eval)"@, x);
    law_needs_carry_their_names(Kind::Command, a, rel + " (eval)"@, y);
    law_needs_carry_their_names(Kind::Command, b, rel + " (commands[])"@, x);
    law_needs_carry_their_names(Kind::Command, b, rel + " (commands[])"@, y);
}

/// Every name becomes a requirement of the kind and from the source that is told.
pub proof fn law_needs_carry_their_names(
    kind: Kind,
    names: Seq<Seq<char>>,
    source: Seq<char>,
    need: Need,
)
    ensures
        needs_for(kind, names, source).len() == names.len(),
        needs_for(kind, names, source).contains(need) <==> need.kind == kind && need.source == source
            && names.contains(need.name),
{
    let v = needs_for(kind, names, source);
    if v.contains(need) {
        let k = choose|k: int| 0 <= k < v.len() && v[k] == need;
        assert(names[k] == need.name);
    }
    if need.kind == kind && need.source == source && names.contains(need.name) {
        let k = choose|k: int| 0 <= k < names.len() && names[k] == need.name;
        assert(v[k] == need);
    }
}

/// What lies directly in the configuration directory stands for a tool: a directory for that
/// of its name, a file for that of its stem. A template counts as what it generates, unless
/// that is there; hidden names stand for none, and neither does what lies elsewhere.
pub proof fn law_one_configured_tool(repo: Repo, path: Seq<char>, base: Seq<char>, directory: bool)
    requires
        components(path).len() == 2,
        components(path)[0] == ".config"@,
        components(path)[1] == base || components(path)[1] == base + ".tmpl"@,
        !(exists|t: Seq<char>| base == #[trigger] (t + ".tmpl"@)),
    ensures
        ({
            let name = if directory {
                base
            } else {
                name_stem(base)
            };
            tools_among(repo, seq![path], directory) == if name.len() == 0 || name[0] == '.' || (
            components(path)[1] != base && has_config(repo, base)) {
                Seq::<Seq<char>>::empty()
            } else {
                seq![name]
            }
        }),
{
    let one = seq![path];
    assert(one.last() == path);
    assert(one.drop_last() =~= Seq::empty());
    assert(tools_among(repo, one.drop_last(), directory) =~= Seq::empty());
    let child = components(path)[1];
    let p = ".tmpl"@;
    reveal_strlit(".tmpl");
    crate::text::law_starts_and_ends(child, p);
    if child == base {
        assert(!ends(child, p));
    } else {
        assert(child == base + p);
        assert(ends(child, p));
        assert(child.take(child.len() - 5) =~= base);
    }
    let name = if directory {
        base
    } else {
        name_stem(base)
    };
    assert(Seq::<Seq<char>>::empty().push(name) =~= seq![name]);
}

/// What does not lie directly in the configuration directory stands for no tool.
pub proof fn law_other_paths_are_no_tools(repo: Repo, path: Seq<char>, directory: bool)
    requires
        components(path).len() != 2 || components(path)[0] != ".config"@,
    ensures
        tools_among(repo, seq![path], directory).len() == 0,
{
    let one = seq![path];
    assert(one.last() == path);
    assert(one.drop_last() =~= Seq::empty());
    assert(tools_among(repo, one.drop_last(), directory) =~= Seq::empty());
}

/// An annotation names a requirement by its kind and, with or without quotes, its name.
#[verifier::spinoff_prover]
#[verifier::rlimit(30)]
pub proof fn law_annotations_are_read(a: Seq<char>, word: Seq<char>, value: Seq<char>, quoted: bool)
    requires
        word.len() > 0,
        forall|i: int| 0 <= i < word.len() ==> !is_space(#[trigger] word[i]),
        value.len() > 0,
        !is_space(value[0]),
        !is_space(value.last()),
        value[0] != '"',
        value.last() != '"',
        index_of(
            a + "sennit: requires "@ + word + seq![' '] + (if quoted {
                seq!['"'] + value + seq!['"']
            } else {
                value
            }),
            "sennit: requires "@,
        ) == Some(a.len() as int),
    ensures
        annotation(
            a + "sennit: requires "@ + word + seq![' '] + (if quoted {
                seq!['"'] + value + seq!['"']
            } else {
                value
            }),
        ) == if word == "command"@ {
            Some((Kind::Command, value))
        } else if word == "font"@ {
            Some((Kind::Font, value))
        } else if word == "extension"@ {
            Some((Kind::Extension, value))
        } else {
            None
        },
{
    reveal_strlit("sennit: requires ");
    let none = Seq::<char>::empty();
    let told = if quoted {
        seq!['"'] + value + seq!['"']
    } else {
        value
    };
    let line = a + "sennit: requires "@ + word + seq![' '] + told;
    let rest = word + seq![' '] + told;
    assert(line.skip(a.len() as int + 17) =~= rest);
    assert(rest[0] == word[0]);
    assert(rest.last() == told.last());
    assert(none + rest + none =~= rest);
    law_trimmed_at_both_ends(none, rest, none, Sep::Space);
    assert forall|i: int| 0 <= i < word.len() implies !Sep::Space.cuts(#[trigger] word[i]) by {
        assert(!is_space(word[i]));
    }
    law_split_at_the_first(word, ' ', told, Sep::Space);
    assert(none + told + none =~= told);
    law_trimmed_at_both_ends(none, told, none, Sep::Space);
    lemma_told_value(value, quoted);
}

proof fn lemma_told_value(value: Seq<char>, quoted: bool)
    requires
        value.len() > 0,
        !is_space(value[0]),
        !is_space(value.last()),
        value[0] != '"',
        value.last() != '"',
    ensures
        trimmed(
            trim_ends(
                if quoted {
                    seq!['"'] + value + seq!['"']
                } else {
                    value
                },
                Sep::Is('"'),
            ),
        ) == value,
{
    let none = Seq::<char>::empty();
    let quote = Sep::Is('"');
    assert(none + value + none =~= value);
    if quoted {
        law_trimmed_at_both_ends(seq!['"'], value, seq!['"'], quote);
    } else {
        law_trimmed_at_both_ends(none, value, none, quote);
    }
    law_trimmed_at_both_ends(none, value, none, Sep::Space);
}

/// A line without the words that begin an annotation is none.
pub proof fn law_one_annotated_line(rel: Seq<char>, line: Seq<char>)
    ensures
        index_of(line, "sennit: requires "@) is None ==> annotation(line) is None,
        annotations_on(rel, seq![line]) == match annotation(line) {
            Some((kind, name)) => seq![Need { kind, name, source: rel + " (annotation)"@ }],
            None => Seq::<Need>::empty(),
        },
{
    let one = seq![line];
    assert(one.last() == line);
    assert(one.drop_last() =~= Seq::empty());
    assert(annotations_on(rel, one.drop_last()) =~= Seq::empty());
    if let Some((kind, name)) = annotation(line) {
        let need = Need { kind, name, source: rel + " (annotation)"@ };
        assert(Seq::<Need>::empty().push(need) =~= seq![need]);
    }
}

/// The annotations of a file count where it lies below the configuration directory, not too
/// deep and not among what is generated or git's own, and is not too large.
pub proof fn law_one_annotated_file(f: RepoFile)
    ensures
        ({
            let cs = components(f.rel@);
            annotations_below(seq![f]) == if f.size <= 512 * 1024 && 1 < cs.len() <= 8 && cs[0]
                == ".config"@ && !cs.contains(".git"@) && !cs.contains("target"@) && !cs.contains(
                "node_modules"@,
            ) {
                annotations_on(f.rel@, lines_of(f.text@))
            } else {
                Seq::<Need>::empty()
            }
        }),
{
    let one = seq![f];
    assert(one.last() == f);
    assert(one.drop_last() =~= Seq::empty());
    assert(annotations_below(one.drop_last()) =~= Seq::empty());
    let own = annotations_on(f.rel@, lines_of(f.text@));
    assert(Seq::<Need>::empty() + own =~= own);
}

/// The annotations of the file that is sourced first count too, and only those of the one
/// that lies there.
pub proof fn law_annotations_of_the_environment(files: Seq<RepoFile>, need: Need)
    ensures
        annotations_of(files).contains(need) <==> annotations_below(files).contains(need) || (exists|
            i: int,
        |
            0 <= i < files.len() && same_path((#[trigger] files[i]).rel@, ".zshenv"@) && (forall|
                j: int,
            |
                0 <= j < i ==> !same_path((#[trigger] files[j]).rel@, ".zshenv"@)) && files[i].size
                <= 512 * 1024 && annotations_on(".zshenv"@, lines_of(files[i].text@)).contains(need)),
{
    let own = match file_at(files, ".zshenv"@) {
        Some(f) => if f.size <= LARGEST {
            annotations_on(".zshenv"@, lines_of(f.text@))
        } else {
            seq![]
        },
        None => seq![],
    };
    lemma_in_either(annotations_below(files), own, need);
    lemma_file_at(files, ".zshenv"@);
}

proof fn lemma_file_at(files: Seq<RepoFile>, rel: Seq<char>)
    ensures
        file_at(files, rel) matches Some(f) ==> exists|i: int|
            0 <= i < files.len() && #[trigger] files[i] == f && same_path(files[i].rel@, rel) && (
            forall|j: int| 0 <= j < i ==> !same_path((#[trigger] files[j]).rel@, rel)),
        file_at(files, rel) is None ==> forall|i: int|
            0 <= i < files.len() ==> !same_path((#[trigger] files[i]).rel@, rel),
        forall|i: int|
            0 <= i < files.len() && same_path((#[trigger] files[i]).rel@, rel) && (forall|j: int|
                0 <= j < i ==> !same_path((#[trigger] files[j]).rel@, rel)) ==> file_at(files, rel)
                == Some(files[i]),
    decreases files.len(),
{
    if files.len() > 0 {
        let rest = files.drop_first();
        lemma_file_at(rest, rel);
        if same_path(files[0].rel@, rel) {
            assert(files[0] == files[0]);
        } else {
            assert forall|i: int| 0 <= i < rest.len() implies #[trigger] rest[i] == files[i + 1] by {}
            if let Some(f) = file_at(rest, rel) {
                let i = choose|i: int|
                    0 <= i < rest.len() && #[trigger] rest[i] == f && same_path(rest[i].rel@, rel)
                        && (forall|j: int|
                        0 <= j < i ==> !same_path((#[trigger] rest[j]).rel@, rel));
                assert(files[i + 1] == f);
                assert forall|j: int| 0 <= j < i + 1 implies !same_path(
                    (#[trigger] files[j]).rel@,
                    rel,
                ) by {
                    if j > 0 {
                        assert(rest[j - 1] == files[j]);
                    }
                }
            } else {
                assert forall|i: int| 0 <= i < files.len() implies !same_path(
                    (#[trigger] files[i]).rel@,
                    rel,
                ) by {
                    if i > 0 {
                        assert(rest[i - 1] == files[i]);
                    }
                }
            }
            assert forall|i: int|
                0 <= i < files.len() && same_path((#[trigger] files[i]).rel@, rel) && (forall|j: int|
                    0 <= j < i ==> !same_path((#[trigger] files[j]).rel@, rel)) implies file_at(
                files,
                rel,
            ) == Some(files[i]) by {
                assert(rest[i - 1] == files[i]);
                assert forall|j: int| 0 <= j < i - 1 implies !same_path(
                    (#[trigger] rest[j]).rel@,
                    rel,
                ) by {
                    assert(files[j + 1] == rest[j]);
                }
            }
        }
    }
}

/// What decrypts is required, by its name.
pub proof fn law_what_decrypts_is_required(encryption: Option<Encryption>, need: Need)
    ensures
        encryption_of(encryption).contains(need) <==> (encryption matches Some(enc) && (
        command_words(enc.command@, None, None).len() > 0 && need == (Need {
            kind: Kind::Command,
            name: after_last(command_words(enc.command@, None, None)[0], Sep::Is('/')),
            source: "sennit.toml ([encryption])"@,
        }))),
{
    let v = encryption_of(encryption);
    if v.len() > 0 {
        assert(v[0] == v.last());
        if v.contains(need) {
            let k = choose|k: int| 0 <= k < v.len() && v[k] == need;
            assert(k == 0);
        }
    }
}

/// What a template requires does not depend on the files around it.
pub proof fn law_templates_are_read_one_by_one(a: Seq<RepoFile>, b: Seq<RepoFile>, providers: Seq<(Seq<char>, Provider)>)
    ensures
        secrets_of(a + b, providers) == secrets_of(a, providers) + secrets_of(b, providers),
    decreases b.len(),
{
    if b.len() == 0 {
        assert(a + b =~= a);
        assert(secrets_of(a, providers) + secrets_of(b, providers) =~= secrets_of(a, providers));
    } else {
        assert((a + b).drop_last() =~= a + b.drop_last());
        law_templates_are_read_one_by_one(a, b.drop_last(), providers);
        assert(secrets_of(a + b, providers) =~= secrets_of(a, providers) + secrets_of(b, providers));
    }
}

/// What a setting requires does not depend on the lines around it.
pub proof fn law_settings_are_read_line_by_line(a: Seq<Seq<char>>, b: Seq<Seq<char>>)
    ensures
        git_needs(a + b) == git_needs(a) + git_needs(b),
    decreases b.len(),
{
    if b.len() == 0 {
        assert(a + b =~= a);
        assert(git_needs(a) + git_needs(b) =~= git_needs(a));
    } else {
        assert((a + b).drop_last() =~= a + b.drop_last());
        law_settings_are_read_line_by_line(a, b.drop_last());
        assert(git_needs(a + b) =~= git_needs(a) + git_needs(b));
    }
}

/// What a value runs does not depend on the values around it.
pub proof fn law_commands_are_run_one_by_one(a: Seq<Seq<char>>, b: Seq<Seq<char>>)
    ensures
        commands_run(a + b) == commands_run(a) + commands_run(b),
    decreases b.len(),
{
    if b.len() == 0 {
        assert(a + b =~= a);
        assert(commands_run(a) + commands_run(b) =~= commands_run(a));
    } else {
        assert((a + b).drop_last() =~= a + b.drop_last());
        law_commands_are_run_one_by_one(a, b.drop_last());
        assert(commands_run(a + b) =~= commands_run(a) + commands_run(b));
    }
}

/// What a file of the shell requires does not depend on the files around it.
pub proof fn law_shell_files_are_read_one_by_one(a: Seq<RepoFile>, b: Seq<RepoFile>)
    ensures
        rc_needs(a + b) == rc_needs(a) + rc_needs(b),
    decreases b.len(),
{
    if b.len() == 0 {
        assert(a + b =~= a);
        assert(rc_needs(a) + rc_needs(b) =~= rc_needs(a));
    } else {
        assert((a + b).drop_last() =~= a + b.drop_last());
        law_shell_files_are_read_one_by_one(a, b.drop_last());
        assert(rc_needs(a + b) =~= rc_needs(a) + rc_needs(b));
    }
}

/// What a path stands for does not depend on the paths around it.
pub proof fn law_tools_are_found_one_by_one(a: Seq<Seq<char>>, b: Seq<Seq<char>>, repo: Repo, directory: bool)
    ensures
        tools_among(repo, a + b, directory) == tools_among(repo, a, directory) + tools_among(repo, b, directory),
    decreases b.len(),
{
    if b.len() == 0 {
        assert(a + b =~= a);
        assert(tools_among(repo, a, directory) + tools_among(repo, b, directory) =~= tools_among(repo, a, directory));
    } else {
        assert((a + b).drop_last() =~= a + b.drop_last());
        law_tools_are_found_one_by_one(a, b.drop_last(), repo, directory);
        assert(tools_among(repo, a + b, directory) =~= tools_among(repo, a, directory) + tools_among(repo, b, directory));
    }
}

/// What an annotation requires does not depend on the lines around it.
pub proof fn law_annotations_are_read_line_by_line(a: Seq<Seq<char>>, b: Seq<Seq<char>>, rel: Seq<char>)
    ensures
        annotations_on(rel, a + b) == annotations_on(rel, a) + annotations_on(rel, b),
    decreases b.len(),
{
    if b.len() == 0 {
        assert(a + b =~= a);
        assert(annotations_on(rel, a) + annotations_on(rel, b) =~= annotations_on(rel, a));
    } else {
        assert((a + b).drop_last() =~= a + b.drop_last());
        law_annotations_are_read_line_by_line(a, b.drop_last(), rel);
        assert(annotations_on(rel, a + b) =~= annotations_on(rel, a) + annotations_on(rel, b));
    }
}

/// What the annotations of a file require does not depend on the files around it.
pub proof fn law_annotated_files_are_read_one_by_one(a: Seq<RepoFile>, b: Seq<RepoFile>)
    ensures
        annotations_below(a + b) == annotations_below(a) + annotations_below(b),
    decreases b.len(),
{
    if b.len() == 0 {
        assert(a + b =~= a);
        assert(annotations_below(a) + annotations_below(b) =~= annotations_below(a));
    } else {
        assert((a + b).drop_last() =~= a + b.drop_last());
        law_annotated_files_are_read_one_by_one(a, b.drop_last());
        assert(annotations_below(a + b) =~= annotations_below(a) + annotations_below(b));
    }
}

/// A scan finds the command of every provider that some template of the repository calls
/// for, wherever the template lies.
pub proof fn law_a_scan_finds_what_templates_call_for(
    repo: &Repo,
    providers: &Table<Provider>,
    encryption: &Option<Encryption>,
    r: Vec<Requirement>,
    i: int,
    scheme: Seq<char>,
    need: Need,
)
    requires
        call_ensures(scan, (repo, providers, encryption), r),
        0 <= i < repo.files@.len(),
        calls_for(repo.files@[i], scheme, providers@, need),
    ensures
        exists|k: int|
            0 <= k < r@.len() && (#[trigger] r@[k]).kind is Command && r@[k].name@ == need.name,
{
    law_secrets_are_required(*repo, providers@, *encryption, i, scheme, need);
    let all = required_by(*repo, providers@, *encryption);
    let k = choose|k: int|
        0 <= k < all.len() && (#[trigger] required_by(*repo, providers@, *encryption)[k]).kind
            is Command && required_by(*repo, providers@, *encryption)[k].name == need.name;
    assert(needs(r@)[k] == r@[k]@);
    assert(r@[k].name@ == need.name);
}

/// A configuration is there where a directory or a file of its name lies directly in the
/// configuration directory.
pub proof fn law_when_a_configuration_is_there(repo: Repo, name: Seq<char>)
    ensures
        has_config(repo, name) <==> (exists|i: int|
            0 <= i < repo.dirs@.len() && components((#[trigger] repo.dirs@[i])@) == seq![
                ".config"@,
                name,
            ]) || (exists|i: int|
            0 <= i < repo.files@.len() && components((#[trigger] repo.files@[i]).rel@) == seq![
                ".config"@,
                name,
            ]),
{
    let want = seq![".config"@, name];
    assert forall|rel: Seq<char>| #[trigger] config_child(rel) == Some(name) <==> components(rel)
        == want by {
        let cs = components(rel);
        if config_child(rel) == Some(name) {
            assert(cs =~= want);
        }
        if cs == want {
            assert(cs[0] == ".config"@ && cs[1] == name);
        }
    }
    if exists|i: int|
        0 <= i < repo.dirs@.len() && config_child((#[trigger] repo.dirs@[i])@) == Some(name) {
        let i = choose|i: int|
            0 <= i < repo.dirs@.len() && config_child((#[trigger] repo.dirs@[i])@) == Some(name);
        assert(components(repo.dirs@[i]@) == want);
    }
    if exists|i: int|
        0 <= i < repo.files@.len() && config_child((#[trigger] repo.files@[i]).rel@) == Some(name) {
        let i = choose|i: int|
            0 <= i < repo.files@.len() && config_child((#[trigger] repo.files@[i]).rel@) == Some(
                name,
            );
        assert(components(repo.files@[i].rel@) == want);
    }
    if exists|i: int|
        0 <= i < repo.dirs@.len() && components((#[trigger] repo.dirs@[i])@) == want {
        let i = choose|i: int|
            0 <= i < repo.dirs@.len() && components((#[trigger] repo.dirs@[i])@) == want;
        assert(config_child(repo.dirs@[i]@) == Some(name));
    }
    if exists|i: int|
        0 <= i < repo.files@.len() && components((#[trigger] repo.files@[i]).rel@) == want {
        let i = choose|i: int|
            0 <= i < repo.files@.len() && components((#[trigger] repo.files@[i]).rel@) == want;
        assert(config_child(repo.files@[i].rel@) == Some(name));
    }
}

/// Git requires what the settings of its configuration name.
pub proof fn law_what_git_requires(files: Seq<RepoFile>, need: Need)
    ensures
        git_of(files).contains(need) <==> (read_at(files, ".config/git/config"@) matches Some(text)
            && exists|i: int|
            0 <= i < lines_of(text).len() && git_need(#[trigger] lines_of(text)[i]) == Some(need)),
{
    if let Some(text) = read_at(files, ".config/git/config"@) {
        lemma_git_needs(lines_of(text), need);
    }
}

proof fn lemma_git_needs(ls: Seq<Seq<char>>, need: Need)
    ensures
        git_needs(ls).contains(need) <==> exists|i: int|
            0 <= i < ls.len() && git_need(#[trigger] ls[i]) == Some(need),
    decreases ls.len(),
{
    if ls.len() > 0 {
        let head = ls.drop_last();
        lemma_git_needs(head, need);
        let all = git_needs(ls);
        let before = git_needs(head);
        assert(ls[ls.len() - 1] == ls.last());
        if before.contains(need) {
            let k = choose|k: int| 0 <= k < before.len() && before[k] == need;
            assert(all[k] == need);
            let i = choose|i: int| 0 <= i < head.len() && git_need(#[trigger] head[i]) == Some(need);
            assert(ls[i] == head[i]);
        }
        if all.len() > before.len() {
            assert(all[before.len() as int] == git_need(ls.last()).unwrap());
            if all.contains(need) && !before.contains(need) {
                let k = choose|k: int| 0 <= k < all.len() && all[k] == need;
                if k < before.len() {
                    assert(before[k] == need);
                }
            }
        }
        if exists|i: int| 0 <= i < ls.len() && git_need(#[trigger] ls[i]) == Some(need) {
            let i = choose|i: int| 0 <= i < ls.len() && git_need(#[trigger] ls[i]) == Some(need);
            if i < head.len() {
                assert(head[i] == ls[i]);
            }
        }
    }
}

/// The terminal and the editor require the fonts that their configurations name, and the
/// editor the extensions that it installs.
pub proof fn law_what_terminal_and_editor_require(files: Seq<RepoFile>, need: Need)
    ensures
        alacritty_of(files).contains(need) <==> (read_at(
            files,
            ".config/alacritty/alacritty.toml"@,
        ) matches Some(text) && need.kind is Font && need.source
            == ".config/alacritty/alacritty.toml (font.family)"@ && all_between(
            text,
            "family = \""@,
        ).contains(need.name)),
        zed_of(files).contains(need) <==> (read_at(files, ".config/zed/settings.json"@) matches Some(
            text,
        ) && ((need.kind is Font && need.source == ".config/zed/settings.json (font_family)"@ && (
        all_between(text, "\"buffer_font_family\": \""@).contains(need.name) || all_between(
            text,
            "\"font_family\": \""@,
        ).contains(need.name))) || (need.kind is Extension && need.source
            == ".config/zed/settings.json (auto_install_extensions)"@ && (extension_block(
            text,
        ) matches Some(block) && keys_in(block).contains(need.name))))),
{
    if let Some(text) = read_at(files, ".config/alacritty/alacritty.toml"@) {
        law_needs_carry_their_names(
            Kind::Font,
            all_between(text, "family = \""@),
            ".config/alacritty/alacritty.toml (font.family)"@,
            need,
        );
    }
    if let Some(text) = read_at(files, ".config/zed/settings.json"@) {
        let source = ".config/zed/settings.json (font_family)"@;
        let x = all_between(text, "\"buffer_font_family\": \""@);
        let y = all_between(text, "\"font_family\": \""@);
        law_needs_carry_their_names(Kind::Font, x, source, need);
        law_needs_carry_their_names(Kind::Font, y, source, need);
        let a = needs_for(Kind::Font, x, source);
        let b = needs_for(Kind::Font, y, source);
        lemma_in_either(a, b, need);
        if let Some(block) = extension_block(text) {
            let from = ".config/zed/settings.json (auto_install_extensions)"@;
            law_needs_carry_their_names(Kind::Extension, keys_in(block), from, need);
            lemma_in_either(a + b, needs_for(Kind::Extension, keys_in(block), from), need);
        }
    }
}

/// What lies in the configuration directory requires the tools that it stands for, whether
/// it is a directory or a file.
pub proof fn law_what_the_configuration_directory_requires(repo: Repo, need: Need)
    ensures
        config_of(repo).contains(need) <==> need.kind is Command && need.source
            == ".config/ (directory exists)"@ && (tools_among(
            repo,
            texts(repo.dirs@),
            true,
        ).contains(need.name) || tools_among(repo, paths_of(repo.files@), false).contains(
            need.name,
        )),
        paths_of(repo.files@).len() == repo.files@.len(),
        forall|i: int|
            0 <= i < repo.files@.len() ==> #[trigger] paths_of(repo.files@)[i]
                == repo.files@[i].rel@,
{
    let source = ".config/ (directory exists)"@;
    let a = tools_among(repo, texts(repo.dirs@), true);
    let b = tools_among(repo, paths_of(repo.files@), false);
    law_needs_carry_their_names(Kind::Command, a, source, need);
    law_needs_carry_their_names(Kind::Command, b, source, need);
    lemma_in_either(
        needs_for(Kind::Command, a, source),
        needs_for(Kind::Command, b, source),
        need,
    );
}

/// A shell file at its place is read where a text lies there.
pub proof fn law_shell_files_at_their_places(files: Seq<RepoFile>, rel: Seq<char>)
    ensures
        text_at(files, rel) is None ==> zsh_at(files, rel).len() == 0,
        text_at(files, rel) matches Some(text) ==> zsh_at(files, rel) == zsh_needs(rel, text),
{
}

/// Without the key, or without braces behind it, no extensions are listed.
pub proof fn law_no_extensions_without_braces(text: Seq<char>)
    ensures
        index_of(text, "\"auto_install_extensions\""@) is None ==> extension_block(text) is None,
        !text.contains('{') || !text.contains('}') ==> extension_block(text) is None,
{
    if let Some(start) = index_of(text, "\"auto_install_extensions\""@) {
        lemma_index_from(text, "\"auto_install_extensions\""@, 0);
        let rest = text.skip(start);
        let open = until(rest, Sep::Is('{'));
        lemma_until(rest, Sep::Is('{'));
        if open < rest.len() {
            assert(rest[open] == text[start + open]);
            let block = rest.skip(open);
            let close = until(block, Sep::Is('}'));
            lemma_until(block, Sep::Is('}'));
            if close < block.len() {
                assert(block[close] == text[start + open + close]);
            }
        }
    }
}

/// A scan lists what it found by kind, and by name within a kind.
pub proof fn law_a_scan_is_in_order(
    repo: &Repo,
    providers: &Table<Provider>,
    encryption: &Option<Encryption>,
    r: Vec<Requirement>,
    i: int,
    j: int,
)
    requires
        call_ensures(scan, (repo, providers, encryption), r),
        0 <= i < j < r@.len(),
    ensures
        text_le(r@[i].kind.named(), r@[j].kind.named()),
        r@[i].kind == r@[j].kind ==> text_le(r@[i].name@, r@[j].name@) && r@[i].name@ != r@[j].name@,
{
    law_each_requirement_once(*repo, providers@, *encryption, r@[i]@);
    let all = required_by(*repo, providers@, *encryption);
    assert(needs(r@)[i] == r@[i]@);
    assert(needs(r@)[j] == r@[j]@);
    assert(all[i].at_most(all[j]));
    assert(!same_need(all[i], all[j]));
}

} // verus!
