//! The variables that templates see: data files, the machine, and the environment.
use crate::table::{law_lookup_after_put, lookup, plain, put, put_text, Table};
use crate::text::{
    cat, cat3, chars_of, join, joined, law_nothing_to_cut, law_split_at_the_first, reach, string_of,
    texts, until, Sep,
};
use vstd::prelude::*;
use vstd::slice::slice_subrange;

verus! {

/// A TOML value. It is opaque: what it holds is read by `toml_tree`.
#[verifier::external_type_specification]
#[verifier::external_body]
pub struct ExTomlValue(toml::Value);

/// Why a text is not a TOML document.
#[verifier::external_type_specification]
#[verifier::external_body]
pub struct ExTomlError(toml::de::Error);

/// What a TOML value holds: the entries of a table, the text of a string, or, of any other
/// value, the text that `Display` gives for it. There is no such text of a date-time that is
/// none, nor of an array with one in it: `Display` panics on them.
pub enum Tree {
    Branch(Seq<(Seq<char>, Tree)>),
    Text(Seq<char>),
    Other(Seq<char>),
    Unshown,
}

/// Whether all that a value holds can be shown.
pub open spec fn shown(tree: Tree) -> bool
    decreases tree,
{
    match tree {
        Tree::Text(_) | Tree::Other(_) => true,
        Tree::Unshown => false,
        Tree::Branch(entries) => shown_all(entries),
    }
}

/// Whether all that the entries of a table hold can be shown.
pub open spec fn shown_all(entries: Seq<(Seq<char>, Tree)>) -> bool
    decreases entries,
{
    if entries.len() == 0 {
        true
    } else {
        let e = entries[0];
        shown(e.1) && shown_all(entries.subrange(1, entries.len() as int))
    }
}

/// What a TOML value holds, with the entries of each table in the order in which the table
/// hands them out.
pub uninterp spec fn toml_tree(v: toml::Value) -> Tree;

/// What `toml::from_str` makes of a text: what the value holds where the text is a TOML
/// document, and the error where it is none.
pub uninterp spec fn toml_document(text: Seq<char>) -> Result<Tree, toml::de::Error>;

/// Calls `toml::from_str`: whether it succeeds, what the value then holds, and which error
/// there is otherwise, is fixed by the text. All that is read out of a text can be shown: a
/// date-time in it was read by the parser that `Display` hands it to again.
#[verifier::external_body]
fn parse_toml(text: &str) -> (r: Result<toml::Value, toml::de::Error>)
    ensures
        match r {
            Ok(v) => toml_document(text@) == Ok::<Tree, toml::de::Error>(toml_tree(v)) && shown(
                toml_tree(v),
            ),
            Err(e) => toml_document(text@) == Err::<Tree, toml::de::Error>(e),
        },
{
    toml::from_str(text)
}

/// What the entries of a table hold.
pub open spec fn trees(entries: Seq<(String, toml::Value)>) -> Seq<(Seq<char>, Tree)> {
    entries.map_values(|e: (String, toml::Value)| (e.0@, toml_tree(e.1)))
}

/// Calls `toml::Value::as_table`, and copies the entries of the table where the value is
/// one.
#[verifier::external_body]
fn entries_of(value: &toml::Value) -> (r: Option<Vec<(String, toml::Value)>>)
    ensures
        match r {
            Some(entries) => toml_tree(*value) == Tree::Branch(trees(entries@)),
            None => !(toml_tree(*value) is Branch),
        },
{
    value.as_table().map(|t| t.iter().map(|(k, v)| (k.clone(), v.clone())).collect())
}

/// Calls `toml::Value::as_str`: the text, where the value is a string.
#[verifier::external_body]
fn string_in(value: &toml::Value) -> (r: Option<String>)
    ensures
        match r {
            Some(s) => toml_tree(*value) == Tree::Text(s@),
            None => !(toml_tree(*value) is Text),
        },
{
    value.as_str().map(|s| s.to_string())
}

/// Calls `Display` of `toml::Value` on a value that is neither a table nor a string, and on
/// which it does not panic. What it gives is what the value holds.
#[verifier::external_body]
fn displayed(value: &toml::Value) -> (r: String)
    requires
        toml_tree(*value) is Other,
    ensures
        toml_tree(*value) == Tree::Other(r@),
{
    value.to_string()
}

/// The name of what stands under `key` in the table named `prefix`.
pub open spec fn dotted(prefix: Seq<char>, key: Seq<char>) -> Seq<char> {
    if prefix.len() == 0 {
        key
    } else {
        prefix + "."@ + key
    }
}

/// The variables with those of a tree put in, each under the dotted names that lead to it.
pub open spec fn flattened(
    tree: Tree,
    prefix: Seq<char>,
    vars: Seq<(Seq<char>, Seq<char>)>,
) -> Seq<(Seq<char>, Seq<char>)>
    decreases tree,
{
    match tree {
        Tree::Text(text) | Tree::Other(text) => put(vars, prefix, text),
        Tree::Unshown => vars,
        Tree::Branch(entries) => flattened_all(entries, prefix, vars),
    }
}

/// The variables with those of a table's entries put in, one entry after the other.
pub open spec fn flattened_all(
    entries: Seq<(Seq<char>, Tree)>,
    prefix: Seq<char>,
    vars: Seq<(Seq<char>, Seq<char>)>,
) -> Seq<(Seq<char>, Seq<char>)>
    decreases entries,
{
    if entries.len() == 0 {
        vars
    } else {
        let e = entries[0];
        flattened_all(
            entries.subrange(1, entries.len() as int),
            prefix,
            flattened(e.1, dotted(prefix, e.0), vars),
        )
    }
}

/// Puts the values of a TOML value in, each under the dotted names that lead to it. What is
/// read out of a text always meets the condition; a date-time that was put together by hand
/// need not.
pub fn flatten(value: &toml::Value, prefix: String, out: &mut Table<String>)
    requires
        shown(toml_tree(*value)),
    ensures
        plain(final(out)@) == flattened(toml_tree(*value), prefix@, plain(old(out)@)),
    decreases toml_tree(*value),
{
    match entries_of(value) {
        None => {
            let text = match string_in(value) {
                Some(s) => s,
                None => displayed(value),
            };
            put_text(out, prefix, text);
        },
        Some(entries) => {
            let ghost all = trees(entries@);
            let ghost goal = flattened_all(all, prefix@, plain(out@));
            assert(all.skip(0) =~= all);
            for i in 0..entries.len()
                invariant
                    all == trees(entries@),
                    toml_tree(*value) == Tree::Branch(all),
                    shown_all(all.skip(i as int)),
                    flattened_all(all.skip(i as int), prefix@, plain(out@)) == goal,
            {
                let ghost rest = all.skip(i as int);
                assert(rest.subrange(1, rest.len() as int) =~= all.skip(i + 1));
                assert(rest[0] == all[i as int]);
                let key = if prefix.as_str().unicode_len() == 0 {
                    entries[i].0.clone()
                } else {
                    cat3(prefix.as_str(), ".", entries[i].0.as_str())
                };
                assert(key@ == dotted(prefix@, all[i as int].0));
                proof {
                    let tree = toml_tree(*value);
                    assert(decreases_to!(tree => tree->Branch_0));
                    assert(decreases_to!(all => all[i as int]));
                    assert(decreases_to!(all[i as int] => all[i as int].1));
                }
                flatten(&entries[i].1, key, out);
            }
            assert(all.skip(all.len() as int) =~= Seq::empty());
        },
    }
}

/// A data file.
pub struct Source {
    pub name: String,
    pub text: String,
}

/// A data file that is not a TOML document, and why.
pub struct VarsError {
    pub name: String,
    pub cause: toml::de::Error,
}

/// The variables of the data files, read in turn: where two give the same variable, the
/// later one counts. `None` where one of them is not a TOML document.
pub open spec fn vars_of(sources: Seq<Source>) -> Option<Seq<(Seq<char>, Seq<char>)>>
    decreases sources.len(),
{
    if sources.len() == 0 {
        Some(Seq::empty())
    } else {
        match (vars_of(sources.drop_last()), toml_document(sources.last().text@)) {
            (Some(vars), Ok(tree)) => Some(flattened(tree, Seq::empty(), vars)),
            _ => None,
        }
    }
}

/// Reads the variables out of the data files.
pub fn load_vars(sources: &Vec<Source>) -> (r: Result<Table<String>, VarsError>)
    ensures
        match r {
            Ok(vars) => vars_of(sources@) == Some(plain(vars@)),
            Err(e) => exists|i: int|
                #![trigger sources@[i]]
                0 <= i < sources@.len() && sources@[i].name@ == e.name@ && toml_document(
                    sources@[i].text@,
                ) == Err::<Tree, toml::de::Error>(e.cause) && vars_of(sources@.take(i)) is Some,
        },
        r is Ok <==> vars_of(sources@) is Some,
{
    let mut out: Table<String> = Table::new();
    assert(plain(out@) =~= Seq::empty());
    assert(sources@.take(0) =~= Seq::empty());
    for i in 0..sources.len()
        invariant
            vars_of(sources@.take(i as int)) == Some(plain(out@)),
    {
        proof {
            let t = sources@.take(i + 1);
            assert(t.drop_last() =~= sources@.take(i as int));
            assert(t.last() == sources@[i as int]);
        }
        match parse_toml(sources[i].text.as_str()) {
            Ok(value) => {
                let prefix = String::new();
                assert(prefix@ =~= Seq::empty());
                flatten(&value, prefix, &mut out);
            },
            Err(cause) => {
                proof {
                    lemma_vars_stop(sources@, i + 1);
                }
                return Err(VarsError { name: sources[i].name.clone(), cause });
            },
        }
    }
    assert(sources@.take(sources@.len() as int) =~= sources@);
    Ok(out)
}

proof fn lemma_vars_stop(sources: Seq<Source>, n: int)
    requires
        0 <= n <= sources.len(),
        vars_of(sources.take(n)) is None,
    ensures
        vars_of(sources) is None,
    decreases sources.len() - n,
{
    if n == sources.len() {
        assert(sources.take(n) =~= sources);
    } else {
        assert(sources.take(n + 1).drop_last() =~= sources.take(n));
        lemma_vars_stop(sources, n + 1);
    }
}

/// What a template can know of where it is expanded.
pub struct Context {
    pub os: String,
    pub hostname: String,
    pub profiles: Vec<String>,
    /// The environment, from names to values.
    pub env: Vec<(String, String)>,
}

/// A host name up to its first dot.
pub open spec fn short_name(hostname: Seq<char>) -> Seq<char> {
    hostname.take(until(hostname, Sep::Is('.')))
}

/// The variables with those of the environment put in.
pub open spec fn with_env(
    vars: Seq<(Seq<char>, Seq<char>)>,
    env: Seq<(String, String)>,
) -> Seq<(Seq<char>, Seq<char>)>
    decreases env.len(),
{
    if env.len() == 0 {
        vars
    } else {
        put(with_env(vars, env.drop_last()), "env."@ + env.last().0@, env.last().1@)
    }
}

/// The variables with those of the context put in.
pub open spec fn with_context(
    vars: Seq<(Seq<char>, Seq<char>)>,
    context: Context,
) -> Seq<(Seq<char>, Seq<char>)> {
    let os = put(vars, "sennit.os"@, context.os@);
    let host = put(os, "sennit.hostname"@, short_name(context.hostname@));
    let profile = put(host, "sennit.profile"@, joined(texts(context.profiles@), ","@));
    with_env(profile, context.env@)
}

/// Puts the variables of the context in: they count where a data file gives the same ones.
pub fn add_context(vars: &mut Table<String>, context: &Context)
    ensures
        plain(final(vars)@) == with_context(plain(old(vars)@), *context),
{
    put_text(vars, "sennit.os".to_owned(), context.os.clone());
    let host = chars_of(context.hostname.as_str());
    let n = reach(host.as_slice(), Sep::Is('.'));
    let short = slice_subrange(host.as_slice(), 0, n);
    assert(short@ =~= short_name(context.hostname@));
    put_text(vars, "sennit.hostname".to_owned(), string_of(short));
    put_text(vars, "sennit.profile".to_owned(), join(&context.profiles, ","));
    let ghost base = plain(vars@);
    let env = &context.env;
    assert(env@.take(0) =~= Seq::empty());
    for i in 0..env.len()
        invariant
            plain(vars@) == with_env(base, env@.take(i as int)),
    {
        proof {
            let t = env@.take(i + 1);
            assert(t.drop_last() =~= env@.take(i as int));
            assert(t.last() == env@[i as int]);
        }
        put_text(vars, cat("env.", env[i].0.as_str()), env[i].1.clone());
    }
    assert(env@.take(env@.len() as int) =~= env@);
}

proof fn lemma_env_keeps(
    vars: Seq<(Seq<char>, Seq<char>)>,
    env: Seq<(String, String)>,
    name: Seq<char>,
)
    requires
        name.len() > 0,
        name[0] != 'e',
    ensures
        lookup(with_env(vars, env), name) == lookup(vars, name),
    decreases env.len(),
{
    if env.len() > 0 {
        lemma_env_keeps(vars, env.drop_last(), name);
        reveal_strlit("env.");
        let key = "env."@ + env.last().0@;
        assert(key[0] == 'e');
        law_lookup_after_put(with_env(vars, env.drop_last()), key, env.last().1@, name);
    }
}

/// A template sees the machine it is on, whatever the data files and the environment say.
pub proof fn law_context_counts(vars: Seq<(Seq<char>, Seq<char>)>, context: Context)
    ensures
        lookup(with_context(vars, context), "sennit.os"@) == Some(context.os@),
        lookup(with_context(vars, context), "sennit.hostname"@) == Some(
            short_name(context.hostname@),
        ),
        lookup(with_context(vars, context), "sennit.profile"@) == Some(
            joined(texts(context.profiles@), ","@),
        ),
{
    reveal_strlit("sennit.os");
    reveal_strlit("sennit.hostname");
    reveal_strlit("sennit.profile");
    let (a, b, c) = ("sennit.os"@, "sennit.hostname"@, "sennit.profile"@);
    assert(a.len() != b.len() && b.len() != c.len() && a.len() != c.len());
    let list = joined(texts(context.profiles@), ","@);
    let os = put(vars, a, context.os@);
    let host = put(os, b, short_name(context.hostname@));
    law_lookup_after_put(vars, a, context.os@, a);
    law_lookup_after_put(os, b, short_name(context.hostname@), a);
    law_lookup_after_put(os, b, short_name(context.hostname@), b);
    law_lookup_after_put(host, c, list, a);
    law_lookup_after_put(host, c, list, b);
    law_lookup_after_put(host, c, list, c);
    let profile = put(host, c, list);
    lemma_env_keeps(profile, context.env@, a);
    lemma_env_keeps(profile, context.env@, b);
    lemma_env_keeps(profile, context.env@, c);
}

/// A value is a variable of the name that leads to it, and other variables stay as they were;
/// what cannot be shown is none.
pub proof fn law_values_become_variables(
    text: Seq<char>,
    prefix: Seq<char>,
    vars: Seq<(Seq<char>, Seq<char>)>,
    name: Seq<char>,
)
    ensures
        lookup(flattened(Tree::Text(text), prefix, vars), name) == if name == prefix {
            Some(text)
        } else {
            lookup(vars, name)
        },
        lookup(flattened(Tree::Other(text), prefix, vars), name) == if name == prefix {
            Some(text)
        } else {
            lookup(vars, name)
        },
        flattened(Tree::Unshown, prefix, vars) == vars,
{
    law_lookup_after_put(vars, prefix, text, name);
}

/// What a table holds is named by the keys that lead to it, with dots between them.
pub proof fn law_keys_are_joined_by_dots(
    key: Seq<char>,
    tree: Tree,
    more: Seq<(Seq<char>, Tree)>,
    prefix: Seq<char>,
    vars: Seq<(Seq<char>, Seq<char>)>,
)
    ensures
        flattened(Tree::Branch(seq![(key, tree)] + more), prefix, vars) == flattened(
            Tree::Branch(more),
            prefix,
            flattened(
                tree,
                if prefix.len() == 0 {
                    key
                } else {
                    prefix + seq!['.'] + key
                },
                vars,
            ),
        ),
        flattened(Tree::Branch(Seq::empty()), prefix, vars) == vars,
{
    let all = seq![(key, tree)] + more;
    assert(all[0] == (key, tree));
    assert(all.subrange(1, all.len() as int) =~= more);
    reveal_strlit(".");
    assert("."@ =~= seq!['.']);
}

/// All that a value holds can be shown where everything that it is made of can be.
pub proof fn law_what_can_be_shown(
    key: Seq<char>,
    tree: Tree,
    more: Seq<(Seq<char>, Tree)>,
    text: Seq<char>,
)
    ensures
        shown(Tree::Branch(seq![(key, tree)] + more)) <==> shown(tree) && shown(Tree::Branch(more)),
        shown(Tree::Branch(Seq::empty())),
        shown(Tree::Text(text)),
        shown(Tree::Other(text)),
        !shown(Tree::Unshown),
{
    let all = seq![(key, tree)] + more;
    assert(all[0] == (key, tree));
    assert(all.subrange(1, all.len() as int) =~= more);
}

/// A variable of the environment is seen under its name, the last one of a name counts, and
/// every other variable stays.
pub proof fn law_environment_is_seen(
    vars: Seq<(Seq<char>, Seq<char>)>,
    env: Seq<(String, String)>,
    k: String,
    v: String,
    name: Seq<char>,
)
    ensures
        lookup(with_env(vars, env.push((k, v))), name) == if name == seq!['e', 'n', 'v', '.'] + k@ {
            Some(v@)
        } else {
            lookup(with_env(vars, env), name)
        },
        with_env(vars, Seq::empty()) == vars,
{
    let all = env.push((k, v));
    assert(all.drop_last() =~= env);
    assert(all.last() == (k, v));
    reveal_strlit("env.");
    assert("env."@ =~= seq!['e', 'n', 'v', '.']);
    law_lookup_after_put(with_env(vars, env), "env."@ + k@, v@, name);
}

/// A machine is named by its host name up to the first dot.
pub proof fn law_hosts_are_named_without_their_domain(host: Seq<char>, domain: Seq<char>)
    requires
        !host.contains('.'),
    ensures
        short_name(host) == host,
        short_name(host + seq!['.'] + domain) == host,
{
    let sep = Sep::Is('.');
    assert forall|i: int| 0 <= i < host.len() implies !sep.cuts(#[trigger] host[i]) by {
        assert(host.contains(host[i]));
    }
    law_nothing_to_cut(host, sep);
    law_split_at_the_first(host, '.', domain, sep);
    assert(host.take(host.len() as int) =~= host);
    assert((host + seq!['.'] + domain).take(host.len() as int) =~= host);
}

/// Data files are read one after the other, each over those before it; all of them have to
/// be readable.
pub proof fn law_data_files_are_read_in_turn(sources: Seq<Source>, last: Source)
    ensures
        vars_of(Seq::empty()) == Some(Seq::<(Seq<char>, Seq<char>)>::empty()),
        vars_of(sources.push(last)) is None <==> vars_of(sources) is None || toml_document(last.text@)
            is Err,
        vars_of(sources.push(last)) matches Some(v) ==> v == flattened(
            toml_document(last.text@)->Ok_0,
            Seq::empty(),
            vars_of(sources)->Some_0,
        ),
{
    let all = sources.push(last);
    assert(all.drop_last() =~= sources);
    assert(all.last() == last);
}

/// What a template sees of the environment is what the environment holds, and a variable of
/// a data file is seen unless it is one of the machine or of the environment.
pub proof fn law_data_is_seen(
    vars: Seq<(Seq<char>, Seq<char>)>,
    context: Context,
    name: Seq<char>,
    k: String,
    v: String,
)
    ensures
        name != "sennit.os"@ && name != "sennit.hostname"@ && name != "sennit.profile"@ && !(
        name.len() >= 4 && name.take(4) == seq!['e', 'n', 'v', '.']) ==> lookup(
            with_context(vars, context),
            name,
        ) == lookup(vars, name),
        context.env@.len() > 0 && context.env@.last() == (k, v) ==> lookup(
            with_context(vars, context),
            seq!['e', 'n', 'v', '.'] + k@,
        ) == Some(v@),
{
    let list = joined(texts(context.profiles@), ","@);
    let os = put(vars, "sennit.os"@, context.os@);
    let host = put(os, "sennit.hostname"@, short_name(context.hostname@));
    let profile = put(host, "sennit.profile"@, list);
    if name != "sennit.os"@ && name != "sennit.hostname"@ && name != "sennit.profile"@ && !(
    name.len() >= 4 && name.take(4) == seq!['e', 'n', 'v', '.']) {
        law_lookup_after_put(vars, "sennit.os"@, context.os@, name);
        law_lookup_after_put(os, "sennit.hostname"@, short_name(context.hostname@), name);
        law_lookup_after_put(host, "sennit.profile"@, list, name);
        lemma_env_leaves(profile, context.env@, name);
    }
    if context.env@.len() > 0 && context.env@.last() == (k, v) {
        let head = context.env@.drop_last();
        assert(head.push((k, v)) =~= context.env@);
        law_environment_is_seen(profile, head, k, v, seq!['e', 'n', 'v', '.'] + k@);
    }
}

proof fn lemma_env_leaves(
    vars: Seq<(Seq<char>, Seq<char>)>,
    env: Seq<(String, String)>,
    name: Seq<char>,
)
    requires
        !(name.len() >= 4 && name.take(4) == seq!['e', 'n', 'v', '.']),
    ensures
        lookup(with_env(vars, env), name) == lookup(vars, name),
    decreases env.len(),
{
    if env.len() > 0 {
        let head = env.drop_last();
        lemma_env_leaves(vars, head, name);
        assert(head.push(env.last()) =~= env);
        law_environment_is_seen(vars, head, env.last().0, env.last().1, name);
        assert((seq!['e', 'n', 'v', '.'] + env.last().0@).take(4) =~= seq!['e', 'n', 'v', '.']);
    }
}

} // verus!
