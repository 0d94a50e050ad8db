//! Expanding templates: variables, conditions, and the secrets that providers fetch.
use crate::provider::{text_listed, Provider, SecretCache};
use crate::table::{keys_of, lookup, plain, put, text_under, Table};
use crate::template::{
    before, close_mark, comparison, expanded, holds_for, law_templates_compare, live,
    needed, open_mark, operand, order_of, reference_of, scheme_mark, schemes_in, stepped, test_of,
    tokens, unquoted, value_of, written, Fault, Frame, Known, Order, Test, Token,
};
use crate::text::{
    cat3, chars_of, extend, find, is_space, join, joined, lemma_texts_empty, lemma_texts_push, space,
    spells, starts_with, string_of, texts, trim,
};
use vstd::prelude::*;
use vstd::slice::slice_subrange;

verus! {

/// What goes wrong with a template.
pub enum Problem {
    Unterminated,
    UnknownVariable(String),
    BadCondition(String),
    StrayElse,
    StrayEnd,
    MissingEnd,
    /// The scheme, and those that providers serve.
    UndeclaredScheme { scheme: String, declared: Vec<String> },
    Unread(String),
}

impl View for Problem {
    type V = Fault;

    open spec fn view(&self) -> Fault {
        match self {
            Problem::Unterminated => Fault::Unterminated,
            Problem::UnknownVariable(s) => Fault::UnknownVariable(s@),
            Problem::BadCondition(s) => Fault::BadCondition(s@),
            Problem::StrayElse => Fault::StrayElse,
            Problem::StrayEnd => Fault::StrayEnd,
            Problem::MissingEnd => Fault::MissingEnd,
            Problem::UndeclaredScheme { scheme, .. } => Fault::UndeclaredScheme(scheme@),
            Problem::Unread(s) => Fault::Unread(s@),
        }
    }
}

/// A problem, with the template it is in.
pub struct RenderError {
    pub source: String,
    pub problem: Problem,
}

impl Problem {
    /// The problem in words.
    pub open spec fn words(self) -> Seq<char> {
        match self {
            Problem::Unterminated => "unterminated `{{`"@,
            Problem::UnknownVariable(name) => "unknown template variable `"@ + name@ + "`"@,
            Problem::BadCondition(text) => "malformed condition `"@ + text@ + "`"@,
            Problem::StrayElse => "`else` without `if`"@,
            Problem::StrayEnd => "`end` without `if`"@,
            Problem::MissingEnd => "`if` without `end`"@,
            Problem::UndeclaredScheme { scheme, declared } => "no provider is declared for `"@
                + scheme@ + "://`; declared: "@ + joined(texts(declared@), ", "@),
            Problem::Unread(reference) => "the secret `"@ + reference@ + "` has not been read"@,
        }
    }
}

impl RenderError {
    /// The error in words: the template, then what is wrong with it.
    pub fn message(&self) -> (r: String)
        ensures
            r@ == self.source@ + ": "@ + self.problem.words(),
    {
        let mut words = String::new();
        match &self.problem {
            Problem::Unterminated => words = "unterminated `{{`".to_owned(),
            Problem::UnknownVariable(name) => words = cat3(
                "unknown template variable `",
                name.as_str(),
                "`",
            ),
            Problem::BadCondition(text) => words = cat3("malformed condition `", text.as_str(), "`"),
            Problem::StrayElse => words = "`else` without `if`".to_owned(),
            Problem::StrayEnd => words = "`end` without `if`".to_owned(),
            Problem::MissingEnd => words = "`if` without `end`".to_owned(),
            Problem::UndeclaredScheme { scheme, declared } => {
                words = cat3("no provider is declared for `", scheme.as_str(), "://`; declared: ");
                words.append(join(declared, ", ").as_str());
            },
            Problem::Unread(reference) => words = cat3(
                "the secret `",
                reference.as_str(),
                "` has not been read",
            ),
        }
        cat3(self.source.as_str(), ": ", words.as_str())
    }
}

proof fn lemma_marks()
    ensures
        "{{"@ == open_mark(),
        "}}"@ == close_mark(),
        "://"@ == scheme_mark(),
        "else"@ == seq!['e', 'l', 's', 'e'],
        "end"@ == seq!['e', 'n', 'd'],
        "if"@ == seq!['i', 'f'],
        "env."@ == seq!['e', 'n', 'v', '.'],
        "=="@ == seq!['=', '='],
        "!="@ == seq!['!', '='],
{
    reveal_strlit("{{");
    reveal_strlit("}}");
    reveal_strlit("://");
    reveal_strlit("else");
    reveal_strlit("end");
    reveal_strlit("if");
    reveal_strlit("env.");
    reveal_strlit("==");
    reveal_strlit("!=");
    assert("{{"@ =~= open_mark());
    assert("}}"@ =~= close_mark());
    assert("://"@ =~= scheme_mark());
    assert("else"@ =~= seq!['e', 'l', 's', 'e']);
    assert("end"@ =~= seq!['e', 'n', 'd']);
    assert("if"@ =~= seq!['i', 'f']);
    assert("env."@ =~= seq!['e', 'n', 'v', '.']);
    assert("=="@ =~= seq!['=', '=']);
    assert("!="@ =~= seq!['!', '=']);
}

/// What the text of a tag asks for.
enum Asked<'a> {
    If(&'a [char]),
    Else,
    End,
    Value,
}

fn asked<'a>(tag: &'a [char]) -> (r: Asked<'a>)
    ensures
        order_of(tag@) == match r {
            Asked::If(cond) => Order::If(cond@),
            Asked::Else => Order::Else,
            Asked::End => Order::End,
            Asked::Value => Order::Value(tag@),
        },
{
    proof {
        lemma_marks();
    }
    if spells(tag, "else") {
        Asked::Else
    } else if spells(tag, "end") {
        Asked::End
    } else if starts_with(tag, "if") && (tag.len() == 2 || space(tag[2])) {
        let cond = slice_subrange(tag, 2, tag.len());
        assert(cond@ =~= tag@.skip(2));
        Asked::If(trim(cond))
    } else {
        Asked::Value
    }
}

/// The scheme of a reference, and what it refers to there.
pub fn split_reference<'a>(s: &'a [char]) -> (r: Option<(&'a [char], &'a [char])>)
    ensures
        match r {
            Some((scheme, rest)) => reference_of(s@) == Some((scheme@, rest@)),
            None => reference_of(s@) is None,
        },
{
    proof {
        lemma_marks();
    }
    let len = s.len();
    match find(s, "://") {
        Some(i) => if i > 0 {
            let scheme = slice_subrange(s, 0, i);
            let rest = slice_subrange(s, i + 3, len);
            assert(scheme@ =~= s@.take(i as int));
            assert(rest@ =~= s@.skip(i + 3));
            Some((scheme, rest))
        } else {
            None
        },
        None => None,
    }
}

fn value_in_condition(name: &[char], vars: &Table<String>) -> (r: Result<String, Problem>)
    ensures
        match r {
            Ok(v) => operand(name@, plain(vars@)) == Ok::<Seq<char>, Fault>(v@),
            Err(p) => operand(name@, plain(vars@)) == Err::<Seq<char>, Fault>(p@),
        },
{
    proof {
        lemma_marks();
    }
    let key = string_of(name);
    match text_under(vars, key.as_str()) {
        Some(v) => Ok(v.clone()),
        None => if starts_with(name, "env.") {
            Ok(String::new())
        } else {
            Err(Problem::UnknownVariable(key))
        },
    }
}

fn quoted<'a>(s: &'a [char]) -> (r: Option<&'a [char]>)
    ensures
        match r {
            Some(t) => unquoted(s@) == Some(t@),
            None => unquoted(s@) is None,
        },
{
    if s.len() >= 2 && s[0] == '"' && s[s.len() - 1] == '"' {
        Some(slice_subrange(s, 1, s.len() - 1))
    } else {
        None
    }
}

/// A condition: a variable that must not be empty, or one that is compared.
enum Tested<'a> {
    Given(&'a [char]),
    Compared(&'a [char], bool, &'a [char]),
    Malformed,
}

spec fn same_test(r: Tested<'_>, t: Test) -> bool {
    match r {
        Tested::Given(name) => t == Test::Given(name@),
        Tested::Compared(name, equal, with) => t == (Test::Compared {
            name: name@,
            equal,
            with: with@,
        }),
        Tested::Malformed => t == Test::Malformed,
    }
}

fn compared<'a>(cond: &'a [char], i: usize, equal: bool) -> (r: Tested<'a>)
    requires
        i + 2 <= cond@.len(),
    ensures
        same_test(r, comparison(cond@, i as int, equal)),
{
    let len = cond.len();
    let left = slice_subrange(cond, 0, i);
    let right = slice_subrange(cond, i + 2, len);
    assert(left@ =~= cond@.take(i as int));
    assert(right@ =~= cond@.skip(i + 2));
    let name = trim(left);
    match quoted(trim(right)) {
        Some(with) => if name.len() > 0 {
            Tested::Compared(name, equal, with)
        } else {
            Tested::Malformed
        },
        None => Tested::Malformed,
    }
}

fn tested<'a>(cond: &'a [char]) -> (r: Tested<'a>)
    ensures
        same_test(r, test_of(cond@)),
{
    proof {
        lemma_marks();
    }
    match (find(cond, "=="), find(cond, "!=")) {
        (None, None) => if cond.len() > 0 {
            Tested::Given(cond)
        } else {
            Tested::Malformed
        },
        (Some(i), None) => compared(cond, i, true),
        (None, Some(j)) => compared(cond, j, false),
        (Some(i), Some(j)) => if i < j {
            compared(cond, i, true)
        } else {
            compared(cond, j, false)
        },
    }
}

/// Decides a condition.
fn decide(cond: &[char], vars: &Table<String>) -> (r: Result<bool, Problem>)
    ensures
        match r {
            Ok(b) => holds_for(cond@, plain(vars@)) == Ok::<bool, Fault>(b),
            Err(p) => holds_for(cond@, plain(vars@)) == Err::<bool, Fault>(p@),
        },
{
    match tested(cond) {
        Tested::Malformed => Err(Problem::BadCondition(string_of(cond))),
        Tested::Given(name) => match value_in_condition(name, vars) {
            Ok(v) => Ok(!v.as_str().is_empty()),
            Err(p) => Err(p),
        },
        Tested::Compared(name, equal, with) => match value_in_condition(name, vars) {
            Ok(v) => Ok(spells(with, v.as_str()) == equal),
            Err(p) => Err(p),
        },
    }
}

fn is_live(stack: &Vec<Frame>) -> (r: bool)
    ensures
        r == live(stack@),
{
    stack.len() == 0 || stack[stack.len() - 1].keeps
}

/// Opens, turns or closes a condition.
fn step(asked: Asked<'_>, stack: &mut Vec<Frame>, vars: &Table<String>) -> (r: Result<
    (),
    Problem,
>)
    requires
        !(asked is Value),
    ensures
        ({
            let order = match asked {
                Asked::If(cond) => Order::If(cond@),
                Asked::Else => Order::Else,
                _ => Order::End,
            };
            match r {
                Ok(_) => stepped(order, old(stack)@, plain(vars@)) == Ok::<Seq<Frame>, Fault>(
                    final(stack)@,
                ),
                Err(p) => stepped(order, old(stack)@, plain(vars@)) == Err::<Seq<Frame>, Fault>(
                    p@,
                ),
            }
        }),
{
    match asked {
        Asked::If(cond) => {
            if is_live(stack) {
                match decide(cond, vars) {
                    Ok(b) => {
                        stack.push(Frame { keeps: b, otherwise: !b, in_else: false });
                        Ok(())
                    },
                    Err(p) => Err(p),
                }
            } else {
                stack.push(Frame { keeps: false, otherwise: false, in_else: false });
                Ok(())
            }
        },
        Asked::Else => {
            match stack.pop() {
                None => Err(Problem::StrayElse),
                Some(top) => {
                    if top.in_else {
                        return Err(Problem::StrayElse);
                    }
                    stack.push(Frame { keeps: top.otherwise, otherwise: false, in_else: true });
                    Ok(())
                },
            }
        },
        _ => {
            match stack.pop() {
                None => Err(Problem::StrayEnd),
                Some(_) => Ok(()),
            }
        },
    }
}

/// Whether a problem with a scheme names the schemes that there are.
pub open spec fn names_schemes(p: Problem, providers: Seq<(Seq<char>, Provider)>) -> bool {
    p matches Problem::UndeclaredScheme { declared, .. } ==> texts(declared@) == keys_of(providers)
}

fn substitute(name: &[char], vars: &Table<String>, secrets: &SecretCache) -> (r: Result<
    String,
    Problem,
>)
    ensures
        match r {
            Ok(v) => value_of(name@, plain(vars@), secrets.known()) == Ok::<Seq<char>, Fault>(v@),
            Err(p) => {
                &&& value_of(name@, plain(vars@), secrets.known()) == Err::<Seq<char>, Fault>(p@)
                &&& names_schemes(p, secrets.providers@)
            },
        },
{
    let key = string_of(name);
    match split_reference(name) {
        Some((scheme, _)) => {
            let scheme = string_of(scheme);
            if !secrets.providers.contains_key(scheme.as_str()) {
                let declared = secrets.providers.keys();
                return Err(Problem::UndeclaredScheme { scheme, declared });
            }
            match text_under(&secrets.seen, key.as_str()) {
                Some(v) => Ok(v.clone()),
                None => Err(Problem::Unread(key)),
            }
        },
        None => match text_under(vars, key.as_str()) {
            Some(v) => Ok(v.clone()),
            None => Err(Problem::UnknownVariable(key)),
        },
    }
}

spec fn goes_on(
    out: Seq<char>,
    toks: Seq<Token>,
    stack: Seq<Frame>,
    vars: Seq<(Seq<char>, Seq<char>)>,
    known: Known,
) -> Result<Seq<char>, Fault> {
    before(out, expanded(toks, stack, vars, known))
}

fn expand(template: &[char], vars: &Table<String>, secrets: &SecretCache) -> (r: Result<
    String,
    Problem,
>)
    ensures
        ({
            let goal = expanded(tokens(template@), Seq::empty(), plain(vars@), secrets.known());
            match r {
                Ok(s) => goal == Ok::<Seq<char>, Fault>(s@),
                Err(p) => goal == Err::<Seq<char>, Fault>(p@) && names_schemes(
                    p,
                    secrets.providers@,
                ),
            }
        }),
{
    let ghost v = plain(vars@);
    let ghost k = secrets.known();
    let ghost goal = expanded(tokens(template@), Seq::empty(), v, k);
    let mut out = String::new();
    let mut stack: Vec<Frame> = Vec::new();
    let mut rest: &[char] = template;
    proof {
        lemma_marks();
        if let Ok(s) = goal {
            assert(Seq::<char>::empty() + s =~= s);
        }
    }
    loop
        invariant
            v == plain(vars@),
            k == secrets.known(),
            goal == expanded(tokens(template@), Seq::empty(), v, k),
            goes_on(out@, tokens(rest@), stack@, v, k) == goal,
            "{{"@ == open_mark(),
            "}}"@ == close_mark(),
        decreases rest@.len(),
    {
        let ghost toks = tokens(rest@);
        let ghost made = out@;
        let ghost open = stack@;
        let len = rest.len();
        match find(rest, "{{") {
            None => {
                proof {
                    assert(toks.drop_first() =~= Seq::<Token>::empty());
                }
                if is_live(&stack) {
                    extend(&mut out, rest);
                }
                if stack.len() > 0 {
                    assert(expanded(toks.drop_first(), open, v, k) == Err::<Seq<char>, Fault>(
                        Fault::MissingEnd,
                    ));
                    return Err(Problem::MissingEnd);
                }
                proof {
                    assert(expanded(toks.drop_first(), open, v, k) == Ok::<Seq<char>, Fault>(
                        Seq::empty(),
                    ));
                    assert(out@ =~= made + (rest@ + Seq::<char>::empty()));
                }
                return Ok(out);
            },
            Some(i) => {
                let head = slice_subrange(rest, 0, i);
                let after = slice_subrange(rest, i + 2, len);
                assert(head@ =~= rest@.take(i as int));
                assert(after@ =~= rest@.skip(i + 2));
                if is_live(&stack) {
                    extend(&mut out, head);
                }
                let alen = after.len();
                match find(after, "}}") {
                    None => {
                        proof {
                            assert(toks.drop_first() =~= seq![Token::Open]);
                            assert(expanded(toks.drop_first(), open, v, k) == Err::<
                                Seq<char>,
                                Fault,
                            >(Fault::Unterminated));
                        }
                        return Err(Problem::Unterminated);
                    },
                    Some(e) => {
                        let inner = slice_subrange(after, 0, e);
                        let next = slice_subrange(after, e + 2, alen);
                        let tag = trim(inner);
                        let ghost tail = toks.drop_first();
                        proof {
                            assert(inner@ =~= after@.take(e as int));
                            assert(next@ =~= after@.skip(e + 2));
                            assert(toks[0] == Token::Text(head@));
                            assert(tail =~= seq![Token::Tag(tag@)] + tokens(next@));
                            assert(tail.drop_first() =~= tokens(next@));
                            if live(open) {
                                if let Ok(s) = expanded(tail, open, v, k) {
                                    assert(made + (head@ + s) =~= made + head@ + s);
                                }
                            }
                            assert(goes_on(out@, tail, open, v, k) == goal);
                        }
                        let ghost mid = out@;
                        match asked(tag) {
                            Asked::Value => {
                                if is_live(&stack) {
                                    match substitute(tag, vars, secrets) {
                                        Ok(text) => {
                                            out.append(text.as_str());
                                            proof {
                                                if let Ok(s) = expanded(
                                                    tokens(next@),
                                                    open,
                                                    v,
                                                    k,
                                                ) {
                                                    assert(mid + (text@ + s) =~= mid + text@ + s);
                                                }
                                            }
                                        },
                                        Err(p) => {
                                            return Err(p);
                                        },
                                    }
                                }
                            },
                            other => {
                                match step(other, &mut stack, vars) {
                                    Ok(_) => {},
                                    Err(p) => {
                                        return Err(p);
                                    },
                                }
                            },
                        }
                        rest = next;
                    },
                }
            },
        }
    }
}

/// Expands a template. `source` names it in a problem.
pub fn expand_with(
    template: &str,
    vars: &Table<String>,
    source: &str,
    secrets: &SecretCache,
) -> (r: Result<String, RenderError>)
    ensures
        ({
            let goal = expanded(tokens(template@), Seq::empty(), plain(vars@), secrets.known());
            match r {
                Ok(s) => goal == Ok::<Seq<char>, Fault>(s@),
                Err(e) => {
                    &&& goal == Err::<Seq<char>, Fault>(e.problem@)
                    &&& e.source@ == source@
                    &&& names_schemes(e.problem, secrets.providers@)
                },
            }
        }),
{
    let t = chars_of(template);
    match expand(t.as_slice(), vars, secrets) {
        Ok(s) => Ok(s),
        Err(problem) => Err(RenderError { source: source.to_owned(), problem }),
    }
}

/// A list put before another, where there is one.
spec fn collected(
    out: Seq<Seq<char>>,
    r: Result<Seq<Seq<char>>, Fault>,
) -> Result<Seq<Seq<char>>, Fault> {
    match r {
        Ok(s) => Ok(out + s),
        Err(f) => Err(f),
    }
}

fn references(template: &[char], vars: &Table<String>) -> (r: Result<Vec<String>, Problem>)
    ensures
        ({
            let goal = needed(tokens(template@), Seq::empty(), plain(vars@));
            match r {
                Ok(v) => goal == Ok::<Seq<Seq<char>>, Fault>(texts(v@)),
                Err(p) => goal == Err::<Seq<Seq<char>>, Fault>(p@),
            }
        }),
{
    let ghost v = plain(vars@);
    let ghost goal = needed(tokens(template@), Seq::empty(), v);
    let mut out: Vec<String> = Vec::new();
    let mut stack: Vec<Frame> = Vec::new();
    let mut rest: &[char] = template;
    proof {
        lemma_marks();
        lemma_texts_empty();
        if let Ok(s) = goal {
            assert(Seq::<Seq<char>>::empty() + s =~= s);
        }
    }
    loop
        invariant
            v == plain(vars@),
            goal == needed(tokens(template@), Seq::empty(), v),
            collected(texts(out@), needed(tokens(rest@), stack@, v)) == goal,
            "{{"@ == open_mark(),
            "}}"@ == close_mark(),
        decreases rest@.len(),
    {
        broadcast use lemma_texts_push;

        let ghost toks = tokens(rest@);
        let ghost made = texts(out@);
        let ghost open = stack@;
        let len = rest.len();
        match find(rest, "{{") {
            None => {
                proof {
                    assert(toks.drop_first() =~= Seq::<Token>::empty());
                }
                if stack.len() > 0 {
                    assert(needed(toks.drop_first(), open, v) == Err::<Seq<Seq<char>>, Fault>(
                        Fault::MissingEnd,
                    ));
                    return Err(Problem::MissingEnd);
                }
                proof {
                    assert(needed(toks.drop_first(), open, v) == Ok::<Seq<Seq<char>>, Fault>(
                        Seq::empty(),
                    ));
                    assert(made =~= made + Seq::<Seq<char>>::empty());
                }
                return Ok(out);
            },
            Some(i) => {
                let after = slice_subrange(rest, i + 2, len);
                assert(after@ =~= rest@.skip(i + 2));
                let alen = after.len();
                match find(after, "}}") {
                    None => {
                        proof {
                            assert(toks.drop_first() =~= seq![Token::Open]);
                            assert(needed(toks.drop_first(), open, v) == Err::<
                                Seq<Seq<char>>,
                                Fault,
                            >(Fault::Unterminated));
                        }
                        return Err(Problem::Unterminated);
                    },
                    Some(e) => {
                        let inner = slice_subrange(after, 0, e);
                        let next = slice_subrange(after, e + 2, alen);
                        let tag = trim(inner);
                        let ghost tail = toks.drop_first();
                        proof {
                            assert(inner@ =~= after@.take(e as int));
                            assert(next@ =~= after@.skip(e + 2));
                            assert(toks[0] == Token::Text(rest@.take(i as int)));
                            assert(tail =~= seq![Token::Tag(tag@)] + tokens(next@));
                            assert(tail.drop_first() =~= tokens(next@));
                            assert(needed(toks, open, v) == needed(tail, open, v));
                        }
                        match asked(tag) {
                            Asked::Value => {
                                if is_live(&stack) && split_reference(tag).is_some() {
                                    out.push(string_of(tag));
                                    proof {
                                        if let Ok(s) = needed(tokens(next@), open, v) {
                                            assert(made + (seq![tag@] + s) =~= made.push(tag@) + s);
                                        }
                                    }
                                }
                            },
                            other => {
                                match step(other, &mut stack, vars) {
                                    Ok(_) => {},
                                    Err(p) => {
                                        return Err(p);
                                    },
                                }
                            },
                        }
                        rest = next;
                    },
                }
            },
        }
    }
}

/// The references to secrets in the branches that are kept on this machine. `source` names
/// the template in a problem.
pub fn references_needed(template: &str, vars: &Table<String>, source: &str) -> (r: Result<
    Vec<String>,
    RenderError,
>)
    ensures
        ({
            let goal = needed(tokens(template@), Seq::empty(), plain(vars@));
            match r {
                Ok(v) => goal == Ok::<Seq<Seq<char>>, Fault>(texts(v@)),
                Err(e) => goal == Err::<Seq<Seq<char>>, Fault>(e.problem@) && e.source@ == source@,
            }
        }),
{
    let t = chars_of(template);
    match references(t.as_slice(), vars) {
        Ok(v) => Ok(v),
        Err(problem) => Err(RenderError { source: source.to_owned(), problem }),
    }
}

/// The schemes of all references in a template, whatever the conditions around them.
pub fn schemes_used(template: &str) -> (r: Vec<String>)
    ensures
        texts(r@) == schemes_in(tokens(template@)),
{
    let t = chars_of(template);
    let ghost all = tokens(template@);
    let mut out: Vec<String> = Vec::new();
    let mut rest: &[char] = t.as_slice();
    let ghost mut done = Seq::<Token>::empty();
    proof {
        lemma_marks();
        lemma_texts_empty();
        assert(done + tokens(rest@) =~= all);
    }
    loop
        invariant
            all == tokens(template@),
            done + tokens(rest@) == all,
            texts(out@) == schemes_in(done),
            "{{"@ == open_mark(),
            "}}"@ == close_mark(),
        decreases rest@.len(),
    {
        broadcast use lemma_texts_push;

        let ghost toks = tokens(rest@);
        let len = rest.len();
        match find(rest, "{{") {
            None => {
                assert(all.drop_last() =~= done);
                return out;
            },
            Some(i) => {
                let after = slice_subrange(rest, i + 2, len);
                assert(after@ =~= rest@.skip(i + 2));
                let ghost text = Token::Text(rest@.take(i as int));
                let alen = after.len();
                match find(after, "}}") {
                    None => {
                        proof {
                            assert(toks =~= seq![text, Token::Open]);
                            assert(all.drop_last() =~= done.push(text));
                            assert(done.push(text).drop_last() =~= done);
                            assert(schemes_in(done.push(text)) == schemes_in(done));
                            assert(all.last() == Token::Open);
                        }
                        return out;
                    },
                    Some(e) => {
                        let inner = slice_subrange(after, 0, e);
                        let next = slice_subrange(after, e + 2, alen);
                        let tag = trim(inner);
                        let ghost more = done.push(text).push(Token::Tag(tag@));
                        proof {
                            assert(inner@ =~= after@.take(e as int));
                            assert(next@ =~= after@.skip(e + 2));
                            assert(done + (seq![text, Token::Tag(tag@)] + tokens(next@)) =~= more
                                + tokens(next@));
                            assert(more.drop_last() =~= done.push(text));
                            assert(done.push(text).drop_last() =~= done);
                            assert(schemes_in(done.push(text)) == schemes_in(done));
                        }
                        match asked(tag) {
                            Asked::Value => {
                                if let Some((scheme, _)) = split_reference(tag) {
                                    let scheme = string_of(scheme);
                                    if !text_listed(&out, scheme.as_str()) {
                                        out.push(scheme);
                                    }
                                }
                            },
                            _ => {},
                        }
                        proof {
                            done = more;
                        }
                        rest = next;
                    },
                }
            },
        }
    }
}

/// Whether a template refers to a secret at all, whatever the conditions around it.
pub fn needs_secrets(template: &str) -> (r: bool)
    ensures
        r == (schemes_in(tokens(template@)).len() > 0),
{
    let v = schemes_used(template);
    assert(texts(v@).len() == v@.len());
    v.len() > 0
}

/// A template that compares a variable with a text renders what it should: of
/// `{{if name != "with"}}a{{else}}b{{end}}` it renders `b` exactly where the value is the text,
/// and with `==` in place of `!=` it renders `a` exactly there.
pub proof fn law_rendered_templates_compare(
    template: &str,
    vars: &Table<String>,
    source: &str,
    secrets: &SecretCache,
    r: Result<String, RenderError>,
    name: Seq<char>,
    with: Seq<char>,
    equal: bool,
    a: Seq<char>,
    b: Seq<char>,
)
    requires
        call_ensures(expand_with, (template, vars, source, secrets), r),
        template@ == seq!['{', '{', 'i', 'f', ' '] + written(name, seq![' '], equal, seq![' '], with)
            + seq!['}', '}'] + a + seq!['{', '{', 'e', 'l', 's', 'e', '}', '}'] + b + seq![
            '{',
            '{',
            'e',
            'n',
            'd',
            '}',
            '}',
        ],
        name.len() > 0,
        !name.contains('='),
        !name.contains('!'),
        !name.contains('}'),
        !with.contains('}'),
        !is_space(name[0]),
        !is_space(name.last()),
        !a.contains('{'),
        !b.contains('{'),
        lookup(plain(vars@), name) is Some,
    ensures
        r is Ok,
        equal && lookup(plain(vars@), name) == Some(with) ==> r->Ok_0@ == a,
        equal && lookup(plain(vars@), name) != Some(with) ==> r->Ok_0@ == b,
        !equal && lookup(plain(vars@), name) == Some(with) ==> r->Ok_0@ == b,
        !equal && lookup(plain(vars@), name) != Some(with) ==> r->Ok_0@ == a,
{
    law_templates_compare(name, with, equal, a, b, plain(vars@), secrets.known());
}

} // verus!
