//! The template language: text with `{{ }}` tags in it.
//!
//! A tag is a substitution, or `if`, `else` or `end`. Everything outside tags is text and
//! stays as it is. A branch that a condition drops is not read: only the tags that open
//! and close conditions count in it.
use crate::table::lookup;
use crate::text::{
    index_of, is_space, law_found_at_the_first_place, law_trimmed_at_both_ends, lemma_index_from,
    occurs, starts, trimmed, Sep,
};
use vstd::prelude::*;

verus! {

/// What opens a tag.
pub open spec fn open_mark() -> Seq<char> {
    seq!['{', '{']
}

/// What closes a tag.
pub open spec fn close_mark() -> Seq<char> {
    seq!['}', '}']
}

/// A part of a template.
pub enum Token {
    /// Text that is copied.
    Text(Seq<char>),
    /// What stands between the marks of a tag, without the white space around it.
    Tag(Seq<char>),
    /// An opening mark that nothing closes.
    Open,
}

/// The parts of a template, from left to right.
pub open spec fn tokens(s: Seq<char>) -> Seq<Token>
    decreases s.len(),
    via tokens_decreases
{
    match index_of(s, open_mark()) {
        None => seq![Token::Text(s)],
        Some(i) => {
            let after = s.skip(i + 2);
            match index_of(after, close_mark()) {
                None => seq![Token::Text(s.take(i)), Token::Open],
                Some(e) => seq![Token::Text(s.take(i)), Token::Tag(trimmed(after.take(e)))]
                    + tokens(after.skip(e + 2)),
            }
        },
    }
}

#[via_fn]
proof fn tokens_decreases(s: Seq<char>) {
    lemma_index_from(s, open_mark(), 0);
    if let Some(i) = index_of(s, open_mark()) {
        lemma_index_from(s.skip(i + 2), close_mark(), 0);
    }
}

/// What a tag asks for.
pub enum Order {
    /// Keep what follows where the condition holds.
    If(Seq<char>),
    /// Keep what follows where the condition does not hold.
    Else,
    /// The end of a condition.
    End,
    /// The value of a variable or of a secret.
    Value(Seq<char>),
}

/// What the text of a tag asks for.
pub open spec fn order_of(tag: Seq<char>) -> Order {
    if tag == seq!['e', 'l', 's', 'e'] {
        Order::Else
    } else if tag == seq!['e', 'n', 'd'] {
        Order::End
    } else if starts(tag, seq!['i', 'f']) && (tag.len() == 2 || is_space(tag[2])) {
        Order::If(trimmed(tag.skip(2)))
    } else {
        Order::Value(tag)
    }
}

/// What goes wrong with a template.
pub enum Fault {
    /// An opening mark that nothing closes.
    Unterminated,
    /// A variable that has no value.
    UnknownVariable(Seq<char>),
    /// A condition that is neither a variable nor a comparison of one with a quoted text.
    BadCondition(Seq<char>),
    /// An `else` without an `if`, or a second one.
    StrayElse,
    /// An `end` without an `if`.
    StrayEnd,
    /// An `if` without an `end`.
    MissingEnd,
    /// A secret whose scheme no provider serves.
    UndeclaredScheme(Seq<char>),
    /// A secret that has not been read.
    Unread(Seq<char>),
}

/// What stands between a scheme and the rest of a reference.
pub open spec fn scheme_mark() -> Seq<char> {
    seq![':', '/', '/']
}

/// The scheme of a reference to a secret, and what it refers to there. A text that has
/// something before `://` is such a reference.
pub open spec fn reference_of(s: Seq<char>) -> Option<(Seq<char>, Seq<char>)> {
    match index_of(s, scheme_mark()) {
        Some(i) => if i > 0 {
            Some((s.take(i), s.skip(i + 3)))
        } else {
            None
        },
        None => None,
    }
}

/// Whether a name is that of an environment variable.
pub open spec fn is_env(name: Seq<char>) -> bool {
    starts(name, seq!['e', 'n', 'v', '.'])
}

/// The value of a variable in a condition. An environment variable that is not set counts
/// as empty.
pub open spec fn operand(name: Seq<char>, vars: Seq<(Seq<char>, Seq<char>)>) -> Result<
    Seq<char>,
    Fault,
> {
    match lookup(vars, name) {
        Some(v) => Ok(v),
        None => if is_env(name) {
            Ok(Seq::empty())
        } else {
            Err(Fault::UnknownVariable(name))
        },
    }
}

/// A text in double quotes, without the quotes.
pub open spec fn unquoted(s: Seq<char>) -> Option<Seq<char>> {
    if s.len() >= 2 && s[0] == '"' && s.last() == '"' {
        Some(s.subrange(1, s.len() - 1))
    } else {
        None
    }
}

/// A condition: a variable that must not be empty, or one that is compared.
pub enum Test {
    /// The variable is not empty.
    Given(Seq<char>),
    /// The variable is the text, or is not.
    Compared { name: Seq<char>, equal: bool, with: Seq<char> },
    /// Neither of these.
    Malformed,
}

/// The comparison with the operator at index `i`.
pub open spec fn comparison(cond: Seq<char>, i: int, equal: bool) -> Test {
    let name = trimmed(cond.take(i));
    match unquoted(trimmed(cond.skip(i + 2))) {
        Some(with) => if name.len() > 0 {
            Test::Compared { name, equal, with }
        } else {
            Test::Malformed
        },
        None => Test::Malformed,
    }
}

/// What a condition tests. The first operator in it counts.
pub open spec fn test_of(cond: Seq<char>) -> Test {
    match (index_of(cond, seq!['=', '=']), index_of(cond, seq!['!', '='])) {
        (None, None) => if cond.len() > 0 {
            Test::Given(cond)
        } else {
            Test::Malformed
        },
        (Some(i), None) => comparison(cond, i, true),
        (None, Some(j)) => comparison(cond, j, false),
        (Some(i), Some(j)) => if i < j {
            comparison(cond, i, true)
        } else {
            comparison(cond, j, false)
        },
    }
}

/// Whether a condition holds.
pub open spec fn holds_for(cond: Seq<char>, vars: Seq<(Seq<char>, Seq<char>)>) -> Result<
    bool,
    Fault,
> {
    match test_of(cond) {
        Test::Malformed => Err(Fault::BadCondition(cond)),
        Test::Given(name) => match operand(name, vars) {
            Ok(v) => Ok(v.len() > 0),
            Err(f) => Err(f),
        },
        Test::Compared { name, equal, with } => match operand(name, vars) {
            Ok(v) => Ok((v == with) == equal),
            Err(f) => Err(f),
        },
    }
}

/// A condition that is open.
#[derive(Clone, Copy)]
pub struct Frame {
    /// Whether the branch at hand is kept.
    pub keeps: bool,
    /// Whether the `else` branch is kept.
    pub otherwise: bool,
    /// Whether the `else` has been passed.
    pub in_else: bool,
}

/// Whether what follows is kept under the conditions that are open.
pub open spec fn live(stack: Seq<Frame>) -> bool {
    stack.len() == 0 || stack.last().keeps
}

/// The conditions that are open behind an `if` in a branch that is kept.
pub open spec fn entered(stack: Seq<Frame>, holds: bool) -> Seq<Frame> {
    stack.push(Frame { keeps: holds, otherwise: !holds, in_else: false })
}

/// The conditions that are open behind an `if` in a branch that is dropped.
pub open spec fn skipped(stack: Seq<Frame>) -> Seq<Frame> {
    stack.push(Frame { keeps: false, otherwise: false, in_else: false })
}

/// The conditions that are open behind an `else`.
pub open spec fn turned(stack: Seq<Frame>) -> Seq<Frame> {
    stack.drop_last().push(
        Frame { keeps: stack.last().otherwise, otherwise: false, in_else: true },
    )
}

/// What an order does to the conditions that are open.
pub open spec fn stepped(
    order: Order,
    stack: Seq<Frame>,
    vars: Seq<(Seq<char>, Seq<char>)>,
) -> Result<Seq<Frame>, Fault> {
    match order {
        Order::If(cond) => if live(stack) {
            match holds_for(cond, vars) {
                Ok(b) => Ok(entered(stack, b)),
                Err(f) => Err(f),
            }
        } else {
            Ok(skipped(stack))
        },
        Order::Else => if stack.len() == 0 || stack.last().in_else {
            Err(Fault::StrayElse)
        } else {
            Ok(turned(stack))
        },
        Order::End => if stack.len() == 0 {
            Err(Fault::StrayEnd)
        } else {
            Ok(stack.drop_last())
        },
        Order::Value(_) => Ok(stack),
    }
}

/// What is known of secrets: the schemes that providers serve, and the references that
/// have been read.
pub struct Known {
    pub schemes: Set<Seq<char>>,
    pub read: Seq<(Seq<char>, Seq<char>)>,
}

/// The text that takes the place of a substitution.
pub open spec fn value_of(
    name: Seq<char>,
    vars: Seq<(Seq<char>, Seq<char>)>,
    known: Known,
) -> Result<Seq<char>, Fault> {
    match reference_of(name) {
        Some((scheme, _)) => if !known.schemes.contains(scheme) {
            Err(Fault::UndeclaredScheme(scheme))
        } else {
            match lookup(known.read, name) {
                Some(v) => Ok(v),
                None => Err(Fault::Unread(name)),
            }
        },
        None => match lookup(vars, name) {
            Some(v) => Ok(v),
            None => Err(Fault::UnknownVariable(name)),
        },
    }
}

/// A text put before a result, where there is one.
pub open spec fn before(t: Seq<char>, r: Result<Seq<char>, Fault>) -> Result<Seq<char>, Fault> {
    match r {
        Ok(s) => Ok(t + s),
        Err(f) => Err(f),
    }
}

/// What the parts of a template expand to, under the conditions that are open.
pub open spec fn expanded(
    toks: Seq<Token>,
    stack: Seq<Frame>,
    vars: Seq<(Seq<char>, Seq<char>)>,
    known: Known,
) -> Result<Seq<char>, Fault>
    decreases toks.len(),
{
    if toks.len() == 0 {
        if stack.len() == 0 {
            Ok(Seq::empty())
        } else {
            Err(Fault::MissingEnd)
        }
    } else {
        let rest = toks.drop_first();
        match toks[0] {
            Token::Open => Err(Fault::Unterminated),
            Token::Text(t) => if live(stack) {
                before(t, expanded(rest, stack, vars, known))
            } else {
                expanded(rest, stack, vars, known)
            },
            Token::Tag(tag) => match order_of(tag) {
                Order::Value(name) => if live(stack) {
                    match value_of(name, vars, known) {
                        Ok(v) => before(v, expanded(rest, stack, vars, known)),
                        Err(f) => Err(f),
                    }
                } else {
                    expanded(rest, stack, vars, known)
                },
                order => match stepped(order, stack, vars) {
                    Ok(next) => expanded(rest, next, vars, known),
                    Err(f) => Err(f),
                },
            },
        }
    }
}

/// A reference put before a list, where there is one.
pub open spec fn listed_first(
    name: Seq<char>,
    r: Result<Seq<Seq<char>>, Fault>,
) -> Result<Seq<Seq<char>>, Fault> {
    match r {
        Ok(s) => Ok(seq![name] + s),
        Err(f) => Err(f),
    }
}

/// The references to secrets in the branches that are kept, from left to right.
pub open spec fn needed(
    toks: Seq<Token>,
    stack: Seq<Frame>,
    vars: Seq<(Seq<char>, Seq<char>)>,
) -> Result<Seq<Seq<char>>, Fault>
    decreases toks.len(),
{
    if toks.len() == 0 {
        if stack.len() == 0 {
            Ok(Seq::empty())
        } else {
            Err(Fault::MissingEnd)
        }
    } else {
        let rest = toks.drop_first();
        match toks[0] {
            Token::Open => Err(Fault::Unterminated),
            Token::Text(_) => needed(rest, stack, vars),
            Token::Tag(tag) => match order_of(tag) {
                Order::Value(name) => if live(stack) && reference_of(name) is Some {
                    listed_first(name, needed(rest, stack, vars))
                } else {
                    needed(rest, stack, vars)
                },
                order => match stepped(order, stack, vars) {
                    Ok(next) => needed(rest, next, vars),
                    Err(f) => Err(f),
                },
            },
        }
    }
}

/// The schemes of all references in a template, in the order in which they first occur,
/// whatever the conditions around them.
pub open spec fn schemes_in(toks: Seq<Token>) -> Seq<Seq<char>>
    decreases toks.len(),
{
    if toks.len() == 0 {
        seq![]
    } else {
        let before = schemes_in(toks.drop_last());
        match toks.last() {
            Token::Tag(tag) => match order_of(tag) {
                Order::Value(name) => match reference_of(name) {
                    Some((scheme, _)) => if before.contains(scheme) {
                        before
                    } else {
                        before.push(scheme)
                    },
                    None => before,
                },
                _ => before,
            },
            _ => before,
        }
    }
}

/// Whether every condition that is opened in the parts is closed in them, with at most one
/// `else` to each; `passed` says of each condition that is open, outermost first, whether
/// its `else` has been passed.
pub open spec fn balanced(toks: Seq<Token>, passed: Seq<bool>) -> bool
    decreases toks.len(),
{
    if toks.len() == 0 {
        passed.len() == 0
    } else {
        let rest = toks.drop_first();
        match toks[0] {
            Token::Open => false,
            Token::Text(_) => balanced(rest, passed),
            Token::Tag(tag) => match order_of(tag) {
                Order::Value(_) => balanced(rest, passed),
                Order::If(_) => balanced(rest, passed.push(false)),
                Order::Else => passed.len() > 0 && !passed.last() && balanced(
                    rest,
                    passed.drop_last().push(true),
                ),
                Order::End => passed.len() > 0 && balanced(rest, passed.drop_last()),
            },
        }
    }
}

/// The conditions that are open inside a branch that is dropped.
spec fn dropped(passed: Seq<bool>) -> Seq<Frame> {
    passed.map_values(|e: bool| Frame { keeps: false, otherwise: false, in_else: e })
}

proof fn lemma_dropped_parts(
    body: Seq<Token>,
    passed: Seq<bool>,
    stack: Seq<Frame>,
    rest: Seq<Token>,
    vars: Seq<(Seq<char>, Seq<char>)>,
    known: Known,
)
    requires
        balanced(body, passed),
        !live(stack),
    ensures
        expanded(body + rest, stack + dropped(passed), vars, known) == expanded(
            rest,
            stack,
            vars,
            known,
        ),
        needed(body + rest, stack + dropped(passed), vars) == needed(rest, stack, vars),
    decreases body.len(),
{
    let all = body + rest;
    let open = stack + dropped(passed);
    if body.len() == 0 {
        assert(all =~= rest);
        assert(open =~= stack);
    } else {
        assert(all.drop_first() =~= body.drop_first() + rest);
        assert(all[0] == body[0]);
        assert(!live(open)) by {
            if passed.len() > 0 {
                assert(open.last() == dropped(passed).last());
            } else {
                assert(open =~= stack);
            }
        }
        let tail = body.drop_first();
        match body[0] {
            Token::Open => {},
            Token::Text(_) => {
                lemma_dropped_parts(tail, passed, stack, rest, vars, known);
            },
            Token::Tag(tag) => match order_of(tag) {
                Order::Value(_) => {
                    lemma_dropped_parts(tail, passed, stack, rest, vars, known);
                },
                Order::If(_) => {
                    lemma_dropped_parts(tail, passed.push(false), stack, rest, vars, known);
                    assert(skipped(open) =~= stack + dropped(passed.push(false)));
                },
                Order::Else => {
                    let next = passed.drop_last().push(true);
                    lemma_dropped_parts(tail, next, stack, rest, vars, known);
                    assert(open.last() == dropped(passed).last());
                    assert(turned(open) =~= stack + dropped(next));
                },
                Order::End => {
                    lemma_dropped_parts(tail, passed.drop_last(), stack, rest, vars, known);
                    assert(open.drop_last() =~= stack + dropped(passed.drop_last()));
                },
            },
        }
    }
}

/// A branch that a condition drops is not read: whatever substitutions, references and
/// conditions stand in it, the template expands as if the condition and its branch were not
/// there, and needs the same secrets.
pub proof fn law_dropped_branch_is_not_read(
    tag: Seq<char>,
    cond: Seq<char>,
    body: Seq<Token>,
    end: Seq<char>,
    rest: Seq<Token>,
    stack: Seq<Frame>,
    vars: Seq<(Seq<char>, Seq<char>)>,
    known: Known,
)
    requires
        order_of(tag) == Order::If(cond),
        order_of(end) == Order::End,
        live(stack),
        holds_for(cond, vars) == Ok::<bool, Fault>(false),
        balanced(body, Seq::empty()),
    ensures
        expanded(seq![Token::Tag(tag)] + body + seq![Token::Tag(end)] + rest, stack, vars, known)
            == expanded(rest, stack, vars, known),
        needed(seq![Token::Tag(tag)] + body + seq![Token::Tag(end)] + rest, stack, vars)
            == needed(rest, stack, vars),
{
    let all = seq![Token::Tag(tag)] + body + seq![Token::Tag(end)] + rest;
    let tail = seq![Token::Tag(end)] + rest;
    let open = entered(stack, false);
    assert(all.drop_first() =~= body + tail);
    lemma_dropped_parts(body, Seq::empty(), open, tail, vars, known);
    assert(open + dropped(Seq::empty()) =~= open);
    assert(tail.drop_first() =~= rest);
    assert(open.drop_last() =~= stack);
}

/// Where nothing is kept, nothing is read: neither the branch of a condition that does not
/// hold, nor the one behind the `else` of a condition that does.
pub proof fn law_dropped_parts_are_not_read(
    body: Seq<Token>,
    rest: Seq<Token>,
    stack: Seq<Frame>,
    vars: Seq<(Seq<char>, Seq<char>)>,
    known: Known,
)
    requires
        balanced(body, Seq::empty()),
        !live(stack),
    ensures
        expanded(body + rest, stack, vars, known) == expanded(rest, stack, vars, known),
        needed(body + rest, stack, vars) == needed(rest, stack, vars),
{
    lemma_dropped_parts(body, Seq::empty(), stack, rest, vars, known);
    assert(stack + dropped(Seq::empty()) =~= stack);
}

/// A text without an opening mark is left as it is.
pub proof fn law_text_without_tags_is_kept(
    s: Seq<char>,
    vars: Seq<(Seq<char>, Seq<char>)>,
    known: Known,
)
    requires
        index_of(s, open_mark()) is None,
    ensures
        expanded(tokens(s), Seq::empty(), vars, known) == Ok::<Seq<char>, Fault>(s),
{
    let toks = tokens(s);
    assert(toks.drop_first() =~= Seq::<Token>::empty());
    assert(expanded(toks.drop_first(), Seq::empty(), vars, known) == Ok::<Seq<char>, Fault>(
        Seq::empty(),
    ));
    assert(s + Seq::<char>::empty() =~= s);
}

/// A template whose kept branches need no secret expands to the same text, or fails in the
/// same way, whatever providers there are and whatever has been read from them.
pub proof fn law_without_secrets_nothing_is_asked(
    toks: Seq<Token>,
    stack: Seq<Frame>,
    vars: Seq<(Seq<char>, Seq<char>)>,
    known: Known,
    other: Known,
)
    requires
        needed(toks, stack, vars) == Ok::<Seq<Seq<char>>, Fault>(Seq::empty()),
    ensures
        expanded(toks, stack, vars, known) == expanded(toks, stack, vars, other),
    decreases toks.len(),
{
    if toks.len() > 0 {
        let rest = toks.drop_first();
        match toks[0] {
            Token::Open => {},
            Token::Text(_) => {
                law_without_secrets_nothing_is_asked(rest, stack, vars, known, other);
            },
            Token::Tag(tag) => match order_of(tag) {
                Order::Value(name) => {
                    if live(stack) && reference_of(name) is Some {
                        let r = needed(rest, stack, vars);
                        assert(r is Ok);
                        assert((seq![name] + r->Ok_0).len() > 0);
                    } else {
                        law_without_secrets_nothing_is_asked(rest, stack, vars, known, other);
                    }
                },
                order => match stepped(order, stack, vars) {
                    Ok(next) => {
                        law_without_secrets_nothing_is_asked(rest, next, vars, known, other);
                    },
                    Err(_) => {},
                },
            },
        }
    }
}

/// Whether every reference is of a scheme that a provider serves, and has been read.
pub open spec fn all_read(refs: Seq<Seq<char>>, known: Known) -> bool {
    forall|i: int|
        0 <= i < refs.len() ==> {
            &&& reference_of(#[trigger] refs[i]) matches Some((scheme, _))
            &&& known.schemes.contains(scheme)
            &&& lookup(known.read, refs[i]) is Some
        }
}

/// Once every secret that a template needs has been read from a declared provider, no
/// secret stands in the way: what can still fail is a variable that has no value.
pub proof fn law_read_secrets_are_enough(
    toks: Seq<Token>,
    stack: Seq<Frame>,
    vars: Seq<(Seq<char>, Seq<char>)>,
    known: Known,
)
    requires
        needed(toks, stack, vars) matches Ok(refs) && all_read(refs, known),
    ensures
        expanded(toks, stack, vars, known) matches Err(f) ==> f is UnknownVariable,
    decreases toks.len(),
{
    if toks.len() > 0 {
        let rest = toks.drop_first();
        match toks[0] {
            Token::Open => {},
            Token::Text(_) => {
                law_read_secrets_are_enough(rest, stack, vars, known);
            },
            Token::Tag(tag) => match order_of(tag) {
                Order::Value(name) => {
                    if live(stack) && reference_of(name) is Some {
                        let tail = needed(rest, stack, vars)->Ok_0;
                        let refs = seq![name] + tail;
                        assert(all_read(refs, known));
                        assert(refs[0] == name);
                        assert(all_read(tail, known)) by {
                            assert(forall|i: int|
                                0 <= i < tail.len() ==> refs[i + 1] == #[trigger] tail[i]);
                        }
                        law_read_secrets_are_enough(rest, stack, vars, known);
                    } else {
                        law_read_secrets_are_enough(rest, stack, vars, known);
                    }
                },
                order => match stepped(order, stack, vars) {
                    Ok(next) => {
                        law_read_secrets_are_enough(rest, next, vars, known);
                    },
                    Err(_) => {},
                },
            },
        }
    }
}

proof fn lemma_schemes_grow(toks: Seq<Token>, more: Seq<Token>, scheme: Seq<char>)
    requires
        schemes_in(toks).contains(scheme),
    ensures
        schemes_in(toks + more).contains(scheme),
    decreases more.len(),
{
    let all = toks + more;
    if more.len() == 0 {
        assert(all =~= toks);
    } else {
        assert(all.drop_last() =~= toks + more.drop_last());
        lemma_schemes_grow(toks, more.drop_last(), scheme);
        let b = schemes_in(all.drop_last());
        let i = choose|i: int| 0 <= i < b.len() && b[i] == scheme;
        assert(forall|x: Seq<char>| b.push(x)[i] == scheme);
    }
}

proof fn lemma_needed_schemes(
    done: Seq<Token>,
    toks: Seq<Token>,
    stack: Seq<Frame>,
    vars: Seq<(Seq<char>, Seq<char>)>,
    i: int,
)
    requires
        needed(toks, stack, vars) matches Ok(refs) && 0 <= i < refs.len(),
    ensures
        reference_of(needed(toks, stack, vars)->Ok_0[i]) matches Some((scheme, _))
            && schemes_in(done + toks).contains(scheme),
    decreases toks.len(),
{
    if toks.len() > 0 {
        let rest = toks.drop_first();
        let next_done = done.push(toks[0]);
        assert(next_done + rest =~= done + toks);
        match toks[0] {
            Token::Open => {},
            Token::Text(_) => {
                lemma_needed_schemes(next_done, rest, stack, vars, i);
            },
            Token::Tag(tag) => match order_of(tag) {
                Order::Value(name) => {
                    if live(stack) && reference_of(name) is Some {
                        let tail = needed(rest, stack, vars)->Ok_0;
                        if i == 0 {
                            let scheme = reference_of(name).unwrap().0;
                            assert(next_done.drop_last() =~= done);
                            let b = schemes_in(done);
                            assert(schemes_in(next_done).contains(scheme)) by {
                                if !b.contains(scheme) {
                                    assert(b.push(scheme)[b.len() as int] == scheme);
                                }
                            }
                            lemma_schemes_grow(next_done, rest, scheme);
                        } else {
                            lemma_needed_schemes(next_done, rest, stack, vars, i - 1);
                            assert((seq![name] + tail)[i] == tail[i - 1]);
                        }
                    } else {
                        lemma_needed_schemes(next_done, rest, stack, vars, i);
                    }
                },
                order => match stepped(order, stack, vars) {
                    Ok(next) => {
                        lemma_needed_schemes(next_done, rest, next, vars, i);
                    },
                    Err(_) => {},
                },
            },
        }
    }
}

/// Every secret that is needed on some machine is of a scheme that the template is known to
/// use without looking at any machine.
pub proof fn law_needed_schemes_are_used(
    s: Seq<char>,
    vars: Seq<(Seq<char>, Seq<char>)>,
    i: int,
)
    requires
        needed(tokens(s), Seq::empty(), vars) matches Ok(refs) && 0 <= i < refs.len(),
    ensures
        reference_of(needed(tokens(s), Seq::empty(), vars)->Ok_0[i]) matches Some((scheme, _))
            && schemes_in(tokens(s)).contains(scheme),
{
    lemma_needed_schemes(Seq::empty(), tokens(s), Seq::empty(), vars, i);
    assert(Seq::<Token>::empty() + tokens(s) =~= tokens(s));
}

/// What a template with every condition closed expands to does not depend on what follows
/// it: two such templates, joined, expand to the two texts, joined.
pub proof fn law_joined_templates(
    a: Seq<Token>,
    b: Seq<Token>,
    stack: Seq<Frame>,
    vars: Seq<(Seq<char>, Seq<char>)>,
    known: Known,
)
    requires
        expanded(a, stack, vars, known) is Ok,
    ensures
        expanded(a + b, stack, vars, known) == before(
            expanded(a, stack, vars, known)->Ok_0,
            expanded(b, Seq::empty(), vars, known),
        ),
    decreases a.len(),
{
    let all = a + b;
    if a.len() == 0 {
        assert(all =~= b);
        assert(stack =~= Seq::empty());
        match expanded(b, Seq::empty(), vars, known) {
            Ok(s) => {
                assert(Seq::<char>::empty() + s =~= s);
            },
            Err(_) => {},
        }
    } else {
        let rest = a.drop_first();
        assert(all.drop_first() =~= rest + b);
        assert(all[0] == a[0]);
        let tail = expanded(b, Seq::empty(), vars, known);
        match a[0] {
            Token::Open => {},
            Token::Text(t) => {
                law_joined_templates(rest, b, stack, vars, known);
                if live(stack) {
                    lemma_before(t, expanded(rest, stack, vars, known)->Ok_0, tail);
                }
            },
            Token::Tag(tag) => match order_of(tag) {
                Order::Value(name) => {
                    law_joined_templates(rest, b, stack, vars, known);
                    if live(stack) {
                        let v = value_of(name, vars, known)->Ok_0;
                        lemma_before(v, expanded(rest, stack, vars, known)->Ok_0, tail);
                    }
                },
                order => {
                    let next = stepped(order, stack, vars)->Ok_0;
                    law_joined_templates(rest, b, next, vars, known);
                },
            },
        }
    }
}

proof fn lemma_before(a: Seq<char>, b: Seq<char>, r: Result<Seq<char>, Fault>)
    ensures
        before(a, before(b, r)) == before(a + b, r),
{
    match r {
        Ok(s) => {
            assert(a + (b + s) =~= (a + b) + s);
        },
        Err(_) => {},
    }
}

proof fn lemma_occurs_joined(a: Seq<char>, b: Seq<char>, p: Seq<char>, i: int)
    ensures
        0 <= i && i + p.len() <= a.len() ==> occurs(a + b, p, i) == occurs(a, p, i),
        i >= a.len() ==> occurs(a + b, p, i) == occurs(b, p, i - a.len()),
{
    let all = a + b;
    if 0 <= i && i + p.len() <= a.len() {
        assert(all.subrange(i, i + p.len()) =~= a.subrange(i, i + p.len()));
    }
    if i >= a.len() && i + p.len() <= all.len() {
        let k = i - a.len();
        assert(all.subrange(i, i + p.len()) =~= b.subrange(k, k + p.len()));
    }
}

/// A mark that stands in a text stands at the same place in what the text begins.
proof fn lemma_index_kept(a: Seq<char>, b: Seq<char>, p: Seq<char>)
    requires
        index_of(a, p) is Some,
        p.len() > 0,
    ensures
        index_of(a + b, p) == index_of(a, p),
        index_of(a, p)->Some_0 >= 0,
        index_of(a, p)->Some_0 + p.len() <= a.len(),
{
    lemma_index_from(a, p, 0);
    lemma_index_from(a + b, p, 0);
    let i = index_of(a, p)->Some_0;
    lemma_occurs_joined(a, b, p, i);
    assert(occurs(a + b, p, i));
    let k = index_of(a + b, p)->Some_0;
    if k < i {
        lemma_occurs_joined(a, b, p, k);
        assert(occurs(a, p, k));
    } else if i < k {
        assert(!occurs(a + b, p, i));
    }
}

/// Where the cut between two texts does not fall between two opening braces, and the first
/// holds no opening mark, the first mark of both is that of the second.
proof fn lemma_index_moved(a: Seq<char>, b: Seq<char>)
    requires
        index_of(a, open_mark()) is None,
        !splits_mark(a, b),
    ensures
        index_of(a + b, open_mark()) == match index_of(b, open_mark()) {
            Some(k) => Some(a.len() + k),
            None => None,
        },
{
    let p = open_mark();
    let all = a + b;
    lemma_index_from(a, p, 0);
    lemma_index_from(b, p, 0);
    lemma_index_from(all, p, 0);
    assert forall|i: int| 0 <= i < a.len() implies !#[trigger] occurs(all, p, i) by {
        lemma_occurs_joined(a, b, p, i);
        if i + 2 <= a.len() {
            assert(!occurs(a, p, i));
        } else if occurs(all, p, i) {
            assert(all.subrange(i, i + 2)[0] == p[0] && all.subrange(i, i + 2)[1] == p[1]);
            assert(all[i] == a.last() && all[i + 1] == b[0]);
        }
    }
    if let Some(j) = index_of(all, p) {
        lemma_occurs_joined(a, b, p, j);
        assert(occurs(b, p, j - a.len()));
    }
    if let Some(k) = index_of(b, p) {
        lemma_occurs_joined(a, b, p, a.len() + k);
        assert(occurs(all, p, a.len() + k));
        let j = index_of(all, p)->Some_0;
        lemma_occurs_joined(a, b, p, j);
        if j < a.len() + k {
            assert(!occurs(b, p, j - a.len()));
        } else if j > a.len() + k {
            assert(!occurs(all, p, a.len() + k));
        }
    }
}

/// Whether the cut between two texts falls between two opening braces.
pub open spec fn splits_mark(a: Seq<char>, b: Seq<char>) -> bool {
    a.len() > 0 && b.len() > 0 && a.last() == '{' && b[0] == '{'
}

/// A template that expands can be followed by any text, as long as the cut does not fall
/// between two opening braces: the whole expands to what the template expands to, followed by
/// what the text expands to, or fails as the text does.
pub proof fn law_joined_texts(
    a: Seq<char>,
    b: Seq<char>,
    vars: Seq<(Seq<char>, Seq<char>)>,
    known: Known,
)
    requires
        expanded(tokens(a), Seq::empty(), vars, known) is Ok,
        !splits_mark(a, b),
    ensures
        expanded(tokens(a + b), Seq::empty(), vars, known) == before(
            expanded(tokens(a), Seq::empty(), vars, known)->Ok_0,
            expanded(tokens(b), Seq::empty(), vars, known),
        ),
{
    lemma_joined_texts(a, b, Seq::empty(), vars, known);
}

proof fn lemma_joined_texts(
    a: Seq<char>,
    b: Seq<char>,
    stack: Seq<Frame>,
    vars: Seq<(Seq<char>, Seq<char>)>,
    known: Known,
)
    requires
        expanded(tokens(a), stack, vars, known) is Ok,
        !splits_mark(a, b),
    ensures
        expanded(tokens(a + b), stack, vars, known) == before(
            expanded(tokens(a), stack, vars, known)->Ok_0,
            expanded(tokens(b), Seq::empty(), vars, known),
        ),
    decreases a.len(), 0int,
{
    lemma_index_from(a, open_mark(), 0);
    match index_of(a, open_mark()) {
        None => lemma_joined_plain(a, b, stack, vars, known),
        Some(i) => {
            let all = a + b;
            let after = a.skip(i + 2);
            lemma_index_kept(a, b, open_mark());
            assert(all.take(i) =~= a.take(i));
            assert(all.skip(i + 2) =~= after + b);
            let text = Token::Text(a.take(i));
            lemma_index_from(after, close_mark(), 0);
            match index_of(after, close_mark()) {
                None => {
                    let toks = tokens(a);
                    assert(toks =~= seq![text, Token::Open]);
                    assert(toks.drop_first() =~= seq![Token::Open]);
                    assert(expanded(toks.drop_first(), stack, vars, known) is Err);
                    assert(false);
                },
                Some(e) => {
                    lemma_index_kept(after, b, close_mark());
                    assert((after + b).take(e) =~= after.take(e));
                    let rest = after.skip(e + 2);
                    assert((after + b).skip(e + 2) =~= rest + b);
                    assert(!splits_mark(rest, b)) by {
                        if rest.len() > 0 {
                            assert(rest.last() == a.last());
                        }
                    }
                    let tag = Token::Tag(trimmed(after.take(e)));
                    lemma_joined_step(text, tag, rest, b, stack, vars, known);
                },
            }
        },
    }
}

proof fn lemma_joined_step(
    text: Token,
    tag: Token,
    rest: Seq<char>,
    b: Seq<char>,
    stack: Seq<Frame>,
    vars: Seq<(Seq<char>, Seq<char>)>,
    known: Known,
)
    requires
        text is Text,
        tag is Tag,
        expanded(seq![text, tag] + tokens(rest), stack, vars, known) is Ok,
        !splits_mark(rest, b),
    ensures
        expanded(seq![text, tag] + tokens(rest + b), stack, vars, known) == before(
            expanded(seq![text, tag] + tokens(rest), stack, vars, known)->Ok_0,
            expanded(tokens(b), Seq::empty(), vars, known),
        ),
    decreases rest.len(), 1int,
{
    let one = seq![text, tag] + tokens(rest);
    let two = seq![text, tag] + tokens(rest + b);
    assert(one.drop_first() =~= seq![tag] + tokens(rest));
    assert(two.drop_first() =~= seq![tag] + tokens(rest + b));
    assert(one.drop_first().drop_first() =~= tokens(rest));
    assert(two.drop_first().drop_first() =~= tokens(rest + b));
    assert(one[0] == text && two[0] == text);
    assert(one.drop_first()[0] == tag && two.drop_first()[0] == tag);
    let end = expanded(tokens(b), Seq::empty(), vars, known);
    let inner = expanded(one.drop_first(), stack, vars, known)->Ok_0;
    match order_of(tag->Tag_0) {
        Order::Value(name) => {
            lemma_joined_texts(rest, b, stack, vars, known);
            if live(stack) {
                let v = value_of(name, vars, known)->Ok_0;
                lemma_before(v, expanded(tokens(rest), stack, vars, known)->Ok_0, end);
            }
        },
        order => {
            let next = stepped(order, stack, vars)->Ok_0;
            lemma_joined_texts(rest, b, next, vars, known);
        },
    }
    assert(expanded(two.drop_first(), stack, vars, known) == before(inner, end));
    if live(stack) {
        lemma_before(text->Text_0, inner, end);
    }
}

proof fn lemma_joined_plain(
    a: Seq<char>,
    b: Seq<char>,
    stack: Seq<Frame>,
    vars: Seq<(Seq<char>, Seq<char>)>,
    known: Known,
)
    requires
        index_of(a, open_mark()) is None,
        expanded(tokens(a), stack, vars, known) is Ok,
        !splits_mark(a, b),
    ensures
        expanded(tokens(a + b), stack, vars, known) == before(
            expanded(tokens(a), stack, vars, known)->Ok_0,
            expanded(tokens(b), Seq::empty(), vars, known),
        ),
{
    let all = a + b;
    let none = Seq::<Token>::empty();
    assert(tokens(a).drop_first() =~= none);
    assert(expanded(none, stack, vars, known) is Ok);
    assert(stack =~= Seq::empty());
    assert(a + Seq::<char>::empty() =~= a);
    lemma_index_moved(a, b);
    lemma_index_from(b, open_mark(), 0);
    match index_of(b, open_mark()) {
        None => {
            assert(tokens(all).drop_first() =~= none);
            assert(tokens(b).drop_first() =~= none);
            assert(all + Seq::<char>::empty() =~= all);
            assert(b + Seq::<char>::empty() =~= b);
        },
        Some(k) => {
            assert(all.take(a.len() + k) =~= a + b.take(k));
            assert(all.skip(a.len() + k + 2) =~= b.skip(k + 2));
            assert(tokens(all).drop_first() =~= tokens(b).drop_first());
            assert(tokens(all)[0] == Token::Text(a + b.take(k)));
            assert(tokens(b)[0] == Token::Text(b.take(k)));
            lemma_before(
                a,
                b.take(k),
                expanded(tokens(b).drop_first(), Seq::empty(), vars, known),
            );
        },
    }
}

proof fn lemma_first_pair(s: Seq<char>, a: char, b: char, k: int)
    requires
        0 <= k,
        k + 2 <= s.len(),
        s[k] == a,
        s[k + 1] == b,
        forall|j: int| 0 <= j < k ==> #[trigger] s[j] != a,
    ensures
        index_of(s, seq![a, b]) == Some(k),
{
    let p = seq![a, b];
    lemma_index_from(s, p, 0);
    assert(s.subrange(k, k + 2) =~= p);
    assert(occurs(s, p, k));
    match index_of(s, p) {
        Some(i) => {
            if i < k {
                assert(s.subrange(i, i + 2)[0] == p[0]);
                assert(s[i] == a);
            }
        },
        None => {},
    }
}

proof fn lemma_pair_not_before(s: Seq<char>, a: char, b: char, k: int)
    requires
        0 <= k <= s.len(),
        forall|j: int| 0 <= j < k ==> #[trigger] s[j] != a,
    ensures
        index_of(s, seq![a, b]) matches Some(i) ==> i >= k,
{
    let p = seq![a, b];
    lemma_index_from(s, p, 0);
    if let Some(i) = index_of(s, p) {
        assert(s.subrange(i, i + 2)[0] == p[0]);
    }
}

proof fn lemma_trimmed_spaces(l: Seq<char>, s: Seq<char>, r: Seq<char>)
    requires
        forall|i: int| 0 <= i < l.len() ==> is_space(#[trigger] l[i]),
        forall|i: int| 0 <= i < r.len() ==> is_space(#[trigger] r[i]),
        s.len() > 0,
        !is_space(s[0]),
        !is_space(s.last()),
    ensures
        trimmed(l + s + r) == s,
{
    assert forall|i: int| 0 <= i < l.len() implies Sep::Space.cuts(#[trigger] l[i]) by {}
    assert forall|i: int| 0 <= i < r.len() implies Sep::Space.cuts(#[trigger] r[i]) by {}
    law_trimmed_at_both_ends(l, s, r, Sep::Space);
}

/// A comparison as it is written: a name, white space, the sign, white space, and a text in
/// quotes.
pub open spec fn written(
    name: Seq<char>,
    left: Seq<char>,
    equal: bool,
    right: Seq<char>,
    with: Seq<char>,
) -> Seq<char> {
    name + left + (if equal {
        seq!['=', '=']
    } else {
        seq!['!', '=']
    }) + right + seq!['"'] + with + seq!['"']
}

proof fn lemma_written(
    name: Seq<char>,
    left: Seq<char>,
    equal: bool,
    right: Seq<char>,
    with: Seq<char>,
)
    requires
        name.len() > 0,
        !name.contains('='),
        !name.contains('!'),
        !is_space(name[0]),
        !is_space(name.last()),
        forall|i: int| 0 <= i < left.len() ==> is_space(#[trigger] left[i]),
        forall|i: int| 0 <= i < right.len() ==> is_space(#[trigger] right[i]),
    ensures
        test_of(written(name, left, equal, right, with)) == (Test::Compared { name, equal, with }),
{
    let cond = written(name, left, equal, right, with);
    let k = (name.len() + left.len()) as int;
    let quoted = seq!['"'] + with + seq!['"'];
    assert forall|j: int| 0 <= j < k implies #[trigger] cond[j] != '=' && cond[j] != '!' by {
        if j < name.len() {
            assert(cond[j] == name[j]);
            assert(name.contains(name[j]));
        } else {
            assert(cond[j] == left[j - name.len()]);
            assert(is_space(left[j - name.len()]));
        }
    }
    assert(cond[k + 1] == '=');
    if equal {
        assert(cond[k] == '=');
        lemma_first_pair(cond, '=', '=', k);
        lemma_pair_not_before(cond, '!', '=', k + 1);
    } else {
        assert(cond[k] == '!');
        lemma_first_pair(cond, '!', '=', k);
        lemma_pair_not_before(cond, '=', '=', k + 1);
    }
    assert(cond.take(k) =~= Seq::<char>::empty() + name + left);
    lemma_trimmed_spaces(Seq::empty(), name, left);
    assert(cond.skip(k + 2) =~= right + quoted + Seq::<char>::empty());
    lemma_trimmed_spaces(right, quoted, Seq::empty());
    assert(quoted.subrange(1, quoted.len() - 1) =~= with);
}

/// A variable compares equal to a text exactly where its value is that text, and unequal
/// exactly where it does not compare equal; alone it holds where its value is not empty. A
/// variable of the environment that is not set counts as empty, and any other one that is
/// not known is an error.
pub proof fn law_unequal_is_the_opposite_of_equal(
    name: Seq<char>,
    left: Seq<char>,
    right: Seq<char>,
    with: Seq<char>,
    vars: Seq<(Seq<char>, Seq<char>)>,
)
    requires
        name.len() > 0,
        !name.contains('='),
        !name.contains('!'),
        !is_space(name[0]),
        !is_space(name.last()),
        forall|i: int| 0 <= i < left.len() ==> is_space(#[trigger] left[i]),
        forall|i: int| 0 <= i < right.len() ==> is_space(#[trigger] right[i]),
    ensures
        ({
            let equal = holds_for(written(name, left, true, right, with), vars);
            let unequal = holds_for(written(name, left, false, right, with), vars);
            let given = holds_for(name, vars);
            match lookup(vars, name) {
                Some(v) => {
                    &&& equal == Ok::<bool, Fault>(v == with)
                    &&& unequal == Ok::<bool, Fault>(v != with)
                    &&& given == Ok::<bool, Fault>(v.len() > 0)
                },
                None => if name.len() >= 4 && name.take(4) == seq!['e', 'n', 'v', '.'] {
                    &&& equal == Ok::<bool, Fault>(with.len() == 0)
                    &&& unequal == Ok::<bool, Fault>(with.len() > 0)
                    &&& given == Ok::<bool, Fault>(false)
                } else {
                    &&& equal == Err::<bool, Fault>(Fault::UnknownVariable(name))
                    &&& unequal == Err::<bool, Fault>(Fault::UnknownVariable(name))
                    &&& given == Err::<bool, Fault>(Fault::UnknownVariable(name))
                },
            }
        }),
{
    lemma_written(name, left, true, right, with);
    lemma_written(name, left, false, right, with);
    assert forall|j: int| 0 <= j < name.len() implies #[trigger] name[j] != '=' && name[j] != '!' by {
        assert(name.contains(name[j]));
    }
    lemma_pair_not_before(name, '=', '=', name.len() as int);
    lemma_pair_not_before(name, '!', '=', name.len() as int);
    lemma_index_from(name, seq!['=', '='], 0);
    lemma_index_from(name, seq!['!', '='], 0);
    assert(test_of(name) == Test::Given(name));
    if with.len() == 0 {
        assert(Seq::<char>::empty() =~= with);
    }
}

/// A comparison needs a name on its left and a text in quotes on its right, and a condition
/// cannot be empty.
pub proof fn law_bad_conditions(
    left: Seq<char>,
    equal: bool,
    right: Seq<char>,
    vars: Seq<(Seq<char>, Seq<char>)>,
)
    requires
        !left.contains('='),
        !left.contains('!'),
        right.len() > 0,
        !is_space(right[0]),
        !is_space(right.last()),
        trimmed(left).len() == 0 || right.len() < 2 || right[0] != '"' || right.last() != '"',
    ensures
        ({
            let cond = left + (if equal {
                seq!['=', '=']
            } else {
                seq!['!', '=']
            }) + right;
            holds_for(cond, vars) == Err::<bool, Fault>(Fault::BadCondition(cond))
        }),
        holds_for(Seq::empty(), vars) == Err::<bool, Fault>(Fault::BadCondition(Seq::empty())),
{
    let cond = left + (if equal {
        seq!['=', '=']
    } else {
        seq!['!', '=']
    }) + right;
    let k = left.len() as int;
    assert forall|j: int| 0 <= j < k implies #[trigger] cond[j] != '=' && cond[j] != '!' by {
        assert(cond[j] == left[j]);
        assert(left.contains(left[j]));
    }
    assert(cond[k + 1] == '=');
    if equal {
        assert(cond[k] == '=');
        lemma_first_pair(cond, '=', '=', k);
        lemma_pair_not_before(cond, '!', '=', k + 1);
    } else {
        assert(cond[k] == '!');
        lemma_first_pair(cond, '!', '=', k);
        lemma_pair_not_before(cond, '=', '=', k + 1);
    }
    assert(cond.take(k) =~= left);
    assert(cond.skip(k + 2) =~= Seq::<char>::empty() + right + Seq::<char>::empty());
    lemma_trimmed_spaces(Seq::empty(), right, Seq::empty());
    lemma_index_from(Seq::empty(), seq!['=', '='], 0);
    lemma_index_from(Seq::empty(), seq!['!', '='], 0);
}

proof fn lemma_kept(
    body: Seq<Token>,
    inner: Seq<Frame>,
    base: Seq<Frame>,
    tail: Seq<Token>,
    vars: Seq<(Seq<char>, Seq<char>)>,
    known: Known,
)
    requires
        live(base),
        expanded(body, inner, vars, known) is Ok,
    ensures
        expanded(body + tail, base + inner, vars, known) == before(
            expanded(body, inner, vars, known)->Ok_0,
            expanded(tail, base, vars, known),
        ),
    decreases body.len(),
{
    let all = body + tail;
    let open = base + inner;
    let last = expanded(tail, base, vars, known);
    if body.len() == 0 {
        assert(all =~= tail);
        assert(open =~= base);
        match last {
            Ok(s) => {
                assert(Seq::<char>::empty() + s =~= s);
            },
            Err(_) => {},
        }
    } else {
        let rest = body.drop_first();
        assert(all.drop_first() =~= rest + tail);
        assert(all[0] == body[0]);
        assert(live(open) == live(inner)) by {
            if inner.len() > 0 {
                assert(open.last() == inner.last());
            } else {
                assert(open =~= base);
            }
        }
        match body[0] {
            Token::Open => {},
            Token::Text(t) => {
                lemma_kept(rest, inner, base, tail, vars, known);
                if live(inner) {
                    lemma_before(t, expanded(rest, inner, vars, known)->Ok_0, last);
                }
            },
            Token::Tag(tag) => match order_of(tag) {
                Order::Value(name) => {
                    lemma_kept(rest, inner, base, tail, vars, known);
                    if live(inner) {
                        let v = value_of(name, vars, known)->Ok_0;
                        lemma_before(v, expanded(rest, inner, vars, known)->Ok_0, last);
                    }
                },
                order => {
                    let next = stepped(order, inner, vars)->Ok_0;
                    match order {
                        Order::If(cond) => {
                            if live(inner) {
                                let b = holds_for(cond, vars)->Ok_0;
                                assert(entered(open, b) =~= base + entered(inner, b));
                            } else {
                                assert(skipped(open) =~= base + skipped(inner));
                            }
                        },
                        Order::Else => {
                            assert(open.last() == inner.last());
                            assert(turned(open) =~= base + turned(inner));
                        },
                        Order::End => {
                            assert(open.drop_last() =~= base + inner.drop_last());
                        },
                        Order::Value(_) => {},
                    }
                    assert(stepped(order, open, vars) == Ok::<Seq<Frame>, Fault>(base + next));
                    lemma_kept(rest, next, base, tail, vars, known);
                },
            },
        }
    }
}

/// Of a condition with two branches exactly one is kept: the first where the condition
/// holds, the second where it does not. The other one only has to be closed.
pub proof fn law_one_branch_is_kept(
    tag: Seq<char>,
    cond: Seq<char>,
    first: Seq<Token>,
    second: Seq<Token>,
    rest: Seq<Token>,
    stack: Seq<Frame>,
    vars: Seq<(Seq<char>, Seq<char>)>,
    known: Known,
)
    requires
        order_of(tag) == Order::If(cond),
        live(stack),
        holds_for(cond, vars) is Ok,
        holds_for(cond, vars)->Ok_0 ==> expanded(first, Seq::empty(), vars, known) is Ok && balanced(
            second,
            Seq::empty(),
        ),
        !holds_for(cond, vars)->Ok_0 ==> expanded(second, Seq::empty(), vars, known) is Ok
            && balanced(first, Seq::empty()),
    ensures
        expanded(
            seq![Token::Tag(tag)] + first + seq![Token::Tag(seq!['e', 'l', 's', 'e'])] + second
                + seq![Token::Tag(seq!['e', 'n', 'd'])] + rest,
            stack,
            vars,
            known,
        ) == before(
            expanded(
                if holds_for(cond, vars)->Ok_0 {
                    first
                } else {
                    second
                },
                Seq::empty(),
                vars,
                known,
            )->Ok_0,
            expanded(rest, stack, vars, known),
        ),
{
    let otherwise = Token::Tag(seq!['e', 'l', 's', 'e']);
    let end = Token::Tag(seq!['e', 'n', 'd']);
    assert(order_of(seq!['e', 'l', 's', 'e']) == Order::Else);
    assert(seq!['e', 'n', 'd'].len() != seq!['e', 'l', 's', 'e'].len());
    assert(order_of(seq!['e', 'n', 'd']) == Order::End);
    let holds = holds_for(cond, vars)->Ok_0;
    let all = seq![Token::Tag(tag)] + first + seq![otherwise] + second + seq![end] + rest;
    let tail = seq![otherwise] + second + seq![end] + rest;
    let last = seq![end] + rest;
    let open = entered(stack, holds);
    let turn = turned(open);
    assert(all[0] == Token::Tag(tag));
    assert(all.drop_first() =~= first + tail);
    assert(tail[0] == otherwise);
    assert(tail.drop_first() =~= second + last);
    assert(last[0] == end);
    assert(last.drop_first() =~= rest);
    assert(turn.drop_last() =~= stack);
    assert(open.drop_last() =~= stack);
    assert(open.last() == Frame { keeps: holds, otherwise: !holds, in_else: false });
    assert(turn.last() == Frame { keeps: !holds, otherwise: false, in_else: true });
    assert(open + Seq::<Frame>::empty() =~= open);
    assert(turn + Seq::<Frame>::empty() =~= turn);
    assert(open + dropped(Seq::empty()) =~= open);
    assert(turn + dropped(Seq::empty()) =~= turn);
    assert(expanded(tail, open, vars, known) == expanded(second + last, turn, vars, known));
    assert(expanded(last, turn, vars, known) == expanded(rest, stack, vars, known));
    if holds {
        lemma_kept(first, Seq::empty(), open, tail, vars, known);
        lemma_dropped_parts(second, Seq::empty(), turn, last, vars, known);
    } else {
        lemma_dropped_parts(first, Seq::empty(), open, tail, vars, known);
        lemma_kept(second, Seq::empty(), turn, last, vars, known);
    }
}

/// Where a condition without a second branch holds, what it encloses is kept.
pub proof fn law_what_a_condition_encloses_is_kept(
    tag: Seq<char>,
    cond: Seq<char>,
    body: Seq<Token>,
    rest: Seq<Token>,
    stack: Seq<Frame>,
    vars: Seq<(Seq<char>, Seq<char>)>,
    known: Known,
)
    requires
        order_of(tag) == Order::If(cond),
        live(stack),
        holds_for(cond, vars) == Ok::<bool, Fault>(true),
        expanded(body, Seq::empty(), vars, known) is Ok,
    ensures
        expanded(
            seq![Token::Tag(tag)] + body + seq![Token::Tag(seq!['e', 'n', 'd'])] + rest,
            stack,
            vars,
            known,
        ) == before(
            expanded(body, Seq::empty(), vars, known)->Ok_0,
            expanded(rest, stack, vars, known),
        ),
{
    let end = Token::Tag(seq!['e', 'n', 'd']);
    assert(seq!['e', 'n', 'd'].len() != seq!['e', 'l', 's', 'e'].len());
    assert(order_of(seq!['e', 'n', 'd']) == Order::End);
    let all = seq![Token::Tag(tag)] + body + seq![end] + rest;
    let last = seq![end] + rest;
    let open = entered(stack, true);
    assert(all[0] == Token::Tag(tag));
    assert(all.drop_first() =~= body + last);
    assert(last[0] == end);
    assert(last.drop_first() =~= rest);
    assert(open.drop_last() =~= stack);
    assert(open + Seq::<Frame>::empty() =~= open);
    lemma_kept(body, Seq::empty(), open, last, vars, known);
    assert(expanded(last, open, vars, known) == expanded(rest, stack, vars, known));
}

/// A tag is a condition where `if` and white space begin it, and else it asks for a value
/// unless it is one of the two other words.
pub proof fn law_what_tags_ask_for(space: char, cond: Seq<char>, tag: Seq<char>)
    requires
        is_space(space),
        cond.len() > 0,
        !is_space(cond[0]),
        !is_space(cond.last()),
    ensures
        order_of(seq!['i', 'f', space] + cond) == Order::If(cond),
        order_of(seq!['e', 'l', 's', 'e']) == Order::Else,
        order_of(seq!['e', 'n', 'd']) == Order::End,
        tag != seq!['e', 'l', 's', 'e'] && tag != seq!['e', 'n', 'd'] && !(tag.len() >= 2 && tag[0]
            == 'i' && tag[1] == 'f') ==> order_of(tag) == Order::Value(tag),
        tag.len() > 2 && tag[0] == 'i' && tag[1] == 'f' && !is_space(tag[2]) ==> order_of(tag)
            == Order::Value(tag),
{
    let s = seq!['i', 'f', space] + cond;
    assert(s[0] == 'i');
    assert(s != seq!['e', 'l', 's', 'e'] && s != seq!['e', 'n', 'd']) by {
        assert(seq!['e', 'l', 's', 'e'][0] == 'e');
        assert(seq!['e', 'n', 'd'][0] == 'e');
    }
    assert(s.take(2) =~= seq!['i', 'f']);
    assert(s.skip(2) =~= seq![space] + cond + Seq::<char>::empty());
    lemma_trimmed_spaces(seq![space], cond, Seq::empty());
    assert(seq!['e', 'n', 'd'].len() != seq!['e', 'l', 's', 'e'].len());
    if starts(tag, seq!['i', 'f']) {
        assert(tag.take(2)[0] == tag[0] && tag.take(2)[1] == tag[1]);
        assert(seq!['i', 'f'][0] == 'i' && seq!['i', 'f'][1] == 'f');
    }
    assert(seq!['e', 'l', 's', 'e'][0] == 'e');
    assert(seq!['e', 'n', 'd'][0] == 'e');
}

/// A template is text up to its first opening mark, then a tag up to the closing mark, and
/// then the same again.
pub proof fn law_tags_stand_between_marks(text: Seq<char>, tag: Seq<char>, rest: Seq<char>)
    requires
        !text.contains('{'),
        !tag.contains('}'),
    ensures
        tokens(text + seq!['{', '{'] + tag + seq!['}', '}'] + rest) == seq![
            Token::Text(text),
            Token::Tag(trimmed(tag)),
        ] + tokens(rest),
        tokens(text + seq!['{', '{'] + tag) == seq![Token::Text(text), Token::Open],
        tokens(text) == seq![Token::Text(text)],
{
    let s = text + seq!['{', '{'] + tag + seq!['}', '}'] + rest;
    let n = text.len() as int;
    assert forall|j: int| 0 <= j < n implies #[trigger] s[j] != '{' by {
        assert(s[j] == text[j]);
        assert(text.contains(text[j]));
    }
    lemma_first_pair(s, '{', '{', n);
    let after = s.skip(n + 2);
    let m = tag.len() as int;
    assert(after =~= tag + seq!['}', '}'] + rest);
    assert forall|j: int| 0 <= j < m implies #[trigger] after[j] != '}' by {
        assert(after[j] == tag[j]);
        assert(tag.contains(tag[j]));
    }
    lemma_first_pair(after, '}', '}', m);
    assert(s.take(n) =~= text);
    assert(after.take(m) =~= tag);
    assert(after.skip(m + 2) =~= rest);
    let open = text + seq!['{', '{'] + tag;
    assert forall|j: int| 0 <= j < n implies #[trigger] open[j] != '{' by {
        assert(open[j] == text[j]);
        assert(text.contains(text[j]));
    }
    lemma_first_pair(open, '{', '{', n);
    assert(open.take(n) =~= text);
    assert(open.skip(n + 2) =~= tag);
    assert forall|j: int| 0 <= j < m implies #[trigger] tag[j] != '}' by {
        assert(tag.contains(tag[j]));
    }
    lemma_pair_not_before(tag, '}', '}', m);
    lemma_index_from(tag, close_mark(), 0);
    assert forall|j: int| 0 <= j < n implies #[trigger] text[j] != '{' by {
        assert(text.contains(text[j]));
    }
    lemma_pair_not_before(text, '{', '{', n);
    lemma_index_from(text, open_mark(), 0);
}

/// A template that compares a variable with a text keeps what it should: of
/// `{{if name != "with"}}a{{else}}b{{end}}` it keeps `b` exactly where the value is the text,
/// and with `==` in place of `!=` it keeps `a` exactly there.
#[verifier::spinoff_prover]
#[verifier::rlimit(30)]
pub proof fn law_templates_compare(
    name: Seq<char>,
    with: Seq<char>,
    equal: bool,
    a: Seq<char>,
    b: Seq<char>,
    vars: Seq<(Seq<char>, Seq<char>)>,
    known: Known,
)
    requires
        name.len() > 0,
        !name.contains('='),
        !name.contains('!'),
        !name.contains('}'),
        !with.contains('}'),
        !is_space(name[0]),
        !is_space(name.last()),
        !a.contains('{'),
        !b.contains('{'),
        lookup(vars, name) is Some,
    ensures
        expanded(
            tokens(
                seq!['{', '{', 'i', 'f', ' '] + written(name, seq![' '], equal, seq![' '], with)
                    + seq!['}', '}'] + a + seq!['{', '{', 'e', 'l', 's', 'e', '}', '}'] + b + seq![
                    '{',
                    '{',
                    'e',
                    'n',
                    'd',
                    '}',
                    '}',
                ],
            ),
            Seq::empty(),
            vars,
            known,
        ) == Ok::<Seq<char>, Fault>(
            if (lookup(vars, name) == Some(with)) == equal {
                a
            } else {
                b
            },
        ),
{
    let cond = written(name, seq![' '], equal, seq![' '], with);
    let tag = seq!['i', 'f', ' '] + cond;
    let none = Seq::<char>::empty();
    let otherwise = seq!['e', 'l', 's', 'e'];
    let end = seq!['e', 'n', 'd'];
    let third = b + seq!['{', '{'] + end + seq!['}', '}'] + none;
    let second = a + seq!['{', '{'] + otherwise + seq!['}', '}'] + third;
    let all = none + seq!['{', '{'] + tag + seq!['}', '}'] + second;
    assert(all =~= seq!['{', '{', 'i', 'f', ' '] + cond + seq!['}', '}'] + a + seq![
        '{',
        '{',
        'e',
        'l',
        's',
        'e',
        '}',
        '}',
    ] + b + seq!['{', '{', 'e', 'n', 'd', '}', '}']);
    assert(cond[0] == name[0]);
    assert(cond.last() == '"');
    if tag.contains('}') {
        let j = choose|j: int| 0 <= j < tag.len() && tag[j] == '}';
        let k = j - 3;
        let n = name.len() as int;
        assert(j >= 3);
        assert(tag[j] == cond[k]);
        if k < n {
            assert(cond[k] == name[k]);
            assert(name.contains('}'));
        } else if n + 5 <= k < n + 5 + with.len() {
            assert(cond[k] == with[k - n - 5]);
            assert(with.contains('}'));
        } else {
            assert(false);
        }
    }
    law_what_tags_ask_for(' ', cond, tag);
    lemma_trimmed_spaces(none, tag, none);
    assert(tag[0] == 'i');
    assert(tag.last() == cond.last());
    assert(none + tag + none =~= tag);
    lemma_trimmed_spaces(none, otherwise, none);
    assert(none + otherwise + none =~= otherwise);
    lemma_trimmed_spaces(none, end, none);
    assert(none + end + none =~= end);
    law_tags_stand_between_marks(none, tag, second);
    law_tags_stand_between_marks(a, otherwise, third);
    law_tags_stand_between_marks(b, end, none);
    law_tags_stand_between_marks(none, none, none);
    law_unequal_is_the_opposite_of_equal(name, seq![' '], seq![' '], with, vars);
    let first = seq![Token::Text(a)];
    let last = seq![Token::Text(b)];
    let rest = seq![Token::Text(none)];
    let inner = seq![Token::Tag(tag)] + first + seq![Token::Tag(otherwise)] + last + seq![
        Token::Tag(end),
    ] + rest;
    assert(tokens(all) =~= seq![Token::Text(none)] + inner);
    assert(tokens(all).drop_first() =~= inner);
    lemma_text_alone(a, vars, known);
    lemma_text_alone(b, vars, known);
    lemma_text_alone(none, vars, known);
    law_one_branch_is_kept(tag, cond, first, last, rest, Seq::empty(), vars, known);
    let kept = if (lookup(vars, name) == Some(with)) == equal {
        a
    } else {
        b
    };
    assert(kept + none =~= kept);
    assert(none + kept =~= kept);
    assert(expanded(inner, Seq::empty(), vars, known) == Ok::<Seq<char>, Fault>(kept));
}

proof fn lemma_text_alone(t: Seq<char>, vars: Seq<(Seq<char>, Seq<char>)>, known: Known)
    ensures
        expanded(seq![Token::Text(t)], Seq::empty(), vars, known) == Ok::<Seq<char>, Fault>(t),
        balanced(seq![Token::Text(t)], Seq::empty()),
{
    let one = seq![Token::Text(t)];
    assert(one.drop_first() =~= Seq::empty());
    assert(expanded(one.drop_first(), Seq::empty(), vars, known) == Ok::<Seq<char>, Fault>(
        Seq::empty(),
    ));
    assert(t + Seq::<char>::empty() =~= t);
    assert(balanced(one.drop_first(), Seq::empty()));
}

/// A reference to a secret is a scheme, its mark, and what the provider is asked for; without
/// a scheme before the mark it is none.
pub proof fn law_references_have_a_scheme(scheme: Seq<char>, asked: Seq<char>)
    requires
        !scheme.contains(':'),
    ensures
        scheme.len() > 0 ==> reference_of(scheme + seq![':', '/', '/'] + asked) == Some(
            (scheme, asked),
        ),
        reference_of(scheme) is None,
        reference_of(seq![':', '/', '/'] + asked) is None,
{
    let s = scheme + scheme_mark() + asked;
    let n = scheme.len() as int;
    lemma_mark_behind(scheme, asked);
    assert(s.take(n) =~= scheme);
    assert(s.skip(n + 3) =~= asked);
    lemma_no_mark(scheme);
    lemma_mark_behind(Seq::empty(), asked);
    assert(Seq::<char>::empty() + scheme_mark() + asked =~= scheme_mark() + asked);
}

proof fn lemma_mark_behind(scheme: Seq<char>, asked: Seq<char>)
    requires
        !scheme.contains(':'),
    ensures
        index_of(scheme + scheme_mark() + asked, scheme_mark()) == Some(scheme.len() as int),
{
    let s = scheme + scheme_mark() + asked;
    let n = scheme.len() as int;
    assert forall|j: int| 0 <= j < n implies #[trigger] s[j] != ':' by {
        assert(s[j] == scheme[j]);
        assert(scheme.contains(scheme[j]));
    }
    assert(s.subrange(n, n + 3) =~= scheme_mark());
    lemma_first_mark(s, n);
}

proof fn lemma_first_mark(s: Seq<char>, k: int)
    requires
        occurs(s, scheme_mark(), k),
        forall|j: int| 0 <= j < k ==> #[trigger] s[j] != ':',
    ensures
        index_of(s, scheme_mark()) == Some(k),
{
    let p = scheme_mark();
    lemma_index_from(s, p, 0);
    match index_of(s, p) {
        Some(i) => {
            if i < k {
                assert(s.subrange(i, i + 3)[0] == p[0]);
                assert(s[i] == ':');
            }
        },
        None => {},
    }
}

proof fn lemma_no_mark(s: Seq<char>)
    requires
        !s.contains(':'),
    ensures
        index_of(s, scheme_mark()) is None,
{
    let p = scheme_mark();
    lemma_index_from(s, p, 0);
    if let Some(i) = index_of(s, p) {
        assert(s.subrange(i, i + 3)[0] == s[i]);
        assert(s[i] == ':');
    }
}

/// Whether a part of a template asks for a secret of some scheme.
pub open spec fn asks_for(tok: Token, scheme: Seq<char>) -> bool {
    tok matches Token::Tag(tag) && (order_of(tag) matches Order::Value(name) && (reference_of(name)
        matches Some((s, _)) && s == scheme))
}

/// The schemes of a template are those that some tag of it asks for, each once.
pub proof fn law_schemes_are_those_asked_for(toks: Seq<Token>, scheme: Seq<char>)
    ensures
        schemes_in(toks).contains(scheme) <==> exists|i: int|
            0 <= i < toks.len() && asks_for(#[trigger] toks[i], scheme),
        schemes_in(toks).no_duplicates(),
    decreases toks.len(),
{
    if toks.len() > 0 {
        let head = toks.drop_last();
        law_schemes_are_those_asked_for(head, scheme);
        let all = schemes_in(toks);
        let b = schemes_in(head);
        assert(toks[toks.len() - 1] == toks.last());
        if b.contains(scheme) {
            let k = choose|k: int| 0 <= k < b.len() && b[k] == scheme;
            assert(all[k] == scheme);
            let i = choose|i: int| 0 <= i < head.len() && asks_for(#[trigger] head[i], scheme);
            assert(toks[i] == head[i]);
        }
        if all.len() > b.len() {
            assert(all[all.len() - 1] == all.last());
            if all.contains(scheme) && !b.contains(scheme) {
                let k = choose|k: int| 0 <= k < all.len() && all[k] == scheme;
                if k < b.len() {
                    assert(b[k] == scheme);
                }
            }
        }
        if exists|i: int| 0 <= i < toks.len() && asks_for(#[trigger] toks[i], scheme) {
            let i = choose|i: int| 0 <= i < toks.len() && asks_for(#[trigger] toks[i], scheme);
            if i < head.len() {
                assert(head[i] == toks[i]);
            } else if !b.contains(scheme) {
                assert(all == b.push(scheme));
                assert(all[b.len() as int] == scheme);
            }
        }
        assert forall|i: int, j: int| 0 <= i < j < all.len() implies all[i] != all[j] by {
            if j == b.len() {
                assert(b[i] == all[i]);
                if all[i] == all[j] {
                    assert(b.contains(all[j]));
                }
            }
        }
    }
}

/// A value is that of the variable of its name, or of the secret that was read; nothing else
/// is put in its place.
pub proof fn law_values_are_looked_up(
    name: Seq<char>,
    scheme: Seq<char>,
    asked: Seq<char>,
    vars: Seq<(Seq<char>, Seq<char>)>,
    known: Known,
)
    requires
        !name.contains(':'),
        !scheme.contains(':'),
        scheme.len() > 0,
    ensures
        match lookup(vars, name) {
            Some(v) => value_of(name, vars, known) == Ok::<Seq<char>, Fault>(v),
            None => value_of(name, vars, known) == Err::<Seq<char>, Fault>(
                Fault::UnknownVariable(name),
            ),
        },
        ({
            let reference = scheme + seq![':', '/', '/'] + asked;
            if !known.schemes.contains(scheme) {
                value_of(reference, vars, known) == Err::<Seq<char>, Fault>(
                    Fault::UndeclaredScheme(scheme),
                )
            } else {
                match lookup(known.read, reference) {
                    Some(v) => value_of(reference, vars, known) == Ok::<Seq<char>, Fault>(v),
                    None => value_of(reference, vars, known) == Err::<Seq<char>, Fault>(
                        Fault::Unread(reference),
                    ),
                }
            }
        }),
{
    law_references_have_a_scheme(name, asked);
    law_references_have_a_scheme(scheme, asked);
}

/// A reference that is kept is needed, in its order; nothing else is.
pub proof fn law_one_reference_is_needed(
    tag: Seq<char>,
    text: Seq<char>,
    rest: Seq<Token>,
    stack: Seq<Frame>,
    vars: Seq<(Seq<char>, Seq<char>)>,
)
    requires
        order_of(tag) is Value,
    ensures
        needed(seq![Token::Text(text)] + rest, stack, vars) == needed(rest, stack, vars),
        reference_of(tag) is None ==> needed(seq![Token::Tag(tag)] + rest, stack, vars) == needed(
            rest,
            stack,
            vars,
        ),
        reference_of(tag) is Some && live(stack) && needed(rest, stack, vars) is Ok ==> needed(
            seq![Token::Tag(tag)] + rest,
            stack,
            vars,
        ) == Ok::<Seq<Seq<char>>, Fault>(seq![tag] + needed(rest, stack, vars)->Ok_0),
        reference_of(tag) is Some && !live(stack) ==> needed(
            seq![Token::Tag(tag)] + rest,
            stack,
            vars,
        ) == needed(rest, stack, vars),
{
    let a = seq![Token::Text(text)] + rest;
    let b = seq![Token::Tag(tag)] + rest;
    assert(a[0] == Token::Text(text));
    assert(a.drop_first() =~= rest);
    assert(b[0] == Token::Tag(tag));
    assert(b.drop_first() =~= rest);
    assert(order_of(tag) == Order::Value(tag));
}

/// Text is kept as it is, and a tag that asks for a value is replaced by it.
pub proof fn law_one_part_expands(
    tag: Seq<char>,
    text: Seq<char>,
    vars: Seq<(Seq<char>, Seq<char>)>,
    known: Known,
)
    requires
        order_of(tag) is Value,
    ensures
        expanded(seq![Token::Text(text)], Seq::empty(), vars, known) == Ok::<Seq<char>, Fault>(text),
        expanded(seq![Token::Tag(tag)], Seq::empty(), vars, known) == value_of(tag, vars, known),
        expanded(Seq::empty(), Seq::empty(), vars, known) == Ok::<Seq<char>, Fault>(Seq::empty()),
{
    lemma_text_alone(text, vars, known);
    let one = seq![Token::Tag(tag)];
    assert(one.drop_first() =~= Seq::empty());
    assert(expanded(one.drop_first(), Seq::empty(), vars, known) == Ok::<Seq<char>, Fault>(
        Seq::empty(),
    ));
    assert(order_of(tag) == Order::Value(tag));
    if let Ok(v) = value_of(tag, vars, known) {
        assert(v + Seq::<char>::empty() =~= v);
    }
}

/// What opens has to be closed and what closes has to be opened: every template in which
/// that is not so is an error, and which one is told.
pub proof fn law_unbalanced_templates_are_errors(
    tag: Seq<char>,
    cond: Seq<char>,
    rest: Seq<Token>,
    vars: Seq<(Seq<char>, Seq<char>)>,
    known: Known,
)
    requires
        order_of(tag) == Order::If(cond),
        holds_for(cond, vars) is Ok,
    ensures
        expanded(seq![Token::Open] + rest, Seq::empty(), vars, known) == Err::<Seq<char>, Fault>(
            Fault::Unterminated,
        ),
        expanded(
            seq![Token::Tag(seq!['e', 'l', 's', 'e'])] + rest,
            Seq::empty(),
            vars,
            known,
        ) == Err::<Seq<char>, Fault>(Fault::StrayElse),
        expanded(
            seq![Token::Tag(seq!['e', 'n', 'd'])] + rest,
            Seq::empty(),
            vars,
            known,
        ) == Err::<Seq<char>, Fault>(Fault::StrayEnd),
        expanded(seq![Token::Tag(tag)], Seq::empty(), vars, known) == Err::<Seq<char>, Fault>(
            Fault::MissingEnd,
        ),
        expanded(
            seq![
                Token::Tag(tag),
                Token::Tag(seq!['e', 'l', 's', 'e']),
                Token::Tag(seq!['e', 'l', 's', 'e']),
            ] + rest,
            Seq::empty(),
            vars,
            known,
        ) == Err::<Seq<char>, Fault>(Fault::StrayElse),
{
    let otherwise = seq!['e', 'l', 's', 'e'];
    let end = seq!['e', 'n', 'd'];
    assert(end.len() != otherwise.len());
    assert(order_of(otherwise) == Order::Else);
    assert(order_of(end) == Order::End);
    let none = Seq::<Frame>::empty();
    let o = seq![Token::Open] + rest;
    assert(o[0] == Token::Open);
    let x = seq![Token::Tag(otherwise)] + rest;
    assert(x[0] == Token::Tag(otherwise));
    let y = seq![Token::Tag(end)] + rest;
    assert(y[0] == Token::Tag(end));
    let open = entered(none, holds_for(cond, vars)->Ok_0);
    let z = seq![Token::Tag(tag)];
    assert(z.drop_first() =~= Seq::empty());
    assert(expanded(z.drop_first(), open, vars, known) == Err::<Seq<char>, Fault>(
        Fault::MissingEnd,
    ));
    let w = seq![Token::Tag(tag), Token::Tag(otherwise), Token::Tag(otherwise)] + rest;
    let w1 = w.drop_first();
    let w2 = w1.drop_first();
    assert(w[0] == Token::Tag(tag));
    assert(w1[0] == Token::Tag(otherwise));
    assert(w2[0] == Token::Tag(otherwise));
    let turn = turned(open);
    assert(!open.last().in_else);
    assert(turn.last().in_else);
    assert(expanded(w2, turn, vars, known) == Err::<Seq<char>, Fault>(Fault::StrayElse));
    assert(expanded(w1, open, vars, known) == expanded(w2, turn, vars, known));
}

/// A template is text up to the first opening mark, whatever braces stand in it, then a tag
/// up to the first closing mark behind that, and then the same again.
pub proof fn law_first_marks_count(text: Seq<char>, tag: Seq<char>, rest: Seq<char>)
    requires
        index_of(text + seq!['{', '{'] + tag + seq!['}', '}'] + rest, seq!['{', '{']) == Some(
            text.len() as int,
        ),
        index_of(tag + seq!['}', '}'] + rest, seq!['}', '}']) == Some(tag.len() as int),
    ensures
        tokens(text + seq!['{', '{'] + tag + seq!['}', '}'] + rest) == seq![
            Token::Text(text),
            Token::Tag(trimmed(tag)),
        ] + tokens(rest),
{
    let s = text + seq!['{', '{'] + tag + seq!['}', '}'] + rest;
    let n = text.len() as int;
    let after = s.skip(n + 2);
    let m = tag.len() as int;
    assert(after =~= tag + seq!['}', '}'] + rest);
    assert(s.take(n) =~= text);
    assert(after.take(m) =~= tag);
    assert(after.skip(m + 2) =~= rest);
}

/// Something is a reference exactly where something stands before the first mark of a
/// scheme; the scheme is what stands before it, and what is asked for all that follows.
#[verifier::spinoff_prover]
#[verifier::rlimit(30)]
pub proof fn law_what_is_a_reference(s: Seq<char>)
    ensures
        reference_of(s) is None <==> index_of(s, seq![':', '/', '/']) is None || index_of(
            s,
            seq![':', '/', '/'],
        ) == Some(0int),
        reference_of(s) matches Some((scheme, asked)) ==> s == scheme + seq![':', '/', '/'] + asked
            && index_of(s, seq![':', '/', '/']) == Some(scheme.len() as int),
{
    law_found_at_the_first_place(s, scheme_mark());
    if let Some(i) = index_of(s, scheme_mark()) {
        assert(s.take(i).len() == i);
    }
}

} // verus!
