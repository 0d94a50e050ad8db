//! Fetching secrets: the commands that providers run, and the cache of what they printed.
use crate::table::{
    keys_of, law_lookup_after_put, lookup, plain, put, put_text, text_under, Table,
};
use crate::template::{law_references_have_a_scheme, reference_of, value_of, Fault, Known};
use crate::text::{
    cat3, chars_of, index_of, is_space, join, joined, law_every_place_is_replaced,
    law_words_stand_between_spaces, lemma_index_from, lemma_texts_empty, lemma_texts_push, occurs,
    replace, replaced, same_text, space, string_of, texts, words_of,
};
use vstd::prelude::*;
use vstd::slice::slice_subrange;

verus! {

/// How the secrets of a scheme are fetched.
pub struct Provider {
    /// The command to run; `{}` becomes the part of the reference behind `://`.
    pub command: String,
    /// Whether the line feed that ends the output is dropped.
    pub trim: bool,
}

/// The characters so far of a word that may not have started.
pub open spec fn so_far(word: Option<Seq<char>>) -> Seq<char> {
    match word {
        Some(w) => w,
        None => Seq::empty(),
    }
}

/// The words of the rest of a command line: `word` is the word at hand, `quote` the quote
/// that is open. White space outside quotes ends a word; quotes group and are dropped.
pub open spec fn command_words(
    s: Seq<char>,
    word: Option<Seq<char>>,
    quote: Option<char>,
) -> Seq<Seq<char>>
    decreases s.len(),
{
    if s.len() == 0 {
        match word {
            Some(w) => seq![w],
            None => seq![],
        }
    } else {
        let c = s[0];
        let rest = s.drop_first();
        match quote {
            Some(q) => if c == q {
                command_words(rest, Some(so_far(word)), None)
            } else {
                command_words(rest, Some(so_far(word).push(c)), quote)
            },
            None => if c == '"' || c == '\'' {
                command_words(rest, Some(so_far(word)), Some(c))
            } else if is_space(c) {
                match word {
                    Some(w) => seq![w] + command_words(rest, None, None),
                    None => command_words(rest, None, None),
                }
            } else {
                command_words(rest, Some(so_far(word).push(c)), None)
            },
        }
    }
}

fn started(word: Option<String>) -> (r: String)
    ensures
        r@ == (match word {
            Some(w) => w@,
            None => Seq::empty(),
        }),
{
    match word {
        Some(w) => w,
        None => String::new(),
    }
}

/// Splits a command line into its words.
pub fn shell_words(command: &str) -> (r: Vec<String>)
    ensures
        texts(r@) == command_words(command@, None, None),
{
    let c = chars_of(command);
    let ghost all = c@;
    let ghost goal = command_words(all, None, None);
    let mut out: Vec<String> = Vec::new();
    let mut word: Option<String> = None;
    let mut quote: Option<char> = None;
    proof {
        lemma_texts_empty();
        assert(all.skip(0) =~= all);
        assert(Seq::<Seq<char>>::empty() + goal =~= goal);
    }
    for i in 0..c.len()
        invariant
            c@ == all,
            goal == command_words(all, None, None),
            texts(out@) + command_words(
                all.skip(i as int),
                match word {
                    Some(w) => Some(w@),
                    None => None,
                },
                quote,
            ) == goal,
    {
        broadcast use lemma_texts_push;

        let ghost made = texts(out@);
        let ghost rest = all.skip(i as int);
        assert(rest[0] == all[i as int]);
        assert(rest.drop_first() =~= all.skip(i + 1));
        let x = c[i];
        match quote {
            Some(q) => {
                let mut at_hand = started(word.take());
                if x == q {
                    quote = None;
                } else {
                    at_hand.push(x);
                }
                word = Some(at_hand);
            },
            None => {
                if x == '"' || x == '\'' {
                    quote = Some(x);
                    word = Some(started(word.take()));
                } else if space(x) {
                    match word.take() {
                        Some(w) => {
                            proof {
                                let tail = command_words(all.skip(i + 1), None, None);
                                assert(made + (seq![w@] + tail) =~= made.push(w@) + tail);
                            }
                            out.push(w);
                        },
                        None => {},
                    }
                } else {
                    let mut at_hand = started(word.take());
                    at_hand.push(x);
                    word = Some(at_hand);
                }
            },
        }
    }
    assert(all.skip(all.len() as int) =~= Seq::<char>::empty());
    match word {
        Some(w) => {
            proof {
                lemma_texts_push(out@, w);
                assert(texts(out@) + seq![w@] =~= texts(out@).push(w@));
            }
            out.push(w);
        },
        None => {
            assert(texts(out@) + Seq::<Seq<char>>::empty() =~= texts(out@));
        },
    }
    out
}

/// What a command line has in place of an argument.
pub open spec fn hole() -> Seq<char> {
    seq!['{', '}']
}

/// The words with the argument put in each place for it.
pub open spec fn filled(words: Seq<Seq<char>>, arg: Seq<char>) -> Seq<Seq<char>> {
    words.map_values(|w: Seq<char>| replaced(w, hole(), arg))
}

/// Puts an argument in each place for it. The argument stays inside its word, whatever
/// characters it holds.
pub fn fill(words: &Vec<String>, arg: &str) -> (r: Vec<String>)
    ensures
        texts(r@) == filled(texts(words@), arg@),
{
    proof {
        reveal_strlit("{}");
        assert("{}"@ =~= hole());
        lemma_texts_empty();
    }
    let mut out: Vec<String> = Vec::new();
    for i in 0..words.len()
        invariant
            "{}"@ == hole(),
            texts(out@) == filled(texts(words@), arg@).take(i as int),
    {
        let w = chars_of(words[i].as_str());
        let x = replace(w.as_slice(), "{}", arg);
        proof {
            lemma_texts_push(out@, x);
            assert(filled(texts(words@), arg@).take(i + 1) =~= filled(texts(words@), arg@).take(
                i as int,
            ).push(x@));
        }
        out.push(x);
    }
    assert(filled(texts(words@), arg@).take(words@.len() as int) =~= filled(
        texts(words@),
        arg@,
    ));
    out
}

/// Filling in an argument adds no word and takes none away, and a word without a gap stays
/// as it is: whatever the argument holds, it ends no word and starts none.
pub proof fn law_filling_keeps_words(words: Seq<Seq<char>>, arg: Seq<char>, i: int)
    requires
        0 <= i < words.len(),
    ensures
        filled(words, arg).len() == words.len(),
        filled(words, arg)[i] == filled(seq![words[i]], arg)[0],
        index_of(words[i], hole()) is None ==> filled(words, arg)[i] == words[i],
{
}

/// The providers where none is declared: `op` alone.
pub fn default_providers() -> (r: Table<Provider>)
    ensures
        r@.len() == 1,
        r@[0].0 == "op"@,
        r@[0].1.command@ == "op read --no-newline op://{}"@,
        r@[0].1.trim,
{
    let mut out: Table<Provider> = Table::new();
    out.insert(
        "op".to_owned(),
        Provider { command: "op read --no-newline op://{}".to_owned(), trim: true },
    );
    out
}

/// The providers that serve: those declared, or the default where none is.
pub fn providers_in_use(declared: Table<Provider>) -> (r: Table<Provider>)
    ensures
        declared@.len() > 0 ==> r@ == declared@,
        declared@.len() == 0 ==> {
            &&& r@.len() == 1
            &&& r@[0].0 == "op"@
            &&& r@[0].1.command@ == "op read --no-newline op://{}"@
            &&& r@[0].1.trim
        },
{
    if declared.is_empty() {
        default_providers()
    } else {
        declared
    }
}

/// Why a secret cannot be asked for.
pub enum SecretError {
    /// What is asked for is not a reference to a secret.
    NotAReference,
    /// The scheme, and those that providers serve.
    UndeclaredScheme { scheme: String, declared: Vec<String> },
    /// The provider of the scheme has nothing to run.
    EmptyCommand { scheme: String },
}

impl SecretError {
    /// The error in words.
    pub fn message(&self) -> (r: String)
        ensures
            r@ == match *self {
                SecretError::NotAReference => "not a reference to a secret"@,
                SecretError::UndeclaredScheme { scheme, declared } =>
                    "no provider is declared for `"@ + scheme@ + "://`; declared: "@ + joined(
                    texts(declared@),
                    ", "@,
                ),
                SecretError::EmptyCommand { scheme } => "the command of provider `"@ + scheme@
                    + "` is empty"@,
            },
    {
        match self {
            SecretError::NotAReference => "not a reference to a secret".to_owned(),
            SecretError::UndeclaredScheme { scheme, declared } => {
                let mut words = cat3(
                    "no provider is declared for `",
                    scheme.as_str(),
                    "://`; declared: ",
                );
                words.append(join(declared, ", ").as_str());
                words
            },
            SecretError::EmptyCommand { scheme } => cat3(
                "the command of provider `",
                scheme.as_str(),
                "` is empty",
            ),
        }
    }
}

/// What a provider printed, as the secret.
pub open spec fn printed(output: Seq<char>, trim: bool) -> Seq<char> {
    if trim && output.len() > 0 && output.last() == '\n' {
        output.drop_last()
    } else {
        output
    }
}

/// The references that have not been read, each once, in the order in which they first
/// occur.
pub open spec fn still_unread(
    refs: Seq<Seq<char>>,
    read: Seq<(Seq<char>, Seq<char>)>,
) -> Seq<Seq<char>>
    decreases refs.len(),
{
    if refs.len() == 0 {
        seq![]
    } else {
        let before = still_unread(refs.drop_last(), read);
        if lookup(read, refs.last()) is Some || before.contains(refs.last()) {
            before
        } else {
            before.push(refs.last())
        }
    }
}

/// Whether a list of texts holds a text.
pub fn text_listed(v: &Vec<String>, s: &str) -> (r: bool)
    ensures
        r == texts(v@).contains(s@),
{
    for i in 0..v.len()
        invariant
            forall|j: int| 0 <= j < i ==> (#[trigger] v@[j])@ != s@,
    {
        if same_text(v[i].as_str(), s) {
            assert(texts(v@)[i as int] == s@);
            return true;
        }
    }
    proof {
        if texts(v@).contains(s@) {
            let j = choose|j: int| 0 <= j < texts(v@).len() && texts(v@)[j] == s@;
            assert(v@[j]@ == s@);
        }
    }
    false
}

/// The secrets that have been read, and the providers that read them. The same reference
/// is read once.
pub struct SecretCache {
    /// From schemes to providers.
    pub providers: Table<Provider>,
    /// From references to what was read.
    pub seen: Table<String>,
}

impl Default for SecretCache {
    fn default() -> (r: Self)
        ensures
            r.providers@.len() == 1,
            r.providers@[0].0 == "op"@,
            r.providers@[0].1.command@ == "op read --no-newline op://{}"@,
            r.providers@[0].1.trim,
            r.seen@ == Seq::<(Seq<char>, String)>::empty(),
    {
        SecretCache::with(default_providers())
    }
}

impl SecretCache {
    /// What is known of secrets.
    pub open spec fn known(&self) -> Known {
        Known {
            schemes: Set::new(|k: Seq<char>| lookup(self.providers@, k) is Some),
            read: plain(self.seen@),
        }
    }

    /// A cache that has read nothing yet.
    pub fn with(providers: Table<Provider>) -> (r: Self)
        ensures
            r.providers@ == providers@,
            r.seen@ == Seq::<(Seq<char>, String)>::empty(),
    {
        SecretCache { providers, seen: Table::new() }
    }

    /// The words of the command that reads a reference.
    pub fn command(&self, reference: &str) -> (r: Result<Vec<String>, SecretError>)
        ensures
            match reference_of(reference@) {
                None => r == Err::<Vec<String>, SecretError>(SecretError::NotAReference),
                Some((scheme, rest)) => match lookup(self.providers@, scheme) {
                    None => {
                        &&& r matches Err(SecretError::UndeclaredScheme { scheme: s, declared })
                        &&& s@ == scheme
                        &&& texts(declared@) == keys_of(self.providers@)
                    },
                    Some(provider) => {
                        let words = command_words(provider.command@, None, None);
                        if words.len() == 0 {
                            r matches Err(SecretError::EmptyCommand { scheme: s }) && s@ == scheme
                        } else {
                            r matches Ok(v) && texts(v@) == filled(words, rest)
                        }
                    },
                },
            },
    {
        let c = chars_of(reference);
        match crate::render::split_reference(c.as_slice()) {
            None => Err(SecretError::NotAReference),
            Some((scheme, rest)) => {
                let scheme = string_of(scheme);
                let rest = string_of(rest);
                match self.providers.get(scheme.as_str()) {
                    None => Err(
                        SecretError::UndeclaredScheme { scheme, declared: self.providers.keys() },
                    ),
                    Some(provider) => {
                        let words = shell_words(provider.command.as_str());
                        assert(texts(words@).len() == words@.len());
                        if words.len() == 0 {
                            Err(SecretError::EmptyCommand { scheme })
                        } else {
                            Ok(fill(&words, rest.as_str()))
                        }
                    },
                }
            },
        }
    }

    /// Records what the provider of a reference printed for it.
    pub fn learn(&mut self, reference: &str, output: &str)
        ensures
            final(self).providers@ == old(self).providers@,
            match reference_of(reference@) {
                Some((scheme, _)) => match lookup(old(self).providers@, scheme) {
                    Some(provider) => plain(final(self).seen@) == put(
                        plain(old(self).seen@),
                        reference@,
                        printed(output@, provider.trim),
                    ),
                    None => final(self).seen@ == old(self).seen@,
                },
                None => final(self).seen@ == old(self).seen@,
            },
            plain(final(self).seen@) == learned(
                plain(old(self).seen@),
                old(self).providers@,
                reference@,
                output@,
            ),
    {
        let c = chars_of(reference);
        match crate::render::split_reference(c.as_slice()) {
            None => {},
            Some((scheme, _)) => {
                let scheme = string_of(scheme);
                let trim = match self.providers.get(scheme.as_str()) {
                    None => {
                        return ;
                    },
                    Some(provider) => provider.trim,
                };
                let o = chars_of(output);
                let value = if trim && o.len() > 0 && o[o.len() - 1] == '\n' {
                    let head = slice_subrange(o.as_slice(), 0, o.len() - 1);
                    assert(head@ =~= output@.drop_last());
                    string_of(head)
                } else {
                    output.to_owned()
                };
                put_text(&mut self.seen, reference.to_owned(), value);
            },
        }
    }

    /// The references that are still to be read.
    pub fn unread(&self, refs: &Vec<String>) -> (r: Vec<String>)
        ensures
            texts(r@) == still_unread(texts(refs@), plain(self.seen@)),
    {
        let ghost all = texts(refs@);
        let ghost read = plain(self.seen@);
        let mut out: Vec<String> = Vec::new();
        proof {
            lemma_texts_empty();
            assert(all.take(0) =~= Seq::empty());
        }
        for i in 0..refs.len()
            invariant
                all == texts(refs@),
                read == plain(self.seen@),
                texts(out@) == still_unread(all.take(i as int), read),
        {
            broadcast use lemma_texts_push;

            proof {
                let t = all.take(i + 1);
                assert(t.drop_last() =~= all.take(i as int));
                assert(t.last() == refs@[i as int]@);
            }
            let name = &refs[i];
            if text_under(&self.seen, name.as_str()).is_none() && !text_listed(
                &out,
                name.as_str(),
            ) {
                out.push(name.clone());
            }
        }
        assert(all.take(all.len() as int) =~= all);
        out
    }
}

/// What is learned of a reference is what takes its place in a template, and every other
/// reference keeps what was known of it.
pub proof fn law_learned_secrets_are_substituted(
    reference: Seq<char>,
    value: Seq<char>,
    vars: Seq<(Seq<char>, Seq<char>)>,
    known: Known,
    other: Seq<char>,
)
    requires
        reference_of(reference) matches Some((scheme, _)) && known.schemes.contains(scheme),
        other != reference,
    ensures
        ({
            let after = Known { schemes: known.schemes, read: put(known.read, reference, value) };
            &&& value_of(reference, vars, after) == Ok::<Seq<char>, Fault>(value)
            &&& value_of(other, vars, after) == value_of(other, vars, known)
        }),
{
    law_lookup_after_put(known.read, reference, value, reference);
    law_lookup_after_put(known.read, reference, value, other);
}

/// A reference is read once: nothing that has been read is left to read, and nothing is
/// left to read twice.
pub proof fn law_a_secret_is_read_once(
    refs: Seq<Seq<char>>,
    read: Seq<(Seq<char>, Seq<char>)>,
)
    ensures
        still_unread(refs, read).no_duplicates(),
        forall|i: int|
            0 <= i < still_unread(refs, read).len() ==> lookup(
                read,
                #[trigger] still_unread(refs, read)[i],
            ) is None,
        forall|i: int|
            0 <= i < refs.len() ==> lookup(read, #[trigger] refs[i]) is Some || still_unread(
                refs,
                read,
            ).contains(refs[i]),
    decreases refs.len(),
{
    if refs.len() > 0 {
        let head = refs.drop_last();
        law_a_secret_is_read_once(head, read);
        let b = still_unread(head, read);
        let r = still_unread(refs, read);
        assert forall|i: int| 0 <= i < refs.len() implies lookup(read, #[trigger] refs[i]) is Some
            || r.contains(refs[i]) by {
            if i < head.len() {
                assert(head[i] == refs[i]);
                if b.contains(refs[i]) {
                    let j = choose|j: int| 0 <= j < b.len() && b[j] == refs[i];
                    assert(r[j] == refs[i]);
                }
            } else if r.len() > b.len() {
                assert(r[b.len() as int] == refs[i]);
            }
        }
    }
}

/// A command without quotes is split into its words at white space.
pub proof fn law_plain_commands_are_split_at_spaces(s: Seq<char>)
    requires
        !s.contains('"'),
        !s.contains('\''),
    ensures
        command_words(s, None, None) == words_of(s),
{
    lemma_plain_words(s, Seq::empty(), None);
    assert(Seq::<char>::empty() + s =~= s);
}

proof fn lemma_plain_words(s: Seq<char>, w: Seq<char>, word: Option<Seq<char>>)
    requires
        !s.contains('"'),
        !s.contains('\''),
        forall|i: int| 0 <= i < w.len() ==> !is_space(#[trigger] w[i]),
        word == if w.len() == 0 {
            None::<Seq<char>>
        } else {
            Some(w)
        },
    ensures
        command_words(s, word, None) == words_of(w + s),
    decreases s.len(),
{
    let all = w + s;
    law_words_stand_between_spaces(w, ' ', s);
    if s.len() == 0 {
        assert(all =~= w);
        if w.len() == 0 {
            assert(w =~= Seq::empty());
            assert(words_of(all) =~= Seq::empty());
        }
    } else {
        let c = s[0];
        let rest = s.drop_first();
        assert(s.contains(c));
        assert forall|x: char| #[trigger] rest.contains(x) implies s.contains(x) by {
            let i = choose|i: int| 0 <= i < rest.len() && rest[i] == x;
            assert(s[i + 1] == x);
        }
        let none = Seq::<char>::empty();
        if is_space(c) {
            assert(all =~= w + seq![c] + rest);
            law_words_stand_between_spaces(w, c, rest);
            lemma_plain_words(rest, none, None);
            assert(none + rest =~= rest);
            if w.len() == 0 {
                assert(w =~= none);
                assert(words_of(w) + words_of(rest) =~= words_of(rest));
            }
        } else {
            let longer = w.push(c);
            assert(all =~= longer + rest);
            assert forall|i: int| 0 <= i < longer.len() implies !is_space(#[trigger] longer[i]) by {
                if i < w.len() {
                    assert(longer[i] == w[i]);
                }
            }
            if w.len() == 0 {
                assert(none.push(c) =~= longer);
            }
            lemma_plain_words(rest, longer, Some(longer));
        }
    }
}

/// What stands in quotes belongs to one word, white space included, and the quotes are left
/// out; quotes with nothing between them make an empty word.
pub proof fn law_quotes_hold_a_word_together(
    quote: char,
    x: Seq<char>,
    rest: Seq<char>,
    word: Option<Seq<char>>,
)
    requires
        quote == '"' || quote == '\'',
        !x.contains(quote),
    ensures
        command_words(seq![quote] + x + seq![quote] + rest, word, None) == command_words(
            rest,
            Some(so_far(word) + x),
            None,
        ),
{
    let s = seq![quote] + x + seq![quote] + rest;
    assert(s[0] == quote);
    assert(s.drop_first() =~= x + seq![quote] + rest);
    lemma_quoted(quote, x, rest, so_far(word));
}

proof fn lemma_quoted(quote: char, x: Seq<char>, rest: Seq<char>, w: Seq<char>)
    requires
        !x.contains(quote),
    ensures
        command_words(x + seq![quote] + rest, Some(w), Some(quote)) == command_words(
            rest,
            Some(w + x),
            None,
        ),
    decreases x.len(),
{
    let s = x + seq![quote] + rest;
    if x.len() == 0 {
        assert(s[0] == quote);
        assert(s.drop_first() =~= rest);
        assert(w + x =~= w);
    } else {
        let tail = x.drop_first();
        assert(x.contains(x[0]));
        assert(s[0] == x[0]);
        assert(s.drop_first() =~= tail + seq![quote] + rest);
        if tail.contains(quote) {
            let i = choose|i: int| 0 <= i < tail.len() && tail[i] == quote;
            assert(x[i + 1] == quote);
        }
        lemma_quoted(quote, tail, rest, w.push(x[0]));
        assert(w.push(x[0]) + tail =~= w + x);
    }
}

/// Of what a provider prints, the line feed at its end is left out where that is asked for,
/// and nothing else is.
pub proof fn law_one_line_feed_is_left_out(output: Seq<char>)
    ensures
        printed(output.push('\n'), true) == output,
        printed(output, false) == output,
        output.len() == 0 || output.last() != '\n' ==> printed(output, true) == output,
{
    assert(output.push('\n').drop_last() =~= output);
}

/// The argument takes the place of every gap in a word.
pub proof fn law_gaps_are_filled(arg: Seq<char>, word: Seq<char>)
    ensures
        filled(seq![seq!['{', '}']], arg) == seq![arg],
        index_of(word, seq!['{', '}']) is None ==> filled(seq![word], arg) == seq![word],
        index_of(word, seq!['{', '}']) matches Some(i) ==> filled(seq![word], arg)[0] == word.take(i)
            + arg + filled(seq![word.skip(i + 2)], arg)[0],
{
    let none = Seq::<char>::empty();
    let p = hole();
    lemma_index_from(p, p, 0);
    assert(p.subrange(0, 2) =~= p);
    assert(occurs(p, p, 0));
    assert(none + p + none =~= p);
    law_every_place_is_replaced(none, p, none, arg);
    lemma_index_from(none, p, 0);
    assert(none + arg + none =~= arg);
    assert(filled(seq![p], arg) =~= seq![arg]);
    law_every_place_is_replaced(word, p, none, arg);
    lemma_index_from(word, p, 0);
    if index_of(word, p) is None {
        assert(filled(seq![word], arg) =~= seq![word]);
    }
}

/// What is left to read is a reference that is needed.
pub proof fn law_only_needed_references_are_read(
    refs: Seq<Seq<char>>,
    read: Seq<(Seq<char>, Seq<char>)>,
    r: Seq<char>,
)
    ensures
        still_unread(refs, read).contains(r) <==> refs.contains(r) && lookup(read, r) is None,
    decreases refs.len(),
{
    if refs.len() > 0 {
        let head = refs.drop_last();
        law_only_needed_references_are_read(head, read, r);
        let all = still_unread(refs, read);
        let before = still_unread(head, read);
        assert(refs[refs.len() - 1] == refs.last());
        if refs.contains(r) && r != refs.last() {
            let k = choose|k: int| 0 <= k < refs.len() && refs[k] == r;
            assert(head[k] == r);
        }
        if head.contains(r) {
            let k = choose|k: int| 0 <= k < head.len() && head[k] == r;
            assert(refs[k] == r);
        }
        if before.contains(r) {
            let k = choose|k: int| 0 <= k < before.len() && before[k] == r;
            assert(all[k] == r);
        }
        if all.len() > before.len() {
            assert(all[before.len() as int] == refs.last());
            if all.contains(r) && r != refs.last() {
                let k = choose|k: int| 0 <= k < all.len() && all[k] == r;
                assert(before[k] == r);
            }
        }
    }
}

/// The providers that are declared are the ones in use; where none is, there is one that
/// serves one scheme.
pub proof fn law_declared_providers_replace_the_default(declared: Table<Provider>, r: Table<Provider>)
    requires
        call_ensures(providers_in_use, (declared,), r),
    ensures
        declared@.len() > 0 ==> r@ == declared@,
        declared@.len() == 0 ==> r@.len() == 1 && lookup(r@, "op"@) is Some,
{
    if declared@.len() == 0 {
        assert(r@[0].0 == "op"@);
    }
}

/// What is run to read a secret is the command of the provider of its scheme, with what the
/// reference asks for in its gaps; there is none for what is no reference, for a scheme that
/// nobody serves and for a command without words.
pub proof fn law_what_is_run_to_read_a_secret(
    cache: &SecretCache,
    reference: &str,
    scheme: Seq<char>,
    asked: Seq<char>,
    r: Result<Vec<String>, SecretError>,
)
    requires
        call_ensures(SecretCache::command, (cache, reference), r),
        scheme.len() > 0,
        !scheme.contains(':'),
        reference@ == scheme + seq![':', '/', '/'] + asked,
    ensures
        r matches Err(SecretError::UndeclaredScheme { .. }) <==> lookup(cache.providers@, scheme)
            is None,
        r matches Err(SecretError::EmptyCommand { .. }) <==> (lookup(cache.providers@, scheme) matches Some(
            p,
        ) && command_words(p.command@, None, None).len() == 0),
        r matches Ok(v) ==> (lookup(cache.providers@, scheme) matches Some(p) && texts(v@) == filled(
            command_words(p.command@, None, None),
            asked,
        )),
        !(r matches Err(SecretError::NotAReference)),
{
    law_references_have_a_scheme(scheme, asked);
}

/// What a provider printed is kept for its reference, as it is asked for, and nothing else
/// that was read changes.
pub proof fn law_what_is_learned(
    seen: Seq<(Seq<char>, Seq<char>)>,
    providers: Seq<(Seq<char>, Provider)>,
    scheme: Seq<char>,
    asked: Seq<char>,
    output: Seq<char>,
    other: Seq<char>,
)
    requires
        scheme.len() > 0,
        !scheme.contains(':'),
    ensures
        ({
            let reference = scheme + seq![':', '/', '/'] + asked;
            let after = learned(seen, providers, reference, output);
            &&& other != reference ==> lookup(after, other) == lookup(seen, other)
            &&& lookup(providers, scheme) is None ==> after == seen
            &&& lookup(providers, scheme) matches Some(p) ==> lookup(after, reference) == Some(
                printed(output, p.trim),
            )
        }),
{
    let reference = scheme + seq![':', '/', '/'] + asked;
    law_references_have_a_scheme(scheme, asked);
    if let Some(p) = lookup(providers, scheme) {
        law_lookup_after_put(seen, reference, printed(output, p.trim), other);
        law_lookup_after_put(seen, reference, printed(output, p.trim), reference);
    }
}

/// What is known of references after a provider has printed something for one of them.
pub open spec fn learned(
    seen: Seq<(Seq<char>, Seq<char>)>,
    providers: Seq<(Seq<char>, Provider)>,
    reference: Seq<char>,
    output: Seq<char>,
) -> Seq<(Seq<char>, Seq<char>)> {
    match reference_of(reference) {
        Some((scheme, _)) => match lookup(providers, scheme) {
            Some(provider) => put(seen, reference, printed(output, provider.trim)),
            None => seen,
        },
        None => seen,
    }
}

/// Every provider serves its scheme, and what is known of references is what was read.
pub proof fn law_what_is_known(cache: SecretCache, scheme: Seq<char>)
    ensures
        cache.known().schemes.contains(scheme) <==> lookup(cache.providers@, scheme) is Some,
        cache.known().read == plain(cache.seen@),
{
}

/// Outside quotes a word goes on until white space ends it, whatever part of it stood in
/// quotes; white space before a word is passed.
pub proof fn law_words_go_on_until_a_space(
    part: Seq<char>,
    space: char,
    rest: Seq<char>,
    word: Seq<char>,
)
    requires
        is_space(space),
        space != '"' && space != '\'',
        forall|i: int|
            0 <= i < part.len() ==> !is_space(#[trigger] part[i]) && part[i] != '"' && part[i]
                != '\'',
    ensures
        command_words(part + rest, Some(word), None) == command_words(rest, Some(word + part), None),
        command_words(seq![space] + rest, Some(word), None) == seq![word] + command_words(
            rest,
            None,
            None,
        ),
        command_words(seq![space] + rest, None, None) == command_words(rest, None, None),
        command_words(Seq::empty(), Some(word), None) == seq![word],
        command_words(Seq::empty(), None, None).len() == 0,
    decreases part.len(),
{
    let s = seq![space] + rest;
    assert(s[0] == space);
    assert(s.drop_first() =~= rest);
    if part.len() == 0 {
        assert(part + rest =~= rest);
        assert(word + part =~= word);
    } else {
        let tail = part.drop_first();
        assert((part + rest)[0] == part[0]);
        assert((part + rest).drop_first() =~= tail + rest);
        assert forall|i: int| 0 <= i < tail.len() implies !is_space(#[trigger] tail[i]) && tail[i]
            != '"' && tail[i] != '\'' by {
            assert(tail[i] == part[i + 1]);
        }
        assert(!is_space(part[0]));
        law_words_go_on_until_a_space(tail, space, rest, word.push(part[0]));
        assert(word.push(part[0]) + tail =~= word + part);
    }
}

} // verus!
