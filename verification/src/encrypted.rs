//! Encrypted files in the repository: the command that opens one, and the key it needs.
use crate::provider::{command_words, hole, shell_words};
use crate::text::{
    cat3, chars_of, index_of, law_every_place_is_replaced, lemma_index_from, lemma_texts_empty,
    lemma_texts_push, occurs, replace, replaced, starts, string_of, strip_prefix, texts,
};
use vstd::prelude::*;

verus! {

/// How the encrypted files of a repository are opened.
pub struct Encryption {
    /// The command to run; `{}` becomes the path of the encrypted file. What it prints is
    /// the plain text.
    pub command: String,
    /// The key. Where it is named and absent, nothing is decrypted yet.
    pub identity: Option<String>,
}

/// What stands for the home directory at the start of a path.
pub open spec fn home_mark() -> Seq<char> {
    seq!['~', '/']
}

/// A path with a leading `~` written out, where the home directory is known.
pub open spec fn home_expanded(p: Seq<char>, home: Option<Seq<char>>) -> Seq<char> {
    match home {
        Some(h) => if starts(p, home_mark()) {
            h + "/"@ + p.skip(2)
        } else {
            p
        },
        None => p,
    }
}

/// The view of a text that may be absent.
pub open spec fn maybe(s: Option<&str>) -> Option<Seq<char>> {
    match s {
        Some(t) => Some(t@),
        None => None,
    }
}

/// Writes a leading `~` out, where the home directory is known.
pub fn expand_home(p: &str, home: Option<&str>) -> (r: String)
    ensures
        r@ == home_expanded(p@, maybe(home)),
{
    proof {
        reveal_strlit("~/");
        assert("~/"@ =~= home_mark());
    }
    let c = chars_of(p);
    match (strip_prefix(c.as_slice(), "~/"), home) {
        (Some(rest), Some(h)) => {
            let rest = string_of(rest);
            cat3(h, "/", rest.as_str())
        },
        _ => p.to_owned(),
    }
}

/// The words of a decryption command for a file.
pub open spec fn decryption_words(
    words: Seq<Seq<char>>,
    file: Seq<char>,
    home: Option<Seq<char>>,
) -> Seq<Seq<char>> {
    words.map_values(|w: Seq<char>| home_expanded(replaced(w, hole(), file), home))
}

/// There is nothing to run: the command has no words.
pub struct EmptyCommand;

impl EmptyCommand {
    /// The error in words.
    pub fn message(&self) -> (r: String)
        ensures
            r@ == "encryption command is empty"@,
    {
        "encryption command is empty".to_owned()
    }
}

impl Encryption {
    /// Whether decrypting can be tried, given whether the key is there. Without a key that
    /// is named, only trying tells.
    pub fn ready(&self, key_exists: bool) -> (r: bool)
        ensures
            r == (self.identity is None || key_exists),
    {
        match &self.identity {
            None => true,
            Some(_) => key_exists,
        }
    }

    /// Where the key is expected.
    pub fn identity_path(&self, home: Option<&str>) -> (r: Option<String>)
        ensures
            match (r, self.identity) {
                (Some(p), Some(id)) => p@ == home_expanded(id@, maybe(home)),
                (None, None) => true,
                _ => false,
            },
    {
        match &self.identity {
            None => None,
            Some(id) => Some(expand_home(id.as_str(), home)),
        }
    }

    /// The words of the command that decrypts a file.
    pub fn decrypt_command(&self, file: &str, home: Option<&str>) -> (r: Result<
        Vec<String>,
        EmptyCommand,
    >)
        ensures
            ({
                let words = command_words(self.command@, None, None);
                match r {
                    Ok(v) => words.len() > 0 && texts(v@) == decryption_words(
                        words,
                        file@,
                        maybe(home),
                    ),
                    Err(_) => words.len() == 0,
                }
            }),
    {
        let words = shell_words(self.command.as_str());
        let ghost all = texts(words@);
        assert(all.len() == words@.len());
        if words.len() == 0 {
            return Err(EmptyCommand);
        }
        proof {
            reveal_strlit("{}");
            assert("{}"@ =~= hole());
            lemma_texts_empty();
        }
        let ghost goal = decryption_words(all, file@, maybe(home));
        let mut out: Vec<String> = Vec::new();
        for i in 0..words.len()
            invariant
                "{}"@ == hole(),
                all == texts(words@),
                goal == decryption_words(all, file@, maybe(home)),
                texts(out@) == goal.take(i as int),
        {
            let w = chars_of(words[i].as_str());
            let named = replace(w.as_slice(), "{}", file);
            let word = expand_home(named.as_str(), home);
            proof {
                lemma_texts_push(out@, word);
                assert(goal.take(i + 1) =~= goal.take(i as int).push(goal[i as int]));
                assert(goal[i as int] == word@);
            }
            out.push(word);
        }
        assert(goal.take(goal.len() as int) =~= goal);
        Ok(out)
    }
}

/// The mark of the home directory at the beginning of a word stands for that directory; any
/// other word stays as it is, and so does every word where no home directory is known.
pub proof fn law_home_is_put_in(word: Seq<char>, rest: Seq<char>, home: Seq<char>)
    ensures
        home_expanded(seq!['~', '/'] + rest, Some(home)) == home + seq!['/'] + rest,
        !(word.len() >= 2 && word[0] == '~' && word[1] == '/') ==> home_expanded(word, Some(home))
            == word,
        home_expanded(word, None) == word,
{
    let p = seq!['~', '/'] + rest;
    assert(p.take(2) =~= home_mark());
    assert(p.skip(2) =~= rest);
    reveal_strlit("/");
    assert("/"@ =~= seq!['/']);
    if starts(word, home_mark()) {
        assert(word.take(2)[0] == word[0] && word.take(2)[1] == word[1]);
    }
}

/// Decryption adds no word and takes none away; a word without a gap and without the mark of
/// the home directory stays as it is, and the file takes the place of a gap.
pub proof fn law_decryption_words(
    words: Seq<Seq<char>>,
    file: Seq<char>,
    home: Option<Seq<char>>,
    i: int,
)
    requires
        0 <= i < words.len(),
    ensures
        decryption_words(words, file, home).len() == words.len(),
        words[i] == seq!['{', '}'] ==> decryption_words(words, file, home)[i] == home_expanded(
            file,
            home,
        ),
        index_of(words[i], seq!['{', '}']) is None ==> decryption_words(words, file, home)[i]
            == home_expanded(words[i], home),
{
    let none = Seq::<char>::empty();
    let p = hole();
    if words[i] == p {
        lemma_index_from(p, p, 0);
        assert(p.subrange(0, 2) =~= p);
        assert(occurs(p, p, 0));
        assert(none + p + none =~= p);
        law_every_place_is_replaced(none, p, none, file);
        lemma_index_from(none, p, 0);
        law_every_place_is_replaced(none, p, none, file);
        assert(none + file + none =~= file);
    }
    law_every_place_is_replaced(words[i], p, none, file);
}

/// Decryption can start where no key is told or the key is there; the key lies where it is
/// told, below the home directory where that is put in.
pub proof fn law_when_decryption_can_start(
    e: &Encryption,
    key_exists: bool,
    home: Option<&str>,
    ready: bool,
    path: Option<String>,
    rest: Seq<char>,
)
    requires
        call_ensures(Encryption::ready, (e, key_exists), ready),
        call_ensures(Encryption::identity_path, (e, home), path),
    ensures
        ready <==> e.identity is None || key_exists,
        path is None <==> e.identity is None,
        path matches Some(p) ==> (home is None ==> p@ == e.identity.unwrap()@),
        path matches Some(p) ==> (home matches Some(h) ==> (e.identity.unwrap()@ == seq!['~', '/']
            + rest ==> p@ == h@ + seq!['/'] + rest)),
{
    if let Some(h) = home {
        law_home_is_put_in(rest, rest, h@);
    }
}

/// A command that decrypts is run with its own words; only one without any is refused.
pub proof fn law_what_is_run_to_decrypt(
    e: &Encryption,
    file: &str,
    home: Option<&str>,
    r: Result<Vec<String>, EmptyCommand>,
)
    requires
        call_ensures(Encryption::decrypt_command, (e, file, home), r),
    ensures
        r is Err <==> command_words(e.command@, None, None).len() == 0,
        r matches Ok(v) ==> v@.len() == command_words(e.command@, None, None).len(),
        r matches Ok(v) ==> forall|i: int|
            0 <= i < v@.len() && index_of(
                command_words(e.command@, None, None)[i],
                seq!['{', '}'],
            ) is None ==> (#[trigger] v@[i])@ == home_expanded(
                command_words(e.command@, None, None)[i],
                maybe(home),
            ),
{
    let words = command_words(e.command@, None, None);
    if let Ok(v) = r {
        assert(texts(v@).len() == v@.len());
        assert forall|i: int|
            0 <= i < v@.len() && index_of(words[i], seq!['{', '}'])
                is None implies (#[trigger] v@[i])@ == home_expanded(words[i], maybe(home)) by {
            law_decryption_words(words, file@, maybe(home), i);
            assert(texts(v@)[i] == v@[i]@);
        }
    }
}

} // verus!
