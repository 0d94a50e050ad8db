//! Generating files: what is rendered or decrypted when, and how it is written.
use crate::manifest::{exact_match, Manifest};
use crate::provider::{
    law_only_needed_references_are_read, still_unread, text_listed, SecretCache,
};
use crate::render::{
    expand_with, names_schemes, references_needed, schemes_used, split_reference, RenderError,
};
use crate::table::{lookup, plain, Table};
use crate::template::{
    all_read, expanded, law_read_secrets_are_enough, needed, reference_of, schemes_in, tokens,
    Fault, Known,
};
use crate::text::{
    cat, cat3, chars_of, join, joined, lemma_texts_empty, lemma_texts_push, string_of, texts,
};
use vstd::prelude::*;

verus! {

/// The mode of what is generated without a secret: an edit that the next run would throw
/// away fails to save.
pub const GENERATED: u32 = 0o444;

/// The mode of what is generated with a secret.
pub const SECRET: u32 = 0o400;

/// The mode that an output is written with.
pub open spec fn output_mode_of(m: Manifest, out: Seq<char>, secret: bool) -> u32 {
    match m.mode_at(out) {
        Some(mode) => mode,
        None => if secret {
            SECRET
        } else {
            GENERATED
        },
    }
}

/// The mode that an output is written with: the one that is declared for it, or read-only.
pub fn output_mode(m: &Manifest, out: &str, secret: bool) -> (r: u32)
    ensures
        r == output_mode_of(*m, out@, secret),
{
    match m.declared_mode(out) {
        Some(mode) => mode,
        None => if secret {
            SECRET
        } else {
            GENERATED
        },
    }
}

/// The schemes of some references, each once, in the order in which they first occur.
pub open spec fn schemes_of(refs: Seq<Seq<char>>) -> Seq<Seq<char>>
    decreases refs.len(),
{
    if refs.len() == 0 {
        seq![]
    } else {
        let before = schemes_of(refs.drop_last());
        match reference_of(refs.last()) {
            Some((scheme, _)) => if before.contains(scheme) {
                before
            } else {
                before.push(scheme)
            },
            None => before,
        }
    }
}

fn schemes(refs: &Vec<String>) -> (r: Vec<String>)
    ensures
        texts(r@) == schemes_of(texts(refs@)),
{
    let ghost all = texts(refs@);
    let mut out: Vec<String> = Vec::new();
    proof {
        lemma_texts_empty();
        assert(all.take(0) =~= Seq::empty());
    }
    for i in 0..refs.len()
        invariant
            all == texts(refs@),
            texts(out@) == schemes_of(all.take(i as int)),
    {
        broadcast use lemma_texts_push;

        proof {
            let t = all.take(i + 1);
            assert(t.drop_last() =~= all.take(i as int));
            assert(t.last() == refs@[i as int]@);
        }
        let c = chars_of(refs[i].as_str());
        match split_reference(c.as_slice()) {
            Some((scheme, _)) => {
                let scheme = string_of(scheme);
                if !text_listed(&out, scheme.as_str()) {
                    out.push(scheme);
                }
            },
            None => {},
        }
    }
    assert(all.take(all.len() as int) =~= all);
    out
}

/// What is done to render an output.
pub enum RenderStep {
    /// Nothing for now: it needs secrets and none were asked for. The schemes of those.
    Deferred(Vec<String>),
    /// These secrets are read first.
    Read(Vec<String>),
    /// The output is written.
    Write { text: String, mode: u32 },
    /// The output would be written, had this been no dry run.
    Pending,
}

impl RenderStep {
    /// What is left of a step in a run. A dry run reads no secret and writes no output.
    pub open spec fn in_run(self, dry_run: bool) -> RenderStep {
        if dry_run && (self is Read || self is Write) {
            RenderStep::Pending
        } else {
            self
        }
    }

    /// What is left of a step in a run.
    pub fn carried_out(self, dry_run: bool) -> (r: RenderStep)
        ensures
            r == self.in_run(dry_run),
    {
        if dry_run {
            match self {
                RenderStep::Read(_) => RenderStep::Pending,
                RenderStep::Write { .. } => RenderStep::Pending,
                step => step,
            }
        } else {
            self
        }
    }
}

/// An output to render.
pub struct Rendering {
    /// The path of the output.
    pub out: String,
    /// The path of the template.
    pub source: String,
    /// The text of the template.
    pub template: String,
}

/// Decides what is done to render an output, as far as secrets have been read. Without
/// `secrets` no secret is asked for: a template that needs one is left for later. So is a
/// template that refers to a secret and has a fault, which comes to light with `secrets`.
pub fn render_step(
    m: &Manifest,
    output: &Rendering,
    vars: &Table<String>,
    cache: &SecretCache,
    secrets: bool,
) -> (r: Result<RenderStep, RenderError>)
    ensures
        ({
            let toks = tokens(output.template@);
            match needed(toks, Seq::empty(), plain(vars@)) {
                Err(f) => if !secrets && schemes_in(toks).len() > 0 {
                    r matches Ok(RenderStep::Deferred(v)) && texts(v@) == schemes_in(toks)
                } else {
                    r matches Err(e) && e.problem@ == f && e.source@ == output.source@
                },
                Ok(refs) => {
                    let unread = still_unread(refs, plain(cache.seen@));
                    if refs.len() > 0 && !secrets {
                        r matches Ok(RenderStep::Deferred(v)) && texts(v@) == schemes_of(refs)
                    } else if unread.len() > 0 {
                        r matches Ok(RenderStep::Read(v)) && texts(v@) == unread
                    } else {
                        match expanded(toks, Seq::empty(), plain(vars@), cache.known()) {
                            Ok(s) => r matches Ok(RenderStep::Write { text, mode }) && text@ == s
                                && mode == output_mode_of(*m, output.out@, refs.len() > 0),
                            Err(f) => r matches Err(e) && e.problem@ == f && e.source@
                                == output.source@ && names_schemes(e.problem, cache.providers@),
                        }
                    }
                },
            }
        }),
{
    let refs = match references_needed(output.template.as_str(), vars, output.source.as_str()) {
        Err(e) => {
            if !secrets {
                let used = schemes_used(output.template.as_str());
                assert(texts(used@).len() == used@.len());
                if used.len() > 0 {
                    return Ok(RenderStep::Deferred(used));
                }
            }
            return Err(e);
        },
        Ok(refs) => refs,
    };
    assert(texts(refs@).len() == refs@.len());
    if refs.len() > 0 && !secrets {
        return Ok(RenderStep::Deferred(schemes(&refs)));
    }
    let unread = cache.unread(&refs);
    assert(texts(unread@).len() == unread@.len());
    if unread.len() > 0 {
        return Ok(RenderStep::Read(unread));
    }
    match expand_with(output.template.as_str(), vars, output.source.as_str(), cache) {
        Err(e) => Err(e),
        Ok(text) => Ok(
            RenderStep::Write { text, mode: output_mode(m, output.out.as_str(), refs.len() > 0) },
        ),
    }
}

/// What is done about the encrypted files.
#[derive(Debug, Clone, Copy, PartialEq, Eq, Structural)]
pub enum DecryptStep {
    /// There are none.
    Nothing,
    /// The key is not there yet.
    Deferred,
    /// They are decrypted.
    Decrypt,
    /// They would be decrypted, had this been no dry run.
    Pending,
}

impl DecryptStep {
    /// What is left of a step in a run. A dry run decrypts nothing.
    pub open spec fn in_run(self, dry_run: bool) -> DecryptStep {
        if dry_run && self is Decrypt {
            DecryptStep::Pending
        } else {
            self
        }
    }

    /// What is left of a step in a run.
    pub fn carried_out(self, dry_run: bool) -> (r: DecryptStep)
        ensures
            r == self.in_run(dry_run),
    {
        match self {
            DecryptStep::Decrypt if dry_run => DecryptStep::Pending,
            step => step,
        }
    }
}

/// Files are declared as encrypted, but not how they are opened.
pub struct NoEncryption;

impl NoEncryption {
    /// The error in words.
    pub fn message(&self) -> (r: String)
        ensures
            r@ == "encrypted files are declared but [encryption] is not"@,
    {
        "encrypted files are declared but [encryption] is not".to_owned()
    }
}

/// Decides what is done about the encrypted files, given whether the key is there.
pub fn decrypt_step(m: &Manifest, key_exists: bool) -> (r: Result<DecryptStep, NoEncryption>)
    ensures
        if m.encrypted@.len() == 0 {
            r == Ok::<DecryptStep, NoEncryption>(DecryptStep::Nothing)
        } else {
            match m.encryption {
                None => r is Err,
                Some(enc) => if enc.identity is None || key_exists {
                    r == Ok::<DecryptStep, NoEncryption>(DecryptStep::Decrypt)
                } else {
                    r == Ok::<DecryptStep, NoEncryption>(DecryptStep::Deferred)
                },
            }
        },
{
    if m.encrypted.is_empty() {
        return Ok(DecryptStep::Nothing);
    }
    match &m.encryption {
        None => Err(NoEncryption),
        Some(enc) => if enc.ready(key_exists) {
            Ok(DecryptStep::Decrypt)
        } else {
            Ok(DecryptStep::Deferred)
        },
    }
}

/// What was found where an output is to be written.
#[derive(Debug, Clone, Copy, PartialEq, Eq, Structural)]
pub enum Place {
    /// Nothing is there.
    Free,
    /// A file is there.
    File,
    /// A link is there.
    Link,
    /// A directory is there.
    Directory,
    /// The directory it is to be in lies outside the repository.
    Outside,
}

/// Why an output is not written, if it is not. Writing through a link, or in a directory that
/// is reached through one, could overwrite a file outside the repository.
pub open spec fn write_refusal(out: Seq<char>, place: Place) -> Option<Seq<char>> {
    match place {
        Place::Free | Place::File => None,
        Place::Link => Some(out + " is a symlink; refusing to write through it"@),
        Place::Directory => Some(out + " is a directory; refusing to write over it"@),
        Place::Outside => Some(out + " is outside the repository; refusing to write there"@),
    }
}

/// Why an output is not written, if it is not.
pub fn write_refused(out: &str, place: Place) -> (r: Option<String>)
    ensures
        match r {
            Some(s) => write_refusal(out@, place) == Some(s@),
            None => write_refusal(out@, place) is None,
        },
{
    match place {
        Place::Free | Place::File => None,
        Place::Link => Some(cat(out, " is a symlink; refusing to write through it")),
        Place::Directory => Some(cat(out, " is a directory; refusing to write over it")),
        Place::Outside => Some(cat(out, " is outside the repository; refusing to write there")),
    }
}

/// What is done to write an output.
pub enum WriteStep {
    /// It is not written, for this reason.
    Refused(String),
    /// Nothing: it holds this already.
    Unchanged,
    /// It is written.
    Write,
}

fn same_bytes(a: &Vec<u8>, b: &Vec<u8>) -> (r: bool)
    ensures
        r == (a@ == b@),
{
    if a.len() != b.len() {
        return false;
    }
    for i in 0..a.len()
        invariant
            a@.len() == b@.len(),
            forall|k: int| 0 <= k < i ==> a@[k] == b@[k],
    {
        if a[i] != b[i] {
            return false;
        }
    }
    assert(a@ =~= b@);
    true
}

/// Decides what is done to write an output. `current` is what the file holds, where it could
/// be read. A file that holds the same already is not touched.
pub fn write_step(
    out: &str,
    place: Place,
    current: &Option<Vec<u8>>,
    contents: &Vec<u8>,
) -> (r: WriteStep)
    ensures
        match write_refusal(out@, place) {
            Some(why) => r matches WriteStep::Refused(s) && s@ == why,
            None => match *current {
                Some(there) => r == if there@ == contents@ {
                    WriteStep::Unchanged
                } else {
                    WriteStep::Write
                },
                None => r is Write,
            },
        },
{
    if let Some(why) = write_refused(out, place) {
        return WriteStep::Refused(why);
    }
    match current {
        Some(there) => if same_bytes(there, contents) {
            WriteStep::Unchanged
        } else {
            WriteStep::Write
        },
        None => WriteStep::Write,
    }
}

/// What is said of an output that is left for later because it needs secrets.
pub fn needs_note(out: &str, schemes: &Vec<String>) -> (r: String)
    ensures
        r@ == out@ + "  (needs "@ + joined(texts(schemes@), ", "@) + ")"@,
{
    let list = join(schemes, ", ");
    let head = cat3(out, "  (needs ", list.as_str());
    cat(head.as_str(), ")")
}

/// What is said of an output that is left for later because its key is not there.
pub fn no_key_note(out: &str) -> (r: String)
    ensures
        r@ == out@ + "  (no decryption key)"@,
{
    cat(out, "  (no decryption key)")
}

/// Without a declaration, what is generated is read-only, and only its owner can read what
/// holds a secret.
pub proof fn law_generated_files_are_read_only(m: Manifest, out: Seq<char>, secret: bool)
    requires
        exact_match(plain(m.modes@), out) is None,
    ensures
        ({
            let mode = output_mode_of(m, out, secret);
            &&& mode & 0o222 == 0
            &&& mode & 0o400 == 0o400
            &&& secret ==> mode & 0o077 == 0
        }),
{
    assert(0o444u32 & 0o222 == 0 && 0o444u32 & 0o400 == 0o400) by (bit_vector);
    assert(0o400u32 & 0o222 == 0 && 0o400u32 & 0o400 == 0o400 && 0o400u32 & 0o077 == 0)
        by (bit_vector);
}

/// Once the secrets that a template needs have been read, and providers serve their schemes,
/// rendering asks for no more of them: it writes, or a variable has no value.
pub proof fn law_rendering_ends(
    template: Seq<char>,
    vars: Seq<(Seq<char>, Seq<char>)>,
    known: Known,
)
    requires
        needed(tokens(template), Seq::empty(), vars) matches Ok(refs) && all_read(refs, known),
    ensures
        still_unread(
            needed(tokens(template), Seq::empty(), vars)->Ok_0,
            known.read,
        ).len() == 0,
        expanded(tokens(template), Seq::empty(), vars, known) matches Err(f) ==> f is UnknownVariable,
{
    let refs = needed(tokens(template), Seq::empty(), vars)->Ok_0;
    lemma_all_read(refs, known);
    law_read_secrets_are_enough(tokens(template), Seq::empty(), vars, known);
}

proof fn lemma_all_read(refs: Seq<Seq<char>>, known: Known)
    requires
        all_read(refs, known),
    ensures
        still_unread(refs, known.read).len() == 0,
    decreases refs.len(),
{
    if refs.len() > 0 {
        let head = refs.drop_last();
        assert(all_read(head, known)) by {
            assert forall|i: int| 0 <= i < head.len() implies {
                &&& reference_of(#[trigger] head[i]) matches Some((scheme, _))
                &&& known.schemes.contains(scheme)
                &&& crate::table::lookup(known.read, head[i]) is Some
            } by {
                assert(head[i] == refs[i]);
            }
        }
        lemma_all_read(head, known);
        assert(refs[refs.len() - 1] == refs.last());
        assert(reference_of(refs[refs.len() - 1]) is Some);
    }
}

/// What is generated has the mode that is declared for it; without a declaration everyone
/// can read it and no one can write it, and what holds a secret only its owner can read.
pub proof fn law_modes_of_outputs(m: Manifest, out: Seq<char>)
    ensures
        m.mode_at(out) matches Some(mode) ==> output_mode_of(m, out, true) == mode
            && output_mode_of(m, out, false) == mode,
        m.mode_at(out) is None ==> output_mode_of(m, out, true) == 0o400 && output_mode_of(
            m,
            out,
            false,
        ) == 0o444,
{
}

/// An output is written where nothing or a file is, and nowhere else.
pub proof fn law_where_outputs_are_written(out: Seq<char>, place: Place)
    ensures
        write_refusal(out, place) is None <==> place is Free || place is File,
        write_refusal(out, place) matches Some(said) ==> said.len() >= out.len() && said.take(
            out.len() as int,
        ) == out,
{
    if let Some(said) = write_refusal(out, place) {
        assert(said.take(out.len() as int) =~= out);
    }
}

/// The schemes of references are those that some of them has, each once.
pub proof fn law_schemes_of_references(refs: Seq<Seq<char>>, scheme: Seq<char>)
    ensures
        schemes_of(refs).contains(scheme) <==> exists|i: int|
            0 <= i < refs.len() && has_scheme(#[trigger] refs[i], scheme),
        schemes_of(refs).no_duplicates(),
    decreases refs.len(),
{
    if refs.len() > 0 {
        let head = refs.drop_last();
        law_schemes_of_references(head, scheme);
        let all = schemes_of(refs);
        let b = schemes_of(head);
        assert(refs[refs.len() - 1] == refs.last());
        if b.contains(scheme) {
            let k = choose|k: int| 0 <= k < b.len() && b[k] == scheme;
            assert(all[k] == scheme);
            let i = choose|i: int| 0 <= i < head.len() && has_scheme(#[trigger] head[i], scheme);
            assert(refs[i] == head[i]);
        }
        if all.len() > b.len() {
            assert(all[b.len() as int] == all.last());
            if all.contains(scheme) && !b.contains(scheme) {
                let k = choose|k: int| 0 <= k < all.len() && all[k] == scheme;
                if k < b.len() {
                    assert(b[k] == scheme);
                }
            }
        }
        if exists|i: int| 0 <= i < refs.len() && has_scheme(#[trigger] refs[i], scheme) {
            let i = choose|i: int| 0 <= i < refs.len() && has_scheme(#[trigger] refs[i], scheme);
            if i < head.len() {
                assert(head[i] == refs[i]);
            }
        }
        assert forall|i: int, j: int| 0 <= i < j < all.len() implies all[i] != all[j] by {
            if j == b.len() {
                assert(b[i] == all[i]);
                if all[i] == all[j] {
                    assert(b.contains(all[j]));
                }
            }
        }
    }
}

/// Whether a reference has a scheme.
pub open spec fn has_scheme(reference: Seq<char>, scheme: Seq<char>) -> bool {
    reference_of(reference) matches Some((s, _)) && s == scheme
}

/// Nothing is decrypted where nothing is encrypted; what is encrypted is decrypted once its
/// key is there, or at once where no key is told, and that no way is told is an error.
pub proof fn law_when_files_are_decrypted(
    m: &Manifest,
    key_exists: bool,
    r: Result<DecryptStep, NoEncryption>,
)
    requires
        call_ensures(decrypt_step, (m, key_exists), r),
    ensures
        r matches Ok(DecryptStep::Nothing) <==> m.encrypted@.len() == 0,
        r is Err <==> m.encrypted@.len() > 0 && m.encryption is None,
        r matches Ok(DecryptStep::Decrypt) <==> m.encrypted@.len() > 0 && (m.encryption matches Some(
            enc,
        ) && (enc.identity is None || key_exists)),
        r matches Ok(DecryptStep::Deferred) <==> m.encrypted@.len() > 0 && (m.encryption matches Some(
            enc,
        ) && enc.identity is Some && !key_exists),
        !(r matches Ok(DecryptStep::Pending)),
{
}

/// An output is written where it does not hold its contents yet, and only where nothing or a
/// file is in its place.
pub proof fn law_when_an_output_is_written(
    out: &str,
    place: Place,
    current: &Option<Vec<u8>>,
    contents: &Vec<u8>,
    r: WriteStep,
)
    requires
        call_ensures(write_step, (out, place, current, contents), r),
    ensures
        r is Refused <==> place is Link || place is Directory || place is Outside,
        r is Unchanged <==> !(r is Refused) && (*current matches Some(there) && there@ == contents@),
        r is Write <==> !(r is Refused) && !(*current matches Some(there) && there@ == contents@),
{
}

/// Without leave to ask for secrets none is asked for, and a template that needs one is left
/// for later; with it the ones that have not been read are read first. A template that needs
/// none is written at once, and what is written is what the template expands to.
pub proof fn law_how_an_output_is_rendered(
    m: &Manifest,
    output: &Rendering,
    vars: &Table<String>,
    cache: &SecretCache,
    secrets: bool,
    r: Result<RenderStep, RenderError>,
)
    requires
        call_ensures(render_step, (m, output, vars, cache, secrets), r),
    ensures
        ({
            let toks = tokens(output.template@);
            let refs = needed(toks, Seq::empty(), plain(vars@));
            &&& !secrets ==> !(r matches Ok(RenderStep::Read(_)))
            &&& secrets ==> !(r matches Ok(RenderStep::Deferred(_)))
            &&& !(r matches Ok(RenderStep::Pending))
            &&& r matches Ok(RenderStep::Write { text, mode }) ==> expanded(
                toks,
                Seq::empty(),
                plain(vars@),
                cache.known(),
            ) == Ok::<Seq<char>, Fault>(text@)
            &&& r matches Ok(RenderStep::Write { text, mode }) ==> (refs matches Ok(v) && (secrets
                || v.len() == 0) && mode == output_mode_of(*m, output.out@, v.len() > 0))
            &&& r matches Ok(RenderStep::Read(v)) ==> v@.len() > 0 && (refs matches Ok(all)
                && forall|s: Seq<char>|
                texts(v@).contains(s) <==> #[trigger] all.contains(s) && lookup(
                    plain(cache.seen@),
                    s,
                ) is None)
            &&& refs is Ok && refs->Ok_0.len() == 0 && expanded(
                toks,
                Seq::empty(),
                plain(vars@),
                cache.known(),
            ) is Ok ==> r is Ok && r->Ok_0 is Write
            &&& refs is Ok && refs->Ok_0.len() > 0 && !secrets ==> r is Ok && r->Ok_0 is Deferred
        }),
{
    let toks = tokens(output.template@);
    let seen = plain(cache.seen@);
    if let Ok(refs) = needed(toks, Seq::empty(), plain(vars@)) {
        assert forall|s: Seq<char>| still_unread(refs, seen).contains(s) <==> #[trigger]
            refs.contains(s) && lookup(seen, s) is None by {
            law_only_needed_references_are_read(refs, seen, s);
        }
        if refs.len() == 0 {
            assert(still_unread(refs, seen).len() == 0);
        }
        if let Ok(RenderStep::Read(v)) = r {
            assert(texts(v@).len() == v@.len());
        }
    }
}

/// What is left for later is told with the schemes that it needs.
pub proof fn law_what_is_left_for_later(
    m: &Manifest,
    output: &Rendering,
    vars: &Table<String>,
    cache: &SecretCache,
    r: Result<RenderStep, RenderError>,
    scheme: Seq<char>,
)
    requires
        call_ensures(render_step, (m, output, vars, cache, false), r),
        needed(tokens(output.template@), Seq::empty(), plain(vars@)) matches Ok(refs) && refs.len()
            > 0,
    ensures
        ({
            let refs = needed(tokens(output.template@), Seq::empty(), plain(vars@))->Ok_0;
            r matches Ok(RenderStep::Deferred(v)) && (texts(v@).contains(scheme) <==> exists|i: int|
                0 <= i < refs.len() && has_scheme(#[trigger] refs[i], scheme))
        }),
{
    let refs = needed(tokens(output.template@), Seq::empty(), plain(vars@))->Ok_0;
    law_schemes_of_references(refs, scheme);
}

} // verus!
