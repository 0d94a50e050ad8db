//! Whether everything that configurations require is declared, and the other way round.
use crate::detect::{needs, Need, Requirement};
use crate::packages::{Kind, Provided};
use crate::table::{keys_of, lookup};
use crate::text::{cat, decimal, lemma_texts_empty, lemma_texts_push, same_text, texts, to_decimal};
use vstd::prelude::*;

verus! {

/// How a requirement stands.
#[derive(Debug, Clone, Copy, PartialEq, Eq, Structural)]
pub enum Standing {
    /// It is declared.
    Declared,
    /// It is declared, but not installed here.
    Optional,
    /// It is not declared.
    Undeclared,
}

/// How a requirement stands, given what is declared.
pub open spec fn standing_of(provided: Provided, need: Need) -> Standing {
    match lookup(provided.names(need.kind), need.name) {
        None => Standing::Undeclared,
        Some(optional) => if optional {
            Standing::Optional
        } else {
            Standing::Declared
        },
    }
}

/// Tells how a requirement stands.
pub fn standing(provided: &Provided, req: &Requirement) -> (r: Standing)
    ensures
        r == standing_of(*provided, req@),
{
    match provided.get(req.kind, req.name.as_str()) {
        None => Standing::Undeclared,
        Some(optional) => if optional {
            Standing::Optional
        } else {
            Standing::Declared
        },
    }
}

/// The requirements that stand in one way.
pub open spec fn with_standing(
    provided: Provided,
    required: Seq<Need>,
    standing: Standing,
) -> Seq<Need>
    decreases required.len(),
{
    if required.len() == 0 {
        seq![]
    } else {
        let before = with_standing(provided, required.drop_last(), standing);
        if standing_of(provided, required.last()) == standing {
            before.push(required.last())
        } else {
            before
        }
    }
}

/// Whether a name is required.
pub open spec fn is_required(required: Seq<Need>, kind: Kind, name: Seq<char>) -> bool {
    exists|i: int|
        0 <= i < required.len() && (#[trigger] required[i]).kind == kind && required[i].name == name
}

/// The names of a list that nothing requires.
pub open spec fn unrequired(required: Seq<Need>, kind: Kind, names: Seq<Seq<char>>) -> Seq<
    Seq<char>,
>
    decreases names.len(),
{
    if names.len() == 0 {
        seq![]
    } else {
        let before = unrequired(required, kind, names.drop_last());
        if is_required(required, kind, names.last()) {
            before
        } else {
            before.push(names.last())
        }
    }
}

fn requires_name(required: &Vec<Requirement>, kind: Kind, name: &str) -> (r: bool)
    ensures
        r == is_required(needs(required@), kind, name@),
{
    let ghost all = needs(required@);
    for i in 0..required.len()
        invariant
            all == needs(required@),
            forall|k: int|
                0 <= k < i ==> !((#[trigger] all[k]).kind == kind && all[k].name == name@),
    {
        assert(all[i as int] == required@[i as int]@);
        if required[i].kind == kind && same_text(required[i].name.as_str(), name) {
            assert(is_required(all, kind, name@));
            return true;
        }
    }
    false
}

fn unused_of(required: &Vec<Requirement>, provided: &Provided, kind: Kind) -> (r: Vec<String>)
    ensures
        texts(r@) == unrequired(needs(required@), kind, keys_of(provided.names(kind))),
{
    let names = provided.of(kind).keys();
    let ghost all = texts(names@);
    let mut out: Vec<String> = Vec::new();
    proof {
        lemma_texts_empty();
        assert(all.take(0) =~= Seq::empty());
    }
    for i in 0..names.len()
        invariant
            all == texts(names@),
            texts(out@) == unrequired(needs(required@), kind, all.take(i as int)),
    {
        broadcast use lemma_texts_push;

        proof {
            let t = all.take(i + 1);
            assert(t.drop_last() =~= all.take(i as int));
            assert(t.last() == names@[i as int]@);
        }
        if !requires_name(required, kind, names[i].as_str()) {
            out.push(names[i].clone());
        }
    }
    assert(all.take(all.len() as int) =~= all);
    out
}

/// Borrowed requirements by their views.
pub open spec fn lent_needs(v: Seq<&Requirement>) -> Seq<Need> {
    v.map_values(|r: &Requirement| r@)
}

/// How what is required and what is declared agree.
pub struct Agreement<'a> {
    /// What is required and not declared.
    pub undeclared: Vec<&'a Requirement>,
    /// What is required and declared, but not installed here.
    pub optional: Vec<&'a Requirement>,
    /// The fonts that are declared and not required.
    pub unused_fonts: Vec<String>,
    /// The extensions that are declared and not required.
    pub unused_extensions: Vec<String>,
}

/// Holds what is required against what is declared. In the other direction only fonts and
/// extensions are looked at: plenty of commands are used by hand alone.
pub fn check<'a>(required: &'a Vec<Requirement>, provided: &Provided) -> (r: Agreement<'a>)
    ensures
        lent_needs(r.undeclared@) == with_standing(
            *provided,
            needs(required@),
            Standing::Undeclared,
        ),
        lent_needs(r.optional@) == with_standing(*provided, needs(required@), Standing::Optional),
        texts(r.unused_fonts@) == unrequired(
            needs(required@),
            Kind::Font,
            keys_of(provided.names(Kind::Font)),
        ),
        texts(r.unused_extensions@) == unrequired(
            needs(required@),
            Kind::Extension,
            keys_of(provided.names(Kind::Extension)),
        ),
{
    let ghost all = needs(required@);
    let mut undeclared: Vec<&Requirement> = Vec::new();
    let mut optional: Vec<&Requirement> = Vec::new();
    assert(lent_needs(undeclared@) =~= Seq::empty());
    assert(lent_needs(optional@) =~= Seq::empty());
    assert(all.take(0) =~= Seq::empty());
    for i in 0..required.len()
        invariant
            all == needs(required@),
            lent_needs(undeclared@) == with_standing(
                *provided,
                all.take(i as int),
                Standing::Undeclared,
            ),
            lent_needs(optional@) == with_standing(
                *provided,
                all.take(i as int),
                Standing::Optional,
            ),
    {
        let req = &required[i];
        proof {
            let t = all.take(i + 1);
            assert(t.drop_last() =~= all.take(i as int));
            assert(t.last() == req@);
        }
        match standing(provided, req) {
            Standing::Undeclared => {
                assert(lent_needs(undeclared@.push(req)) =~= lent_needs(undeclared@).push(req@));
                undeclared.push(req);
            },
            Standing::Optional => {
                assert(lent_needs(optional@.push(req)) =~= lent_needs(optional@).push(req@));
                optional.push(req);
            },
            Standing::Declared => {},
        }
    }
    assert(all.take(all.len() as int) =~= all);
    Agreement {
        undeclared,
        optional,
        unused_fonts: unused_of(required, provided, Kind::Font),
        unused_extensions: unused_of(required, provided, Kind::Extension),
    }
}

impl<'a> Agreement<'a> {
    /// Whether a check passes: it fails exactly where something is required and not
    /// declared. What is optional or unused fails nothing.
    pub fn verdict(&self) -> (r: Result<(), String>)
        ensures
            r is Ok <==> self.undeclared@.len() == 0,
            r matches Err(s) ==> s@ == decimal(self.undeclared@.len())
                + " undeclared dependency(ies)"@,
    {
        if self.undeclared.len() == 0 {
            Ok(())
        } else {
            Err(undeclared_message(self.undeclared.len()))
        }
    }
}

/// What is said where something is not declared.
pub fn undeclared_message(n: usize) -> (r: String)
    ensures
        r@ == decimal(n as nat) + " undeclared dependency(ies)"@,
{
    let count = to_decimal(n);
    cat(count.as_str(), " undeclared dependency(ies)")
}

/// Nothing is undeclared exactly where everything that is required is declared.
pub proof fn law_nothing_undeclared(provided: Provided, required: Seq<Need>)
    ensures
        with_standing(provided, required, Standing::Undeclared).len() == 0 <==> forall|i: int|
            0 <= i < required.len() ==> lookup(
                provided.names((#[trigger] required[i]).kind),
                required[i].name,
            ) is Some,
    decreases required.len(),
{
    if required.len() > 0 {
        let head = required.drop_last();
        law_nothing_undeclared(provided, head);
        assert(required[required.len() - 1] == required.last());
        if forall|i: int|
            0 <= i < required.len() ==> lookup(
                provided.names((#[trigger] required[i]).kind),
                required[i].name,
            ) is Some {
            assert forall|i: int| 0 <= i < head.len() implies lookup(
                provided.names((#[trigger] head[i]).kind),
                head[i].name,
            ) is Some by {
                assert(head[i] == required[i]);
            }
        }
        if with_standing(provided, required, Standing::Undeclared).len() == 0 {
            assert forall|i: int| 0 <= i < required.len() implies lookup(
                provided.names((#[trigger] required[i]).kind),
                required[i].name,
            ) is Some by {
                if i < head.len() {
                    assert(head[i] == required[i]);
                }
            }
        }
    }
}

/// What the packages say of the name of a requirement, among the names of its kind: whether
/// the one that provides it is optional.
pub open spec fn said_of(provided: Provided, need: Need) -> Option<bool> {
    match need.kind {
        Kind::Command => lookup(provided.commands@, need.name),
        Kind::Font => lookup(provided.fonts@, need.name),
        Kind::Extension => lookup(provided.extensions@, need.name),
        Kind::Library => lookup(provided.libraries@, need.name),
    }
}

/// A requirement is undeclared where no package of its kind provides it, optional where the
/// one that does is, and else declared; it is told there and nowhere else.
pub proof fn law_one_requirement_stands(provided: Provided, need: Need)
    ensures
        with_standing(provided, seq![need], Standing::Undeclared) == if said_of(provided, need)
            is None {
            seq![need]
        } else {
            Seq::<Need>::empty()
        },
        with_standing(provided, seq![need], Standing::Optional) == if said_of(provided, need)
            == Some(true) {
            seq![need]
        } else {
            Seq::<Need>::empty()
        },
        with_standing(provided, seq![need], Standing::Declared) == if said_of(provided, need)
            == Some(false) {
            seq![need]
        } else {
            Seq::<Need>::empty()
        },
{
    let one = seq![need];
    assert(one.last() == need);
    assert(one.drop_last() =~= Seq::empty());
    assert(with_standing(provided, one.drop_last(), Standing::Undeclared) =~= Seq::empty());
    assert(with_standing(provided, one.drop_last(), Standing::Optional) =~= Seq::empty());
    assert(with_standing(provided, one.drop_last(), Standing::Declared) =~= Seq::empty());
    assert(Seq::<Need>::empty().push(need) =~= one);
}

/// A name is not required exactly where no requirement of its kind names it.
pub proof fn law_one_name_is_required(required: Seq<Need>, kind: Kind, name: Seq<char>)
    ensures
        unrequired(required, kind, seq![name]) == if exists|i: int|
            0 <= i < required.len() && (#[trigger] required[i]).kind == kind && required[i].name
                == name {
            Seq::<Seq<char>>::empty()
        } else {
            seq![name]
        },
{
    let one = seq![name];
    assert(one.last() == name);
    assert(one.drop_last() =~= Seq::empty());
    assert(unrequired(required, kind, one.drop_last()) =~= Seq::empty());
    assert(Seq::<Seq<char>>::empty().push(name) =~= one);
}

/// How a requirement stands does not depend on the requirements around it.
pub proof fn law_requirements_stand_one_by_one(a: Seq<Need>, b: Seq<Need>, provided: Provided, standing: Standing)
    ensures
        with_standing(provided, a + b, standing) == with_standing(provided, a, standing) + with_standing(provided, b, standing),
    decreases b.len(),
{
    if b.len() == 0 {
        assert(a + b =~= a);
        assert(with_standing(provided, a, standing) + with_standing(provided, b, standing) =~= with_standing(provided, a, standing));
    } else {
        assert((a + b).drop_last() =~= a + b.drop_last());
        law_requirements_stand_one_by_one(a, b.drop_last(), provided, standing);
        assert(with_standing(provided, a + b, standing) =~= with_standing(provided, a, standing) + with_standing(provided, b, standing));
    }
}

/// Whether a name is required does not depend on the names around it.
pub proof fn law_names_are_required_one_by_one(a: Seq<Seq<char>>, b: Seq<Seq<char>>, required: Seq<Need>, kind: Kind)
    ensures
        unrequired(required, kind, a + b) == unrequired(required, kind, a) + unrequired(required, kind, b),
    decreases b.len(),
{
    if b.len() == 0 {
        assert(a + b =~= a);
        assert(unrequired(required, kind, a) + unrequired(required, kind, b) =~= unrequired(required, kind, a));
    } else {
        assert((a + b).drop_last() =~= a + b.drop_last());
        law_names_are_required_one_by_one(a, b.drop_last(), required, kind);
        assert(unrequired(required, kind, a + b) =~= unrequired(required, kind, a) + unrequired(required, kind, b));
    }
}

/// Nothing is wrong exactly where nothing that is required is undeclared.
pub proof fn law_when_a_repository_passes<'a>(
    required: &'a Vec<Requirement>,
    provided: &Provided,
    agreement: Agreement<'a>,
    verdict: Result<(), String>,
)
    requires
        call_ensures(check, (required, provided), agreement),
        call_ensures(Agreement::verdict, (&agreement,), verdict),
    ensures
        verdict is Ok <==> forall|i: int|
            0 <= i < required@.len() ==> said_of(*provided, (#[trigger] required@[i])@) is Some,
{
    let all = needs(required@);
    let wrong = with_standing(*provided, all, Standing::Undeclared);
    assert(lent_needs(agreement.undeclared@).len() == agreement.undeclared@.len());
    lemma_undeclared(*provided, all);
    assert forall|i: int| 0 <= i < required@.len() implies all[i] == (#[trigger] required@[i])@ by {}
    if wrong.len() == 0 {
        assert forall|i: int| 0 <= i < required@.len() implies said_of(
            *provided,
            (#[trigger] required@[i])@,
        ) is Some by {
            assert(said_of(*provided, all[i]) is Some);
        }
    }
    if forall|i: int|
        0 <= i < required@.len() ==> said_of(*provided, (#[trigger] required@[i])@) is Some {
        assert forall|i: int| 0 <= i < all.len() implies said_of(*provided, #[trigger] all[i])
            is Some by {
            assert(all[i] == required@[i]@);
        }
    }
}

proof fn lemma_undeclared(provided: Provided, all: Seq<Need>)
    ensures
        with_standing(provided, all, Standing::Undeclared).len() == 0 <==> forall|i: int|
            0 <= i < all.len() ==> said_of(provided, #[trigger] all[i]) is Some,
    decreases all.len(),
{
    if all.len() > 0 {
        let head = all.drop_last();
        lemma_undeclared(provided, head);
        assert(all[all.len() - 1] == all.last());
        assert forall|i: int| 0 <= i < head.len() implies head[i] == #[trigger] all[i] by {}
        if with_standing(provided, all, Standing::Undeclared).len() == 0 {
            assert forall|i: int| 0 <= i < all.len() implies said_of(provided, #[trigger] all[i])
                is Some by {
                if i < head.len() {
                    assert(said_of(provided, head[i]) is Some);
                }
            }
        }
        if forall|i: int| 0 <= i < all.len() ==> said_of(provided, #[trigger] all[i]) is Some {
            assert forall|i: int| 0 <= i < head.len() implies said_of(provided, #[trigger] head[i])
                is Some by {
                assert(head[i] == all[i]);
            }
        }
    }
}

} // verus!
