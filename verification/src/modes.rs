//! File modes: what a declaration asks of a path, and whether it is so.
use crate::text::{cat, cat3, octal_text, to_octal};
use vstd::prelude::*;

verus! {

/// What was found at a path that a mode is declared for.
pub enum Fact {
    Absent,
    /// A file, with its mode.
    File(u32),
    /// A directory, with its mode.
    Directory(u32),
    /// It could not be told.
    Unreadable,
}

/// Whether a mode would take away the owner's right to read or enter a directory.
pub open spec fn locks_out(mode: u32) -> bool {
    mode & 0o500 != 0o500
}

/// What is done about a declared mode.
#[derive(Debug, Clone, Copy, PartialEq, Eq, Structural)]
pub enum ModeStep {
    /// Nothing: it is so already, or nothing is there.
    Nothing,
    /// The mode is set.
    Change,
    /// It is refused: the directory could not be walked any more.
    Refused,
    /// It cannot be told what is there.
    Unreadable,
}

impl ModeStep {
    /// What is left of a step in a run. A dry run sets no mode; what is refused is refused.
    pub open spec fn in_run(self, dry_run: bool) -> ModeStep {
        if dry_run && self is Change {
            ModeStep::Nothing
        } else {
            self
        }
    }

    /// What is left of a step in a run.
    pub fn carried_out(self, dry_run: bool) -> (r: ModeStep)
        ensures
            r == self.in_run(dry_run),
    {
        match self {
            ModeStep::Change if dry_run => ModeStep::Nothing,
            step => step,
        }
    }
}

/// What is done about a declared mode, given what is there.
pub open spec fn mode_step_of(declared: u32, fact: Fact) -> ModeStep {
    match fact {
        Fact::Absent => ModeStep::Nothing,
        Fact::Unreadable => ModeStep::Unreadable,
        Fact::File(mode) => if mode & 0o777 == declared {
            ModeStep::Nothing
        } else {
            ModeStep::Change
        },
        Fact::Directory(mode) => if locks_out(declared) {
            ModeStep::Refused
        } else if mode & 0o777 == declared {
            ModeStep::Nothing
        } else {
            ModeStep::Change
        },
    }
}

/// Decides what is done about a declared mode.
pub fn mode_step(declared: u32, fact: &Fact) -> (r: ModeStep)
    ensures
        r == mode_step_of(declared, *fact),
{
    match fact {
        Fact::Absent => ModeStep::Nothing,
        Fact::Unreadable => ModeStep::Unreadable,
        Fact::File(mode) => if *mode & 0o777 == declared {
            ModeStep::Nothing
        } else {
            ModeStep::Change
        },
        Fact::Directory(mode) => if declared & 0o500 != 0o500 {
            ModeStep::Refused
        } else if *mode & 0o777 == declared {
            ModeStep::Nothing
        } else {
            ModeStep::Change
        },
    }
}

/// What is said of a mode that is not as declared.
pub open spec fn mode_complaint_of(path: Seq<char>, declared: u32, fact: Fact) -> Option<Seq<char>> {
    match fact {
        Fact::Absent => None,
        Fact::Unreadable => Some(path + ": could not be read, declared "@ + octal_text(
            declared as nat,
            3,
        )),
        Fact::File(mode) | Fact::Directory(mode) => if mode & 0o777 == declared {
            None
        } else {
            Some(
                path + ": mode "@ + octal_text((mode & 0o777) as nat, 3) + ", declared "@
                    + octal_text(declared as nat, 3),
            )
        },
    }
}

/// Tells what is wrong with the mode of a path, if anything. A path that could not be read
/// is reported, not passed over.
pub fn mode_complaint(path: &str, declared: u32, fact: &Fact) -> (r: Option<String>)
    ensures
        match r {
            Some(s) => mode_complaint_of(path@, declared, *fact) == Some(s@),
            None => mode_complaint_of(path@, declared, *fact) is None,
        },
{
    let asked = to_octal(declared, 3);
    match fact {
        Fact::Absent => None,
        Fact::Unreadable => Some(cat3(path, ": could not be read, declared ", asked.as_str())),
        Fact::File(mode) | Fact::Directory(mode) => {
            let actual = *mode & 0o777;
            if actual == declared {
                None
            } else {
                let found = to_octal(actual, 3);
                let head = cat3(path, ": mode ", found.as_str());
                Some(cat3(head.as_str(), ", declared ", asked.as_str()))
            }
        },
    }
}

/// What is said of a mode that is refused.
pub fn mode_refused(path: &str, declared: u32) -> (r: String)
    ensures
        r@ == "mode "@ + octal_text(declared as nat, 3) + " on directory `"@ + path@
            + "` would take away your own read or execute bit"@,
{
    let asked = to_octal(declared, 3);
    let head = cat3("mode ", asked.as_str(), " on directory `");
    let named = cat(head.as_str(), path);
    cat(named.as_str(), "` would take away your own read or execute bit")
}

/// Once a mode is set there is nothing more to do about it, and nothing to complain of.
pub proof fn law_a_mode_is_set_once(path: Seq<char>, declared: u32, fact: Fact)
    requires
        declared <= 0o777,
        mode_step_of(declared, fact) is Change,
    ensures
        ({
            let after = match fact {
                Fact::Directory(_) => Fact::Directory(declared),
                _ => Fact::File(declared),
            };
            &&& mode_step_of(declared, after) is Nothing
            &&& mode_complaint_of(path, declared, after) is None
        }),
{
    assert(declared & 0o777 == declared) by (bit_vector)
        requires
            declared <= 0o777,
    ;
}

/// No mode that is set locks the owner out of a directory.
pub proof fn law_directories_stay_walkable(declared: u32, mode: u32)
    ensures
        mode_step_of(declared, Fact::Directory(mode)) is Change ==> declared & 0o500 == 0o500,
{
}

/// A directory stays usable to its owner only with a mode that lets it be read and entered.
pub proof fn law_what_locks_out(mode: u32)
    ensures
        locks_out(mode) <==> mode & 0o400 == 0 || mode & 0o100 == 0,
{
    assert((mode & 0o500 != 0o500) <==> mode & 0o400 == 0 || mode & 0o100 == 0) by (bit_vector);
}

/// A mode is set exactly where something is there with another one, unless it is a directory
/// that would lock its owner out; of the mode that is there only the permissions count.
pub proof fn law_when_a_mode_is_set(declared: u32, mode: u32)
    ensures
        mode_step_of(declared, Fact::Absent) is Nothing,
        mode_step_of(declared, Fact::Unreadable) is Unreadable,
        mode_step_of(declared, Fact::File(mode)) is Change <==> mode & 0o777 != declared,
        mode_step_of(declared, Fact::File(mode)) is Nothing <==> mode & 0o777 == declared,
        mode_step_of(declared, Fact::Directory(mode)) is Refused <==> declared & 0o400 == 0
            || declared & 0o100 == 0,
        mode_step_of(declared, Fact::Directory(mode)) is Change <==> declared & 0o400 != 0
            && declared & 0o100 != 0 && mode & 0o777 != declared,
        mode_step_of(declared, Fact::Directory(mode)) is Nothing <==> declared & 0o400 != 0
            && declared & 0o100 != 0 && mode & 0o777 == declared,
{
    law_what_locks_out(declared);
}

/// There is a complaint exactly where something was found with another mode, or what is
/// there could not be told.
pub proof fn law_when_there_is_a_complaint(path: Seq<char>, declared: u32, mode: u32)
    ensures
        mode_complaint_of(path, declared, Fact::Absent) is None,
        mode_complaint_of(path, declared, Fact::Unreadable) is Some,
        mode_complaint_of(path, declared, Fact::File(mode)) is None <==> mode & 0o777 == declared,
        mode_complaint_of(path, declared, Fact::Directory(mode)) is None <==> mode & 0o777
            == declared,
        mode_complaint_of(path, declared, Fact::Directory(mode)) == mode_complaint_of(
            path,
            declared,
            Fact::File(mode),
        ),
{
}

} // verus!
