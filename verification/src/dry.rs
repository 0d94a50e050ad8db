//! Dry runs.
use crate::apply::{script_of, Task};
use crate::generate::{DecryptStep, RenderStep};
use crate::hooks::{hook_step_of, Hook};
use crate::modes::ModeStep;
use crate::rollback::{undo_of, Verdict};
use vstd::prelude::*;

verus! {

/// A dry run writes nothing: no link and no output, no mode, and nothing that was moved aside
/// is put back. It reads no secret, decrypts nothing and runs no hook, since each of them can
/// ask a person for something.
pub proof fn law_a_dry_run_touches_nothing(
    done: Seq<Task>,
    render: RenderStep,
    decrypt: DecryptStep,
    mode: ModeStep,
    hook: Hook,
    name: Seq<char>,
    print: Seq<char>,
    previous: Seq<(Seq<char>, Seq<char>)>,
    verdicts: Seq<Verdict>,
)
    ensures
        script_of(done, true).len() == 0,
        !(render.in_run(true) is Read) && !(render.in_run(true) is Write),
        !(decrypt.in_run(true) is Decrypt),
        !(mode.in_run(true) is Change),
        !(hook_step_of(hook, name, print, previous, true) is Run),
        undo_of(verdicts, true).len() == 0,
{
}

/// A dry run tells what a run would do: what it leaves pending is what a run would generate,
/// what it defers or refuses is what a run would defer or refuse, and a hook that it previews
/// is one that would run.
pub proof fn law_a_dry_run_previews(
    render: RenderStep,
    decrypt: DecryptStep,
    mode: ModeStep,
    hook: Hook,
    name: Seq<char>,
    print: Seq<char>,
    previous: Seq<(Seq<char>, Seq<char>)>,
)
    requires
        !(render is Pending),
        !(decrypt is Pending),
    ensures
        render.in_run(true) is Pending <==> render.in_run(false) is Read || render.in_run(
            false,
        ) is Write,
        render.in_run(true) is Deferred ==> render.in_run(true) == render.in_run(false),
        decrypt.in_run(true) is Pending <==> decrypt.in_run(false) is Decrypt,
        decrypt.in_run(true) is Deferred <==> decrypt.in_run(false) is Deferred,
        mode.in_run(true) is Refused <==> mode.in_run(false) is Refused,
        mode.in_run(true) is Unreadable <==> mode.in_run(false) is Unreadable,
        hook_step_of(hook, name, print, previous, true) is Preview <==> hook_step_of(
            hook,
            name,
            print,
            previous,
            false,
        ) is Run,
{
}

/// A run that is no dry run does all that there is to do, and a dry run leaves alone only
/// what would write, read a secret, decrypt or set a mode.
pub proof fn law_a_run_does_everything(render: RenderStep, decrypt: DecryptStep, mode: ModeStep)
    ensures
        render.in_run(false) == render,
        decrypt.in_run(false) == decrypt,
        mode.in_run(false) == mode,
        !(render is Read) && !(render is Write) ==> render.in_run(true) == render,
        !(decrypt is Decrypt) ==> decrypt.in_run(true) == decrypt,
        !(mode is Change) ==> mode.in_run(true) == mode,
        mode is Change ==> mode.in_run(true) is Nothing,
{
}

} // verus!
