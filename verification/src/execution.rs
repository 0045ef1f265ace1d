//! How the commands of a pipeline are wired together.
use vstd::prelude::*;

use crate::models::{Command, CommandKind};
use crate::utils::spec_builtin;

verus! {

/// Where a stage reads its standard input from.
#[derive(Debug, Clone, Copy, PartialEq, Eq, Structural)]
pub enum StageInput {
    /// The shell's own standard input.
    Inherit,
    /// The pipe from the stage before.
    PreviousPipe,
}

/// Where a stage writes its standard output to.
#[derive(Debug, Clone, Copy, PartialEq, Eq, Structural)]
pub enum StageOutput {
    /// The shell's own standard output.
    Inherit,
    /// A new pipe to the stage after.
    NextPipe,
    /// The pipe whose contents the shell collects.
    Capture,
}

/// How one command of a pipeline is run.
#[derive(Debug, Clone, Copy, PartialEq, Eq, Structural)]
pub struct StagePlan {
    pub input: StageInput,
    pub output: StageOutput,
    pub kind: CommandKind,
}

/// The kind of a command, by its program name.
pub open spec fn kind_of(program: Seq<char>) -> CommandKind {
    match spec_builtin(program) {
        Some(b) => CommandKind::Builtin(b),
        None => CommandKind::External,
    }
}

/// The plan for stage `i` of `n`: it reads the previous pipe unless it is
/// first, and writes to a new pipe unless it is last, when it writes to the
/// capture pipe if output is captured.
pub open spec fn spec_stage(i: int, n: int, capture: bool, kind: CommandKind) -> StagePlan {
    StagePlan {
        input: if i == 0 {
            StageInput::Inherit
        } else {
            StageInput::PreviousPipe
        },
        output: if i < n - 1 {
            StageOutput::NextPipe
        } else if capture {
            StageOutput::Capture
        } else {
            StageOutput::Inherit
        },
        kind,
    }
}

/// Plans the stages of a pipeline, one per command, in order.
pub fn plan_pipeline(commands: &Vec<Command>, capture: bool) -> (plan: Vec<StagePlan>)
    ensures
        plan@.len() == commands@.len(),
        forall|i: int|
            0 <= i < commands@.len() ==> #[trigger] plan@[i] == spec_stage(
                i,
                commands@.len() as int,
                capture,
                kind_of(commands@[i].program@),
            ),
        forall|i: int| 0 <= i < commands@.len() - 1 ==> (#[trigger] plan@[i]).output == StageOutput::NextPipe,
        forall|i: int| 0 < i < commands@.len() ==> (#[trigger] plan@[i]).input == StageInput::PreviousPipe,
        commands@.len() > 0 ==> plan@[0].input == StageInput::Inherit,
        commands@.len() > 0 ==> plan@[commands@.len() - 1].output == (if capture {
            StageOutput::Capture
        } else {
            StageOutput::Inherit
        }),
{
    proof {
        law_stages_are_piped(commands@.len() as int, capture);
    }
    let n = commands.len();
    let mut plan: Vec<StagePlan> = Vec::new();
    let mut i: usize = 0;
    while i < n
        invariant
            n == commands@.len(),
            i <= n,
            plan@.len() == i,
            forall|j: int|
                0 <= j < i ==> #[trigger] plan@[j] == spec_stage(
                    j,
                    n as int,
                    capture,
                    kind_of(commands@[j].program@),
                ),
        decreases n - i,
    {
        let has_next = i + 1 < n;
        let input = if i == 0 {
            StageInput::Inherit
        } else {
            StageInput::PreviousPipe
        };
        let output = if has_next {
            StageOutput::NextPipe
        } else if capture {
            StageOutput::Capture
        } else {
            StageOutput::Inherit
        };
        let kind = commands[i].kind();
        plan.push(StagePlan { input, output, kind });
        i = i + 1;
    }
    plan
}

/// In a pipeline of `n` commands, every stage but the last writes to a pipe
/// to the next, every stage but the first reads the pipe from the one
/// before, the first reads the shell's input, and the last writes to the
/// capture pipe when output is captured and to the shell's output when not.
pub proof fn law_stages_are_piped(n: int, capture: bool)
    ensures
        forall|i: int, k: CommandKind| 0 <= i < n - 1 ==> (#[trigger] spec_stage(i, n, capture, k)).output
            == StageOutput::NextPipe,
        forall|i: int, k: CommandKind| 0 < i < n ==> (#[trigger] spec_stage(i, n, capture, k)).input
            == StageInput::PreviousPipe,
        forall|k: CommandKind| (#[trigger] spec_stage(0, n, capture, k)).input == StageInput::Inherit,
        forall|k: CommandKind| n > 0 ==> (#[trigger] spec_stage(n - 1, n, capture, k)).output == (if capture {
            StageOutput::Capture
        } else {
            StageOutput::Inherit
        }),
{
}

/// Records a forked child: the first child's process id becomes the
/// process group of the pipeline, and every child is kept.
pub fn parent_cleanup(child: i32, pgid: &mut Option<i32>, children: &mut Vec<i32>)
    ensures
        *final(pgid) == (if *old(pgid) is None {
            Some(child)
        } else {
            *old(pgid)
        }),
        final(children)@ == old(children)@.push(child),
{
    if pgid.is_none() {
        *pgid = Some(child);
    }
    children.push(child);
}

} // verus!
