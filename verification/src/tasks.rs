//! Build helper tasks: which task is asked for, and which steps it takes.
//!
//! The steps are external programs. A task is a machine: it says which program to run next, and
//! what follows from whether that program succeeded.
use vstd::prelude::*;

verus! {

/// A task.
#[derive(Clone, Copy, PartialEq, Eq, Structural, Debug)]
pub enum Task {
    /// Compile to wasm and make the JavaScript glue.
    BuildWasm { release: bool },
    /// Serve the wasm directory.
    Serve,
    /// Say which tasks there are.
    Help,
}

/// Some argument is `word`.
pub open spec fn mentions(args: Seq<String>, word: Seq<char>) -> bool {
    exists|i: int| 0 <= i < args.len() && (#[trigger] args[i])@ == word
}

/// The task that the arguments ask for.
pub open spec fn requested(args: Seq<String>) -> Task {
    if args.len() > 0 && args[0]@ == "build-wasm"@ {
        Task::BuildWasm { release: mentions(args, "--release"@) }
    } else if args.len() > 0 && args[0]@ == "serve"@ {
        Task::Serve
    } else {
        Task::Help
    }
}

/// Whether an argument is `word`.
fn is_word(arg: &String, word: &str) -> (r: bool)
    ensures
        r == (arg@ == word@),
{
    *arg == word.to_owned()
}

/// The task that the arguments, without the program's name, ask for.
pub fn task_of(args: &Vec<String>) -> (r: Task)
    ensures
        r == requested(args@),
{
    if args.len() == 0 {
        return Task::Help;
    }
    if is_word(&args[0], "build-wasm") {
        let mut i: usize = 0;
        while i < args.len()
            invariant
                i <= args.len(),
                args.len() > 0,
                args@[0]@ == "build-wasm"@,
                forall|j: int| 0 <= j < i ==> (#[trigger] args@[j])@ != "--release"@,
            decreases args.len() - i,
        {
            if is_word(&args[i], "--release") {
                assert(args@[i as int]@ == "--release"@);
                return Task::BuildWasm { release: true };
            }
            i = i + 1;
        }
        return Task::BuildWasm { release: false };
    }
    if is_word(&args[0], "serve") {
        Task::Serve
    } else {
        Task::Help
    }
}

/// The name of a build profile.
pub fn profile_name(release: bool) -> (r: &'static str)
    ensures
        r@ == if release {
            "release"@
        } else {
            "debug"@
        },
{
    if release {
        "release"
    } else {
        "debug"
    }
}

/// Where the compiler leaves the wasm module.
pub fn wasm_path(release: bool) -> (r: String)
    ensures
        r@ == "target/wasm32-unknown-unknown/"@ + (if release {
            "release"@
        } else {
            "debug"@
        }) + "/u4.wasm"@,
{
    let mut path: String = "target/wasm32-unknown-unknown/".to_owned();
    path.append(profile_name(release));
    path.append("/u4.wasm");
    path
}

/// Where a task stands: what is run next, or how it ended.
#[derive(Clone, Copy, PartialEq, Eq, Structural, Debug)]
pub enum Step {
    /// Compile the library to wasm.
    Compile { release: bool },
    /// Ask whether the glue generator is installed.
    ProbeBindgen { release: bool },
    /// Make the JavaScript glue.
    Bindgen { release: bool },
    /// Ask whether Python is installed.
    ProbePython,
    /// Serve the directory.
    RunServer,
    /// Print what tasks there are.
    PrintHelp,
    /// The task succeeded.
    Done,
    /// A program failed.
    ProgramFailed,
    /// The glue generator is not installed.
    NoBindgen,
    /// Python is not installed.
    NoPython,
}

/// The first step of a task.
pub fn first_step(task: Task) -> (r: Step)
    ensures
        r == match task {
            Task::BuildWasm { release } => Step::Compile { release },
            Task::Serve => Step::ProbePython,
            Task::Help => Step::PrintHelp,
        },
{
    match task {
        Task::BuildWasm { release } => Step::Compile { release },
        Task::Serve => Step::ProbePython,
        Task::Help => Step::PrintHelp,
    }
}

/// The task has ended.
pub open spec fn is_over(step: Step) -> bool {
    step is Done || step is ProgramFailed || step is NoBindgen || step is NoPython
}

/// What follows from whether a step succeeded. A missing tool is told apart from a failing one,
/// and nothing follows the end.
pub open spec fn follows(step: Step, succeeded: bool) -> Step {
    match step {
        Step::Compile { release } => if succeeded {
            Step::ProbeBindgen { release }
        } else {
            Step::ProgramFailed
        },
        Step::ProbeBindgen { release } => if succeeded {
            Step::Bindgen { release }
        } else {
            Step::NoBindgen
        },
        Step::ProbePython => if succeeded {
            Step::RunServer
        } else {
            Step::NoPython
        },
        Step::Bindgen { .. } | Step::RunServer | Step::PrintHelp => if succeeded {
            Step::Done
        } else {
            Step::ProgramFailed
        },
        Step::Done | Step::ProgramFailed | Step::NoBindgen | Step::NoPython => step,
    }
}

/// The step that follows, given whether `step` succeeded.
pub fn next_step(step: Step, succeeded: bool) -> (r: Step)
    ensures
        r == follows(step, succeeded),
{
    match step {
        Step::Compile { release } => if succeeded {
            Step::ProbeBindgen { release }
        } else {
            Step::ProgramFailed
        },
        Step::ProbeBindgen { release } => if succeeded {
            Step::Bindgen { release }
        } else {
            Step::NoBindgen
        },
        Step::ProbePython => if succeeded {
            Step::RunServer
        } else {
            Step::NoPython
        },
        Step::Bindgen { .. } => if succeeded {
            Step::Done
        } else {
            Step::ProgramFailed
        },
        Step::RunServer => if succeeded {
            Step::Done
        } else {
            Step::ProgramFailed
        },
        Step::PrintHelp => if succeeded {
            Step::Done
        } else {
            Step::ProgramFailed
        },
        Step::Done => step,
        Step::ProgramFailed => step,
        Step::NoBindgen => step,
        Step::NoPython => step,
    }
}

} // verus!
