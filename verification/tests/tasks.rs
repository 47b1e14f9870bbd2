use galaxy::tasks::{first_step, next_step, profile_name, task_of, wasm_path, Step, Task};

fn words(args: &[&str]) -> Vec<String> {
    args.iter().map(|a| a.to_string()).collect()
}

#[test]
fn arguments_choose_the_task() {
    assert_eq!(task_of(&words(&[])), Task::Help);
    assert_eq!(task_of(&words(&["help"])), Task::Help);
    assert_eq!(task_of(&words(&["build"])), Task::Help);
    assert_eq!(task_of(&words(&["--release", "build-wasm"])), Task::Help);
    assert_eq!(task_of(&words(&["serve"])), Task::Serve);
    assert_eq!(task_of(&words(&["serve", "--release"])), Task::Serve);
    assert_eq!(task_of(&words(&["build-wasm"])), Task::BuildWasm { release: false });
    assert_eq!(
        task_of(&words(&["build-wasm", "-v", "--release"])),
        Task::BuildWasm { release: true }
    );
}

#[test]
fn profiles_have_directories() {
    assert_eq!(profile_name(true), "release");
    assert_eq!(profile_name(false), "debug");
    assert_eq!(wasm_path(true), "target/wasm32-unknown-unknown/release/u4.wasm");
    assert_eq!(wasm_path(false), "target/wasm32-unknown-unknown/debug/u4.wasm");
}

#[test]
fn builds_take_three_steps() {
    let release = true;
    let a = first_step(Task::BuildWasm { release });
    assert_eq!(a, Step::Compile { release });
    assert_eq!(next_step(a, false), Step::ProgramFailed);
    let b = next_step(a, true);
    assert_eq!(b, Step::ProbeBindgen { release });
    assert_eq!(next_step(b, false), Step::NoBindgen);
    let c = next_step(b, true);
    assert_eq!(c, Step::Bindgen { release });
    assert_eq!(next_step(c, false), Step::ProgramFailed);
    assert_eq!(next_step(c, true), Step::Done);
}

#[test]
fn serving_needs_python() {
    let a = first_step(Task::Serve);
    assert_eq!(a, Step::ProbePython);
    assert_eq!(next_step(a, false), Step::NoPython);
    assert_eq!(next_step(a, true), Step::RunServer);
    assert_eq!(next_step(Step::RunServer, true), Step::Done);
    assert_eq!(next_step(Step::RunServer, false), Step::ProgramFailed);
    assert_eq!(first_step(Task::Help), Step::PrintHelp);
    assert_eq!(next_step(Step::PrintHelp, true), Step::Done);
}

#[test]
fn endings_stay() {
    for end in [Step::Done, Step::ProgramFailed, Step::NoBindgen, Step::NoPython] {
        assert_eq!(next_step(end, true), end);
        assert_eq!(next_step(end, false), end);
    }
}
