use lib::exec::{run_pipeline, status_of, Action, Event, InputSource, OutputTarget, PipelineRun};
use lib::lexer::tokenize;
use lib::parser::parse;

fn start(line: &str) -> (PipelineRun, Action) {
    run_pipeline(parse(tokenize(line).unwrap()).unwrap())
}

fn spawn_of(a: &Action) -> (Vec<String>, InputSource, OutputTarget) {
    match a {
        Action::Spawn { argv, input, output } => (argv.clone(), *input, *output),
        other => panic!("expected a spawn, got {:?}", other),
    }
}

#[test]
fn single_command_spawns_then_waits_for_its_status() {
    let (mut run, a) = start("ls -l");
    let (argv, input, output) = spawn_of(&a);
    assert_eq!(argv, vec!["ls", "-l"]);
    assert_eq!(input, InputSource::Terminal);
    assert_eq!(output, OutputTarget::Terminal);
    assert!(matches!(run.step(Event::Succeeded), Action::WaitAll));
    assert!(matches!(run.step(Event::Waited(vec![Some(3)])), Action::Finish(3)));
    assert!(run.is_done());
}

#[test]
fn redirections_are_opened_in_order_before_the_spawn() {
    let (mut run, a) = start("sort < in.txt > out.txt");
    assert!(matches!(&a, Action::OpenInput(p) if p == "in.txt"));
    let a = run.step(Event::Succeeded);
    assert!(matches!(&a, Action::OpenOutput(p) if p == "out.txt"));
    let a = run.step(Event::Succeeded);
    let (argv, input, output) = spawn_of(&a);
    assert_eq!(argv, vec!["sort"]);
    assert_eq!(input, InputSource::RedirectFile);
    assert_eq!(output, OutputTarget::RedirectFile);
    assert!(matches!(run.step(Event::Succeeded), Action::WaitAll));
    assert!(matches!(run.step(Event::Waited(vec![Some(0)])), Action::Finish(0)));
}

#[test]
fn three_stages_are_all_spawned_before_the_wait() {
    let (mut run, a) = start("cat < in | sort | head -2 > out");
    assert!(matches!(&a, Action::OpenInput(p) if p == "in"));
    let (argv, input, output) = spawn_of(&run.step(Event::Succeeded));
    assert_eq!((argv, input, output), (vec!["cat".to_string()], InputSource::RedirectFile, OutputTarget::NextStage));
    let (argv, input, output) = spawn_of(&run.step(Event::Succeeded));
    assert_eq!((argv, input, output), (vec!["sort".to_string()], InputSource::PreviousStage, OutputTarget::NextStage));
    let a = run.step(Event::Succeeded);
    assert!(matches!(&a, Action::OpenOutput(p) if p == "out"));
    let (argv, input, output) = spawn_of(&run.step(Event::Succeeded));
    assert_eq!(argv, vec!["head", "-2"]);
    assert_eq!((input, output), (InputSource::PreviousStage, OutputTarget::RedirectFile));
    assert!(matches!(run.step(Event::Succeeded), Action::WaitAll));
    // the status is that of the last stage
    assert!(matches!(run.step(Event::Waited(vec![Some(1), Some(2), Some(0)])), Action::Finish(0)));
}

#[test]
fn input_redirect_of_a_later_stage_is_ignored_and_output_of_an_earlier_one() {
    let (mut run, a) = start("a > x | b < y");
    let (_, input, output) = spawn_of(&a);
    assert_eq!((input, output), (InputSource::Terminal, OutputTarget::NextStage));
    let (_, input, output) = spawn_of(&run.step(Event::Succeeded));
    assert_eq!((input, output), (InputSource::PreviousStage, OutputTarget::Terminal));
}

#[test]
fn missing_command_gives_127() {
    let (mut run, _) = start("nosuchcmd");
    assert!(matches!(run.step(Event::Failed), Action::Finish(127)));
    assert!(run.is_done());
}

#[test]
fn missing_command_in_pipeline_waits_then_gives_127() {
    let (mut run, _) = start("yes | nosuchcmd");
    assert!(matches!(run.step(Event::Succeeded), Action::Spawn { .. }));
    assert!(matches!(run.step(Event::Failed), Action::WaitAll));
    assert!(matches!(run.step(Event::Waited(vec![None])), Action::Finish(127)));
}

#[test]
fn unopenable_file_gives_1() {
    let (mut run, a) = start("cat < missing.txt");
    assert!(matches!(a, Action::OpenInput(_)));
    assert!(matches!(run.step(Event::Failed), Action::Finish(1)));
    let (mut run, a) = start("ls | wc > /nope/out");
    assert!(matches!(a, Action::Spawn { .. }));
    assert!(matches!(run.step(Event::Succeeded), Action::OpenOutput(_)));
    assert!(matches!(run.step(Event::Failed), Action::WaitAll));
    assert!(matches!(run.step(Event::Waited(vec![Some(0)])), Action::Finish(1)));
}

#[test]
fn builtins_act_in_the_shell() {
    let (_, a) = start("exit 3");
    assert!(matches!(a, Action::ExitShell(3)));
    let (_, a) = start("exit");
    assert!(matches!(a, Action::ExitShell(0)));
    let (_, a) = start("exit nope");
    assert!(matches!(a, Action::ExitShell(0)));
    let (mut run, a) = start("cd /tmp");
    assert!(matches!(&a, Action::ChangeDir(Some(p)) if p == "/tmp"));
    assert!(matches!(run.step(Event::Succeeded), Action::Finish(0)));
    let (mut run, a) = start("cd");
    assert!(matches!(a, Action::ChangeDir(None)));
    assert!(matches!(run.step(Event::Failed), Action::Finish(1)));
    let (mut run, a) = start("pwd");
    assert!(matches!(a, Action::PrintWorkingDir));
    assert!(matches!(run.step(Event::Succeeded), Action::Finish(0)));
}

#[test]
fn builtins_in_a_pipeline_are_spawned() {
    let (_, a) = start("pwd | cat");
    let (argv, _, _) = spawn_of(&a);
    assert_eq!(argv, vec!["pwd"]);
}

#[test]
fn pipeline_status_is_the_last_childs() {
    assert_eq!(status_of(&vec![]), 0);
    assert_eq!(status_of(&vec![Some(5)]), 5);
    assert_eq!(status_of(&vec![Some(5), None]), 1);
    assert_eq!(status_of(&vec![None, Some(2)]), 2);
}

#[test]
fn an_empty_pipeline_only_waits() {
    let (mut run, a) = run_pipeline(lib::parser::Pipeline { commands: vec![] });
    assert!(matches!(a, Action::WaitAll));
    assert!(matches!(run.step(Event::Waited(vec![])), Action::Finish(0)));
}
