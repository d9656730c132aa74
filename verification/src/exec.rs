//! The decisions that drive the execution of a parsed pipeline.
//!
//! Running a pipeline alternates work that only the surrounding program can
//! do (open a file, spawn a process, wait for children, change directory)
//! with decisions. A `PipelineRun` holds the state of one run: each call
//! of `step` takes the outcome of the last action and returns the next one.
//! All stages of a pipeline are spawned before any is waited for, every
//! spawned child is waited for before the run finishes, and the status of a
//! run is the status of its last stage.
use vstd::prelude::*;

use crate::builtin::{
    decimal_i32, exit_status, exit_status_of, lemma_decimal_roundtrip, same_text,
    signed_decimal_text,
};
use crate::parser::{Cmd, CmdView, Pipeline, cmds_view, opt_string_view, strings_view};

verus! {

/// Where a stage reads its standard input from.
#[derive(Debug, PartialEq, Eq, Clone, Copy)]
pub enum InputSource {
    /// The shell's own standard input.
    Terminal,
    /// The file opened for the stage's `<` redirection.
    RedirectFile,
    /// The pipe from the previous stage's standard output.
    PreviousStage,
}

/// Where a stage writes its standard output to.
#[derive(Debug, PartialEq, Eq, Clone, Copy)]
pub enum OutputTarget {
    /// The shell's own standard output.
    Terminal,
    /// The file opened (created, truncated) for the stage's `>` redirection.
    RedirectFile,
    /// A pipe to the next stage.
    NextStage,
}

/// What the shell is to do next.
#[derive(Debug)]
pub enum Action {
    /// End the shell process with this status.
    ExitShell(i32),
    /// Change the shell's working directory to the path, or to the home
    /// directory where there is none.
    ChangeDir(Option<String>),
    /// Print the shell's working directory.
    PrintWorkingDir,
    /// Open the file for reading, as the standard input of the current stage.
    OpenInput(String),
    /// Create or truncate the file, as the standard output of the current stage.
    OpenOutput(String),
    /// Spawn the current stage, without waiting for it.
    Spawn { argv: Vec<String>, input: InputSource, output: OutputTarget },
    /// Wait for every child spawned in this run, in the order of spawning.
    WaitAll,
    /// The run is over, with this status.
    Finish(i32),
}

/// The model of an action.
pub enum ActionView {
    ExitShell(i32),
    ChangeDir(Option<Seq<char>>),
    PrintWorkingDir,
    OpenInput(Seq<char>),
    OpenOutput(Seq<char>),
    Spawn { argv: Seq<Seq<char>>, input: InputSource, output: OutputTarget },
    WaitAll,
    Finish(i32),
}

impl View for Action {
    type V = ActionView;

    open spec fn view(&self) -> ActionView {
        match self {
            Action::ExitShell(c) => ActionView::ExitShell(*c),
            Action::ChangeDir(p) => ActionView::ChangeDir(opt_string_view(*p)),
            Action::PrintWorkingDir => ActionView::PrintWorkingDir,
            Action::OpenInput(p) => ActionView::OpenInput(p@),
            Action::OpenOutput(p) => ActionView::OpenOutput(p@),
            Action::Spawn { argv, input, output } => ActionView::Spawn {
                argv: strings_view(argv@),
                input: *input,
                output: *output,
            },
            Action::WaitAll => ActionView::WaitAll,
            Action::Finish(c) => ActionView::Finish(*c),
        }
    }
}

/// The outcome of the last action.
#[derive(Debug)]
pub enum Event {
    /// The directory change, print, open or spawn succeeded.
    Succeeded,
    /// The directory change, print, open or spawn failed.
    Failed,
    /// The children were waited for: the exit code of each, in the order of
    /// spawning, or `None` where it has none or the wait failed.
    Waited(Vec<Option<i32>>),
}

/// What a run waits for.
#[derive(Debug, PartialEq, Eq, Clone, Copy)]
pub enum Phase {
    /// The outcome of `ChangeDir` or `PrintWorkingDir`.
    Builtin,
    /// The outcome of `OpenInput` for the current stage.
    Input,
    /// The outcome of `OpenOutput` for the current stage.
    Output,
    /// The outcome of `Spawn` for the current stage.
    Spawn,
    /// The statuses of the children; the run's status where it is already decided.
    Wait(Option<i32>),
    /// Nothing: the run is over.
    Done,
}

/// The state of one run of a pipeline.
pub struct PipelineRun {
    commands: Vec<Cmd>,
    stage: usize,
    phase: Phase,
}

/// The model of a run: the commands, the current stage (the stages before it
/// have been spawned), and what the run waits for.
pub struct RunView {
    pub commands: Seq<CmdView>,
    pub stage: nat,
    pub phase: Phase,
}

impl View for PipelineRun {
    type V = RunView;

    closed spec fn view(&self) -> RunView {
        RunView { commands: cmds_view(self.commands@), stage: self.stage as nat, phase: self.phase }
    }
}

/// Every command has a program name.
pub open spec fn all_named(cmds: Seq<CmdView>) -> bool {
    forall|i: int| 0 <= i < cmds.len() ==> #[trigger] cmds[i].argv.len() >= 1
}

/// The builtin command that a lone command with arguments `argv` is, if any:
/// `exit`, `cd` or `pwd`.
pub open spec fn builtin_action(argv: Seq<Seq<char>>) -> Option<ActionView> {
    if argv[0] == "exit"@ {
        Some(ActionView::ExitShell(exit_status(argv)))
    } else if argv[0] == "cd"@ {
        Some(
            ActionView::ChangeDir(
                if argv.len() > 1 {
                    Some(argv[1])
                } else {
                    None
                },
            ),
        )
    } else if argv[0] == "pwd"@ {
        Some(ActionView::PrintWorkingDir)
    } else {
        None
    }
}

/// Where stage `i` of `cmds` reads from: the previous stage, unless it is the
/// first; then its `<` file where it has one.
pub open spec fn stage_input(cmds: Seq<CmdView>, i: nat) -> InputSource {
    if i > 0 {
        InputSource::PreviousStage
    } else if cmds[0].stdin_from is Some {
        InputSource::RedirectFile
    } else {
        InputSource::Terminal
    }
}

/// Where stage `i` of `cmds` writes to: the next stage, unless it is the
/// last; then its `>` file where it has one.
pub open spec fn stage_output(cmds: Seq<CmdView>, i: nat) -> OutputTarget {
    if i + 1 < cmds.len() {
        OutputTarget::NextStage
    } else if cmds[i as int].stdout_to is Some {
        OutputTarget::RedirectFile
    } else {
        OutputTarget::Terminal
    }
}

/// The spawn of stage `i` of `cmds`.
pub open spec fn spawn_action(cmds: Seq<CmdView>, i: nat) -> ActionView {
    ActionView::Spawn {
        argv: cmds[i as int].argv,
        input: stage_input(cmds, i),
        output: stage_output(cmds, i),
    }
}

/// The status of a pipeline whose children ended with `codes`: that of the
/// last child, 1 where it has no exit code; 0 where there is no child.
pub open spec fn pipeline_status(codes: Seq<Option<i32>>) -> i32 {
    if codes.len() == 0 {
        0
    } else {
        match codes.last() {
            Some(c) => c,
            None => 1,
        }
    }
}

/// Stage `i` is ready to spawn once its input is open: open its output file
/// first where it writes to one.
pub open spec fn after_input(cmds: Seq<CmdView>, i: nat) -> (RunView, ActionView) {
    if stage_output(cmds, i) == OutputTarget::RedirectFile {
        (
            RunView { commands: cmds, stage: i, phase: Phase::Output },
            ActionView::OpenOutput(cmds[i as int].stdout_to->Some_0),
        )
    } else {
        (RunView { commands: cmds, stage: i, phase: Phase::Spawn }, spawn_action(cmds, i))
    }
}

/// Stage `i` comes next: once all stages are spawned, wait for them; else open
/// its input file first where it reads from one.
pub open spec fn enter_stage(cmds: Seq<CmdView>, i: nat) -> (RunView, ActionView) {
    if i >= cmds.len() {
        (RunView { commands: cmds, stage: i, phase: Phase::Wait(None) }, ActionView::WaitAll)
    } else if stage_input(cmds, i) == InputSource::RedirectFile {
        (
            RunView { commands: cmds, stage: i, phase: Phase::Input },
            ActionView::OpenInput(cmds[i as int].stdin_from->Some_0),
        )
    } else {
        after_input(cmds, i)
    }
}

/// How a run of `cmds` begins: a lone builtin command acts in the shell
/// itself; anything else starts with its first stage.
pub open spec fn start(cmds: Seq<CmdView>) -> (RunView, ActionView) {
    if cmds.len() == 1 && builtin_action(cmds[0].argv) is Some {
        let a = builtin_action(cmds[0].argv)->Some_0;
        (
            RunView {
                commands: cmds,
                stage: 0,
                phase: if a is ExitShell {
                    Phase::Done
                } else {
                    Phase::Builtin
                },
            },
            a,
        )
    } else {
        enter_stage(cmds, 0)
    }
}

/// A failure decides the run's status: a lone command (nothing spawned)
/// finishes at once; a longer pipeline first waits for what it spawned.
pub open spec fn fail(s: RunView, status: i32) -> (RunView, ActionView) {
    if s.commands.len() == 1 {
        (RunView { phase: Phase::Done, ..s }, ActionView::Finish(status))
    } else {
        (RunView { phase: Phase::Wait(Some(status)), ..s }, ActionView::WaitAll)
    }
}

/// The event fits what the run waits for.
pub open spec fn accepts(s: RunView, e: Event) -> bool {
    &&& s.phase != Phase::Done
    &&& (e is Waited <==> s.phase is Wait)
}

/// The state and action that follow event `e` in state `s`.
pub open spec fn next(s: RunView, e: Event) -> (RunView, ActionView) {
    let ok = e is Succeeded;
    match s.phase {
        Phase::Builtin => (
            RunView { phase: Phase::Done, ..s },
            ActionView::Finish(
                if ok {
                    0
                } else {
                    1
                },
            ),
        ),
        Phase::Input => if ok {
            after_input(s.commands, s.stage)
        } else {
            fail(s, 1)
        },
        Phase::Output => if ok {
            (RunView { phase: Phase::Spawn, ..s }, spawn_action(s.commands, s.stage))
        } else {
            fail(s, 1)
        },
        Phase::Spawn => if ok {
            enter_stage(s.commands, s.stage + 1)
        } else {
            fail(s, 127)
        },
        Phase::Wait(decided) => (
            RunView { phase: Phase::Done, ..s },
            ActionView::Finish(
                match decided {
                    Some(c) => c,
                    None => match e {
                        Event::Waited(codes) => pipeline_status(codes@),
                        _ => 0,
                    },
                },
            ),
        ),
        Phase::Done => (s, ActionView::Finish(0)),
    }
}

/// A state that a run can be in.
pub open spec fn run_wf(s: RunView) -> bool {
    &&& all_named(s.commands)
    &&& s.stage <= s.commands.len()
    &&& (s.phase == Phase::Builtin ==> s.commands.len() == 1 && s.stage == 0)
    &&& (s.phase == Phase::Input || s.phase == Phase::Output || s.phase == Phase::Spawn
        ==> s.stage < s.commands.len())
}

impl PipelineRun {
    /// The state of this run.
    pub open spec fn wf(&self) -> bool {
        run_wf(self@)
    }
}

/// A copy of a list of strings.
fn clone_strings(v: &Vec<String>) -> (r: Vec<String>)
    ensures
        strings_view(r@) == strings_view(v@),
{
    let mut r: Vec<String> = Vec::new();
    let mut i: usize = 0;
    while i < v.len()
        invariant
            i <= v@.len(),
            r@.len() == i,
            strings_view(r@) == strings_view(v@).take(i as int),
        decreases v@.len() - i,
    {
        let s = v[i].clone();
        r.push(s);
        assert(r@[i as int]@ == v@[i as int]@);
        i = i + 1;
        assert(strings_view(r@) == strings_view(v@).take(i as int));
    }
    assert(strings_view(v@).take(v@.len() as int) == strings_view(v@));
    r
}

/// The status of a pipeline whose children ended with `codes`.
pub fn status_of(codes: &Vec<Option<i32>>) -> (r: i32)
    ensures
        r == pipeline_status(codes@),
{
    if codes.len() == 0 {
        0
    } else {
        match codes[codes.len() - 1] {
            Some(c) => c,
            None => 1,
        }
    }
}

/// The builtin action of a lone command with arguments `argv`, if any.
fn builtin_of(argv: &Vec<String>) -> (r: Option<Action>)
    requires
        argv@.len() >= 1,
    ensures
        match builtin_action(strings_view(argv@)) {
            Some(a) => r matches Some(x) && x@ == a,
            None => r is None,
        },
{
    let ghost av = strings_view(argv@);
    assert(av[0] == argv@[0]@);
    let name = argv[0].as_str();
    if same_text(name, "exit") {
        Some(Action::ExitShell(exit_status_of(argv)))
    } else if same_text(name, "cd") {
        if argv.len() > 1 {
            assert(av[1] == argv@[1]@);
            Some(Action::ChangeDir(Some(argv[1].clone())))
        } else {
            Some(Action::ChangeDir(None))
        }
    } else if same_text(name, "pwd") {
        Some(Action::PrintWorkingDir)
    } else {
        None
    }
}

/// Starts a run of `pipeline`: its state and first action. A lone `exit`,
/// `cd` or `pwd` acts in the shell itself; anything else starts with the
/// first stage, as `start` says. The program carries out each action and
/// hands its outcome to `step`, until the action is `Finish` or `ExitShell`.
pub fn run_pipeline(pipeline: Pipeline) -> (r: (PipelineRun, Action))
    requires
        all_named(pipeline@),
    ensures
        r.0.wf(),
        (r.0@, r.1@) == start(pipeline@),
{
    let mut run = PipelineRun { commands: pipeline.commands, stage: 0, phase: Phase::Done };
    let ghost cmds = run@.commands;
    if run.commands.len() == 1 {
        assert(cmds[0].argv.len() >= 1);
        assert(cmds[0].argv.len() == run.commands@[0].argv@.len());
        let b = builtin_of(&run.commands[0].argv);
        match b {
            Some(a) => {
                run.phase = match a {
                    Action::ExitShell(_) => Phase::Done,
                    _ => Phase::Builtin,
                };
                return (run, a);
            },
            None => {},
        }
    }
    let a = run.enter_stage();
    (run, a)
}

impl PipelineRun {
    /// Moves on to the current stage.
    fn enter_stage(&mut self) -> (a: Action)
        requires
            all_named(old(self)@.commands),
            old(self)@.stage <= old(self)@.commands.len(),
        ensures
            (final(self)@, a@) == enter_stage(old(self)@.commands, old(self)@.stage),
    {
        let i = self.stage;
        if i >= self.commands.len() {
            self.phase = Phase::Wait(None);
            return Action::WaitAll;
        }
        if i == 0 {
            match &self.commands[0].stdin_from {
                Some(path) => {
                    let p = path.clone();
                    self.phase = Phase::Input;
                    return Action::OpenInput(p);
                },
                None => {},
            }
        }
        self.after_input()
    }

    /// The current stage's input is ready.
    fn after_input(&mut self) -> (a: Action)
        requires
            all_named(old(self)@.commands),
            old(self)@.stage < old(self)@.commands.len(),
        ensures
            (final(self)@, a@) == after_input(old(self)@.commands, old(self)@.stage),
    {
        let i = self.stage;
        assert(self.commands@.len() == self@.commands.len());
        assert(i < self.commands.len());
        if i + 1 == self.commands.len() {
            match &self.commands[i].stdout_to {
                Some(path) => {
                    let p = path.clone();
                    self.phase = Phase::Output;
                    return Action::OpenOutput(p);
                },
                None => {},
            }
        }
        self.phase = Phase::Spawn;
        self.spawn_action()
    }

    /// The spawn of the current stage.
    fn spawn_action(&self) -> (a: Action)
        requires
            all_named(self@.commands),
            self@.stage < self@.commands.len(),
        ensures
            a@ == spawn_action(self@.commands, self@.stage),
    {
        let i = self.stage;
        let n = self.commands.len();
        let input = if i > 0 {
            InputSource::PreviousStage
        } else if self.commands[0].stdin_from.is_some() {
            InputSource::RedirectFile
        } else {
            InputSource::Terminal
        };
        let output = if i + 1 < n {
            OutputTarget::NextStage
        } else if self.commands[i].stdout_to.is_some() {
            OutputTarget::RedirectFile
        } else {
            OutputTarget::Terminal
        };
        Action::Spawn { argv: clone_strings(&self.commands[i].argv), input, output }
    }

    /// A failure with this status.
    fn fail(&mut self, status: i32) -> (a: Action)
        ensures
            (final(self)@, a@) == fail(old(self)@, status),
    {
        if self.commands.len() == 1 {
            self.phase = Phase::Done;
            Action::Finish(status)
        } else {
            self.phase = Phase::Wait(Some(status));
            Action::WaitAll
        }
    }

    /// Takes the outcome of the last action and returns the next action.
    pub fn step(&mut self, event: Event) -> (a: Action)
        requires
            old(self).wf(),
            accepts(old(self)@, event),
        ensures
            final(self).wf(),
            (final(self)@, a@) == next(old(self)@, event),
    {
        let ok = match event {
            Event::Succeeded => true,
            _ => false,
        };
        match self.phase {
            Phase::Builtin => {
                self.phase = Phase::Done;
                Action::Finish(
                    if ok {
                        0
                    } else {
                        1
                    },
                )
            },
            Phase::Input => {
                if ok {
                    self.after_input()
                } else {
                    self.fail(1)
                }
            },
            Phase::Output => {
                if ok {
                    self.phase = Phase::Spawn;
                    self.spawn_action()
                } else {
                    self.fail(1)
                }
            },
            Phase::Spawn => {
                if ok {
                    assert(self@.phase == Phase::Spawn);
                    assert(self.commands@.len() == self@.commands.len());
                    assert(self.stage < self.commands.len());
                    self.stage = self.stage + 1;
                    self.enter_stage()
                } else {
                    self.fail(127)
                }
            },
            Phase::Wait(decided) => {
                self.phase = Phase::Done;
                match decided {
                    Some(c) => Action::Finish(c),
                    None => match &event {
                        Event::Waited(codes) => Action::Finish(status_of(codes)),
                        _ => Action::Finish(0),
                    },
                }
            },
            Phase::Done => Action::Finish(0),
        }
    }

    /// Whether `event` fits what the run waits for.
    pub fn can_take(&self, event: &Event) -> (r: bool)
        ensures
            r == accepts(self@, *event),
    {
        let waited = match event {
            Event::Waited(_) => true,
            _ => false,
        };
        match self.phase {
            Phase::Done => false,
            Phase::Wait(_) => waited,
            _ => !waited,
        }
    }

    /// Whether the run is over.
    pub fn is_done(&self) -> (r: bool)
        ensures
            r == (self@.phase == Phase::Done),
    {
        match self.phase {
            Phase::Done => true,
            _ => false,
        }
    }
}

/// The actions that answer the events `evs`, one by one, from state `s`,
/// until an event does not fit.
pub open spec fn respond(s: RunView, evs: Seq<Event>) -> Seq<ActionView>
    decreases evs.len(),
{
    if evs.len() == 0 || !accepts(s, evs[0]) {
        seq![]
    } else {
        seq![next(s, evs[0]).1] + respond(next(s, evs[0]).0, evs.drop_first())
    }
}

/// `m` successes, then the statuses `codes` of the children.
pub open spec fn successes_then_wait(m: nat, codes: Vec<Option<i32>>) -> Seq<Event> {
    Seq::new(m, |k: int| Event::Succeeded).push(Event::Waited(codes))
}

/// The actions of stage `i` of `cmds` where all goes well. The first stage
/// opens its `<` file, where it has one; the last stage opens its `>` file,
/// where it has one; then the stage is spawned with its program and
/// arguments, reading from the previous stage (or, for the first, from its
/// `<` file or else the terminal) and writing to the next stage (or, for the
/// last, to its `>` file or else the terminal).
pub open spec fn stage_actions(cmds: Seq<CmdView>, i: nat) -> Seq<ActionView> {
    let n = cmds.len();
    let c = cmds[i as int];
    let reads_file = i == 0 && c.stdin_from is Some;
    let writes_file = i + 1 == n && c.stdout_to is Some;
    (if reads_file {
        seq![ActionView::OpenInput(c.stdin_from->Some_0)]
    } else {
        seq![]
    }) + (if writes_file {
        seq![ActionView::OpenOutput(c.stdout_to->Some_0)]
    } else {
        seq![]
    }) + seq![
        ActionView::Spawn {
            argv: c.argv,
            input: if i > 0 {
                InputSource::PreviousStage
            } else if reads_file {
                InputSource::RedirectFile
            } else {
                InputSource::Terminal
            },
            output: if i + 1 < n {
                OutputTarget::NextStage
            } else if writes_file {
                OutputTarget::RedirectFile
            } else {
                OutputTarget::Terminal
            },
        },
    ]
}

/// The actions of the stages from `i` on, in order.
pub open spec fn stages_actions(cmds: Seq<CmdView>, i: nat) -> Seq<ActionView>
    decreases cmds.len() - i,
{
    if i >= cmds.len() {
        seq![]
    } else {
        stage_actions(cmds, i) + stages_actions(cmds, i + 1)
    }
}

proof fn lemma_successes_drop(m: nat, codes: Vec<Option<i32>>)
    requires
        m >= 1,
    ensures
        successes_then_wait(m, codes)[0] == Event::Succeeded,
        successes_then_wait(m, codes).drop_first() == successes_then_wait((m - 1) as nat, codes),
{
    assert(successes_then_wait(m, codes).drop_first() =~= successes_then_wait(
        (m - 1) as nat,
        codes,
    ));
}

/// The run from stage `i` on, where every open and spawn succeeds.
proof fn lemma_run_from(cmds: Seq<CmdView>, i: nat, codes: Vec<Option<i32>>)
    requires
        all_named(cmds),
        i <= cmds.len(),
    ensures
        ({
            let (s, a) = enter_stage(cmds, i);
            let m = stages_actions(cmds, i).len();
            seq![a] + respond(s, successes_then_wait(m, codes)) == stages_actions(cmds, i) + seq![
                ActionView::WaitAll,
                ActionView::Finish(pipeline_status(codes@)),
            ]
        }),
    decreases cmds.len() - i,
{
    let n = cmds.len();
    let fin = seq![ActionView::WaitAll, ActionView::Finish(pipeline_status(codes@))];
    if i == n {
        let (s, a) = enter_stage(cmds, i);
        let evs = successes_then_wait(0, codes);
        assert(evs.drop_first() =~= Seq::<Event>::empty());
        assert(respond(next(s, evs[0]).0, evs.drop_first()) == Seq::<ActionView>::empty());
        assert(seq![a] + respond(s, evs) =~= fin);
        assert(stages_actions(cmds, i) + fin =~= fin);
    } else {
        lemma_run_from(cmds, i + 1, codes);
        let later = stages_actions(cmds, i + 1);
        let own = stage_actions(cmds, i);
        let m = own.len() + later.len();
        assert(stages_actions(cmds, i) == own + later);
        let has_in = stage_input(cmds, i) == InputSource::RedirectFile;
        let has_out = stage_output(cmds, i) == OutputTarget::RedirectFile;
        assert(has_in == (i == 0 && cmds[i as int].stdin_from is Some));
        assert(has_out == (i + 1 == n && cmds[i as int].stdout_to is Some));
        // After the spawn of stage `i`, the run goes on from stage `i + 1`.
        let sp = RunView { commands: cmds, stage: i, phase: Phase::Spawn };
        let evs0 = successes_then_wait(later.len() + 1, codes);
        lemma_successes_drop(later.len() + 1, codes);
        let tail = seq![enter_stage(cmds, i + 1).1] + respond(
            enter_stage(cmds, i + 1).0,
            successes_then_wait(later.len(), codes),
        );
        assert(respond(sp, evs0) == tail);
        assert(tail == later + fin);
        // Before it, the opens of its files, each answered by a success.
        let so = RunView { commands: cmds, stage: i, phase: Phase::Output };
        let evs1 = successes_then_wait(later.len() + 2, codes);
        lemma_successes_drop(later.len() + 2, codes);
        assert(respond(so, evs1) == seq![spawn_action(cmds, i)] + tail);
        let si = RunView { commands: cmds, stage: i, phase: Phase::Input };
        let (s, a) = enter_stage(cmds, i);
        if has_in && has_out {
            let evs2 = successes_then_wait(later.len() + 3, codes);
            lemma_successes_drop(later.len() + 3, codes);
            assert(after_input(cmds, i) == (so, ActionView::OpenOutput(cmds[i as int].stdout_to->Some_0)));
            assert(respond(si, evs2) == seq![ActionView::OpenOutput(cmds[i as int].stdout_to->Some_0)] + (seq![spawn_action(cmds, i)] + tail));
            assert(m == later.len() + 3);
            assert(seq![a] + respond(s, evs2) =~= own + later + fin);
        } else if has_in {
            let evs2 = successes_then_wait(later.len() + 2, codes);
            assert(after_input(cmds, i) == (sp, spawn_action(cmds, i)));
            assert(respond(si, evs2) == seq![spawn_action(cmds, i)] + tail);
            assert(m == later.len() + 2);
            assert(seq![a] + respond(s, evs2) =~= own + later + fin);
        } else if has_out {
            assert(m == later.len() + 2);
            assert(seq![a] + respond(s, evs1) =~= own + later + fin);
        } else {
            assert(m == later.len() + 1);
            assert(seq![a] + respond(s, evs0) =~= own + later + fin);
        }
        assert(own + later + fin == stages_actions(cmds, i) + fin);
    }
}

/// A pipeline that is not a lone `exit`, `cd` or `pwd` runs all its stages in
/// order, each wired to its neighbours and its redirection files; once all are
/// spawned it waits for them, and its status is that of the last stage: its
/// exit code, 1 where it has none, and 0 for a pipeline without stages.
pub proof fn lemma_successful_run(cmds: Seq<CmdView>, codes: Vec<Option<i32>>)
    requires
        all_named(cmds),
        cmds.len() != 1 || (cmds[0].argv[0] != "exit"@ && cmds[0].argv[0] != "cd"@
            && cmds[0].argv[0] != "pwd"@),
    ensures
        ({
            let m = stages_actions(cmds, 0).len();
            let status = if codes@.len() == 0 {
                0i32
            } else {
                match codes@.last() {
                    Some(c) => c,
                    None => 1i32,
                }
            };
            seq![start(cmds).1] + respond(start(cmds).0, successes_then_wait(m, codes))
                == stages_actions(cmds, 0) + seq![ActionView::WaitAll, ActionView::Finish(status)]
        }),
{
    lemma_run_from(cmds, 0, codes);
}

/// A lone `cd` changes to its first argument, whatever it is, or to the home
/// directory where it has none; a lone `pwd` prints the working directory; a
/// lone `exit` ends the shell with its first argument read as a decimal
/// `i32`, or 0. `cd` and `pwd` end with status 0 when they succeed and 1 when
/// they fail.
pub proof fn lemma_lone_builtins(cmds: Seq<CmdView>)
    requires
        cmds.len() == 1,
        all_named(cmds),
    ensures
        ({
            let argv = cmds[0].argv;
            let (s, a) = start(cmds);
            &&& argv[0] == "cd"@ ==> a == ActionView::ChangeDir(
                if argv.len() > 1 {
                    Some(argv[1])
                } else {
                    None
                },
            )
            &&& argv[0] == "pwd"@ ==> a == ActionView::PrintWorkingDir
            &&& argv[0] == "exit"@ ==> a == ActionView::ExitShell(
                if argv.len() > 1 && decimal_i32(argv[1]) is Some {
                    decimal_i32(argv[1])->Some_0
                } else {
                    0
                },
            ) && s.phase == Phase::Done
            &&& (argv[0] == "cd"@ || argv[0] == "pwd"@) ==> next(s, Event::Succeeded).1
                == ActionView::Finish(0) && next(s, Event::Failed).1 == ActionView::Finish(1)
        }),
{
    reveal_strlit("cd");
    reveal_strlit("pwd");
    reveal_strlit("exit");
    let argv = cmds[0].argv;
    let (s, a) = start(cmds);
    assert("cd"@.len() == 2);
    assert("pwd"@.len() == 3);
    assert("exit"@.len() == 4);
    assert("cd"@ != "exit"@);
    assert("pwd"@ != "exit"@);
    assert("pwd"@ != "cd"@);
    if argv[0] == "cd"@ {
        assert(builtin_action(argv) is Some);
        assert(s.phase == Phase::Builtin);
    }
    if argv[0] == "pwd"@ {
        assert(builtin_action(argv) is Some);
        assert(s.phase == Phase::Builtin);
    }
    if argv[0] == "exit"@ {
        assert(a == ActionView::ExitShell(exit_status(argv)));
    }
}

/// `exit n` ends the shell with status `n`, for every `i32` `n` written in decimal.
pub proof fn lemma_exit_status_roundtrip(cmds: Seq<CmdView>, n: i32)
    requires
        cmds.len() == 1,
        cmds[0].argv == seq!["exit"@, signed_decimal_text(n as int)],
    ensures
        start(cmds).1 == ActionView::ExitShell(n),
{
    lemma_decimal_roundtrip(n);
    assert(cmds[0].argv[1] == signed_decimal_text(n as int));
}

/// The shell's own commands act only as lone commands: in a longer
/// pipeline, `exit`, `cd` and `pwd` are spawned like any other program.
pub proof fn lemma_builtins_only_alone(cmds: Seq<CmdView>)
    requires
        cmds.len() != 1,
    ensures
        !(start(cmds).1 is ExitShell),
        !(start(cmds).1 is ChangeDir),
        !(start(cmds).1 is PrintWorkingDir),
{
}

/// No child is left behind: a run that has spawned a stage finishes only
/// by answering the statuses of its children.
pub proof fn lemma_finish_only_after_wait(s: RunView, e: Event)
    requires
        run_wf(s),
        accepts(s, e),
        next(s, e).1 is Finish,
    ensures
        s.stage == 0 || s.phase is Wait,
{
}

/// Stages run concurrently: a run waits for its children only once every
/// stage is spawned, or after a failure has decided its status.
pub proof fn lemma_wait_after_all_spawned(s: RunView, e: Event)
    requires
        run_wf(s),
        accepts(s, e),
        next(s, e).1 is WaitAll,
    ensures
        next(s, e).0.stage == s.commands.len() || next(s, e).0.phase matches Phase::Wait(Some(_)),
{
}

/// A program that cannot be spawned ends the run with status 127, and a
/// redirection file that cannot be opened with status 1, after the children
/// spawned so far have been waited for.
pub proof fn lemma_failure_status(s: RunView, codes: Vec<Option<i32>>)
    requires
        run_wf(s),
        s.phase == Phase::Spawn || s.phase == Phase::Input || s.phase == Phase::Output,
    ensures
        ({
            let status = if s.phase == Phase::Spawn {
                127i32
            } else {
                1i32
            };
            let (s2, a) = next(s, Event::Failed);
            &&& a is Finish ==> a == ActionView::Finish(status)
            &&& a is WaitAll ==> next(s2, Event::Waited(codes)).1 == ActionView::Finish(status)
            &&& (a is Finish || a is WaitAll)
        }),
{
}

} // verus!
