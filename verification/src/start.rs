//! Launching a capture: the order of the launcher's steps, what it records,
//! how it ends, and the duplication of one output stream.
//!
//! The launcher is a state machine. The caller performs each action and
//! reports what happened; [`run`] answers with the next action.

use crate::lines::{complete_lines, fragment, lemma_cut, lemma_cut_in_pieces, views, LineBuffer};
use crate::meta::{
    capture_dir, capture_path, joined_path, log_name, log_path, meta_name, meta_path, Meta,
    MetaView, Stream,
};
use crate::text::{copy_text, copy_texts};
use vstd::prelude::*;
use vstd::string::*;

verus! {

/// A child that fails sooner than this many seconds after its spawn is
/// taken for a program that wants a terminal.
pub const GRACE_SECS: u64 = 2;

/// The exit code of a launch that failed by itself, and of a child that
/// ended without a code.
pub const FAILURE: i32 = 1;

/// Where a launch stands.
#[derive(Clone, Copy, PartialEq, Eq, Structural, Debug)]
pub enum Phase {
    /// Nothing was done yet.
    Idle,
    /// An earlier capture of the same name is being removed.
    Clearing,
    /// The capture directory is being created.
    Creating,
    /// The child is being spawned.
    Spawning,
    /// The metadata record is being written.
    Recording,
    /// The two streams are being duplicated.
    Draining,
    /// The child's exit is awaited.
    Waiting,
    /// The launch is over.
    Finished,
}

/// What the caller reports to the launcher.
pub enum Event {
    /// The launch begins; `exists` says whether the capture directory is
    /// there already.
    Begin { exists: bool },
    /// The last action was carried out.
    Done,
    /// The child runs.
    Spawned { pid: u32, started_at: String },
    /// The child could not be spawned.
    SpawnFailed { reason: String },
    /// The child ended, `elapsed_secs` whole seconds after its spawn.
    Exited { code: Option<i32>, elapsed_secs: u64 },
}

/// The mathematical content of an [`Event`].
pub ghost enum EventView {
    Begin { exists: bool },
    Done,
    Spawned { pid: u32, started_at: Seq<char> },
    SpawnFailed { reason: Seq<char> },
    Exited { code: Option<i32>, elapsed_secs: u64 },
}

impl View for Event {
    type V = EventView;

    open spec fn view(&self) -> EventView {
        match *self {
            Event::Begin { exists } => EventView::Begin { exists },
            Event::Done => EventView::Done,
            Event::Spawned { pid, started_at } => EventView::Spawned {
                pid,
                started_at: started_at@,
            },
            Event::SpawnFailed { reason } => EventView::SpawnFailed { reason: reason@ },
            Event::Exited { code, elapsed_secs } => EventView::Exited { code, elapsed_secs },
        }
    }
}

/// What the launcher asks the caller to do.
pub enum Action {
    /// Delete the directory and all below it.
    RemoveDir { dir: String },
    /// Create the directory.
    CreateDir { dir: String },
    /// Spawn the program with both output streams piped.
    Spawn { program: String, args: Vec<String> },
    /// Write the record to the path.
    WriteMeta { path: String, meta: Meta },
    /// Duplicate the two streams into these logs until both have ended.
    Duplicate { stdout_log: String, stderr_log: String },
    /// Wait for the child to end.
    Wait,
    /// Print the diagnostics to standard error and exit with the code.
    Exit { code: i32, diagnostics: Vec<String> },
}

/// The mathematical content of an [`Action`].
pub ghost enum ActionView {
    RemoveDir { dir: Seq<char> },
    CreateDir { dir: Seq<char> },
    Spawn { program: Seq<char>, args: Seq<Seq<char>> },
    WriteMeta { path: Seq<char>, meta: MetaView },
    Duplicate { stdout_log: Seq<char>, stderr_log: Seq<char> },
    Wait,
    Exit { code: i32, diagnostics: Seq<Seq<char>> },
}

impl View for Action {
    type V = ActionView;

    open spec fn view(&self) -> ActionView {
        match *self {
            Action::RemoveDir { dir } => ActionView::RemoveDir { dir: dir@ },
            Action::CreateDir { dir } => ActionView::CreateDir { dir: dir@ },
            Action::Spawn { program, args } => ActionView::Spawn {
                program: program@,
                args: args.deep_view(),
            },
            Action::WriteMeta { path, meta } => ActionView::WriteMeta { path: path@, meta: meta@ },
            Action::Duplicate { stdout_log, stderr_log } => ActionView::Duplicate {
                stdout_log: stdout_log@,
                stderr_log: stderr_log@,
            },
            Action::Wait => ActionView::Wait,
            Action::Exit { code, diagnostics } => ActionView::Exit {
                code,
                diagnostics: diagnostics.deep_view(),
            },
        }
    }
}

/// The hint given when a child could not run or failed at once.
pub open spec fn hint() -> Seq<char> {
    "hint: interactive CLIs (e.g. vim, htop) are not supported"@
}

/// The diagnostic for a program that could not be spawned.
pub open spec fn spawn_error(program: Seq<char>, reason: Seq<char>) -> Seq<char> {
    "error: failed to spawn '"@ + program + "': "@ + reason
}

/// The launcher's exit code for a child that ended with `code`.
pub open spec fn exit_code(code: Option<i32>) -> i32 {
    match code {
        Some(c) => c,
        None => FAILURE,
    }
}

/// What is printed when the child has ended.
pub open spec fn exit_diagnostics(code: i32, elapsed_secs: u64) -> Seq<Seq<char>> {
    if code != 0 && elapsed_secs < GRACE_SECS {
        seq![hint()]
    } else {
        Seq::empty()
    }
}

/// The state of a launch.
pub struct Launch {
    phase: Phase,
    dir: String,
    command: Vec<String>,
}

/// The mathematical content of a [`Launch`].
pub ghost struct LaunchView {
    pub phase: Phase,
    pub dir: Seq<char>,
    pub command: Seq<Seq<char>>,
}

impl View for Launch {
    type V = LaunchView;

    closed spec fn view(&self) -> LaunchView {
        LaunchView { phase: self.phase, dir: self.dir@, command: self.command.deep_view() }
    }
}

/// The launcher's answer to `event` in state `state`: the next phase and
/// the action, or nothing where the event does not belong to the phase.
pub open spec fn step(state: LaunchView, event: EventView) -> Option<(Phase, ActionView)> {
    match (state.phase, event) {
        (Phase::Idle, EventView::Begin { exists }) => if exists {
            Some((Phase::Clearing, ActionView::RemoveDir { dir: state.dir }))
        } else {
            Some((Phase::Creating, ActionView::CreateDir { dir: state.dir }))
        },
        (Phase::Clearing, EventView::Done) => Some(
            (Phase::Creating, ActionView::CreateDir { dir: state.dir }),
        ),
        (Phase::Creating, EventView::Done) => Some(
            (
                Phase::Spawning,
                ActionView::Spawn {
                    program: state.command.first(),
                    args: state.command.drop_first(),
                },
            ),
        ),
        (Phase::Spawning, EventView::Spawned { pid, started_at }) => Some(
            (
                Phase::Recording,
                ActionView::WriteMeta {
                    path: joined_path(state.dir, meta_name()),
                    meta: MetaView { pid, command: state.command, started_at },
                },
            ),
        ),
        (Phase::Spawning, EventView::SpawnFailed { reason }) => Some(
            (
                Phase::Finished,
                ActionView::Exit {
                    code: FAILURE,
                    diagnostics: seq![spawn_error(state.command.first(), reason), hint()],
                },
            ),
        ),
        (Phase::Recording, EventView::Done) => Some(
            (
                Phase::Draining,
                ActionView::Duplicate {
                    stdout_log: joined_path(state.dir, log_name(Stream::Stdout)),
                    stderr_log: joined_path(state.dir, log_name(Stream::Stderr)),
                },
            ),
        ),
        (Phase::Draining, EventView::Done) => Some((Phase::Waiting, ActionView::Wait)),
        (Phase::Waiting, EventView::Exited { code, elapsed_secs }) => Some(
            (
                Phase::Finished,
                ActionView::Exit {
                    code: exit_code(code),
                    diagnostics: exit_diagnostics(exit_code(code), elapsed_secs),
                },
            ),
        ),
        _ => None,
    }
}

/// How far a launch has come.
pub open spec fn rank(phase: Phase) -> nat {
    match phase {
        Phase::Idle => 0,
        Phase::Clearing => 1,
        Phase::Creating => 2,
        Phase::Spawning => 3,
        Phase::Recording => 4,
        Phase::Draining => 5,
        Phase::Waiting => 6,
        Phase::Finished => 7,
    }
}

/// Every step moves the launch forward, so no action is asked for twice
/// and a launch ends after at most seven steps. Going by the ranks: a
/// directory of the same name is removed before the new one is created,
/// the record is written before the streams are drained, and the streams
/// are drained before the exit is awaited.
pub proof fn lemma_step_advances(state: LaunchView, event: EventView)
    ensures
        step(state, event) matches Some((next, action)) ==> {
            &&& rank(next) > rank(state.phase)
            &&& action is RemoveDir <==> state.phase == Phase::Idle && event
                == (EventView::Begin { exists: true })
            &&& action is RemoveDir ==> next == Phase::Clearing
            &&& action is CreateDir ==> next == Phase::Creating
            &&& action is Spawn ==> next == Phase::Spawning
            &&& action is WriteMeta ==> next == Phase::Recording
            &&& action is Duplicate ==> state.phase == Phase::Recording && next == Phase::Draining
            &&& action is Wait ==> state.phase == Phase::Draining && next == Phase::Waiting
            &&& action is Exit <==> next == Phase::Finished
        },
        state.phase == Phase::Finished ==> step(state, event) is None,
{
}

/// The record that a launch writes holds the command as it was given, in
/// its order, and lies in the capture directory.
pub proof fn lemma_record_keeps_command(state: LaunchView, event: EventView)
    ensures
        step(state, event) matches Some((_, ActionView::WriteMeta { path, meta })) ==> meta.command
            == state.command && path == joined_path(state.dir, meta_name()),
{
}

/// The place of an action in the order of a launch.
pub open spec fn action_rank(action: ActionView) -> nat {
    match action {
        ActionView::RemoveDir { .. } => 1,
        ActionView::CreateDir { .. } => 2,
        ActionView::Spawn { .. } => 3,
        ActionView::WriteMeta { .. } => 4,
        ActionView::Duplicate { .. } => 5,
        ActionView::Wait => 6,
        ActionView::Exit { .. } => 7,
    }
}

/// A launch that takes `events` one after the other from the state
/// `start`: the state it ends in and the actions it asked for, in order.
/// An event out of turn is passed over.
pub open spec fn launched(start: LaunchView, events: Seq<EventView>) -> (
    LaunchView,
    Seq<ActionView>,
)
    decreases events.len(),
{
    if events.len() == 0 {
        (start, Seq::empty())
    } else {
        let (state, actions) = launched(start, events.drop_last());
        match step(state, events.last()) {
            Some((next, action)) => (
                LaunchView { phase: next, dir: state.dir, command: state.command },
                actions.push(action),
            ),
            None => (state, actions),
        }
    }
}

/// What holds of the action at `at` among the actions of a launch that
/// began in `start`: the child is spawned right after the directory was
/// created, the streams are duplicated right after the record was written,
/// the exit is awaited right after the duplication, and the record holds
/// the command as given and lies in the capture directory.
pub open spec fn in_turn(start: LaunchView, actions: Seq<ActionView>, at: int) -> bool {
    &&& actions[at] is Spawn ==> at > 0 && actions[at - 1] == (ActionView::CreateDir {
        dir: start.dir,
    })
    &&& actions[at] is Duplicate ==> at > 0 && actions[at - 1] is WriteMeta
    &&& actions[at] is Wait ==> at > 0 && actions[at - 1] is Duplicate
    &&& actions[at] matches ActionView::WriteMeta { path, meta } ==> meta.command == start.command
        && path == joined_path(start.dir, meta_name())
}

/// Whatever is reported to a fresh launch, its actions come in one order,
/// each at most once: remove, create, spawn, record, duplicate, wait,
/// exit. The launch stands in the phase of its last action, every action
/// is in its turn, and after the exit nothing follows.
pub proof fn lemma_launch_in_order(start: LaunchView, events: Seq<EventView>)
    requires
        start.phase == Phase::Idle,
    ensures
        ({
            let (state, actions) = launched(start, events);
            &&& state.dir == start.dir
            &&& state.command == start.command
            &&& actions.len() == 0 ==> state.phase == Phase::Idle
            &&& actions.len() > 0 ==> rank(state.phase) == action_rank(actions.last())
            &&& actions.len() <= rank(state.phase) <= 7
            &&& forall|i: int, j: int|
                0 <= i < j < actions.len() ==> action_rank(#[trigger] actions[i]) < action_rank(
                    #[trigger] actions[j],
                )
            &&& forall|j: int| 0 <= j < actions.len() ==> in_turn(start, actions, j)
        }),
    decreases events.len(),
{
    if events.len() > 0 {
        lemma_launch_in_order(start, events.drop_last());
        let (state, actions) = launched(start, events.drop_last());
        match step(state, events.last()) {
            Some((next, action)) => {
                let longer = actions.push(action);
                assert(rank(next) == action_rank(action));
                assert(rank(next) > rank(state.phase));
                assert forall|i: int, j: int| 0 <= i < j < longer.len() implies action_rank(
                    #[trigger] longer[i],
                ) < action_rank(#[trigger] longer[j]) by {
                    if j == actions.len() {
                        assert(longer[i] == actions[i]);
                        if i < actions.len() - 1 {
                            assert(action_rank(actions[i]) < action_rank(
                                actions[actions.len() - 1],
                            ));
                        }
                    } else {
                        assert(longer[i] == actions[i] && longer[j] == actions[j]);
                    }
                }
                assert forall|j: int| 0 <= j < longer.len() implies in_turn(start, longer, j) by {
                    if j < actions.len() {
                        assert(in_turn(start, actions, j));
                        assert(longer[j] == actions[j]);
                        if j > 0 {
                            assert(longer[j - 1] == actions[j - 1]);
                        }
                    } else if actions.len() > 0 {
                        assert(longer[j - 1] == actions.last());
                        lemma_last_action(start, events.drop_last());
                    }
                }
            },
            None => {},
        }
    }
}

/// The directory was created last exactly where the launch is about to
/// spawn, and the action that led to a phase is of the kind of that phase.
proof fn lemma_last_action(start: LaunchView, events: Seq<EventView>)
    requires
        start.phase == Phase::Idle,
    ensures
        ({
            let (state, actions) = launched(start, events);
            actions.len() > 0 ==> {
                &&& state.phase == Phase::Creating ==> actions.last() == (ActionView::CreateDir {
                    dir: start.dir,
                })
                &&& state.phase == Phase::Recording ==> actions.last() is WriteMeta
                &&& state.phase == Phase::Draining ==> actions.last() is Duplicate
            }
        }),
    decreases events.len(),
{
    if events.len() > 0 {
        lemma_launch_in_order(start, events.drop_last());
        lemma_last_action(start, events.drop_last());
    }
}

impl Launch {
    /// A launch has a command to run.
    #[verifier::type_invariant]
    spec fn has_command(&self) -> bool {
        self.command@.len() > 0
    }

    /// A launch of `command` under `name`, for the user whose home
    /// directory is `home`. There is none for an empty command.
    pub fn new(home: &str, name: &str, command: Vec<String>) -> (launch: Option<Launch>)
        ensures
            launch is Some <==> command@.len() > 0,
            launch matches Some(l) ==> l@ == (LaunchView {
                phase: Phase::Idle,
                dir: capture_path(home@, name@),
                command: command.deep_view(),
            }),
    {
        if command.len() == 0 {
            None
        } else {
            Some(Launch { phase: Phase::Idle, dir: capture_dir(home, name), command })
        }
    }

    /// Where the launch stands.
    pub fn phase(&self) -> (phase: Phase)
        ensures
            phase == self@.phase,
    {
        self.phase
    }

    /// The capture directory.
    pub fn dir(&self) -> (dir: &String)
        ensures
            dir@ == self@.dir,
    {
        &self.dir
    }
}

/// One step of a launch: takes `event` and answers with the next action.
/// An event that does not belong to the phase is answered with nothing and
/// changes nothing.
pub fn run(launch: &mut Launch, event: Event) -> (action: Option<Action>)
    ensures
        final(launch)@.dir == old(launch)@.dir,
        final(launch)@.command == old(launch)@.command,
        match step(old(launch)@, event@) {
            Some((next, expected)) => {
                &&& final(launch)@.phase == next
                &&& action matches Some(a)
                &&& a@ == expected
            },
            None => action is None && final(launch)@.phase == old(launch)@.phase,
        },
{
    proof {
        use_type_invariant(&*launch);
    }
    match (launch.phase, event) {
        (Phase::Idle, Event::Begin { exists }) => {
            if exists {
                launch.phase = Phase::Clearing;
                Some(Action::RemoveDir { dir: copy_text(&launch.dir) })
            } else {
                launch.phase = Phase::Creating;
                Some(Action::CreateDir { dir: copy_text(&launch.dir) })
            }
        },
        (Phase::Clearing, Event::Done) => {
            launch.phase = Phase::Creating;
            Some(Action::CreateDir { dir: copy_text(&launch.dir) })
        },
        (Phase::Creating, Event::Done) => {
            launch.phase = Phase::Spawning;
            let program = copy_text(&launch.command[0]);
            let args = tail(&launch.command);
            Some(Action::Spawn { program, args })
        },
        (Phase::Spawning, Event::Spawned { pid, started_at }) => {
            launch.phase = Phase::Recording;
            let path = meta_path(launch.dir.as_str());
            let meta = Meta::new(pid, copy_texts(&launch.command), started_at);
            Some(Action::WriteMeta { path, meta })
        },
        (Phase::Spawning, Event::SpawnFailed { reason }) => {
            launch.phase = Phase::Finished;
            let mut first = String::from_str("error: failed to spawn '");
            first.append(launch.command[0].as_str());
            first.append("': ");
            first.append(reason.as_str());
            let mut diagnostics: Vec<String> = Vec::new();
            diagnostics.push(first);
            diagnostics.push(hint_text());
            assert(diagnostics.deep_view() =~= seq![
                spawn_error(old(launch)@.command.first(), reason@),
                hint(),
            ]);
            Some(Action::Exit { code: FAILURE, diagnostics })
        },
        (Phase::Recording, Event::Done) => {
            launch.phase = Phase::Draining;
            let stdout_log = log_path(launch.dir.as_str(), Stream::Stdout);
            let stderr_log = log_path(launch.dir.as_str(), Stream::Stderr);
            Some(Action::Duplicate { stdout_log, stderr_log })
        },
        (Phase::Draining, Event::Done) => {
            launch.phase = Phase::Waiting;
            Some(Action::Wait)
        },
        (Phase::Waiting, Event::Exited { code, elapsed_secs }) => {
            launch.phase = Phase::Finished;
            let code = child_exit_code(code);
            let mut diagnostics: Vec<String> = Vec::new();
            if code != 0 && elapsed_secs < GRACE_SECS {
                diagnostics.push(hint_text());
            }
            assert(diagnostics.deep_view() =~= exit_diagnostics(code, elapsed_secs));
            Some(Action::Exit { code, diagnostics })
        },
        _ => None,
    }
}

/// All of `list` but its first element.
fn tail(list: &Vec<String>) -> (rest: Vec<String>)
    requires
        list@.len() > 0,
    ensures
        rest.deep_view() == list.deep_view().drop_first(),
{
    let mut rest: Vec<String> = Vec::new();
    let mut i: usize = 1;
    while i < list.len()
        invariant
            1 <= i <= list.len(),
            rest.len() == i - 1,
            forall|k: int| 0 <= k < i - 1 ==> (#[trigger] rest@[k])@ == list@[k + 1]@,
        decreases list.len() - i,
    {
        rest.push(copy_text(&list[i]));
        i += 1;
    }
    assert(rest.deep_view() =~= list.deep_view().drop_first());
    rest
}

/// The hint as a string.
fn hint_text() -> (text: String)
    ensures
        text@ == hint(),
{
    String::from_str("hint: interactive CLIs (e.g. vim, htop) are not supported")
}

/// The launcher's exit code for a child that ended with `code`: the
/// child's own, or [`FAILURE`] where it ended without one.
pub fn child_exit_code(code: Option<i32>) -> (out: i32)
    ensures
        out == exit_code(code),
{
    match code {
        Some(c) => c,
        None => FAILURE,
    }
}

/// White space, as text is trimmed of it.
pub open spec fn is_space(c: char) -> bool {
    let v = c as u32;
    ||| 0x09 <= v <= 0x0d
    ||| v == 0x20
    ||| v == 0x85
    ||| v == 0xa0
    ||| v == 0x1680
    ||| 0x2000 <= v <= 0x200a
    ||| v == 0x2028
    ||| v == 0x2029
    ||| v == 0x202f
    ||| v == 0x205f
    ||| v == 0x3000
}

/// `s` without the white space at its start.
pub open spec fn trim_start(s: Seq<char>) -> Seq<char>
    decreases s.len(),
{
    if s.len() > 0 && is_space(s.first()) {
        trim_start(s.drop_first())
    } else {
        s
    }
}

/// `s` without the white space at its end.
pub open spec fn trim_end(s: Seq<char>) -> Seq<char>
    decreases s.len(),
{
    if s.len() > 0 && is_space(s.last()) {
        trim_end(s.drop_last())
    } else {
        s
    }
}

/// `s` without the white space at its start and at its end.
pub open spec fn trimmed(s: Seq<char>) -> Seq<char> {
    trim_end(trim_start(s))
}

/// Whether `c` is white space.
fn space(c: char) -> (yes: bool)
    ensures
        yes == is_space(c),
{
    let v = c as u32;
    (0x09 <= v && v <= 0x0d) || v == 0x20 || v == 0x85 || v == 0xa0 || v == 0x1680 || (0x2000 <= v
        && v <= 0x200a) || v == 0x2028 || v == 0x2029 || v == 0x202f || v == 0x205f || v == 0x3000
}

/// The time of a spawn as it is recorded: what the clock printed, without
/// the white space around it.
pub fn now(output: &str) -> (stamp: String)
    ensures
        stamp@ == trimmed(output@),
{
    let n = output.unicode_len();
    let mut from: usize = 0;
    assert(output@.skip(0) =~= output@);
    while from < n && space(output.get_char(from))
        invariant
            from <= n,
            n == output@.len(),
            trim_start(output@) == trim_start(output@.skip(from as int)),
        decreases n - from,
    {
        proof {
            assert(output@.skip(from as int).drop_first() =~= output@.skip(from + 1));
        }
        from += 1;
    }
    let ghost rest = output@.skip(from as int);
    let mut to: usize = n;
    assert(output@.subrange(from as int, n as int) =~= rest);
    while to > from && space(output.get_char(to - 1))
        invariant
            from <= to <= n,
            n == output@.len(),
            trim_end(rest) == trim_end(output@.subrange(from as int, to as int)),
        decreases to,
    {
        proof {
            assert(output@.subrange(from as int, to as int).drop_last() =~= output@.subrange(
                from as int,
                to - 1,
            ));
        }
        to -= 1;
    }
    String::from_str(output.substring_char(from, to))
}

/// What a read of the child's stream gave.
pub enum Chunk {
    /// Some bytes.
    Data(Vec<u8>),
    /// The stream has ended.
    End,
    /// The read failed.
    Failed,
}

/// What is to be written after a read.
pub struct Pieces {
    /// The pieces to write, in order, each to the log and to the terminal,
    /// each followed by a flush.
    pub writes: Vec<Vec<u8>>,
    /// Whether the duplication is over.
    pub done: bool,
}

/// What is written for a stream that ended with `held` bytes after its
/// last newline: those bytes as a last piece, if there are any.
pub open spec fn last_piece(held: Seq<u8>) -> Seq<Seq<u8>> {
    if held.len() > 0 {
        seq![held]
    } else {
        Seq::empty()
    }
}

/// One step of the duplication of a stream. Bytes are written line by
/// line, each line with its terminator and in one piece; what follows the
/// last newline waits in `buffer`. At the end of the stream the bytes that
/// still wait are written as they are; after a failed read they are dropped.
pub fn tee(buffer: &mut LineBuffer, read: Chunk) -> (copy: Pieces)
    ensures
        match read {
            Chunk::Data(bytes) => {
                &&& views(copy.writes@) == complete_lines(old(buffer)@ + bytes@)
                &&& final(buffer)@ == fragment(old(buffer)@ + bytes@)
                &&& !copy.done
            },
            Chunk::End => {
                &&& views(copy.writes@) == last_piece(old(buffer)@)
                &&& final(buffer)@ == Seq::<u8>::empty()
                &&& copy.done
            },
            Chunk::Failed => {
                &&& copy.writes@.len() == 0
                &&& final(buffer)@ == Seq::<u8>::empty()
                &&& copy.done
            },
        },
{
    match read {
        Chunk::Data(bytes) => {
            let writes = buffer.feed(bytes.as_slice());
            Pieces { writes, done: false }
        },
        Chunk::End => {
            let held = buffer.finish();
            let mut writes: Vec<Vec<u8>> = Vec::new();
            if held.len() > 0 {
                writes.push(held);
            }
            assert(views(writes@) =~= last_piece(old(buffer)@));
            Pieces { writes, done: true }
        },
        Chunk::Failed => {
            let _ = buffer.finish();
            Pieces { writes: Vec::new(), done: true }
        },
    }
}

/// What a duplication that began with `held` writes for the reads
/// `chunks`, and what it then holds back.
pub open spec fn drained(held: Seq<u8>, chunks: Seq<Seq<u8>>) -> (Seq<Seq<u8>>, Seq<u8>)
    decreases chunks.len(),
{
    if chunks.len() == 0 {
        (Seq::empty(), held)
    } else {
        let (written, kept) = drained(held, chunks.drop_last());
        (written + complete_lines(kept + chunks.last()), fragment(kept + chunks.last()))
    }
}

/// However a stream is cut into reads, the duplication writes its
/// complete lines, one piece each, and holds back what follows the last
/// newline.
pub proof fn lemma_drained(chunks: Seq<Seq<u8>>)
    ensures
        drained(Seq::empty(), chunks) == (
            complete_lines(chunks.flatten()),
            fragment(chunks.flatten()),
        ),
    decreases chunks.len(),
{
    if chunks.len() == 0 {
        assert(chunks.flatten() =~= Seq::<u8>::empty());
        assert(complete_lines(chunks.flatten()) =~= Seq::<Seq<u8>>::empty());
    } else {
        let front = chunks.drop_last();
        lemma_drained(front);
        assert(chunks =~= front.push(chunks.last()));
        front.lemma_flatten_push(chunks.last());
        lemma_cut_in_pieces(front.flatten(), chunks.last());
    }
}

/// Nothing is lost and nothing is added: for a stream that ends, the
/// pieces written, put together, are the stream byte for byte. For one
/// whose read fails they are the stream up to its last newline.
pub proof fn lemma_tee_keeps_stream(chunks: Seq<Seq<u8>>)
    ensures
        ({
            let (written, kept) = drained(Seq::empty(), chunks);
            &&& (written + last_piece(kept)).flatten() == chunks.flatten()
            &&& written.flatten() + kept == chunks.flatten()
        }),
{
    lemma_drained(chunks);
    let (written, kept) = drained(Seq::empty(), chunks);
    lemma_cut(chunks.flatten());
    if kept.len() > 0 {
        assert(written + last_piece(kept) =~= written.push(kept));
        written.lemma_flatten_push(kept);
    } else {
        assert(written + last_piece(kept) =~= written);
        assert(written.flatten() + kept =~= written.flatten());
    }
}

} // verus!
