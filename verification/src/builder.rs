//! The builder: it takes the files that a walk over the tree comes to,
//! picks the targets in them that the selector takes, and resolves each by
//! need. What it cannot do itself, to read a definition file, to run a
//! command, to look for a file, it asks for, one request at a time, and goes
//! on with the answer.

use crate::command::{lemma_render_resolved, render, resolved, spliced, RenderFailure};
use crate::error::Error;
use crate::executor::{admits, Execution, Executor};
use crate::os::Os;
use crate::outputs::{path_text, OutputTable};
use crate::reader::Reader;
use crate::target::output::{Output, OutputKey};
use crate::target::path::{
    address_dir, address_name, addresses, definition_path, definition_text, dir_part, TargetPath,
};
use crate::target::{
    definition_dir, definition_of, dir_address, is_definition_file, names_definition_file,
    selected, selects_dir, Selector, SelectorView,
};
use crate::target::def::TargetDef;
use crate::target::set::TargetSet;
use crate::text::{is_ident, to_chars};
use std::sync::Arc;
use vstd::prelude::*;
use vstd::string::*;

verus! {

/// How far the build of one target has come.
#[derive(Debug, Clone, Copy, PartialEq, Eq, Structural)]
pub enum Phase {
    /// Its prerequisites are being built, one after the other.
    Prereqs,
    /// Its command is to be rendered, again after each output that was
    /// found missing and built.
    Render,
    /// Its command runs.
    Running,
    /// Its outputs are being recorded, one after the other.
    Outputs,
    /// The file of one output is being looked for.
    Checking,
}

/// One target under construction.
#[derive(Debug)]
pub struct Frame {
    /// The target.
    target: TargetPath,
    /// What its definition file declares.
    set: Arc<TargetSet>,
    /// The place of its definition in `set`.
    index: usize,
    /// The next prerequisite to build or, later, the next output to record.
    next: usize,
    phase: Phase,
    /// The output that the command was last found to lack, and whose target
    /// was built for it.
    asked: Option<Output>,
}

impl View for Frame {
    type V = FrameView;

    closed spec fn view(&self) -> FrameView {
        FrameView {
            target: self.target@,
            set: self.set,
            index: self.index as int,
            next: self.next as int,
            phase: self.phase,
            asked: match self.asked {
                Some(o) => Some(o@),
                None => None,
            },
        }
    }
}

impl Frame {
    /// Every frame is in order.
    #[verifier::type_invariant]
    closed spec fn inv(&self) -> bool {
        self@.ok()
    }
}

/// What the builder is told.
#[derive(Debug)]
pub enum Event {
    /// Build this target. Taken only while nothing is under construction.
    Start(TargetPath),
    /// The walk over the tree has come to the file at this path, relative
    /// to the root. Taken only while nothing is under construction and no
    /// selected target waits.
    Visit(String),
    /// Go on. The answer to `Building` and `Built`.
    Tick,
    /// The definition file asked for declares this.
    Loaded(TargetSet),
    /// The definition file asked for could not be read or understood.
    LoadFailed(String),
    /// The command has ended.
    Exited { success: bool, code: Option<i32> },
    /// The file asked for is there.
    Found,
    /// The file asked for is not there.
    Absent,
}

/// What the builder asks for or reports.
#[derive(Debug)]
pub enum Action {
    /// Read the definition file at `path`, relative to the root. Answered
    /// by `Loaded` or `LoadFailed`.
    Load { path: String },
    /// The build of this target begins. Answered by `Tick`.
    Building(TargetPath),
    /// Run this. Answered by `Exited`.
    Run(Execution),
    /// Look for the file `file` in the directory `dir`, relative to the
    /// root. Answered by `Found` or `Absent`.
    Check { dir: String, file: String },
    /// This target is built and its outputs are recorded. Answered by
    /// `Tick`.
    Built(TargetPath),
    /// Nothing is under construction.
    Done,
    /// The run has failed; nothing is under construction any more.
    Failed(Error),
}

/// One target under construction, as a value without storage.
pub struct FrameView {
    /// The address of the target.
    pub target: Seq<char>,
    /// What its definition file declares.
    pub set: Arc<TargetSet>,
    /// The place of its definition in `set`.
    pub index: int,
    /// The next prerequisite to build or the next output to record.
    pub next: int,
    pub phase: Phase,
    /// The output that the command was last found to lack, and whose target
    /// was built for it.
    pub asked: Option<OutputKey>,
}

impl FrameView {
    /// The definition of the target.
    pub open spec fn def(self) -> TargetDef {
        self.set.spec_def(self.index)
    }

    /// The definition exists, and an output that is being looked for is one
    /// of those that it declares.
    pub open spec fn ok(self) -> bool {
        &&& 0 <= self.index < self.set.spec_len()
        &&& self.next >= 0
        &&& self.phase == Phase::Checking ==> self.next < self.def().spec_common().spec_outs().len()
    }
}

/// The builder, as a value without storage.
pub struct State {
    /// The targets under construction; each but the first was asked for by
    /// the one before it, and the last is the one being worked on.
    pub frames: Seq<FrameView>,
    /// The address of the target whose definition file was asked for.
    pub awaited: Option<Seq<char>>,
    /// The path of the definition file that the walk came to and that was
    /// asked for.
    pub visiting: Option<Seq<char>>,
    /// The addresses of the selected targets that wait to be built, in
    /// order.
    pub queue: Seq<Seq<char>>,
    /// What the run was asked for.
    pub selector: SelectorView,
    /// Where the outputs recorded so far lie.
    pub table: Map<OutputKey, Option<Seq<char>>>,
    /// The definition files read so far.
    pub cache: Map<Seq<char>, Arc<TargetSet>>,
    /// The platform of the host.
    pub host: Os,
    /// The root of the tree as text, where it can be written as text.
    pub root: Option<Seq<char>>,
    /// Whether a build was ever started.
    pub started: bool,
}

impl State {
    /// The state with `f` in the place of the last frame.
    pub open spec fn with_top(self, f: FrameView) -> State {
        State { frames: self.frames.drop_last().push(f), ..self }
    }

    /// The state after a failure: nothing is under construction, nothing is
    /// awaited, no target waits, and what was recorded and read stays.
    pub open spec fn halted(self) -> State {
        State {
            frames: Seq::empty(),
            awaited: None,
            visiting: None,
            queue: Seq::empty(),
            ..self
        }
    }
}

/// The path of the file `file` in the directory `dir`: the two with one
/// `/` between them, which an empty directory and a directory that ends in
/// a `/` need not be given.
pub open spec fn joined(dir: Seq<char>, file: Seq<char>) -> Seq<char> {
    if dir.len() == 0 || dir.last() == '/' {
        dir + file
    } else {
        dir + seq!['/'] + file
    }
}

/// The path that is recorded for the output whose file is `file` in the
/// directory `dir` below the root: the root, the directory and the file
/// joined, or nothing where the root cannot be written as text.
pub open spec fn recorded(root: Option<Seq<char>>, dir: Seq<char>, file: Seq<char>) -> Option<
    Seq<char>,
> {
    match root {
        Some(r) => Some(joined(r, joined(dir, file))),
        None => None,
    }
}

/// The target at `address` is entered with `set` as what its definition
/// file declares: a target that `set` does not declare ends the run, any
/// other becomes the frame that is worked on.
pub open spec fn enters(
    pre: State,
    address: Seq<char>,
    set: Arc<TargetSet>,
    post: State,
    action: Action,
) -> bool {
    if set.has(address_name(address)) {
        &&& action matches Action::Building(t)
        &&& t@ == address
        &&& post.frames.len() == pre.frames.len() + 1
        &&& post == State { frames: pre.frames.push(post.frames.last()), ..pre }
        &&& post.frames.last().target == address
        &&& post.frames.last().set == set
        &&& post.frames.last().index == set.place(address_name(address))
        &&& post.frames.last().ok()
        &&& post.frames.last().next == 0
        &&& post.frames.last().phase == Phase::Prereqs
        &&& post.frames.last().asked is None
    } else {
        &&& action matches Action::Failed(Error::UnknownTarget(t))
        &&& t@ == address
        &&& post == pre.halted()
    }
}

/// The build of the target at `address` begins: with its definition file
/// from the cache, or with the request to read it.
pub open spec fn begins(pre: State, address: Seq<char>, post: State, action: Action) -> bool {
    let path = definition_path(address);
    if pre.cache.contains_key(path) {
        enters(pre, address, pre.cache[path], post, action)
    } else {
        &&& action matches Action::Load { path: p }
        &&& p@ == path
        &&& post == State { awaited: Some(address), ..pre }
    }
}

/// The command of the last frame is rendered. With every output at hand it
/// is run, if the host admits it. The first output that is missing has its
/// target built, once: where it is missing still after that, its target
/// does not make it, and the run ends. An output whose path is no text ends
/// the run too.
pub open spec fn renders(pre: State, post: State, action: Action) -> bool {
    let top = pre.frames.last();
    match render(top.def().spec_common().spec_cmd()@, pre.table) {
        Ok(text) => if admits(pre.host, top.def().spec_runs_on()) {
            &&& action matches Action::Run(e)
            &&& e.path@ == top.target
            &&& e.command@ == text
            &&& e.dir@ == address_dir(top.target)
            &&& e.runs_on == top.def().spec_runs_on()
            &&& post == pre.with_top(FrameView { phase: Phase::Running, ..top })
        } else {
            &&& action matches Action::Failed(Error::UnsupportedPlatform { required, host })
            &&& Some(required) == top.def().spec_runs_on()
            &&& host == pre.host
            &&& post == pre.halted()
        },
        Err(RenderFailure::Missing(key)) => if top.asked == Some(key) {
            &&& action matches Action::Failed(Error::UnknownTarget(t))
            &&& t@ == key.0
            &&& post == pre.halted()
        } else {
            begins(pre.with_top(FrameView { asked: Some(key), ..top }), key.0, post, action)
        },
        Err(RenderFailure::NotText(key)) => {
            &&& action matches Action::Failed(Error::NonUtf8Path(o))
            &&& o@ == key
            &&& post == pre.halted()
        },
    }
}

/// The last frame takes its next step: the next prerequisite, then the
/// command, then the next output, then its end.
pub open spec fn advances(pre: State, post: State, action: Action) -> bool {
    let top = pre.frames.last();
    let common = top.def().spec_common();
    match top.phase {
        Phase::Prereqs => if top.next < common.spec_prereqs().len() {
            begins(
                pre.with_top(FrameView { next: top.next + 1, ..top }),
                common.spec_prereqs()[top.next]@,
                post,
                action,
            )
        } else {
            renders(pre.with_top(FrameView { phase: Phase::Render, ..top }), post, action)
        },
        Phase::Render => renders(pre, post, action),
        Phase::Outputs => if top.next < common.spec_outs().len() {
            &&& action matches Action::Check { dir, file }
            &&& dir@ == address_dir(top.target)
            &&& file@ == common.spec_outs()[top.next].1@
            &&& post == pre.with_top(FrameView { phase: Phase::Checking, ..top })
        } else {
            &&& action matches Action::Built(t)
            &&& t@ == top.target
            &&& post == State { frames: pre.frames.drop_last(), ..pre }
        },
        _ => false,
    }
}

/// With nothing under construction the first of the selected targets that
/// wait is begun; where none waits there is nothing to do.
pub open spec fn proceeds(pre: State, post: State, action: Action) -> bool {
    if pre.queue.len() == 0 {
        action is Done && post == pre
    } else {
        begins(
            State { queue: pre.queue.skip(1), started: true, ..pre },
            pre.queue[0],
            post,
            action,
        )
    }
}

/// The definition file at `file`, which declares `set`, is opened: the
/// targets in it that the selector takes wait to be built, in the order of
/// their names, and the first of them is begun. A name in the file that
/// makes no address ends the run.
pub open spec fn opens(
    pre: State,
    file: Seq<char>,
    set: Arc<TargetSet>,
    post: State,
    action: Action,
) -> bool {
    match selected(pre.selector, definition_dir(file), set.entries()) {
        Some(list) => proceeds(State { queue: list, ..pre }, post, action),
        None => action matches Action::Failed(Error::InvalidFormat) && post == pre.halted(),
    }
}

/// The walk has come to the file at `file`. A file that is no definition
/// file, or one in a directory that can hold no selected target, is passed
/// by. Any other is opened: from the cache, or with the request to read it.
pub open spec fn visits(pre: State, file: Seq<char>, post: State, action: Action) -> bool {
    let path = definition_text(dir_part(definition_dir(file)));
    if !names_definition_file(file) || !selects_dir(pre.selector, dir_address(file)) {
        action is Done && post == pre
    } else if pre.cache.contains_key(path) {
        opens(pre, file, pre.cache[path], post, action)
    } else {
        &&& action matches Action::Load { path: p }
        &&& p@ == path
        &&& post == State { visiting: Some(file), ..pre }
    }
}

/// What is told does not answer what was asked: the run ends.
pub open spec fn refuses(pre: State, post: State, action: Action) -> bool {
    &&& action matches Action::Failed(Error::UnexpectedEvent)
    &&& post == pre.halted()
}

/// One step of the builder: from the state `pre` and the event to the state
/// `post` and the action.
pub open spec fn steps(pre: State, event: Event, post: State, action: Action) -> bool {
    match pre.awaited {
        Some(address) => {
            let path = definition_path(address);
            match event {
                Event::Loaded(set) => {
                    let cache = if pre.cache.contains_key(path) {
                        pre.cache
                    } else {
                        pre.cache.insert(path, post.cache[path])
                    };
                    &&& post.cache.contains_key(path)
                    &&& !pre.cache.contains_key(path) ==> *post.cache[path] == set
                    &&& enters(
                        State { awaited: None, cache, ..pre },
                        address,
                        post.cache[path],
                        post,
                        action,
                    )
                },
                Event::LoadFailed(cause) => {
                    &&& action matches Action::Failed(Error::DefinitionError { path: p, cause: c })
                    &&& p@ == path
                    &&& c == cause
                    &&& post == pre.halted()
                },
                _ => refuses(pre, post, action),
            }
        },
        None => if pre.visiting is Some {
            let file = pre.visiting->Some_0;
            let path = definition_text(dir_part(definition_dir(file)));
            match event {
                Event::Loaded(set) => {
                    let cache = if pre.cache.contains_key(path) {
                        pre.cache
                    } else {
                        pre.cache.insert(path, post.cache[path])
                    };
                    &&& post.cache.contains_key(path)
                    &&& !pre.cache.contains_key(path) ==> *post.cache[path] == set
                    &&& opens(
                        State { visiting: None, cache, ..pre },
                        file,
                        post.cache[path],
                        post,
                        action,
                    )
                },
                Event::LoadFailed(cause) => {
                    &&& action matches Action::Failed(Error::DefinitionError { path: p, cause: c })
                    &&& p@ == path
                    &&& c == cause
                    &&& post == pre.halted()
                },
                _ => refuses(pre, post, action),
            }
        } else if pre.frames.len() == 0 {
            match event {
                Event::Start(target) => begins(
                    State { started: true, ..pre },
                    target@,
                    post,
                    action,
                ),
                Event::Visit(file) => if pre.queue.len() == 0 {
                    visits(pre, file@, post, action)
                } else {
                    refuses(pre, post, action)
                },
                Event::Tick => proceeds(pre, post, action),
                _ => refuses(pre, post, action),
            }
        } else {
            let top = pre.frames.last();
            let common = top.def().spec_common();
            match top.phase {
                Phase::Running => match event {
                    Event::Exited { success, code } => if success {
                        advances(
                            pre.with_top(FrameView { phase: Phase::Outputs, next: 0, ..top }),
                            post,
                            action,
                        )
                    } else {
                        &&& action matches Action::Failed(Error::BuildFailed { target, code: c })
                        &&& target@ == top.target
                        &&& c == code
                        &&& post == pre.halted()
                    },
                    _ => refuses(pre, post, action),
                },
                Phase::Checking => match event {
                    Event::Found => if is_ident(common.spec_outs()[top.next].0@) {
                        advances(
                            State {
                                table: pre.table.insert(
                                    (top.target, common.spec_outs()[top.next].0@),
                                    recorded(
                                        pre.root,
                                        address_dir(top.target),
                                        common.spec_outs()[top.next].1@,
                                    ),
                                ),
                                ..pre.with_top(
                                    FrameView { phase: Phase::Outputs, next: top.next + 1, ..top },
                                )
                            },
                            post,
                            action,
                        )
                    } else {
                        action matches Action::Failed(Error::InvalidFormat) && post == pre.halted()
                    },
                    Event::Absent => {
                        &&& action matches Action::Failed(
                            Error::MissingOutputFile { target, slot, path },
                        )
                        &&& target@ == top.target
                        &&& slot@ == common.spec_outs()[top.next].0@
                        &&& path@ == joined(address_dir(top.target), common.spec_outs()[top.next].1@)
                        &&& post == pre.halted()
                    },
                    _ => refuses(pre, post, action),
                },
                _ => match event {
                    Event::Tick => advances(pre, post, action),
                    _ => refuses(pre, post, action),
                },
            }
        },
    }
}

/// A command that does not end well ends the run at once: the failure names
/// the target whose command it was, be it a prerequisite or a target that a
/// command referred to, and not the target that asked for it; nothing stays
/// under construction, so no command of a waiting target is run; and nothing
/// is recorded.
pub proof fn lemma_failed_command_ends_run(
    pre: State,
    code: Option<i32>,
    post: State,
    action: Action,
)
    requires
        pre.awaited is None,
        pre.visiting is None,
        pre.frames.len() > 0,
        pre.frames.last().phase == Phase::Running,
        steps(pre, Event::Exited { success: false, code }, post, action),
    ensures
        action matches Action::Failed(Error::BuildFailed { target, code: c }) && target@
            == pre.frames.last().target && c == code,
        post.frames.len() == 0,
        post.awaited is None,
        post.table == pre.table,
        post.cache == pre.cache,
{
}

/// A command that refers to an output that is not recorded is not run:
/// the target of the first such output is begun instead, above the target
/// that refers to it, which notes what it asked for, stays where it is and
/// renders again later. Where it asked for that very output before, the run
/// ends.
pub proof fn lemma_missing_output_begins_build(
    pre: State,
    key: OutputKey,
    post: State,
    action: Action,
)
    requires
        pre.awaited is None,
        pre.visiting is None,
        pre.frames.len() > 0,
        pre.frames.last().phase == Phase::Render,
        render(pre.frames.last().def().spec_common().spec_cmd()@, pre.table) == Err::<
            Seq<char>,
            RenderFailure,
        >(RenderFailure::Missing(key)),
        steps(pre, Event::Tick, post, action),
    ensures
        !(action is Run),
        post.table == pre.table,
        pre.frames.last().asked == Some(key) ==> action is Failed && post.frames.len() == 0,
        pre.frames.last().asked != Some(key) ==> begins(
            pre.with_top(FrameView { asked: Some(key), ..pre.frames.last() }),
            key.0,
            post,
            action,
        ),
        action is Building ==> post.frames.len() == pre.frames.len() + 1 && post.frames.last().target
            == key.0 && post.frames[pre.frames.len() - 1] == (FrameView {
            asked: Some(key),
            ..pre.frames.last()
        }),
{
}

/// What was read stays as it was read, and what was recorded stays
/// recorded: a step adds to the cache and to the table, and takes nothing
/// away. Only the path of an output that is recorded again may change.
pub proof fn lemma_step_keeps(pre: State, event: Event, post: State, action: Action)
    requires
        steps(pre, event, post, action),
    ensures
        forall|path: Seq<char>| #[trigger]
            pre.cache.contains_key(path) ==> post.cache.contains_key(path) && post.cache[path]
                == pre.cache[path],
        forall|key: OutputKey| #[trigger]
            pre.table.contains_key(key) ==> post.table.contains_key(key),
        post.host == pre.host,
        pre.started ==> post.started,
{
}

/// A frame that waits for another to be built: it is at its prerequisites
/// or at its command.
pub open spec fn waits(phase: Phase) -> bool {
    phase == Phase::Prereqs || phase == Phase::Render
}

/// How the frames of a builder stand to each other: every frame is in
/// order, every frame but the last waits for the one above it, while a
/// definition file is awaited the last frame waits too, and a file that the
/// walk came to is asked for only while nothing is under construction. So at most one
/// command runs and at most one file is looked for at a time, and it is that
/// of the last frame.
pub open spec fn stacked(s: State) -> bool {
    &&& forall|i: int| 0 <= i < s.frames.len() ==> (#[trigger] s.frames[i]).ok()
    &&& forall|i: int| 0 <= i < s.frames.len() - 1 ==> waits((#[trigger] s.frames[i]).phase)
    &&& s.awaited is Some && s.frames.len() > 0 ==> waits(s.frames.last().phase)
    &&& s.visiting is Some ==> s.frames.len() == 0 && s.awaited is None
}

/// Frames that stand so stay so with every step.
pub proof fn lemma_step_keeps_stack(pre: State, event: Event, post: State, action: Action)
    requires
        stacked(pre),
        steps(pre, event, post, action),
    ensures
        stacked(post),
{
    let n = pre.frames.len() as int;
    if post.frames.len() == n + 1 {
        assert forall|i: int| 0 <= i < n implies #[trigger] post.frames[i] == pre.frames[i] || (i
            == n - 1 && waits(post.frames[i].phase) && post.frames[i].ok()) by {
            lemma_step_below(pre, event, post, action, i);
        }
        assert(post.frames.last().ok()) by {
            lemma_step_enters(pre, event, post, action);
        }
    } else if post.frames.len() > 0 {
        assert forall|i: int| 0 <= i < post.frames.len() - 1 implies #[trigger] post.frames[i]
            == pre.frames[i] by {
            lemma_step_below(pre, event, post, action, i);
        }
        lemma_step_top(pre, event, post, action);
    }
}

/// A step leaves every frame but the last as it is; where it puts a frame
/// on top, the frame that was the last before may have moved on, and waits.
proof fn lemma_step_below(pre: State, event: Event, post: State, action: Action, i: int)
    requires
        stacked(pre),
        steps(pre, event, post, action),
        0 <= i < post.frames.len(),
        i < pre.frames.len(),
        i < post.frames.len() - 1 || post.frames.len() == pre.frames.len() + 1,
    ensures
        post.frames[i] == pre.frames[i] || (i == pre.frames.len() - 1 && post.frames.len()
            == pre.frames.len() + 1 && waits(post.frames[i].phase) && post.frames[i].ok()),
        post.frames.len() <= pre.frames.len() ==> post.frames[i] == pre.frames[i],
{
    let top = pre.frames.last();
}

/// Where a step puts a frame on top, that frame is in order.
proof fn lemma_step_enters(pre: State, event: Event, post: State, action: Action)
    requires
        stacked(pre),
        steps(pre, event, post, action),
        post.frames.len() == pre.frames.len() + 1,
    ensures
        post.frames.last().ok(),
        post.awaited is None,
{
}

/// Where a step puts no frame on top, the last frame that it leaves is in
/// order, and waits if a definition file is asked for.
proof fn lemma_step_top(pre: State, event: Event, post: State, action: Action)
    requires
        stacked(pre),
        steps(pre, event, post, action),
        0 < post.frames.len() <= pre.frames.len(),
    ensures
        post.frames.last().ok(),
        post.awaited is Some ==> waits(post.frames.last().phase),
        post.frames.len() == pre.frames.len() - 1 ==> post.frames.last() == pre.frames[
            pre.frames.len() - 2],
{
}

/// A file that is found is recorded under the target and the slot that it
/// was looked for, and the path that is recorded is the root, the directory
/// of the target and the path that the target declares for the slot,
/// joined: nothing that the event brings has a part in it.
pub proof fn lemma_found_is_recorded(pre: State, post: State, action: Action)
    requires
        pre.awaited is None,
        pre.visiting is None,
        pre.frames.len() > 0,
        pre.frames.last().phase == Phase::Checking,
        pre.frames.last().ok(),
        is_ident(pre.frames.last().def().spec_common().spec_outs()[pre.frames.last().next].0@),
        steps(pre, Event::Found, post, action),
    ensures
        post.table == pre.table.insert(
            (
                pre.frames.last().target,
                pre.frames.last().def().spec_common().spec_outs()[pre.frames.last().next].0@,
            ),
            recorded(
                pre.root,
                address_dir(pre.frames.last().target),
                pre.frames.last().def().spec_common().spec_outs()[pre.frames.last().next].1@,
            ),
        ),
{
}

/// A run of the builder: the states that it goes through, the events that
/// it is told and the actions that it answers with, each step taking one
/// state to the next.
pub open spec fn runs(states: Seq<State>, events: Seq<Event>, actions: Seq<Action>) -> bool {
    &&& states.len() == events.len() + 1
    &&& actions.len() == events.len()
    &&& forall|i: int|
        0 <= i < events.len() ==> steps(states[i], #[trigger] events[i], states[i + 1], actions[i])
}

/// A command that is handed out to run is that of the last frame, which
/// then runs; no frame is put on or taken off with it.
pub proof fn lemma_run_is_of_last_frame(pre: State, event: Event, post: State, action: Action)
    requires
        steps(pre, event, post, action),
        action is Run,
    ensures
        post.frames.len() == pre.frames.len(),
        post.frames.len() > 0,
        post.frames.last().phase == Phase::Running,
        action->Run_0.path@ == post.frames.last().target,
{
}

/// Through a whole run the frames stand as `stacked` says, if they did so
/// at its beginning.
pub proof fn lemma_run_keeps_stack(
    states: Seq<State>,
    events: Seq<Event>,
    actions: Seq<Action>,
    j: int,
)
    requires
        runs(states, events, actions),
        stacked(states[0]),
        0 <= j < states.len(),
    ensures
        stacked(states[j]),
    decreases j,
{
    if j > 0 {
        lemma_run_keeps_stack(states, events, actions, j - 1);
        assert(steps(states[j - 1], events[j - 1], states[j], actions[j - 1]));
        lemma_step_keeps_stack(states[j - 1], events[j - 1], states[j], actions[j - 1]);
    }
}

/// A frame that has another above it through a whole run is not touched in
/// that run: it waits, as it is, from the first state to the last.
pub proof fn lemma_waiting_frame_stays(
    states: Seq<State>,
    events: Seq<Event>,
    actions: Seq<Action>,
    k: int,
    j: int,
)
    requires
        runs(states, events, actions),
        stacked(states[0]),
        0 <= k,
        forall|i: int| 0 <= i < states.len() ==> (#[trigger] states[i]).frames.len() > k + 1,
        0 <= j < states.len(),
    ensures
        states[j].frames[k] == states[0].frames[k],
        waits(states[j].frames[k].phase),
    decreases j,
{
    lemma_run_keeps_stack(states, events, actions, j);
    assert(states[j].frames.len() > k + 1);
    if j > 0 {
        lemma_waiting_frame_stays(states, events, actions, k, j - 1);
        lemma_run_keeps_stack(states, events, actions, j - 1);
        assert(states[j - 1].frames.len() > k + 1);
        assert(steps(states[j - 1], events[j - 1], states[j], actions[j - 1]));
        lemma_step_below(states[j - 1], events[j - 1], states[j], actions[j - 1], k);
    }
}

/// While a target waits for what it asked for, its own command is not run:
/// through a run in which the frame at place `k` has another above it, every
/// command that is handed out is that of a frame above it, and the run
/// neither fails nor finishes that frame.
pub proof fn lemma_waiting_frame_does_not_run(
    states: Seq<State>,
    events: Seq<Event>,
    actions: Seq<Action>,
    k: int,
    j: int,
)
    requires
        runs(states, events, actions),
        stacked(states[0]),
        0 <= k,
        forall|i: int| 0 <= i < states.len() ==> (#[trigger] states[i]).frames.len() > k + 1,
        0 <= j < events.len(),
    ensures
        !(actions[j] is Failed),
        actions[j] is Run ==> states[j + 1].frames.len() - 1 > k && actions[j]->Run_0.path@
            == states[j + 1].frames.last().target,
{
    assert(steps(states[j], events[j], states[j + 1], actions[j]));
    assert(states[j].frames.len() > k + 1);
    assert(states[j + 1].frames.len() > k + 1);
    lemma_run_keeps_stack(states, events, actions, j);
    if actions[j] is Run {
        lemma_run_is_of_last_frame(states[j], events[j], states[j + 1], actions[j]);
    }
    if actions[j] is Failed {
        lemma_failure_halts(states[j], events[j], states[j + 1], actions[j]);
    }
}

/// A failure leaves nothing under construction.
pub proof fn lemma_failure_halts(pre: State, event: Event, post: State, action: Action)
    requires
        steps(pre, event, post, action),
        action is Failed,
    ensures
        post.frames.len() == 0,
        post.awaited is None,
        post.visiting is None,
        post.queue.len() == 0,
        post.table == pre.table,
{
}

/// A prerequisite whose command does not end well ends the whole run, and
/// the target that waited for it has not run by then. Through a run in which
/// the frame at place `k` has another above it, and at whose end the command
/// of the last frame is told to have failed: no command of the frame at `k`
/// was handed out, the failure names the target whose command failed,
/// nothing is under construction afterwards, and the table is as it was
/// before the failure.
pub proof fn lemma_failed_prerequisite_ends_run(
    states: Seq<State>,
    events: Seq<Event>,
    actions: Seq<Action>,
    k: int,
    code: Option<i32>,
    last: State,
    action: Action,
)
    requires
        runs(states, events, actions),
        stacked(states[0]),
        0 <= k,
        forall|i: int| 0 <= i < states.len() ==> (#[trigger] states[i]).frames.len() > k + 1,
        states.last().awaited is None,
        states.last().frames.last().phase == Phase::Running,
        steps(states.last(), Event::Exited { success: false, code }, last, action),
    ensures
        forall|j: int|
            0 <= j < events.len() ==> !((#[trigger] actions[j]) is Failed) && (actions[j] is Run
                ==> states[j + 1].frames.len() - 1 > k),
        states.last().frames[k] == states[0].frames[k],
        waits(states.last().frames[k].phase),
        action matches Action::Failed(Error::BuildFailed { target, code: c }) && target@
            == states.last().frames.last().target && c == code,
        last.frames.len() == 0,
        last.table == states.last().table,
{
    let n = states.len() - 1;
    assert forall|j: int| 0 <= j < events.len() implies !((#[trigger] actions[j]) is Failed) && (
    actions[j] is Run ==> states[j + 1].frames.len() - 1 > k) by {
        lemma_waiting_frame_does_not_run(states, events, actions, k, j);
    }
    lemma_waiting_frame_stays(states, events, actions, k, n);
    lemma_run_keeps_stack(states, events, actions, n);
    assert(states[n].frames.len() > k + 1);
    lemma_failed_command_ends_run(states.last(), code, last, action);
}

/// The first steps of a run are a run.
pub proof fn lemma_run_prefix(
    states: Seq<State>,
    events: Seq<Event>,
    actions: Seq<Action>,
    n: int,
)
    requires
        runs(states, events, actions),
        0 <= n <= events.len(),
    ensures
        runs(states.take(n + 1), events.take(n), actions.take(n)),
{
    let s = states.take(n + 1);
    let e = events.take(n);
    let a = actions.take(n);
    assert forall|i: int| 0 <= i < e.len() implies steps(s[i], #[trigger] e[i], s[i + 1], a[i]) by {
        assert(steps(states[i], events[i], states[i + 1], actions[i]));
    }
}

/// A target that a command was found to need is built once, and then the
/// command runs. The run begins where the needed target has just been put
/// above the target that asked for it, which stands at place `k` and is at
/// its command; it goes on for as long as something is above that target;
/// and it ends where the target is the last again, with every output that
/// its command refers to recorded. Then in all that run the asking target
/// was not touched, so it rendered nothing and asked for nothing more; every
/// build that was begun was begun by a target above it; and the next step
/// hands out its command, rendered against the table as it stands then.
pub proof fn lemma_needed_target_is_built_once(
    states: Seq<State>,
    events: Seq<Event>,
    actions: Seq<Action>,
    k: int,
    last: State,
    action: Action,
)
    requires
        runs(states, events, actions),
        stacked(states[0]),
        0 <= k,
        events.len() >= 1,
        states[0].frames.len() == k + 2,
        states[0].frames[k].phase == Phase::Render,
        forall|i: int| 0 <= i < events.len() ==> (#[trigger] states[i]).frames.len() > k + 1,
        states.last().frames.len() == k + 1,
        states.last().awaited is None,
        resolved(states[0].frames[k].def().spec_common().spec_cmd()@, states.last().table),
        admits(states.last().host, states[0].frames[k].def().spec_runs_on()),
        steps(states.last(), Event::Tick, last, action),
    ensures
        forall|j: int|
            0 <= j < events.len() ==> (#[trigger] states[j]).frames[k] == states[0].frames[k],
        states.last().frames[k] == states[0].frames[k],
        forall|j: int|
            0 <= j < events.len() ==> ((#[trigger] actions[j]) is Building ==> states[j
                + 1].frames.len() > k + 2),
        forall|j: int|
            0 <= j < events.len() ==> ((#[trigger] actions[j]) is Run ==> states[j
                + 1].frames.len() > k + 1),
        action matches Action::Run(e) && e.path@ == states[0].frames[k].target && e.command@
            == spliced(
            states[0].frames[k].def().spec_common().spec_cmd()@,
            states.last().table,
        ),
        last.frames.len() == k + 1,
{
    let n = events.len() as int;
    let s = states.take(n);
    let e = events.take(n - 1);
    let a = actions.take(n - 1);
    lemma_run_prefix(states, events, actions, n - 1);
    assert(s[0] == states[0]);
    assert forall|i: int| 0 <= i < s.len() implies (#[trigger] s[i]).frames.len() > k + 1 by {
        assert(s[i] == states[i]);
    }
    assert forall|j: int| 0 <= j < events.len() implies (#[trigger] states[j]).frames[k]
        == states[0].frames[k] by {
        lemma_waiting_frame_stays(s, e, a, k, j);
        assert(s[j] == states[j]);
    }
    let before = states[n - 1];
    assert(steps(before, events[n - 1], states[n], actions[n - 1]));
    lemma_run_keeps_stack(states, events, actions, n - 1);
    lemma_run_keeps_stack(states, events, actions, n);
    assert(before.frames.len() > k + 1);
    assert(states[n] == states.last());
    lemma_step_pops_one(before, events[n - 1], states[n], actions[n - 1]);
    assert(states[n].frames[k] == before.frames[k]);
    assert forall|j: int| 0 <= j < events.len() && (#[trigger] actions[j]) is Building implies states[j
        + 1].frames.len() > k + 2 by {
        assert(steps(states[j], events[j], states[j + 1], actions[j]));
        lemma_building_puts_one(states[j], events[j], states[j + 1], actions[j]);
    }
    assert forall|j: int| 0 <= j < events.len() && (#[trigger] actions[j]) is Run implies states[j
        + 1].frames.len() > k + 1 by {
        assert(steps(states[j], events[j], states[j + 1], actions[j]));
        lemma_run_is_of_last_frame(states[j], events[j], states[j + 1], actions[j]);
    }
    let top = states.last().frames.last();
    assert(top == states.last().frames[k]);
    lemma_render_resolved(top.def().spec_common().spec_cmd()@, states.last().table);
}

/// A step takes at most one frame off, and leaves those below it as they
/// are.
pub proof fn lemma_step_pops_one(pre: State, event: Event, post: State, action: Action)
    requires
        stacked(pre),
        steps(pre, event, post, action),
        0 < post.frames.len() < pre.frames.len(),
    ensures
        post.frames.len() == pre.frames.len() - 1,
        post.frames == pre.frames.drop_last(),
{
    let top = pre.frames.last();
    assert(top == pre.frames[pre.frames.len() - 1]);
    assert(top.ok());
}

/// The step that begins a build puts one frame on.
pub proof fn lemma_building_puts_one(pre: State, event: Event, post: State, action: Action)
    requires
        steps(pre, event, post, action),
        action is Building,
    ensures
        post.frames.len() == pre.frames.len() + 1,
        post.frames.last().target == action->Building_0@,
{
}

/// The views of frames.
pub open spec fn frame_views(frames: Seq<Frame>) -> Seq<FrameView> {
    Seq::new(frames.len(), |i: int| frames[i]@)
}

/// Resolves targets by need, one step at a time.
pub struct Builder {
    reader: Reader,
    executor: Executor,
    outputs: OutputTable,
    stack: Vec<Frame>,
    pending: Option<TargetPath>,
    visiting: Option<String>,
    queue: Vec<TargetPath>,
    at: usize,
    selector: Selector,
    root: Option<String>,
    started: bool,
}

impl Builder {
    /// The builder as a value without storage.
    pub closed spec fn state(&self) -> State {
        State {
            frames: frame_views(self.stack@),
            awaited: match self.pending {
                Some(t) => Some(t@),
                None => None,
            },
            visiting: match self.visiting {
                Some(f) => Some(f@),
                None => None,
            },
            queue: if self.at <= self.queue@.len() {
                addresses(self.queue@).skip(self.at as int)
            } else {
                Seq::empty()
            },
            selector: self.selector@,
            table: self.outputs@,
            cache: self.reader@,
            host: self.executor.spec_host(),
            root: match self.root {
                Some(r) => Some(r@),
                None => None,
            },
            started: self.started,
        }
    }

    /// A builder on the host `host` for the tree at `root` that has read,
    /// built and recorded nothing. `root` is the root as text, or `None`
    /// where it cannot be written as text.
    pub fn new(host: Os, root: Option<String>, selector: Selector) -> (r: Builder)
        ensures
            r.state().root == path_text(root),
            r.state().selector == selector@,
            r.state().visiting is None,
            r.state().queue.len() == 0,
            r.state().frames.len() == 0,
            r.state().awaited is None,
            r.state().table =~= Map::empty(),
            r.state().cache =~= Map::empty(),
            r.state().host == host,
            !r.state().started,
            stacked(r.state()),
    {
        let r = Builder {
            reader: Reader::new(),
            executor: Executor::new(host),
            outputs: OutputTable::new(),
            stack: Vec::new(),
            pending: None,
            visiting: None,
            queue: Vec::new(),
            at: 0,
            selector,
            root,
            started: false,
        };
        r
    }

    /// Where the outputs recorded so far lie.
    pub fn outputs(&self) -> (r: &OutputTable)
        ensures
            r@ == self.state().table,
    {
        &self.outputs
    }

    /// The definition files read so far.
    pub fn reader(&self) -> (r: &Reader)
        ensures
            r@ == self.state().cache,
    {
        &self.reader
    }

    /// Keeps `set` as what the definition file at `path` declares, unless
    /// that file was read before. Returns what is kept.
    pub fn remember(&mut self, path: &str, set: TargetSet) -> (r: Arc<TargetSet>)
        ensures
            old(self).state().cache.contains_key(path@) ==> *r == *old(self).state().cache[path@]
                && final(self).state() == old(self).state(),
            !old(self).state().cache.contains_key(path@) ==> *r == set && final(self).state()
                == (State { cache: old(self).state().cache.insert(path@, r), ..old(self).state() }),
    {
        self.reader.remember(path, set)
    }

    /// Whether nothing is under construction and nothing is awaited.
    pub fn idle(&self) -> (r: bool)
        ensures
            r == (self.state().frames.len() == 0 && self.state().awaited is None
                && self.state().visiting is None && self.state().queue.len() == 0),
    {
        self.stack.len() == 0 && self.pending.is_none() && self.visiting.is_none() && self.at
            >= self.queue.len()
    }

    /// Whether the run, now that it ends, did anything: a run in which no
    /// build was started has matched no target.
    pub fn finish(&self) -> (r: Result<(), Error>)
        ensures
            self.state().started ==> r is Ok,
            !self.state().started ==> r matches Err(Error::NoTargetsMatched),
    {
        if self.started {
            Ok(())
        } else {
            Err(Error::NoTargetsMatched)
        }
    }

    /// Drops what is under construction.
    fn halt(&mut self)
        ensures
            final(self).state() == old(self).state().halted(),
    {
        self.stack = Vec::new();
        self.pending = None;
        self.visiting = None;
        self.queue = Vec::new();
        self.at = 0;
        assert(self.state().frames =~= Seq::empty());
        assert(self.state().queue =~= Seq::empty());
        assert(self.state().frames =~= Seq::empty());
    }

    /// Enters `target`, whose definition file declares `set`.
    fn enter(&mut self, target: TargetPath, set: Arc<TargetSet>) -> (action: Action)
        ensures
            enters(old(self).state(), target@, set, final(self).state(), action),
    {
        match set.find(target.name()) {
            Some(index) => {
                let ghost before = self.state();
                let reported = target.clone();
                let frame = Frame {
                    target,
                    set,
                    index,
                    next: 0,
                    phase: Phase::Prereqs,
                    asked: None,
                };
                self.stack.push(frame);
                proof {
                    let after = self.state();
                    assert(after.frames =~= before.frames.push(frame@));
                }
                Action::Building(reported)
            },
            None => {
                self.halt();
                Action::Failed(Error::UnknownTarget(target))
            },
        }
    }

    /// Begins the build of `target`.
    fn begin(&mut self, target: TargetPath) -> (action: Action)
        requires
            old(self).state().awaited is None,
        ensures
            begins(old(self).state(), target@, final(self).state(), action),
    {
        let path = target.definition();
        match self.reader.cached(path.as_str()) {
            Some(set) => self.enter(target, set),
            None => {
                self.pending = Some(target);
                Action::Load { path }
            },
        }
    }

    /// Begins the first of the selected targets that wait, if one does.
    fn proceed(&mut self) -> (action: Action)
        requires
            old(self).state().awaited is None,
        ensures
            proceeds(old(self).state(), final(self).state(), action),
    {
        if self.at < self.queue.len() {
            let ghost before = self.state();
            let target = self.queue[self.at].clone();
            self.at = self.at + 1;
            self.started = true;
            assert(self.state().queue =~= before.queue.skip(1));
            self.begin(target)
        } else {
            Action::Done
        }
    }

    /// Opens the definition file at `file`, which declares `set`.
    fn open(&mut self, file: String, set: Arc<TargetSet>) -> (action: Action)
        requires
            old(self).state().awaited is None,
        ensures
            opens(old(self).state(), file@, set, final(self).state(), action),
    {
        match self.selector.select(file.as_str(), &*set) {
            Ok(list) => {
                self.queue = list;
                self.at = 0;
                assert(self.state().queue =~= addresses(list@));
                self.proceed()
            },
            Err(_) => {
                self.halt();
                Action::Failed(Error::InvalidFormat)
            },
        }
    }

    /// Takes note of the file at `file`, which the walk has come to.
    fn visit(&mut self, file: String) -> (action: Action)
        requires
            old(self).state().awaited is None,
            old(self).state().visiting is None,
        ensures
            visits(old(self).state(), file@, final(self).state(), action),
    {
        if !is_definition_file(file.as_str()) || !self.selector.matches_file(file.as_str()) {
            return Action::Done;
        }
        let path = definition_of(file.as_str());
        match self.reader.cached(path.as_str()) {
            Some(set) => self.open(file, set),
            None => {
                self.visiting = Some(file);
                Action::Load { path }
            },
        }
    }

    /// Puts `frame` in the place of the last frame.
    fn replace_top(&mut self, frame: Frame)
        requires
            old(self).state().frames.len() > 0,
        ensures
            final(self).state() == old(self).state().with_top(frame@),
    {
        let ghost before = self.state();
        self.stack.pop();
        self.stack.push(frame);
        proof {
            let after = self.state();
            assert(after.frames =~= before.frames.drop_last().push(frame@));
        }
    }

    /// A copy of the last frame.
    fn top(&self) -> (r: Frame)
        requires
            self.state().frames.len() > 0,
        ensures
            r@ == self.state().frames.last(),
            r@.ok(),
    {
        let f = &self.stack[self.stack.len() - 1];
        proof {
            use_type_invariant(f);
        }
        Frame {
            target: f.target.clone(),
            set: f.set.clone(),
            index: f.index,
            next: f.next,
            phase: f.phase,
            asked: match &f.asked {
                Some(o) => Some(o.clone()),
                None => None,
            },
        }
    }

    /// Renders the command of the last frame and acts on what comes of it.
    fn render_top(&mut self) -> (action: Action)
        requires
            old(self).state().awaited is None,
            old(self).state().frames.len() > 0,
        ensures
            renders(old(self).state(), final(self).state(), action),
    {
        let top = self.top();
        let set = top.set.clone();
        let def = set.def_at(top.index);
        match def.common().cmd().as_sh(&self.outputs) {
            Ok(command) => {
                let e = Execution {
                    path: top.target.clone(),
                    command,
                    dir: top.target.directory(),
                    runs_on: def.runs_on(),
                };
                match self.executor.execute(e) {
                    Ok(e) => {
                        self.replace_top(Frame { phase: Phase::Running, ..top });
                        Action::Run(e)
                    },
                    Err(error) => {
                        self.halt();
                        Action::Failed(error)
                    },
                }
            },
            Err(Error::MissingOutput(o)) => {
                let again = match &top.asked {
                    Some(before) => before.same(&o),
                    None => false,
                };
                if again {
                    self.halt();
                    Action::Failed(Error::UnknownTarget(o.target().clone()))
                } else {
                    let target = o.target().clone();
                    self.replace_top(Frame { asked: Some(o), ..top });
                    self.begin(target)
                }
            },
            Err(error) => {
                self.halt();
                Action::Failed(error)
            },
        }
    }

    /// Takes the next step of the last frame.
    fn advance(&mut self) -> (action: Action)
        requires
            old(self).state().awaited is None,
            old(self).state().frames.len() > 0,
            old(self).state().frames.last().phase == Phase::Prereqs || old(
                self,
            ).state().frames.last().phase == Phase::Render || old(self).state().frames.last().phase
                == Phase::Outputs,
        ensures
            advances(old(self).state(), final(self).state(), action),
    {
        let top = self.top();
        let set = top.set.clone();
        let common = set.def_at(top.index).common();
        match top.phase {
            Phase::Prereqs => {
                if top.next < common.prereqs().len() {
                    let target = common.prereqs()[top.next].clone();
                    self.replace_top(Frame { next: top.next + 1, ..top });
                    self.begin(target)
                } else {
                    self.replace_top(Frame { phase: Phase::Render, ..top });
                    self.render_top()
                }
            },
            Phase::Render => self.render_top(),
            _ => {
                if top.next < common.outs().len() {
                    let dir = top.target.directory();
                    let file = common.outs()[top.next].1.clone();
                    self.replace_top(Frame { phase: Phase::Checking, ..top });
                    Action::Check { dir, file }
                } else {
                    let ghost before = self.state();
                    self.stack.pop();
                    proof {
                        let after = self.state();
                        assert(after.frames =~= before.frames.drop_last());
                    }
                    Action::Built(top.target)
                }
            },
        }
    }

    /// Ends the run because `event` answers nothing that was asked.
    fn refuse(&mut self) -> (action: Action)
        ensures
            refuses(old(self).state(), final(self).state(), action),
    {
        self.halt();
        Action::Failed(Error::UnexpectedEvent)
    }

    /// Takes one step: with what `event` tells, the builder goes on until it
    /// has something to ask for or to report.
    pub fn step(&mut self, event: Event) -> (action: Action)
        ensures
            steps(old(self).state(), event, final(self).state(), action),
            stacked(old(self).state()) ==> stacked(final(self).state()),
    {
        let ghost before = self.state();
        let action = self.step_inner(event);
        proof {
            if stacked(before) {
                lemma_step_keeps_stack(before, event, self.state(), action);
            }
        }
        action
    }

    /// The step itself.
    fn step_inner(&mut self, event: Event) -> (action: Action)
        ensures
            steps(old(self).state(), event, final(self).state(), action),
    {
        if self.pending.is_some() {
            let target = self.pending.take().unwrap();
            let path = target.definition();
            return match event {
                Event::Loaded(set) => {
                    let kept = self.reader.remember(path.as_str(), set);
                    self.enter(target, kept)
                },
                Event::LoadFailed(cause) => {
                    self.halt();
                    Action::Failed(Error::DefinitionError { path, cause })
                },
                _ => {
                    self.pending = Some(target);
                    self.refuse()
                },
            };
        }
        if self.visiting.is_some() {
            let file = self.visiting.take().unwrap();
            let path = definition_of(file.as_str());
            return match event {
                Event::Loaded(set) => {
                    let kept = self.reader.remember(path.as_str(), set);
                    self.open(file, kept)
                },
                Event::LoadFailed(cause) => {
                    self.halt();
                    Action::Failed(Error::DefinitionError { path, cause })
                },
                _ => {
                    self.visiting = Some(file);
                    self.refuse()
                },
            };
        }
        if self.stack.len() == 0 {
            return match event {
                Event::Start(target) => {
                    self.started = true;
                    self.begin(target)
                },
                Event::Visit(file) => {
                    if self.at >= self.queue.len() {
                        self.visit(file)
                    } else {
                        self.refuse()
                    }
                },
                Event::Tick => self.proceed(),
                _ => self.refuse(),
            };
        }
        let top = self.top();
        match top.phase {
            Phase::Running => match event {
                Event::Exited { success, code } => {
                    if success {
                        self.replace_top(Frame { phase: Phase::Outputs, next: 0, ..top });
                        self.advance()
                    } else {
                        self.halt();
                        Action::Failed(Error::BuildFailed { target: top.target, code })
                    }
                },
                _ => self.refuse(),
            },
            Phase::Checking => {
                let set = top.set.clone();
                let outs = set.def_at(top.index).common().outs();
                assert(top.next < outs.len());
                match event {
                    Event::Found => {
                        match top.target.output(outs[top.next].0.as_str()) {
                            Ok(output) => {
                                let path = match &self.root {
                                    Some(root) => Some(
                                        join(
                                            root.clone(),
                                            join(
                                                top.target.directory(),
                                                outs[top.next].1.as_str(),
                                            ).as_str(),
                                        ),
                                    ),
                                    None => None,
                                };
                                self.outputs.insert(&output, path);
                                self.replace_top(
                                    Frame { phase: Phase::Outputs, next: top.next + 1, ..top },
                                );
                                self.advance()
                            },
                            Err(_) => {
                                self.halt();
                                Action::Failed(Error::InvalidFormat)
                            },
                        }
                    },
                    Event::Absent => {
                        let slot = outs[top.next].0.clone();
                        let dir = top.target.directory();
                        let path = join(dir, outs[top.next].1.as_str());
                        self.halt();
                        Action::Failed(Error::MissingOutputFile { target: top.target, slot, path })
                    },
                    _ => self.refuse(),
                }
            },
            _ => match event {
                Event::Tick => self.advance(),
                _ => self.refuse(),
            },
        }
    }
}

/// The path of the file `file` in the directory `dir`.
fn join(dir: String, file: &str) -> (r: String)
    ensures
        r@ == joined(dir@, file@),
{
    let v = to_chars(dir.as_str());
    let mut out = dir;
    if v.len() > 0 && v[v.len() - 1] != '/' {
        proof {
            reveal_strlit("/");
        }
        out.append("/");
    }
    out.append(file);
    assert(out@ =~= joined(dir@, file@));
    out
}

} // verus!
