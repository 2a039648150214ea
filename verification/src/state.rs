//! The cursor: a position on one file of a loaded listing.
//!
//! A move that stays inside the loaded listing is done at once. Any other
//! operation needs the entries of one directory after another: it returns
//! `Step::Read` with the directory, and goes on when the host hands what it
//! read to `resume`. Until an operation is done the listing, the position and
//! the filter stay as they were, and they stay so where it fails.

use vstd::prelude::*;
use vstd::string::StringExecFns;
use crate::filter::{FilterSpec, FilterView};
use crate::path::{
    file_paths, get_child_files, listing, next_directory, next_start, prev_directory, prev_start,
    subdirectories, Reading, Walk, WalkStep, WalkStepView, WalkView,
};
use crate::text::{parent_of, parent_spec, path_lt, sorts_before, views};

verus! {

/// Why an operation of the cursor failed.
#[derive(Debug, PartialEq, Eq)]
pub enum NavError {
    /// The directory at `path` could not be read; `message` is what the host said.
    Access { path: String, message: String },
    /// The file under the cursor lies in no directory.
    NoParentDirectory,
    /// The cursor holds no listing.
    EmptyBuffer,
    /// No eligible file lies as far away in the direction of the move.
    OutOfRange,
}

/// A `NavError` as plain values.
pub enum NavErrorView {
    Access { path: Seq<char>, message: Seq<char> },
    NoParentDirectory,
    EmptyBuffer,
    OutOfRange,
}

impl View for NavError {
    type V = NavErrorView;

    open spec fn view(&self) -> NavErrorView {
        match self {
            NavError::Access { path, message } => NavErrorView::Access {
                path: path@,
                message: message@,
            },
            NavError::NoParentDirectory => NavErrorView::NoParentDirectory,
            NavError::EmptyBuffer => NavErrorView::EmptyBuffer,
            NavError::OutOfRange => NavErrorView::OutOfRange,
        }
    }
}

impl NavErrorView {
    /// What the user is told of the error: that the cursor cannot move
    /// further, or which directory could not be read and why.
    pub open spec fn message(self) -> Seq<char> {
        match self {
            NavErrorView::Access { path, message } => path + ": "@ + message,
            NavErrorView::NoParentDirectory => "cannot move further"@,
            NavErrorView::EmptyBuffer => "Files are not in buffer."@,
            NavErrorView::OutOfRange => "cannot move further"@,
        }
    }
}

impl NavError {
    /// What the user is told of the error.
    pub fn message(&self) -> (text: String)
        ensures
            text@ == self@.message(),
    {
        match self {
            NavError::Access { path, message } => {
                let mut text = path.clone();
                text.append(": ");
                text.append(message.as_str());
                text
            },
            NavError::NoParentDirectory => String::from_str("cannot move further"),
            NavError::EmptyBuffer => String::from_str("Files are not in buffer."),
            NavError::OutOfRange => String::from_str("cannot move further"),
        }
    }
}

/// What an operation of the cursor has come to.
#[derive(Debug, PartialEq, Eq)]
pub enum Step {
    /// The host has to read this directory and hand what it read to `resume`.
    Read(String),
    /// The operation is over.
    Done(Result<(), NavError>),
}

/// A `Step` as plain values.
pub enum StepView {
    Read(Seq<char>),
    Done(Result<(), NavErrorView>),
}

impl View for Step {
    type V = StepView;

    open spec fn view(&self) -> StepView {
        match self {
            Step::Read(dir) => StepView::Read(dir@),
            Step::Done(Ok(())) => StepView::Done(Ok(())),
            Step::Done(Err(e)) => StepView::Done(Err(e@)),
        }
    }
}

/// What an unfinished operation waits for.
#[derive(Debug)]
enum Stage {
    /// The entries of `dir`, which holds `anchor`, to list its files again.
    Reload { dir: String, anchor: String },
    /// The entries that the walk to another directory asked for.
    Walk(Walk),
    /// The entries of `dir`, where the walk ended, to list its files.
    Load { dir: String },
}

/// A `Stage` as plain values.
pub enum StageView {
    Reload { dir: Seq<char>, anchor: Seq<char> },
    Walk(WalkView),
    Load { dir: Seq<char> },
}

/// An unfinished operation.
#[derive(Debug)]
struct Task {
    stage: Stage,
    forward: bool,
    remaining: usize,
    candidate: Option<FilterSpec>,
}

/// An unfinished operation as plain values.
pub struct TaskView {
    /// What the operation waits for.
    pub stage: StageView,
    /// Whether it moves forward.
    pub forward: bool,
    /// How many eligible files it still has to pass after it enters the next
    /// listing at its near end.
    pub remaining: nat,
    /// The filter that takes the place of the cursor's own if it succeeds.
    pub candidate: Option<FilterView>,
}

/// The cursor.
#[derive(Debug)]
pub struct ViewerState {
    paths: Vec<String>,
    cursor: usize,
    filter: FilterSpec,
    task: Option<Task>,
}

/// A `ViewerState` as plain values.
pub struct CursorView {
    /// The loaded listing.
    pub paths: Seq<Seq<char>>,
    /// The position in it.
    pub cursor: nat,
    /// The filter by which listings are made.
    pub filter: FilterView,
    /// The unfinished operation, if there is one.
    pub task: Option<TaskView>,
}

/// The position at which a reloaded listing is entered: that of its first
/// path that does not sort before `anchor`, or its start where all do.
pub open spec fn entry_position(files: Seq<Seq<char>>, anchor: Seq<char>) -> nat {
    let rest = first_not_before(files, anchor);
    if rest < files.len() {
        rest
    } else {
        0
    }
}

/// The number of paths at the head of `files` that sort before `anchor`.
pub open spec fn first_not_before(files: Seq<Seq<char>>, anchor: Seq<char>) -> nat
    decreases files.len(),
{
    if files.len() == 0 || !path_lt(files.first(), anchor) {
        0
    } else {
        1 + first_not_before(files.drop_first(), anchor)
    }
}

/// The eligible files that a reading shows, in path order; none where the
/// directory could not be read.
pub open spec fn eligible(reading: Reading, filter: FilterView) -> Seq<Seq<char>> {
    match reading {
        Ok(entries) => listing(file_paths(entries@, filter)),
        Err(_) => Seq::empty(),
    }
}

/// The filter by which an operation lists files.
pub open spec fn effective(candidate: Option<FilterView>, filter: FilterView) -> FilterView {
    match candidate {
        Some(new) => new,
        None => filter,
    }
}

impl CursorView {
    /// Whether the cursor stands on a file.
    pub open spec fn loaded(self) -> bool {
        self.cursor < self.paths.len()
    }

    /// The file under the cursor.
    pub open spec fn current(self) -> Option<Seq<char>> {
        if self.loaded() {
            Some(self.paths[self.cursor as int])
        } else {
            None
        }
    }

    /// The cursor with no operation unfinished.
    pub open spec fn settled(self) -> CursorView {
        CursorView { task: None, ..self }
    }

    /// An operation fails: nothing changes but that no operation is unfinished.
    pub open spec fn fail(self, error: NavErrorView) -> (CursorView, StepView) {
        (self.settled(), StepView::Done(Err(error)))
    }

    /// An operation goes on with what the walk came to: it asks for what the
    /// walk asks, or for the entries of the directory where the walk ended,
    /// or fails where the walk found no directory.
    pub open spec fn follow(
        self,
        walk: WalkStepView,
        forward: bool,
        remaining: nat,
        candidate: Option<FilterView>,
    ) -> (CursorView, StepView) {
        match walk {
            WalkStepView::Ask(w) => (
                CursorView {
                    task: Some(TaskView { stage: StageView::Walk(w), forward, remaining, candidate }),
                    ..self
                },
                StepView::Read(w.asked),
            ),
            WalkStepView::Found(dir) => (
                CursorView {
                    task: Some(
                        TaskView { stage: StageView::Load { dir }, forward, remaining, candidate },
                    ),
                    ..self
                },
                StepView::Read(dir),
            ),
            WalkStepView::Exhausted => self.fail(NavErrorView::OutOfRange),
        }
    }

    /// An operation leaves the directory of the file under the cursor.
    pub open spec fn leave(self, forward: bool, remaining: nat) -> (CursorView, StepView) {
        match self.current() {
            None => self.fail(NavErrorView::EmptyBuffer),
            Some(file) => match parent_spec(file) {
                None => self.fail(NavErrorView::NoParentDirectory),
                Some(dir) => self.follow(
                    if forward {
                        next_start(dir)
                    } else {
                        prev_start(dir)
                    },
                    forward,
                    remaining,
                    None,
                ),
            },
        }
    }

    /// A move by `offset` files begins, forward where `offset` is positive.
    /// Inside the loaded listing it is done at once. Beyond either end the
    /// move leaves the directory, and has to pass what is left of `offset`
    /// once it has entered another listing at its near end. A directory
    /// without an eligible file is passed at no cost.
    pub open spec fn move_by(self, offset: int) -> (CursorView, StepView) {
        if !self.loaded() {
            self.fail(NavErrorView::EmptyBuffer)
        } else if 0 <= self.cursor + offset < self.paths.len() {
            (
                CursorView { cursor: (self.cursor + offset) as nat, task: None, ..self },
                StepView::Done(Ok(())),
            )
        } else if offset > 0 {
            self.leave(true, (self.cursor + offset - self.paths.len()) as nat)
        } else {
            self.leave(false, (-offset - self.cursor - 1) as nat)
        }
    }

    /// The listing of the directory of the file under the cursor is made again,
    /// by `candidate` if there is one.
    pub open spec fn reload(self, candidate: Option<FilterView>) -> (CursorView, StepView) {
        match self.current() {
            None => self.fail(NavErrorView::EmptyBuffer),
            Some(anchor) => match parent_spec(anchor) {
                None => self.fail(NavErrorView::NoParentDirectory),
                Some(dir) => (
                    CursorView {
                        task: Some(
                            TaskView {
                                stage: StageView::Reload { dir, anchor },
                                forward: false,
                                remaining: 0,
                                candidate,
                            },
                        ),
                        ..self
                    },
                    StepView::Read(dir),
                ),
            },
        }
    }

    /// The unfinished operation goes on with what the host read.
    ///
    /// A walk takes its step. Where it ends at a directory, that directory is
    /// read next. Where its listing is longer than what is left of the move,
    /// the cursor enters it: forward that many files behind its first, backward
    /// that many before its last. Otherwise the files of the listing are passed
    /// and the walk goes on from that directory; forward, what was just read
    /// serves as its first answer.
    ///
    /// A listing made again is entered at `entry_position`. Where it is empty,
    /// the operation goes backward to the last file of the nearest directory
    /// that has one.
    ///
    /// A listing made again is meant for one directory, the one that holds
    /// the file under the cursor: where that directory cannot be read the
    /// operation fails, and says which directory it was. Every directory
    /// that a walk ends at is one among others in the search for an eligible
    /// file: where it cannot be read it is passed like one without an
    /// eligible file, so that it does not bar the way to those behind it.
    pub open spec fn resume(self, reading: Reading) -> (CursorView, StepView) {
        match self.task {
            None => (self, StepView::Done(Ok(()))),
            Some(task) => {
                let filter = effective(task.candidate, self.filter);
                match task.stage {
                    StageView::Walk(w) => self.follow(
                        w.advance(subdirectories(reading)),
                        task.forward,
                        task.remaining,
                        task.candidate,
                    ),
                    StageView::Reload { dir, anchor } => match reading {
                        Err(message) => self.fail(
                            NavErrorView::Access { path: dir, message: message@ },
                        ),
                        Ok(entries) => {
                            let files = listing(file_paths(entries@, filter));
                            if files.len() > 0 {
                                (
                                    CursorView {
                                        paths: files,
                                        cursor: entry_position(files, anchor),
                                        filter,
                                        task: None,
                                    },
                                    StepView::Done(Ok(())),
                                )
                            } else {
                                self.follow(prev_start(dir), false, 0, task.candidate)
                            }
                        },
                    },
                    StageView::Load { dir } => {
                        let files = eligible(reading, filter);
                        if task.remaining < files.len() {
                            (
                                CursorView {
                                    paths: files,
                                    cursor: if task.forward {
                                        task.remaining
                                    } else {
                                        (files.len() - 1 - task.remaining) as nat
                                    },
                                    filter,
                                    task: None,
                                },
                                StepView::Done(Ok(())),
                            )
                        } else {
                            self.follow(
                                if task.forward {
                                    next_start(dir)->Ask_0.advance(subdirectories(reading))
                                } else {
                                    prev_start(dir)
                                },
                                task.forward,
                                (task.remaining - files.len()) as nat,
                                task.candidate,
                            )
                        }
                    },
                }
            },
        }
    }
}

impl View for Stage {
    type V = StageView;

    closed spec fn view(&self) -> StageView {
        match self {
            Stage::Reload { dir, anchor } => StageView::Reload { dir: dir@, anchor: anchor@ },
            Stage::Walk(walk) => StageView::Walk(walk@),
            Stage::Load { dir } => StageView::Load { dir: dir@ },
        }
    }
}

impl View for Task {
    type V = TaskView;

    closed spec fn view(&self) -> TaskView {
        TaskView {
            stage: self.stage@,
            forward: self.forward,
            remaining: self.remaining as nat,
            candidate: match self.candidate {
                Some(filter) => Some(filter@),
                None => None,
            },
        }
    }
}

impl View for ViewerState {
    type V = CursorView;

    closed spec fn view(&self) -> CursorView {
        CursorView {
            paths: views(self.paths@),
            cursor: self.cursor as nat,
            filter: self.filter@,
            task: match self.task {
                Some(task) => Some(task@),
                None => None,
            },
        }
    }
}

/// The position at which a reloaded listing is entered.
fn find_entry_position(files: &Vec<String>, anchor: &str) -> (at: usize)
    ensures
        at == entry_position(views(files@), anchor@),
        files.len() > 0 ==> at < files.len(),
{
    let mut i: usize = 0;
    proof {
        assert(views(files@).skip(0) =~= views(files@));
    }
    while i < files.len()
        invariant
            i <= files.len(),
            first_not_before(views(files@), anchor@) == i + first_not_before(
                views(files@).skip(i as int),
                anchor@,
            ),
        decreases files.len() - i,
    {
        if !sorts_before(files[i].as_str(), anchor) {
            return i;
        }
        proof {
            assert(views(files@).skip(i as int).drop_first() =~= views(files@).skip(i + 1));
        }
        i = i + 1;
    }
    0
}

impl Default for ViewerState {
    /// A cursor without a listing, whose filter accepts no file.
    fn default() -> (state: ViewerState)
        ensures
            state@ == (CursorView {
                paths: Seq::empty(),
                cursor: 0,
                filter: FilterView::Extensions(Seq::empty()),
                task: None,
            }),
    {
        let state = ViewerState {
            paths: Vec::new(),
            cursor: 0,
            filter: FilterSpec::Extensions(Vec::new()),
            task: None,
        };
        assert(state@.paths =~= Seq::empty());
        assert(views(Seq::<String>::empty()) =~= Seq::empty());
        state
    }
}

impl ViewerState {
    /// A cursor on the file `filename`, whose listing holds that file alone
    /// until `reload_files` has listed its directory.
    pub fn new(filename: &str, filter: FilterSpec) -> (state: ViewerState)
        ensures
            state@ == (CursorView {
                paths: seq![filename@],
                cursor: 0,
                filter: filter@,
                task: None,
            }),
    {
        let mut paths: Vec<String> = Vec::new();
        paths.push(filename.to_owned());
        let state = ViewerState { paths, cursor: 0, filter, task: None };
        assert(state@.paths =~= seq![filename@]);
        state
    }

    /// The file under the cursor.
    pub fn get(&self) -> (r: Result<String, NavError>)
        ensures
            match r {
                Ok(file) => self@.current() == Some(file@),
                Err(e) => self@.current() is None && e@ == NavErrorView::EmptyBuffer,
            },
    {
        if self.cursor < self.paths.len() {
            Ok(self.paths[self.cursor].clone())
        } else {
            Err(NavError::EmptyBuffer)
        }
    }

    /// The directory of the file under the cursor.
    pub fn parent_dir(&self) -> (r: Result<String, NavError>)
        ensures
            match r {
                Ok(dir) => self@.current() is Some && parent_spec(self@.current().unwrap()) == Some(
                    dir@,
                ),
                Err(e) => match self@.current() {
                    Some(file) => parent_spec(file) is None && e@
                        == NavErrorView::NoParentDirectory,
                    None => e@ == NavErrorView::EmptyBuffer,
                },
            },
    {
        if self.cursor < self.paths.len() {
            match parent_of(self.paths[self.cursor].as_str()) {
                Some(dir) => Ok(dir),
                None => Err(NavError::NoParentDirectory),
            }
        } else {
            Err(NavError::EmptyBuffer)
        }
    }

    /// The position of the cursor in its listing.
    pub fn cursor(&self) -> (at: usize)
        ensures
            at == self@.cursor,
    {
        self.cursor
    }

    /// The loaded listing.
    pub fn paths(&self) -> (paths: &Vec<String>)
        ensures
            views(paths@) == self@.paths,
    {
        &self.paths
    }

    /// Whether an operation is unfinished.
    pub fn pending(&self) -> (r: bool)
        ensures
            r == self@.task is Some,
    {
        self.task.is_some()
    }

    /// Moves to the first file of the listing.
    pub fn move_first(&mut self)
        ensures
            final(self)@ == (CursorView { cursor: 0, ..old(self)@ }),
    {
        self.cursor = 0;
    }

    /// Moves to the last file of the listing.
    pub fn move_last(&mut self)
        ensures
            final(self)@ == (CursorView {
                cursor: if old(self)@.paths.len() > 0 {
                    (old(self)@.paths.len() - 1) as nat
                } else {
                    0
                },
                ..old(self)@
            }),
    {
        if self.paths.len() > 0 {
            self.cursor = self.paths.len() - 1;
        } else {
            self.cursor = 0;
        }
    }

    fn follow(
        &mut self,
        walk: WalkStep,
        forward: bool,
        remaining: usize,
        candidate: Option<FilterSpec>,
    ) -> (step: Step)
        requires
            old(self).task is None,
        ensures
            (final(self)@, step@) == old(self)@.follow(
                walk@,
                forward,
                remaining as nat,
                match candidate {
                    Some(filter) => Some(filter@),
                    None => None,
                },
            ),
    {
        match walk {
            WalkStep::Ask(w) => {
                let dir = w.target().clone();
                self.task = Some(Task { stage: Stage::Walk(w), forward, remaining, candidate });
                Step::Read(dir)
            },
            WalkStep::Found(dir) => {
                let ask = dir.clone();
                self.task = Some(Task { stage: Stage::Load { dir }, forward, remaining, candidate });
                Step::Read(ask)
            },
            WalkStep::Exhausted => Step::Done(Err(NavError::OutOfRange)),
        }
    }

    fn leave(&mut self, forward: bool, remaining: usize) -> (step: Step)
        ensures
            (final(self)@, step@) == old(self)@.leave(forward, remaining as nat),
    {
        self.task = None;
        match self.parent_dir() {
            Err(e) => Step::Done(Err(e)),
            Ok(dir) => {
                let walk = if forward {
                    next_directory(dir.as_str())
                } else {
                    prev_directory(dir.as_str())
                };
                self.follow(walk, forward, remaining, None)
            },
        }
    }

    /// Begins a move by `offset` files, forward where it is positive.
    pub fn move_by(&mut self, offset: isize) -> (step: Step)
        ensures
            (final(self)@, step@) == old(self)@.move_by(offset as int),
            offset == 0 ==> final(self)@.current() == old(self)@.current(),
    {
        self.task = None;
        let len = self.paths.len();
        if self.cursor >= len {
            return Step::Done(Err(NavError::EmptyBuffer));
        }
        if offset >= 0 {
            let ahead = offset as usize;
            if ahead < len - self.cursor {
                self.cursor = self.cursor + ahead;
                Step::Done(Ok(()))
            } else {
                self.leave(true, ahead - (len - self.cursor))
            }
        } else {
            let back = (-(offset + 1)) as usize;
            if back < self.cursor {
                self.cursor = self.cursor - back - 1;
                Step::Done(Ok(()))
            } else {
                self.leave(false, back - self.cursor)
            }
        }
    }

    /// Begins the move to the next eligible file.
    pub fn next_cursor(&mut self) -> (step: Step)
        ensures
            (final(self)@, step@) == old(self)@.move_by(1),
    {
        self.move_by(1)
    }

    /// Begins the move to the eligible file before the current one.
    pub fn prev_cursor(&mut self) -> (step: Step)
        ensures
            (final(self)@, step@) == old(self)@.move_by(-1),
    {
        self.move_by(-1)
    }

    /// Begins the jump into another directory: forward to the first file of
    /// the next directory that has an eligible file, backward to the last file
    /// of the nearest one before.
    pub fn change_directory(&mut self, forward: bool) -> (step: Step)
        ensures
            (final(self)@, step@) == old(self)@.leave(forward, 0),
    {
        self.leave(forward, 0)
    }

    /// Begins the jump to the first file of the next directory that has an
    /// eligible file.
    pub fn next_directory(&mut self) -> (step: Step)
        ensures
            (final(self)@, step@) == old(self)@.leave(true, 0),
    {
        self.leave(true, 0)
    }

    /// Begins the jump to the last file of the nearest directory before the
    /// current one that has an eligible file.
    pub fn prev_directory(&mut self) -> (step: Step)
        ensures
            (final(self)@, step@) == old(self)@.leave(false, 0),
    {
        self.leave(false, 0)
    }

    fn reload(&mut self, candidate: Option<FilterSpec>) -> (step: Step)
        ensures
            (final(self)@, step@) == old(self)@.reload(
                match candidate {
                    Some(filter) => Some(filter@),
                    None => None,
                },
            ),
    {
        self.task = None;
        match self.get() {
            Err(e) => Step::Done(Err(e)),
            Ok(anchor) => match parent_of(anchor.as_str()) {
                None => Step::Done(Err(NavError::NoParentDirectory)),
                Some(dir) => {
                    let ask = dir.clone();
                    self.task = Some(
                        Task {
                            stage: Stage::Reload { dir, anchor },
                            forward: false,
                            remaining: 0,
                            candidate,
                        },
                    );
                    Step::Read(ask)
                },
            },
        }
    }

    /// Begins to list the directory of the file under the cursor again.
    pub fn reload_files(&mut self) -> (step: Step)
        ensures
            (final(self)@, step@) == old(self)@.reload(None),
    {
        self.reload(None)
    }

    /// Begins to list the directory of the file under the cursor again, by
    /// `filter`, which takes the place of the cursor's filter if that succeeds.
    pub fn set_filter(&mut self, filter: FilterSpec) -> (step: Step)
        ensures
            (final(self)@, step@) == old(self)@.reload(Some(filter@)),
    {
        self.reload(Some(filter))
    }

    fn enter(&mut self, files: Vec<String>, at: usize, candidate: Option<FilterSpec>)
        requires
            at < files.len(),
            old(self).task is None,
        ensures
            final(self)@ == (CursorView {
                paths: views(files@),
                cursor: at as nat,
                filter: effective(
                    match candidate {
                        Some(filter) => Some(filter@),
                        None => None,
                    },
                    old(self)@.filter,
                ),
                task: None,
            }),
    {
        self.paths = files;
        self.cursor = at;
        match candidate {
            Some(filter) => {
                self.filter = filter;
            },
            None => {},
        }
    }

    /// Goes on with the unfinished operation, given what the host read in the
    /// directory that the last step asked for. Where no operation is
    /// unfinished nothing happens.
    pub fn resume(&mut self, reading: Reading) -> (step: Step)
        ensures
            (final(self)@, step@) == old(self)@.resume(reading),
    {
        let task = match self.task.take() {
            None => {
                return Step::Done(Ok(()));
            },
            Some(task) => task,
        };
        let Task { stage, forward, remaining, candidate } = task;
        match stage {
            Stage::Walk(walk) => {
                let next = walk.resume(&reading);
                self.follow(next, forward, remaining, candidate)
            },
            Stage::Reload { dir, anchor } => match reading {
                Err(message) => Step::Done(Err(NavError::Access { path: dir, message })),
                Ok(entries) => {
                    let files = match &candidate {
                        Some(filter) => get_child_files(&entries, filter),
                        None => get_child_files(&entries, &self.filter),
                    };
                    if files.len() > 0 {
                        let at = find_entry_position(&files, anchor.as_str());
                        self.enter(files, at, candidate);
                        Step::Done(Ok(()))
                    } else {
                        let walk = prev_directory(dir.as_str());
                        self.follow(walk, false, 0, candidate)
                    }
                },
            },
            Stage::Load { dir } => {
                let files = match (&reading, &candidate) {
                    (Ok(entries), Some(filter)) => get_child_files(entries, filter),
                    (Ok(entries), None) => get_child_files(entries, &self.filter),
                    (Err(_), _) => Vec::new(),
                };
                assert(reading is Err ==> views(files@) =~= Seq::<Seq<char>>::empty());
                let count = files.len();
                if remaining < count {
                    let at = if forward {
                        remaining
                    } else {
                        count - 1 - remaining
                    };
                    self.enter(files, at, candidate);
                    Step::Done(Ok(()))
                } else {
                    let walk = if forward {
                        match next_directory(dir.as_str()) {
                            WalkStep::Ask(first) => first.resume(&reading),
                            other => other,
                        }
                    } else {
                        prev_directory(dir.as_str())
                    };
                    self.follow(walk, forward, remaining - count, candidate)
                }
            },
        }
    }
}

} // verus!
