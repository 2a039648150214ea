//! Moving the cursor to the next image that can be shown.
//!
//! The host shows images; the cursor only knows paths. A fetch moves the
//! cursor, asks the host to render the file it came to, and moves on by one
//! file in the same direction for as long as the host fails to render.

use vstd::prelude::*;
use crate::path::Reading;
use crate::state::{CursorView, NavError, NavErrorView, Step, StepView, ViewerState};

verus! {

/// What a fetch has come to.
#[derive(Debug, PartialEq, Eq)]
pub enum Fetch {
    /// The host has to read this directory and reply with its entries.
    Read(String),
    /// The host has to render this file and reply with the image.
    Render(String),
    /// The fetch is over: with the image, or with the error of the cursor.
    Done(Result<String, NavError>),
}

/// A `Fetch` as plain values.
pub enum FetchView {
    Read(Seq<char>),
    Render(Seq<char>),
    Done(Result<Seq<char>, NavErrorView>),
}

impl View for Fetch {
    type V = FetchView;

    open spec fn view(&self) -> FetchView {
        match self {
            Fetch::Read(dir) => FetchView::Read(dir@),
            Fetch::Render(file) => FetchView::Render(file@),
            Fetch::Done(Ok(image)) => FetchView::Done(Ok(image@)),
            Fetch::Done(Err(e)) => FetchView::Done(Err(e@)),
        }
    }
}

/// What the host replies to a fetch.
#[derive(Debug)]
pub enum Reply {
    /// What it read in the directory asked for.
    Entries(Reading),
    /// The image it rendered, or why it could not.
    Image(Result<String, String>),
}

/// What a fetch comes to after a step of the cursor: it hands on the
/// cursor's request and its error, and has the file rendered that the cursor
/// came to.
pub open spec fn show(state: CursorView, step: StepView) -> FetchView {
    match step {
        StepView::Read(dir) => FetchView::Read(dir),
        StepView::Done(Err(e)) => FetchView::Done(Err(e)),
        StepView::Done(Ok(())) => match state.current() {
            Some(file) => FetchView::Render(file),
            None => FetchView::Done(Err(NavErrorView::EmptyBuffer)),
        },
    }
}

/// The number of files that a fetch moves forward at first.
pub open spec fn forward_moves(moves: i32) -> int {
    if moves > 0 {
        moves as int
    } else {
        0
    }
}

/// The number of files, as an offset, that a fetch moves backward at first.
pub open spec fn backward_moves(moves: i32) -> int {
    if moves < 0 {
        moves as int
    } else {
        0
    }
}

/// A fetch with the cursor after the step it made.
pub open spec fn shown(after: (CursorView, StepView)) -> (CursorView, FetchView) {
    (after.0, show(after.0, after.1))
}

/// How a fetch goes on with the host's reply: entries go to the cursor, an
/// image ends the fetch, and a failure to render moves the cursor on by one
/// file, forward or backward.
pub open spec fn fetch_step(state: CursorView, forward: bool, reply: Reply) -> (
    CursorView,
    FetchView,
) {
    match reply {
        Reply::Entries(reading) => shown(state.resume(reading)),
        Reply::Image(Ok(image)) => (state, FetchView::Done(Ok(image@))),
        Reply::Image(Err(_)) => shown(
            state.move_by(
                if forward {
                    1
                } else {
                    -1
                },
            ),
        ),
    }
}

fn present(state: &ViewerState, step: Step) -> (fetch: Fetch)
    ensures
        fetch@ == show(state@, step@),
{
    match step {
        Step::Read(dir) => Fetch::Read(dir),
        Step::Done(Err(e)) => Fetch::Done(Err(e)),
        Step::Done(Ok(())) => match state.get() {
            Ok(file) => Fetch::Render(file),
            Err(e) => Fetch::Done(Err(e)),
        },
    }
}

/// Begins a fetch `moves` files ahead of the cursor; a negative `moves`
/// counts as none.
pub fn get_next_image(state: &mut ViewerState, moves: i32) -> (fetch: Fetch)
    ensures
        (final(state)@, fetch@) == shown(old(state)@.move_by(forward_moves(moves))),
{
    let offset: isize = if moves > 0 {
        moves as isize
    } else {
        0
    };
    let step = state.move_by(offset);
    present(state, step)
}

/// Begins a fetch `-moves` files before the cursor; a positive `moves`
/// counts as none.
pub fn get_prev_image(state: &mut ViewerState, moves: i32) -> (fetch: Fetch)
    ensures
        (final(state)@, fetch@) == shown(old(state)@.move_by(backward_moves(moves))),
{
    let offset: isize = if moves < 0 {
        moves as isize
    } else {
        0
    };
    let step = state.move_by(offset);
    present(state, step)
}

/// Begins a fetch `moves` files away from the cursor, forward where `moves`
/// is positive.
pub fn move_image_offset(state: &mut ViewerState, moves: i32) -> (fetch: Fetch)
    ensures
        (final(state)@, fetch@) == shown(old(state)@.move_by(moves as int)),
{
    let step = state.move_by(moves as isize);
    present(state, step)
}

/// Goes on with a fetch in the direction it began, given the host's reply.
pub fn resume_image(state: &mut ViewerState, forward: bool, reply: Reply) -> (fetch: Fetch)
    ensures
        (final(state)@, fetch@) == fetch_step(old(state)@, forward, reply),
{
    match reply {
        Reply::Entries(reading) => {
            let step = state.resume(reading);
            present(state, step)
        },
        Reply::Image(Ok(image)) => Fetch::Done(Ok(image)),
        Reply::Image(Err(_)) => {
            let step = if forward {
                state.move_by(1)
            } else {
                state.move_by(-1)
            };
            present(state, step)
        },
    }
}

} // verus!
