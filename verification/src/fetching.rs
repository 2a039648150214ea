//! Fetches on a tree at rest: every fetch ends, and a fetch is taken back by
//! the fetch the other way.
//!
//! A fetch moves the cursor and has the file rendered that the cursor came
//! to. Where the host has no image of it the fetch goes on by one file, and
//! there are finitely many files in a listing and finitely many directories
//! to go to.

use vstd::prelude::*;
use crate::ends::{holds_all, lemma_goes_on, still_ahead};
use crate::journey::{
    arrives, files_lie_within, lemma_move_taken_back, rests_in, run_to_end,
};
use crate::model::{start, well_formed, Host};
use crate::state::{CursorView, StepView};
use crate::text::parent_spec;
use crate::utils::{fetch_step, shown, FetchView, Reply};

verus! {

/// What the host makes of each file: its image, or why it has none.
pub type Renderer = spec_fn(Seq<char>) -> Result<String, String>;

/// Where a fetch stands after at most `fuel` steps, each answered by the
/// host: with the entries of the directory it asks for, or with what the
/// host makes of the file it wants rendered. Where the host has no image the
/// fetch goes on by one file, forward or backward as `forward` says.
pub open spec fn fetch_to_end(
    host: Host,
    render: Renderer,
    forward: bool,
    state: CursorView,
    fetch: FetchView,
    fuel: nat,
) -> (CursorView, FetchView)
    decreases fuel,
{
    match fetch {
        FetchView::Read(dir) if fuel > 0 => {
            let next = fetch_step(state, forward, Reply::Entries(host(dir)));
            fetch_to_end(host, render, forward, next.0, next.1, (fuel - 1) as nat)
        },
        FetchView::Render(file) if fuel > 0 => {
            let next = fetch_step(state, forward, Reply::Image(render(file)));
            fetch_to_end(host, render, forward, next.0, next.1, (fuel - 1) as nat)
        },
        _ => (state, fetch),
    }
}

/// Whether the fetch that stands at `at` comes to an end.
pub open spec fn fetch_ends(
    host: Host,
    render: Renderer,
    forward: bool,
    at: (CursorView, FetchView),
) -> bool {
    exists|fuel: nat| (#[trigger] fetch_to_end(host, render, forward, at.0, at.1, fuel)).1 is Done
}

/// The steps of a fetch add up.
proof fn lemma_fetch_split(
    host: Host,
    render: Renderer,
    forward: bool,
    state: CursorView,
    fetch: FetchView,
    first: nat,
    then: nat,
)
    ensures
        fetch_to_end(host, render, forward, state, fetch, first + then) == fetch_to_end(
            host,
            render,
            forward,
            fetch_to_end(host, render, forward, state, fetch, first).0,
            fetch_to_end(host, render, forward, state, fetch, first).1,
            then,
        ),
    decreases first,
{
    if first > 0 {
        match fetch {
            FetchView::Read(dir) => {
                let next = fetch_step(state, forward, Reply::Entries(host(dir)));
                lemma_fetch_split(host, render, forward, next.0, next.1, (first - 1) as nat, then);
            },
            FetchView::Render(file) => {
                let next = fetch_step(state, forward, Reply::Image(render(file)));
                lemma_fetch_split(host, render, forward, next.0, next.1, (first - 1) as nat, then);
            },
            FetchView::Done(_) => {
                assert(fetch_to_end(host, render, forward, state, fetch, then) == (state, fetch));
            },
        }
    } else {
        assert(fetch_to_end(host, render, forward, state, fetch, 0) == (state, fetch));
    }
}

/// A fetch ends if it ends from where it stands after some steps.
proof fn lemma_fetch_ends_later(
    host: Host,
    render: Renderer,
    forward: bool,
    at: (CursorView, FetchView),
    steps: nat,
)
    requires
        fetch_ends(host, render, forward, fetch_to_end(host, render, forward, at.0, at.1, steps)),
    ensures
        fetch_ends(host, render, forward, at),
{
    let later = fetch_to_end(host, render, forward, at.0, at.1, steps);
    let fuel = choose|fuel: nat|
        (#[trigger] fetch_to_end(host, render, forward, later.0, later.1, fuel)).1 is Done;
    lemma_fetch_split(host, render, forward, at.0, at.1, steps, fuel);
    assert(fetch_to_end(host, render, forward, at.0, at.1, steps + fuel).1 is Done);
}

/// While the cursor asks for directories the fetch hands its requests on:
/// when the operation of the cursor is over, the fetch stands where that
/// operation has brought it.
proof fn lemma_fetch_follows(
    host: Host,
    render: Renderer,
    forward: bool,
    state: CursorView,
    dir: Seq<char>,
    fuel: nat,
) -> (steps: nat)
    requires
        run_to_end(host, state, StepView::Read(dir), fuel).1 is Done,
    ensures
        fetch_to_end(host, render, forward, state, FetchView::Read(dir), steps) == shown(
            run_to_end(host, state, StepView::Read(dir), fuel),
        ),
    decreases fuel,
{
    let next = state.resume(host(dir));
    assert(fetch_step(state, forward, Reply::Entries(host(dir))) == shown(next));
    match next.1 {
        StepView::Read(then) => {
            let rest = lemma_fetch_follows(host, render, forward, next.0, then, (fuel - 1) as nat);
            rest + 1
        },
        StepView::Done(_) => {
            assert(run_to_end(host, next.0, next.1, (fuel - 1) as nat) == next);
            assert(fetch_to_end(host, render, forward, shown(next).0, shown(next).1, 0) == shown(
                next,
            ));
            1
        },
    }
}

/// A fetch that leaves a directory ends, if every fetch ends that has a file
/// rendered in a directory from which an operation cannot go as far.
proof fn lemma_fetch_leaves(
    host: Host,
    root: Seq<char>,
    all: Seq<Seq<char>>,
    render: Renderer,
    forward: bool,
    state: CursorView,
    ahead: bool,
    dir: Seq<char>,
    left: nat,
) -> (to: (CursorView, Seq<char>))
    requires
        well_formed(host, root),
        holds_all(host, all),
    ensures
        ({
            let at = state.follow(start(ahead, dir), ahead, left, None);
            ||| fetch_ends(host, render, forward, shown(at))
            ||| {
                &&& rests_in(host, to.0, to.1)
                &&& to.0.filter == state.filter
                &&& still_ahead(host, all, ahead, to.1) < still_ahead(host, all, ahead, dir)
                &&& fetch_ends(
                    host,
                    render,
                    forward,
                    (to.0, FetchView::Render(to.0.current().unwrap())),
                ) ==> fetch_ends(host, render, forward, shown(at))
            }
        }),
{
    let at = state.follow(start(ahead, dir), ahead, left, None);
    let on = lemma_goes_on(host, root, all, state, ahead, dir, left, None);
    let end = run_to_end(host, at.0, at.1, on.0);
    match at.1 {
        StepView::Read(asked) => {
            let steps = lemma_fetch_follows(host, render, forward, at.0, asked, on.0);
            assert(shown(at) == (at.0, FetchView::Read(asked)));
            if end.1->Done_0 is Ok {
                assert(shown(end) == (end.0, FetchView::Render(end.0.current().unwrap())));
                if fetch_ends(host, render, forward, shown(end)) {
                    lemma_fetch_ends_later(host, render, forward, shown(at), steps);
                }
            } else {
                assert(shown(end).1 is Done);
                assert(fetch_to_end(host, render, forward, shown(at).0, shown(at).1, steps).1
                    is Done);
            }
            (end.0, on.1)
        },
        StepView::Done(_) => {
            assert(fetch_to_end(host, render, forward, shown(at).0, shown(at).1, 0).1 is Done);
            (state, dir)
        },
    }
}

/// A fetch that has a file rendered ends.
proof fn lemma_rendering_ends(
    host: Host,
    root: Seq<char>,
    all: Seq<Seq<char>>,
    render: Renderer,
    forward: bool,
    dir: Seq<char>,
    state: CursorView,
)
    requires
        well_formed(host, root),
        holds_all(host, all),
        files_lie_within(host, state.filter),
        rests_in(host, state, dir),
    ensures
        fetch_ends(host, render, forward, (state, FetchView::Render(state.current().unwrap()))),
    decreases
        still_ahead(host, all, forward, dir),
        (if forward {
            state.paths.len() - state.cursor
        } else {
            state.cursor + 1int
        }),
{
    let file = state.current().unwrap();
    let at = (state, FetchView::Render(file));
    let after = fetch_step(state, forward, Reply::Image(render(file)));
    assert(fetch_to_end(host, render, forward, after.0, after.1, 0) == after);
    assert(fetch_to_end(host, render, forward, at.0, at.1, 1) == after);
    if render(file) is Err {
        let offset: int = if forward {
            1
        } else {
            -1
        };
        let moved = state.move_by(offset);
        assert(after == shown(moved));
        assert(parent_spec(state.paths[state.cursor as int]) == Some(dir));
        if moved.1 is Done && moved.1->Done_0 is Ok {
            lemma_rendering_ends(host, root, all, render, forward, dir, moved.0);
            lemma_fetch_ends_later(host, render, forward, at, 1);
        } else {
            assert(moved == state.follow(start(forward, dir), forward, 0, None));
            let to = lemma_fetch_leaves(host, root, all, render, forward, state, forward, dir, 0);
            if !fetch_ends(host, render, forward, shown(moved)) {
                lemma_rendering_ends(host, root, all, render, forward, to.1, to.0);
            }
            lemma_fetch_ends_later(host, render, forward, at, 1);
        }
    }
}

/// On a tree at rest that has finitely many directories, every fetch ends,
/// whatever the host makes of the files: with an image, or because no
/// eligible file is left in its direction. This holds of a fetch that begins
/// any number of files away from a cursor at rest in a directory of a
/// well-formed tree whose eligible files lie in the directories that show
/// them.
pub proof fn lemma_fetches_end(
    host: Host,
    root: Seq<char>,
    all: Seq<Seq<char>>,
    render: Renderer,
    forward: bool,
    dir: Seq<char>,
    state: CursorView,
)
    requires
        well_formed(host, root),
        holds_all(host, all),
        files_lie_within(host, state.filter),
        rests_in(host, state, dir),
    ensures
        forall|moves: int| #[trigger] fetch_ends(host, render, forward, shown(state.move_by(moves))),
{
    assert forall|moves: int| #[trigger]
        fetch_ends(host, render, forward, shown(state.move_by(moves))) by {
        let moved = state.move_by(moves);
        assert(parent_spec(state.paths[state.cursor as int]) == Some(dir));
        if moved.1 is Done && moved.1->Done_0 is Ok {
            lemma_rendering_ends(host, root, all, render, forward, dir, moved.0);
        } else {
            let ahead = moves > 0;
            let left = if ahead {
                (state.cursor + moves - state.paths.len()) as nat
            } else {
                (-moves - state.cursor - 1) as nat
            };
            assert(moved == state.follow(start(ahead, dir), ahead, left, None));
            let to = lemma_fetch_leaves(host, root, all, render, forward, state, ahead, dir, left);
            if !fetch_ends(host, render, forward, shown(moved)) {
                lemma_rendering_ends(host, root, all, render, forward, to.1, to.0);
            }
        }
    }
}

/// Whether the host has an image of every file.
pub open spec fn renders_all(render: Renderer) -> bool {
    forall|file: Seq<char>| (#[trigger] render(file)) is Ok
}

/// Whether the fetch that stands at `at` ends with an image, with the cursor
/// as `end`.
pub open spec fn fetch_arrives(
    host: Host,
    render: Renderer,
    forward: bool,
    at: (CursorView, FetchView),
    end: CursorView,
) -> bool {
    exists|fuel: nat|
        (#[trigger] fetch_to_end(host, render, forward, at.0, at.1, fuel)).0 == end
            && fetch_to_end(host, render, forward, at.0, at.1, fuel).1 is Done && fetch_to_end(
            host,
            render,
            forward,
            at.0,
            at.1,
            fuel,
        ).1->Done_0 is Ok
}

/// Where the host has an image of every file, a fetch that ends with an
/// image has moved the cursor as the operation of the cursor does that it
/// began with.
proof fn lemma_fetch_is_move(
    host: Host,
    render: Renderer,
    forward: bool,
    state: CursorView,
    step: StepView,
    fuel: nat,
)
    requires
        renders_all(render),
        step is Done && step->Done_0 is Ok ==> step == StepView::Done(Ok(())),
        fetch_to_end(host, render, forward, shown((state, step)).0, shown((state, step)).1, fuel).1
            is Done,
        fetch_to_end(
            host,
            render,
            forward,
            shown((state, step)).0,
            shown((state, step)).1,
            fuel,
        ).1->Done_0 is Ok,
    ensures
        arrives(
            host,
            (state, step),
            fetch_to_end(
                host,
                render,
                forward,
                shown((state, step)).0,
                shown((state, step)).1,
                fuel,
            ).0,
        ),
    decreases fuel,
{
    let at = shown((state, step));
    let end = fetch_to_end(host, render, forward, at.0, at.1, fuel).0;
    match step {
        StepView::Read(dir) => {
            let next = state.resume(host(dir));
            assert(fetch_step(state, forward, Reply::Entries(host(dir))) == shown(next));
            lemma_fetch_is_move(host, render, forward, next.0, next.1, (fuel - 1) as nat);
            let more = choose|more: nat| #[trigger]
                run_to_end(host, next.0, next.1, more) == (end, StepView::Done(Ok(())));
            let begun = (state, step);
            assert(run_to_end(host, begun.0, begun.1, more + 1) == (end, StepView::Done(Ok(()))));
        },
        StepView::Done(_) => {
            let file = state.current().unwrap();
            let after = fetch_step(state, forward, Reply::Image(render(file)));
            assert(fetch_to_end(host, render, forward, after.0, after.1, (fuel - 1) as nat)
                == after);
            let begun = (state, step);
            assert(run_to_end(host, begun.0, begun.1, 0) == (state, StepView::Done(Ok(()))));
        },
    }
}

/// Where the host has an image of every file, a fetch ends with an image
/// where the operation of the cursor that it began with ends well.
proof fn lemma_move_is_fetch(
    host: Host,
    render: Renderer,
    forward: bool,
    state: CursorView,
    step: StepView,
    end: CursorView,
)
    requires
        renders_all(render),
        end.loaded(),
        arrives(host, (state, step), end),
    ensures
        fetch_arrives(host, render, forward, shown((state, step)), end),
{
    let begun = (state, step);
    let fuel = choose|fuel: nat| #[trigger]
        run_to_end(host, begun.0, begun.1, fuel) == (end, StepView::Done(Ok(())));
    let at = shown(begun);
    let file = end.current().unwrap();
    let last = fetch_step(end, forward, Reply::Image(render(file)));
    assert(fetch_to_end(host, render, forward, last.0, last.1, 0) == last);
    assert(fetch_to_end(host, render, forward, end, FetchView::Render(file), 1) == last);
    match step {
        StepView::Read(dir) => {
            let steps = lemma_fetch_follows(host, render, forward, state, dir, fuel);
            lemma_fetch_split(host, render, forward, at.0, at.1, steps, 1);
            assert(fetch_to_end(host, render, forward, at.0, at.1, steps + 1) == last);
        },
        StepView::Done(_) => {
            assert(fetch_to_end(host, render, forward, at.0, at.1, 1) == last);
        },
    }
}

/// On a tree at rest, where the host has an image of every file, a fetch
/// that ends with an image is taken back by the fetch as many files the
/// other way: the cursor is then again as it was.
///
/// This holds of a cursor at rest in a directory of a well-formed tree whose
/// eligible files lie in the directories that show them.
pub proof fn lemma_fetch_taken_back(
    host: Host,
    root: Seq<char>,
    render: Renderer,
    forward: bool,
    back: bool,
    dir: Seq<char>,
    base: CursorView,
    moves: int,
    end: CursorView,
)
    requires
        well_formed(host, root),
        files_lie_within(host, base.filter),
        rests_in(host, base, dir),
        renders_all(render),
        fetch_arrives(host, render, forward, shown(base.move_by(moves)), end),
    ensures
        fetch_arrives(host, render, back, shown(end.move_by(-moves)), base),
{
    let begun = base.move_by(moves);
    let at = shown(begun);
    let fuel = choose|fuel: nat|
        (#[trigger] fetch_to_end(host, render, forward, at.0, at.1, fuel)).0 == end
            && fetch_to_end(host, render, forward, at.0, at.1, fuel).1 is Done && fetch_to_end(
            host,
            render,
            forward,
            at.0,
            at.1,
            fuel,
        ).1->Done_0 is Ok;
    lemma_fetch_is_move(host, render, forward, begun.0, begun.1, fuel);
    lemma_move_taken_back(host, root, dir, base, moves, end);
    let again = end.move_by(-moves);
    lemma_move_is_fetch(host, render, back, again.0, again.1, base);
}

} // verus!
