//! Operations of the cursor over a tree at rest: how a move is taken back,
//! and where a jump or a listing made again comes to.
//!
//! On a host that answers every request from one tree, an operation of the
//! cursor can be followed from its first step to its end. A move that ends
//! well is undone by the move of the same size in the other direction. A
//! jump, and a listing made again that finds no file, go from directory to
//! directory until one has an eligible file.

use vstd::prelude::*;
use crate::filter::FilterView;
use crate::model::{
    lemma_walk_split, lemma_walk_undone, readable, start, walk_finds, walk_finds_none,
    walk_to_end, well_formed, Host,
};
use crate::path::{next_start, prev_start, subdirectories, WalkStepView};
use crate::state::{
    effective, eligible, entry_position, CursorView, NavErrorView, StageView, StepView,
};
use crate::text::parent_spec;

verus! {

/// The eligible files that the host finds in `dir`, in path order; none where
/// it cannot read `dir`.
pub open spec fn files_in(host: Host, filter: FilterView, dir: Seq<char>) -> Seq<Seq<char>> {
    eligible(host(dir), filter)
}

/// Whether every eligible file lies directly in the directory that shows it.
pub open spec fn files_lie_within(host: Host, filter: FilterView) -> bool {
    forall|dir: Seq<char>, i: int|
        0 <= i < files_in(host, filter, dir).len() ==> parent_spec(
            #[trigger] files_in(host, filter, dir)[i],
        ) == Some(dir)
}

/// Where an operation of the cursor stands after at most `fuel` steps, each
/// answered by the host.
pub open spec fn run_to_end(host: Host, state: CursorView, step: StepView, fuel: nat) -> (
    CursorView,
    StepView,
)
    decreases fuel,
{
    match step {
        StepView::Read(dir) if fuel > 0 => {
            let next = state.resume(host(dir));
            run_to_end(host, next.0, next.1, (fuel - 1) as nat)
        },
        _ => (state, step),
    }
}

/// Whether the operation that stands at `start` ends well, with the cursor as `end`.
pub open spec fn arrives(host: Host, start: (CursorView, StepView), end: CursorView) -> bool {
    exists|fuel: nat| #[trigger]
        run_to_end(host, start.0, start.1, fuel) == (end, StepView::Done(Ok(())))
}

/// Whether the cursor is at rest on a file of `dir`: no operation is
/// unfinished, and its listing is what the host finds in `dir`.
pub open spec fn rests_in(host: Host, state: CursorView, dir: Seq<char>) -> bool {
    &&& state.task is None
    &&& state.loaded()
    &&& readable(host, dir)
    &&& state.paths == files_in(host, state.filter, dir)
}

/// How the cursor goes on from `dir` once it has passed its files.
pub open spec fn onward(host: Host, forward: bool, dir: Seq<char>) -> WalkStepView {
    if forward {
        next_start(dir)->Ask_0.advance(subdirectories(host(dir)))
    } else {
        prev_start(dir)
    }
}

/// The offset of a move over `count` files.
pub open spec fn offset_of(forward: bool, count: nat) -> int {
    if forward {
        count as int
    } else {
        -(count as int)
    }
}

/// Whether a move, forward or backward as `back` says, that leaves `dir` with
/// `left` files to pass ends well at `base`, whatever the cursor held before.
pub open spec fn returns_from(
    host: Host,
    base: CursorView,
    back: bool,
    dir: Seq<char>,
    left: nat,
) -> bool {
    forall|held: CursorView|
        held.filter == base.filter ==> #[trigger] arrives(
            host,
            held.follow(start(back, dir), back, left, None),
            base,
        )
}

/// Whether a move, forward or backward as `back` says, that comes to `dir`
/// with `left` files to pass ends well at `base`, whatever the cursor held
/// before.
pub open spec fn returns_through(
    host: Host,
    base: CursorView,
    back: bool,
    dir: Seq<char>,
    left: nat,
) -> bool {
    forall|held: CursorView|
        held.filter == base.filter ==> #[trigger] arrives(
            host,
            held.follow(WalkStepView::Found(dir), back, left, None),
            base,
        )
}

/// An operation that ends well after one more step ends well.
proof fn lemma_arrives_after(host: Host, state: CursorView, dir: Seq<char>, end: CursorView)
    requires
        arrives(host, state.resume(host(dir)), end),
    ensures
        arrives(host, (state, StepView::Read(dir)), end),
{
    let next = state.resume(host(dir));
    let fuel = choose|fuel: nat| #[trigger]
        run_to_end(host, next.0, next.1, fuel) == (end, StepView::Done(Ok(())));
    let start = (state, StepView::Read(dir));
    assert(run_to_end(host, start.0, start.1, fuel + 1) == (end, StepView::Done(Ok(()))));
}

/// The cursor follows a walk step by step: where the walk ends at a
/// directory, and the operation ends well from there, it ends well from any
/// earlier step of the walk.
proof fn lemma_walk_then(
    host: Host,
    held: CursorView,
    walk: WalkStepView,
    forward: bool,
    left: nat,
    dir: Seq<char>,
    end: CursorView,
    fuel: nat,
)
    requires
        walk_to_end(host, walk, fuel) == WalkStepView::Found(dir),
        arrives(host, held.follow(WalkStepView::Found(dir), forward, left, None), end),
    ensures
        arrives(host, held.follow(walk, forward, left, None), end),
    decreases fuel,
{
    match walk {
        WalkStepView::Ask(w) => {
            let next = w.advance(subdirectories(host(w.asked)));
            lemma_walk_then(host, held, next, forward, left, dir, end, (fuel - 1) as nat);
            let asking = held.follow(walk, forward, left, None).0;
            assert(asking.resume(host(w.asked)) == held.follow(
                next,
                forward,
                left,
                None,
            ));
            lemma_arrives_after(host, asking, w.asked, end);
        },
        _ => {},
    }
}

/// A move back that comes through a directory leaves the directory that the
/// walk back from is found to end at.
proof fn lemma_returns_from(
    host: Host,
    base: CursorView,
    back: bool,
    dir: Seq<char>,
    before: Seq<char>,
    left: nat,
)
    requires
        returns_through(host, base, back, before, left),
        walk_finds(host, start(back, dir), before),
    ensures
        returns_from(host, base, back, dir, left),
{
    let fuel = choose|fuel: nat| #[trigger]
        walk_to_end(host, start(back, dir), fuel) == WalkStepView::Found(before);
    assert forall|held: CursorView| held.filter == base.filter implies #[trigger] arrives(
        host,
        held.follow(start(back, dir), back, left, None),
        base,
    ) by {
        assert(arrives(
            host,
            held.follow(WalkStepView::Found(before), back, left, None),
            base,
        ));
        lemma_walk_then(host, held, start(back, dir), back, left, before, base, fuel);
    }
}

/// A move back that can leave a directory can come through it, with its
/// files to pass besides.
proof fn lemma_returns_through(
    host: Host,
    base: CursorView,
    back: bool,
    dir: Seq<char>,
    left: nat,
)
    requires
        readable(host, dir),
        returns_from(host, base, back, dir, left),
    ensures
        returns_through(host, base, back, dir, left + files_in(host, base.filter, dir).len()),
{
    let count = files_in(host, base.filter, dir).len();
    assert forall|held: CursorView| held.filter == base.filter implies #[trigger] arrives(
        host,
        held.follow(WalkStepView::Found(dir), back, left + count, None),
        base,
    ) by {
        let loading = held.follow(WalkStepView::Found(dir), back, left + count, None).0;
        let leaving = held.follow(start(back, dir), back, left, None);
        assert(arrives(host, leaving, base));
        assert(loading.resume(host(dir)) == held.follow(
            onward(host, back, dir),
            back,
            left,
            None,
        ));
        if back {
            // The walk forward first asks for the directory itself.
            let fuel = choose|fuel: nat| #[trigger]
                run_to_end(host, leaving.0, leaving.1, fuel) == (base, StepView::Done(Ok(())));
            assert(leaving.0.resume(host(dir)) == held.follow(
                onward(host, true, dir),
                true,
                left,
                None,
            ));
            assert(run_to_end(
                host,
                held.follow(onward(host, true, dir), true, left, None).0,
                held.follow(onward(host, true, dir), true, left, None).1,
                (fuel - 1) as nat,
            ) == (base, StepView::Done(Ok(()))));
        }
        lemma_arrives_after(host, loading, dir, base);
    }
}

/// A move back that comes to the directory where the cursor rested enters
/// its listing at the file it rested on.
proof fn lemma_returns_home(host: Host, base: CursorView, back: bool, dir: Seq<char>)
    requires
        rests_in(host, base, dir),
    ensures
        returns_through(
            host,
            base,
            back,
            dir,
            if back {
                base.cursor
            } else {
                (base.paths.len() - 1 - base.cursor) as nat
            },
        ),
{
    let left = if back {
        base.cursor
    } else {
        (base.paths.len() - 1 - base.cursor) as nat
    };
    assert forall|held: CursorView| held.filter == base.filter implies #[trigger] arrives(
        host,
        held.follow(WalkStepView::Found(dir), back, left, None),
        base,
    ) by {
        let loading = held.follow(WalkStepView::Found(dir), back, left, None).0;
        let landed = loading.resume(host(dir));
        assert(landed == (base, StepView::Done(Ok(()))));
        assert(run_to_end(host, landed.0, landed.1, 0) == (base, StepView::Done(Ok(()))));
        lemma_arrives_after(host, loading, dir, base);
    }
}

/// A move of `count` files that comes to `dir` with `left` of them to pass,
/// and ends well, is taken back by the move of `count` files the other way,
/// if that move ends well at `base` once it has left `dir`.
proof fn lemma_taken_back_through(
    host: Host,
    root: Seq<char>,
    base: CursorView,
    forward: bool,
    count: nat,
    dir: Seq<char>,
    left: nat,
    held: CursorView,
    fuel: nat,
    end: CursorView,
)
    requires
        well_formed(host, root),
        files_lie_within(host, base.filter),
        held.filter == base.filter,
        left < count,
        readable(host, dir),
        returns_from(host, base, !forward, dir, (count - 1 - left) as nat),
        run_to_end(
            host,
            held.follow(WalkStepView::Found(dir), forward, left, None).0,
            held.follow(WalkStepView::Found(dir), forward, left, None).1,
            fuel,
        ) == (end, StepView::Done(Ok(()))),
    ensures
        arrives(host, end.move_by(offset_of(!forward, count)), base),
    decreases fuel, 0nat,
{
    let loading = held.follow(WalkStepView::Found(dir), forward, left, None).0;
    let files = files_in(host, base.filter, dir);
    let after = loading.resume(host(dir));
    assert(run_to_end(host, after.0, after.1, (fuel - 1) as nat) == (end, StepView::Done(Ok(()))));
    if left < files.len() {
        let at = if forward {
            left as int
        } else {
            files.len() - 1 - left
        };
        assert(end.paths == files);
        assert(end.cursor == at);
        assert(end.current() == Some(files[at]));
        assert(end.move_by(offset_of(!forward, count)) == end.follow(
            start(!forward, dir),
            !forward,
            (count - 1 - left) as nat,
            None,
        ));
    } else {
        lemma_returns_through(host, base, !forward, dir, (count - 1 - left) as nat);
        assert(after == held.follow(
            onward(host, forward, dir),
            forward,
            (left - files.len()) as nat,
            None,
        ));
        if forward {
            assert(walk_to_end(host, start(forward, dir), 1) == onward(host, forward, dir)) by {
                assert(walk_to_end(host, onward(host, forward, dir), 0) == onward(
                    host,
                    forward,
                    dir,
                ));
            }
        } else {
            assert(walk_to_end(host, start(forward, dir), 0) == onward(host, forward, dir));
        }
        lemma_taken_back_along(
            host,
            root,
            base,
            forward,
            count,
            dir,
            onward(host, forward, dir),
            (left - files.len()) as nat,
            held,
            (fuel - 1) as nat,
            end,
        );
    }
}

/// A move of `count` files that is on its walk from `before` to the next
/// directory, with `left` files to pass, and ends well, is taken back by the
/// move of `count` files the other way, if that move ends well at `base` once
/// it has come to `before`.
proof fn lemma_taken_back_along(
    host: Host,
    root: Seq<char>,
    base: CursorView,
    forward: bool,
    count: nat,
    before: Seq<char>,
    walk: WalkStepView,
    left: nat,
    held: CursorView,
    fuel: nat,
    end: CursorView,
)
    requires
        well_formed(host, root),
        files_lie_within(host, base.filter),
        held.filter == base.filter,
        left < count,
        readable(host, before),
        returns_through(host, base, !forward, before, (count - 1 - left) as nat),
        exists|reached: nat| #[trigger] walk_to_end(host, start(forward, before), reached) == walk,
        run_to_end(
            host,
            held.follow(walk, forward, left, None).0,
            held.follow(walk, forward, left, None).1,
            fuel,
        ) == (end, StepView::Done(Ok(()))),
    ensures
        arrives(host, end.move_by(offset_of(!forward, count)), base),
    decreases fuel, 1nat,
{
    let reached = choose|reached: nat| #[trigger]
        walk_to_end(host, start(forward, before), reached) == walk;
    match walk {
        WalkStepView::Ask(w) => {
            let next = w.advance(subdirectories(host(w.asked)));
            let asking = held.follow(walk, forward, left, None).0;
            assert(asking.resume(host(w.asked)) == held.follow(
                next,
                forward,
                left,
                None,
            ));
            lemma_walk_split(host, start(forward, before), reached, 1);
            assert(walk_to_end(host, walk, 1) == next) by {
                assert(walk_to_end(host, next, 0) == next);
            }
            assert(walk_to_end(host, start(forward, before), reached + 1) == next);
            lemma_taken_back_along(
                host,
                root,
                base,
                forward,
                count,
                before,
                next,
                left,
                held,
                (fuel - 1) as nat,
                end,
            );
        },
        WalkStepView::Found(dir) => {
            assert(walk_finds(host, start(forward, before), dir));
            lemma_walk_undone(host, root, forward, before, dir);
            lemma_returns_from(host, base, !forward, dir, before, (count - 1 - left) as nat);
            lemma_taken_back_through(
                host,
                root,
                base,
                forward,
                count,
                dir,
                left,
                held,
                fuel,
                end,
            );
        },
        WalkStepView::Exhausted => {
            assert(run_to_end(
                host,
                held.follow(walk, forward, left, None).0,
                held.follow(walk, forward, left, None).1,
                fuel,
            ).1 == StepView::Done(Err(NavErrorView::OutOfRange)));
        },
    }
}

/// On a tree at rest a move that ends well is taken back by the move of the
/// same size in the other direction: the cursor is then again as it was.
///
/// This holds of a cursor at rest in a directory of a well-formed tree whose
/// eligible files lie in the directories that show them.
pub proof fn lemma_move_taken_back(
    host: Host,
    root: Seq<char>,
    dir: Seq<char>,
    base: CursorView,
    offset: int,
    end: CursorView,
)
    requires
        well_formed(host, root),
        files_lie_within(host, base.filter),
        rests_in(host, base, dir),
        arrives(host, base.move_by(offset), end),
    ensures
        arrives(host, end.move_by(-offset), base),
{
    let fuel = choose|fuel: nat| #[trigger]
        run_to_end(host, base.move_by(offset).0, base.move_by(offset).1, fuel) == (
            end,
            StepView::Done(Ok(())),
        );
    let forward = offset > 0;
    if 0 <= base.cursor + offset < base.paths.len() {
        assert(end == CursorView { cursor: (base.cursor + offset) as nat, ..base });
        let back = end.move_by(-offset);
        assert(back == (base, StepView::Done(Ok(()))));
        assert(run_to_end(host, back.0, back.1, 0) == (base, StepView::Done(Ok(()))));
    } else {
        let count = if forward {
            offset as nat
        } else {
            (-offset) as nat
        };
        let left = if forward {
            (base.cursor + offset - base.paths.len()) as nat
        } else {
            (-offset - base.cursor - 1) as nat
        };
        assert(base.current() == Some(base.paths[base.cursor as int]));
        assert(parent_spec(base.paths[base.cursor as int]) == Some(dir));
        assert(base.move_by(offset) == base.follow(
            start(forward, dir),
            forward,
            left,
            None,
        ));
        lemma_returns_home(host, base, !forward, dir);
        assert(walk_to_end(host, start(forward, dir), 0) == start(forward, dir));
        assert(offset_of(!forward, count) == -offset);
        lemma_taken_back_along(
            host,
            root,
            base,
            forward,
            count,
            dir,
            start(forward, dir),
            left,
            base,
            fuel,
            end,
        );
    }
}

/// A move over no file leaves the cursor on its file, and is done at once
/// where the cursor stands on one.
pub proof fn lemma_move_by_nothing(state: CursorView)
    ensures
        state.move_by(0).0.current() == state.current(),
        state.loaded() ==> state.move_by(0) == (state.settled(), StepView::Done(Ok(()))),
{
}

/// Whether `chain` leads from its first directory to its last, forward or
/// backward: the walk from each of its directories ends at the next, and
/// each but the last has no eligible file. Where `unseen` holds, nothing is
/// said of the files of the first.
pub open spec fn leads(
    host: Host,
    filter: FilterView,
    forward: bool,
    unseen: bool,
    chain: Seq<Seq<char>>,
) -> bool {
    &&& chain.len() > 0
    &&& forall|j: int|
        0 <= j < chain.len() - 1 ==> walk_finds(
            host,
            start(forward, #[trigger] chain[j]),
            chain[j + 1],
        ) && ((j > 0 || !unseen) ==> files_in(host, filter, chain[j]).len() == 0)
}

/// Whether the last directory of `chain` has been found without an eligible
/// file. Where `unseen` holds, nothing is said of a chain of one directory.
pub open spec fn passed(host: Host, filter: FilterView, unseen: bool, chain: Seq<Seq<char>>) -> bool {
    (chain.len() > 1 || !unseen) ==> files_in(host, filter, chain.last()).len() == 0
}

/// Whether an operation that looks for the nearest directory with an
/// eligible file stands well at `at`, having come along `chain` from the
/// directory of the file that the cursor `base` stands on.
///
/// There are two such operations. A jump, forward or backward, leaves that
/// directory without a look at its files (`unseen`). A listing made again,
/// by `candidate` if there is one, looks at that directory first and then
/// goes backward.
///
/// While the operation is unfinished, and where it failed, the cursor is as
/// it was. It fails because the directory to list again cannot be read, or
/// because the walk from the last directory of `chain` finds no directory,
/// all directories on the way being without an eligible file: a directory
/// that cannot be read has none. Where it ended
/// well, the cursor has the filter of the operation and the files of the
/// last directory of `chain`, of which there is one at least. It stands on
/// the first of them after a way forward and on the last after a way
/// backward, or, where that directory is still the one it started in, at the
/// place of the file it stood on.
pub open spec fn passage_stands(
    host: Host,
    base: CursorView,
    candidate: Option<FilterView>,
    forward: bool,
    unseen: bool,
    chain: Seq<Seq<char>>,
    at: (CursorView, StepView),
) -> bool {
    let filter = effective(candidate, base.filter);
    &&& leads(host, filter, forward, unseen, chain)
    &&& base.current() is Some
    &&& parent_spec(base.current().unwrap()) == Some(chain[0])
    &&& match at.1 {
        StepView::Read(dir) => at.0.settled() == base.settled() && match at.0.task {
            Some(task) => task.candidate == candidate && task.forward == forward && task.remaining
                == 0 && match task.stage {
                StageView::Reload { dir: due, anchor } => !unseen && !forward && dir == due
                    && chain.len() == 1 && due == chain[0] && Some(anchor) == base.current(),
                StageView::Walk(walk) => dir == walk.asked && passed(host, filter, unseen, chain)
                    && exists|reached: nat| #[trigger]
                    walk_to_end(host, start(forward, chain.last()), reached) == WalkStepView::Ask(
                        walk,
                    ),
                StageView::Load { dir: due } => dir == due && passed(host, filter, unseen, chain)
                    && walk_finds(host, start(forward, chain.last()), due),
            },
            None => false,
        },
        StepView::Done(Err(error)) => at.0 == base.settled() && match error {
            NavErrorView::OutOfRange => passed(host, filter, unseen, chain) && walk_finds_none(
                host,
                start(forward, chain.last()),
            ),
            NavErrorView::Access { path, message } => !unseen && chain.len() == 1 && path
                == chain[0] && !readable(host, path),
            _ => false,
        },
        StepView::Done(Ok(())) => {
            &&& at.0.task is None
            &&& at.0.filter == filter
            &&& at.0.paths.len() > 0
            &&& at.0.paths == files_in(host, filter, chain.last())
            &&& unseen ==> chain.len() > 1
            &&& at.0.cursor == if chain.len() == 1 {
                entry_position(at.0.paths, base.current().unwrap())
            } else if forward {
                0
            } else {
                (at.0.paths.len() - 1) as nat
            }
        },
    }
}

/// A chain that leads on grows by the directory where the walk from its last
/// directory ends, if that directory has been passed.
proof fn lemma_leads_on(
    host: Host,
    filter: FilterView,
    forward: bool,
    unseen: bool,
    chain: Seq<Seq<char>>,
    dir: Seq<char>,
)
    requires
        leads(host, filter, forward, unseen, chain),
        passed(host, filter, unseen, chain),
        walk_finds(host, start(forward, chain.last()), dir),
    ensures
        leads(host, filter, forward, unseen, chain.push(dir)),
{
    let longer = chain.push(dir);
    assert forall|j: int| 0 <= j < longer.len() - 1 implies walk_finds(
        host,
        start(forward, #[trigger] longer[j]),
        longer[j + 1],
    ) && ((j > 0 || !unseen) ==> files_in(host, filter, longer[j]).len() == 0) by {
        if j < chain.len() - 1 {
            assert(longer[j] == chain[j]);
            assert(longer[j + 1] == chain[j + 1]);
        }
    }
}

/// One more step of an operation that looks for the nearest directory with
/// an eligible file.
proof fn lemma_passage_step(
    host: Host,
    base: CursorView,
    candidate: Option<FilterView>,
    forward: bool,
    unseen: bool,
    chain: Seq<Seq<char>>,
    state: CursorView,
    dir: Seq<char>,
) -> (longer: Seq<Seq<char>>)
    requires
        passage_stands(host, base, candidate, forward, unseen, chain, (state, StepView::Read(dir))),
    ensures
        passage_stands(host, base, candidate, forward, unseen, longer, state.resume(host(dir))),
        longer[0] == chain[0],
{
    let filter = effective(candidate, base.filter);
    let task = state.task.unwrap();
    let after = state.resume(host(dir));
    match task.stage {
        StageView::Reload { dir: due, anchor } => {
            assert(walk_to_end(host, prev_start(due), 0) == prev_start(due));
            chain
        },
        StageView::Walk(walk) => {
            let from = start(forward, chain.last());
            let reached = choose|reached: nat| #[trigger]
                walk_to_end(host, from, reached) == WalkStepView::Ask(walk);
            let next = walk.advance(subdirectories(host(walk.asked)));
            lemma_walk_split(host, from, reached, 1);
            assert(walk_to_end(host, WalkStepView::Ask(walk), 1) == next) by {
                assert(walk_to_end(host, next, 0) == next);
            }
            assert(walk_to_end(host, from, reached + 1) == next);
            chain
        },
        StageView::Load { dir: due } => {
            let longer = chain.push(due);
            lemma_leads_on(host, filter, forward, unseen, chain, due);
            assert(longer[0] == chain[0]);
            assert(longer.last() == due);
            let on = onward(host, forward, due);
            if forward {
                assert(walk_to_end(host, start(forward, due), 1) == on) by {
                    assert(walk_to_end(host, on, 0) == on);
                }
            } else {
                assert(walk_to_end(host, start(forward, due), 0) == on);
            }
            longer
        },
    }
}

/// An operation that looks for the nearest directory with an eligible file
/// stands well after any number of steps.
proof fn lemma_passage_run(
    host: Host,
    base: CursorView,
    candidate: Option<FilterView>,
    forward: bool,
    unseen: bool,
    chain: Seq<Seq<char>>,
    state: CursorView,
    step: StepView,
    fuel: nat,
) -> (longer: Seq<Seq<char>>)
    requires
        passage_stands(host, base, candidate, forward, unseen, chain, (state, step)),
    ensures
        passage_stands(
            host,
            base,
            candidate,
            forward,
            unseen,
            longer,
            run_to_end(host, state, step, fuel),
        ),
        longer[0] == chain[0],
    decreases fuel,
{
    match step {
        StepView::Read(dir) => {
            if fuel > 0 {
                let next = lemma_passage_step(
                    host,
                    base,
                    candidate,
                    forward,
                    unseen,
                    chain,
                    state,
                    dir,
                );
                let after = state.resume(host(dir));
                lemma_passage_run(
                    host,
                    base,
                    candidate,
                    forward,
                    unseen,
                    next,
                    after.0,
                    after.1,
                    (fuel - 1) as nat,
                )
            } else {
                chain
            }
        },
        _ => chain,
    }
}

/// A listing made again never leaves a cursor that stood on a file without
/// one, whether it is made by the filter that the cursor has or by another
/// that takes its place. Where the directory of that file has no eligible
/// file now, the cursor goes backward to the nearest directory that has one:
/// when the operation has ended well it stands on the last file of a
/// directory that the walk backward comes to over directories without an
/// eligible file alone. Until then, and where the operation fails, the
/// cursor stays as it was, with the filter it had.
///
/// The lemma gives the directories that the operation has come along after
/// `fuel` steps, the directory `home` of the file under the cursor first.
pub proof fn lemma_listing_again(
    host: Host,
    base: CursorView,
    home: Seq<char>,
    candidate: Option<FilterView>,
    fuel: nat,
) -> (chain: Seq<Seq<char>>)
    requires
        base.loaded(),
        parent_spec(base.current().unwrap()) == Some(home),
    ensures
        chain.len() > 0,
        chain[0] == home,
        passage_stands(
            host,
            base,
            candidate,
            false,
            false,
            chain,
            run_to_end(host, base.reload(candidate).0, base.reload(candidate).1, fuel),
        ),
{
    let begun = base.reload(candidate);
    let chain = seq![home];
    assert(passage_stands(host, base, candidate, false, false, chain, begun));
    lemma_passage_run(host, base, candidate, false, false, chain, begun.0, begun.1, fuel)
}

/// A jump goes to the nearest directory, forward or backward, that has an
/// eligible file. When it has ended well the cursor holds the files of a
/// directory that the walk comes to over directories without an eligible
/// file alone, and stands on the first of them after a jump forward, on the
/// last after a jump backward. Where it fails, the walk has found no
/// directory, no directory on the way has an eligible file, and the cursor
/// stays as it was. A directory that cannot be read counts as one without an
/// eligible file. A move by one file over the end of the listing is such a
/// jump.
///
/// The lemma gives the directories that the jump has come along after `fuel`
/// steps, the directory `home` of the file under the cursor first.
pub proof fn lemma_jump(
    host: Host,
    base: CursorView,
    home: Seq<char>,
    forward: bool,
    fuel: nat,
) -> (chain: Seq<Seq<char>>)
    requires
        base.loaded(),
        parent_spec(base.current().unwrap()) == Some(home),
    ensures
        chain.len() > 0,
        chain[0] == home,
        passage_stands(
            host,
            base,
            None,
            forward,
            true,
            chain,
            run_to_end(host, base.leave(forward, 0).0, base.leave(forward, 0).1, fuel),
        ),
        base.cursor + 1 == base.paths.len() ==> base.move_by(1) == base.leave(true, 0),
        base.cursor == 0 ==> base.move_by(-1) == base.leave(false, 0),
{
    let begun = base.leave(forward, 0);
    let chain = seq![home];
    assert(walk_to_end(host, start(forward, home), 0) == start(forward, home));
    assert(passage_stands(host, base, None, forward, true, chain, begun));
    lemma_passage_run(host, base, None, forward, true, chain, begun.0, begun.1, fuel)
}

/// Where an operation ends does not depend on the listing and the position
/// that the cursor holds meanwhile: two cursors with the same filter and the
/// same unfinished operation come to the same end, and are the same where
/// the operation ends well.
proof fn lemma_held_apart(host: Host, one: CursorView, other: CursorView, step: StepView, fuel: nat)
    requires
        one.filter == other.filter,
        one.task == other.task,
        step is Read ==> one.task is Some,
    ensures
        run_to_end(host, one, step, fuel).1 == run_to_end(host, other, step, fuel).1,
        step is Read && run_to_end(host, one, step, fuel).1 == StepView::Done(Ok(()))
            ==> run_to_end(host, one, step, fuel).0 == run_to_end(host, other, step, fuel).0,
    decreases fuel,
{
    match step {
        StepView::Read(dir) => {
            if fuel > 0 {
                let first = one.resume(host(dir));
                let second = other.resume(host(dir));
                assert(first.1 == second.1);
                if first.1 == StepView::Done(Ok(())) {
                    assert(first.0 == second.0);
                }
                lemma_held_apart(host, first.0, second.0, first.1, (fuel - 1) as nat);
            }
        },
        _ => {},
    }
}

/// On a tree at rest a jump that ends well is taken back by the jump the
/// other way: the cursor is then again in the directory it started from, on
/// its last file after a jump forward and back, on its first after a jump
/// backward and forward. So a jump forward and back never lands behind the
/// directory it started from, nor before it.
///
/// This holds of a cursor at rest in a directory of a well-formed tree whose
/// eligible files lie in the directories that show them.
pub proof fn lemma_jump_taken_back(
    host: Host,
    root: Seq<char>,
    dir: Seq<char>,
    base: CursorView,
    forward: bool,
    end: CursorView,
)
    requires
        well_formed(host, root),
        files_lie_within(host, base.filter),
        rests_in(host, base, dir),
        arrives(host, base.leave(forward, 0), end),
    ensures
        arrives(
            host,
            end.leave(!forward, 0),
            CursorView {
                cursor: if forward {
                    (base.paths.len() - 1) as nat
                } else {
                    0
                },
                ..base
            },
        ),
{
    let edge = CursorView {
        cursor: if forward {
            (base.paths.len() - 1) as nat
        } else {
            0
        },
        ..base
    };
    let offset: int = if forward {
        1
    } else {
        -1
    };
    let begun = base.leave(forward, 0);
    let fuel = choose|fuel: nat| #[trigger]
        run_to_end(host, begun.0, begun.1, fuel) == (end, StepView::Done(Ok(())));
    assert(parent_spec(base.paths[base.cursor as int]) == Some(dir));
    assert(parent_spec(edge.paths[edge.cursor as int]) == Some(dir));
    let again = edge.move_by(offset);
    assert(again == edge.leave(forward, 0));
    assert(again.1 == begun.1);
    lemma_held_apart(host, begun.0, again.0, begun.1, fuel);
    assert(run_to_end(host, again.0, again.1, fuel) == (end, StepView::Done(Ok(()))));
    lemma_move_taken_back(host, root, dir, edge, offset, end);
    let chain = lemma_jump(host, base, dir, forward, fuel);
    assert(end.move_by(-offset) == end.leave(!forward, 0));
}

/// Whether an operation looks for a directory with an eligible file: it
/// walks, or waits for the directory where a walk ended; or it is over, and
/// where it failed it found no directory further on.
pub open spec fn searching(at: (CursorView, StepView)) -> bool {
    match at.1 {
        StepView::Read(_) => at.0.task matches Some(task) && !(task.stage is Reload),
        StepView::Done(Err(error)) => error == NavErrorView::OutOfRange,
        StepView::Done(Ok(())) => true,
    }
}

/// A directory that cannot be read ends no search, whatever the host reads:
/// a move or a jump from a file that lies in a directory fails in one way
/// only, that no eligible file lies as far away.
pub proof fn lemma_fails_at_the_end_only(host: Host, state: CursorView, step: StepView, fuel: nat)
    requires
        searching((state, step)),
    ensures
        searching(run_to_end(host, state, step, fuel)),
        forall|offset: int|
            state.loaded() && parent_spec(state.current().unwrap()) is Some ==> searching(
                #[trigger] state.move_by(offset),
            ),
        forall|forward: bool, left: nat|
            state.loaded() && parent_spec(state.current().unwrap()) is Some ==> searching(
                #[trigger] state.leave(forward, left),
            ),
    decreases fuel,
{
    match step {
        StepView::Read(dir) => {
            if fuel > 0 {
                let after = state.resume(host(dir));
                lemma_fails_at_the_end_only(host, after.0, after.1, (fuel - 1) as nat);
            }
        },
        _ => {},
    }
}

/// No operation leaves a cursor that stood on a file without one.
pub proof fn lemma_stays_loaded(host: Host, state: CursorView, step: StepView, fuel: nat)
    requires
        state.loaded(),
    ensures
        run_to_end(host, state, step, fuel).0.loaded(),
        forall|offset: int| (#[trigger] state.move_by(offset)).0.loaded(),
        forall|forward: bool| (#[trigger] state.leave(forward, 0)).0.loaded(),
        forall|candidate: Option<FilterView>| (#[trigger] state.reload(candidate)).0.loaded(),
    decreases fuel,
{
    match step {
        StepView::Read(dir) => {
            if fuel > 0 {
                let after = state.resume(host(dir));
                lemma_stays_loaded(host, after.0, after.1, (fuel - 1) as nat);
            }
        },
        _ => {},
    }
}

} // verus!
