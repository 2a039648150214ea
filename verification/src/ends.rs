//! Every operation of the cursor ends on a tree at rest that has finitely
//! many directories.
//!
//! A walk forward climbs, and has ended when it has no directory left to
//! climb to. A walk backward goes down, and a tree of finitely many
//! directories has a deepest one. And the directories that an operation
//! comes to follow one another as a search of the tree in depth finds them:
//! each comes after the one before, so none comes twice.

use vstd::prelude::*;
use crate::filter::FilterView;
use crate::journey::{files_in, lemma_jump, leads, passage_stands, rests_in, run_to_end};
use crate::model::{
    descent, lemma_climb_ends, lemma_next_undoes_prev, lemma_walk_more_fuel, lemma_walk_stays,
    lists, readable, start, subdirs, walk_finds, walk_to_end, well_formed, Host,
};
use crate::order::{
    comes_after, lemma_after_carries, lemma_found_readable, lemma_next_steps_on,
    lemma_not_after_itself, lemma_step_comes_after, steps_on,
};
use crate::path::{climb, prev_start, subdirectories, WalkStepView, WalkView};
use crate::state::{effective, CursorView, NavErrorView, StepView};
use crate::text::{lemma_parent_shorter, parent_spec};

verus! {

/// Whether `all` holds every directory that the host can read.
pub open spec fn holds_all(host: Host, all: Seq<Seq<char>>) -> bool {
    forall|dir: Seq<char>| #[trigger] readable(host, dir) ==> all.contains(dir)
}

/// The number of paths of `all` that come after `dir`.
pub open spec fn count_after(all: Seq<Seq<char>>, dir: Seq<char>) -> nat
    decreases all.len(),
{
    if all.len() == 0 {
        0
    } else if comes_after(dir, all.last()) {
        count_after(all.drop_last(), dir) + 1
    } else {
        count_after(all.drop_last(), dir)
    }
}

/// How far an operation that leaves `dir` can still go among the directories
/// of `all`.
pub open spec fn still_ahead(host: Host, all: Seq<Seq<char>>, forward: bool, dir: Seq<char>) -> nat {
    if !readable(host, dir) {
        all.len() + 1
    } else if forward {
        count_after(all, dir)
    } else {
        (all.len() - count_after(all, dir)) as nat
    }
}

/// The length of the longest path of `all`.
pub open spec fn longest(all: Seq<Seq<char>>) -> nat
    decreases all.len(),
{
    if all.len() == 0 {
        0
    } else if all.last().len() > longest(all.drop_last()) {
        all.last().len()
    } else {
        longest(all.drop_last())
    }
}

/// Whether the operation that stands at `at` comes to an end.
pub open spec fn ends(host: Host, at: (CursorView, StepView)) -> bool {
    exists|fuel: nat| (#[trigger] run_to_end(host, at.0, at.1, fuel)).1 is Done
}

/// No path is longer than the longest.
proof fn lemma_longest(all: Seq<Seq<char>>, path: Seq<char>)
    requires
        all.contains(path),
    ensures
        path.len() <= longest(all),
    decreases all.len(),
{
    if all.last() != path {
        let at = choose|at: int| 0 <= at < all.len() && all[at] == path;
        assert(all.drop_last()[at] == path);
        lemma_longest(all.drop_last(), path);
    }
}

/// No more paths come after a directory than there are.
proof fn lemma_count_bounded(all: Seq<Seq<char>>, dir: Seq<char>)
    ensures
        count_after(all, dir) <= all.len(),
    decreases all.len(),
{
    if all.len() > 0 {
        lemma_count_bounded(all.drop_last(), dir);
    }
}

/// Fewer paths come after the next step than after this one, if the next
/// step is among them.
proof fn lemma_count_less(all: Seq<Seq<char>>, dir: Seq<char>, next: Seq<char>)
    requires
        steps_on(dir, next),
    ensures
        count_after(all, next) <= count_after(all, dir) <= all.len(),
        all.contains(next) ==> count_after(all, next) < count_after(all, dir),
    decreases all.len(),
{
    if all.len() > 0 {
        let last = all.last();
        lemma_count_less(all.drop_last(), dir, next);
        lemma_not_after_itself(next);
        lemma_step_comes_after(dir, next);
        if comes_after(next, last) {
            lemma_after_carries(dir, next, last);
        }
        if all.contains(next) && last != next {
            let at = choose|at: int| 0 <= at < all.len() && all[at] == next;
            assert(all.drop_last()[at] == next);
        }
    }
}

/// An operation that has come from `dir` to the directory where the walk
/// ended cannot go as far from there as it could from `dir`.
proof fn lemma_less_ahead(
    host: Host,
    root: Seq<char>,
    all: Seq<Seq<char>>,
    forward: bool,
    dir: Seq<char>,
    next: Seq<char>,
)
    requires
        well_formed(host, root),
        holds_all(host, all),
        walk_finds(host, start(forward, dir), next),
    ensures
        readable(host, next),
        still_ahead(host, all, forward, next) < still_ahead(host, all, forward, dir),
{
    lemma_found_readable(host, root, forward, dir, next);
    lemma_count_bounded(all, next);
    if readable(host, dir) {
        if forward {
            lemma_next_steps_on(host, root, dir, next);
            lemma_count_less(all, dir, next);
        } else {
            lemma_next_undoes_prev(host, root, dir, next);
            lemma_next_steps_on(host, root, next, dir);
            lemma_count_less(all, next, dir);
        }
    }
}

/// A walk forward has ended after one step for every character of the
/// directory it started from and of the directory it asks for, and two more.
proof fn lemma_forward_ends(host: Host, walk: WalkView)
    requires
        walk.forward,
    ensures
        !(walk_to_end(host, WalkStepView::Ask(walk), walk.from.len() + walk.asked.len() + 2) is Ask),
{
    let fuel = walk.from.len() + walk.asked.len() + 2;
    let next = walk.advance(subdirectories(host(walk.asked)));
    assert(walk_to_end(host, WalkStepView::Ask(walk), fuel) == walk_to_end(
        host,
        next,
        (fuel - 1) as nat,
    ));
    if next is Found {
        lemma_walk_stays(host, next, (fuel - 1) as nat);
    } else {
        let from = if walk.opening {
            walk.from
        } else {
            walk.asked
        };
        assert(next == climb(from));
        lemma_climb_ends(host, from);
        lemma_walk_more_fuel(host, next, from.len() + 1, (fuel - 1) as nat);
    }
}

/// In a tree whose directories have paths of `limit` characters at most, the
/// walk down has ended after `limit` steps and one more.
proof fn lemma_descent_ends_within(
    host: Host,
    root: Seq<char>,
    limit: nat,
    from: Seq<char>,
    dir: Seq<char>,
)
    requires
        well_formed(host, root),
        forall|any: Seq<char>| #[trigger] readable(host, any) ==> any.len() <= limit,
    ensures
        !(walk_to_end(host, descent(from, dir), limit + 1) is Ask),
        dir.len() <= limit ==> !(walk_to_end(
            host,
            descent(from, dir),
            (limit - dir.len() + 1) as nat,
        ) is Ask),
    decreases limit - dir.len(),
{
    let walk = WalkView { from, asked: dir, forward: false, opening: false };
    let list = subdirs(host, dir);
    let next = walk.advance(subdirectories(host(dir)));
    if readable(host, dir) && list.len() > 0 {
        let last = list.last();
        assert(subdirectories(host(dir)) == Some(list));
        assert(next == descent(from, last));
        assert(lists(host, dir, last));
        lemma_parent_shorter(last);
        lemma_descent_ends_within(host, root, limit, from, last);
        let less = (limit - last.len() + 1) as nat;
        let fuel = (limit - dir.len() + 1) as nat;
        lemma_walk_more_fuel(host, next, less, (fuel - 1) as nat);
        assert(walk_to_end(host, descent(from, dir), fuel) == walk_to_end(
            host,
            next,
            (fuel - 1) as nat,
        ));
        lemma_walk_more_fuel(host, descent(from, dir), fuel, limit + 1);
    } else {
        assert(next == WalkStepView::Found(dir));
        lemma_walk_stays(host, next, 0);
        assert(walk_to_end(host, descent(from, dir), 1) == next);
        lemma_walk_more_fuel(host, descent(from, dir), 1, limit + 1);
        if dir.len() <= limit {
            lemma_walk_more_fuel(host, descent(from, dir), 1, (limit - dir.len() + 1) as nat);
        }
    }
}

/// Every walk on a tree of finitely many directories ends.
proof fn lemma_walk_ends(host: Host, root: Seq<char>, all: Seq<Seq<char>>, walk: WalkView) -> (fuel:
    nat)
    requires
        well_formed(host, root),
        holds_all(host, all),
    ensures
        !(walk_to_end(host, WalkStepView::Ask(walk), fuel) is Ask),
{
    if walk.forward {
        lemma_forward_ends(host, walk);
        walk.from.len() + walk.asked.len() + 2
    } else {
        let limit = longest(all);
        assert forall|any: Seq<char>| #[trigger] readable(host, any) implies any.len() <= limit by {
            lemma_longest(all, any);
        }
        let next = walk.advance(subdirectories(host(walk.asked)));
        assert(walk_to_end(host, WalkStepView::Ask(walk), limit + 2) == walk_to_end(
            host,
            next,
            limit + 1,
        ));
        match next {
            WalkStepView::Ask(down) => {
                assert(next == descent(walk.from, down.asked));
                lemma_descent_ends_within(host, root, limit, walk.from, down.asked);
            },
            _ => {
                lemma_walk_stays(host, next, limit + 1);
            },
        }
        limit + 2
    }
}

/// The steps of an operation add up.
proof fn lemma_run_split(host: Host, state: CursorView, step: StepView, first: nat, then: nat)
    ensures
        run_to_end(host, state, step, first + then) == run_to_end(
            host,
            run_to_end(host, state, step, first).0,
            run_to_end(host, state, step, first).1,
            then,
        ),
    decreases first,
{
    match step {
        StepView::Read(dir) => {
            if first > 0 {
                let next = state.resume(host(dir));
                lemma_run_split(host, next.0, next.1, (first - 1) as nat, then);
            } else {
                assert(run_to_end(host, state, step, 0) == (state, step));
            }
        },
        StepView::Done(_) => {
            assert(run_to_end(host, state, step, first + then) == (state, step));
            assert(run_to_end(host, state, step, first) == (state, step));
            assert(run_to_end(host, state, step, then) == (state, step));
        },
    }
}

/// An operation that is over has ended.
proof fn lemma_ends_done(host: Host, at: (CursorView, StepView))
    requires
        at.1 is Done,
    ensures
        ends(host, at),
{
    assert(run_to_end(host, at.0, at.1, 0).1 is Done);
}

/// The cursor follows a walk step by step to its end.
proof fn lemma_run_follows(
    host: Host,
    held: CursorView,
    walk: WalkStepView,
    forward: bool,
    left: nat,
    candidate: Option<FilterView>,
    fuel: nat,
) -> (steps: nat)
    requires
        !(walk_to_end(host, walk, fuel) is Ask),
    ensures
        run_to_end(
            host,
            held.follow(walk, forward, left, candidate).0,
            held.follow(walk, forward, left, candidate).1,
            steps,
        ) == held.follow(walk_to_end(host, walk, fuel), forward, left, candidate),
    decreases fuel,
{
    let at = held.follow(walk, forward, left, candidate);
    match walk {
        WalkStepView::Ask(w) => {
            let next = w.advance(subdirectories(host(w.asked)));
            let rest = lemma_run_follows(
                host,
                held,
                next,
                forward,
                left,
                candidate,
                (fuel - 1) as nat,
            );
            let then = held.follow(next, forward, left, candidate);
            assert(at.0.resume(host(w.asked)) == then);
            assert(run_to_end(host, at.0, at.1, rest + 1) == run_to_end(
                host,
                then.0,
                then.1,
                rest,
            ));
            rest + 1
        },
        _ => {
            assert(run_to_end(host, at.0, at.1, 0) == at);
            0
        },
    }
}

/// An operation that leaves a directory ends. Where it ends well, the
/// cursor is at rest in a directory from which an operation cannot go as
/// far as it could from the directory left.
///
/// The lemma gives the number of steps after which the operation is over,
/// and that directory.
pub proof fn lemma_goes_on(
    host: Host,
    root: Seq<char>,
    all: Seq<Seq<char>>,
    held: CursorView,
    forward: bool,
    dir: Seq<char>,
    left: nat,
    candidate: Option<FilterView>,
) -> (to: (nat, Seq<char>))
    requires
        well_formed(host, root),
        holds_all(host, all),
    ensures
        ({
            let at = held.follow(start(forward, dir), forward, left, candidate);
            let end = run_to_end(host, at.0, at.1, to.0);
            &&& end.1 is Done
            &&& end.1->Done_0 is Ok ==> {
                &&& rests_in(host, end.0, to.1)
                &&& end.0.filter == effective(candidate, held.filter)
                &&& still_ahead(host, all, forward, to.1) < still_ahead(host, all, forward, dir)
            }
        }),
    decreases still_ahead(host, all, forward, dir),
{
    let at = held.follow(start(forward, dir), forward, left, candidate);
    match start(forward, dir) {
        WalkStepView::Ask(walk) => {
            let fuel = lemma_walk_ends(host, root, all, walk);
            let end = walk_to_end(host, start(forward, dir), fuel);
            let steps = lemma_run_follows(
                host,
                held,
                start(forward, dir),
                forward,
                left,
                candidate,
                fuel,
            );
            let reached = held.follow(end, forward, left, candidate);
            match end {
                WalkStepView::Found(next) => {
                    lemma_less_ahead(host, root, all, forward, dir, next);
                    let after = reached.0.resume(host(next));
                    if after.1 is Done {
                        lemma_run_split(host, at.0, at.1, steps, 1);
                        assert(run_to_end(host, reached.0, reached.1, 1) == after) by {
                            assert(run_to_end(host, after.0, after.1, 0) == after);
                        }
                        (steps + 1, next)
                    } else {
                        let less = (left - files_in(
                            host,
                            effective(candidate, held.filter),
                            next,
                        ).len()) as nat;
                        let on = lemma_goes_on(
                            host,
                            root,
                            all,
                            held,
                            forward,
                            next,
                            less,
                            candidate,
                        );
                        let again = held.follow(start(forward, next), forward, less, candidate);
                        // The walk forward first asks for the directory
                        // itself, which the host has just read.
                        let more = if forward {
                            (on.0 - 1) as nat
                        } else {
                            on.0
                        };
                        if forward {
                            assert(again.0.resume(host(next)) == after);
                        } else {
                            assert(after == again);
                        }
                        assert(run_to_end(host, after.0, after.1, more) == run_to_end(
                            host,
                            again.0,
                            again.1,
                            on.0,
                        ));
                        assert(run_to_end(host, reached.0, reached.1, more + 1) == run_to_end(
                            host,
                            after.0,
                            after.1,
                            more,
                        ));
                        lemma_run_split(host, at.0, at.1, steps, more + 1);
                        (steps + (more + 1), on.1)
                    }
                },
                _ => (steps, dir),
            }
        },
        _ => {
            assert(run_to_end(host, at.0, at.1, 0) == at);
            (0, dir)
        },
    }
}

/// On a tree at rest that has finitely many directories, every operation of
/// the cursor ends: every move, every jump into another directory, and every
/// listing made again, whatever filter it is made by.
pub proof fn lemma_operations_end(
    host: Host,
    root: Seq<char>,
    all: Seq<Seq<char>>,
    state: CursorView,
)
    requires
        well_formed(host, root),
        holds_all(host, all),
    ensures
        forall|offset: int| #[trigger] ends(host, state.move_by(offset)),
        forall|forward: bool| #[trigger] ends(host, state.leave(forward, 0)),
        forall|candidate: Option<FilterView>| #[trigger] ends(host, state.reload(candidate)),
{
    assert forall|forward: bool, left: nat| #[trigger]
        ends(host, state.leave(forward, left)) by {
        let at = state.leave(forward, left);
        if at.1 is Done {
            lemma_ends_done(host, at);
        } else {
            let dir = parent_spec(state.current().unwrap()).unwrap();
            let to = lemma_goes_on(host, root, all, state, forward, dir, left, None);
            assert(run_to_end(host, at.0, at.1, to.0).1 is Done);
        }
    }
    assert forall|offset: int| #[trigger] ends(host, state.move_by(offset)) by {
        let at = state.move_by(offset);
        if at.1 is Done {
            lemma_ends_done(host, at);
        } else if offset > 0 {
            assert(ends(host, state.leave(true, (state.cursor + offset - state.paths.len()) as nat)));
        } else {
            assert(ends(host, state.leave(false, (-offset - state.cursor - 1) as nat)));
        }
    }
    assert forall|candidate: Option<FilterView>| #[trigger]
        ends(host, state.reload(candidate)) by {
        let at = state.reload(candidate);
        match at.1 {
            StepView::Read(dir) => {
                let after = at.0.resume(host(dir));
                if after.1 is Done {
                    assert(run_to_end(host, after.0, after.1, 0) == after);
                    assert(run_to_end(host, at.0, at.1, 1).1 is Done);
                } else {
                    let to = lemma_goes_on(host, root, all, state, false, dir, 0, candidate);
                    assert(after == state.follow(prev_start(dir), false, 0, candidate));
                    assert(run_to_end(host, at.0, at.1, to.0 + 1).1 is Done);
                }
            },
            StepView::Done(_) => {
                lemma_ends_done(host, at);
            },
        }
    }
}

/// Where no directory further on has an eligible file, a jump fails because
/// the cursor cannot move that far, and leaves the cursor as it was. So does
/// a move by one file over the end of the listing, which is such a jump.
///
/// Further on are the directories that the walks come to one after another,
/// forward or backward, from the directory `home` of the file under the cursor.
pub proof fn lemma_nothing_further(
    host: Host,
    root: Seq<char>,
    all: Seq<Seq<char>>,
    base: CursorView,
    home: Seq<char>,
    forward: bool,
)
    requires
        well_formed(host, root),
        holds_all(host, all),
        base.loaded(),
        parent_spec(base.current().unwrap()) == Some(home),
        forall|chain: Seq<Seq<char>>|
            chain.len() > 1 && chain[0] == home && #[trigger] leads(
                host,
                base.filter,
                forward,
                true,
                chain,
            ) ==> files_in(host, base.filter, chain.last()).len() == 0,
    ensures
        exists|fuel: nat| #[trigger]
            run_to_end(host, base.leave(forward, 0).0, base.leave(forward, 0).1, fuel) == (
                base.settled(),
                StepView::Done(Err(NavErrorView::OutOfRange)),
            ),
{
    lemma_operations_end(host, root, all, base);
    let begun = base.leave(forward, 0);
    assert(ends(host, begun));
    let fuel = choose|fuel: nat| (#[trigger] run_to_end(host, begun.0, begun.1, fuel)).1 is Done;
    let chain = lemma_jump(host, base, home, forward, fuel);
    let end = run_to_end(host, begun.0, begun.1, fuel);
    assert(passage_stands(host, base, None, forward, true, chain, end));
    assert(end == (base.settled(), StepView::Done(Err(NavErrorView::OutOfRange))));
}

} // verus!
