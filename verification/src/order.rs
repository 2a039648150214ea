//! The order in which a search of the tree in depth finds the directories,
//! and the walk forward as one step of it.
//!
//! The order is stated on paths alone: what comes after a directory lies
//! below it, or within a directory that sorts after it, or after one of the
//! directories above it, among those beside it. As strings such paths may
//! well sort the other way. The walk forward goes to what comes next in this
//! order and passes no directory over.

use vstd::prelude::*;
use crate::model::{
    descent, is_within, lemma_above_root, lemma_climb_above_root, lemma_climb_step,
    lemma_descent_end, lemma_first_after, lemma_last_before, lemma_next_is_nearest,
    lemma_next_undoes_prev, lemma_walk_stays, lemma_within_above, lemma_within_sorts_after, lists,
    on_last_chain, readable, stands_behind, start, subdirs, walk_finds, walk_to_end, well_formed,
    Host,
};
use crate::path::{
    climb, first_after, last_before, next_start, prev_start, subdirectories, WalkStepView, WalkView,
};
use crate::text::{
    lemma_lt_irreflexive, lemma_lt_transitive, lemma_parent_shorter, parent_spec, path_lt,
};

verus! {

/// Whether `path` lies in a directory `beside` that sorts after `top`, in
/// the same directory as `top`, where `top` is `dir` or a directory above it.
pub open spec fn branches_off(
    dir: Seq<char>,
    path: Seq<char>,
    top: Seq<char>,
    beside: Seq<char>,
) -> bool {
    &&& is_within(dir, top)
    &&& parent_spec(top) is Some
    &&& parent_spec(beside) == parent_spec(top)
    &&& path_lt(top, beside)
    &&& is_within(path, beside)
}

/// Whether a search of the tree in depth comes to `path` after `dir`: `path`
/// lies below `dir`, or in a directory that sorts after `dir`, or after one
/// of the directories above it, among those beside it.
pub open spec fn comes_after(dir: Seq<char>, path: Seq<char>) -> bool {
    ||| path != dir && is_within(path, dir)
    ||| exists|top: Seq<char>, beside: Seq<char>| #[trigger] branches_off(dir, path, top, beside)
}

/// Whether `next` sorts after `turn` in the directory of both, where `turn`
/// is `dir` or a directory above it.
pub open spec fn turns_at(dir: Seq<char>, next: Seq<char>, turn: Seq<char>) -> bool {
    &&& is_within(dir, turn)
    &&& parent_spec(turn) is Some
    &&& parent_spec(next) == parent_spec(turn)
    &&& path_lt(turn, next)
}

/// Whether `next` is one step of a search in depth away from `dir`: it lies
/// directly in `dir`, or it sorts after `dir`, or after one of the
/// directories above it, among those beside it.
pub open spec fn steps_on(dir: Seq<char>, next: Seq<char>) -> bool {
    ||| parent_spec(next) == Some(dir)
    ||| exists|turn: Seq<char>| #[trigger] turns_at(dir, next, turn)
}

/// What lies within a directory lies within every directory that this one
/// lies within.
pub proof fn lemma_within_transitive(dir: Seq<char>, middle: Seq<char>, top: Seq<char>)
    requires
        is_within(dir, middle),
        is_within(middle, top),
    ensures
        is_within(dir, top),
    decreases dir.len(),
{
    if dir != middle {
        lemma_within_transitive(parent_spec(dir).unwrap(), middle, top);
    }
}

/// Of two directories that a path lies within, one lies within the other.
pub proof fn lemma_in_line(path: Seq<char>, one: Seq<char>, other: Seq<char>)
    requires
        is_within(path, one),
        is_within(path, other),
    ensures
        is_within(one, other) || is_within(other, one),
    decreases path.len(),
{
    if path != one && path != other {
        lemma_in_line(parent_spec(path).unwrap(), one, other);
    }
}

/// No path comes after itself.
pub proof fn lemma_not_after_itself(path: Seq<char>)
    ensures
        !comes_after(path, path),
{
    if comes_after(path, path) {
        let (top, beside) = choose|top: Seq<char>, beside: Seq<char>| #[trigger]
            branches_off(path, path, top, beside);
        lemma_in_line(path, top, beside);
        lemma_lt_irreflexive(top);
        lemma_parent_shorter(top);
        lemma_parent_shorter(beside);
        if top != beside {
            if is_within(top, beside) {
                lemma_within_sorts_after(parent_spec(top).unwrap(), beside);
            } else {
                lemma_within_sorts_after(parent_spec(beside).unwrap(), top);
            }
        }
    }
}

/// What is one step away comes after.
pub proof fn lemma_step_comes_after(dir: Seq<char>, next: Seq<char>)
    requires
        steps_on(dir, next),
    ensures
        comes_after(dir, next),
{
    lemma_parent_shorter(next);
    if parent_spec(next) == Some(dir) {
        assert(is_within(dir, dir));
        assert(is_within(next, dir));
    } else {
        let turn = choose|turn: Seq<char>| #[trigger] turns_at(dir, next, turn);
        assert(is_within(next, next));
        assert(branches_off(dir, next, turn, next));
    }
}

/// What comes after the next step comes after this one.
pub proof fn lemma_after_carries(dir: Seq<char>, next: Seq<char>, path: Seq<char>)
    requires
        steps_on(dir, next),
        comes_after(next, path),
    ensures
        comes_after(dir, path),
{
    lemma_parent_shorter(next);
    if path != next && is_within(path, next) {
        if parent_spec(next) == Some(dir) {
            lemma_within_above(path, next);
            lemma_within_sorts_after(path, next);
        } else {
            let turn = choose|turn: Seq<char>| #[trigger] turns_at(dir, next, turn);
            assert(branches_off(dir, path, turn, next));
        }
    } else {
        let (top, beside) = choose|top: Seq<char>, beside: Seq<char>| #[trigger]
            branches_off(next, path, top, beside);
        if parent_spec(next) == Some(dir) {
            if top == next {
                lemma_within_above(path, beside);
                lemma_within_sorts_after(path, beside);
                lemma_parent_shorter(beside);
            } else {
                assert(is_within(dir, top));
                assert(branches_off(dir, path, top, beside));
            }
        } else {
            let turn = choose|turn: Seq<char>| #[trigger] turns_at(dir, next, turn);
            if top == next {
                lemma_lt_transitive(turn, next, beside);
                assert(branches_off(dir, path, turn, beside));
            } else {
                lemma_parent_shorter(turn);
                assert(is_within(parent_spec(next).unwrap(), top));
                assert(is_within(turn, top));
                lemma_within_transitive(dir, turn, top);
                assert(branches_off(dir, path, top, beside));
            }
        }
    }
}

/// A walk forward that climbs ends at a directory that the host can read.
proof fn lemma_climb_finds_readable(host: Host, from: Seq<char>, fuel: nat, next: Seq<char>)
    requires
        forall|dir: Seq<char>, sub: Seq<char>| #[trigger]
            lists(host, dir, sub) ==> parent_spec(sub) == Some(dir) && readable(host, sub),
        walk_to_end(host, climb(from), fuel) == WalkStepView::Found(next),
    ensures
        readable(host, next),
    decreases fuel,
{
    if parent_spec(from) is Some {
        let above = parent_spec(from).unwrap();
        let list = subdirs(host, above);
        lemma_climb_step(host, from, fuel);
        match first_after(list, from) {
            Some(found) => {
                let at = lemma_first_after(list, from);
                lemma_walk_stays(host, WalkStepView::Found(found), (fuel - 1) as nat);
                assert(lists(host, above, found));
            },
            None => {
                lemma_climb_finds_readable(host, above, (fuel - 1) as nat, next);
            },
        }
    } else {
        lemma_walk_stays(host, WalkStepView::Exhausted, fuel);
    }
}

/// A walk ends at a directory that the host can read, wherever it started.
pub proof fn lemma_found_readable(
    host: Host,
    root: Seq<char>,
    forward: bool,
    dir: Seq<char>,
    next: Seq<char>,
)
    requires
        well_formed(host, root),
        walk_finds(host, start(forward, dir), next),
    ensures
        readable(host, next),
{
    let fuel = choose|fuel: nat| #[trigger]
        walk_to_end(host, start(forward, dir), fuel) == WalkStepView::Found(next);
    lemma_walk_stays(host, WalkStepView::Exhausted, fuel);
    lemma_walk_stays(host, WalkStepView::Exhausted, (fuel - 1) as nat);
    if forward {
        let list = subdirs(host, dir);
        let opening = WalkView { from: dir, asked: dir, forward: true, opening: true };
        let after = opening.advance(subdirectories(host(dir)));
        assert(walk_to_end(host, next_start(dir), fuel) == walk_to_end(
            host,
            after,
            (fuel - 1) as nat,
        ));
        if list.len() > 0 {
            assert(after == WalkStepView::Found(list.first()));
            lemma_walk_stays(host, after, (fuel - 1) as nat);
            assert(lists(host, dir, list[0]));
        } else {
            assert(after == climb(dir));
            lemma_climb_finds_readable(host, dir, (fuel - 1) as nat, next);
        }
    } else {
        let above = parent_spec(dir).unwrap();
        let opening = WalkView { from: dir, asked: above, forward: false, opening: true };
        assert(prev_start(dir) == WalkStepView::Ask(opening));
        let after = opening.advance(subdirectories(host(above)));
        assert(walk_to_end(host, prev_start(dir), fuel) == walk_to_end(
            host,
            after,
            (fuel - 1) as nat,
        ));
        let list = subdirs(host, above);
        assert(readable(host, above));
        assert(subdirectories(host(above)) == Some(list));
        match last_before(list, dir) {
            Some(beside) => {
                let at = lemma_last_before(list, dir);
                assert(after == descent(dir, beside));
                assert(lists(host, above, beside));
                lemma_descent_end(host, root, dir, beside, (fuel - 1) as nat, next);
            },
            None => {
                assert(after == WalkStepView::Found(above));
                lemma_walk_stays(host, after, (fuel - 1) as nat);
            },
        }
    }
}

/// A walk forward that climbs from `from`, which is `dir` or a directory
/// above it, ends at a directory that sorts after one of them beside it.
proof fn lemma_climb_turns(
    host: Host,
    root: Seq<char>,
    dir: Seq<char>,
    from: Seq<char>,
    fuel: nat,
    next: Seq<char>,
)
    requires
        well_formed(host, root),
        readable(host, from),
        is_within(dir, from),
        walk_to_end(host, climb(from), fuel) == WalkStepView::Found(next),
    ensures
        exists|turn: Seq<char>| #[trigger] turns_at(dir, next, turn),
    decreases fuel,
{
    if from == root {
        assert(is_within(root, root));
        lemma_climb_above_root(host, root, from, fuel);
    } else {
        let above = parent_spec(from).unwrap();
        let list = subdirs(host, above);
        assert(lists(host, above, from));
        lemma_climb_step(host, from, fuel);
        match first_after(list, from) {
            Some(found) => {
                let at = lemma_first_after(list, from);
                lemma_walk_stays(host, WalkStepView::Found(found), (fuel - 1) as nat);
                assert(lists(host, above, found));
                assert(turns_at(dir, next, from));
            },
            None => {
                lemma_within_above(dir, from);
                lemma_climb_turns(host, root, dir, above, (fuel - 1) as nat, next);
            },
        }
    }
}

/// The directory where the walk forward from `dir` ends is one step of a
/// search in depth away from `dir`.
pub proof fn lemma_next_steps_on(host: Host, root: Seq<char>, dir: Seq<char>, next: Seq<char>)
    requires
        well_formed(host, root),
        readable(host, dir),
        walk_finds(host, next_start(dir), next),
    ensures
        steps_on(dir, next),
{
    let fuel = choose|fuel: nat| #[trigger]
        walk_to_end(host, next_start(dir), fuel) == WalkStepView::Found(next);
    let list = subdirs(host, dir);
    let opening = WalkView { from: dir, asked: dir, forward: true, opening: true };
    let after = opening.advance(subdirectories(host(dir)));
    assert(walk_to_end(host, next_start(dir), fuel) == walk_to_end(host, after, (fuel - 1) as nat));
    if list.len() > 0 {
        assert(after == WalkStepView::Found(list.first()));
        lemma_walk_stays(host, after, (fuel - 1) as nat);
        assert(lists(host, dir, list[0]));
    } else {
        assert(after == climb(dir));
        assert(is_within(dir, dir));
        lemma_climb_turns(host, root, dir, dir, (fuel - 1) as nat, next);
    }
}

/// Every directory that can be read lies within the root.
pub proof fn lemma_readable_within_root(host: Host, root: Seq<char>, dir: Seq<char>)
    requires
        well_formed(host, root),
        readable(host, dir),
    ensures
        is_within(dir, root),
    decreases dir.len(),
{
    if dir != root {
        let above = parent_spec(dir).unwrap();
        assert(lists(host, above, dir));
        lemma_parent_shorter(dir);
        lemma_readable_within_root(host, root, above);
    }
}

/// Between a directory that can be read and the root, every directory can be read.
proof fn lemma_readable_above(host: Host, root: Seq<char>, dir: Seq<char>, top: Seq<char>)
    requires
        well_formed(host, root),
        readable(host, dir),
        is_within(dir, top),
        is_within(top, root),
    ensures
        readable(host, top),
    decreases dir.len(),
{
    if dir != top {
        lemma_within_sorts_after(dir, top);
        lemma_within_sorts_after(top, root);
        let above = parent_spec(dir).unwrap();
        assert(lists(host, above, dir));
        lemma_readable_above(host, root, above, top);
    }
}

/// A directory that lies below another lies within one of its subdirectories.
proof fn lemma_child_toward(host: Host, root: Seq<char>, dir: Seq<char>, below: Seq<char>) -> (sub:
    Seq<char>)
    requires
        well_formed(host, root),
        readable(host, dir),
        readable(host, below),
        is_within(below, dir),
        below != dir,
    ensures
        lists(host, dir, sub),
        is_within(below, sub),
    decreases below.len(),
{
    let above = parent_spec(below).unwrap();
    if below == root {
        lemma_above_root(host, root, dir);
    }
    assert(lists(host, above, below));
    if above == dir {
        assert(is_within(below, below));
        below
    } else {
        lemma_child_toward(host, root, dir, above)
    }
}

/// A directory that lies directly in one that can be read, and holds one
/// that can be read, is shown there.
proof fn lemma_beside_listed(
    host: Host,
    root: Seq<char>,
    above: Seq<char>,
    beside: Seq<char>,
    below: Seq<char>,
)
    requires
        well_formed(host, root),
        readable(host, above),
        parent_spec(beside) == Some(above),
        readable(host, below),
        is_within(below, beside),
    ensures
        lists(host, above, beside),
{
    lemma_readable_within_root(host, root, below);
    lemma_readable_within_root(host, root, above);
    lemma_in_line(below, beside, root);
    lemma_parent_shorter(beside);
    lemma_within_sorts_after(above, root);
    if is_within(root, beside) {
        lemma_within_sorts_after(root, beside);
    }
    assert(is_within(beside, root));
    lemma_readable_above(host, root, below, beside);
}

/// What a chain of last subdirectories ends at lies within its top.
proof fn lemma_chain_within(host: Host, top: Seq<char>, dir: Seq<char>)
    requires
        on_last_chain(host, top, dir),
    ensures
        is_within(dir, top),
    decreases dir.len(),
{
    if dir != top {
        lemma_chain_within(host, top, parent_spec(dir).unwrap());
    }
}

/// Every directory on a chain of last subdirectories, but its top, is the
/// last where it lies.
proof fn lemma_chain_level(host: Host, top: Seq<char>, dir: Seq<char>, level: Seq<char>)
    requires
        on_last_chain(host, top, dir),
        is_within(dir, level),
        is_within(level, top),
        level != top,
    ensures
        parent_spec(level) matches Some(above) && readable(host, above) && subdirs(
            host,
            above,
        ).len() > 0 && subdirs(host, above).last() == level,
    decreases dir.len(),
{
    if dir == top {
        lemma_within_sorts_after(dir, level);
        lemma_within_sorts_after(level, top);
    } else if dir != level {
        lemma_chain_level(host, top, parent_spec(dir).unwrap(), level);
    }
}

/// The walk forward passes no directory over: every directory that comes
/// after `dir` in a search of the tree in depth is the directory where the
/// walk from `dir` ends, or comes after that one.
pub proof fn lemma_nothing_between(
    host: Host,
    root: Seq<char>,
    dir: Seq<char>,
    next: Seq<char>,
    other: Seq<char>,
)
    requires
        well_formed(host, root),
        readable(host, dir),
        walk_finds(host, next_start(dir), next),
        readable(host, other),
        comes_after(dir, other),
    ensures
        other == next || comes_after(next, other),
{
    lemma_next_is_nearest(host, root, dir, next);
    let list = subdirs(host, dir);
    if other != dir && is_within(other, dir) {
        let sub = lemma_child_toward(host, root, dir, other);
        lemma_between_below(host, root, dir, next, other, sub);
    } else {
        let (top, beside) = choose|top: Seq<char>, beside: Seq<char>| #[trigger]
            branches_off(dir, other, top, beside);
        if list.len() > 0 {
            assert(lists(host, dir, list[0]));
            lemma_parent_shorter(next);
            assert(is_within(dir, dir));
            assert(is_within(next, dir));
            lemma_within_transitive(next, dir, top);
            assert(branches_off(next, other, top, beside));
        } else {
            let turn = choose|turn: Seq<char>|
                on_last_chain(host, turn, dir) && #[trigger] stands_behind(host, turn, next);
            lemma_chain_within(host, turn, dir);
            lemma_in_line(dir, top, turn);
            if top == turn {
                lemma_between_at_turn(host, root, turn, next, other, beside);
            } else if is_within(turn, top) {
                lemma_between_above_turn(host, root, turn, next, top);
                assert(branches_off(next, other, top, beside));
            } else {
                lemma_between_under_turn(host, root, dir, turn, other, top, beside);
            }
        }
    }
}

/// A directory below `dir` is its first subdirectory, or lies below that
/// one, or lies within a later subdirectory.
proof fn lemma_between_below(
    host: Host,
    root: Seq<char>,
    dir: Seq<char>,
    next: Seq<char>,
    other: Seq<char>,
    sub: Seq<char>,
)
    requires
        well_formed(host, root),
        subdirs(host, dir).len() > 0,
        next == subdirs(host, dir).first(),
        lists(host, dir, sub),
        is_within(other, sub),
    ensures
        other == next || comes_after(next, other),
{
    let list = subdirs(host, dir);
    let at = choose|at: int| 0 <= at < list.len() && list[at] == sub;
    assert(lists(host, dir, list[0]));
    if at > 0 {
        assert(path_lt(list[0], list[at]));
        assert(is_within(next, next));
        assert(branches_off(next, other, next, sub));
    }
}

/// What lies within a directory that sorts after `turn`, beside it, is the
/// directory right behind `turn`, or comes after that one.
proof fn lemma_between_at_turn(
    host: Host,
    root: Seq<char>,
    turn: Seq<char>,
    next: Seq<char>,
    other: Seq<char>,
    beside: Seq<char>,
)
    requires
        well_formed(host, root),
        stands_behind(host, turn, next),
        readable(host, other),
        parent_spec(beside) == parent_spec(turn),
        path_lt(turn, beside),
        is_within(other, beside),
    ensures
        other == next || comes_after(next, other),
{
    let above = parent_spec(turn).unwrap();
    let row = subdirs(host, above);
    let own = choose|own: int|
        0 <= own && own + 1 < row.len() && #[trigger] row[own] == turn && row[own + 1] == next;
    assert(lists(host, above, row[own + 1]));
    lemma_beside_listed(host, root, above, beside, other);
    let at = choose|at: int| 0 <= at < row.len() && row[at] == beside;
    lemma_lt_irreflexive(turn);
    if at < own {
        assert(path_lt(row[at], row[own]));
        lemma_lt_transitive(turn, beside, turn);
    }
    if at > own + 1 {
        assert(path_lt(row[own + 1], row[at]));
        assert(is_within(next, next));
        assert(branches_off(next, other, next, beside));
    }
}

/// The directory right behind `turn` lies within every directory that
/// `turn` lies below.
proof fn lemma_between_above_turn(
    host: Host,
    root: Seq<char>,
    turn: Seq<char>,
    next: Seq<char>,
    top: Seq<char>,
)
    requires
        well_formed(host, root),
        stands_behind(host, turn, next),
        is_within(turn, top),
        turn != top,
    ensures
        is_within(next, top),
{
    let above = parent_spec(turn).unwrap();
    let row = subdirs(host, above);
    let own = choose|own: int|
        0 <= own && own + 1 < row.len() && #[trigger] row[own] == turn && row[own + 1] == next;
    assert(lists(host, above, row[own + 1]));
    lemma_parent_shorter(next);
    assert(is_within(above, top));
}

/// No directory that can be read lies within a directory that sorts after
/// one of a chain of last subdirectories, beside it, below the top of the chain.
proof fn lemma_between_under_turn(
    host: Host,
    root: Seq<char>,
    dir: Seq<char>,
    turn: Seq<char>,
    other: Seq<char>,
    top: Seq<char>,
    beside: Seq<char>,
)
    requires
        well_formed(host, root),
        on_last_chain(host, turn, dir),
        branches_off(dir, other, top, beside),
        is_within(top, turn),
        top != turn,
    ensures
        !readable(host, other),
{
    if readable(host, other) {
        lemma_chain_level(host, turn, dir, top);
        let higher = parent_spec(top).unwrap();
        lemma_beside_listed(host, root, higher, beside, other);
        let line = subdirs(host, higher);
        let at = choose|at: int| 0 <= at < line.len() && line[at] == beside;
        lemma_lt_irreflexive(top);
        if at < line.len() - 1 {
            assert(path_lt(line[at], line[line.len() - 1]));
            lemma_lt_transitive(top, beside, top);
        }
    }
}

/// The directory where the walk forward from `dir` ends comes after `dir`,
/// and `dir` does not come after it.
pub proof fn lemma_next_comes_after(host: Host, root: Seq<char>, dir: Seq<char>, next: Seq<char>)
    requires
        well_formed(host, root),
        readable(host, dir),
        walk_finds(host, next_start(dir), next),
    ensures
        comes_after(dir, next),
        !comes_after(next, dir),
{
    lemma_next_steps_on(host, root, dir, next);
    lemma_step_comes_after(dir, next);
    lemma_not_after_itself(dir);
    if comes_after(next, dir) {
        lemma_after_carries(dir, next, dir);
    }
}

/// The walk backward passes no directory over either: `dir` comes after the
/// directory where the walk backward from it ends, and every other directory
/// that comes after that one comes after `dir`.
pub proof fn lemma_nothing_between_back(
    host: Host,
    root: Seq<char>,
    dir: Seq<char>,
    prev: Seq<char>,
    other: Seq<char>,
)
    requires
        well_formed(host, root),
        readable(host, dir),
        walk_finds(host, prev_start(dir), prev),
        readable(host, other),
        comes_after(prev, other),
    ensures
        comes_after(prev, dir),
        other == dir || comes_after(dir, other),
{
    lemma_next_undoes_prev(host, root, dir, prev);
    lemma_next_comes_after(host, root, prev, dir);
    lemma_nothing_between(host, root, prev, dir, other);
}

} // verus!
