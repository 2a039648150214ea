//! A directory tree at rest, and what the walks come to on it.
//!
//! The steps of a walk are functions of what the host read. Here the host is
//! a function too: it answers every request from one tree that does not
//! change. On such a host a walk can be followed to its end, and the walk
//! backward can be shown to undo the walk forward, and the walk forward to
//! undo the walk backward.

use vstd::prelude::*;
use crate::path::{
    climb, first_after, last_before, next_start, prev_start, subdirectories, Reading, WalkStepView,
    WalkView,
};
use crate::text::{
    lemma_last_index_of, lemma_lt_asymmetric, lemma_lt_irreflexive, lemma_lt_transitive,
    lemma_parent_shorter, lemma_prefix_lt, parent_spec, path_lt,
};

verus! {

/// What the host reads in each directory.
pub type Host = spec_fn(Seq<char>) -> Reading;

/// Whether the host can read `dir`.
pub open spec fn readable(host: Host, dir: Seq<char>) -> bool {
    host(dir) is Ok
}

/// The subdirectories that the host finds in `dir`, in path order; none where
/// it cannot read `dir`.
pub open spec fn subdirs(host: Host, dir: Seq<char>) -> Seq<Seq<char>> {
    match subdirectories(host(dir)) {
        Some(list) => list,
        None => Seq::empty(),
    }
}

/// Whether the host finds the subdirectory `sub` in `dir`.
pub open spec fn lists(host: Host, dir: Seq<char>, sub: Seq<char>) -> bool {
    readable(host, dir) && subdirs(host, dir).contains(sub)
}

/// Whether each path of `list` sorts before the next.
pub open spec fn strictly_sorted(list: Seq<Seq<char>>) -> bool {
    forall|i: int, j: int| 0 <= i < j < list.len() ==> path_lt(list[i], list[j])
}

/// Whether `dir` is `top` or lies below it.
pub open spec fn is_within(dir: Seq<char>, top: Seq<char>) -> bool
    decreases dir.len(),
{
    dir == top || match parent_spec(dir) {
        Some(above) => above.len() < dir.len() && is_within(above, top),
        None => false,
    }
}

/// Whether what the host reads is a tree below `root`: the root can be read;
/// no directory shows a subdirectory twice; what a directory shows lies
/// directly in it and can be read; and every directory that can be read, but
/// the root, is shown by the directory it lies in.
pub open spec fn well_formed(host: Host, root: Seq<char>) -> bool {
    &&& readable(host, root)
    &&& forall|dir: Seq<char>| #![trigger subdirs(host, dir)] strictly_sorted(subdirs(host, dir))
    &&& forall|dir: Seq<char>, sub: Seq<char>| #[trigger]
        lists(host, dir, sub) ==> parent_spec(sub) == Some(dir) && readable(host, sub)
    &&& forall|dir: Seq<char>| #[trigger]
        readable(host, dir) && dir != root ==> parent_spec(dir) is Some && lists(
            host,
            parent_spec(dir).unwrap(),
            dir,
        )
}

/// How the walk from `dir` begins, forward or backward.
pub open spec fn start(forward: bool, dir: Seq<char>) -> WalkStepView {
    if forward {
        next_start(dir)
    } else {
        prev_start(dir)
    }
}

/// Where a walk stands after at most `fuel` steps, each answered by the host.
pub open spec fn walk_to_end(host: Host, step: WalkStepView, fuel: nat) -> WalkStepView
    decreases fuel,
{
    match step {
        WalkStepView::Ask(walk) if fuel > 0 => walk_to_end(
            host,
            walk.advance(subdirectories(host(walk.asked))),
            (fuel - 1) as nat,
        ),
        _ => step,
    }
}

/// Whether the walk that stands at `step` ends at `dir`.
pub open spec fn walk_finds(host: Host, step: WalkStepView, dir: Seq<char>) -> bool {
    exists|fuel: nat| #[trigger] walk_to_end(host, step, fuel) == WalkStepView::Found(dir)
}

/// Whether the walk that stands at `step` ends without a directory.
pub open spec fn walk_finds_none(host: Host, step: WalkStepView) -> bool {
    exists|fuel: nat| #[trigger] walk_to_end(host, step, fuel) == WalkStepView::Exhausted
}

/// The walk backward that started from `from` and goes down from `dir` into
/// last subdirectories.
pub open spec fn descent(from: Seq<char>, dir: Seq<char>) -> WalkStepView {
    WalkStepView::Ask(WalkView { from, asked: dir, forward: false, opening: false })
}

/// Whether `dir` is reached from `top` by going into the last subdirectory
/// again and again.
pub open spec fn on_last_chain(host: Host, top: Seq<char>, dir: Seq<char>) -> bool
    decreases dir.len(),
{
    dir == top || match parent_spec(dir) {
        Some(above) => above.len() < dir.len() && readable(host, above) && subdirs(
            host,
            above,
        ).len() > 0 && subdirs(host, above).last() == dir && on_last_chain(host, top, above),
        None => false,
    }
}

/// The directory that holds a path is a proper prefix of it, so it sorts first.
pub proof fn lemma_parent_sorts_first(path: Seq<char>)
    ensures
        parent_spec(path) matches Some(above) ==> above.len() < path.len() && above == path.take(
            above.len() as int,
        ) && path_lt(above, path),
{
    lemma_last_index_of(path, '/');
    if let Some(above) = parent_spec(path) {
        assert(above =~= path.take(above.len() as int));
        lemma_prefix_lt(above, path);
    }
}

/// A directory sorts after the directories it lies below, and its path is
/// no shorter than theirs.
pub proof fn lemma_within_sorts_after(dir: Seq<char>, top: Seq<char>)
    requires
        is_within(dir, top),
    ensures
        dir == top || path_lt(top, dir),
        top.len() <= dir.len(),
        dir != top ==> top.len() < dir.len(),
    decreases dir.len(),
{
    if dir != top {
        let above = parent_spec(dir).unwrap();
        lemma_within_sorts_after(above, top);
        lemma_parent_sorts_first(dir);
        if above != top {
            lemma_lt_transitive(top, above, dir);
        }
    }
}

/// What lies within a directory lies within the directory above it.
pub proof fn lemma_within_above(dir: Seq<char>, top: Seq<char>)
    requires
        is_within(dir, top),
        parent_spec(top) is Some,
    ensures
        is_within(dir, parent_spec(top).unwrap()),
    decreases dir.len(),
{
    let higher = parent_spec(top).unwrap();
    if dir == top {
        lemma_parent_shorter(top);
        assert(is_within(higher, higher));
    } else {
        lemma_within_above(parent_spec(dir).unwrap(), top);
    }
}

/// A chain of last subdirectories grows at its top.
pub proof fn lemma_chain_extends(host: Host, top: Seq<char>, dir: Seq<char>)
    requires
        on_last_chain(host, top, dir),
        parent_spec(top) is Some,
        readable(host, parent_spec(top).unwrap()),
        subdirs(host, parent_spec(top).unwrap()).len() > 0,
        subdirs(host, parent_spec(top).unwrap()).last() == top,
    ensures
        on_last_chain(host, parent_spec(top).unwrap(), dir),
    decreases dir.len(),
{
    if dir == top {
        lemma_parent_shorter(top);
        assert(on_last_chain(host, parent_spec(top).unwrap(), parent_spec(top).unwrap()));
    } else {
        lemma_chain_extends(host, top, parent_spec(dir).unwrap());
    }
}

/// Nothing above the root of a tree can be read.
pub proof fn lemma_above_root(host: Host, root: Seq<char>, dir: Seq<char>)
    requires
        well_formed(host, root),
        is_within(root, dir),
        dir != root,
    ensures
        !readable(host, dir),
    decreases dir.len(),
{
    if readable(host, dir) {
        let above = parent_spec(dir).unwrap();
        assert(lists(host, above, dir));
        lemma_within_above(root, dir);
        lemma_within_sorts_after(root, dir);
        lemma_parent_shorter(dir);
        lemma_above_root(host, root, above);
    }
}

/// What `first_after` finds sorts after the path, and nothing before it does.
pub proof fn lemma_first_after(list: Seq<Seq<char>>, path: Seq<char>) -> (at: int)
    ensures
        match first_after(list, path) {
            Some(found) => 0 <= at < list.len() && list[at] == found && path_lt(path, found)
                && forall|i: int| 0 <= i < at ==> !path_lt(path, list[i]),
            None => at == list.len() && forall|i: int|
                0 <= i < list.len() ==> !path_lt(path, list[i]),
        },
    decreases list.len(),
{
    if list.len() == 0 {
        0
    } else if path_lt(path, list.first()) {
        0
    } else {
        let rest = lemma_first_after(list.drop_first(), path);
        assert forall|i: int| 0 <= i < rest + 1 && i < list.len() implies !path_lt(
            path,
            list[i],
        ) by {
            if i > 0 {
                assert(list[i] == list.drop_first()[i - 1]);
            }
        }
        rest + 1
    }
}

/// What `last_before` finds sorts before the path, and nothing behind it does.
pub proof fn lemma_last_before(list: Seq<Seq<char>>, path: Seq<char>) -> (at: int)
    ensures
        match last_before(list, path) {
            Some(found) => 0 <= at < list.len() && list[at] == found && path_lt(found, path)
                && forall|i: int| at < i < list.len() ==> !path_lt(list[i], path),
            None => at == -1 && forall|i: int| 0 <= i < list.len() ==> !path_lt(list[i], path),
        },
    decreases list.len(),
{
    if list.len() == 0 {
        -1
    } else if path_lt(list.last(), path) {
        list.len() - 1
    } else {
        let at = lemma_last_before(list.drop_last(), path);
        assert forall|i: int| at < i < list.len() implies !path_lt(list[i], path) by {
            if i < list.len() - 1 {
                assert(list[i] == list.drop_last()[i]);
            }
        }
        at
    }
}

/// In a list without repeats, the last path before one of its own is the one
/// that stands before it.
pub proof fn lemma_last_before_own(list: Seq<Seq<char>>, at: int)
    requires
        strictly_sorted(list),
        0 <= at < list.len(),
    ensures
        last_before(list, list[at]) == if at > 0 {
            Some(list[at - 1])
        } else {
            None
        },
{
    let found = lemma_last_before(list, list[at]);
    lemma_lt_irreflexive(list[at]);
    if found >= at {
        if found > at {
            lemma_lt_asymmetric(list[at], list[found]);
        }
    } else if found < at - 1 {
        assert(path_lt(list[at - 1], list[at]));
    }
}

/// In a list without repeats, the first path after one of its own is the one
/// that stands behind it.
pub proof fn lemma_first_after_own(list: Seq<Seq<char>>, at: int)
    requires
        strictly_sorted(list),
        0 <= at < list.len(),
    ensures
        first_after(list, list[at]) == if at + 1 < list.len() {
            Some(list[at + 1])
        } else {
            None
        },
{
    let found = lemma_first_after(list, list[at]);
    lemma_lt_irreflexive(list[at]);
    if found <= at {
        if found < at {
            lemma_lt_asymmetric(list[found], list[at]);
        }
    } else if found > at + 1 {
        assert(path_lt(list[at], list[at + 1]));
    }
}

/// A walk that has ended stays where it ended.
pub proof fn lemma_walk_stays(host: Host, step: WalkStepView, fuel: nat)
    requires
        !(step is Ask),
    ensures
        walk_to_end(host, step, fuel) == step,
{
}

/// A walk that has ended within some number of steps has ended after any
/// greater number, at the same place.
pub proof fn lemma_walk_more_fuel(host: Host, step: WalkStepView, fuel: nat, more: nat)
    requires
        !(walk_to_end(host, step, fuel) is Ask),
        fuel <= more,
    ensures
        walk_to_end(host, step, more) == walk_to_end(host, step, fuel),
    decreases fuel,
{
    match step {
        WalkStepView::Ask(walk) => {
            lemma_walk_more_fuel(
                host,
                walk.advance(subdirectories(host(walk.asked))),
                (fuel - 1) as nat,
                (more - 1) as nat,
            );
        },
        _ => {},
    }
}

/// The steps of a walk add up.
pub proof fn lemma_walk_split(host: Host, step: WalkStepView, first: nat, then: nat)
    ensures
        walk_to_end(host, step, first + then) == walk_to_end(
            host,
            walk_to_end(host, step, first),
            then,
        ),
    decreases first,
{
    match step {
        WalkStepView::Ask(walk) => {
            if first > 0 {
                lemma_walk_split(
                    host,
                    walk.advance(subdirectories(host(walk.asked))),
                    (first - 1) as nat,
                    then,
                );
            } else {
                assert(walk_to_end(host, step, 0) == step);
            }
        },
        _ => {
            lemma_walk_stays(host, step, first + then);
            lemma_walk_stays(host, step, first);
            lemma_walk_stays(host, step, then);
        },
    }
}

/// A walk forward that climbs from `from` has ended after one step for every
/// character of `from` and one more, whatever the host reads.
pub proof fn lemma_climb_ends(host: Host, from: Seq<char>)
    ensures
        !(walk_to_end(host, climb(from), from.len() + 1) is Ask),
    decreases from.len(),
{
    match parent_spec(from) {
        Some(above) => {
            lemma_parent_shorter(from);
            let walk = WalkView { from, asked: above, forward: true, opening: false };
            let next = walk.advance(subdirectories(host(above)));
            assert(walk_to_end(host, climb(from), from.len() + 1) == walk_to_end(
                host,
                next,
                from.len(),
            ));
            if next is Found {
                lemma_walk_stays(host, next, from.len());
            } else {
                assert(next == climb(above));
                lemma_climb_ends(host, above);
                lemma_walk_more_fuel(host, next, above.len() + 1, from.len());
            }
        },
        None => {},
    }
}

/// The walk forward from `dir` has ended after one step for every character
/// of `dir` and two more, whatever the host reads.
pub proof fn lemma_forward_walk_ends(host: Host, dir: Seq<char>)
    ensures
        !(walk_to_end(host, next_start(dir), dir.len() + 2) is Ask),
{
    let opening = WalkView { from: dir, asked: dir, forward: true, opening: true };
    let next = opening.advance(subdirectories(host(dir)));
    assert(walk_to_end(host, next_start(dir), dir.len() + 2) == walk_to_end(
        host,
        next,
        dir.len() + 1,
    ));
    if next is Found {
        lemma_walk_stays(host, next, dir.len() + 1);
    } else {
        assert(next == climb(dir));
        lemma_climb_ends(host, dir);
    }
}

/// The walk down from the top of a chain of last subdirectories ends where
/// the walk down from any directory on the chain ends.
pub proof fn lemma_descent(
    host: Host,
    from: Seq<char>,
    top: Seq<char>,
    dir: Seq<char>,
    end: Seq<char>,
)
    requires
        on_last_chain(host, top, dir),
        walk_finds(host, descent(from, dir), end),
    ensures
        walk_finds(host, descent(from, top), end),
    decreases dir.len(),
{
    if dir != top {
        let above = parent_spec(dir).unwrap();
        let fuel = choose|fuel: nat| #[trigger]
            walk_to_end(host, descent(from, dir), fuel) == WalkStepView::Found(end);
        assert(walk_to_end(host, descent(from, above), fuel + 1) == WalkStepView::Found(end));
        lemma_descent(host, from, top, above, end);
    }
}

/// A walk forward that has come to the root of the tree, or above it, finds
/// no directory.
pub proof fn lemma_climb_above_root(host: Host, root: Seq<char>, from: Seq<char>, fuel: nat)
    requires
        well_formed(host, root),
        is_within(root, from),
    ensures
        !(walk_to_end(host, climb(from), fuel) is Found),
    decreases fuel,
{
    if let Some(above) = parent_spec(from) {
        if fuel > 0 {
            lemma_within_above(root, from);
            lemma_within_sorts_after(root, from);
            lemma_parent_shorter(from);
            lemma_above_root(host, root, above);
            lemma_climb_above_root(host, root, above, (fuel - 1) as nat);
        }
    }
}

/// One step of a walk forward that climbs.
pub proof fn lemma_climb_step(host: Host, from: Seq<char>, fuel: nat)
    requires
        parent_spec(from) is Some,
        !(walk_to_end(host, climb(from), fuel) is Ask),
    ensures
        fuel > 0,
        walk_to_end(host, climb(from), fuel) == walk_to_end(
            host,
            match first_after(subdirs(host, parent_spec(from).unwrap()), from) {
                Some(found) => WalkStepView::Found(found),
                None => climb(parent_spec(from).unwrap()),
            },
            (fuel - 1) as nat,
        ),
{
    let above = parent_spec(from).unwrap();
    let walk = WalkView { from, asked: above, forward: true, opening: false };
    assert(climb(from) == WalkStepView::Ask(walk));
    assert(first_after(Seq::<Seq<char>>::empty(), from) is None);
}

/// The walk down ends at once at a directory without subdirectories.
pub proof fn lemma_descent_ends(host: Host, from: Seq<char>, dir: Seq<char>)
    requires
        subdirs(host, dir).len() == 0,
    ensures
        walk_finds(host, descent(from, dir), dir),
{
    let walk = WalkView { from, asked: dir, forward: false, opening: false };
    assert(walk.advance(subdirectories(host(dir))) == WalkStepView::Found(dir));
    lemma_walk_stays(host, WalkStepView::Found(dir), 0);
    assert(walk_to_end(host, descent(from, dir), 1) == WalkStepView::Found(dir));
}

/// The walk backward from `next` goes through the last directory beside it
/// that sorts before it, and ends where the walk down from there ends.
proof fn lemma_prev_through(
    host: Host,
    next: Seq<char>,
    above: Seq<char>,
    beside: Seq<char>,
    dir: Seq<char>,
)
    requires
        parent_spec(next) == Some(above),
        readable(host, above),
        last_before(subdirs(host, above), next) == Some(beside),
        walk_finds(host, descent(next, beside), dir),
    ensures
        walk_finds(host, prev_start(next), dir),
{
    let down = choose|down: nat| #[trigger]
        walk_to_end(host, descent(next, beside), down) == WalkStepView::Found(dir);
    let walk = WalkView { from: next, asked: above, forward: false, opening: true };
    assert(prev_start(next) == WalkStepView::Ask(walk));
    assert(walk.advance(subdirectories(host(above))) == descent(next, beside));
    assert(walk_to_end(host, prev_start(next), down + 1) == WalkStepView::Found(dir));
}

/// Where a walk forward that climbs from `from` ends, the walk backward
/// from there ends at `dir`, which has no subdirectory and is the last of
/// the last below `from`.
proof fn lemma_climb_undone(
    host: Host,
    root: Seq<char>,
    dir: Seq<char>,
    from: Seq<char>,
    fuel: nat,
    next: Seq<char>,
)
    requires
        well_formed(host, root),
        subdirs(host, dir).len() == 0,
        readable(host, from),
        on_last_chain(host, from, dir),
        walk_to_end(host, climb(from), fuel) == WalkStepView::Found(next),
    ensures
        walk_finds(host, prev_start(next), dir),
        readable(host, next),
    decreases fuel,
{
    if from == root {
        assert(is_within(root, root));
        lemma_climb_above_root(host, root, from, fuel);
    } else {
        let above = parent_spec(from).unwrap();
        let list = subdirs(host, above);
        assert(lists(host, above, from));
        let own = choose|own: int| 0 <= own < list.len() && list[own] == from;
        lemma_climb_step(host, from, fuel);
        lemma_first_after_own(list, own);
        if own + 1 < list.len() {
            let found = list[own + 1];
            lemma_walk_stays(host, WalkStepView::Found(found), (fuel - 1) as nat);
            assert(lists(host, above, found));
            lemma_last_before_own(list, own + 1);
            lemma_descent_ends(host, next, dir);
            lemma_descent(host, next, from, dir, dir);
            lemma_prev_through(host, next, above, from, dir);
        } else {
            lemma_chain_extends(host, from, dir);
            lemma_climb_undone(host, root, dir, above, (fuel - 1) as nat, next);
        }
    }
}

/// Whether `next` stands right behind `turn` among the subdirectories of the
/// directory that holds `turn`.
pub open spec fn stands_behind(host: Host, turn: Seq<char>, next: Seq<char>) -> bool {
    parent_spec(turn) matches Some(above) && readable(host, above) && exists|at: int|
        0 <= at && at + 1 < subdirs(host, above).len() && #[trigger] subdirs(host, above)[at]
            == turn && subdirs(host, above)[at + 1] == next
}

/// A walk forward that climbs from `from`, the top of a chain of last
/// subdirectories that ends at `dir`, ends right behind the top of such a
/// chain.
proof fn lemma_climb_turns_at(
    host: Host,
    root: Seq<char>,
    dir: Seq<char>,
    from: Seq<char>,
    fuel: nat,
    next: Seq<char>,
)
    requires
        well_formed(host, root),
        readable(host, from),
        on_last_chain(host, from, dir),
        walk_to_end(host, climb(from), fuel) == WalkStepView::Found(next),
    ensures
        exists|turn: Seq<char>|
            on_last_chain(host, turn, dir) && #[trigger] stands_behind(host, turn, next),
    decreases fuel,
{
    if from == root {
        assert(is_within(root, root));
        lemma_climb_above_root(host, root, from, fuel);
    } else {
        let above = parent_spec(from).unwrap();
        let list = subdirs(host, above);
        assert(lists(host, above, from));
        let own = choose|own: int| 0 <= own < list.len() && list[own] == from;
        lemma_climb_step(host, from, fuel);
        lemma_first_after_own(list, own);
        if own + 1 < list.len() {
            lemma_walk_stays(host, WalkStepView::Found(list[own + 1]), (fuel - 1) as nat);
            assert(subdirs(host, above)[own] == from);
            assert(stands_behind(host, from, next));
        } else {
            lemma_chain_extends(host, from, dir);
            lemma_climb_turns_at(host, root, dir, above, (fuel - 1) as nat, next);
        }
    }
}

/// The directory that follows `dir` is its first subdirectory. Where `dir`
/// has none, it is the subdirectory right behind `dir`, or right behind the
/// nearest directory above `dir` that is not the last where it lies.
pub proof fn lemma_next_is_nearest(host: Host, root: Seq<char>, dir: Seq<char>, next: Seq<char>)
    requires
        well_formed(host, root),
        readable(host, dir),
        walk_finds(host, next_start(dir), next),
    ensures
        subdirs(host, dir).len() > 0 ==> next == subdirs(host, dir).first(),
        subdirs(host, dir).len() == 0 ==> exists|turn: Seq<char>|
            on_last_chain(host, turn, dir) && #[trigger] stands_behind(host, turn, next),
{
    let fuel = choose|fuel: nat| #[trigger]
        walk_to_end(host, next_start(dir), fuel) == WalkStepView::Found(next);
    let list = subdirs(host, dir);
    let opening = WalkView { from: dir, asked: dir, forward: true, opening: true };
    let after = opening.advance(subdirectories(host(dir)));
    assert(walk_to_end(host, next_start(dir), fuel) == walk_to_end(host, after, (fuel - 1) as nat));
    if list.len() > 0 {
        lemma_walk_stays(host, after, (fuel - 1) as nat);
    } else {
        assert(after == climb(dir));
        lemma_climb_turns_at(host, root, dir, dir, (fuel - 1) as nat, next);
    }
}

/// The directory that precedes `dir` is the directory that holds it, where
/// `dir` is the first there. Otherwise it is the last of the last below the
/// subdirectory that stands right before `dir`: a directory without
/// subdirectories at the end of a chain of last subdirectories.
pub proof fn lemma_prev_is_nearest(host: Host, root: Seq<char>, dir: Seq<char>, prev: Seq<char>)
    requires
        well_formed(host, root),
        readable(host, dir),
        walk_finds(host, prev_start(dir), prev),
    ensures
        parent_spec(dir) matches Some(above) && (prev == above && subdirs(host, above).first()
            == dir || exists|beside: Seq<char>|
            on_last_chain(host, beside, prev) && subdirs(host, prev).len() == 0
                && #[trigger] stands_behind(host, beside, dir)),
{
    let fuel = choose|fuel: nat| #[trigger]
        walk_to_end(host, prev_start(dir), fuel) == WalkStepView::Found(prev);
    lemma_walk_stays(host, WalkStepView::Exhausted, fuel);
    let above = parent_spec(dir).unwrap();
    let opening = WalkView { from: dir, asked: above, forward: false, opening: true };
    assert(prev_start(dir) == WalkStepView::Ask(opening));
    let after = opening.advance(subdirectories(host(above)));
    assert(walk_to_end(host, prev_start(dir), fuel) == walk_to_end(host, after, (fuel - 1) as nat));
    lemma_walk_stays(host, WalkStepView::Exhausted, (fuel - 1) as nat);
    let list = subdirs(host, above);
    assert(subdirectories(host(above)) == Some(list));
    if dir == root {
        lemma_parent_shorter(root);
        assert(is_within(above, above));
        lemma_above_root(host, root, above);
    }
    assert(lists(host, above, dir));
    let own = choose|own: int| 0 <= own < list.len() && list[own] == dir;
    lemma_last_before_own(list, own);
    if own == 0 {
        lemma_walk_stays(host, after, (fuel - 1) as nat);
    } else {
        let beside = list[own - 1];
        assert(after == descent(dir, beside));
        assert(lists(host, above, beside));
        lemma_descent_end(host, root, dir, beside, (fuel - 1) as nat, prev);
        assert(subdirs(host, above)[own - 1] == beside);
        assert(stands_behind(host, beside, dir));
    }
}

/// On a tree at rest the walk backward undoes the walk forward: where the
/// walk forward from `dir` ends at a directory, that directory can be read,
/// and the walk backward from it ends at `dir`.
pub proof fn lemma_prev_undoes_next(host: Host, root: Seq<char>, dir: Seq<char>, next: Seq<char>)
    requires
        well_formed(host, root),
        readable(host, dir),
        walk_finds(host, next_start(dir), next),
    ensures
        walk_finds(host, prev_start(next), dir),
        readable(host, next),
{
    let fuel = choose|fuel: nat| #[trigger]
        walk_to_end(host, next_start(dir), fuel) == WalkStepView::Found(next);
    let list = subdirs(host, dir);
    let opening = WalkView { from: dir, asked: dir, forward: true, opening: true };
    assert(next_start(dir) == WalkStepView::Ask(opening));
    assert(subdirectories(host(dir)) == Some(list));
    let after = opening.advance(subdirectories(host(dir)));
    assert(walk_to_end(host, next_start(dir), fuel) == walk_to_end(host, after, (fuel - 1) as nat));
    if list.len() > 0 {
        assert(after == WalkStepView::Found(list.first()));
        assert(next == list[0]);
        assert(lists(host, dir, next));
        lemma_last_before_own(list, 0);
        let back = WalkView { from: next, asked: dir, forward: false, opening: true };
        assert(prev_start(next) == WalkStepView::Ask(back));
        assert(back.advance(subdirectories(host(dir))) == WalkStepView::Found(dir));
        lemma_walk_stays(host, WalkStepView::Found(dir), 0);
        assert(walk_to_end(host, prev_start(next), 1) == WalkStepView::Found(dir));
    } else {
        assert(after == climb(dir));
        lemma_climb_undone(host, root, dir, dir, (fuel - 1) as nat, next);
    }
}

/// Where the walk down from `dir` ends: at the last of the last below `dir`,
/// which can be read and has no subdirectory.
pub proof fn lemma_descent_end(
    host: Host,
    root: Seq<char>,
    from: Seq<char>,
    dir: Seq<char>,
    fuel: nat,
    end: Seq<char>,
)
    requires
        well_formed(host, root),
        readable(host, dir),
        walk_to_end(host, descent(from, dir), fuel) == WalkStepView::Found(end),
    ensures
        on_last_chain(host, dir, end),
        is_within(end, dir),
        readable(host, end),
        subdirs(host, end).len() == 0,
    decreases fuel,
{
    let walk = WalkView { from, asked: dir, forward: false, opening: false };
    let list = subdirs(host, dir);
    assert(subdirectories(host(dir)) == Some(list));
    let after = walk.advance(subdirectories(host(dir)));
    assert(walk_to_end(host, descent(from, dir), fuel) == walk_to_end(
        host,
        after,
        (fuel - 1) as nat,
    ));
    if list.len() > 0 {
        let last = list.last();
        assert(after == descent(from, last));
        assert(lists(host, dir, last));
        lemma_descent_end(host, root, from, last, (fuel - 1) as nat, end);
        lemma_chain_extends(host, last, end);
        lemma_within_above(end, last);
    } else {
        assert(after == WalkStepView::Found(dir));
        lemma_walk_stays(host, after, (fuel - 1) as nat);
    }
}

/// A walk forward that climbs from a directory on a chain of last
/// subdirectories comes to climb from the top of the chain.
proof fn lemma_climb_chain(host: Host, root: Seq<char>, top: Seq<char>, from: Seq<char>) -> (steps:
    nat)
    requires
        well_formed(host, root),
        on_last_chain(host, top, from),
    ensures
        walk_to_end(host, climb(from), steps) == climb(top),
    decreases from.len(),
{
    if from == top {
        assert(walk_to_end(host, climb(from), 0) == climb(from));
        0
    } else {
        let above = parent_spec(from).unwrap();
        let list = subdirs(host, above);
        lemma_first_after_own(list, list.len() - 1);
        let walk = WalkView { from, asked: above, forward: true, opening: false };
        assert(climb(from) == WalkStepView::Ask(walk));
        assert(subdirectories(host(above)) == Some(list));
        assert(walk.advance(subdirectories(host(above))) == climb(above));
        let rest = lemma_climb_chain(host, root, top, above);
        assert(walk_to_end(host, climb(from), rest + 1) == climb(top));
        rest + 1
    }
}

/// On a tree at rest the walk forward undoes the walk backward: where the
/// walk backward from `dir` ends at a directory, that directory can be read,
/// and the walk forward from it ends at `dir`.
pub proof fn lemma_next_undoes_prev(host: Host, root: Seq<char>, dir: Seq<char>, prev: Seq<char>)
    requires
        well_formed(host, root),
        readable(host, dir),
        walk_finds(host, prev_start(dir), prev),
    ensures
        walk_finds(host, next_start(prev), dir),
        readable(host, prev),
{
    let fuel = choose|fuel: nat| #[trigger]
        walk_to_end(host, prev_start(dir), fuel) == WalkStepView::Found(prev);
    lemma_walk_stays(host, WalkStepView::Exhausted, fuel);
    let above = parent_spec(dir).unwrap();
    let opening = WalkView { from: dir, asked: above, forward: false, opening: true };
    assert(prev_start(dir) == WalkStepView::Ask(opening));
    let after = opening.advance(subdirectories(host(above)));
    assert(walk_to_end(host, prev_start(dir), fuel) == walk_to_end(host, after, (fuel - 1) as nat));
    lemma_walk_stays(host, WalkStepView::Exhausted, (fuel - 1) as nat);
    assert(readable(host, above));
    let list = subdirs(host, above);
    assert(subdirectories(host(above)) == Some(list));
    if dir == root {
        lemma_parent_shorter(root);
        assert(is_within(above, above));
        lemma_above_root(host, root, above);
    }
    assert(lists(host, above, dir));
    let own = choose|own: int| 0 <= own < list.len() && list[own] == dir;
    lemma_last_before_own(list, own);
    if own == 0 {
        assert(after == WalkStepView::Found(above));
        lemma_walk_stays(host, after, (fuel - 1) as nat);
        let first = WalkView { from: above, asked: above, forward: true, opening: true };
        assert(next_start(above) == WalkStepView::Ask(first));
        assert(first.advance(subdirectories(host(above))) == WalkStepView::Found(dir));
        lemma_walk_stays(host, WalkStepView::Found(dir), 0);
        assert(walk_to_end(host, next_start(prev), 1) == WalkStepView::Found(dir));
    } else {
        let beside = list[own - 1];
        assert(after == descent(dir, beside));
        assert(lists(host, above, beside));
        lemma_descent_end(host, root, dir, beside, (fuel - 1) as nat, prev);
        let first = WalkView { from: prev, asked: prev, forward: true, opening: true };
        assert(next_start(prev) == WalkStepView::Ask(first));
        assert(first.advance(subdirectories(host(prev))) == climb(prev));
        assert(walk_to_end(host, next_start(prev), 1) == climb(prev)) by {
            assert(walk_to_end(host, climb(prev), 0) == climb(prev));
        }
        let steps = lemma_climb_chain(host, root, beside, prev);
        lemma_first_after_own(list, own - 1);
        let up = WalkView { from: beside, asked: above, forward: true, opening: false };
        assert(climb(beside) == WalkStepView::Ask(up));
        assert(up.advance(subdirectories(host(above))) == WalkStepView::Found(dir));
        lemma_walk_stays(host, WalkStepView::Found(dir), 0);
        assert(walk_to_end(host, climb(beside), 1) == WalkStepView::Found(dir));
        lemma_walk_split(host, climb(prev), steps, 1);
        lemma_walk_split(host, next_start(prev), 1, steps + 1);
        assert(walk_to_end(host, next_start(prev), 1 + (steps + 1)) == WalkStepView::Found(dir));
    }
}

/// On a tree at rest a walk is undone by the walk the other way: where the
/// walk from `dir` ends at a directory, that directory can be read, and the
/// walk the other way from it ends at `dir`.
pub proof fn lemma_walk_undone(
    host: Host,
    root: Seq<char>,
    forward: bool,
    dir: Seq<char>,
    next: Seq<char>,
)
    requires
        well_formed(host, root),
        readable(host, dir),
        walk_finds(host, start(forward, dir), next),
    ensures
        walk_finds(host, start(!forward, next), dir),
        readable(host, next),
{
    if forward {
        lemma_prev_undoes_next(host, root, dir, next);
    } else {
        lemma_next_undoes_prev(host, root, dir, next);
    }
}

} // verus!
