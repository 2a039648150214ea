//! The listing of one directory, and the walk from one directory to the next.
//!
//! The host reads a directory and hands in what it found, entry by entry and
//! in any order. The listing keeps the entries wanted and puts them in path
//! order.

use vstd::prelude::*;
use vstd::relations::sorted_by;
use vstd::seq_lib::lemma_sorted_unique;
use crate::filter::{FilterSpec, FilterView};
use crate::text::{
    lemma_lt_total, lemma_lt_transitive, lemma_path_order_total, parent_of, parent_spec, path_le,
    path_lt, path_order, sorts_before, views,
};

verus! {

/// What kind of thing a directory entry is.
#[derive(Clone, Copy, Debug, PartialEq, Eq)]
pub enum EntryKind {
    File,
    Directory,
    Other,
}

/// One entry of a directory, as the host read it.
#[derive(Debug)]
pub struct DirEntry {
    /// The full path of the entry.
    pub path: String,
    pub kind: EntryKind,
}

/// What the host got when it read a directory: its entries, or the message of
/// the error that kept it from reading them.
pub type Reading = Result<Vec<DirEntry>, String>;

/// The paths of the entries that `pick` holds, in the order of the entries.
pub open spec fn chosen(entries: Seq<DirEntry>, pick: spec_fn(DirEntry) -> bool) -> Seq<Seq<char>>
    decreases entries.len(),
{
    if entries.len() == 0 {
        Seq::empty()
    } else if pick(entries.last()) {
        chosen(entries.drop_last(), pick).push(entries.last().path@)
    } else {
        chosen(entries.drop_last(), pick)
    }
}

/// The paths of the regular files among `entries` that `filter` accepts.
pub open spec fn file_paths(entries: Seq<DirEntry>, filter: FilterView) -> Seq<Seq<char>> {
    chosen(entries, |e: DirEntry| e.kind is File && filter.accepts(e.path@))
}

/// The paths of the directories among `entries`.
pub open spec fn directory_paths(entries: Seq<DirEntry>) -> Seq<Seq<char>> {
    chosen(entries, |e: DirEntry| e.kind is Directory)
}

/// `paths` in path order.
pub open spec fn listing(paths: Seq<Seq<char>>) -> Seq<Seq<char>> {
    paths.sort_by(path_order())
}

/// A listing is in path order and holds each path as often as what it was made from.
pub proof fn lemma_listing(paths: Seq<Seq<char>>)
    ensures
        sorted_by(listing(paths), path_order()),
        listing(paths).to_multiset() == paths.to_multiset(),
        listing(paths).len() == paths.len(),
{
    lemma_path_order_total();
    paths.lemma_sort_by_ensures(path_order());
    vstd::seq_lib::to_multiset_len(paths);
    vstd::seq_lib::to_multiset_len(listing(paths));
}

/// Paths in path order that hold each of `paths` as often as `paths` does are its listing.
pub proof fn lemma_listing_unique(sorted: Seq<Seq<char>>, paths: Seq<Seq<char>>)
    requires
        sorted_by(sorted, path_order()),
        sorted.to_multiset() == paths.to_multiset(),
    ensures
        sorted == listing(paths),
{
    lemma_listing(paths);
    lemma_path_order_total();
    lemma_sorted_unique(sorted, listing(paths), path_order());
}

/// The place of `path` among `sorted`: behind every path that sorts before it
/// and before every other.
fn place_of(sorted: &Vec<String>, path: &str) -> (at: usize)
    requires
        sorted_by(views(sorted@), path_order()),
    ensures
        at <= sorted.len(),
        forall|k: int| 0 <= k < at ==> path_lt(#[trigger] views(sorted@)[k], path@),
        forall|k: int| at <= k < sorted.len() ==> !path_lt(#[trigger] views(sorted@)[k], path@),
{
    let ghost list = views(sorted@);
    let mut low: usize = 0;
    let mut high: usize = sorted.len();
    while low < high
        invariant
            low <= high <= sorted.len(),
            list == views(sorted@),
            sorted_by(list, path_order()),
            forall|k: int| 0 <= k < low ==> path_lt(#[trigger] list[k], path@),
            forall|k: int| high <= k < sorted.len() ==> !path_lt(#[trigger] list[k], path@),
        decreases high - low,
    {
        let middle = low + (high - low) / 2;
        if sorts_before(sorted[middle].as_str(), path) {
            proof {
                assert forall|k: int| 0 <= k <= middle implies path_lt(#[trigger] list[k], path@) by {
                    if k < middle {
                        assert(path_order()(list[k], list[middle as int]));
                        if list[k] != list[middle as int] {
                            lemma_lt_transitive(list[k], list[middle as int], path@);
                        }
                    }
                }
            }
            low = middle + 1;
        } else {
            proof {
                assert forall|k: int| middle <= k < sorted.len() implies !path_lt(
                    #[trigger] list[k],
                    path@,
                ) by {
                    if k > middle && path_lt(list[k], path@) {
                        assert(path_order()(list[middle as int], list[k]));
                        if list[middle as int] != list[k] {
                            lemma_lt_transitive(list[middle as int], list[k], path@);
                        }
                    }
                }
            }
            high = middle;
        }
    }
    low
}

/// `paths` in path order: each path as often as `paths` holds it, and none
/// before a path that sorts before it.
pub fn sort_by_path(paths: Vec<String>) -> (sorted: Vec<String>)
    ensures
        views(sorted@) == listing(views(paths@)),
        sorted_by(views(sorted@), path_order()),
        views(sorted@).to_multiset() == views(paths@).to_multiset(),
{
    let ghost all = views(paths@);
    let mut rest = paths;
    let mut sorted: Vec<String> = Vec::new();
    proof {
        assert(views(sorted@) =~= Seq::empty());
        broadcast use vstd::seq_lib::group_to_multiset_ensures;
        assert(views(sorted@).to_multiset().add(views(rest@).to_multiset()) =~= all.to_multiset());
    }
    while rest.len() > 0
        invariant
            sorted_by(views(sorted@), path_order()),
            views(sorted@).to_multiset().add(views(rest@).to_multiset()) == all.to_multiset(),
        decreases rest.len(),
    {
        let ghost before = views(rest@);
        let ghost placed = views(sorted@);
        let path = rest.pop().unwrap();
        proof {
            assert(before =~= views(rest@).push(path@));
            vstd::seq_lib::to_multiset_build(views(rest@), path@);
        }
        let at = place_of(&sorted, path.as_str());
        sorted.insert(at, path);
        proof {
            let now = views(sorted@);
            assert(now =~= placed.insert(at as int, path@));
            vstd::seq_lib::to_multiset_insert(placed, at as int, path@);
            assert(now.to_multiset().add(views(rest@).to_multiset()) =~= all.to_multiset());
            assert forall|i: int, j: int| 0 <= i < j < now.len() implies #[trigger] path_le(
                now[i],
                now[j],
            ) by {
                if j == at {
                    assert(path_lt(placed[i], path@));
                } else if i == at {
                    assert(!path_lt(placed[j - 1], path@));
                    lemma_lt_total(placed[j - 1], path@);
                } else {
                    let a = if i < at { i } else { i - 1 };
                    let b = if j < at { j } else { j - 1 };
                    assert(path_order()(placed[a], placed[b]));
                }
            }
            assert(sorted_by(now, path_order()));
        }
    }
    proof {
        assert(views(rest@) =~= Seq::empty());
        assert(views(rest@).to_multiset() =~= vstd::multiset::Multiset::empty()) by {
            broadcast use vstd::seq_lib::group_to_multiset_ensures;
        }
        assert(views(sorted@).to_multiset() =~= all.to_multiset());
        lemma_listing_unique(views(sorted@), all);
    }
    sorted
}

/// The regular files among `entries` that `filter` accepts, in path order.
///
/// Every entry counts, so a path that stands twice among them stands twice in
/// the result.
pub fn get_child_files(entries: &Vec<DirEntry>, filter: &FilterSpec) -> (files: Vec<String>)
    ensures
        views(files@) == listing(file_paths(entries@, filter@)),
        sorted_by(views(files@), path_order()),
        views(files@).to_multiset() == file_paths(entries@, filter@).to_multiset(),
{
    let ghost pick = |e: DirEntry| e.kind is File && filter@.accepts(e.path@);
    let mut found: Vec<String> = Vec::new();
    let mut i: usize = 0;
    proof {
        assert(entries@.take(0) =~= Seq::empty());
        assert(views(found@) =~= Seq::empty());
    }
    while i < entries.len()
        invariant
            i <= entries.len(),
            pick == (|e: DirEntry| e.kind is File && filter@.accepts(e.path@)),
            views(found@) == chosen(entries@.take(i as int), pick),
        decreases entries.len() - i,
    {
        let ghost before = views(found@);
        proof {
            assert(entries@.take(i + 1).drop_last() =~= entries@.take(i as int));
            assert(entries@.take(i + 1).last() == entries@[i as int]);
        }
        let is_file = match entries[i].kind {
            EntryKind::File => true,
            _ => false,
        };
        if is_file && filter.accepts(entries[i].path.as_str()) {
            found.push(entries[i].path.clone());
            assert(views(found@) =~= before.push(entries@[i as int].path@));
        }
        i = i + 1;
    }
    assert(entries@.take(i as int) =~= entries@);
    sort_by_path(found)
}

/// The directories among `entries`, in path order.
pub fn get_child_directories(entries: &Vec<DirEntry>) -> (directories: Vec<String>)
    ensures
        views(directories@) == listing(directory_paths(entries@)),
        sorted_by(views(directories@), path_order()),
        views(directories@).to_multiset() == directory_paths(entries@).to_multiset(),
{
    let ghost pick = |e: DirEntry| e.kind is Directory;
    let mut found: Vec<String> = Vec::new();
    let mut i: usize = 0;
    proof {
        assert(entries@.take(0) =~= Seq::empty());
        assert(views(found@) =~= Seq::empty());
    }
    while i < entries.len()
        invariant
            i <= entries.len(),
            pick == (|e: DirEntry| e.kind is Directory),
            views(found@) == chosen(entries@.take(i as int), pick),
        decreases entries.len() - i,
    {
        let ghost before = views(found@);
        proof {
            assert(entries@.take(i + 1).drop_last() =~= entries@.take(i as int));
            assert(entries@.take(i + 1).last() == entries@[i as int]);
        }
        let is_directory = match entries[i].kind {
            EntryKind::Directory => true,
            _ => false,
        };
        if is_directory {
            found.push(entries[i].path.clone());
            assert(views(found@) =~= before.push(entries@[i as int].path@));
        }
        i = i + 1;
    }
    assert(entries@.take(i as int) =~= entries@);
    sort_by_path(found)
}

/// A walk from one directory to the one that follows it, or to the one that
/// precedes it, in depth-first order. It knows the directory it comes from
/// and the directory whose subdirectories it has to see next.
#[derive(Debug)]
pub struct Walk {
    from: String,
    asked: String,
    forward: bool,
    opening: bool,
}

/// A `Walk` as plain values.
pub struct WalkView {
    /// The directory the walk comes from: the one it started from or, once a
    /// walk forward climbs, the one it climbed from last.
    pub from: Seq<char>,
    /// The directory whose subdirectories the walk has to see next.
    pub asked: Seq<char>,
    /// Whether the walk looks for the directory that follows.
    pub forward: bool,
    /// Whether the walk has seen no directory yet.
    pub opening: bool,
}

impl View for Walk {
    type V = WalkView;

    closed spec fn view(&self) -> WalkView {
        WalkView {
            from: self.from@,
            asked: self.asked@,
            forward: self.forward,
            opening: self.opening,
        }
    }
}

/// Where a walk stands after a step.
#[derive(Debug)]
pub enum WalkStep {
    /// The walk has to see the subdirectories of one more directory.
    Ask(Walk),
    /// The walk ended at this directory.
    Found(String),
    /// There is no further directory in the direction of the walk.
    Exhausted,
}

/// A `WalkStep` as plain values.
pub enum WalkStepView {
    Ask(WalkView),
    Found(Seq<char>),
    Exhausted,
}

impl View for WalkStep {
    type V = WalkStepView;

    open spec fn view(&self) -> WalkStepView {
        match self {
            WalkStep::Ask(walk) => WalkStepView::Ask(walk@),
            WalkStep::Found(path) => WalkStepView::Found(path@),
            WalkStep::Exhausted => WalkStepView::Exhausted,
        }
    }
}

/// The subdirectories that a reading shows, in path order; none where the
/// directory could not be read.
pub open spec fn subdirectories(reading: Reading) -> Option<Seq<Seq<char>>> {
    match reading {
        Ok(entries) => Some(listing(directory_paths(entries@))),
        Err(_) => None,
    }
}

/// The first of `dirs` that sorts after `path`.
pub open spec fn first_after(dirs: Seq<Seq<char>>, path: Seq<char>) -> Option<Seq<char>>
    decreases dirs.len(),
{
    if dirs.len() == 0 {
        None
    } else if path_lt(path, dirs.first()) {
        Some(dirs.first())
    } else {
        first_after(dirs.drop_first(), path)
    }
}

/// The last of `dirs` that sorts before `path`.
pub open spec fn last_before(dirs: Seq<Seq<char>>, path: Seq<char>) -> Option<Seq<char>>
    decreases dirs.len(),
{
    if dirs.len() == 0 {
        None
    } else if path_lt(dirs.last(), path) {
        Some(dirs.last())
    } else {
        last_before(dirs.drop_last(), path)
    }
}

/// A walk forward that found nothing at `from` climbs: it goes on to ask the
/// directory that holds `from`, and ends where none does.
pub open spec fn climb(from: Seq<char>) -> WalkStepView {
    match parent_spec(from) {
        Some(above) => WalkStepView::Ask(
            WalkView { from, asked: above, forward: true, opening: false },
        ),
        None => WalkStepView::Exhausted,
    }
}

/// How the walk to the directory that follows `path` begins: with the
/// subdirectories of `path` itself.
pub open spec fn next_start(path: Seq<char>) -> WalkStepView {
    WalkStepView::Ask(WalkView { from: path, asked: path, forward: true, opening: true })
}

/// How the walk to the directory that precedes `path` begins: with the
/// subdirectories of the directory that holds `path`. Where none holds it
/// there is no such directory.
pub open spec fn prev_start(path: Seq<char>) -> WalkStepView {
    match parent_spec(path) {
        Some(above) => WalkStepView::Ask(
            WalkView { from: path, asked: above, forward: false, opening: true },
        ),
        None => WalkStepView::Exhausted,
    }
}

impl WalkView {
    /// The step that the walk takes on seeing `dirs`, the subdirectories of
    /// the directory it asked for, in path order (`None`: it could not be read).
    ///
    /// Forward, the first subdirectory of the directory the walk started from
    /// follows it. Where it has none, the walk climbs: it asks the directory
    /// that holds the one it comes from, and the first subdirectory there
    /// that sorts after the one it comes from is the directory that follows.
    /// Where there is none, or the directory cannot be read, the walk climbs
    /// on from the directory it asked.
    ///
    /// Backward, the walk looks among the subdirectories of the directory that
    /// holds the one it started from for the last that sorts before that one.
    /// Where there is none that directory itself precedes, and where it
    /// cannot be read nothing does. Otherwise the walk goes down from the one
    /// it found, always into the last subdirectory, and ends at the first
    /// directory that has none or cannot be read.
    pub open spec fn advance(self, dirs: Option<Seq<Seq<char>>>) -> WalkStepView {
        if self.forward {
            if self.opening {
                match dirs {
                    Some(list) if list.len() > 0 => WalkStepView::Found(list.first()),
                    _ => climb(self.from),
                }
            } else {
                match dirs {
                    Some(list) if first_after(list, self.from) is Some => WalkStepView::Found(
                        first_after(list, self.from).unwrap(),
                    ),
                    _ => climb(self.asked),
                }
            }
        } else {
            if self.opening {
                match dirs {
                    Some(list) => match last_before(list, self.from) {
                        Some(sibling) => WalkStepView::Ask(
                            WalkView { asked: sibling, opening: false, ..self },
                        ),
                        None => WalkStepView::Found(self.asked),
                    },
                    None => WalkStepView::Exhausted,
                }
            } else {
                match dirs {
                    Some(list) if list.len() > 0 => WalkStepView::Ask(
                        WalkView { asked: list.last(), ..self },
                    ),
                    _ => WalkStepView::Found(self.asked),
                }
            }
        }
    }
}

/// Begins the walk to the directory that follows `path` in depth-first order.
pub fn next_directory(path: &str) -> (step: WalkStep)
    ensures
        step@ == next_start(path@),
{
    WalkStep::Ask(
        Walk { from: path.to_owned(), asked: path.to_owned(), forward: true, opening: true },
    )
}

/// Begins the walk to the directory that precedes `path` in depth-first order.
pub fn prev_directory(path: &str) -> (step: WalkStep)
    ensures
        step@ == prev_start(path@),
{
    match parent_of(path) {
        Some(above) => WalkStep::Ask(
            Walk { from: path.to_owned(), asked: above, forward: false, opening: true },
        ),
        None => WalkStep::Exhausted,
    }
}

/// The first of `dirs` that sorts after `path`.
fn find_first_after(dirs: &Vec<String>, path: &str) -> (r: Option<String>)
    ensures
        match r {
            Some(found) => first_after(views(dirs@), path@) == Some(found@),
            None => first_after(views(dirs@), path@) is None,
        },
{
    let mut i: usize = 0;
    proof {
        assert(views(dirs@).skip(0) =~= views(dirs@));
    }
    while i < dirs.len()
        invariant
            i <= dirs.len(),
            first_after(views(dirs@), path@) == first_after(views(dirs@).skip(i as int), path@),
        decreases dirs.len() - i,
    {
        if sorts_before(path, dirs[i].as_str()) {
            return Some(dirs[i].clone());
        }
        proof {
            assert(views(dirs@).skip(i as int).drop_first() =~= views(dirs@).skip(i + 1));
        }
        i = i + 1;
    }
    None
}

/// The last of `dirs` that sorts before `path`.
fn find_last_before(dirs: &Vec<String>, path: &str) -> (r: Option<String>)
    ensures
        match r {
            Some(found) => last_before(views(dirs@), path@) == Some(found@),
            None => last_before(views(dirs@), path@) is None,
        },
{
    let mut i: usize = dirs.len();
    proof {
        assert(views(dirs@).take(i as int) =~= views(dirs@));
    }
    while i > 0
        invariant
            i <= dirs.len(),
            last_before(views(dirs@), path@) == last_before(views(dirs@).take(i as int), path@),
        decreases i,
    {
        if sorts_before(dirs[i - 1].as_str(), path) {
            return Some(dirs[i - 1].clone());
        }
        proof {
            assert(views(dirs@).take(i as int).drop_last() =~= views(dirs@).take(i - 1));
        }
        i = i - 1;
    }
    None
}

impl Walk {
    /// The directory whose entries the walk has to see next.
    pub fn target(&self) -> (dir: &String)
        ensures
            dir@ == self@.asked,
    {
        &self.asked
    }

    /// The step that the walk takes on seeing what the host read in the
    /// directory it asked for.
    pub fn resume(self, reading: &Reading) -> (step: WalkStep)
        ensures
            step@ == self@.advance(subdirectories(*reading)),
    {
        let dirs: Option<Vec<String>> = match reading {
            Ok(entries) => Some(get_child_directories(entries)),
            Err(_) => None,
        };
        if self.forward {
            let found = match &dirs {
                Some(list) => {
                    if self.opening {
                        if list.len() > 0 {
                            Some(list[0].clone())
                        } else {
                            None
                        }
                    } else {
                        find_first_after(list, self.from.as_str())
                    }
                },
                None => None,
            };
            match found {
                Some(dir) => WalkStep::Found(dir),
                None => {
                    let from = if self.opening {
                        self.from
                    } else {
                        self.asked
                    };
                    match parent_of(from.as_str()) {
                        Some(above) => WalkStep::Ask(
                            Walk { from, asked: above, forward: true, opening: false },
                        ),
                        None => WalkStep::Exhausted,
                    }
                },
            }
        } else if self.opening {
            match dirs {
                Some(list) => match find_last_before(&list, self.from.as_str()) {
                    Some(sibling) => WalkStep::Ask(
                        Walk { from: self.from, asked: sibling, forward: false, opening: false },
                    ),
                    None => WalkStep::Found(self.asked),
                },
                None => WalkStep::Exhausted,
            }
        } else {
            match dirs {
                Some(mut list) => match list.pop() {
                    Some(last) => WalkStep::Ask(
                        Walk { from: self.from, asked: last, forward: false, opening: false },
                    ),
                    None => WalkStep::Found(self.asked),
                },
                None => WalkStep::Found(self.asked),
            }
        }
    }
}

} // verus!
