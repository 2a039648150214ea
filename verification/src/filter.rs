//! Which files a cursor stops at.

use vstd::prelude::*;
use crate::glob::{glob_match, glob_matches};
use crate::text::{
    chars_of, extension_spec, extension_start, fold_case, name_spec, name_start, same_folded, views,
};

verus! {

/// The rule by which a file is eligible.
#[derive(Debug)]
pub enum FilterSpec {
    /// The file's extension is one of these, whatever the case of its ASCII letters.
    Extensions(Vec<String>),
    /// The file's name matches this shell pattern.
    Glob(String),
}

/// A `FilterSpec` as plain sequences.
pub enum FilterView {
    Extensions(Seq<Seq<char>>),
    Glob(Seq<char>),
}

impl View for FilterSpec {
    type V = FilterView;

    open spec fn view(&self) -> FilterView {
        match self {
            FilterSpec::Extensions(list) => FilterView::Extensions(views(list@)),
            FilterSpec::Glob(pattern) => FilterView::Glob(pattern@),
        }
    }
}

/// Whether `extension` is one of `list`, letter case aside.
pub open spec fn lists_extension(list: Seq<Seq<char>>, extension: Seq<char>) -> bool {
    exists|i: int| 0 <= i < list.len() && fold_case(#[trigger] list[i]) == fold_case(extension)
}

impl FilterView {
    /// Whether the file at `path` is eligible.
    pub open spec fn accepts(self, path: Seq<char>) -> bool {
        match self {
            FilterView::Extensions(list) => match extension_spec(path) {
                Some(extension) => lists_extension(list, extension),
                None => false,
            },
            FilterView::Glob(pattern) => glob_matches(pattern, name_spec(path)),
        }
    }
}

/// Whether what `v` holds from `from` on is one of `list`, letter case aside.
fn lists_tail(list: &Vec<String>, v: &Vec<char>, from: usize) -> (r: bool)
    requires
        from <= v.len(),
    ensures
        r == lists_extension(views(list@), v@.skip(from as int)),
{
    let mut i: usize = 0;
    while i < list.len()
        invariant
            i <= list.len(),
            from <= v.len(),
            forall|k: int|
                0 <= k < i ==> fold_case(#[trigger] views(list@)[k]) != fold_case(
                    v@.skip(from as int),
                ),
        decreases list.len() - i,
    {
        if same_folded(v, from, list[i].as_str()) {
            assert(fold_case(views(list@)[i as int]) == fold_case(v@.skip(from as int)));
            return true;
        }
        i = i + 1;
    }
    false
}

/// What `v` holds from `from` on.
fn tail_of(v: &Vec<char>, from: usize) -> (tail: Vec<char>)
    requires
        from <= v.len(),
    ensures
        tail@ == v@.skip(from as int),
{
    let mut tail: Vec<char> = Vec::new();
    let mut i: usize = from;
    while i < v.len()
        invariant
            from <= i <= v.len(),
            tail@ == v@.subrange(from as int, i as int),
        decreases v.len() - i,
    {
        tail.push(v[i]);
        assert(tail@ =~= v@.subrange(from as int, i + 1));
        i = i + 1;
    }
    assert(tail@ =~= v@.skip(from as int));
    tail
}

impl FilterSpec {
    /// Whether the file at `path` is eligible.
    pub fn accepts(&self, path: &str) -> (r: bool)
        ensures
            r == self@.accepts(path@),
    {
        let v = chars_of(path);
        match self {
            FilterSpec::Glob(pattern) => {
                let p = chars_of(pattern.as_str());
                let name = tail_of(&v, name_start(&v));
                glob_match(&p, &name)
            },
            FilterSpec::Extensions(list) => match extension_start(&v) {
                Some(at) => lists_tail(list, &v, at),
                None => false,
            },
        }
    }
}

} // verus!
