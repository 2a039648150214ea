//! Paths as strings: their order, and the parts of a path.
//!
//! A path is a string whose components are separated by `/`. Paths are ordered
//! character by character, by Unicode scalar value; that is the order of their
//! UTF-8 bytes.
//!
//! Paths are taken in normal form: `/` is the only separator, no two
//! separators stand side by side, and none stands at the end of a path but
//! in `/` itself. The parts of a path are cut at its last separator as it
//! stands, so a host whose paths are written otherwise brings them into this
//! form before it hands them in.

use vstd::prelude::*;
use vstd::std_specs::iter::IteratorSpec;

verus! {

/// `a` sorts strictly before `b`: at the first position where the two differ
/// `a` holds the smaller character, or `a` ends there and `b` does not.
pub open spec fn path_lt(a: Seq<char>, b: Seq<char>) -> bool
    decreases a.len(),
{
    if b.len() == 0 {
        false
    } else if a.len() == 0 {
        true
    } else if a[0] != b[0] {
        a[0] < b[0]
    } else {
        path_lt(a.drop_first(), b.drop_first())
    }
}

/// `a` sorts before `b` or equals it.
pub open spec fn path_le(a: Seq<char>, b: Seq<char>) -> bool {
    a == b || path_lt(a, b)
}

/// The order of paths as a relation.
pub open spec fn path_order() -> spec_fn(Seq<char>, Seq<char>) -> bool {
    |a: Seq<char>, b: Seq<char>| path_le(a, b)
}

/// The strings of a list, each as a sequence of characters.
pub open spec fn views(list: Seq<String>) -> Seq<Seq<char>> {
    Seq::new(list.len(), |i: int| list[i]@)
}

/// The position of the last `c` in `s`, or -1 where `s` holds none.
pub open spec fn last_index_of(s: Seq<char>, c: char) -> int
    decreases s.len(),
{
    if s.len() == 0 {
        -1
    } else if s.last() == c {
        s.len() - 1
    } else {
        last_index_of(s.drop_last(), c)
    }
}

/// The directory that holds `path`: what stands before its last separator.
///
/// A bare name lies in the empty path, a name directly below the root lies in
/// `/`, and neither the empty path nor `/` lies in anything.
pub open spec fn parent_spec(path: Seq<char>) -> Option<Seq<char>> {
    let cut = last_index_of(path, '/');
    if path.len() == 0 {
        None
    } else if cut < 0 {
        Some(Seq::empty())
    } else if cut > 0 {
        Some(path.take(cut))
    } else if path.len() == 1 {
        None
    } else {
        Some(path.take(1))
    }
}

/// The last component of `path`: what stands behind its last separator.
pub open spec fn name_spec(path: Seq<char>) -> Seq<char> {
    path.skip(last_index_of(path, '/') + 1)
}

/// The extension of `path`: what stands behind the last dot of its name.
/// A name without a dot has none, nor has one whose only dot comes first.
pub open spec fn extension_spec(path: Seq<char>) -> Option<Seq<char>> {
    let name = name_spec(path);
    let dot = last_index_of(name, '.');
    if dot <= 0 {
        None
    } else {
        Some(name.skip(dot + 1))
    }
}

/// `c` with an ASCII capital letter replaced by its small letter.
pub open spec fn fold_char(c: char) -> char {
    if 'A' <= c <= 'Z' {
        ((c as u8 + 32) as u8) as char
    } else {
        c
    }
}

/// `s` with every ASCII capital letter replaced by its small letter.
pub open spec fn fold_case(s: Seq<char>) -> Seq<char> {
    Seq::new(s.len(), |i: int| fold_char(s[i]))
}

/// No path sorts before itself.
pub proof fn lemma_lt_irreflexive(a: Seq<char>)
    ensures
        !path_lt(a, a),
    decreases a.len(),
{
    if a.len() > 0 {
        lemma_lt_irreflexive(a.drop_first());
    }
}

/// The order is transitive.
pub proof fn lemma_lt_transitive(a: Seq<char>, b: Seq<char>, c: Seq<char>)
    requires
        path_lt(a, b),
        path_lt(b, c),
    ensures
        path_lt(a, c),
    decreases a.len(),
{
    if a.len() > 0 && a[0] == b[0] && b[0] == c[0] {
        lemma_lt_transitive(a.drop_first(), b.drop_first(), c.drop_first());
    }
}

/// Of two different paths one sorts before the other.
pub proof fn lemma_lt_total(a: Seq<char>, b: Seq<char>)
    ensures
        a == b || path_lt(a, b) || path_lt(b, a),
    decreases a.len(),
{
    if a.len() > 0 && b.len() > 0 && a[0] == b[0] {
        lemma_lt_total(a.drop_first(), b.drop_first());
        if a.drop_first() == b.drop_first() {
            assert(a.len() == a.drop_first().len() + 1);
            assert(b.len() == b.drop_first().len() + 1);
            assert forall|i: int| 0 <= i < a.len() implies a[i] == b[i] by {
                if i > 0 {
                    assert(a[i] == a.drop_first()[i - 1]);
                    assert(b[i] == b.drop_first()[i - 1]);
                }
            }
            assert(a =~= b);
        }
    } else if a.len() == 0 && b.len() == 0 {
        assert(a =~= b);
    }
}

/// No two paths sort before each other.
pub proof fn lemma_lt_asymmetric(a: Seq<char>, b: Seq<char>)
    requires
        path_lt(a, b),
    ensures
        !path_lt(b, a),
{
    if path_lt(b, a) {
        lemma_lt_transitive(a, b, a);
        lemma_lt_irreflexive(a);
    }
}

/// The order of paths is total.
pub proof fn lemma_path_order_total()
    ensures
        vstd::relations::total_ordering(path_order()),
{
    let r = path_order();
    assert forall|x: Seq<char>, y: Seq<char>| #[trigger] r(x, y) && #[trigger] r(y, x) implies x
        == y by {
        if x != y {
            lemma_lt_asymmetric(x, y);
        }
    }
    assert forall|x: Seq<char>, y: Seq<char>, z: Seq<char>| #[trigger]
        r(x, y) && #[trigger] r(y, z) implies r(x, z) by {
        if x != y && y != z {
            lemma_lt_transitive(x, y, z);
        }
    }
    assert forall|x: Seq<char>, y: Seq<char>| #[trigger] r(x, y) || #[trigger] r(y, x) by {
        lemma_lt_total(x, y);
    }
}

/// A path sorts after each of its proper prefixes.
pub proof fn lemma_prefix_lt(a: Seq<char>, b: Seq<char>)
    requires
        a.len() < b.len(),
        a == b.take(a.len() as int),
    ensures
        path_lt(a, b),
    decreases a.len(),
{
    if a.len() > 0 {
        assert(a[0] == b.take(a.len() as int)[0]);
        assert(a.drop_first() =~= b.drop_first().take(a.len() - 1));
        lemma_prefix_lt(a.drop_first(), b.drop_first());
    }
}

/// A position found by `last_index_of` holds the character, and no later one does.
pub proof fn lemma_last_index_of(s: Seq<char>, c: char)
    ensures
        -1 <= last_index_of(s, c) < s.len(),
        last_index_of(s, c) >= 0 ==> s[last_index_of(s, c)] == c,
        forall|i: int| last_index_of(s, c) < i < s.len() ==> s[i] != c,
    decreases s.len(),
{
    if s.len() > 0 && s.last() != c {
        lemma_last_index_of(s.drop_last(), c);
        assert forall|i: int| last_index_of(s, c) < i < s.len() implies s[i] != c by {
            if i < s.len() - 1 {
                assert(s[i] == s.drop_last()[i]);
            }
        }
    }
}

/// Where the last `c` of `s` lies once the first `k` characters are dropped.
pub proof fn lemma_last_index_skip(s: Seq<char>, k: int, c: char)
    requires
        0 <= k <= s.len(),
    ensures
        last_index_of(s.skip(k), c) == if last_index_of(s, c) >= k {
            last_index_of(s, c) - k
        } else {
            -1
        },
    decreases s.len(),
{
    lemma_last_index_of(s, c);
    if k < s.len() {
        assert(s.skip(k).last() == s.last());
        if s.last() != c {
            assert(s.skip(k).drop_last() =~= s.drop_last().skip(k));
            lemma_last_index_skip(s.drop_last(), k, c);
        }
    }
}

/// The directory that holds a path is shorter than the path.
pub proof fn lemma_parent_shorter(path: Seq<char>)
    ensures
        parent_spec(path) matches Some(p) ==> p.len() < path.len(),
{
    lemma_last_index_of(path, '/');
}

/// Whether `a` sorts strictly before `b`.
pub fn sorts_before(a: &str, b: &str) -> (r: bool)
    ensures
        r == path_lt(a@, b@),
{
    let mut left = a.chars();
    let mut right = b.chars();
    loop
        invariant
            path_lt(a@, b@) == path_lt(left.remaining(), right.remaining()),
            left.decrease() is Some,
        decreases left.decrease()->0,
    {
        let x = left.next();
        let y = right.next();
        match (x, y) {
            (_, None) => {
                return false;
            },
            (None, Some(_)) => {
                return true;
            },
            (Some(c), Some(d)) => {
                if c != d {
                    return c < d;
                }
            },
        }
    }
}

/// The characters of `s`, one by one.
pub fn chars_of(s: &str) -> (v: Vec<char>)
    ensures
        v@ == s@,
{
    let mut v: Vec<char> = Vec::new();
    let mut rest = s.chars();
    loop
        invariant
            v@ + rest.remaining() == s@,
            rest.decrease() is Some,
        decreases rest.decrease()->0,
    {
        match rest.next() {
            Some(c) => {
                proof {
                    assert(v@.push(c) + rest.remaining() =~= v@ + (seq![c] + rest.remaining()));
                }
                v.push(c);
            },
            None => {
                assert(v@ + rest.remaining() =~= v@);
                return v;
            },
        }
    }
}

/// The position of the last `c` among the first `end` characters of `v`.
pub fn find_last(v: &Vec<char>, end: usize, c: char) -> (r: Option<usize>)
    requires
        end <= v.len(),
    ensures
        match r {
            Some(i) => i < end && i == last_index_of(v@.take(end as int), c),
            None => last_index_of(v@.take(end as int), c) == -1,
        },
{
    let mut i: usize = end;
    while i > 0
        invariant
            i <= end <= v.len(),
            last_index_of(v@.take(end as int), c) == last_index_of(v@.take(i as int), c),
        decreases i,
    {
        if v[i - 1] == c {
            return Some(i - 1);
        }
        assert(v@.take(i as int).drop_last() =~= v@.take(i - 1));
        i = i - 1;
    }
    None
}

/// The directory that holds `path`, if there is one.
pub fn parent_of(path: &str) -> (r: Option<String>)
    ensures
        match r {
            Some(p) => parent_spec(path@) == Some(p@),
            None => parent_spec(path@) is None,
        },
{
    let v = chars_of(path);
    assert(v@.take(v@.len() as int) =~= v@);
    if v.len() == 0 {
        return None;
    }
    match find_last(&v, v.len(), '/') {
        None => Some(String::new()),
        Some(cut) => {
            if cut > 0 {
                Some(path.substring_char(0, cut).to_owned())
            } else if v.len() == 1 {
                None
            } else {
                Some(path.substring_char(0, 1).to_owned())
            }
        },
    }
}

/// Where the name begins in the path whose characters are `v`.
pub fn name_start(v: &Vec<char>) -> (at: usize)
    ensures
        at <= v.len(),
        name_spec(v@) == v@.skip(at as int),
{
    proof {
        assert(v@.take(v@.len() as int) =~= v@);
        lemma_last_index_of(v@, '/');
    }
    match find_last(v, v.len(), '/') {
        Some(cut) => cut + 1,
        None => 0,
    }
}

/// Where the extension begins in the path whose characters are `v`, if it has one.
pub fn extension_start(v: &Vec<char>) -> (r: Option<usize>)
    ensures
        match r {
            Some(at) => at <= v.len() && extension_spec(v@) == Some(v@.skip(at as int)),
            None => extension_spec(v@) is None,
        },
{
    let start = name_start(v);
    proof {
        assert(v@.take(v@.len() as int) =~= v@);
        lemma_last_index_skip(v@, start as int, '.');
    }
    match find_last(v, v.len(), '.') {
        Some(dot) => {
            if dot <= start {
                None
            } else {
                assert(name_spec(v@).skip(dot - start + 1) =~= v@.skip(dot + 1));
                Some(dot + 1)
            }
        },
        None => None,
    }
}

/// Whether what `v` holds from `from` on equals `word`, letter case aside.
pub fn same_folded(v: &Vec<char>, from: usize, word: &str) -> (r: bool)
    requires
        from <= v.len(),
    ensures
        r == (fold_case(v@.skip(from as int)) == fold_case(word@)),
{
    let mut rest = word.chars();
    let mut i: usize = from;
    let ghost tail = v@.skip(from as int);
    loop
        invariant
            from <= i <= v.len(),
            tail == v@.skip(from as int),
            i - from + rest.remaining().len() == word@.len(),
            rest.remaining() == word@.skip(i - from),
            forall|k: int| 0 <= k < i - from ==> fold_char(tail[k]) == fold_char(word@[k]),
            rest.decrease() is Some,
        decreases rest.decrease()->0,
    {
        match rest.next() {
            None => {
                proof {
                    if i == v.len() {
                        assert(fold_case(tail) =~= fold_case(word@));
                    } else {
                        assert(fold_case(tail).len() != fold_case(word@).len());
                    }
                }
                return i == v.len();
            },
            Some(c) => {
                assert(c == word@[i - from]);
                if i >= v.len() {
                    assert(fold_case(tail).len() != fold_case(word@).len());
                    return false;
                }
                if fold(v[i]) != fold(c) {
                    assert(fold_case(tail)[i - from] != fold_case(word@)[i - from]);
                    return false;
                }
                assert(rest.remaining() =~= word@.skip(i + 1 - from));
                i = i + 1;
            },
        }
    }
}

/// `c` with an ASCII capital letter replaced by its small letter.
pub fn fold(c: char) -> (r: char)
    ensures
        r == fold_char(c),
{
    if 'A' <= c && c <= 'Z' {
        ((c as u8) + 32) as char
    } else {
        c
    }
}

} // verus!
