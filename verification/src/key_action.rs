//! What the keys of the viewer do.
//!
//! A keymap binds keys to actions. It is made from a list of keys with the
//! names of their actions, of which it keeps those whose name is known.

use vstd::prelude::*;
use vstd::string::StringExecFns;
use crate::text::{lemma_lt_irreflexive, lemma_lt_total, sorts_before};

verus! {

/// What a key can do.
#[derive(Clone, Copy, Debug, PartialEq, Eq)]
pub enum KeyAction {
    NextImage,
    PrevImage,
    NextDirectory,
    PrevDirectory,
    Quit,
}

/// The name of an action.
pub open spec fn name_of(action: KeyAction) -> Seq<char> {
    match action {
        KeyAction::NextImage => "NEXT_IMAGE"@,
        KeyAction::PrevImage => "PREV_IMAGE"@,
        KeyAction::NextDirectory => "NEXT_DIRECTORY"@,
        KeyAction::PrevDirectory => "PREV_DIRECTORY"@,
        KeyAction::Quit => "QUIT"@,
    }
}

/// The action that goes by `name`: the first of the five whose name it is.
pub open spec fn named(name: Seq<char>) -> Option<KeyAction> {
    if name == name_of(KeyAction::NextImage) {
        Some(KeyAction::NextImage)
    } else if name == name_of(KeyAction::PrevImage) {
        Some(KeyAction::PrevImage)
    } else if name == name_of(KeyAction::NextDirectory) {
        Some(KeyAction::NextDirectory)
    } else if name == name_of(KeyAction::PrevDirectory) {
        Some(KeyAction::PrevDirectory)
    } else if name == name_of(KeyAction::Quit) {
        Some(KeyAction::Quit)
    } else {
        None
    }
}

/// The keys of `keyset` whose action is known, each with its action, in the
/// order of `keyset`.
pub open spec fn bindings(keyset: Seq<(String, String)>) -> Seq<(Seq<char>, KeyAction)>
    decreases keyset.len(),
{
    if keyset.len() == 0 {
        Seq::empty()
    } else {
        let rest = bindings(keyset.drop_last());
        match named(keyset.last().1@) {
            Some(action) => rest.push((keyset.last().0@, action)),
            None => rest,
        }
    }
}

/// A keymap as plain values.
pub open spec fn bound(keymap: Seq<(String, KeyAction)>) -> Seq<(Seq<char>, KeyAction)> {
    Seq::new(keymap.len(), |i: int| (keymap[i].0@, keymap[i].1))
}

/// The action of the first binding of `key` in `list`.
pub open spec fn action_of(list: Seq<(Seq<char>, KeyAction)>, key: Seq<char>) -> Option<KeyAction>
    decreases list.len(),
{
    if list.len() == 0 {
        None
    } else if list.first().0 == key {
        Some(list.first().1)
    } else {
        action_of(list.drop_first(), key)
    }
}

/// Whether `a` and `b` are the same text.
fn same(a: &str, b: &str) -> (r: bool)
    ensures
        r == (a@ == b@),
{
    proof {
        lemma_lt_total(a@, b@);
        lemma_lt_irreflexive(a@);
    }
    !sorts_before(a, b) && !sorts_before(b, a)
}

impl KeyAction {
    /// The name of the action.
    pub fn as_string(self) -> (name: String)
        ensures
            name@ == name_of(self),
    {
        match self {
            KeyAction::NextImage => String::from_str("NEXT_IMAGE"),
            KeyAction::PrevImage => String::from_str("PREV_IMAGE"),
            KeyAction::NextDirectory => String::from_str("NEXT_DIRECTORY"),
            KeyAction::PrevDirectory => String::from_str("PREV_DIRECTORY"),
            KeyAction::Quit => String::from_str("QUIT"),
        }
    }

    /// The action that goes by `name`, if there is one.
    pub fn from_name(name: &str) -> (action: Option<KeyAction>)
        ensures
            action == named(name@),
    {
        if same(name, "NEXT_IMAGE") {
            Some(KeyAction::NextImage)
        } else if same(name, "PREV_IMAGE") {
            Some(KeyAction::PrevImage)
        } else if same(name, "NEXT_DIRECTORY") {
            Some(KeyAction::NextDirectory)
        } else if same(name, "PREV_DIRECTORY") {
            Some(KeyAction::PrevDirectory)
        } else if same(name, "QUIT") {
            Some(KeyAction::Quit)
        } else {
            None
        }
    }
}

/// The keymap for `keyset`, a list of keys with the names of their actions.
pub fn create_keymap(keyset: &Vec<(String, String)>) -> (keymap: Vec<(String, KeyAction)>)
    ensures
        bound(keymap@) == bindings(keyset@),
{
    let mut keymap: Vec<(String, KeyAction)> = Vec::new();
    let mut i: usize = 0;
    proof {
        assert(keyset@.take(0) =~= Seq::empty());
        assert(bound(keymap@) =~= Seq::empty());
    }
    while i < keyset.len()
        invariant
            i <= keyset.len(),
            bound(keymap@) == bindings(keyset@.take(i as int)),
        decreases keyset.len() - i,
    {
        let ghost before = bound(keymap@);
        proof {
            assert(keyset@.take(i + 1).drop_last() =~= keyset@.take(i as int));
            assert(keyset@.take(i + 1).last() == keyset@[i as int]);
        }
        match KeyAction::from_name(keyset[i].1.as_str()) {
            Some(action) => {
                keymap.push((keyset[i].0.clone(), action));
                assert(bound(keymap@) =~= before.push((keyset@[i as int].0@, action)));
            },
            None => {},
        }
        i = i + 1;
    }
    assert(keyset@.take(i as int) =~= keyset@);
    keymap
}

/// What `key` does by `keymap`: the action of its first binding.
pub fn lookup(keymap: &Vec<(String, KeyAction)>, key: &str) -> (action: Option<KeyAction>)
    ensures
        action == action_of(bound(keymap@), key@),
{
    let mut i: usize = 0;
    proof {
        assert(bound(keymap@).skip(0) =~= bound(keymap@));
    }
    while i < keymap.len()
        invariant
            i <= keymap.len(),
            action_of(bound(keymap@), key@) == action_of(bound(keymap@).skip(i as int), key@),
        decreases keymap.len() - i,
    {
        if same(keymap[i].0.as_str(), key) {
            return Some(keymap[i].1);
        }
        proof {
            assert(bound(keymap@).skip(i as int).drop_first() =~= bound(keymap@).skip(i + 1));
        }
        i = i + 1;
    }
    None
}

} // verus!
