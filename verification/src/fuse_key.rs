//! Fuse keys: the one or two cube names that fuse into a cube.
use vstd::prelude::*;
use vstd::string::StringExecFns;
use crate::text::{push_char, seq_lt, text_lt};

verus! {

/// A pair of cube names (kept in order, smaller first) or a single name.
/// Build pairs with `new_pair` so that both orders give the same key.
pub enum FuseKey {
    Pair(String, String),
    Single(String),
}

/// The value of a fuse key: its names as character sequences.
pub enum KeyView {
    Pair(Seq<char>, Seq<char>),
    Single(Seq<char>),
}

impl View for FuseKey {
    type V = KeyView;

    open spec fn view(&self) -> KeyView {
        match self {
            FuseKey::Pair(a, b) => KeyView::Pair(a@, b@),
            FuseKey::Single(a) => KeyView::Single(a@),
        }
    }
}

/// The pair key of two names, the smaller first.
pub open spec fn pair_key(a: Seq<char>, b: Seq<char>) -> KeyView {
    if seq_lt(a, b) {
        KeyView::Pair(a, b)
    } else {
        KeyView::Pair(b, a)
    }
}

/// `name` is one of the names of key `k`.
pub open spec fn key_mentions(k: KeyView, name: Seq<char>) -> bool {
    match k {
        KeyView::Pair(a, b) => a == name || b == name,
        KeyView::Single(a) => a == name,
    }
}

/// `n`, or `to` where `n` is `old_name`.
pub open spec fn renamed(n: Seq<char>, old_name: Seq<char>, to: Seq<char>) -> Seq<char> {
    if n == old_name {
        to
    } else {
        n
    }
}

/// Key `k` with the name `old_name` replaced by `to` (a pair is put back in order).
pub open spec fn rewrite_key(k: KeyView, old_name: Seq<char>, to: Seq<char>) -> KeyView {
    match k {
        KeyView::Pair(a, b) => pair_key(renamed(a, old_name, to), renamed(b, old_name, to)),
        KeyView::Single(a) => if a == old_name {
            KeyView::Single(to)
        } else {
            k
        },
    }
}

/// How a key is shown: `(a|b)` for a pair, `(a?)` for a single name.
pub open spec fn key_text(k: KeyView) -> Seq<char> {
    match k {
        KeyView::Pair(a, b) => seq!['('] + a + seq!['|'] + b + seq![')'],
        KeyView::Single(a) => seq!['('] + a + seq!['?', ')'],
    }
}

impl FuseKey {
    /// The key of two names, ordered so that both orders give the same key.
    pub fn new_pair(s1: &String, s2: &String) -> (r: FuseKey)
        ensures
            r@ == pair_key(s1@, s2@),
    {
        if text_lt(s1.as_str(), s2.as_str()) {
            FuseKey::Pair(s1.clone(), s2.clone())
        } else {
            FuseKey::Pair(s2.clone(), s1.clone())
        }
    }

    /// The key of one name.
    pub fn new_single(s1: &String) -> (r: FuseKey)
        ensures
            r@ == KeyView::Single(s1@),
    {
        FuseKey::Single(s1.clone())
    }

    /// The key names `name`.
    pub fn contains_key(&self, name: &String) -> (r: bool)
        ensures
            r == key_mentions(self@, name@),
    {
        match self {
            FuseKey::Pair(s0, s1) => *s0 == *name || *s1 == *name,
            FuseKey::Single(s) => *s == *name,
        }
    }

    /// The key with `old_name` replaced by `to_name`.
    pub fn into_rewrite_key(self, old_name: &String, to_name: &String) -> (r: FuseKey)
        ensures
            r@ == rewrite_key(self@, old_name@, to_name@),
    {
        match self {
            FuseKey::Pair(s0, s1) => {
                let a = if s0 == *old_name {
                    to_name
                } else {
                    &s0
                };
                let b = if s1 == *old_name {
                    to_name
                } else {
                    &s1
                };
                FuseKey::new_pair(a, b)
            },
            FuseKey::Single(s) => {
                if s == *old_name {
                    FuseKey::new_single(to_name)
                } else {
                    FuseKey::Single(s)
                }
            },
        }
    }

    /// A copy of the key.
    pub fn duplicate(&self) -> (r: FuseKey)
        ensures
            r@ == self@,
    {
        match self {
            FuseKey::Pair(a, b) => FuseKey::Pair(a.clone(), b.clone()),
            FuseKey::Single(a) => FuseKey::Single(a.clone()),
        }
    }

    /// The two keys are the same.
    pub fn same_as(&self, other: &FuseKey) -> (r: bool)
        ensures
            r == (self@ == other@),
    {
        match (self, other) {
            (FuseKey::Pair(a, b), FuseKey::Pair(c, d)) => *a == *c && *b == *d,
            (FuseKey::Single(a), FuseKey::Single(c)) => *a == *c,
            _ => false,
        }
    }

    /// The text of the key: `(a|b)` or `(a?)`.
    pub fn to_text(&self) -> (r: String)
        ensures
            r@ == key_text(self@),
    {
        let mut s = String::new();
        push_char(&mut s, '(');
        match self {
            FuseKey::Pair(a, b) => {
                s.append(a.as_str());
                push_char(&mut s, '|');
                s.append(b.as_str());
                push_char(&mut s, ')');
            },
            FuseKey::Single(a) => {
                s.append(a.as_str());
                push_char(&mut s, '?');
                push_char(&mut s, ')');
            },
        }
        assert(s@ =~= key_text(self@));
        s
    }
}

} // verus!
