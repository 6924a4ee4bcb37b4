//! Keyed lists: the maps of the cube graph kept as vectors of entries whose
//! keys are pairwise different. Insertion replaces the value of a present
//! key in place, or appends a new entry; removal takes the entry out.
use vstd::prelude::*;
use crate::fuse_key::{FuseKey, KeyView};

verus! {

/// Position of the first entry of `s` whose key is `k`, or -1.
pub open spec fn find_key<K, V>(s: Seq<(K, V)>, k: K) -> int
    decreases s.len(),
{
    if s.len() == 0 {
        -1
    } else if find_key(s.drop_last(), k) >= 0 {
        find_key(s.drop_last(), k)
    } else if s.last().0 == k {
        s.len() - 1
    } else {
        -1
    }
}

/// Some entry of `s` has key `k`.
pub open spec fn has_key<K, V>(s: Seq<(K, V)>, k: K) -> bool {
    exists|i: int| 0 <= i < s.len() && #[trigger] s[i].0 == k
}

/// The value of key `k` in `s` (meaningful when `has_key(s, k)`).
pub open spec fn value_of<K, V>(s: Seq<(K, V)>, k: K) -> V {
    s[find_key(s, k)].1
}

/// `s` with key `k` bound to `v`: the entry of `k` is replaced in place,
/// or a new entry is appended.
pub open spec fn key_insert<K, V>(s: Seq<(K, V)>, k: K, v: V) -> Seq<(K, V)> {
    let i = find_key(s, k);
    if i >= 0 {
        s.update(i, (k, v))
    } else {
        s.push((k, v))
    }
}

/// `s` without the entry of key `k`.
pub open spec fn key_remove<K, V>(s: Seq<(K, V)>, k: K) -> Seq<(K, V)> {
    let i = find_key(s, k);
    if i >= 0 {
        s.remove(i)
    } else {
        s
    }
}

/// No two entries of `s` have the same key.
pub open spec fn keys_distinct<K, V>(s: Seq<(K, V)>) -> bool {
    forall|i: int, j: int| 0 <= i < j < s.len() ==> #[trigger] s[i].0 != #[trigger] s[j].0
}

/// What `find_key` gives: the first position of the key, or -1 when absent.
pub proof fn lemma_find_key<K, V>(s: Seq<(K, V)>, k: K)
    ensures
        -1 <= find_key(s, k) < s.len(),
        find_key(s, k) == -1 <==> !has_key(s, k),
        find_key(s, k) >= 0 ==> s[find_key(s, k)].0 == k,
        forall|j: int| 0 <= j < find_key(s, k) ==> s[j].0 != k,
    decreases s.len(),
{
    if s.len() > 0 {
        lemma_find_key(s.drop_last(), k);
        if find_key(s.drop_last(), k) < 0 {
            assert forall|j: int| 0 <= j < s.len() - 1 implies s[j].0 != k by {
                assert(s.drop_last()[j] == s[j]);
            }
        } else {
            assert(s.drop_last()[find_key(s.drop_last(), k)] == s[find_key(s, k)]);
            assert forall|j: int| 0 <= j < find_key(s, k) implies s[j].0 != k by {
                assert(s.drop_last()[j] == s[j]);
            }
        }
        if has_key(s, k) && find_key(s, k) == -1 {
            let j = choose|j: int| 0 <= j < s.len() && #[trigger] s[j].0 == k;
            if j < s.len() - 1 {
                assert(s.drop_last()[j] == s[j]);
            }
        }
    }
}

/// The position found by a scan that met no earlier key `k` is `find_key`.
pub proof fn lemma_find_key_at<K, V>(s: Seq<(K, V)>, k: K, i: int)
    requires
        0 <= i < s.len(),
        s[i].0 == k,
        forall|j: int| 0 <= j < i ==> s[j].0 != k,
    ensures
        find_key(s, k) == i,
{
    lemma_find_key(s, k);
}

/// Keys keep being pairwise different through insertion and removal, and
/// the two operations do to the keys what a map's insert and remove do.
pub proof fn lemma_insert_remove<K, V>(s: Seq<(K, V)>, k: K, v: V)
    requires
        keys_distinct(s),
    ensures
        keys_distinct(key_insert(s, k, v)),
        keys_distinct(key_remove(s, k)),
        forall|x: K| has_key(key_insert(s, k, v), x) <==> (x == k || has_key(s, x)),
        forall|x: K| has_key(key_remove(s, k), x) <==> (x != k && has_key(s, x)),
{
    lemma_find_key(s, k);
    let i = find_key(s, k);
    let si = key_insert(s, k, v);
    let sr = key_remove(s, k);
    assert forall|x: K| has_key(si, x) <==> (x == k || has_key(s, x)) by {
        if i >= 0 {
            if has_key(s, x) && x != k {
                let j = choose|j: int| 0 <= j < s.len() && #[trigger] s[j].0 == x;
                assert(si[j].0 == x);
            }
            if x == k {
                assert(si[i].0 == x);
            }
        } else {
            if has_key(s, x) {
                let j = choose|j: int| 0 <= j < s.len() && #[trigger] s[j].0 == x;
                assert(si[j].0 == x);
            }
            if x == k {
                assert(si[s.len() as int].0 == x);
            }
        }
    }
    assert forall|x: K| has_key(sr, x) <==> (x != k && has_key(s, x)) by {
        if i >= 0 {
            if has_key(sr, x) {
                let j = choose|j: int| 0 <= j < sr.len() && #[trigger] sr[j].0 == x;
                if j < i {
                    assert(s[j].0 == x);
                } else {
                    assert(s[j + 1].0 == x);
                }
            }
            if x != k && has_key(s, x) {
                let j = choose|j: int| 0 <= j < s.len() && #[trigger] s[j].0 == x;
                if j < i {
                    assert(sr[j].0 == x);
                } else {
                    assert(j != i);
                    assert(sr[j - 1].0 == x);
                }
            }
        }
    }
    assert forall|a: int, b: int| 0 <= a < b < si.len() implies #[trigger] si[a].0 != #[trigger] si[b].0 by {
        if i < 0 && b == s.len() {
            assert(s[a].0 != k);
        }
    }
    assert forall|a: int, b: int| 0 <= a < b < sr.len() implies #[trigger] sr[a].0 != #[trigger] sr[b].0 by {
        if i >= 0 {
            if a < i && b >= i {
                assert(sr[b] == s[b + 1]);
            } else if a >= i {
                assert(sr[a] == s[a + 1] && sr[b] == s[b + 1]);
            }
        }
    }
}

/// The view of a name-keyed list.
pub open spec fn named_view(v: Seq<(String, usize)>) -> Seq<(Seq<char>, usize)> {
    v.map_values(|e: (String, usize)| (e.0@, e.1))
}

/// The view of a fuse-keyed list.
pub open spec fn keyed_view(v: Seq<(FuseKey, (usize, usize))>) -> Seq<(KeyView, (usize, usize))> {
    v.map_values(|e: (FuseKey, (usize, usize))| (e.0@, e.1))
}

/// Position of the entry named `k` in `v`, if any.
pub fn named_find(v: &Vec<(String, usize)>, k: &String) -> (r: Option<usize>)
    ensures
        match r {
            Some(i) => i as int == find_key(named_view(v@), k@) && i < v@.len(),
            None => find_key(named_view(v@), k@) == -1,
        },
{
    let ghost s = named_view(v@);
    proof {
        lemma_find_key(s, k@);
    }
    let mut i: usize = 0;
    while i < v.len()
        invariant
            s == named_view(v@),
            i <= v@.len(),
            forall|j: int| 0 <= j < i ==> s[j].0 != k@,
        decreases v.len() - i,
    {
        if v[i].0 == *k {
            proof {
                lemma_find_key_at(s, k@, i as int);
            }
            return Some(i);
        }
        i = i + 1;
    }
    None
}

/// The value bound to `k` in `v`, if any.
pub fn named_get(v: &Vec<(String, usize)>, k: &String) -> (r: Option<usize>)
    ensures
        match r {
            Some(id) => has_key(named_view(v@), k@) && id == value_of(named_view(v@), k@),
            None => !has_key(named_view(v@), k@),
        },
{
    proof {
        lemma_find_key(named_view(v@), k@);
    }
    match named_find(v, k) {
        Some(i) => Some(v[i].1),
        None => None,
    }
}

/// Binds `k` to `id`; gives back the value that `k` had, if any.
pub fn named_insert(v: &mut Vec<(String, usize)>, k: String, id: usize) -> (r: Option<usize>)
    ensures
        named_view(final(v)@) == key_insert(named_view(old(v)@), k@, id),
        match r {
            Some(o) => has_key(named_view(old(v)@), k@) && o == value_of(named_view(old(v)@), k@),
            None => !has_key(named_view(old(v)@), k@),
        },
{
    proof {
        lemma_find_key(named_view(v@), k@);
    }
    let ghost kv = k@;
    match named_find(v, &k) {
        Some(i) => {
            let o = v[i].1;
            v.set(i, (k, id));
            assert(named_view(v@) =~= key_insert(named_view(old(v)@), kv, id));
            Some(o)
        },
        None => {
            v.push((k, id));
            assert(named_view(v@) =~= key_insert(named_view(old(v)@), kv, id));
            None
        },
    }
}

/// Takes the entry of `k` out; gives back its value, if there was one.
pub fn named_remove(v: &mut Vec<(String, usize)>, k: &String) -> (r: Option<usize>)
    ensures
        named_view(final(v)@) == key_remove(named_view(old(v)@), k@),
        match r {
            Some(o) => has_key(named_view(old(v)@), k@) && o == value_of(named_view(old(v)@), k@),
            None => !has_key(named_view(old(v)@), k@),
        },
{
    proof {
        lemma_find_key(named_view(v@), k@);
    }
    match named_find(v, k) {
        Some(i) => {
            let e = v.remove(i);
            assert(named_view(v@) =~= key_remove(named_view(old(v)@), k@));
            Some(e.1)
        },
        None => None,
    }
}

/// Position of the entry with key `k` in `v`, if any.
pub fn keyed_find(v: &Vec<(FuseKey, (usize, usize))>, k: &FuseKey) -> (r: Option<usize>)
    ensures
        match r {
            Some(i) => i as int == find_key(keyed_view(v@), k@) && i < v@.len(),
            None => find_key(keyed_view(v@), k@) == -1,
        },
{
    let ghost s = keyed_view(v@);
    proof {
        lemma_find_key(s, k@);
    }
    let mut i: usize = 0;
    while i < v.len()
        invariant
            s == keyed_view(v@),
            i <= v@.len(),
            forall|j: int| 0 <= j < i ==> s[j].0 != k@,
        decreases v.len() - i,
    {
        if v[i].0.same_as(k) {
            proof {
                lemma_find_key_at(s, k@, i as int);
            }
            return Some(i);
        }
        i = i + 1;
    }
    None
}

/// Binds key `k` to the links `ids`; gives back the links it had, if any.
pub fn keyed_insert(v: &mut Vec<(FuseKey, (usize, usize))>, k: FuseKey, ids: (usize, usize)) -> (r:
    Option<(usize, usize)>)
    ensures
        keyed_view(final(v)@) == key_insert(keyed_view(old(v)@), k@, ids),
        match r {
            Some(o) => has_key(keyed_view(old(v)@), k@) && o == value_of(keyed_view(old(v)@), k@),
            None => !has_key(keyed_view(old(v)@), k@),
        },
{
    proof {
        lemma_find_key(keyed_view(v@), k@);
    }
    let ghost kv = k@;
    match keyed_find(v, &k) {
        Some(i) => {
            let o = v[i].1;
            v.set(i, (k, ids));
            assert(keyed_view(v@) =~= key_insert(keyed_view(old(v)@), kv, ids));
            Some(o)
        },
        None => {
            v.push((k, ids));
            assert(keyed_view(v@) =~= key_insert(keyed_view(old(v)@), kv, ids));
            None
        },
    }
}

/// Takes the entry of key `k` out; gives back its links, if there was one.
pub fn keyed_remove(v: &mut Vec<(FuseKey, (usize, usize))>, k: &FuseKey) -> (r: Option<
    (usize, usize),
>)
    ensures
        keyed_view(final(v)@) == key_remove(keyed_view(old(v)@), k@),
        match r {
            Some(o) => has_key(keyed_view(old(v)@), k@) && o == value_of(keyed_view(old(v)@), k@),
            None => !has_key(keyed_view(old(v)@), k@),
        },
{
    proof {
        lemma_find_key(keyed_view(v@), k@);
    }
    match keyed_find(v, k) {
        Some(i) => {
            let e = v.remove(i);
            assert(keyed_view(v@) =~= key_remove(keyed_view(old(v)@), k@));
            Some(e.1)
        },
        None => None,
    }
}

} // verus!

verus! {

/// Every value of `s` is below `n`.
pub open spec fn ids_below<K>(s: Seq<(K, usize)>, n: nat) -> bool {
    forall|i: int| 0 <= i < s.len() ==> (#[trigger] s[i]).1 < n
}

/// Both links of every value of `s` are below `n`.
pub open spec fn pairs_below<K>(s: Seq<(K, (usize, usize))>, n: nat) -> bool {
    forall|i: int| 0 <= i < s.len() ==> (#[trigger] s[i]).1.0 < n && s[i].1.1 < n
}

/// Insertion and removal keep values below a bound.
pub proof fn lemma_ids_below<K>(s: Seq<(K, usize)>, k: K, v: usize, n: nat)
    requires
        ids_below(s, n),
        v < n,
    ensures
        ids_below(key_insert(s, k, v), n),
        ids_below(key_remove(s, k), n),
{
    lemma_find_key(s, k);
    let sr = key_remove(s, k);
    assert forall|i: int| 0 <= i < sr.len() implies (#[trigger] sr[i]).1 < n by {
        if find_key(s, k) >= 0 && i >= find_key(s, k) {
            assert(sr[i] == s[i + 1]);
        }
    }
}

/// Insertion and removal keep both links of values below a bound.
pub proof fn lemma_pairs_below<K>(s: Seq<(K, (usize, usize))>, k: K, v: (usize, usize), n: nat)
    requires
        pairs_below(s, n),
        v.0 < n,
        v.1 < n,
    ensures
        pairs_below(key_insert(s, k, v), n),
        pairs_below(key_remove(s, k), n),
{
    lemma_find_key(s, k);
    let sr = key_remove(s, k);
    assert forall|i: int| 0 <= i < sr.len() implies (#[trigger] sr[i]).1.0 < n && sr[i].1.1 < n by {
        if find_key(s, k) >= 0 && i >= find_key(s, k) {
            assert(sr[i] == s[i + 1]);
        }
    }
}

} // verus!
