//! The unknown cube `?` shares no key with another cube: linking keeps it so.
use vstd::prelude::*;
use crate::assoc::{has_key, find_key, lemma_find_key, lemma_insert_remove};
use crate::cube::{
    DllView, unknown_name, key_known, spec_unknown_stage, spec_add_fb, spec_add_to, spec_fuse_pair,
    spec_link_pair, spec_link_single,
};
use crate::fuse_key::{KeyView, pair_key};

verus! {

/// No key of the unknown cube is a key of another cube of the map.
pub open spec fn unknown_apart(v: DllView) -> bool {
    match v.lookup(unknown_name()) {
        Some(q) => forall|j: int, k: KeyView|
            0 <= j < v.hashmap.len() && v.hashmap[j].0 != unknown_name() && #[trigger] has_key(v.cubes[q as int].fused_by, k)
                ==> !#[trigger] has_key(v.cubes[v.hashmap[j].1 as int].fused_by, k),
        None => true,
    }
}

/// `b` has the map, the pointer and the names of `a`.
pub open spec fn same_names(a: DllView, b: DllView) -> bool {
    &&& b.hashmap == a.hashmap
    &&& b.pointer == a.pointer
    &&& b.cubes.len() == a.cubes.len()
    &&& forall|c: int| 0 <= c < a.cubes.len() ==> (#[trigger] b.cubes[c]).name == a.cubes[c].name
}

proof fn lemma_add_to_frame(v: DllView, c: int, p: int)
    requires
        0 <= c < v.cubes.len(),
        0 <= p < v.cubes.len(),
    ensures
        same_names(v, spec_add_to(v, c, p).0),
        forall|d: int| 0 <= d < v.cubes.len() ==> (#[trigger] spec_add_to(v, c, p).0.cubes[d]).fused_by == v.cubes[d].fused_by,
{
    reveal(spec_add_to);
}

/// The cube bound to `?` is a cube of the arena named `?`.
proof fn lemma_unknown_cube(v: DllView)
    requires
        v.wf(),
        v.lookup(unknown_name()) is Some,
    ensures
        v.lookup(unknown_name())->0 < v.cubes.len(),
        v.cubes[v.lookup(unknown_name())->0 as int].name == unknown_name(),
{
    lemma_find_key(v.hashmap, unknown_name());
    let i = find_key(v.hashmap, unknown_name());
    assert(v.cubes[v.hashmap[i].1 as int].name == v.hashmap[i].0);
}

/// Fusing key `k` into cube `p` (checked against the unknown cube, added,
/// with conversions recorded) keeps the unknown cube apart.
proof fn lemma_fuse_apart(v: DllView, p: int, k: KeyView, ids: (usize, usize), msg: Seq<char>, cs: Seq<int>)
    requires
        v.wf(),
        unknown_apart(v),
        0 <= p < v.cubes.len(),
        forall|m: int| 0 <= m < cs.len() ==> 0 <= #[trigger] cs[m] < v.cubes.len(),
    ensures
        ({
            let (v1, t1, stop) = spec_unknown_stage(v, p, k);
            let v2 = spec_add_fb(v1, p, k, ids, msg).0;
            &&& stop ==> v1 == v
            &&& !stop ==> unknown_apart(add_to_all(v2, cs, p, cs.len()))
        }),
{
    reveal(spec_unknown_stage);
    reveal(spec_add_fb);
    let (v1, t1, stop) = spec_unknown_stage(v, p, k);
    let v2 = spec_add_fb(v1, p, k, ids, msg).0;
    let fbp = v.cubes[p].fused_by;
    assert(v.cubes[p].wf(v.cubes.len()));
    if v.lookup(unknown_name()) is Some {
        lemma_unknown_cube(v);
    }
    assert(v1.cubes.len() == v.cubes.len());
    assert(v2.cubes.len() == v.cubes.len());
    lemma_add_to_all(v2, cs, p, cs.len());
    let v4 = add_to_all(v2, cs, p, cs.len());
    if !stop {
        match v.lookup(unknown_name()) {
            None => {
                assert(v4.lookup(unknown_name()) is None);
            },
            Some(q) => {
                lemma_unknown_cube(v);
                let qi = q as int;
                assert(v.cubes[qi].wf(v.cubes.len()));
                let fbq = v.cubes[qi].fused_by;
                if v.cubes[p].name != unknown_name() {
                    assert(p != qi);
                    lemma_insert_remove(fbq, k, (0usize, 0usize));
                    let fbq1 = v1.cubes[qi].fused_by;
                    assert(!has_key(fbq1, k)) by {
                        if has_key(fbq, k) {
                            assert(fbq1 == crate::assoc::key_remove(fbq, k));
                        }
                    }
                    lemma_insert_remove(v1.cubes[p].fused_by, k, ids);
                    assert(v1.cubes[p].fused_by == fbp);
                    assert forall|j: int, x: KeyView|
                        0 <= j < v4.hashmap.len() && v4.hashmap[j].0 != unknown_name() && #[trigger] has_key(v4.cubes[qi].fused_by, x)
                            implies !#[trigger] has_key(v4.cubes[v4.hashmap[j].1 as int].fused_by, x) by {
                        let c = v.hashmap[j].1 as int;
                        assert(v.cubes[c].name == v.hashmap[j].0);
                        assert(c != qi);
                        assert(has_key(fbq1, x));
                        if has_key(fbq, k) {
                            assert(has_key(fbq, x) && x != k);
                        } else {
                            assert(has_key(fbq, x));
                            assert(x != k);
                        }
                        assert(!has_key(v.cubes[c].fused_by, x));
                        if c == p {
                            assert(v4.cubes[c].fused_by == crate::assoc::key_insert(fbp, k, ids));
                        } else {
                            assert(v4.cubes[c].fused_by == v.cubes[c].fused_by);
                        }
                    }
                } else {
                    assert(!key_known(v, k));
                    assert(v1 == v);
                    assert forall|j: int, x: KeyView|
                        0 <= j < v4.hashmap.len() && v4.hashmap[j].0 != unknown_name() && #[trigger] has_key(v4.cubes[qi].fused_by, x)
                            implies !#[trigger] has_key(v4.cubes[v4.hashmap[j].1 as int].fused_by, x) by {
                        let c = v.hashmap[j].1 as int;
                        assert(v.cubes[c].name == v.hashmap[j].0);
                        assert(c != qi);
                        assert(c != p);
                        assert(v4.cubes[c].fused_by == v.cubes[c].fused_by);
                        if p == qi {
                            lemma_insert_remove(fbp, k, ids);
                            if x == k {
                                assert(!has_key(v.cubes[v.hashmap[j].1 as int].fused_by, k));
                            } else {
                                assert(has_key(fbq, x));
                            }
                        } else {
                            assert(v4.cubes[qi].fused_by == fbq);
                        }
                    }
                }
            },
        }
    }
}

/// Conversions to cube `p` recorded for each cube of `cs` in turn.
pub open spec fn add_to_all(v: DllView, cs: Seq<int>, p: int, i: nat) -> DllView
    decreases i,
{
    if i == 0 || i > cs.len() {
        v
    } else {
        spec_add_to(add_to_all(v, cs, p, (i - 1) as nat), cs[i - 1], p).0
    }
}

proof fn lemma_add_to_all(v: DllView, cs: Seq<int>, p: int, i: nat)
    requires
        0 <= p < v.cubes.len(),
        forall|m: int| 0 <= m < cs.len() ==> 0 <= #[trigger] cs[m] < v.cubes.len(),
    ensures
        same_names(v, add_to_all(v, cs, p, i)),
        forall|d: int| 0 <= d < v.cubes.len() ==> (#[trigger] add_to_all(v, cs, p, i).cubes[d]).fused_by == v.cubes[d].fused_by,
    decreases i,
{
    if i > 0 && i <= cs.len() {
        lemma_add_to_all(v, cs, p, (i - 1) as nat);
        let w = add_to_all(v, cs, p, (i - 1) as nat);
        lemma_add_to_frame(w, cs[i - 1], p);
    }
}


/// The cube that the map binds to `n` bears that name.
proof fn lemma_bound_name(v: DllView, n: Seq<char>)
    requires
        v.wf(),
        v.lookup(n) is Some,
    ensures
        v.lookup(n)->0 < v.cubes.len(),
        v.cubes[v.lookup(n)->0 as int].name == n,
{
    lemma_find_key(v.hashmap, n);
    let i = find_key(v.hashmap, n);
    assert(v.cubes[v.hashmap[i].1 as int].name == v.hashmap[i].0);
}

/// Linking a pair of cubes keeps the unknown cube apart from the other
/// cubes, whatever the outcome; and linking into `?` (the pointed cube) a pair whose key a
/// cube already has succeeds and changes nothing.
pub proof fn law_link_pair_keeps_unknown_apart(v: DllView, n1: Seq<char>, n2: Seq<char>)
    requires
        v.wf(),
        unknown_apart(v),
    ensures
        unknown_apart(spec_link_pair(v, n1, n2).0),
        v.pointer matches Some(p) && v.lookup(unknown_name()) == v.pointer && v.lookup(n1) is Some && v.lookup(n2) is Some
            && n1 != unknown_name() && n2 != unknown_name() && key_known(v, pair_key(n1, n2)) ==> spec_link_pair(v, n1, n2).0 == v
            && spec_link_pair(v, n1, n2).2 is Ok,
{
    reveal(spec_unknown_stage);
    if v.lookup(unknown_name()) is Some {
        lemma_bound_name(v, unknown_name());
    }
    match (v.lookup(n1), v.lookup(n2), v.pointer) {
        (Some(i1), Some(i2), Some(p)) => {
            lemma_bound_name(v, n1);
            lemma_bound_name(v, n2);
            let pi = p as int;
            let a = v.cubes[i1 as int].name;
            let b = v.cubes[i2 as int].name;
            if !(a == v.cubes[pi].name || b == v.cubes[pi].name) {
                let k = pair_key(a, b);
                let msg = crate::cube::msg_pair_known(a, b, v.cubes[pi].name);
                let cs: Seq<int> = if a == b { seq![i1 as int] } else { seq![i1 as int, i2 as int] };
                lemma_fuse_apart(v, pi, k, (i1, i2), msg, cs);
                let v2 = spec_add_fb(spec_unknown_stage(v, pi, k).0, pi, k, (i1, i2), msg).0;
                reveal_with_fuel(add_to_all, 3);
                assert(add_to_all(v2, cs, pi, cs.len()) == spec_fuse_pair(v, pi, i1, i2).0 || spec_unknown_stage(v, pi, k).2);
            }
        },
        _ => {},
    }
}

/// Linking one cube keeps the unknown cube apart from the other cubes,
/// whatever the outcome; and linking into `?` (the pointed cube) a cube whose single key a
/// cube already has succeeds and changes nothing.
pub proof fn law_link_single_keeps_unknown_apart(v: DllView, n: Seq<char>)
    requires
        v.wf(),
        unknown_apart(v),
    ensures
        unknown_apart(spec_link_single(v, n).0),
        v.pointer matches Some(p) && v.lookup(unknown_name()) == v.pointer && v.lookup(n) is Some && n != unknown_name()
            && key_known(v, KeyView::Single(n)) ==> spec_link_single(v, n).0 == v && spec_link_single(v, n).2 is Ok,
{
    reveal(spec_unknown_stage);
    if v.lookup(unknown_name()) is Some {
        lemma_bound_name(v, unknown_name());
    }
    match (v.lookup(n), v.pointer) {
        (Some(i), Some(p)) => {
            lemma_bound_name(v, n);
            let pi = p as int;
            let a = v.cubes[i as int].name;
            if a != v.cubes[pi].name {
                let k = KeyView::Single(a);
                let msg = crate::cube::msg_single_known(a, v.cubes[pi].name);
                let cs: Seq<int> = seq![i as int];
                lemma_fuse_apart(v, pi, k, (i, i), msg, cs);
                reveal_with_fuel(add_to_all, 2);
            }
        },
        _ => {},
    }
}

} // verus!
