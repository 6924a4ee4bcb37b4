//! Properties that relate the operations of the library to one another.
use vstd::prelude::*;
use crate::assoc::{
    find_key, has_key, value_of, key_insert, key_remove, keys_distinct, lemma_find_key, lemma_find_key_at,
    lemma_insert_remove,
};
use crate::cube::{
    DllView, CubeView, unknown_name, fresh_cube, spec_add, spec_point_to, spec_destroy, spec_link_single,
    spec_link_pair, spec_unlink_keys, spec_add_to, spec_add_fb, spec_unknown_stage, spec_remove_fb_key,
    spec_remove_to_maybe, destroy_fb_fold, destroy_ct_fold, spec_unconvert, same_frame, spec_merge,
    strip_fold, lemma_release_fold_map, keys_mention, fb_mentions,
};
use crate::fuse_key::{KeyView, pair_key, key_mentions, key_text};
use crate::show::{isort, ins_pos, fusions_fold, fusion_lines, spec_fusions};
use crate::text::{lemma_seq_lt_order, lowercase, has_substring, nat_decimal};
use crate::tui::{filtered, names_of, found_names, TuiView, Command, spec_command};
use crate::build_tree::{TreeView, tree_add_cube, tree_add_key, grow, grow_keys, tree_of, empty_tree};

verus! {

/// Both orders of two names give the same pair key.
pub proof fn law_pair_key_symmetric(a: Seq<char>, b: Seq<char>)
    ensures
        pair_key(a, b) == pair_key(b, a),
{
    lemma_seq_lt_order(a, b, a);
}

/// Adding a cube succeeds exactly when its name is not in the map; then
/// the map binds the name to the new cube, keeps every other name, and
/// pointing to the name reaches the cube added.
pub proof fn law_add_then_point(v: DllView, c: CubeView)
    requires
        v.wf(),
    ensures
        spec_add(v, c).1 is Ok <==> !has_key(v.hashmap, c.name),
        spec_add(v, c).1 is Ok ==> ({
            let w = spec_add(v, c).0;
            &&& forall|n: Seq<char>| #[trigger] has_key(w.hashmap, n) <==> (n == c.name || has_key(v.hashmap, n))
            &&& w.lookup(c.name) == Some(v.cubes.len() as usize)
            &&& w.cubes[v.cubes.len() as int] == c
            &&& spec_point_to(w, c.name).1 is Ok
            &&& spec_point_to(w, c.name).0.pointer == Some(v.cubes.len() as usize)
        }),
{
    if !has_key(v.hashmap, c.name) {
        let id = v.cubes.len() as usize;
        let hm = key_insert(v.hashmap, c.name, id);
        lemma_insert_remove(v.hashmap, c.name, id);
        lemma_find_key(v.hashmap, c.name);
        assert(hm == v.hashmap.push((c.name, id)));
        lemma_find_key_at(hm, c.name, v.hashmap.len() as int);
    }
}

/// Pointing to a name succeeds exactly when the map has the name or the
/// name is `?` (whose cube is made when missing); then the pointer is the
/// cube that the map binds to the name.
pub proof fn law_point_to(v: DllView, n: Seq<char>)
    requires
        v.wf(),
    ensures
        spec_point_to(v, n).1 is Ok <==> (has_key(v.hashmap, n) || n == unknown_name()),
        spec_point_to(v, n).1 is Ok ==> spec_point_to(v, n).0.pointer is Some && spec_point_to(v, n).0.pointer
            == spec_point_to(v, n).0.lookup(n),
{
    if !has_key(v.hashmap, n) && n == unknown_name() {
        law_add_then_point(v, fresh_cube(n, -1i32));
    }
}

proof fn lemma_destroy_fb_frame(v: DllView, name: Seq<char>, fb: Seq<(KeyView, (usize, usize))>, i: nat)
    ensures
        destroy_fb_fold(v, name, fb, i).0.hashmap == v.hashmap,
        destroy_fb_fold(v, name, fb, i).0.pointer == v.pointer,
    decreases i,
{
    reveal(spec_unconvert);
    if i > 0 && i <= fb.len() {
        lemma_destroy_fb_frame(v, name, fb, (i - 1) as nat);
    }
}

proof fn lemma_destroy_ct_frame(v: DllView, name: Seq<char>, ct: Seq<(Seq<char>, usize)>, i: nat)
    ensures
        destroy_ct_fold(v, name, ct, i).0.hashmap == v.hashmap,
        destroy_ct_fold(v, name, ct, i).0.pointer == v.pointer,
    decreases i,
{
    if i > 0 && i <= ct.len() {
        lemma_destroy_ct_frame(v, name, ct, (i - 1) as nat);
        let w = destroy_ct_fold(v, name, ct, (i - 1) as nat).0;
        let c = ct[i - 1].1 as int;
        let fb = w.cubes[c].fused_by;
        let kept = strip_fold(fb, name, w.cubes[c].name, fb.len()).0;
        lemma_release_fold_map(w.set_fb(c, kept), fb, name, w.cubes[c].name, kept, fb.len());
    }
}

/// Destroying the pointed cube succeeds when there is a pointer; then the
/// pointer is cleared and the cube's name leaves the map, every other name
/// staying.
#[verifier::spinoff_prover]
pub proof fn law_destroy_forgets(v: DllView)
    requires
        v.wf(),
        v.pointer is Some,
    ensures
        spec_destroy(v).2 is Ok,
        spec_destroy(v).0.pointer is None,
        forall|n: Seq<char>| #[trigger] has_key(spec_destroy(v).0.hashmap, n) <==> (n != v.cubes[v.pointer->0 as int].name
            && has_key(v.hashmap, n)),
{
    let p = v.pointer->0 as int;
    let name = v.cubes[p].name;
    lemma_destroy_frame(v);
    let d = spec_destroy(v).0;
    lemma_insert_remove(v.hashmap, name, 0usize);
    assert(d.hashmap == key_remove(v.hashmap, name));
    assert forall|n: Seq<char>| #[trigger] has_key(d.hashmap, n) <==> (n != name && has_key(v.hashmap, n)) by {
        assert(has_key(key_remove(v.hashmap, name), n) <==> (n != name && has_key(v.hashmap, n)));
    }
}

/// Destroying keeps the map but for the destroyed name, and clears the
/// pointer.
#[verifier::spinoff_prover]
proof fn lemma_destroy_frame(v: DllView)
    requires
        v.pointer is Some,
    ensures
        spec_destroy(v).0.hashmap == key_remove(v.hashmap, v.cubes[v.pointer->0 as int].name),
        spec_destroy(v).0.pointer is None,
        spec_destroy(v).2 is Ok,
{
    let p = v.pointer->0 as int;
    let name = v.cubes[p].name;
    let fb = v.cubes[p].fused_by;
    let v0 = DllView { pointer: None, ..v.set_fb(p, Seq::empty()) };
    lemma_destroy_fb_frame(v0, name, fb, fb.len());
    let v1 = destroy_fb_fold(v0, name, fb, fb.len()).0;
    let ct = v1.cubes[p].converts_to;
    lemma_destroy_ct_frame(v1.set_ct(p, Seq::empty()), name, ct, ct.len());
    let v2 = destroy_ct_fold(v1.set_ct(p, Seq::empty()), name, ct, ct.len()).0;
    match v2.lookup(unknown_name()) {
        Some(q) => {
            let c = q as int;
            let fbq = v2.cubes[c].fused_by;
            let kept = strip_fold(fbq, name, v2.cubes[c].name, fbq.len()).0;
            lemma_release_fold_map(v2.set_fb(c, kept), fbq, name, v2.cubes[c].name, kept, fbq.len());
        },
        None => {},
    }
}

/// What the stages of a link do to the keys of cube `p`: the key ends up
/// there, other keys stay as they were, keys stay pairwise different, and
/// the map, the pointer and the names do not change.
pub open spec fn keys_after_link(v: DllView, w: DllView, p: int, k: KeyView) -> bool {
    &&& same_frame(v, w)
    &&& keys_distinct(w.cubes[p].fused_by)
    &&& has_key(w.cubes[p].fused_by, k)
    &&& forall|x: KeyView| x != k ==> (#[trigger] has_key(w.cubes[p].fused_by, x) <==> has_key(v.cubes[p].fused_by, x))
}

proof fn lemma_unknown_stage_keys(v: DllView, p: int, k: KeyView)
    requires
        v.wf(),
        0 <= p < v.cubes.len(),
        v.cubes[p].name != unknown_name(),
    ensures
        !spec_unknown_stage(v, p, k).2,
        same_frame(v, spec_unknown_stage(v, p, k).0),
        keys_distinct(spec_unknown_stage(v, p, k).0.cubes[p].fused_by),
        forall|x: KeyView| x != k ==> (#[trigger] has_key(spec_unknown_stage(v, p, k).0.cubes[p].fused_by, x) <==> has_key(v.cubes[p].fused_by, x)),
{
    reveal(spec_unknown_stage);
    assert(v.cubes[p].wf(v.cubes.len()));
    lemma_insert_remove(v.cubes[p].fused_by, k, (0usize, 0usize));
    match v.lookup(unknown_name()) {
        None => {},
        Some(q) => {
            lemma_find_key(v.hashmap, unknown_name());
            assert(v.hashmap[find_key(v.hashmap, unknown_name())].1 < v.cubes.len());
            assert(v.cubes[q as int].wf(v.cubes.len()));
            lemma_insert_remove(v.cubes[q as int].fused_by, k, (0usize, 0usize));
        },
    }
}

proof fn lemma_add_fb_keys(v: DllView, p: int, k: KeyView, ids: (usize, usize), msg: Seq<char>)
    requires
        0 <= p < v.cubes.len(),
        keys_distinct(v.cubes[p].fused_by),
    ensures
        same_frame(v, spec_add_fb(v, p, k, ids, msg).0),
        keys_distinct(spec_add_fb(v, p, k, ids, msg).0.cubes[p].fused_by),
        has_key(spec_add_fb(v, p, k, ids, msg).0.cubes[p].fused_by, k),
        forall|x: KeyView| x != k ==> (#[trigger] has_key(spec_add_fb(v, p, k, ids, msg).0.cubes[p].fused_by, x) <==> has_key(v.cubes[p].fused_by, x)),
{
    reveal(spec_add_fb);
    lemma_insert_remove(v.cubes[p].fused_by, k, ids);
}

proof fn lemma_add_to_keys(v: DllView, c: int, p: int)
    requires
        0 <= c < v.cubes.len(),
        0 <= p < v.cubes.len(),
    ensures
        same_frame(v, spec_add_to(v, c, p).0),
        forall|d: int| 0 <= d < v.cubes.len() ==> (#[trigger] spec_add_to(v, c, p).0.cubes[d]).fused_by == v.cubes[d].fused_by,
{
    reveal(spec_add_to);
}

proof fn lemma_frame_trans(a: DllView, b: DllView, c: DllView)
    requires
        same_frame(a, b),
        same_frame(b, c),
    ensures
        same_frame(a, c),
{
}

/// Linking cube `n` alone into the pointed cube (not `?`): on success the
/// pointed cube has the key of `n`, its other keys are as before, and the
/// map, pointer and names are kept.
pub proof fn law_link_single_adds_key(v: DllView, n: Seq<char>)
    requires
        v.wf(),
        v.pointer is Some,
        v.cubes[v.pointer->0 as int].name != unknown_name(),
        spec_link_single(v, n).2 is Ok,
    ensures
        keys_after_link(v, spec_link_single(v, n).0, v.pointer->0 as int, KeyView::Single(v.cubes[v.lookup(n)->0 as int].name)),
{
    let p = v.pointer->0 as int;
    let i = v.lookup(n)->0;
    lemma_find_key(v.hashmap, n);
    assert(v.hashmap[find_key(v.hashmap, n)].1 < v.cubes.len());
    let k = KeyView::Single(v.cubes[i as int].name);
    lemma_unknown_stage_keys(v, p, k);
    let v1 = spec_unknown_stage(v, p, k).0;
    lemma_add_fb_keys(v1, p, k, (i, i), crate::cube::msg_single_known(v.cubes[i as int].name, v.cubes[p].name));
    let v2 = spec_add_fb(v1, p, k, (i, i), crate::cube::msg_single_known(v.cubes[i as int].name, v.cubes[p].name)).0;
    assert(v2.cubes[i as int].name == v.cubes[i as int].name);
    lemma_add_to_keys(v2, i as int, p);
    let v3 = spec_add_to(v2, i as int, p).0;
    lemma_frame_trans(v, v1, v2);
    lemma_frame_trans(v, v2, v3);
    assert(v3.cubes[p].fused_by == v2.cubes[p].fused_by);
    assert(spec_link_single(v, n).0 == v3);
}

/// Linking cubes `n1` and `n2` into the pointed cube (not `?`): on
/// success the pointed cube has their pair key, its other keys are as
/// before, and the map, pointer and names are kept.
pub proof fn law_link_pair_adds_key(v: DllView, n1: Seq<char>, n2: Seq<char>)
    requires
        v.wf(),
        v.pointer is Some,
        v.cubes[v.pointer->0 as int].name != unknown_name(),
        spec_link_pair(v, n1, n2).2 is Ok,
    ensures
        keys_after_link(
            v,
            spec_link_pair(v, n1, n2).0,
            v.pointer->0 as int,
            pair_key(v.cubes[v.lookup(n1)->0 as int].name, v.cubes[v.lookup(n2)->0 as int].name),
        ),
{
    let p = v.pointer->0 as int;
    let i1 = v.lookup(n1)->0;
    let i2 = v.lookup(n2)->0;
    lemma_find_key(v.hashmap, n1);
    lemma_find_key(v.hashmap, n2);
    assert(v.hashmap[find_key(v.hashmap, n1)].1 < v.cubes.len());
    assert(v.hashmap[find_key(v.hashmap, n2)].1 < v.cubes.len());
    let a = v.cubes[i1 as int].name;
    let b = v.cubes[i2 as int].name;
    let k = pair_key(a, b);
    let msg = crate::cube::msg_pair_known(a, b, v.cubes[p].name);
    lemma_unknown_stage_keys(v, p, k);
    let v1 = spec_unknown_stage(v, p, k).0;
    lemma_add_fb_keys(v1, p, k, (i1, i2), msg);
    let v2 = spec_add_fb(v1, p, k, (i1, i2), msg).0;
    lemma_add_to_keys(v2, i1 as int, p);
    let v3 = spec_add_to(v2, i1 as int, p).0;
    lemma_add_to_keys(v3, i2 as int, p);
    let v4 = spec_add_to(v3, i2 as int, p).0;
    lemma_frame_trans(v, v1, v2);
    lemma_frame_trans(v, v2, v3);
    lemma_frame_trans(v, v3, v4);
    assert(v3.cubes[p].fused_by == v2.cubes[p].fused_by);
    assert(v4.cubes[p].fused_by == v3.cubes[p].fused_by);
    assert(v3.cubes[i1 as int].name == a && v3.cubes[i2 as int].name == b);
    if a == b {
        assert(spec_link_pair(v, n1, n2).0 == v3);
    } else {
        assert(spec_link_pair(v, n1, n2).0 == v4);
    }
}

/// Unlinking a key from cube `p` of `w`: the key is gone, other keys stay.
proof fn lemma_unlink_key_keys(w: DllView, p: int, k: KeyView, i1: int, i2: int)
    requires
        0 <= p < w.cubes.len(),
        0 <= i1 < w.cubes.len(),
        0 <= i2 < w.cubes.len(),
        keys_distinct(w.cubes[p].fused_by),
    ensures
        !has_key(crate::cube::spec_unlink_key(w, p, k, i1, i2).0.cubes[p].fused_by, k),
        forall|x: KeyView| x != k ==> (#[trigger] has_key(crate::cube::spec_unlink_key(w, p, k, i1, i2).0.cubes[p].fused_by, x)
            <==> has_key(w.cubes[p].fused_by, x)),
{
    reveal(spec_remove_fb_key);
    reveal(spec_remove_to_maybe);
    lemma_insert_remove(w.cubes[p].fused_by, k, (0usize, 0usize));
}

/// Unlinking undoes linking: after linking cube `n` alone into the pointed
/// cube (not `?`), unlinking `n` from it succeeds, and the pointed cube then
/// has exactly the keys it had before, but for the key of `n`.
pub proof fn law_unlink_undoes_link_single(v: DllView, n: Seq<char>)
    requires
        v.wf(),
        v.pointer is Some,
        v.cubes[v.pointer->0 as int].name != unknown_name(),
        spec_link_single(v, n).2 is Ok,
    ensures
        ({
            let p = v.pointer->0 as int;
            let k = KeyView::Single(v.cubes[v.lookup(n)->0 as int].name);
            let u = spec_unlink_keys(spec_link_single(v, n).0, n, None);
            &&& u.2 is Ok
            &&& !has_key(u.0.cubes[p].fused_by, k)
            &&& forall|x: KeyView| x != k ==> (#[trigger] has_key(u.0.cubes[p].fused_by, x) <==> has_key(v.cubes[p].fused_by, x))
        }),
{
    let p = v.pointer->0 as int;
    let i = v.lookup(n)->0;
    lemma_find_key(v.hashmap, n);
    assert(v.hashmap[find_key(v.hashmap, n)].1 < v.cubes.len());
    law_link_single_adds_key(v, n);
    let w = spec_link_single(v, n).0;
    let k = KeyView::Single(v.cubes[i as int].name);
    assert(w.lookup(n) == v.lookup(n));
    assert(w.cubes[i as int].name == v.cubes[i as int].name);
    assert(w.cubes[p].name == v.cubes[p].name);
    lemma_unlink_key_keys(w, p, k, i as int, i as int);
}

/// Unlinking undoes linking for pairs: after linking cubes `n1` and `n2`
/// into the pointed cube (not `?`), unlinking them from it succeeds, and
/// the pointed cube then has exactly the keys it had before, but for their
/// pair key.
pub proof fn law_unlink_undoes_link_pair(v: DllView, n1: Seq<char>, n2: Seq<char>)
    requires
        v.wf(),
        v.pointer is Some,
        v.cubes[v.pointer->0 as int].name != unknown_name(),
        spec_link_pair(v, n1, n2).2 is Ok,
    ensures
        ({
            let p = v.pointer->0 as int;
            let k = pair_key(v.cubes[v.lookup(n1)->0 as int].name, v.cubes[v.lookup(n2)->0 as int].name);
            let u = spec_unlink_keys(spec_link_pair(v, n1, n2).0, n1, Some(n2));
            &&& u.2 is Ok
            &&& !has_key(u.0.cubes[p].fused_by, k)
            &&& forall|x: KeyView| x != k ==> (#[trigger] has_key(u.0.cubes[p].fused_by, x) <==> has_key(v.cubes[p].fused_by, x))
        }),
{
    let p = v.pointer->0 as int;
    let i1 = v.lookup(n1)->0;
    let i2 = v.lookup(n2)->0;
    lemma_find_key(v.hashmap, n1);
    lemma_find_key(v.hashmap, n2);
    assert(v.hashmap[find_key(v.hashmap, n1)].1 < v.cubes.len());
    assert(v.hashmap[find_key(v.hashmap, n2)].1 < v.cubes.len());
    law_link_pair_adds_key(v, n1, n2);
    let w = spec_link_pair(v, n1, n2).0;
    let k = pair_key(v.cubes[i1 as int].name, v.cubes[i2 as int].name);
    assert(w.lookup(n1) == v.lookup(n1));
    assert(w.lookup(n2) == v.lookup(n2));
    assert(w.cubes[i1 as int].name == v.cubes[i1 as int].name);
    assert(w.cubes[i2 as int].name == v.cubes[i2 as int].name);
    assert(w.cubes[p].name == v.cubes[p].name);
    lemma_unlink_key_keys(w, p, k, i1 as int, i2 as int);
}

proof fn lemma_ins_pos_bound(r: Seq<(Seq<char>, usize)>, x: Seq<char>, k: nat)
    requires
        k <= r.len(),
    ensures
        k <= ins_pos(r, x, k) <= r.len(),
    decreases r.len() - k,
{
    if k < r.len() {
        lemma_ins_pos_bound(r, x, k + 1);
    }
}

/// Merging the single keys of `n1` and `n2` in the pointed cube, when it
/// has both: the merge succeeds, and the pointed cube then has their pair
/// key in place of the two single keys, its other keys as before; every
/// other cube, the map and the pointer are kept.
pub proof fn law_merge_pairs_singles(v: DllView, n1: Seq<char>, n2: Seq<char>)
    requires
        v.wf(),
        v.pointer is Some,
        v.lookup(n1) is Some,
        v.lookup(n2) is Some,
        v.cubes[v.lookup(n1)->0 as int].name == n1,
        v.cubes[v.lookup(n2)->0 as int].name == n2,
        has_key(v.cubes[v.pointer->0 as int].fused_by, KeyView::Single(n1)),
        has_key(v.cubes[v.pointer->0 as int].fused_by, KeyView::Single(n2)),
    ensures
        spec_merge(v, n1, n2).2 is Ok,
        spec_merge(v, n1, n2).0.hashmap == v.hashmap,
        spec_merge(v, n1, n2).0.pointer == v.pointer,
        spec_merge(v, n1, n2).0.cubes.len() == v.cubes.len(),
        forall|x: int| 0 <= x < v.cubes.len() && x != v.pointer->0 ==> #[trigger] spec_merge(v, n1, n2).0.cubes[x] == v.cubes[x],
        forall|k: KeyView|
            #[trigger] has_key(spec_merge(v, n1, n2).0.cubes[v.pointer->0 as int].fused_by, k) <==> (k == pair_key(n1, n2) || (
            has_key(v.cubes[v.pointer->0 as int].fused_by, k) && k != KeyView::Single(n1) && k != KeyView::Single(n2))),
{
    let p = v.pointer->0 as int;
    let fb = v.cubes[p].fused_by;
    assert(v.cubes[p].wf(v.cubes.len()));
    let f1 = key_remove(fb, KeyView::Single(n1));
    let f2 = key_remove(f1, KeyView::Single(n2));
    let i1 = v.lookup(n1)->0;
    let i2 = v.lookup(n2)->0;
    lemma_insert_remove(fb, KeyView::Single(n1), (i1, i2));
    lemma_insert_remove(f1, KeyView::Single(n2), (i1, i2));
    lemma_insert_remove(f2, pair_key(n1, n2), (i1, i2));
    let w = spec_merge(v, n1, n2).0;
    assert(w.cubes[p].fused_by == key_insert(f2, pair_key(n1, n2), (i1, i2)));
}

/// Sorting by insertion keeps the entries: as many, and the same ones.
pub proof fn law_isort_permutes(s: Seq<(Seq<char>, usize)>)
    ensures
        isort(s).len() == s.len(),
        forall|e: (Seq<char>, usize)| #[trigger] isort(s).contains(e) <==> s.contains(e),
    decreases s.len(),
{
    if s.len() > 0 {
        let d = s.drop_last();
        law_isort_permutes(d);
        let r = isort(d);
        let k = ins_pos(r, s.last().0, 0);
        lemma_ins_pos_bound(r, s.last().0, 0);
        let r2 = r.insert(k as int, s.last());
        assert forall|e: (Seq<char>, usize)| #[trigger] r2.contains(e) <==> s.contains(e) by {
            if r2.contains(e) {
                let i = choose|i: int| 0 <= i < r2.len() && r2[i] == e;
                if i < k {
                    assert(r.contains(e) && r[i] == e);
                    assert(d.contains(e));
                    let j = choose|j: int| 0 <= j < d.len() && d[j] == e;
                    assert(s[j] == e);
                } else if i == k {
                    assert(s[s.len() - 1] == e);
                } else {
                    assert(r[i - 1] == e);
                    assert(r.contains(e));
                    assert(d.contains(e));
                    let j = choose|j: int| 0 <= j < d.len() && d[j] == e;
                    assert(s[j] == e);
                }
            }
            if s.contains(e) {
                let j = choose|j: int| 0 <= j < s.len() && s[j] == e;
                if j == s.len() - 1 {
                    assert(r2[k as int] == e);
                } else {
                    assert(d[j] == e);
                    assert(r.contains(e));
                    let i = choose|i: int| 0 <= i < r.len() && r[i] == e;
                    if i < k {
                        assert(r2[i] == e);
                    } else {
                        assert(r2[i + 1] == e);
                    }
                }
            }
        }
    }
}

/// Sorting by insertion keeps names pairwise different.
pub proof fn law_isort_keeps_distinct(s: Seq<(Seq<char>, usize)>)
    requires
        keys_distinct(s),
    ensures
        keys_distinct(isort(s)),
    decreases s.len(),
{
    if s.len() > 0 {
        let d = s.drop_last();
        let x = s.last();
        law_isort_keeps_distinct(d);
        law_isort_permutes(d);
        let r = isort(d);
        let k = ins_pos(r, x.0, 0);
        lemma_ins_pos_bound(r, x.0, 0);
        let r2 = r.insert(k as int, x);
        assert forall|t: int| 0 <= t < r.len() implies #[trigger] r[t].0 != x.0 by {
            assert(r.contains(r[t]));
            assert(d.contains(r[t]));
            let j = choose|j: int| 0 <= j < d.len() && d[j] == r[t];
            assert(s[j] == d[j]);
            assert(s[s.len() - 1] == x);
        }
        assert forall|a: int, b: int| 0 <= a < b < r2.len() implies #[trigger] r2[a].0 != #[trigger] r2[b].0 by {
            if a < k && b < k {
                assert(r2[a] == r[a] && r2[b] == r[b]);
            } else if a < k && b == k {
                assert(r2[a] == r[a]);
            } else if a < k {
                assert(r2[a] == r[a] && r2[b] == r[b - 1]);
            } else if a == k {
                assert(r2[b] == r[b - 1]);
            } else {
                assert(r2[a] == r[a - 1] && r2[b] == r[b - 1]);
            }
        }
    }
}

proof fn lemma_filtered_all(hm: Seq<(Seq<char>, usize)>, i: nat)
    requires
        i <= hm.len(),
    ensures
        filtered(hm, None, i) == hm.subrange(0, i as int),
    decreases i,
{
    if i > 0 {
        lemma_filtered_all(hm, (i - 1) as nat);
        assert(hm.subrange(0, i as int) =~= hm.subrange(0, i - 1).push(hm[i - 1]));
    }
}

/// `cube_keys` lists as many names as `cube_count` counts, for every filter.
pub proof fn law_keys_match_count(hm: Seq<(Seq<char>, usize)>, f: Option<Seq<char>>)
    ensures
        names_of(isort(filtered(hm, f, hm.len()))).len() == filtered(hm, f, hm.len()).len(),
{
    law_isort_permutes(filtered(hm, f, hm.len()));
}

/// A name exists exactly when `cube_keys` with no filter lists it.
pub proof fn law_exists_iff_listed(hm: Seq<(Seq<char>, usize)>, k: Seq<char>)
    ensures
        has_key(hm, k) <==> names_of(isort(filtered(hm, None, hm.len()))).contains(k),
{
    let f = filtered(hm, None, hm.len());
    lemma_filtered_all(hm, hm.len());
    assert(f =~= hm);
    law_isort_permutes(f);
    let r = isort(f);
    if has_key(hm, k) {
        let j = choose|j: int| 0 <= j < hm.len() && #[trigger] hm[j].0 == k;
        assert(f.contains(hm[j]));
        assert(r.contains(hm[j]));
        let i = choose|i: int| 0 <= i < r.len() && r[i] == hm[j];
        assert(names_of(r)[i] == k);
    }
    if names_of(r).contains(k) {
        let i = choose|i: int| 0 <= i < names_of(r).len() && names_of(r)[i] == k;
        assert(r.contains(r[i]));
        assert(f.contains(r[i]));
        let j = choose|j: int| 0 <= j < f.len() && f[j] == r[i];
        assert(hm[j].0 == k);
    }
}

/// Finding and filtering ignore case: two texts with the same lower case
/// give the same names.
pub proof fn law_find_ignores_case(hm: Seq<(Seq<char>, usize)>, p1: Seq<char>, p2: Seq<char>, starts: bool, i: nat)
    requires
        lowercase(p1) == lowercase(p2),
    ensures
        found_names(hm, p1, starts, i) == found_names(hm, p2, starts, i),
        filtered(hm, Some(p1), i) == filtered(hm, Some(p2), i),
    decreases i,
{
    if i > 0 {
        law_find_ignores_case(hm, p1, p2, starts, (i - 1) as nat);
    }
}

/// Unlinking a key from the pointed cube `p` takes away only conversions
/// that no key left on `p` needs: a cube that a remaining key of `p` names
/// keeps all its conversions; a cube of the removed key that no remaining
/// key names no longer converts to `p`; and no other cube changes.
pub proof fn law_unlink_keeps_needed_conversions(v: DllView, n1: Seq<char>, n2: Option<Seq<char>>)
    requires
        v.wf(),
    ensures
        spec_unlink_keys(v, n1, n2).2 is Ok ==> ({
            let w = spec_unlink_keys(v, n1, n2).0;
            let p = v.pointer->0 as int;
            let i1 = v.lookup(n1)->0 as int;
            let i2 = match n2 {
                Some(m) => v.lookup(m)->0 as int,
                None => i1,
            };
            &&& w.cubes.len() == v.cubes.len()
            &&& forall|x: int|
                0 <= x < v.cubes.len() && keys_mention(w.cubes[p].fused_by, v.cubes[x].name) ==> #[trigger] w.cubes[x].converts_to
                    == v.cubes[x].converts_to
            &&& forall|x: int| 0 <= x < v.cubes.len() && x != i1 && x != i2 ==> #[trigger] w.cubes[x].converts_to == v.cubes[x].converts_to
            &&& !keys_mention(w.cubes[p].fused_by, v.cubes[i1].name) ==> !has_key(w.cubes[i1].converts_to, v.cubes[p].name)
            &&& !keys_mention(w.cubes[p].fused_by, v.cubes[i2].name) ==> !has_key(w.cubes[i2].converts_to, v.cubes[p].name)
        }),
{
    reveal(spec_remove_to_maybe);
    reveal(spec_remove_fb_key);
    if spec_unlink_keys(v, n1, n2).2 is Ok {
        let p = v.pointer->0 as int;
        let pn = v.cubes[p].name;
        lemma_find_key(v.hashmap, n1);
        let i1 = v.lookup(n1)->0 as int;
        let i2 = match n2 {
            Some(m) => {
                lemma_find_key(v.hashmap, m);
                v.lookup(m)->0 as int
            },
            None => i1,
        };
        assert(0 <= i1 < v.cubes.len() && 0 <= i2 < v.cubes.len());
        let k = match n2 {
            Some(m) => pair_key(v.cubes[i1].name, v.cubes[i2].name),
            None => KeyView::Single(v.cubes[i1].name),
        };
        let v1 = spec_remove_fb_key(v, p, k).0;
        assert(forall|x: int| 0 <= x < v.cubes.len() ==> (#[trigger] v1.cubes[x]).converts_to == v.cubes[x].converts_to
            && v1.cubes[x].name == v.cubes[x].name);
        let v2 = spec_remove_to_maybe(v1, i1, p).0;
        assert(v2.cubes[p].fused_by == v1.cubes[p].fused_by);
        assert(forall|x: int| 0 <= x < v.cubes.len() ==> (#[trigger] v2.cubes[x]).name == v.cubes[x].name && v2.cubes[x].fused_by
            == v1.cubes[x].fused_by);
        assert(fb_mentions(v1, p, v.cubes[i1].name) == keys_mention(v1.cubes[p].fused_by, v.cubes[i1].name));
        assert(fb_mentions(v2, p, v.cubes[i2].name) == keys_mention(v1.cubes[p].fused_by, v.cubes[i2].name));
        assert(v.cubes[i1].wf(v.cubes.len()));
        assert(v.cubes[i2].wf(v.cubes.len()));
        lemma_insert_remove(v.cubes[i1].converts_to, pn, 0usize);
        lemma_insert_remove(v.cubes[i2].converts_to, pn, 0usize);
        let w = spec_unlink_keys(v, n1, n2).0;
        assert(w.cubes[p].fused_by == v1.cubes[p].fused_by);
        if i1 != i2 {
            assert(v.cubes[i1].name != v.cubes[i2].name) by {
                let j1 = find_key(v.hashmap, n1);
                assert(v.cubes[v.hashmap[j1].1 as int].name == v.hashmap[j1].0);
                if let Some(m) = n2 {
                    let j2 = find_key(v.hashmap, m);
                    assert(v.cubes[v.hashmap[j2].1 as int].name == v.hashmap[j2].0);
                }
            }
        }
    }
}

/// The keys of `fb` that name `pn`, in order.
pub open spec fn naming_keys(fb: Seq<(KeyView, (usize, usize))>, pn: Seq<char>) -> Seq<(KeyView, (usize, usize))> {
    fb.filter(|e: (KeyView, (usize, usize))| key_mentions(e.0, pn))
}

/// Cube `c`, with each of its keys (among the first `j`) that names `pn`.
pub open spec fn cube_fusions(v: DllView, pn: Seq<char>, c: int, j: nat) -> Seq<(Seq<char>, KeyView)> {
    naming_keys(v.cubes[c].fused_by.take(j as int), pn).map_values(|e: (KeyView, (usize, usize))| (v.cubes[c].name, e.0))
}

/// Every cube of the first `i` names of the map, with each of its keys
/// that names `pn`, in map order and key order.
pub open spec fn map_fusions(v: DllView, pn: Seq<char>, i: nat) -> Seq<(Seq<char>, KeyView)>
    decreases i,
{
    if i == 0 || i > v.hashmap.len() {
        Seq::empty()
    } else {
        let c = v.hashmap[i - 1].1 as int;
        map_fusions(v, pn, (i - 1) as nat) + cube_fusions(v, pn, c, v.cubes[c].fused_by.len())
    }
}

/// The first `k` fusions `es` written one a line, numbered from `base`.
pub open spec fn fusion_text(es: Seq<(Seq<char>, KeyView)>, base: nat, k: nat) -> Seq<char>
    decreases k,
{
    if k == 0 || k > es.len() {
        Seq::empty()
    } else {
        fusion_text(es, base, (k - 1) as nat) + nat_decimal((base + k - 1) as nat) + ": "@ + es[k - 1].0 + " made with "@
            + key_text(es[k - 1].1) + "\n"@
    }
}

proof fn lemma_fusion_text_prefix(s1: Seq<(Seq<char>, KeyView)>, s2: Seq<(Seq<char>, KeyView)>, base: nat, k: nat)
    requires
        k <= s1.len(),
        k <= s2.len(),
        forall|i: int| 0 <= i < k ==> s1[i] == s2[i],
    ensures
        fusion_text(s1, base, k) == fusion_text(s2, base, k),
    decreases k,
{
    if k > 0 {
        lemma_fusion_text_prefix(s1, s2, base, (k - 1) as nat);
    }
}

proof fn lemma_fusion_text_concat(a: Seq<(Seq<char>, KeyView)>, b: Seq<(Seq<char>, KeyView)>, base: nat, k: nat)
    requires
        k <= b.len(),
    ensures
        fusion_text(a + b, base, a.len() + k) == fusion_text(a, base, a.len()) + fusion_text(b, base + a.len(), k),
    decreases k,
{
    if k == 0 {
        lemma_fusion_text_prefix(a + b, a, base, a.len());
        assert(fusion_text(b, base + a.len(), 0) =~= Seq::<char>::empty());
    } else {
        lemma_fusion_text_concat(a, b, base, (k - 1) as nat);
        assert((a + b)[a.len() + k - 1] == b[k - 1]);
        assert((base + (a.len() + k) - 1) as nat == ((base + a.len()) + k - 1) as nat);
    }
}

proof fn lemma_cube_fusions_step(v: DllView, pn: Seq<char>, c: int, j: nat)
    requires
        0 < j <= v.cubes[c].fused_by.len(),
    ensures
        cube_fusions(v, pn, c, j) == cube_fusions(v, pn, c, (j - 1) as nat) + if key_mentions(v.cubes[c].fused_by[j - 1].0, pn) {
            seq![(v.cubes[c].name, v.cubes[c].fused_by[j - 1].0)]
        } else {
            Seq::empty()
        },
{
    let fb = v.cubes[c].fused_by;
    let t = fb.take(j as int);
    reveal(Seq::filter);
    assert(t.drop_last() =~= fb.take(j - 1));
    assert(t.last() == fb[j - 1]);
    let f = naming_keys(t, pn);
    let f0 = naming_keys(fb.take(j - 1), pn);
    let g = |e: (KeyView, (usize, usize))| (v.cubes[c].name, e.0);
    if key_mentions(fb[j - 1].0, pn) {
        assert(f == f0.push(fb[j - 1]));
        assert(f.map_values(g) =~= f0.map_values(g) + seq![(v.cubes[c].name, fb[j - 1].0)]);
    } else {
        assert(f == f0);
        assert(f.map_values(g) =~= f0.map_values(g) + Seq::<(Seq<char>, KeyView)>::empty());
    }
}

proof fn lemma_fusion_lines(v: DllView, pn: Seq<char>, c: int, j: nat, n: usize)
    requires
        j <= v.cubes[c].fused_by.len(),
        n + cube_fusions(v, pn, c, j).len() <= usize::MAX,
    ensures
        fusion_lines(v, pn, c, j, n) == (
            fusion_text(cube_fusions(v, pn, c, j), n as nat, cube_fusions(v, pn, c, j).len()),
            (n + cube_fusions(v, pn, c, j).len()) as usize,
        ),
    decreases j,
{
    if j == 0 {
        reveal(Seq::filter);
        assert(v.cubes[c].fused_by.take(0) =~= Seq::<(KeyView, (usize, usize))>::empty());
        assert(cube_fusions(v, pn, c, 0) =~= Seq::<(Seq<char>, KeyView)>::empty());
    } else {
        lemma_cube_fusions_step(v, pn, c, j);
        let f0 = cube_fusions(v, pn, c, (j - 1) as nat);
        let f = cube_fusions(v, pn, c, j);
        lemma_fusion_lines(v, pn, c, (j - 1) as nat, n);
        let fb = v.cubes[c].fused_by;
        if key_mentions(fb[j - 1].0, pn) {
            let m = (n + f0.len()) as usize;
            assert(m != usize::MAX);
            lemma_fusion_text_prefix(f, f0, n as nat, f0.len());
            assert(f[f0.len() as int] == (v.cubes[c].name, fb[j - 1].0));
        } else {
            assert(f =~= f0);
        }
    }
}

proof fn lemma_fusions_fold(v: DllView, pn: Seq<char>, i: nat)
    requires
        i <= v.hashmap.len(),
        1 + map_fusions(v, pn, i).len() <= usize::MAX,
        forall|j: int| 0 <= j < v.hashmap.len() ==> (#[trigger] v.hashmap[j]).1 < v.cubes.len(),
    ensures
        fusions_fold(v, pn, i) == (
            fusion_text(map_fusions(v, pn, i), 1, map_fusions(v, pn, i).len()),
            (1 + map_fusions(v, pn, i).len()) as usize,
        ),
    decreases i,
{
    if i == 0 {
        assert(fusion_text(Seq::<(Seq<char>, KeyView)>::empty(), 1, 0) =~= Seq::<char>::empty());
    } else {
        let a = map_fusions(v, pn, (i - 1) as nat);
        let c = v.hashmap[i - 1].1 as int;
        let b = cube_fusions(v, pn, c, v.cubes[c].fused_by.len());
        assert(map_fusions(v, pn, i) == a + b);
        lemma_fusions_fold(v, pn, (i - 1) as nat);
        let n = (1 + a.len()) as usize;
        lemma_fusion_lines(v, pn, c, v.cubes[c].fused_by.len(), n);
        lemma_fusion_text_concat(a, b, 1, b.len());
    }
}

/// `get_fusions` writes one numbered line for every key, of every cube of
/// the map, that names the pointed cube: the lines list the cubes in map
/// order, each with all its keys that name the cube, numbered from 1.
pub proof fn law_fusions_list_every_naming_key(v: DllView)
    requires
        v.wf(),
        v.pointer is Some,
        1 + map_fusions(v, v.cubes[v.pointer->0 as int].name, v.hashmap.len()).len() <= usize::MAX,
    ensures
        ({
            let pn = v.cubes[v.pointer->0 as int].name;
            let fs = map_fusions(v, pn, v.hashmap.len());
            &&& spec_fusions(v).0 == fusion_text(fs, 1, fs.len())
            &&& spec_fusions(v).1 is Ok
        }),
{
    let pn = v.cubes[v.pointer->0 as int].name;
    lemma_fusions_fold(v, pn, v.hashmap.len());
}

/// What finding looks for in a name: the lower case of the name begins
/// with, or contains, the lower case of the text.
pub open spec fn find_hit(name: Seq<char>, pat: Seq<char>, starts: bool) -> bool {
    let n = lowercase(name);
    let p = lowercase(pat);
    if starts {
        p.len() <= n.len() && n.subrange(0, p.len() as int) == p
    } else {
        has_substring(n, p)
    }
}

proof fn lemma_found_names(hm: Seq<(Seq<char>, usize)>, pat: Seq<char>, starts: bool, i: nat)
    requires
        i <= hm.len(),
    ensures
        forall|nm: Seq<char>| #[trigger] found_names(hm, pat, starts, i).contains(nm) <==> (exists|j: int|
            0 <= j < i && #[trigger] hm[j].0 == nm) && find_hit(nm, pat, starts),
    decreases i,
{
    if i > 0 {
        lemma_found_names(hm, pat, starts, (i - 1) as nat);
        let rest = found_names(hm, pat, starts, (i - 1) as nat);
        let e = hm[i - 1].0;
        assert forall|nm: Seq<char>| #[trigger] found_names(hm, pat, starts, i).contains(nm) <==> (exists|j: int|
            0 <= j < i && #[trigger] hm[j].0 == nm) && find_hit(nm, pat, starts) by {
            let f = found_names(hm, pat, starts, i);
            if f.contains(nm) {
                let k = choose|k: int| 0 <= k < f.len() && f[k] == nm;
                if k < rest.len() && f == rest.push(e) {
                    assert(rest.contains(nm) && rest[k] == nm);
                } else if f == rest {
                    assert(rest[k] == nm);
                    assert(rest.contains(nm));
                } else {
                    assert(nm == e);
                    assert(hm[i - 1].0 == nm);
                }
            }
            if (exists|j: int| 0 <= j < i && #[trigger] hm[j].0 == nm) && find_hit(nm, pat, starts) {
                let j = choose|j: int| 0 <= j < i && #[trigger] hm[j].0 == nm;
                if j < i - 1 {
                    assert(rest.contains(nm));
                    let k = choose|k: int| 0 <= k < rest.len() && rest[k] == nm;
                    if f == rest.push(e) {
                        assert(f[k] == nm);
                    }
                } else {
                    assert(nm == e);
                    assert(f == rest.push(e));
                    assert(f[rest.len() as int] == nm);
                }
            }
        }
    }
}

/// Finding lists exactly the names of the map whose lower case begins
/// with (or contains) the lower case of the text, in the order of the
/// map's entries.
pub proof fn law_find_matches_lower_case(hm: Seq<(Seq<char>, usize)>, pat: Seq<char>, starts: bool)
    ensures
        forall|nm: Seq<char>| #[trigger] found_names(hm, pat, starts, hm.len()).contains(nm) <==> has_key(hm, nm) && find_hit(
            nm,
            pat,
            starts,
        ),
        found_names(hm, pat, starts, hm.len()) == names_of(hm).filter(|nm: Seq<char>| find_hit(nm, pat, starts)),
{
    lemma_found_names(hm, pat, starts, hm.len());
    lemma_found_names_filter(hm, pat, starts, hm.len());
    assert(hm.subrange(0, hm.len() as int) =~= hm);
}

/// The names found among the first `i` entries are those of the entries,
/// in order, that match.
proof fn lemma_found_names_filter(hm: Seq<(Seq<char>, usize)>, pat: Seq<char>, starts: bool, i: nat)
    requires
        i <= hm.len(),
    ensures
        found_names(hm, pat, starts, i) == names_of(hm.subrange(0, i as int)).filter(
            |nm: Seq<char>| find_hit(nm, pat, starts),
        ),
    decreases i,
{
    reveal(Seq::filter);
    let s = names_of(hm.subrange(0, i as int));
    if i == 0 {
        assert(s =~= Seq::<Seq<char>>::empty());
    } else {
        lemma_found_names_filter(hm, pat, starts, (i - 1) as nat);
        assert(s.drop_last() =~= names_of(hm.subrange(0, i - 1)));
        assert(s.last() == hm[i - 1].0);
    }
}

/// The commands that only read, and those that wait for a confirmation,
/// leave the interpreter as it was.
pub proof fn law_reading_commands_change_nothing(v: TuiView, a: Seq<Seq<char>>, cmd: Command, usage: Seq<char>)
    requires
        cmd == Command::ReadAll || cmd == Command::Find || cmd == Command::Todo || cmd == Command::Usage || cmd
            == Command::RemoveAll || cmd == Command::SaveTo || cmd == Command::LoadFrom,
    ensures
        spec_command(v, a, cmd, usage).0 == v,
{
}

proof fn lemma_add_key_keeps(t: TreeView, x: Seq<char>, k: KeyView)
    requires
        has_key(t.cubes, x),
    ensures
        forall|n: Seq<char>| #[trigger] has_key(t.cubes, n) ==> has_key(tree_add_key(t, x, k).cubes, n),
        tree_add_key(t, x, k).parent == t.parent,
{
    lemma_find_key(t.cubes, x);
    let u = tree_add_key(t, x, k).cubes;
    assert forall|n: Seq<char>| #[trigger] has_key(t.cubes, n) implies has_key(u, n) by {
        let j = choose|j: int| 0 <= j < t.cubes.len() && #[trigger] t.cubes[j].0 == n;
        assert(u[j].0 == n);
    }
}

proof fn lemma_grow_root(v: DllView, t: TreeView, x: Seq<char>, fuel: nat)
    ensures
        grow(v, t, x, fuel).0.parent == (if t.parent is None {
            Some(x)
        } else {
            t.parent
        }),
        has_key(grow(v, t, x, fuel).0.cubes, x),
        forall|n: Seq<char>| #[trigger] has_key(t.cubes, n) ==> has_key(grow(v, t, x, fuel).0.cubes, n),
    decreases fuel, 0nat,
{
    let (t1, fresh) = tree_add_cube(t, x);
    assert forall|n: Seq<char>| #[trigger] has_key(t.cubes, n) implies has_key(t1.cubes, n) by {
        let j = choose|j: int| 0 <= j < t.cubes.len() && #[trigger] t.cubes[j].0 == n;
        assert(t1.cubes[j].0 == n);
    }
    if !has_key(t.cubes, x) {
        assert(t1.cubes[t.cubes.len() as int].0 == x);
    }
    if fresh {
        match v.lookup(x) {
            None => {},
            Some(c) => if fuel > 0 {
                lemma_grow_keys_root(v, t1, x, v.cubes[c as int].fused_by, 0, (fuel - 1) as nat);
            },
        }
    }
}

proof fn lemma_grow_keys_root(
    v: DllView,
    t: TreeView,
    x: Seq<char>,
    fb: Seq<(KeyView, (usize, usize))>,
    j: nat,
    fuel: nat,
)
    requires
        has_key(t.cubes, x),
        t.parent is Some,
    ensures
        grow_keys(v, t, x, fb, j, fuel).0.parent == t.parent,
        forall|n: Seq<char>| #[trigger] has_key(t.cubes, n) ==> has_key(grow_keys(v, t, x, fb, j, fuel).0.cubes, n),
    decreases fuel, (fb.len() - j) as nat,
{
    if j < fb.len() {
        let k = fb[j as int].0;
        lemma_add_key_keeps(t, x, k);
        let t1 = tree_add_key(t, x, k);
        match k {
            KeyView::Pair(a, b) => {
                lemma_grow_root(v, t1, a, fuel);
                let ta = grow(v, t1, a, fuel).0;
                lemma_grow_root(v, ta, b, fuel);
                let t2 = grow(v, ta, b, fuel).0;
                if grow(v, t1, a, fuel).1 && grow(v, ta, b, fuel).1 {
                    lemma_grow_keys_root(v, t2, x, fb, j + 1, fuel);
                }
            },
            KeyView::Single(a) => {
                lemma_grow_root(v, t1, a, fuel);
                let t2 = grow(v, t1, a, fuel).0;
                if grow(v, t1, a, fuel).1 {
                    lemma_grow_keys_root(v, t2, x, fb, j + 1, fuel);
                }
            },
        }
    }
}

/// The tree of a cube has that cube as its parent, and holds it.
pub proof fn law_tree_root(v: DllView, x: Seq<char>)
    ensures
        tree_of(v, x).0.parent == Some(x),
        has_key(tree_of(v, x).0.cubes, x),
{
    lemma_grow_root(v, empty_tree(), x, v.hashmap.len() as nat);
}

} // verus!
