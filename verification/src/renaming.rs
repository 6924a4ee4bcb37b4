//! Renaming a cube: the map, the pointed cube and the keys of the cubes it
//! converts to follow the new name.
use vstd::prelude::*;
use crate::assoc::{
    find_key, has_key, value_of, key_insert, key_remove, keys_distinct, ids_below, pairs_below, lemma_find_key,
    lemma_find_key_at, lemma_insert_remove, lemma_ids_below, lemma_pairs_below,
};
use crate::cube::{
    DllView, same_frame, rebind, spec_rename_fb_step, rename_fb_fold, spec_rename_ct_step, rename_ct_fold, mentioning,
    rewrite_fold, spec_rename, lemma_set_ct_wf, lemma_set_fb_wf, lemma_set_fields_wf, unknown_name,
};
use crate::fuse_key::{KeyView, key_mentions, rewrite_key, renamed, pair_key};

verus! {

/// The keys that `mentioning` gathers name `n`, and every key among the
/// first `i` entries that names `n` is gathered.
proof fn lemma_mentioning(fb: Seq<(KeyView, (usize, usize))>, n: Seq<char>, i: nat)
    requires
        i <= fb.len(),
    ensures
        forall|m: int| 0 <= m < mentioning(fb, n, i).len() ==> key_mentions(#[trigger] mentioning(fb, n, i)[m], n),
        forall|y: int| 0 <= y < i && key_mentions(#[trigger] fb[y].0, n) ==> mentioning(fb, n, i).contains(fb[y].0),
    decreases i,
{
    if i > 0 {
        lemma_mentioning(fb, n, (i - 1) as nat);
        let p = mentioning(fb, n, (i - 1) as nat);
        if key_mentions(fb[i - 1].0, n) {
            let q = p.push(fb[i - 1].0);
            assert forall|y: int| 0 <= y < i && key_mentions(#[trigger] fb[y].0, n) implies q.contains(fb[y].0) by {
                if y < i - 1 {
                    let m = choose|m: int| 0 <= m < p.len() && p[m] == fb[y].0;
                    assert(q[m] == fb[y].0);
                } else {
                    assert(q[p.len() as int] == fb[y].0);
                }
            }
        }
    }
}

/// A rewritten key no longer names the old name.
proof fn lemma_rewrite_key(k: KeyView, o: Seq<char>, t: Seq<char>)
    requires
        o != t,
        key_mentions(k, o),
    ensures
        !key_mentions(rewrite_key(k, o, t), o),
{
    match k {
        KeyView::Pair(a, b) => {
            let ra = renamed(a, o, t);
            let rb = renamed(b, o, t);
            assert(ra != o && rb != o);
            assert(pair_key(ra, rb) == KeyView::Pair(ra, rb) || pair_key(ra, rb) == KeyView::Pair(rb, ra));
        },
        KeyView::Single(a) => {},
    }
}

/// Rewriting the gathered keys one after another keeps the keys pairwise
/// different and their links in the arena; once all are rewritten, no key
/// names the old name.
proof fn lemma_rewrite_fold(
    fb: Seq<(KeyView, (usize, usize))>,
    ks: Seq<KeyView>,
    o: Seq<char>,
    t: Seq<char>,
    n: nat,
    j: nat,
)
    requires
        keys_distinct(fb),
        pairs_below(fb, n),
        o != t,
        j <= ks.len(),
        forall|m: int| 0 <= m < ks.len() ==> key_mentions(#[trigger] ks[m], o),
        forall|x: KeyView| has_key(fb, x) && key_mentions(x, o) ==> #[trigger] ks.contains(x),
    ensures
        keys_distinct(rewrite_fold(fb, ks, o, t, j).0),
        pairs_below(rewrite_fold(fb, ks, o, t, j).0, n),
        rewrite_fold(fb, ks, o, t, j).1 ==> forall|x: KeyView|
            #[trigger] has_key(rewrite_fold(fb, ks, o, t, j).0, x) && key_mentions(x, o) ==> exists|m: int|
                j <= m < ks.len() && ks[m] == x,
    decreases j,
{
    if j == 0 {
        assert forall|x: KeyView| #[trigger] has_key(fb, x) && key_mentions(x, o) implies exists|m: int|
            0 <= m < ks.len() && ks[m] == x by {
            assert(ks.contains(x));
        }
    } else {
        lemma_rewrite_fold(fb, ks, o, t, n, (j - 1) as nat);
        let (f, ok) = rewrite_fold(fb, ks, o, t, (j - 1) as nat);
        let k = ks[j - 1];
        if ok && has_key(f, k) {
            lemma_find_key(f, k);
            let val = value_of(f, k);
            assert(val == f[find_key(f, k)].1);
            let r = key_remove(f, k);
            let nk = rewrite_key(k, o, t);
            lemma_insert_remove(f, k, val);
            lemma_insert_remove(r, nk, val);
            lemma_pairs_below(f, k, val, n);
            lemma_pairs_below(r, nk, val, n);
            lemma_rewrite_key(k, o, t);
            let f2 = key_insert(r, nk, val);
            assert(rewrite_fold(fb, ks, o, t, j).0 == f2);
            assert forall|x: KeyView| #[trigger] has_key(f2, x) && key_mentions(x, o) implies exists|m: int|
                j <= m < ks.len() && ks[m] == x by {
                assert(x != nk);
                assert(has_key(r, x));
                assert(has_key(f, x) && x != k);
                let m = choose|m: int| j - 1 <= m < ks.len() && ks[m] == x;
                assert(m != j - 1);
            }
        }
    }
}


/// Cube `x` converts to the new name `t` and no longer to the old name `o`.
pub open spec fn moved(r: DllView, x: int, o: Seq<char>, t: Seq<char>) -> bool {
    !has_key(r.cubes[x].converts_to, o) && has_key(r.cubes[x].converts_to, t)
}

/// Moving the conversion of cube `c` to the new name keeps the graph well
/// formed and changes nothing but that cube's conversions.
proof fn lemma_rebind(w: DllView, c: int, o: Seq<char>, t: Seq<char>)
    requires
        w.wf(),
        0 <= c < w.cubes.len(),
        rebind(w, c, o, t) is Some,
        o != t,
    ensures
        moved(rebind(w, c, o, t)->0, c, o, t),
        forall|x: int| 0 <= x < w.cubes.len() && x != c ==> (#[trigger] rebind(w, c, o, t)->0.cubes[x]).converts_to == w.cubes[x].converts_to,
        rebind(w, c, o, t)->0.wf(),
        same_frame(w, rebind(w, c, o, t)->0),
        forall|x: int| 0 <= x < w.cubes.len() ==> (#[trigger] rebind(w, c, o, t)->0.cubes[x]).fused_by == w.cubes[x].fused_by,
{
    let ct = w.cubes[c].converts_to;
    let n = w.cubes.len();
    assert(w.cubes[c].wf(n));
    if has_key(ct, o) {
        lemma_find_key(ct, o);
        let val = value_of(ct, o);
        assert(val == ct[find_key(ct, o)].1);
        let r = key_remove(ct, o);
        lemma_insert_remove(ct, o, val);
        lemma_insert_remove(r, t, val);
        lemma_ids_below(ct, o, val, n);
        lemma_ids_below(r, t, val, n);
        lemma_set_ct_wf(w, c, key_insert(r, t, val));
        assert(has_key(key_remove(ct, o), o) <==> (o != o && has_key(ct, o)));
        assert(!has_key(r, o));
        assert(has_key(key_insert(r, t, val), o) <==> (o == t || has_key(r, o)));
        if has_key(r, t) {
            assert(has_key(key_insert(r, t, val), t));
        } else {
            assert(has_key(key_insert(r, t, val), t));
        }
        assert(!has_key(key_insert(r, t, val), o));
        let w2 = w.set_ct(c, key_insert(r, t, val));
        assert(rebind(w, c, o, t) == Some(w2));
        assert(w2.cubes[c].converts_to == key_insert(r, t, val));
    }
}

/// The first stage of renaming, over the keys of the renamed cube, keeps
/// the graph well formed and changes only conversions.
proof fn lemma_fb_fold(v: DllView, o: Seq<char>, t: Seq<char>, fb: Seq<(KeyView, (usize, usize))>, i: nat)
    requires
        v.wf(),
        pairs_below(fb, v.cubes.len()),
        i <= fb.len(),
        o != t,
    ensures
        rename_fb_fold(v, o, t, fb, i).0.wf(),
        same_frame(v, rename_fb_fold(v, o, t, fb, i).0),
        forall|x: int| 0 <= x < v.cubes.len() ==> (#[trigger] rename_fb_fold(v, o, t, fb, i).0.cubes[x]).fused_by == v.cubes[x].fused_by,
        rename_fb_fold(v, o, t, fb, i).2 is None ==> forall|y: int|
            0 <= y < i ==> #[trigger] key_moved(rename_fb_fold(v, o, t, fb, i).0, v, fb[y].1, o, t),
    decreases i,
{
    if i > 0 {
        lemma_fb_fold(v, o, t, fb, (i - 1) as nat);
        let (w, tx, e) = rename_fb_fold(v, o, t, fb, (i - 1) as nat);
        if e is None {
            reveal(spec_rename_fb_step);
            let ids = fb[i - 1].1;
            let a = ids.0 as int;
            let b = ids.1 as int;
            if rebind(w, a, o, t) is Some {
                lemma_rebind(w, a, o, t);
                let w1 = rebind(w, a, o, t)->0;
                let r = rename_fb_fold(v, o, t, fb, i).0;
                assert forall|x: int| 0 <= x < v.cubes.len() && #[trigger] moved(w, x, o, t) implies moved(r, x, o, t) by {
                    if x != a {
                        assert(w1.cubes[x].converts_to == w.cubes[x].converts_to);
                    }
                    if w1.cubes[a].name != w1.cubes[b].name && rebind(w1, b, o, t) is Some {
                        lemma_rebind(w1, b, o, t);
                        if x != b {
                            assert(r.cubes[x].converts_to == w1.cubes[x].converts_to);
                        }
                    }
                }
                if w1.cubes[a].name != w1.cubes[b].name && rebind(w1, b, o, t) is Some {
                    lemma_rebind(w1, b, o, t);
                    assert(moved(r, a, o, t)) by {
                        assert(r.cubes[a].converts_to == w1.cubes[a].converts_to);
                    }
                }
                if rename_fb_fold(v, o, t, fb, i).2 is None {
                    assert forall|y: int| 0 <= y < i implies #[trigger] key_moved(r, v, fb[y].1, o, t) by {
                        if y < i - 1 {
                            assert(key_moved(w, v, fb[y].1, o, t));
                            assert(moved(w, fb[y].1.0 as int, o, t));
                        }
                    }
                }
            }
        }
    }
}

/// The cubes of a key moved their conversion: the first one, and the
/// second one when it bears another name in `nm`.
pub open spec fn key_moved(r: DllView, nm: DllView, ids: (usize, usize), o: Seq<char>, t: Seq<char>) -> bool {
    &&& moved(r, ids.0 as int, o, t)
    &&& nm.cubes[ids.0 as int].name != nm.cubes[ids.1 as int].name ==> moved(r, ids.1 as int, o, t)
}

/// Rewriting the keys of cube `c` that name the old name keeps the graph
/// well formed and changes only that cube's keys; when it succeeds, no key
/// of the cube names the old name.
proof fn lemma_ct_step(w: DllView, o: Seq<char>, t: Seq<char>, c: int)
    requires
        w.wf(),
        0 <= c < w.cubes.len(),
        o != t,
    ensures
        spec_rename_ct_step(w, o, t, c).0.wf(),
        same_frame(w, spec_rename_ct_step(w, o, t, c).0),
        forall|x: int| 0 <= x < w.cubes.len() ==> (#[trigger] spec_rename_ct_step(w, o, t, c).0.cubes[x]).converts_to == w.cubes[x].converts_to,
        forall|x: int| 0 <= x < w.cubes.len() && x != c ==> (#[trigger] spec_rename_ct_step(w, o, t, c).0.cubes[x]).fused_by == w.cubes[x].fused_by,
        spec_rename_ct_step(w, o, t, c).2 is None ==> forall|k: KeyView|
            #[trigger] has_key(spec_rename_ct_step(w, o, t, c).0.cubes[c].fused_by, k) ==> !key_mentions(k, o),
{
    reveal(spec_rename_ct_step);
    let fb = w.cubes[c].fused_by;
    let n = w.cubes.len();
    assert(w.cubes[c].wf(n));
    let ks = mentioning(fb, o, fb.len());
    lemma_mentioning(fb, o, fb.len());
    assert forall|x: KeyView| has_key(fb, x) && key_mentions(x, o) implies #[trigger] ks.contains(x) by {
        let y = choose|y: int| 0 <= y < fb.len() && #[trigger] fb[y].0 == x;
        assert(key_mentions(fb[y].0, o));
    }
    lemma_rewrite_fold(fb, ks, o, t, n, ks.len());
    let f2 = rewrite_fold(fb, ks, o, t, ks.len()).0;
    lemma_set_fb_wf(w, c, f2);
    let w2 = w.set_fb(c, f2);
    assert(spec_rename_ct_step(w, o, t, c).0 == w2);
    if rewrite_fold(fb, ks, o, t, ks.len()).1 {
        assert forall|k: KeyView| #[trigger] has_key(w2.cubes[c].fused_by, k) implies !key_mentions(k, o) by {
            if key_mentions(k, o) {
                assert(has_key(f2, k));
            }
        }
    }
}

/// The second stage of renaming, over the cubes the renamed cube converts
/// to, keeps the graph well formed and changes only keys; when it
/// succeeds, no key of those cubes names the old name.
proof fn lemma_ct_fold(v: DllView, o: Seq<char>, t: Seq<char>, ct: Seq<(Seq<char>, usize)>, i: nat)
    requires
        v.wf(),
        ids_below(ct, v.cubes.len()),
        o != t,
        i <= ct.len(),
    ensures
        rename_ct_fold(v, o, t, ct, i).0.wf(),
        same_frame(v, rename_ct_fold(v, o, t, ct, i).0),
        forall|x: int| 0 <= x < v.cubes.len() ==> (#[trigger] rename_ct_fold(v, o, t, ct, i).0.cubes[x]).converts_to == v.cubes[x].converts_to,
        rename_ct_fold(v, o, t, ct, i).2 is None ==> forall|m: int, k: KeyView|
            0 <= m < i && #[trigger] has_key(rename_ct_fold(v, o, t, ct, i).0.cubes[ct[m].1 as int].fused_by, k) ==> !key_mentions(k, o),
    decreases i,
{
    if i > 0 {
        lemma_ct_fold(v, o, t, ct, (i - 1) as nat);
        let (w, tx, e) = rename_ct_fold(v, o, t, ct, (i - 1) as nat);
        if e is None {
            let c = ct[i - 1].1 as int;
            lemma_ct_step(w, o, t, c);
            let w2 = spec_rename_ct_step(w, o, t, c).0;
            if spec_rename_ct_step(w, o, t, c).2 is None {
                assert forall|m: int, k: KeyView|
                    0 <= m < i && #[trigger] has_key(w2.cubes[ct[m].1 as int].fused_by, k) implies !key_mentions(k, o) by {
                    let cm = ct[m].1 as int;
                    if cm != c {
                        assert(w2.cubes[cm].fused_by == w.cubes[cm].fused_by);
                        assert(has_key(w.cubes[ct[m].1 as int].fused_by, k));
                    }
                }
            }
        }
    }
}


/// In a list whose keys are pairwise different, the value of the key at
/// position `i` is the value there.
proof fn lemma_value_at<V>(s: Seq<(Seq<char>, V)>, i: int)
    requires
        keys_distinct(s),
        0 <= i < s.len(),
    ensures
        value_of(s, s[i].0) == s[i].1,
{
    assert forall|j: int| 0 <= j < i implies s[j].0 != s[i].0 by {}
    lemma_find_key_at(s, s[i].0, i);
}

/// Moving key `o` to the new key `t`, with its value: every other key
/// keeps its value.
proof fn lemma_move_key(s: Seq<(Seq<char>, usize)>, o: Seq<char>, t: Seq<char>)
    requires
        keys_distinct(s),
        has_key(s, o),
        !has_key(s, t),
    ensures
        ({
            let r = key_insert(key_remove(s, o), t, value_of(s, o));
            &&& has_key(r, t)
            &&& value_of(r, t) == value_of(s, o)
            &&& !has_key(r, o)
            &&& forall|n: Seq<char>| n != o && n != t ==> (#[trigger] has_key(r, n) <==> has_key(s, n))
            &&& forall|n: Seq<char>| n != o && n != t && has_key(s, n) ==> #[trigger] value_of(r, n) == value_of(s, n)
        }),
{
    let val = value_of(s, o);
    let sr = key_remove(s, o);
    let r = key_insert(sr, t, val);
    lemma_find_key(s, o);
    let i0 = find_key(s, o);
    lemma_insert_remove(s, o, val);
    lemma_insert_remove(sr, t, val);
    lemma_find_key(sr, t);
    assert(r == sr.push((t, val)));
    lemma_value_at(r, sr.len() as int);
    assert forall|n: Seq<char>| n != o && n != t && has_key(s, n) implies #[trigger] value_of(r, n) == value_of(s, n) by {
        assert(has_key(r, n));
        let y = choose|y: int| 0 <= y < r.len() && #[trigger] r[y].0 == n;
        assert(y < sr.len());
        lemma_value_at(r, y);
        let z = if y < i0 { y } else { y + 1 };
        assert(r[y] == s[z]);
        lemma_value_at(s, z);
    }
}

/// Renaming the pointed cube, when it succeeds: the cube bears the new
/// name, the map binds the new name to it and no longer binds the old
/// one, every other name keeps its cube, the cubes of its keys convert to
/// the new name and no longer to the old one, and neither the cubes it
/// converts to nor the unknown cube keep a key naming the old name.
pub proof fn law_rename_follows(v: DllView, to: Seq<char>)
    requires
        v.wf(),
        v.pointer is Some,
        v.lookup(v.cubes[v.pointer->0 as int].name) == v.pointer,
    ensures
        spec_rename(v, to).2 is Ok ==> ({
            let w = spec_rename(v, to).0;
            let p = v.pointer->0;
            let o = v.cubes[p as int].name;
            let fb = v.cubes[p as int].fused_by;
            &&& w.cubes[p as int].name == to
            &&& w.lookup(to) == Some(p)
            &&& w.lookup(o) is None
            &&& forall|n: Seq<char>| n != o && n != to ==> #[trigger] w.lookup(n) == v.lookup(n)
            &&& forall|y: int| 0 <= y < fb.len() ==> #[trigger] key_moved(w, v, fb[y].1, o, to)
            &&& forall|m: int, k: KeyView|
                0 <= m < w.cubes[p as int].converts_to.len() && #[trigger] has_key(
                    w.cubes[w.cubes[p as int].converts_to[m].1 as int].fused_by,
                    k,
                ) ==> !key_mentions(k, o)
            &&& match v.lookup(unknown_name()) {
                Some(q) => q != p ==> forall|k: KeyView| #[trigger] has_key(w.cubes[q as int].fused_by, k) ==> !key_mentions(k, o),
                None => true,
            }
        }),
{
    if spec_rename(v, to).2 is Ok {
        let p = v.pointer->0 as int;
        let o = v.cubes[p].name;
        let n = v.cubes.len();
        assert(has_key(v.hashmap, o));
        assert(!has_key(v.hashmap, to));
        assert(o != to);
        let v0 = v;
        let fb = v0.cubes[p].fused_by;
        assert(fb == v.cubes[p].fused_by);
        assert(v0.cubes[p].wf(n));
        lemma_fb_fold(v0, o, to, fb, fb.len());
        let v1 = rename_fb_fold(v0, o, to, fb, fb.len()).0;
        let ct = v1.cubes[p].converts_to;
        assert(v1.cubes[p].wf(n));
        lemma_ct_fold(v1, o, to, ct, ct.len());
        let v2 = rename_ct_fold(v1, o, to, ct, ct.len()).0;
        assert(v2.hashmap == v.hashmap);
        let v3 = match v2.lookup(unknown_name()) {
            Some(q) => if q != p as usize {
                spec_rename_ct_step(v2, o, to, q as int).0
            } else {
                v2
            },
            None => v2,
        };
        if let Some(q) = v2.lookup(unknown_name()) {
            if q != p as usize {
                lemma_find_key(v2.hashmap, unknown_name());
                lemma_ct_step(v2, o, to, q as int);
            }
        }
        lemma_move_key(v.hashmap, o, to);
        let w = spec_rename(v, to).0;
        assert(w.cubes == v3.set_name(p, to).cubes);
        assert(forall|c: int| 0 <= c < n ==> (#[trigger] w.cubes[c]).fused_by == v3.cubes[c].fused_by && w.cubes[c].converts_to
            == v3.cubes[c].converts_to);
        assert(w.hashmap == key_insert(key_remove(v.hashmap, o), to, value_of(v.hashmap, o)));
        assert(v3.cubes[p].converts_to == ct);
        assert forall|n: Seq<char>| n != o && n != to implies #[trigger] w.lookup(n) == v.lookup(n) by {
            assert(has_key(w.hashmap, n) <==> has_key(v.hashmap, n));
        }
        assert forall|y: int| 0 <= y < fb.len() implies #[trigger] key_moved(w, v, fb[y].1, o, to) by {
            assert(key_moved(v1, v, fb[y].1, o, to));
            assert(w.cubes[fb[y].1.0 as int].converts_to == v1.cubes[fb[y].1.0 as int].converts_to);
            assert(w.cubes[fb[y].1.1 as int].converts_to == v1.cubes[fb[y].1.1 as int].converts_to);
        }
        assert forall|m: int, k: KeyView|
            0 <= m < w.cubes[p].converts_to.len() && #[trigger] has_key(w.cubes[w.cubes[p].converts_to[m].1 as int].fused_by, k)
            implies !key_mentions(k, o) by {
            let c = ct[m].1 as int;
            if v3.cubes[c].fused_by == v2.cubes[c].fused_by {
                assert(has_key(v2.cubes[ct[m].1 as int].fused_by, k));
            }
        }
    }
}

} // verus!
