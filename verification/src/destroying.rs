//! Destroying a cube cuts its links: the cubes of its keys stop converting
//! to it, and the cubes it converts to drop the keys that name it.
use vstd::prelude::*;
use crate::assoc::{has_key, key_remove, ids_below, pairs_below, lemma_insert_remove, lemma_ids_below, lemma_find_key};
use crate::cube::{
    DllView, spec_destroy, destroy_fb_fold, destroy_ct_fold, spec_unconvert, strip_fold, spec_strip, keys_mention,
    release_one, release_fold, same_frame, unknown_name, lemma_strip_fold, lemma_set_ct_wf, lemma_set_fb_wf,
};
use crate::fuse_key::{KeyView, key_mentions};

verus! {

/// Taking `name` out of the conversions of cube `c` keeps the graph well
/// formed, and `c` no longer converts to `name`.
proof fn lemma_drop_ct(w: DllView, c: int, name: Seq<char>)
    requires
        w.wf(),
        0 <= c < w.cubes.len(),
    ensures
        w.set_ct(c, key_remove(w.cubes[c].converts_to, name)).wf(),
        !has_key(key_remove(w.cubes[c].converts_to, name), name),
        forall|x: Seq<char>| #[trigger] has_key(key_remove(w.cubes[c].converts_to, name), x) ==> has_key(w.cubes[c].converts_to, x),
{
    let ct = w.cubes[c].converts_to;
    assert(w.cubes[c].wf(w.cubes.len()));
    lemma_insert_remove(ct, name, 0usize);
    lemma_ids_below(ct, name, 0usize, w.cubes.len());
    lemma_set_ct_wf(w, c, key_remove(ct, name));
}

/// The first stage of destroying, over the keys of the destroyed cube:
/// the graph stays well formed, keys and the map do not change, the cubes
/// of the keys seen no longer convert to `name`, and no conversion is
/// added anywhere.
proof fn lemma_destroy_fb(v: DllView, name: Seq<char>, fb: Seq<(KeyView, (usize, usize))>, i: nat, p: int)
    requires
        v.wf(),
        pairs_below(fb, v.cubes.len()),
        i <= fb.len(),
        0 <= p < v.cubes.len(),
        forall|y: int| 0 <= y < fb.len() ==> (#[trigger] fb[y]).1.0 != p && fb[y].1.1 != p,
    ensures
        ({
            let r = destroy_fb_fold(v, name, fb, i).0;
            &&& r.wf()
            &&& r.cubes.len() == v.cubes.len()
            &&& r.hashmap == v.hashmap
            &&& r.cubes[p].converts_to == v.cubes[p].converts_to
            &&& forall|x: int| 0 <= x < v.cubes.len() ==> (#[trigger] r.cubes[x]).fused_by == v.cubes[x].fused_by
            &&& forall|x: int, n: Seq<char>| 0 <= x < v.cubes.len() && #[trigger] has_key(r.cubes[x].converts_to, n) ==> has_key(v.cubes[x].converts_to, n)
            &&& forall|y: int| 0 <= y < i ==> !has_key(r.cubes[(#[trigger] fb[y]).1.0 as int].converts_to, name) && !has_key(r.cubes[fb[y].1.1 as int].converts_to, name)
        }),
    decreases i,
{
    if i > 0 {
        lemma_destroy_fb(v, name, fb, (i - 1) as nat, p);
        let w = destroy_fb_fold(v, name, fb, (i - 1) as nat).0;
        reveal(spec_unconvert);
        let ids = fb[i - 1].1;
        let a = ids.0 as int;
        let b = ids.1 as int;
        lemma_drop_ct(w, a, name);
        let w1 = w.set_ct(a, key_remove(w.cubes[a].converts_to, name));
        lemma_drop_ct(w1, b, name);
        let w2 = w1.set_ct(b, key_remove(w1.cubes[b].converts_to, name));
        assert(destroy_fb_fold(v, name, fb, i).0 == w2);
        assert forall|x: int, n: Seq<char>| 0 <= x < v.cubes.len() && #[trigger] has_key(w2.cubes[x].converts_to, n) implies has_key(
            v.cubes[x].converts_to,
            n,
        ) by {
            if x == b {
                assert(has_key(w1.cubes[x].converts_to, n));
            }
            if x == a {
                assert(has_key(w.cubes[x].converts_to, n));
            } else {
                assert(has_key(w.cubes[x].converts_to, n));
            }
        }
        assert forall|y: int| 0 <= y < i implies !has_key(w2.cubes[(#[trigger] fb[y]).1.0 as int].converts_to, name) && !has_key(
            w2.cubes[fb[y].1.1 as int].converts_to,
            name,
        ) by {
            if y < i - 1 {
                let c0 = fb[y].1.0 as int;
                let c1 = fb[y].1.1 as int;
                assert(!has_key(w.cubes[c0].converts_to, name));
                assert(!has_key(w.cubes[c1].converts_to, name));
                if has_key(w2.cubes[c0].converts_to, name) {
                    if c0 == b {
                        assert(has_key(w1.cubes[c0].converts_to, name));
                    }
                    assert(has_key(w.cubes[c0].converts_to, name));
                }
                if has_key(w2.cubes[c1].converts_to, name) {
                    if c1 == b {
                        assert(has_key(w1.cubes[c1].converts_to, name));
                    }
                    assert(has_key(w.cubes[c1].converts_to, name));
                }
            } else {
                if a != b && has_key(w2.cubes[a].converts_to, name) {
                    assert(w2.cubes[a] == w1.cubes[a]);
                }
            }
        }
    }
}

/// What stripping keeps names no key of `name`.
proof fn lemma_strip_names(fb: Seq<(KeyView, (usize, usize))>, name: Seq<char>, tn: Seq<char>, i: nat)
    requires
        i <= fb.len(),
    ensures
        forall|a: int| 0 <= a < strip_fold(fb, name, tn, i).0.len() ==> !key_mentions(#[trigger] strip_fold(fb, name, tn, i).0[a].0, name),
    decreases i,
{
    if i > 0 {
        lemma_strip_names(fb, name, tn, (i - 1) as nat);
        let kept = strip_fold(fb, name, tn, (i - 1) as nat).0;
        if !key_mentions(fb[i - 1].0, name) {
            let k2 = kept.push(fb[i - 1]);
            assert forall|a: int| 0 <= a < k2.len() implies !key_mentions(#[trigger] k2[a].0, name) by {
                if a < kept.len() {
                    assert(k2[a] == kept[a]);
                }
            }
        }
    }
}

/// Cube `x` no longer converts to cube `c`, unless a key of `c` names it.
pub open spec fn let_go(r: DllView, c: int, x: int) -> bool {
    keys_mention(r.cubes[c].fused_by, r.cubes[x].name) || !has_key(r.cubes[x].converts_to, r.cubes[c].name)
}

/// For every key of `fb0` (the keys cube `c` had) that names `name`, each
/// cube of the key let go of `c`.
pub open spec fn released(r: DllView, c: int, fb0: Seq<(KeyView, (usize, usize))>, name: Seq<char>) -> bool {
    forall|y: int|
        0 <= y < fb0.len() && key_mentions(#[trigger] fb0[y].0, name) ==> let_go(r, c, fb0[y].1.0 as int) && let_go(
            r,
            c,
            fb0[y].1.1 as int,
        )
}

/// `b` has the names, map and pointer of `a`, and conversions only taken away.
pub open spec fn ct_shrunk(a: DllView, b: DllView) -> bool {
    &&& same_frame(a, b)
    &&& forall|x: int, n: Seq<char>| 0 <= x < a.cubes.len() && #[trigger] has_key(b.cubes[x].converts_to, n) ==> has_key(a.cubes[x].converts_to, n)
}

/// Letting go stays true while the keys of `c` stay and conversions only
/// shrink.
proof fn lemma_released_kept(r: DllView, r2: DllView, c: int, fb0: Seq<(KeyView, (usize, usize))>, name: Seq<char>)
    requires
        0 <= c < r.cubes.len(),
        pairs_below(fb0, r.cubes.len()),
        released(r, c, fb0, name),
        ct_shrunk(r, r2),
        r2.cubes[c].fused_by == r.cubes[c].fused_by,
    ensures
        released(r2, c, fb0, name),
{
    assert forall|y: int| 0 <= y < fb0.len() && key_mentions(#[trigger] fb0[y].0, name) implies let_go(r2, c, fb0[y].1.0 as int)
        && let_go(r2, c, fb0[y].1.1 as int) by {
        let a = fb0[y].1.0 as int;
        let b = fb0[y].1.1 as int;
        assert(let_go(r, c, a) && let_go(r, c, b));
        if has_key(r2.cubes[a].converts_to, r2.cubes[c].name) {
            assert(has_key(r.cubes[a].converts_to, r.cubes[c].name));
        }
        if has_key(r2.cubes[b].converts_to, r2.cubes[c].name) {
            assert(has_key(r.cubes[b].converts_to, r.cubes[c].name));
        }
    }
}

/// Releasing one cube keeps the graph well formed, shrinks conversions,
/// and that cube lets go of `c` when `kept` is what `c` keeps.
proof fn lemma_release_one(w: DllView, x: int, c: int, kept: Seq<(KeyView, (usize, usize))>)
    requires
        w.wf(),
        0 <= x < w.cubes.len(),
        0 <= c < w.cubes.len(),
        w.cubes[c].fused_by == kept,
    ensures
        release_one(w, x, w.cubes[c].name, kept).wf(),
        ct_shrunk(w, release_one(w, x, w.cubes[c].name, kept)),
        forall|d: int| 0 <= d < w.cubes.len() ==> (#[trigger] release_one(w, x, w.cubes[c].name, kept).cubes[d]).fused_by == w.cubes[d].fused_by,
        let_go(release_one(w, x, w.cubes[c].name, kept), c, x),
{
    let tn = w.cubes[c].name;
    if !keys_mention(kept, w.cubes[x].name) {
        lemma_drop_ct(w, x, tn);
        let r = release_one(w, x, tn, kept);
        assert forall|d: int, n: Seq<char>| 0 <= d < w.cubes.len() && #[trigger] has_key(r.cubes[d].converts_to, n) implies has_key(
            w.cubes[d].converts_to,
            n,
        ) by {
            if d == x {
                assert(has_key(key_remove(w.cubes[x].converts_to, tn), n));
            }
        }
    }
}

/// Releasing the cubes of the dropped keys keeps the graph well formed,
/// shrinks conversions, keeps keys, and each cube of a dropped key lets go
/// of `c`.
proof fn lemma_release_fold(w: DllView, fb: Seq<(KeyView, (usize, usize))>, name: Seq<char>, c: int, i: nat)
    requires
        w.wf(),
        0 <= c < w.cubes.len(),
        pairs_below(fb, w.cubes.len()),
        i <= fb.len(),
    ensures
        ({
            let r = release_fold(w, fb, name, w.cubes[c].name, w.cubes[c].fused_by, i);
            &&& r.wf()
            &&& ct_shrunk(w, r)
            &&& forall|d: int| 0 <= d < w.cubes.len() ==> (#[trigger] r.cubes[d]).fused_by == w.cubes[d].fused_by
            &&& forall|y: int| 0 <= y < i && key_mentions(#[trigger] fb[y].0, name) ==> let_go(r, c, fb[y].1.0 as int) && let_go(
                r,
                c,
                fb[y].1.1 as int,
            )
        }),
    decreases i,
{
    let tn = w.cubes[c].name;
    let kept = w.cubes[c].fused_by;
    if i > 0 {
        lemma_release_fold(w, fb, name, c, (i - 1) as nat);
        let r1 = release_fold(w, fb, name, tn, kept, (i - 1) as nat);
        if key_mentions(fb[i - 1].0, name) {
            let a = fb[i - 1].1.0 as int;
            let b = fb[i - 1].1.1 as int;
            lemma_release_one(r1, a, c, kept);
            let r2 = release_one(r1, a, tn, kept);
            lemma_release_one(r2, b, c, kept);
            let r3 = release_one(r2, b, tn, kept);
            assert(r3 == release_fold(w, fb, name, tn, kept, i));
            assert(released(r1, c, fb.take(i - 1), name)) by {
                assert forall|y: int| 0 <= y < fb.take(i - 1).len() && key_mentions(#[trigger] fb.take(i - 1)[y].0, name) implies let_go(
                    r1,
                    c,
                    fb.take(i - 1)[y].1.0 as int,
                ) && let_go(r1, c, fb.take(i - 1)[y].1.1 as int) by {
                    assert(fb.take(i - 1)[y] == fb[y]);
                }
            }
            assert(ct_shrunk(r1, r3)) by {
                assert forall|x: int, n: Seq<char>| 0 <= x < r1.cubes.len() && #[trigger] has_key(r3.cubes[x].converts_to, n) implies has_key(
                    r1.cubes[x].converts_to,
                    n,
                ) by {
                    assert(has_key(r2.cubes[x].converts_to, n));
                }
            }
            lemma_released_kept(r1, r3, c, fb.take(i - 1), name);
            assert forall|y: int| 0 <= y < i && key_mentions(#[trigger] fb[y].0, name) implies let_go(r3, c, fb[y].1.0 as int) && let_go(
                r3,
                c,
                fb[y].1.1 as int,
            ) by {
                if y < i - 1 {
                    assert(fb.take(i - 1)[y] == fb[y]);
                } else {
                    if has_key(r3.cubes[a].converts_to, r3.cubes[c].name) {
                        assert(has_key(r2.cubes[a].converts_to, r2.cubes[c].name));
                    }
                }
            }
            assert forall|x: int, n: Seq<char>| 0 <= x < w.cubes.len() && #[trigger] has_key(r3.cubes[x].converts_to, n) implies has_key(
                w.cubes[x].converts_to,
                n,
            ) by {
                assert(has_key(r2.cubes[x].converts_to, n));
                assert(has_key(r1.cubes[x].converts_to, n));
            }
        }
    }
}


/// Stripping keys that none names `name` keeps them all.
proof fn lemma_strip_none(fb: Seq<(KeyView, (usize, usize))>, name: Seq<char>, tn: Seq<char>, i: nat)
    requires
        i <= fb.len(),
        !keys_mention(fb, name),
    ensures
        strip_fold(fb, name, tn, i).0 == fb.take(i as int),
    decreases i,
{
    if i > 0 {
        lemma_strip_none(fb, name, tn, (i - 1) as nat);
        assert(!key_mentions(fb[i - 1].0, name));
        assert(fb.take(i - 1).push(fb[i - 1]) =~= fb.take(i as int));
    } else {
        assert(fb.take(0) =~= Seq::<(KeyView, (usize, usize))>::empty());
    }
}

/// What stripping cube `c` of `name` does: the graph stays well formed,
/// conversions only shrink, only `c`'s keys change, `c` keeps no key
/// naming `name`, and the cubes of its dropped keys let go of it.
proof fn lemma_strip_step(w: DllView, c: int, name: Seq<char>)
    requires
        w.wf(),
        0 <= c < w.cubes.len(),
    ensures
        ({
            let r = spec_strip(w, c, name).0;
            &&& r.wf()
            &&& ct_shrunk(w, r)
            &&& forall|d: int| 0 <= d < w.cubes.len() && d != c ==> (#[trigger] r.cubes[d]).fused_by == w.cubes[d].fused_by
            &&& !keys_mention(r.cubes[c].fused_by, name)
            &&& !keys_mention(w.cubes[c].fused_by, name) ==> r.cubes[c].fused_by == w.cubes[c].fused_by
            &&& released(r, c, w.cubes[c].fused_by, name)
        }),
{
    let fb = w.cubes[c].fused_by;
    let tn = w.cubes[c].name;
    let n = w.cubes.len();
    assert(w.cubes[c].wf(n));
    lemma_strip_fold(fb, name, tn, fb.len(), n);
    lemma_strip_names(fb, name, tn, fb.len());
    let kept = strip_fold(fb, name, tn, fb.len()).0;
    lemma_set_fb_wf(w, c, kept);
    let w1 = w.set_fb(c, kept);
    lemma_release_fold(w1, fb, name, c, fb.len());
    let r = release_fold(w1, fb, name, tn, kept, fb.len());
    assert(r == spec_strip(w, c, name).0);
    assert(!keys_mention(kept, name)) by {
        if keys_mention(kept, name) {
            let j = choose|j: int| 0 <= j < kept.len() && key_mentions(#[trigger] kept[j].0, name);
            assert(!key_mentions(kept[j].0, name));
        }
    }
    if !keys_mention(fb, name) {
        lemma_strip_none(fb, name, tn, fb.len());
        assert(fb.take(fb.len() as int) =~= fb);
    }
    assert forall|x: int, m: Seq<char>| 0 <= x < w.cubes.len() && #[trigger] has_key(r.cubes[x].converts_to, m) implies has_key(
        w.cubes[x].converts_to,
        m,
    ) by {
        assert(has_key(w1.cubes[x].converts_to, m));
    }
}

/// Cube `d` either has the keys it had in `v0`, or keeps none naming
/// `name` and the cubes of the keys it dropped let go of it.
pub open spec fn stripped_ok(r: DllView, v0: DllView, d: int, name: Seq<char>) -> bool {
    r.cubes[d].fused_by == v0.cubes[d].fused_by || (!keys_mention(r.cubes[d].fused_by, name) && released(
        r,
        d,
        v0.cubes[d].fused_by,
        name,
    ))
}

/// Stripping one more cube keeps every cube stripped well.
proof fn lemma_strip_keeps_ok(v0: DllView, w: DllView, c: int, name: Seq<char>)
    requires
        v0.wf(),
        w.wf(),
        same_frame(v0, w),
        0 <= c < w.cubes.len(),
        forall|d: int| 0 <= d < w.cubes.len() ==> #[trigger] stripped_ok(w, v0, d, name),
    ensures
        forall|d: int| 0 <= d < w.cubes.len() ==> #[trigger] stripped_ok(spec_strip(w, c, name).0, v0, d, name),
{
    lemma_strip_step(w, c, name);
    let r = spec_strip(w, c, name).0;
    assert forall|d: int| 0 <= d < w.cubes.len() implies #[trigger] stripped_ok(r, v0, d, name) by {
        assert(stripped_ok(w, v0, d, name));
        assert(v0.cubes[d].wf(v0.cubes.len()));
        if d != c {
            if w.cubes[d].fused_by != v0.cubes[d].fused_by {
                lemma_released_kept(w, r, d, v0.cubes[d].fused_by, name);
            }
        } else {
            if w.cubes[d].fused_by != v0.cubes[d].fused_by {
                lemma_released_kept(w, r, d, v0.cubes[d].fused_by, name);
            }
        }
    }
}

/// The second stage of destroying, over the cubes the destroyed cube
/// converts to: the graph stays well formed, conversions only shrink, the
/// cubes seen keep no key naming `name`, and every cube is stripped well.
proof fn lemma_destroy_ct(v: DllView, name: Seq<char>, ct: Seq<(Seq<char>, usize)>, i: nat)
    requires
        v.wf(),
        ids_below(ct, v.cubes.len()),
        i <= ct.len(),
    ensures
        ({
            let r = destroy_ct_fold(v, name, ct, i).0;
            &&& r.wf()
            &&& ct_shrunk(v, r)
            &&& forall|m: int| 0 <= m < i ==> !keys_mention(r.cubes[(#[trigger] ct[m]).1 as int].fused_by, name)
            &&& forall|d: int| 0 <= d < v.cubes.len() ==> #[trigger] stripped_ok(r, v, d, name)
        }),
    decreases i,
{
    if i == 0 {
        assert forall|d: int| 0 <= d < v.cubes.len() implies #[trigger] stripped_ok(v, v, d, name) by {}
    } else {
        lemma_destroy_ct(v, name, ct, (i - 1) as nat);
        let w = destroy_ct_fold(v, name, ct, (i - 1) as nat).0;
        let c = ct[i - 1].1 as int;
        lemma_strip_step(w, c, name);
        lemma_strip_keeps_ok(v, w, c, name);
        let r = spec_strip(w, c, name).0;
        assert(destroy_ct_fold(v, name, ct, i).0 == r);
        assert forall|m: int| 0 <= m < i implies !keys_mention(r.cubes[(#[trigger] ct[m]).1 as int].fused_by, name) by {
            let d = ct[m].1 as int;
            if d != c {
                assert(!keys_mention(w.cubes[ct[m].1 as int].fused_by, name));
            }
        }
        assert forall|x: int, n: Seq<char>| 0 <= x < v.cubes.len() && #[trigger] has_key(r.cubes[x].converts_to, n) implies has_key(
            v.cubes[x].converts_to,
            n,
        ) by {
            assert(has_key(w.cubes[x].converts_to, n));
        }
    }
}


/// Destroying the pointed cube cuts its links: the cubes of its keys no
/// longer convert to its name; the cubes it converted to, and the unknown
/// cube, keep no key naming it; it converts to nothing; and every other
/// cube either keeps its keys or keeps none naming it, each cube of a key
/// it dropped then no longer converting to it unless a kept key names that
/// cube. This is stated for a cube that is not among the cubes of its own
/// keys, which linking ensures.
pub proof fn law_destroy_cuts_links(v: DllView)
    requires
        v.wf(),
        v.pointer is Some,
        forall|y: int| 0 <= y < v.cubes[v.pointer->0 as int].fused_by.len() ==> (#[trigger] v.cubes[v.pointer->0 as int].fused_by[y]).1.0
            != v.pointer->0 && v.cubes[v.pointer->0 as int].fused_by[y].1.1 != v.pointer->0,
    ensures
        ({
            let w = spec_destroy(v).0;
            let p = v.pointer->0 as int;
            let name = v.cubes[p].name;
            let fb = v.cubes[p].fused_by;
            let ct = v.cubes[p].converts_to;
            &&& forall|y: int| 0 <= y < fb.len() ==> !has_key(w.cubes[(#[trigger] fb[y]).1.0 as int].converts_to, name) && !has_key(
                w.cubes[fb[y].1.1 as int].converts_to,
                name,
            )
            &&& forall|m: int| 0 <= m < ct.len() ==> !keys_mention(w.cubes[(#[trigger] ct[m]).1 as int].fused_by, name)
            &&& match v.lookup(unknown_name()) {
                Some(q) => q != p ==> !keys_mention(w.cubes[q as int].fused_by, name),
                None => true,
            }
            &&& w.cubes[p].converts_to.len() == 0
            &&& forall|d: int| 0 <= d < v.cubes.len() && d != p ==> #[trigger] stripped_ok(w, v, d, name)
        }),
{
    let p = v.pointer->0 as int;
    let name = v.cubes[p].name;
    let fb = v.cubes[p].fused_by;
    let n = v.cubes.len();
    assert(v.cubes[p].wf(n));
    lemma_set_fb_wf(v, p, Seq::empty());
    let v0 = DllView { pointer: None, ..v.set_fb(p, Seq::empty()) };
    assert(v0.wf());
    lemma_destroy_fb(v0, name, fb, fb.len(), p);
    let v1 = destroy_fb_fold(v0, name, fb, fb.len()).0;
    let ct = v1.cubes[p].converts_to;
    assert(ct == v.cubes[p].converts_to);
    lemma_set_ct_wf(v1, p, Seq::empty());
    let v1e = v1.set_ct(p, Seq::empty());
    assert(v1e.cubes[p].wf(n));
    lemma_destroy_ct(v1e, name, ct, ct.len());
    let r2 = destroy_ct_fold(v1e, name, ct, ct.len()).0;
    assert(r2.hashmap == v.hashmap);
    let v3 = match r2.lookup(unknown_name()) {
        Some(q) => if q != p as usize {
            spec_strip(r2, q as int, name).0
        } else {
            r2
        },
        None => r2,
    };
    let w = spec_destroy(v).0;
    assert(w.cubes == v3.cubes);
    if let Some(q) = r2.lookup(unknown_name()) {
        if q != p as usize {
            lemma_find_key(r2.hashmap, unknown_name());
            assert(q < n);
            lemma_strip_step(r2, q as int, name);
            lemma_strip_keeps_ok(v1e, r2, q as int, name);
        }
    }
    assert(ct_shrunk(r2, v3));
    assert forall|y: int| 0 <= y < fb.len() implies !has_key(w.cubes[(#[trigger] fb[y]).1.0 as int].converts_to, name) && !has_key(
        w.cubes[fb[y].1.1 as int].converts_to,
        name,
    ) by {
        let a = fb[y].1.0 as int;
        let b = fb[y].1.1 as int;
        assert(fb[y] == v.cubes[p].fused_by[y]);
        assert(v1e.cubes[a] == v1.cubes[a]);
        assert(v1e.cubes[b] == v1.cubes[b]);
        if has_key(w.cubes[a].converts_to, name) {
            assert(has_key(r2.cubes[a].converts_to, name));
        }
        if has_key(w.cubes[b].converts_to, name) {
            assert(has_key(r2.cubes[b].converts_to, name));
        }
    }
    assert forall|m: int| 0 <= m < ct.len() implies !keys_mention(w.cubes[(#[trigger] ct[m]).1 as int].fused_by, name) by {
        assert(!keys_mention(r2.cubes[ct[m].1 as int].fused_by, name));
    }
    assert(w.cubes[p].converts_to.len() == 0) by {
        if w.cubes[p].converts_to.len() > 0 {
            let e = w.cubes[p].converts_to[0];
            assert(has_key(w.cubes[p].converts_to, e.0));
            assert(has_key(r2.cubes[p].converts_to, e.0));
        }
    }
    assert forall|d: int| 0 <= d < v.cubes.len() && d != p implies #[trigger] stripped_ok(w, v, d, name) by {
        assert(stripped_ok(v3, v1e, d, name));
        assert(v1e.cubes[d].fused_by == v.cubes[d].fused_by);
    }
}


/// What stripping keeps: every key that does not name `name`.
proof fn lemma_strip_keeps(fb: Seq<(KeyView, (usize, usize))>, name: Seq<char>, tn: Seq<char>, i: nat)
    requires
        i <= fb.len(),
    ensures
        forall|j: int| 0 <= j < i && !key_mentions(#[trigger] fb[j].0, name) ==> has_key(strip_fold(fb, name, tn, i).0, fb[j].0),
    decreases i,
{
    if i > 0 {
        lemma_strip_keeps(fb, name, tn, (i - 1) as nat);
        let kept = strip_fold(fb, name, tn, (i - 1) as nat).0;
        let k2 = strip_fold(fb, name, tn, i).0;
        assert forall|j: int| 0 <= j < i && !key_mentions(#[trigger] fb[j].0, name) implies has_key(k2, fb[j].0) by {
            if j < i - 1 {
                assert(has_key(kept, fb[j].0));
                let y = choose|y: int| 0 <= y < kept.len() && #[trigger] kept[y].0 == fb[j].0;
                if !key_mentions(fb[i - 1].0, name) {
                    assert(k2[y] == kept[y]);
                }
            } else {
                assert(k2 == kept.push(fb[i - 1]));
                assert(k2[kept.len() as int].0 == fb[j].0);
            }
        }
    }
}

/// Stripping cube `c` of `name` keeps, on every cube, each key that does
/// not name `name`.
proof fn lemma_strip_step_keeps(w: DllView, c: int, name: Seq<char>)
    requires
        w.wf(),
        0 <= c < w.cubes.len(),
    ensures
        forall|d: int, k: KeyView|
            0 <= d < w.cubes.len() && #[trigger] has_key(w.cubes[d].fused_by, k) && !key_mentions(k, name) ==> has_key(
                spec_strip(w, c, name).0.cubes[d].fused_by,
                k,
            ),
{
    lemma_strip_step(w, c, name);
    let fb = w.cubes[c].fused_by;
    let tn = w.cubes[c].name;
    let n = w.cubes.len();
    assert(w.cubes[c].wf(n));
    lemma_strip_fold(fb, name, tn, fb.len(), n);
    lemma_strip_keeps(fb, name, tn, fb.len());
    let kept = strip_fold(fb, name, tn, fb.len()).0;
    lemma_set_fb_wf(w, c, kept);
    let w1 = w.set_fb(c, kept);
    lemma_release_fold(w1, fb, name, c, fb.len());
    let r = spec_strip(w, c, name).0;
    assert(r.cubes[c].fused_by == kept);
    assert forall|d: int, k: KeyView|
        0 <= d < w.cubes.len() && #[trigger] has_key(w.cubes[d].fused_by, k) && !key_mentions(k, name) implies has_key(
            r.cubes[d].fused_by,
            k,
        ) by {
        if d == c {
            let j = choose|j: int| 0 <= j < fb.len() && #[trigger] fb[j].0 == k;
            assert(!key_mentions(fb[j].0, name));
        }
    }
}

/// The first stage of destroying changes no key.
proof fn lemma_destroy_fb_keys(v: DllView, name: Seq<char>, fb: Seq<(KeyView, (usize, usize))>, i: nat)
    requires
        pairs_below(fb, v.cubes.len()),
        i <= fb.len(),
    ensures
        destroy_fb_fold(v, name, fb, i).0.cubes.len() == v.cubes.len(),
        forall|x: int| 0 <= x < v.cubes.len() ==> (#[trigger] destroy_fb_fold(v, name, fb, i).0.cubes[x]).fused_by == v.cubes[x].fused_by,
    decreases i,
{
    reveal(spec_unconvert);
    if i > 0 {
        lemma_destroy_fb_keys(v, name, fb, (i - 1) as nat);
    }
}

/// The first stage of destroying keeps the graph well formed.
proof fn lemma_destroy_fb_keys_wf(v: DllView, name: Seq<char>, fb: Seq<(KeyView, (usize, usize))>, i: nat)
    requires
        v.wf(),
        pairs_below(fb, v.cubes.len()),
        i <= fb.len(),
    ensures
        destroy_fb_fold(v, name, fb, i).0.wf(),
    decreases i,
{
    if i > 0 {
        lemma_destroy_fb_keys_wf(v, name, fb, (i - 1) as nat);
        lemma_destroy_fb_keys(v, name, fb, (i - 1) as nat);
        let w = destroy_fb_fold(v, name, fb, (i - 1) as nat).0;
        reveal(spec_unconvert);
        let a = fb[i - 1].1.0 as int;
        let b = fb[i - 1].1.1 as int;
        lemma_drop_ct(w, a, name);
        let w1 = w.set_ct(a, key_remove(w.cubes[a].converts_to, name));
        lemma_drop_ct(w1, b, name);
    }
}

/// The second stage of destroying keeps, on every cube, each key that does
/// not name `name`.
proof fn lemma_destroy_ct_keeps(v: DllView, name: Seq<char>, ct: Seq<(Seq<char>, usize)>, i: nat)
    requires
        v.wf(),
        ids_below(ct, v.cubes.len()),
        i <= ct.len(),
    ensures
        forall|d: int, k: KeyView|
            0 <= d < v.cubes.len() && #[trigger] has_key(v.cubes[d].fused_by, k) && !key_mentions(k, name) ==> has_key(
                destroy_ct_fold(v, name, ct, i).0.cubes[d].fused_by,
                k,
            ),
    decreases i,
{
    if i > 0 {
        lemma_destroy_ct_keeps(v, name, ct, (i - 1) as nat);
        lemma_destroy_ct(v, name, ct, (i - 1) as nat);
        let w = destroy_ct_fold(v, name, ct, (i - 1) as nat).0;
        let c = ct[i - 1].1 as int;
        lemma_strip_step_keeps(w, c, name);
        assert forall|d: int, k: KeyView|
            0 <= d < v.cubes.len() && #[trigger] has_key(v.cubes[d].fused_by, k) && !key_mentions(k, name) implies has_key(
                destroy_ct_fold(v, name, ct, i).0.cubes[d].fused_by,
                k,
            ) by {
            assert(has_key(w.cubes[d].fused_by, k));
        }
    }
}

/// Destroying the pointed cube keeps every other key: each key of another
/// cube that does not name the destroyed cube is still a key of that cube.
pub proof fn law_destroy_keeps_other_keys(v: DllView)
    requires
        v.wf(),
        v.pointer is Some,
    ensures
        forall|d: int, k: KeyView|
            0 <= d < v.cubes.len() && d != v.pointer->0 && #[trigger] has_key(v.cubes[d].fused_by, k) && !key_mentions(
                k,
                v.cubes[v.pointer->0 as int].name,
            ) ==> has_key(spec_destroy(v).0.cubes[d].fused_by, k),
{
    let p = v.pointer->0 as int;
    let name = v.cubes[p].name;
    let fb = v.cubes[p].fused_by;
    let n = v.cubes.len();
    assert(v.cubes[p].wf(n));
    lemma_set_fb_wf(v, p, Seq::empty());
    let v0 = DllView { pointer: None, ..v.set_fb(p, Seq::empty()) };
    assert(v0.wf());
    lemma_destroy_fb_keys(v0, name, fb, fb.len());
    lemma_destroy_fb_keys_wf(v0, name, fb, fb.len());
    let v1 = destroy_fb_fold(v0, name, fb, fb.len()).0;
    let ct = v1.cubes[p].converts_to;
    lemma_set_ct_wf(v1, p, Seq::empty());
    let v1e = v1.set_ct(p, Seq::empty());
    lemma_destroy_ct_keeps(v1e, name, ct, ct.len());
    lemma_destroy_ct(v1e, name, ct, ct.len());
    let r2 = destroy_ct_fold(v1e, name, ct, ct.len()).0;
    let w = spec_destroy(v).0;
    if let Some(q) = r2.lookup(unknown_name()) {
        if q != p as usize {
            lemma_find_key(r2.hashmap, unknown_name());
            lemma_strip_step_keeps(r2, q as int, name);
        }
    }
    assert forall|d: int, k: KeyView|
        0 <= d < v.cubes.len() && d != p && #[trigger] has_key(v.cubes[d].fused_by, k) && !key_mentions(k, name) implies has_key(
            w.cubes[d].fused_by,
            k,
        ) by {
        assert(v1e.cubes[d].fused_by == v.cubes[d].fused_by);
        assert(has_key(r2.cubes[d].fused_by, k));
    }
}

} // verus!
