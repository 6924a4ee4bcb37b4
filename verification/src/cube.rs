//! The cube graph. Each cube has a name and a tier, the cubes it converts
//! to (keyed by their names) and the fuse keys that make it (each with the
//! one or two cubes of the key). Cubes live in an arena and link to one
//! another by position; the name map holds the cubes that exist, and the
//! pointer selects the cube that the next operation works on.
use vstd::prelude::*;
use vstd::string::StringExecFns;
use crate::assoc::{
    find_key, has_key, value_of, key_insert, key_remove, keys_distinct, named_view, keyed_view,
    ids_below, pairs_below, lemma_find_key, lemma_insert_remove, lemma_ids_below,
    lemma_pairs_below, named_get, named_insert, named_remove, keyed_insert, keyed_remove,
};
use crate::error::{CSError, CSResult, ErrView, outcome};
use crate::fuse_key::{FuseKey, KeyView, pair_key, key_mentions, key_text};
use crate::text::{str_eq, string_of, i32_text, int_decimal};

verus! {

/// One cube: its name, its tier (never below -1), the cubes it converts to
/// and the keys that fuse into it.
pub struct CubeStruct {
    pub name: String,
    pub tier: i32,
    pub converts_to: Vec<(String, usize)>,
    pub fused_by: Vec<(FuseKey, (usize, usize))>,
}

/// The value of a cube.
pub struct CubeView {
    pub name: Seq<char>,
    pub tier: i32,
    pub converts_to: Seq<(Seq<char>, usize)>,
    pub fused_by: Seq<(KeyView, (usize, usize))>,
}

impl View for CubeStruct {
    type V = CubeView;

    open spec fn view(&self) -> CubeView {
        CubeView {
            name: self.name@,
            tier: self.tier,
            converts_to: named_view(self.converts_to@),
            fused_by: keyed_view(self.fused_by@),
        }
    }
}

/// The graph: the arena of cubes, the map from names to the cubes that
/// exist, and the pointer.
pub struct CubeDLL {
    pub pointer: Option<usize>,
    pub cubes: Vec<CubeStruct>,
    pub hashmap: Vec<(String, usize)>,
}

/// The value of the graph.
pub struct DllView {
    pub pointer: Option<usize>,
    pub cubes: Seq<CubeView>,
    pub hashmap: Seq<(Seq<char>, usize)>,
}

impl View for CubeDLL {
    type V = DllView;

    open spec fn view(&self) -> DllView {
        DllView {
            pointer: self.pointer,
            cubes: self.cubes@.map_values(|c: CubeStruct| c@),
            hashmap: named_view(self.hashmap@),
        }
    }
}

/// The name of the cube that stands for unknown cubes.
pub open spec fn unknown_name() -> Seq<char> {
    "?"@
}

/// The empty text.
pub open spec fn no_text() -> Seq<char> {
    Seq::empty()
}

impl CubeView {
    /// Keys are pairwise different and links stay inside an arena of `n` cubes.
    pub open spec fn wf(self, n: nat) -> bool {
        &&& keys_distinct(self.converts_to)
        &&& keys_distinct(self.fused_by)
        &&& ids_below(self.converts_to, n)
        &&& pairs_below(self.fused_by, n)
    }
}

impl DllView {
    /// The graph is well formed: names in the map are pairwise different
    /// and name the cubes they bind, every link and the pointer stay inside
    /// the arena, and the pointer is a cube of the map.
    pub open spec fn wf(self) -> bool {
        &&& keys_distinct(self.hashmap)
        &&& ids_below(self.hashmap, self.cubes.len())
        &&& (self.pointer matches Some(p) ==> p < self.cubes.len())
        &&& forall|c: int| 0 <= c < self.cubes.len() ==> (#[trigger] self.cubes[c]).wf(self.cubes.len())
        &&& self.names_agree()
        &&& self.pointer_bound()
    }

    /// Every name of the map is the name of the cube it binds.
    pub open spec fn names_agree(self) -> bool {
        forall|j: int| 0 <= j < self.hashmap.len() ==> self.cubes[(#[trigger] self.hashmap[j]).1 as int].name == self.hashmap[j].0
    }

    /// The pointer, when set, is a cube that the map binds.
    pub open spec fn pointer_bound(self) -> bool {
        self.pointer matches Some(p) ==> exists|j: int| 0 <= j < self.hashmap.len() && (#[trigger] self.hashmap[j]).1 == p
    }

    /// The cube that the map binds to `name`, if any.
    pub open spec fn lookup(self, name: Seq<char>) -> Option<usize> {
        if has_key(self.hashmap, name) {
            Some(value_of(self.hashmap, name))
        } else {
            None
        }
    }

    /// The graph with the conversions of cube `c` replaced.
    pub open spec fn set_ct(self, c: int, s: Seq<(Seq<char>, usize)>) -> DllView {
        DllView { cubes: self.cubes.update(c, CubeView { converts_to: s, ..self.cubes[c] }), ..self }
    }

    /// The graph with the fuse keys of cube `c` replaced.
    pub open spec fn set_fb(self, c: int, s: Seq<(KeyView, (usize, usize))>) -> DllView {
        DllView { cubes: self.cubes.update(c, CubeView { fused_by: s, ..self.cubes[c] }), ..self }
    }

    /// The graph with the name of cube `c` replaced.
    pub open spec fn set_name(self, c: int, s: Seq<char>) -> DllView {
        DllView { cubes: self.cubes.update(c, CubeView { name: s, ..self.cubes[c] }), ..self }
    }

    /// The graph with the tier of cube `c` replaced.
    pub open spec fn set_tier(self, c: int, t: i32) -> DllView {
        DllView { cubes: self.cubes.update(c, CubeView { tier: t, ..self.cubes[c] }), ..self }
    }
}

/// The tier that a cube is given: never below -1.
pub open spec fn clamp_tier(t: i32) -> i32 {
    if t < -1 {
        -1i32
    } else {
        t
    }
}

/// A new cube with no links.
pub open spec fn fresh_cube(name: Seq<char>, tier: i32) -> CubeView {
    CubeView { name, tier: clamp_tier(tier), converts_to: Seq::empty(), fused_by: Seq::empty() }
}

// Messages that the operations write, one line each.
pub open spec fn msg_converts_known(target: Seq<char>, c: Seq<char>) -> Seq<char> {
    "Cube \""@ + target + "\" has already been added for \""@ + c + "\" as a conversion\n"@
}

pub open spec fn msg_pair_known(a: Seq<char>, b: Seq<char>, p: Seq<char>) -> Seq<char> {
    "Cubes \""@ + a + "\" and \""@ + b + "\" have already been added as a key to \""@ + p + "\"\n"@
}

pub open spec fn msg_single_known(a: Seq<char>, p: Seq<char>) -> Seq<char> {
    "Cube \""@ + a + "\" has already been added as a key to \""@ + p + "\"\n"@
}

pub open spec fn msg_unknown_key_removed(k: KeyView) -> Seq<char> {
    "Cube FuseKey \""@ + key_text(k) + "\" has been removed for ?\n"@
}

pub open spec fn msg_unknown_key_exists(k: KeyView) -> Seq<char> {
    "Cube FuseKey \""@ + key_text(k) + "\" cannot be added for ? as it already exists as known.\n"@
}

/// `add_to`: cube `c` converts to cube `p` (not recorded when `p` is the
/// unknown cube); a note when it already did.
#[verifier::opaque]
pub open spec fn spec_add_to(v: DllView, c: int, p: int) -> (DllView, Seq<char>) {
    let pn = v.cubes[p].name;
    let ct = v.cubes[c].converts_to;
    if pn == unknown_name() {
        (v, no_text())
    } else {
        (
            v.set_ct(c, key_insert(ct, pn, p as usize)),
            if has_key(ct, pn) {
                msg_converts_known(pn, v.cubes[c].name)
            } else {
                no_text()
            },
        )
    }
}

/// Adds fuse key `k` with links `ids` to cube `p`; note `msg` when the key
/// was there already.
#[verifier::opaque]
pub open spec fn spec_add_fb(v: DllView, p: int, k: KeyView, ids: (usize, usize), msg: Seq<char>) -> (
    DllView,
    Seq<char>,
) {
    let fb = v.cubes[p].fused_by;
    (
        v.set_fb(p, key_insert(fb, k, ids)),
        if has_key(fb, k) {
            msg
        } else {
            no_text()
        },
    )
}

/// Some cube in the map has fuse key `k`.
pub open spec fn key_known(v: DllView, k: KeyView) -> bool {
    exists|j: int| 0 <= j < v.hashmap.len() && has_key(v.cubes[#[trigger] v.hashmap[j].1 as int].fused_by, k)
}

/// The stage of linking that concerns the unknown cube `?`: linking a known
/// cube with key `k` takes `k` off `?`; linking `?` with a key that some
/// cube has already stops the link (the flag).
#[verifier::opaque]
pub open spec fn spec_unknown_stage(v: DllView, p: int, k: KeyView) -> (DllView, Seq<char>, bool) {
    match v.lookup(unknown_name()) {
        None => (v, no_text(), false),
        Some(q) => if v.cubes[p].name != unknown_name() {
            if has_key(v.cubes[q as int].fused_by, k) {
                (
                    v.set_fb(q as int, key_remove(v.cubes[q as int].fused_by, k)),
                    msg_unknown_key_removed(k),
                    false,
                )
            } else {
                (v, no_text(), false)
            }
        } else if key_known(v, k) {
            (v, msg_unknown_key_exists(k), true)
        } else {
            (v, no_text(), false)
        },
    }
}

/// The pair of cubes `i1`, `i2` fuses into cube `p`: the key is checked
/// against the unknown cube, added to `p`, and both cubes convert to `p`.
pub open spec fn spec_fuse_pair(v: DllView, p: int, i1: usize, i2: usize) -> (DllView, Seq<char>) {
    let pn = v.cubes[p].name;
    let a = v.cubes[i1 as int].name;
    let b = v.cubes[i2 as int].name;
    let k = pair_key(a, b);
    let (v1, t1, stop) = spec_unknown_stage(v, p, k);
    if stop {
        (v1, t1)
    } else {
        let (v2, t2) = spec_add_fb(v1, p, k, (i1, i2), msg_pair_known(a, b, pn));
        let (v3, t3) = spec_add_to(v2, i1 as int, p);
        if a == b {
            (v3, t1 + t2 + t3)
        } else {
            let (v4, t4) = spec_add_to(v3, i2 as int, p);
            (v4, t1 + t2 + t3 + t4)
        }
    }
}

/// Cube `i` alone fuses into cube `p`.
pub open spec fn spec_fuse_single(v: DllView, p: int, i: usize) -> (DllView, Seq<char>) {
    let pn = v.cubes[p].name;
    let a = v.cubes[i as int].name;
    let k = KeyView::Single(a);
    let (v1, t1, stop) = spec_unknown_stage(v, p, k);
    if stop {
        (v1, t1)
    } else {
        let (v2, t2) = spec_add_fb(v1, p, k, (i, i), msg_single_known(a, pn));
        let (v3, t3) = spec_add_to(v2, i as int, p);
        (v3, t1 + t2 + t3)
    }
}

/// `link_at_p_fb_pair`: cubes `n1` and `n2` fuse into the pointed cube.
pub open spec fn spec_link_pair(v: DllView, n1: Seq<char>, n2: Seq<char>) -> (
    DllView,
    Seq<char>,
    Result<(), ErrView>,
) {
    let f = "CubeDLL::link_at_p_fb_pair"@;
    match (v.lookup(n1), v.lookup(n2), v.pointer) {
        (None, _, _) => (v, no_text(), Err(ErrView::NonExistentName(f, n1))),
        (Some(_), None, _) => (v, no_text(), Err(ErrView::NonExistentName(f, n2))),
        (Some(_), Some(_), None) => (v, no_text(), Err(ErrView::NullPointer(f))),
        (Some(i1), Some(i2), Some(p)) => {
            let pn = v.cubes[p as int].name;
            let a = v.cubes[i1 as int].name;
            let b = v.cubes[i2 as int].name;
            if a == pn || b == pn {
                (v, no_text(), Err(ErrView::SameStruct(f, pn)))
            } else {
                let (w, t) = spec_fuse_pair(v, p as int, i1, i2);
                (w, t, Ok(()))
            }
        },
    }
}

/// `link_at_p_fb_single`: cube `n` alone fuses into the pointed cube.
pub open spec fn spec_link_single(v: DllView, n: Seq<char>) -> (DllView, Seq<char>, Result<(), ErrView>) {
    let f = "CubeDLL::link_at_p_fb_single"@;
    match (v.lookup(n), v.pointer) {
        (None, _) => (v, no_text(), Err(ErrView::NonExistentName(f, n))),
        (Some(_), None) => (v, no_text(), Err(ErrView::NullPointer("CubeDLL::link_at_p_fb_pair"@))),
        (Some(i), Some(p)) => {
            let pn = v.cubes[p as int].name;
            let a = v.cubes[i as int].name;
            if a == pn {
                (v, no_text(), Err(ErrView::SameStruct(f, pn)))
            } else {
                let (w, t) = spec_fuse_single(v, p as int, i);
                (w, t, Ok(()))
            }
        },
    }
}

/// `add`: a new cube joins the graph under its name, unless the name is taken.
pub open spec fn spec_add(v: DllView, c: CubeView) -> (DllView, Result<(), ErrView>) {
    if has_key(v.hashmap, c.name) {
        (v, Err(ErrView::DuplicateName("CubeDLL::add"@, c.name)))
    } else {
        (
            DllView {
                cubes: v.cubes.push(c),
                hashmap: key_insert(v.hashmap, c.name, v.cubes.len() as usize),
                ..v
            },
            Ok(()),
        )
    }
}

/// `point_to`: the pointer goes to the cube named `name`; the unknown cube
/// `?` is created (tier -1) the first time it is pointed to.
pub open spec fn spec_point_to(v: DllView, name: Seq<char>) -> (DllView, Result<(), ErrView>) {
    match v.lookup(name) {
        Some(i) => (DllView { pointer: Some(i), ..v }, Ok(())),
        None => if name == unknown_name() {
            (DllView { pointer: Some(v.cubes.len() as usize), ..spec_add(v, fresh_cube(name, -1i32)).0 }, Ok(()))
        } else {
            (v, Err(ErrView::NonExistentName("CubeDLL::point_to"@, name)))
        },
    }
}

/// The graph after `remove_all_cubes`: nothing left, no pointer.
pub open spec fn empty_dll() -> DllView {
    DllView { pointer: None, cubes: Seq::empty(), hashmap: Seq::empty() }
}

/// `unlink_at_p_fb`: the pointed cube loses all its fuse keys, and the
/// cubes of those keys stop converting to it.
pub open spec fn spec_unlink_all(v: DllView) -> (DllView, Result<(), ErrView>) {
    match v.pointer {
        None => (v, Err(ErrView::NullPointer("CubeDLL::unlink_at_p_fb"@))),
        Some(p) => {
            let fb = v.cubes[p as int].fused_by;
            (destroy_fb_fold(v.set_fb(p as int, Seq::empty()), v.cubes[p as int].name, fb, fb.len()).0, Ok(()))
        },
    }
}

/// `change_tier_at_p`: the pointed cube gets tier `t` (at least -1); a note
/// when `t` was below -1.
pub open spec fn spec_change_tier(v: DllView, t: i32) -> (DllView, Seq<char>, Result<(), ErrView>) {
    match v.pointer {
        None => (v, no_text(), Err(ErrView::NullPointer("CubeDLL::change_tier_at_p"@))),
        Some(p) => (
            v.set_tier(p as int, clamp_tier(t)),
            if t < -1 {
                "Tier changed to -1 instead of "@ + int_decimal(t as int) + "\n"@
            } else {
                no_text()
            },
            Ok(()),
        ),
    }
}

pub open spec fn msg_cannot_remove(p: Seq<char>, c: Seq<char>) -> Seq<char> {
    "Cube \""@ + p + "\" cannot be removed for \""@ + c + "\" as a conversion (Contains other keys)\n"@
}

pub open spec fn msg_already_removed(p: Seq<char>, c: Seq<char>) -> Seq<char> {
    "Cube \""@ + p + "\" has already been removed for \""@ + c + "\" as a conversion\n"@
}

/// Some fuse key of cube `p` names `n`.
pub open spec fn fb_mentions(v: DllView, p: int, n: Seq<char>) -> bool {
    exists|i: int| 0 <= i < v.cubes[p].fused_by.len() && key_mentions(#[trigger] v.cubes[p].fused_by[i].0, n)
}

/// `remove_to_maybe`: cube `c` stops converting to cube `p`, unless a fuse
/// key of `p` still names `c`.
#[verifier::opaque]
pub open spec fn spec_remove_to_maybe(v: DllView, c: int, p: int) -> (DllView, Seq<char>) {
    let pn = v.cubes[p].name;
    let cn = v.cubes[c].name;
    let ct = v.cubes[c].converts_to;
    if fb_mentions(v, p, cn) {
        (v, msg_cannot_remove(pn, cn))
    } else if has_key(ct, pn) {
        (v.set_ct(c, key_remove(ct, pn)), no_text())
    } else {
        (v, msg_already_removed(pn, cn))
    }
}

/// `remove_fb_key`: cube `p` loses key `k`; the note says whether it had it.
#[verifier::opaque]
pub open spec fn spec_remove_fb_key(v: DllView, p: int, k: KeyView) -> (DllView, Seq<char>) {
    let fb = v.cubes[p].fused_by;
    let pn = v.cubes[p].name;
    if has_key(fb, k) {
        (v.set_fb(p, key_remove(fb, k)), "Fuse key has been deleted for cube "@ + pn + "\n"@)
    } else {
        (v, "Fuse key has already been deleted for cube "@ + pn + "\n"@)
    }
}

/// Unlinking key `k` (of cubes `i1`, and `i2` unless it is the same name)
/// from cube `p`.
pub open spec fn spec_unlink_key(v: DllView, p: int, k: KeyView, i1: int, i2: int) -> (DllView, Seq<char>) {
    let (v1, t1) = spec_remove_fb_key(v, p, k);
    let (v2, t2) = spec_remove_to_maybe(v1, i1, p);
    if v2.cubes[i1].name == v2.cubes[i2].name {
        (v2, t1 + t2)
    } else {
        let (v3, t3) = spec_remove_to_maybe(v2, i2, p);
        (v3, t1 + t2 + t3)
    }
}

/// `unlink_at_p_fb_keys`: the key of `n1` (and `n2`) comes off the pointed
/// cube, and each cube of the key stops converting to it when no other key
/// of it names that cube.
pub open spec fn spec_unlink_keys(v: DllView, n1: Seq<char>, n2: Option<Seq<char>>) -> (
    DllView,
    Seq<char>,
    Result<(), ErrView>,
) {
    let f = "CubeDLL::unlink_at_p_fused_by"@;
    match v.pointer {
        None => (v, no_text(), Err(ErrView::NullPointer("CubeDLL::unlink_at_p_fb_keys"@))),
        Some(p) => {
            let pn = v.cubes[p as int].name;
            match v.lookup(n1) {
                None => (v, no_text(), Err(ErrView::NonExistentName(f, n1))),
                Some(i1) => if v.cubes[i1 as int].name == pn {
                    (v, no_text(), Err(ErrView::SameStruct(f, pn)))
                } else {
                    match n2 {
                        Some(n2) => match v.lookup(n2) {
                            None => (v, no_text(), Err(ErrView::NonExistentName(f, n2))),
                            Some(i2) => if v.cubes[i2 as int].name == pn {
                                (v, no_text(), Err(ErrView::SameStruct(f, pn)))
                            } else {
                                let k = pair_key(v.cubes[i1 as int].name, v.cubes[i2 as int].name);
                                let (w, t) = spec_unlink_key(v, p as int, k, i1 as int, i2 as int);
                                (w, t, Ok(()))
                            },
                        },
                        None => {
                            let k = KeyView::Single(v.cubes[i1 as int].name);
                            let (w, t) = spec_unlink_key(v, p as int, k, i1 as int, i1 as int);
                            (w, t, Ok(()))
                        },
                    }
                },
            }
        },
    }
}

/// `merge_single_keys`: the single keys of cubes `i1` and `i2` in cube `p`
/// become one pair key.
pub open spec fn spec_merge_singles(v: DllView, p: int, i1: usize, i2: usize) -> (DllView, Seq<char>) {
    let a = v.cubes[i1 as int].name;
    let b = v.cubes[i2 as int].name;
    let fb1 = key_remove(key_remove(v.cubes[p].fused_by, KeyView::Single(a)), KeyView::Single(b));
    let k = pair_key(a, b);
    (
        v.set_fb(p, key_insert(fb1, k, (i1, i2))),
        if has_key(fb1, k) {
            msg_pair_known(a, b, v.cubes[p].name)
        } else {
            no_text()
        },
    )
}

/// `merge_keys_at_p`: when the pointed cube has the single keys of both
/// `n1` and `n2`, they become one pair key; otherwise the missing ones are
/// reported.
pub open spec fn spec_merge(v: DllView, n1: Seq<char>, n2: Seq<char>) -> (DllView, Seq<char>, Result<(), ErrView>) {
    let f = "CubeDLL::merge_keys_at_p"@;
    match v.pointer {
        None => (v, no_text(), Err(ErrView::NullPointer("CubeDLL::change_tier_at_p"@))),
        Some(p) => match (v.lookup(n1), v.lookup(n2)) {
            (None, _) => (v, no_text(), Err(ErrView::NonExistentName(f, n1))),
            (Some(_), None) => (v, no_text(), Err(ErrView::NonExistentName(f, n2))),
            (Some(i1), Some(i2)) => {
                let fb = v.cubes[p as int].fused_by;
                let s1 = has_key(fb, KeyView::Single(n1));
                let s2 = has_key(fb, KeyView::Single(n2));
                if !s1 && !s2 {
                    (v, no_text(), Err(ErrView::NonExistentName(f, n1 + " and "@ + n2)))
                } else if !s1 {
                    (v, no_text(), Err(ErrView::NonExistentName(f, n1)))
                } else if !s2 {
                    (v, no_text(), Err(ErrView::NonExistentName(f, n2)))
                } else {
                    let (w, t) = spec_merge_singles(v, p as int, i1, i2);
                    (w, t, Ok(()))
                }
            },
        },
    }
}

pub open spec fn msg_removing_from(name: Seq<char>, a: Seq<char>, b: Seq<char>) -> Seq<char> {
    "Removing \""@ + name + "\" from cubes \""@ + a + "\" and \""@ + b + "\"\n"@
}

pub open spec fn msg_removing_key(k: KeyView, tn: Seq<char>) -> Seq<char> {
    match k {
        KeyView::Pair(k0, k1) => "Removing fuse key pair {\""@ + k0 + "\",\""@ + k1 + "\"} for \""@ + tn
            + "\"\n"@,
        KeyView::Single(k0) => "Removing fuse key {\""@ + k0 + "\"} for \""@ + tn + "\"\n"@,
    }
}

/// The first `i` fuse key entries of a destroyed cube named `name`: each of
/// its one or two cubes stops converting to `name`.
pub open spec fn destroy_fb_fold(v: DllView, name: Seq<char>, fb: Seq<(KeyView, (usize, usize))>, i: nat) -> (
    DllView,
    Seq<char>,
)
    decreases i,
{
    if i == 0 || i > fb.len() {
        (v, no_text())
    } else {
        let (w, t) = destroy_fb_fold(v, name, fb, (i - 1) as nat);
        let (w2, t2) = spec_unconvert(w, name, fb[i - 1].1);
        (w2, t + t2)
    }
}

/// The cubes `ids` of a key of a destroyed cube named `name` stop
/// converting to it.
#[verifier::opaque]
pub open spec fn spec_unconvert(w: DllView, name: Seq<char>, ids: (usize, usize)) -> (DllView, Seq<char>) {
    let a = ids.0 as int;
    let b = ids.1 as int;
    let w1 = w.set_ct(a, key_remove(w.cubes[a].converts_to, name));
    let w2 = w1.set_ct(b, key_remove(w1.cubes[b].converts_to, name));
    (w2, msg_removing_from(name, w2.cubes[a].name, w2.cubes[b].name))
}

/// The first `i` entries of `fb` without the keys that name `name`, and a
/// note for each key dropped from cube `tn`.
pub open spec fn strip_fold(fb: Seq<(KeyView, (usize, usize))>, name: Seq<char>, tn: Seq<char>, i: nat) -> (
    Seq<(KeyView, (usize, usize))>,
    Seq<char>,
)
    decreases i,
{
    if i == 0 || i > fb.len() {
        (Seq::empty(), no_text())
    } else {
        let (kept, t) = strip_fold(fb, name, tn, (i - 1) as nat);
        if key_mentions(fb[i - 1].0, name) {
            (kept, t + msg_removing_key(fb[i - 1].0, tn))
        } else {
            (kept.push(fb[i - 1]), t)
        }
    }
}

/// Some key of `s` names `n`.
pub open spec fn keys_mention(s: Seq<(KeyView, (usize, usize))>, n: Seq<char>) -> bool {
    exists|j: int| 0 <= j < s.len() && key_mentions(#[trigger] s[j].0, n)
}

/// Cube `x` stops converting to the cube named `tn`, unless a key of
/// `kept` (what that cube keeps) still names it.
pub open spec fn release_one(w: DllView, x: int, tn: Seq<char>, kept: Seq<(KeyView, (usize, usize))>) -> DllView {
    if keys_mention(kept, w.cubes[x].name) {
        w
    } else {
        w.set_ct(x, key_remove(w.cubes[x].converts_to, tn))
    }
}

/// For the first `i` entries of `fb` that name `name`: the cubes of the
/// key stop converting to the cube named `tn`, unless `kept` still names them.
pub open spec fn release_fold(
    w: DllView,
    fb: Seq<(KeyView, (usize, usize))>,
    name: Seq<char>,
    tn: Seq<char>,
    kept: Seq<(KeyView, (usize, usize))>,
    i: nat,
) -> DllView
    decreases i,
{
    if i == 0 || i > fb.len() {
        w
    } else {
        let w1 = release_fold(w, fb, name, tn, kept, (i - 1) as nat);
        if key_mentions(fb[i - 1].0, name) {
            release_one(release_one(w1, fb[i - 1].1.0 as int, tn, kept), fb[i - 1].1.1 as int, tn, kept)
        } else {
            w1
        }
    }
}

/// Cube `c` drops every fuse key that names `name`; the other cubes of
/// the keys dropped stop converting to `c` unless a key it keeps names them.
pub open spec fn spec_strip(v: DllView, c: int, name: Seq<char>) -> (DllView, Seq<char>) {
    let fb = v.cubes[c].fused_by;
    let (kept, t) = strip_fold(fb, name, v.cubes[c].name, fb.len());
    (release_fold(v.set_fb(c, kept), fb, name, v.cubes[c].name, kept, fb.len()), t)
}

/// Releasing conversions keeps the map and the pointer.
pub proof fn lemma_release_fold_map(
    w: DllView,
    fb: Seq<(KeyView, (usize, usize))>,
    name: Seq<char>,
    tn: Seq<char>,
    kept: Seq<(KeyView, (usize, usize))>,
    i: nat,
)
    ensures
        release_fold(w, fb, name, tn, kept, i).hashmap == w.hashmap,
        release_fold(w, fb, name, tn, kept, i).pointer == w.pointer,
    decreases i,
{
    if i > 0 && i <= fb.len() {
        lemma_release_fold_map(w, fb, name, tn, kept, (i - 1) as nat);
    }
}

/// Releasing conversions keeps the map, the pointer, the names and the
/// keys, and only takes conversions away.
pub proof fn lemma_release_fold_frame(
    w: DllView,
    fb: Seq<(KeyView, (usize, usize))>,
    name: Seq<char>,
    tn: Seq<char>,
    kept: Seq<(KeyView, (usize, usize))>,
    i: nat,
)
    requires
        pairs_below(fb, w.cubes.len()),
    ensures
        same_frame(w, release_fold(w, fb, name, tn, kept, i)),
        forall|x: int| 0 <= x < w.cubes.len() ==> (#[trigger] release_fold(w, fb, name, tn, kept, i).cubes[x]).fused_by == w.cubes[x].fused_by,
        forall|x: int| 0 <= x < w.cubes.len() ==> (#[trigger] release_fold(w, fb, name, tn, kept, i).cubes[x]).tier == w.cubes[x].tier,
    decreases i,
{
    if i > 0 && i <= fb.len() {
        lemma_release_fold_frame(w, fb, name, tn, kept, (i - 1) as nat);
    }
}

/// The first `i` conversions of a destroyed cube named `name`: each cube
/// converted to drops the keys that name it.
pub open spec fn destroy_ct_fold(v: DllView, name: Seq<char>, ct: Seq<(Seq<char>, usize)>, i: nat) -> (
    DllView,
    Seq<char>,
)
    decreases i,
{
    if i == 0 || i > ct.len() {
        (v, no_text())
    } else {
        let (w, t) = destroy_ct_fold(v, name, ct, (i - 1) as nat);
        let (w1, t1) = spec_strip(w, ct[i - 1].1 as int, name);
        (w1, t + t1)
    }
}

/// `destroy_at_p`: the pointed cube goes away with all its links. The
/// cubes of its keys stop converting to it, the cubes it converts to and
/// the unknown cube drop the keys that name it (and the other cubes of
/// those keys stop converting to them when no kept key names them), and
/// its name leaves the map; the pointer is cleared.
pub open spec fn spec_destroy(v: DllView) -> (DllView, Seq<char>, Result<(), ErrView>) {
    match v.pointer {
        None => (v, no_text(), Err(ErrView::NullPointer("CubeDLL::destroy_at_p"@))),
        Some(p) => {
            let name = v.cubes[p as int].name;
            let fb = v.cubes[p as int].fused_by;
            let v0 = DllView { pointer: None, ..v.set_fb(p as int, Seq::empty()) };
            let (v1, t1) = destroy_fb_fold(v0, name, fb, fb.len());
            let ct = v1.cubes[p as int].converts_to;
            let (v2, t2) = destroy_ct_fold(v1.set_ct(p as int, Seq::empty()), name, ct, ct.len());
            let (v3, t3) = match v2.lookup(unknown_name()) {
                Some(q) => if q != p {
                    spec_strip(v2, q as int, name)
                } else {
                    (v2, no_text())
                },
                None => (v2, no_text()),
            };
            (DllView { hashmap: key_remove(v3.hashmap, name), ..v3 }, t1 + t2 + t3, Ok(()))
        },
    }
}

/// What `strip_fold` keeps is a part of `fb` in order, so keys stay
/// pairwise different and links stay in bounds.
pub proof fn lemma_strip_fold(fb: Seq<(KeyView, (usize, usize))>, name: Seq<char>, tn: Seq<char>, i: nat, n: nat)
    requires
        keys_distinct(fb),
        pairs_below(fb, n),
        i <= fb.len(),
    ensures
        forall|a: int| #![trigger strip_fold(fb, name, tn, i).0[a]] 0 <= a < strip_fold(fb, name, tn, i).0.len() ==> exists|j: int| 0 <= j < i && strip_fold(fb, name, tn, i).0[a] == #[trigger] fb[j],
        keys_distinct(strip_fold(fb, name, tn, i).0),
        pairs_below(strip_fold(fb, name, tn, i).0, n),
    decreases i,
{
    if i > 0 {
        lemma_strip_fold(fb, name, tn, (i - 1) as nat, n);
        let kept = strip_fold(fb, name, tn, (i - 1) as nat).0;
        let k2 = strip_fold(fb, name, tn, i).0;
        if !key_mentions(fb[i - 1].0, name) {
            assert forall|a: int| #![trigger k2[a]] 0 <= a < k2.len() implies exists|j: int| 0 <= j < i && k2[a] == #[trigger] fb[j] by {
                if a < kept.len() {
                    let j = choose|j: int| 0 <= j < i - 1 && kept[a] == #[trigger] fb[j];
                    assert(kept[a] == fb[j]);
                    assert(k2[a] == fb[j]);
                } else {
                    assert(k2[a] == fb[i - 1]);
                }
            }
            assert forall|a: int, b: int| 0 <= a < b < k2.len() implies #[trigger] k2[a].0 != #[trigger] k2[b].0 by {
                if b == kept.len() {
                    let j = choose|j: int| 0 <= j < i - 1 && kept[a] == #[trigger] fb[j];
                    assert(kept[a] == fb[j]);
                    assert(k2[a] == fb[j]);
                } else {
                    assert(k2[a] == kept[a] && k2[b] == kept[b]);
                }
            }
            assert forall|a: int| 0 <= a < k2.len() implies (#[trigger] k2[a]).1.0 < n && k2[a].1.1 < n by {
                if a < kept.len() {
                    assert(k2[a] == kept[a]);
                }
            }
        } else {
            assert forall|a: int| #![trigger k2[a]] 0 <= a < k2.len() implies exists|j: int| 0 <= j < i && k2[a] == #[trigger] fb[j] by {
                let j = choose|j: int| 0 <= j < i - 1 && kept[a] == #[trigger] fb[j];
                assert(k2[a] == fb[j]);
            }
        }
    }
}

pub open spec fn msg_changing_key(old_name: Seq<char>, to: Seq<char>, a: Seq<char>, b: Seq<char>) -> Seq<char> {
    "Changing key name of \""@ + old_name + "\" to \""@ + to + "\" for \""@ + a + "\" and \""@ + b + "\"\n"@
}

pub open spec fn msg_changing_keys(old_name: Seq<char>, to: Seq<char>, c: Seq<char>) -> Seq<char> {
    "Changing key names of \""@ + old_name + "\" to \""@ + to + "\" for cube \""@ + c + "\"\n"@
}

/// `m` written `n` times.
pub open spec fn repeat_text(m: Seq<char>, n: nat) -> Seq<char>
    decreases n,
{
    if n == 0 {
        no_text()
    } else {
        repeat_text(m, (n - 1) as nat) + m
    }
}

/// The conversion of cube `c` named `old_name` is moved to the name `to`;
/// a cube already moved (one in two keys) is left as it is; `None` when
/// `c` has neither name among its conversions.
pub open spec fn rebind(w: DllView, c: int, old_name: Seq<char>, to: Seq<char>) -> Option<DllView> {
    let ct = w.cubes[c].converts_to;
    if has_key(ct, old_name) {
        Some(w.set_ct(c, key_insert(key_remove(ct, old_name), to, value_of(ct, old_name))))
    } else if has_key(ct, to) {
        Some(w)
    } else {
        None
    }
}

/// One fuse key entry of a renamed cube: its cubes `ids` move their
/// conversion to the new name (the second only when its name differs).
#[verifier::opaque]
pub open spec fn spec_rename_fb_step(w: DllView, old_name: Seq<char>, to: Seq<char>, ids: (usize, usize)) -> (
    DllView,
    Seq<char>,
    Option<ErrView>,
) {
    let f = "CubeDLL::rename_at_p"@;
    let a = ids.0 as int;
    let b = ids.1 as int;
    match rebind(w, a, old_name, to) {
        None => (w, no_text(), Some(ErrView::EmptyValue(f, w.cubes[a].name))),
        Some(w1) => if w1.cubes[a].name != w1.cubes[b].name {
            match rebind(w1, b, old_name, to) {
                None => (w1, no_text(), Some(ErrView::EmptyValue(f, w1.cubes[b].name))),
                Some(w2) => (w2, msg_changing_key(old_name, to, w2.cubes[a].name, w2.cubes[b].name), None),
            }
        } else {
            (w1, msg_changing_key(old_name, to, w1.cubes[a].name, w1.cubes[b].name), None)
        },
    }
}

/// The first `i` fuse key entries of a renamed cube; stops at the first error.
pub open spec fn rename_fb_fold(v: DllView, old_name: Seq<char>, to: Seq<char>, fb: Seq<(KeyView, (usize, usize))>, i: nat) -> (
    DllView,
    Seq<char>,
    Option<ErrView>,
)
    decreases i,
{
    if i == 0 || i > fb.len() {
        (v, no_text(), None)
    } else {
        let (w, t, e) = rename_fb_fold(v, old_name, to, fb, (i - 1) as nat);
        if e is Some {
            (w, t, e)
        } else {
            let (w2, t2, e2) = spec_rename_fb_step(w, old_name, to, fb[i - 1].1);
            (w2, t + t2, e2)
        }
    }
}

/// The keys among the first `i` entries of `fb` that name `n`, in order.
pub open spec fn mentioning(fb: Seq<(KeyView, (usize, usize))>, n: Seq<char>, i: nat) -> Seq<KeyView>
    decreases i,
{
    if i == 0 || i > fb.len() {
        Seq::empty()
    } else if key_mentions(fb[i - 1].0, n) {
        mentioning(fb, n, (i - 1) as nat).push(fb[i - 1].0)
    } else {
        mentioning(fb, n, (i - 1) as nat)
    }
}

/// The first `j` keys of `ks` rewritten in `fb` (each taken out and put
/// back with `old_name` replaced by `to`); false when a key is missing.
pub open spec fn rewrite_fold(fb: Seq<(KeyView, (usize, usize))>, ks: Seq<KeyView>, old_name: Seq<char>, to: Seq<char>, j: nat) -> (
    Seq<(KeyView, (usize, usize))>,
    bool,
)
    decreases j,
{
    if j == 0 || j > ks.len() {
        (fb, true)
    } else {
        let (f, ok) = rewrite_fold(fb, ks, old_name, to, (j - 1) as nat);
        let k = ks[j - 1];
        if !ok {
            (f, false)
        } else if has_key(f, k) {
            (key_insert(key_remove(f, k), crate::fuse_key::rewrite_key(k, old_name, to), value_of(f, k)), true)
        } else {
            (f, false)
        }
    }
}

/// One conversion of a renamed cube: the cube `c` converted to rewrites
/// its keys that name the old name, with a note for each.
#[verifier::opaque]
pub open spec fn spec_rename_ct_step(w: DllView, old_name: Seq<char>, to: Seq<char>, c: int) -> (
    DllView,
    Seq<char>,
    Option<ErrView>,
) {
    let fb = w.cubes[c].fused_by;
    let ks = mentioning(fb, old_name, fb.len());
    let (f2, ok) = rewrite_fold(fb, ks, old_name, to, ks.len());
    (
        w.set_fb(c, f2),
        repeat_text(msg_changing_keys(old_name, to, w.cubes[c].name), ks.len()),
        if ok {
            None
        } else {
            Some(ErrView::EmptyValue("CubeDLL::rename_at_p"@, w.cubes[c].name))
        },
    )
}

/// The first `i` conversions of a renamed cube; stops at the first error.
pub open spec fn rename_ct_fold(v: DllView, old_name: Seq<char>, to: Seq<char>, ct: Seq<(Seq<char>, usize)>, i: nat) -> (
    DllView,
    Seq<char>,
    Option<ErrView>,
)
    decreases i,
{
    if i == 0 || i > ct.len() {
        (v, no_text(), None)
    } else {
        let (w, t, e) = rename_ct_fold(v, old_name, to, ct, (i - 1) as nat);
        if e is Some {
            (w, t, e)
        } else {
            let (w2, t2, e2) = spec_rename_ct_step(w, old_name, to, ct[i - 1].1 as int);
            (w2, t + t2, e2)
        }
    }
}

/// `rename_at_p`: the pointed cube takes the name `to`. The cubes of its
/// keys move their conversion to the new name, the cubes it converts to
/// and the unknown cube rewrite their keys, and then the cube takes the new
/// name while the map binds it instead of the old one (so a renaming that
/// stops early leaves the name and the map as they were).
/// A name already in the map is refused; a missing link stops the renaming
/// with `EmptyValue`, leaving what was done so far.
pub open spec fn spec_rename(v: DllView, to: Seq<char>) -> (DllView, Seq<char>, Result<(), ErrView>) {
    let f = "CubeDLL::rename_at_p"@;
    if has_key(v.hashmap, to) {
        (v, no_text(), Err(ErrView::DuplicateName(f, to)))
    } else {
        match v.pointer {
            None => (v, no_text(), Err(ErrView::NullPointer(f))),
            Some(p) => {
                let old_name = v.cubes[p as int].name;
                let v0 = v;
                let fb = v0.cubes[p as int].fused_by;
                let (v1, t1, e1) = rename_fb_fold(v0, old_name, to, fb, fb.len());
                if let Some(e) = e1 {
                    (v1, t1, Err(e))
                } else {
                    let ct = v1.cubes[p as int].converts_to;
                    let (v2, t2, e2) = rename_ct_fold(v1, old_name, to, ct, ct.len());
                    if let Some(e) = e2 {
                        (v2, t1 + t2, Err(e))
                    } else {
                        let (v3, t3, e3) = match v2.lookup(unknown_name()) {
                            Some(q) => if q != p {
                                spec_rename_ct_step(v2, old_name, to, q as int)
                            } else {
                                (v2, no_text(), None)
                            },
                            None => (v2, no_text(), None),
                        };
                        if let Some(e) = e3 {
                            (v3, t1 + t2 + t3, Err(e))
                        } else if has_key(v3.hashmap, old_name) {
                            (
                                DllView {
                                    hashmap: key_insert(
                                        key_remove(v3.hashmap, old_name),
                                        to,
                                        value_of(v3.hashmap, old_name),
                                    ),
                                    ..v3.set_name(p as int, to)
                                },
                                t1 + t2 + t3,
                                Ok(()),
                            )
                        } else {
                            (v3, t1 + t2 + t3, Err(ErrView::EmptyValue(f, "CubeDLL Hashmap"@)))
                        }
                    }
                }
            },
        }
    }
}

/// The outcome of a step that stops at an error.
pub open spec fn step_outcome(e: Option<ErrView>) -> Result<(), ErrView> {
    match e {
        Some(x) => Err(x),
        None => Ok(()),
    }
}

/// Once a renaming fold has met an error, later entries change nothing.
pub proof fn lemma_rename_fb_fold_stops(v: DllView, o: Seq<char>, t: Seq<char>, fb: Seq<(KeyView, (usize, usize))>, i: nat, n: nat)
    requires
        rename_fb_fold(v, o, t, fb, i).2 is Some,
        0 < i <= n <= fb.len(),
    ensures
        rename_fb_fold(v, o, t, fb, n) == rename_fb_fold(v, o, t, fb, i),
    decreases n - i,
{
    if n > i {
        lemma_rename_fb_fold_stops(v, o, t, fb, i, (n - 1) as nat);
    }
}

/// Once a renaming fold has met an error, later entries change nothing.
pub proof fn lemma_rename_ct_fold_stops(v: DllView, o: Seq<char>, t: Seq<char>, ct: Seq<(Seq<char>, usize)>, i: nat, n: nat)
    requires
        rename_ct_fold(v, o, t, ct, i).2 is Some,
        0 < i <= n <= ct.len(),
    ensures
        rename_ct_fold(v, o, t, ct, n) == rename_ct_fold(v, o, t, ct, i),
    decreases n - i,
{
    if n > i {
        lemma_rename_ct_fold_stops(v, o, t, ct, i, (n - 1) as nat);
    }
}

/// Once a rewriting fold has met a missing key, later keys change nothing.
pub proof fn lemma_rewrite_fold_stops(fb: Seq<(KeyView, (usize, usize))>, ks: Seq<KeyView>, o: Seq<char>, t: Seq<char>, j: nat, n: nat)
    requires
        !rewrite_fold(fb, ks, o, t, j).1,
        0 < j <= n <= ks.len(),
    ensures
        rewrite_fold(fb, ks, o, t, n) == rewrite_fold(fb, ks, o, t, j),
    decreases n - j,
{
    if n > j {
        lemma_rewrite_fold_stops(fb, ks, o, t, j, (n - 1) as nat);
    }
}

/// `b` has the cubes, names, map and pointer of `a` (only links may differ).
pub open spec fn same_frame(a: DllView, b: DllView) -> bool {
    &&& b.cubes.len() == a.cubes.len()
    &&& b.hashmap == a.hashmap
    &&& b.pointer == a.pointer
    &&& forall|c: int| 0 <= c < a.cubes.len() ==> (#[trigger] b.cubes[c]).name == a.cubes[c].name
}

/// Appends `s` to the output.
pub fn put(out: &mut String, s: &str)
    ensures
        final(out)@ == old(out)@ + s@,
{
    out.append(s);
}

/// Replacing the conversions of a cube keeps the graph well formed when
/// the new list is.
pub proof fn lemma_set_ct_wf(v: DllView, c: int, s: Seq<(Seq<char>, usize)>)
    requires
        v.wf(),
        0 <= c < v.cubes.len(),
        keys_distinct(s),
        ids_below(s, v.cubes.len()),
    ensures
        v.set_ct(c, s).wf(),
{
    let w = v.set_ct(c, s);
    assert forall|i: int| 0 <= i < w.cubes.len() implies (#[trigger] w.cubes[i]).wf(w.cubes.len()) by {
        if i != c {
            assert(w.cubes[i] == v.cubes[i]);
        }
    }
}

/// Replacing the fuse keys of a cube keeps the graph well formed when the
/// new list is.
pub proof fn lemma_set_fb_wf(v: DllView, c: int, s: Seq<(KeyView, (usize, usize))>)
    requires
        v.wf(),
        0 <= c < v.cubes.len(),
        keys_distinct(s),
        pairs_below(s, v.cubes.len()),
    ensures
        v.set_fb(c, s).wf(),
{
    let w = v.set_fb(c, s);
    assert forall|i: int| 0 <= i < w.cubes.len() implies (#[trigger] w.cubes[i]).wf(w.cubes.len()) by {
        if i != c {
            assert(w.cubes[i] == v.cubes[i]);
        }
    }
}

/// Retiering a cube keeps the graph well formed.
pub proof fn lemma_set_fields_wf(v: DllView, c: int, s: Seq<char>, t: i32)
    requires
        v.wf(),
        0 <= c < v.cubes.len(),
    ensures
        v.set_tier(c, t).wf(),
{
    let w2 = v.set_tier(c, t);
    assert forall|i: int| 0 <= i < w2.cubes.len() implies (#[trigger] w2.cubes[i]).wf(w2.cubes.len()) by {
        if i != c {
            assert(w2.cubes[i] == v.cubes[i]);
        }
    }
    assert forall|j: int| 0 <= j < w2.hashmap.len() implies w2.cubes[(#[trigger] w2.hashmap[j]).1 as int].name == w2.hashmap[j].0 by {
        assert(v.cubes[v.hashmap[j].1 as int].name == v.hashmap[j].0);
    }
}

/// In a well formed graph, the cube that the map binds to a name bears it,
/// and a cube of the map bound to name `n` is the one the map binds to `n`.
pub proof fn lemma_bound_cube(v: DllView, j: int)
    requires
        v.wf(),
        0 <= j < v.hashmap.len(),
    ensures
        v.lookup(v.hashmap[j].0) == Some(v.hashmap[j].1),
        v.cubes[v.hashmap[j].1 as int].name == v.hashmap[j].0,
{
    assert forall|t: int| 0 <= t < j implies v.hashmap[t].0 != v.hashmap[j].0 by {}
    crate::assoc::lemma_find_key_at(v.hashmap, v.hashmap[j].0, j);
}

/// Giving the pointed cube the new name `to` (not in the map) while the map
/// binds `to` in place of its old name keeps the graph well formed.
#[verifier::spinoff_prover]
pub proof fn lemma_rename_map_wf(v: DllView, to: Seq<char>)
    requires
        v.wf(),
        v.pointer is Some,
        !has_key(v.hashmap, to),
    ensures
        ({
            let p = v.pointer->0 as int;
            let old_name = v.cubes[p].name;
            &&& has_key(v.hashmap, old_name)
            &&& value_of(v.hashmap, old_name) == p
            &&& (DllView {
                hashmap: key_insert(key_remove(v.hashmap, old_name), to, value_of(v.hashmap, old_name)),
                ..v.set_name(p, to)
            }).wf()
        }),
{
    let p = v.pointer->0 as int;
    let o = v.cubes[p].name;
    let hm = v.hashmap;
    let jp = choose|j: int| 0 <= j < hm.len() && (#[trigger] hm[j]).1 == p;
    lemma_bound_cube(v, jp);
    assert(hm[jp].0 == o);
    lemma_find_key(hm, o);
    let i0 = find_key(hm, o);
    assert(i0 == jp) by {
        if i0 != jp {
            assert(hm[i0].0 == hm[jp].0);
        }
    }
    let r = key_remove(hm, o);
    lemma_insert_remove(hm, o, p as usize);
    lemma_insert_remove(r, to, p as usize);
    lemma_ids_below(hm, o, p as usize, v.cubes.len());
    lemma_ids_below(r, to, p as usize, v.cubes.len());
    lemma_find_key(r, to);
    let h2 = key_insert(r, to, p as usize);
    assert(h2 == r.push((to, p as usize)));
    let w = DllView { hashmap: h2, ..v.set_name(p, to) };
    assert forall|i: int| 0 <= i < w.cubes.len() implies (#[trigger] w.cubes[i]).wf(w.cubes.len()) by {
        if i != p {
            assert(w.cubes[i] == v.cubes[i]);
        }
    }
    assert forall|j: int| 0 <= j < h2.len() implies w.cubes[(#[trigger] h2[j]).1 as int].name == h2[j].0 by {
        if j < r.len() {
            let z = if j < i0 { j } else { j + 1 };
            assert(r[j] == hm[z]);
            assert(z != i0);
            assert(v.cubes[hm[z].1 as int].name == hm[z].0);
            if hm[z].1 as int == p {
                lemma_bound_cube(v, z);
                assert(hm[z].0 == o);
            }
        }
    }
    assert(h2[r.len() as int].1 == p);
    assert(value_of(hm, o) == hm[i0].1);
    assert(keys_distinct(h2));
    assert(ids_below(h2, w.cubes.len()));
    assert(w.names_agree());
    let jr = r.len() as int;
    assert(0 <= jr < h2.len());
    assert(h2[jr].1 == v.pointer->0);
    assert(w.pointer == v.pointer);
    assert(w.hashmap[jr].1 == w.pointer->0);
    assert(exists|j: int| 0 <= j < w.hashmap.len() && (#[trigger] w.hashmap[j]).1 == w.pointer->0);
    assert(w.pointer_bound());
    assert(w.wf());
}

/// Taking a name out of the map of a graph with no pointer keeps it well formed.
pub proof fn lemma_forget_name_wf(v: DllView, name: Seq<char>)
    requires
        v.wf(),
        v.pointer is None,
    ensures
        (DllView { hashmap: key_remove(v.hashmap, name), ..v }).wf(),
{
    let hm = v.hashmap;
    lemma_find_key(hm, name);
    let i0 = find_key(hm, name);
    lemma_insert_remove(hm, name, 0);
    if v.cubes.len() > 0 {
        lemma_ids_below(hm, name, 0, v.cubes.len());
    } else {
        assert(hm.len() == 0) by {
            if hm.len() > 0 {
                assert(hm[0].1 < v.cubes.len());
            }
        }
    }
    let r = key_remove(hm, name);
    assert forall|j: int| 0 <= j < r.len() implies v.cubes[(#[trigger] r[j]).1 as int].name == r[j].0 by {
        if i0 >= 0 {
            let z = if j < i0 { j } else { j + 1 };
            assert(r[j] == hm[z]);
            assert(v.cubes[hm[z].1 as int].name == hm[z].0);
        } else {
            assert(v.cubes[hm[j].1 as int].name == hm[j].0);
        }
    }
}

/// Adding a cube under a new name keeps the graph well formed.
pub proof fn lemma_add_wf(v: DllView, c: CubeView)
    requires
        v.wf(),
        v.cubes.len() <= usize::MAX,
        c.wf(v.cubes.len() + 1),
        !has_key(v.hashmap, c.name),
    ensures
        spec_add(v, c).0.wf(),
        spec_add(v, c).0.hashmap == v.hashmap.push((c.name, v.cubes.len() as usize)),
{
    let w = spec_add(v, c).0;
    let id = v.cubes.len() as usize;
    lemma_find_key(v.hashmap, c.name);
    lemma_insert_remove(v.hashmap, c.name, id);
    lemma_ids_below(v.hashmap, c.name, id, v.cubes.len() + 1);
    assert(w.hashmap == v.hashmap.push((c.name, id)));
    assert forall|i: int| 0 <= i < w.cubes.len() implies (#[trigger] w.cubes[i]).wf(w.cubes.len()) by {
        if i < v.cubes.len() {
            assert(v.cubes[i].wf(v.cubes.len()));
            assert(w.cubes[i] == v.cubes[i]);
        }
    }
    assert(ids_below(v.hashmap, v.cubes.len() + 1));
    assert forall|j: int| 0 <= j < w.hashmap.len() implies w.cubes[(#[trigger] w.hashmap[j]).1 as int].name == w.hashmap[j].0 by {
        if j < v.hashmap.len() {
            assert(v.cubes[v.hashmap[j].1 as int].name == v.hashmap[j].0);
        }
    }
    if v.pointer is Some {
        let jp = choose|j: int| 0 <= j < v.hashmap.len() && (#[trigger] v.hashmap[j]).1 == v.pointer->0;
        assert(w.hashmap[jp].1 == v.pointer->0);
    }
}

impl CubeStruct {
    /// A new cube with no links; a tier below -1 becomes -1.
    pub fn new(name: String, tier: i32) -> (r: CubeStruct)
        ensures
            r@ == fresh_cube(name@, tier),
    {
        let r = CubeStruct {
            name,
            tier: if tier < -1 {
                -1
            } else {
                tier
            },
            converts_to: Vec::new(),
            fused_by: Vec::new(),
        };
        assert(r@.converts_to =~= Seq::empty());
        assert(r@.fused_by =~= Seq::empty());
        r
    }
}

impl CubeDLL {
    /// The empty graph: no cubes, no pointer.
    pub fn new() -> (r: CubeDLL)
        ensures
            r@.wf(),
            r@.pointer is None,
            r@.cubes.len() == 0,
            r@.hashmap.len() == 0,
    {
        let r = CubeDLL { pointer: None, cubes: Vec::new(), hashmap: Vec::new() };
        assert(r@.hashmap =~= Seq::empty());
        r
    }

    /// The cube bound to `name` in the map, if any.
    pub fn lookup(&self, name: &String) -> (r: Option<usize>)
        requires
            self@.wf(),
        ensures
            r == self@.lookup(name@),
            r matches Some(i) ==> i < self@.cubes.len(),
    {
        let r = named_get(&self.hashmap, name);
        proof {
            if let Some(i) = r {
                lemma_find_key(self@.hashmap, name@);
                assert(self@.hashmap[find_key(self@.hashmap, name@)].1 < self@.cubes.len());
            }
        }
        r
    }

    /// `add_to`: cube `c` converts to cube `p`, unless `p` is the unknown cube.
    pub fn add_to(&mut self, c: usize, p: usize, out: &mut String)
        requires
            old(self)@.wf(),
            c < old(self)@.cubes.len(),
            p < old(self)@.cubes.len(),
        ensures
            final(self)@.wf(),
            same_frame(old(self)@, final(self)@),
            (final(self)@, final(out)@) == ({
                let (w, t) = spec_add_to(old(self)@, c as int, p as int);
                (w, old(out)@ + t)
            }),
    {
        reveal(spec_add_to);
        let ghost v = self@;
        if str_eq(self.cubes[p].name.as_str(), "?") {
            return;
        }
        let pn = self.cubes[p].name.clone();
        let known = named_insert(&mut self.cubes[c].converts_to, pn, p);
        proof {
            lemma_insert_remove(v.cubes[c as int].converts_to, v.cubes[p as int].name, p);
            lemma_ids_below(v.cubes[c as int].converts_to, v.cubes[p as int].name, p, v.cubes.len());
            lemma_set_ct_wf(v, c as int, key_insert(v.cubes[c as int].converts_to, v.cubes[p as int].name, p));
            assert(self@.cubes =~= v.set_ct(c as int, key_insert(v.cubes[c as int].converts_to, v.cubes[p as int].name, p)).cubes);
        }
        if known.is_some() {
            put(out, "Cube \"");
            put(out, self.cubes[p].name.as_str());
            put(out, "\" has already been added for \"");
            put(out, self.cubes[c].name.as_str());
            put(out, "\" as a conversion\n");
        }
    }
    /// `add`: the cube joins the graph under its name; `DuplicateName` when
    /// the name is taken.
    pub fn add(&mut self, cs: CubeStruct) -> (r: CSResult<()>)
        requires
            old(self)@.wf(),
            cs@.wf(old(self)@.cubes.len() + 1),
        ensures
            final(self)@.wf(),
            (final(self)@, outcome(r)) == spec_add(old(self)@, cs@),
    {
        let ghost v = self@;
        let ghost c = cs@;
        proof {
            lemma_find_key(v.hashmap, c.name);
        }
        if named_get(&self.hashmap, &cs.name).is_some() {
            return Err(CSError::DuplicateName("CubeDLL::add", cs.name));
        }
        let id = self.cubes.len();
        let key = cs.name.clone();
        self.cubes.push(cs);
        named_insert(&mut self.hashmap, key, id);
        proof {
            let w = spec_add(v, c).0;
            assert(self@.cubes =~= w.cubes);
            lemma_insert_remove(v.hashmap, c.name, id);
            lemma_add_wf(v, c);
        }
        Ok(())
    }

    /// `point_to`: the pointer goes to the cube named `name`; the unknown
    /// cube `?` is created the first time; `NonExistentName` otherwise.
    pub fn point_to(&mut self, name: String) -> (r: CSResult<()>)
        requires
            old(self)@.wf(),
        ensures
            final(self)@.wf(),
            (final(self)@, outcome(r)) == spec_point_to(old(self)@, name@),
    {
        let ghost v = self@;
        match self.lookup(&name) {
            Some(i) => {
                proof {
                    lemma_find_key(v.hashmap, name@);
                    assert(v.hashmap[find_key(v.hashmap, name@)].1 == i);
                }
                self.pointer = Some(i);
                Ok(())
            },
            None => {
                if str_eq(name.as_str(), "?") {
                    let id = self.cubes.len();
                    let q = CubeStruct::new(string_of("?"), -1);
                    assert(q@.converts_to.len() == 0 && q@.fused_by.len() == 0);
                    let r = self.add(q);
                    assert(r is Ok);
                    proof {
                        lemma_add_wf(v, q@);
                        assert(self@.hashmap[v.hashmap.len() as int].1 == id);
                    }
                    self.pointer = Some(id);
                    Ok(())
                } else {
                    Err(CSError::NonExistentName("CubeDLL::point_to", name))
                }
            },
        }
    }

    /// `remove_all_cubes`: every cube and the pointer are gone.
    pub fn remove_all_cubes(&mut self)
        ensures
            final(self)@ == empty_dll(),
            final(self)@.wf(),
    {
        self.cubes.clear();
        self.hashmap.clear();
        self.pointer = None;
        assert(self@.cubes =~= Seq::empty());
        assert(self@.hashmap =~= Seq::empty());
    }

    /// `unlink_at_p_fb`: the pointed cube loses all its fuse keys, and the
    /// cubes of those keys stop converting to it.
    pub fn unlink_at_p_fb(&mut self) -> (r: CSResult<()>)
        requires
            old(self)@.wf(),
        ensures
            final(self)@.wf(),
            (final(self)@, outcome(r)) == spec_unlink_all(old(self)@),
    {
        let ghost v = self@;
        match self.pointer {
            None => Err(CSError::NullPointer("CubeDLL::unlink_at_p_fb")),
            Some(p) => {
                let name = self.cubes[p].name.clone();
                let mut fb_list: Vec<(FuseKey, (usize, usize))> = Vec::new();
                std::mem::swap(&mut self.cubes[p].fused_by, &mut fb_list);
                proof {
                    lemma_set_fb_wf(v, p as int, Seq::empty());
                    assert(keyed_view(self.cubes@[p as int].fused_by@) =~= Seq::empty());
                    assert(self@.cubes =~= v.set_fb(p as int, Seq::empty()).cubes);
                    assert(v.cubes[p as int].wf(v.cubes.len()));
                }
                let mut notes = String::new();
                self.unconvert_keys(&fb_list, &name, &mut notes);
                Ok(())
            },
        }
    }

    /// `change_tier_at_p`: the pointed cube gets the tier (at least -1).
    pub fn change_tier_at_p(&mut self, to_this_tier: i32, out: &mut String) -> (r: CSResult<()>)
        requires
            old(self)@.wf(),
        ensures
            final(self)@.wf(),
            (final(self)@, final(out)@, outcome(r)) == ({
                let (w, t, e) = spec_change_tier(old(self)@, to_this_tier);
                (w, old(out)@ + t, e)
            }),
    {
        let ghost v = self@;
        match self.pointer {
            None => Err(CSError::NullPointer("CubeDLL::change_tier_at_p")),
            Some(p) => {
                if to_this_tier < -1 {
                    put(out, "Tier changed to -1 instead of ");
                    let t = i32_text(to_this_tier);
                    put(out, t.as_str());
                    put(out, "\n");
                }
                self.cubes[p].tier = if to_this_tier < -1 {
                    -1
                } else {
                    to_this_tier
                };
                proof {
                    lemma_set_fields_wf(v, p as int, Seq::empty(), clamp_tier(to_this_tier));
                    assert(self@.cubes =~= v.set_tier(p as int, clamp_tier(to_this_tier)).cubes);
                }
                Ok(())
            },
        }
    }
    /// Writes `text(k)` for key `k`.
    fn put_key(out: &mut String, k: &FuseKey)
        ensures
            final(out)@ == old(out)@ + key_text(k@),
    {
        let t = k.to_text();
        put(out, t.as_str());
    }

    /// Adds fuse key `k` with links `ids` to cube `p`; true when the key
    /// was there already.
    fn add_fb(&mut self, p: usize, k: FuseKey, ids: (usize, usize)) -> (known: bool)
        requires
            old(self)@.wf(),
            p < old(self)@.cubes.len(),
            ids.0 < old(self)@.cubes.len(),
            ids.1 < old(self)@.cubes.len(),
        ensures
            final(self)@.wf(),
            final(self)@ == spec_add_fb(old(self)@, p as int, k@, ids, no_text()).0,
            same_frame(old(self)@, final(self)@),
            known == has_key(old(self)@.cubes[p as int].fused_by, k@),
    {
        reveal(spec_add_fb);
        let ghost v = self@;
        let ghost kv = k@;
        let known = keyed_insert(&mut self.cubes[p].fused_by, k, ids);
        proof {
            let fb = v.cubes[p as int].fused_by;
            lemma_insert_remove(fb, kv, ids);
            lemma_pairs_below(fb, kv, ids, v.cubes.len());
            lemma_set_fb_wf(v, p as int, key_insert(fb, kv, ids));
            assert(self@.cubes =~= v.set_fb(p as int, key_insert(fb, kv, ids)).cubes);
        }
        known.is_some()
    }

    /// Cube `c` has fuse key `k`.
    fn has_fuse_key(&self, c: usize, k: &FuseKey) -> (r: bool)
        requires
            c < self@.cubes.len(),
        ensures
            r == has_key(self@.cubes[c as int].fused_by, k@),
    {
        proof {
            lemma_find_key(self@.cubes[c as int].fused_by, k@);
        }
        crate::assoc::keyed_find(&self.cubes[c].fused_by, k).is_some()
    }

    /// The stage of linking that concerns the unknown cube `?`; true when
    /// the link stops there.
    #[verifier::loop_isolation(false)]
    fn unknown_stage(&mut self, p: usize, k: &FuseKey, out: &mut String) -> (stop: bool)
        requires
            old(self)@.wf(),
            p < old(self)@.cubes.len(),
        ensures
            final(self)@.wf(),
            same_frame(old(self)@, final(self)@),
            (final(self)@, final(out)@, stop) == ({
                let (w, t, b) = spec_unknown_stage(old(self)@, p as int, k@);
                (w, old(out)@ + t, b)
            }),
    {
        reveal(spec_unknown_stage);
        let ghost v = self@;
        let qn = string_of("?");
        match self.lookup(&qn) {
            None => {
                assert(out@ =~= old(out)@ + no_text());
                false
            },
            Some(q) => {
                if !str_eq(self.cubes[p].name.as_str(), "?") {
                    let removed = keyed_remove(&mut self.cubes[q].fused_by, k);
                    proof {
                        let fb = v.cubes[q as int].fused_by;
                        lemma_find_key(fb, k@);
                        lemma_insert_remove(fb, k@, (0, 0));
                        lemma_pairs_below(fb, k@, (0, 0), v.cubes.len());
                        lemma_set_fb_wf(v, q as int, key_remove(fb, k@));
                        assert(self@.cubes =~= v.set_fb(q as int, key_remove(fb, k@)).cubes);
                        if !has_key(fb, k@) {
                            assert(v.set_fb(q as int, key_remove(fb, k@)).cubes =~= v.cubes);
                        }
                    }
                    if removed.is_some() {
                        put(out, "Cube FuseKey \"");
                        Self::put_key(out, k);
                        put(out, "\" has been removed for ?\n");
                    } else {
                        assert(out@ =~= old(out)@ + no_text());
                    }
                    false
                } else {
                    let mut j: usize = 0;
                    while j < self.hashmap.len()
                        invariant
                            self@ == v,
                            out@ == old(out)@,
                            v.wf(),
                            j <= v.hashmap.len(),
                            forall|i: int| 0 <= i < j ==> !has_key(v.cubes[#[trigger] v.hashmap[i].1 as int].fused_by, k@),
                        decreases self.hashmap.len() - j,
                    {
                        let id = self.hashmap[j].1;
                        assert(v.hashmap[j as int].1 < v.cubes.len());
                        if self.has_fuse_key(id, k) {
                            assert(key_known(v, k@));
                            let ghost o0 = out@;
                            put(out, "Cube FuseKey \"");
                            Self::put_key(out, k);
                            put(out, "\" cannot be added for ? as it already exists as known.\n");
                            assert(out@ =~= o0 + msg_unknown_key_exists(k@));
                            assert(v.lookup(unknown_name()) == Some(q));
                            assert(v.cubes[p as int].name == unknown_name());
                            assert(spec_unknown_stage(v, p as int, k@) == (v, msg_unknown_key_exists(k@), true));
                            return true;
                        }
                        j = j + 1;
                    }
                    assert(!key_known(v, k@));
                    assert(out@ =~= old(out)@ + no_text());
                    false
                }
            },
        }
    }

    /// `link_at_p_fb_pair`: cubes `cs_n1` and `cs_n2` fuse into the pointed
    /// cube, which each of them then converts to.
    pub fn link_at_p_fb_pair(&mut self, cs_n1: String, cs_n2: String, out: &mut String) -> (r: CSResult<()>)
        requires
            old(self)@.wf(),
        ensures
            final(self)@.wf(),
            (final(self)@, final(out)@, outcome(r)) == ({
                let (w, t, e) = spec_link_pair(old(self)@, cs_n1@, cs_n2@);
                (w, old(out)@ + t, e)
            }),
    {
        let ghost v = self@;
        let ghost o = out@;
        let i1 = match self.lookup(&cs_n1) {
            Some(i) => i,
            None => {
                assert(out@ =~= o + no_text());
                return Err(CSError::NonExistentName("CubeDLL::link_at_p_fb_pair", cs_n1));
            },
        };
        let i2 = match self.lookup(&cs_n2) {
            Some(i) => i,
            None => {
                assert(out@ =~= o + no_text());
                return Err(CSError::NonExistentName("CubeDLL::link_at_p_fb_pair", cs_n2));
            },
        };
        let p = match self.pointer {
            Some(p) => p,
            None => {
                assert(out@ =~= o + no_text());
                return Err(CSError::NullPointer("CubeDLL::link_at_p_fb_pair"));
            },
        };
        if self.cubes[i1].name == self.cubes[p].name || self.cubes[i2].name == self.cubes[p].name {
            assert(out@ =~= o + no_text());
            return Err(CSError::SameStruct("CubeDLL::link_at_p_fb_pair", self.cubes[p].name.clone()));
        }
        let (w, t) = self.fuse_pair(p, i1, i2, out);
        assert(out@ =~= o + spec_link_pair(v, cs_n1@, cs_n2@).1);
        Ok(())
    }

    /// Cubes `i1` and `i2` fuse into cube `p`.
    fn fuse_pair(&mut self, p: usize, i1: usize, i2: usize, out: &mut String) -> (res: (Ghost<DllView>, Ghost<Seq<char>>))
        requires
            old(self)@.wf(),
            p < old(self)@.cubes.len(),
            i1 < old(self)@.cubes.len(),
            i2 < old(self)@.cubes.len(),
        ensures
            final(self)@.wf(),
            final(self)@ == spec_fuse_pair(old(self)@, p as int, i1, i2).0,
            final(out)@ == old(out)@ + spec_fuse_pair(old(self)@, p as int, i1, i2).1,
    {
        let ghost v = self@;
        let ghost o = out@;
        let k = FuseKey::new_pair(&self.cubes[i1].name, &self.cubes[i2].name);
        let ghost a = v.cubes[i1 as int].name;
        let ghost b = v.cubes[i2 as int].name;
        let ghost pn = v.cubes[p as int].name;
        let stop = self.unknown_stage(p, &k, out);
        let ghost o1 = out@;
        let ghost v1 = self@;
        if stop {
            return (Ghost(v1), Ghost(o1));
        }
        let known = self.add_fb(p, k, (i1, i2));
        assert(self@.cubes[i1 as int].name == a && self@.cubes[i2 as int].name == b && self@.cubes[p as int].name == pn);
        assert(self.cubes@[i1 as int].name@ == a && self.cubes@[i2 as int].name@ == b && self.cubes@[p as int].name@ == pn);
        if known {
            put(out, "Cubes \"");
            put(out, self.cubes[i1].name.as_str());
            put(out, "\" and \"");
            put(out, self.cubes[i2].name.as_str());
            put(out, "\" have already been added as a key to \"");
            put(out, self.cubes[p].name.as_str());
            put(out, "\"\n");
        }
        let ghost t2 = spec_add_fb(v1, p as int, k@, (i1, i2), msg_pair_known(a, b, pn)).1;
        assert(self@ == spec_add_fb(v1, p as int, k@, (i1, i2), msg_pair_known(a, b, pn)).0) by {
            reveal(spec_add_fb);
        }
        assert(t2 == if known { msg_pair_known(a, b, pn) } else { no_text() }) by {
            reveal(spec_add_fb);
        }
        assert(out@ =~= o1 + t2);
        let ghost o2 = out@;
        self.add_to(i1, p, out);
        assert(self@.cubes[i1 as int].name == a && self@.cubes[i2 as int].name == b);
        assert(self.cubes@[i1 as int].name@ == a && self.cubes@[i2 as int].name@ == b);
        if self.cubes[i1].name == self.cubes[i2].name {
            assert(out@ =~= o + spec_fuse_pair(v, p as int, i1, i2).1);
            return (Ghost(self@), Ghost(out@));
        }
        self.add_to(i2, p, out);
        assert(out@ =~= o + spec_fuse_pair(v, p as int, i1, i2).1);
        (Ghost(self@), Ghost(out@))
    }

    /// `link_at_p_fb_single`: cube `cs_n` alone fuses into the pointed cube,
    /// which it then converts to.
    pub fn link_at_p_fb_single(&mut self, cs_n: String, out: &mut String) -> (r: CSResult<()>)
        requires
            old(self)@.wf(),
        ensures
            final(self)@.wf(),
            (final(self)@, final(out)@, outcome(r)) == ({
                let (w, t, e) = spec_link_single(old(self)@, cs_n@);
                (w, old(out)@ + t, e)
            }),
    {
        let ghost v = self@;
        let ghost o = out@;
        let i = match self.lookup(&cs_n) {
            Some(i) => i,
            None => {
                assert(out@ =~= o + no_text());
                return Err(CSError::NonExistentName("CubeDLL::link_at_p_fb_single", cs_n));
            },
        };
        let p = match self.pointer {
            Some(p) => p,
            None => {
                assert(out@ =~= o + no_text());
                return Err(CSError::NullPointer("CubeDLL::link_at_p_fb_pair"));
            },
        };
        if self.cubes[i].name == self.cubes[p].name {
            assert(out@ =~= o + no_text());
            return Err(CSError::SameStruct("CubeDLL::link_at_p_fb_single", self.cubes[p].name.clone()));
        }
        let (w, t) = self.fuse_single(p, i, out);
        assert(out@ =~= o + spec_link_single(v, cs_n@).1);
        Ok(())
    }

    /// Cube `i` alone fuses into cube `p`.
    fn fuse_single(&mut self, p: usize, i: usize, out: &mut String) -> (res: (Ghost<DllView>, Ghost<Seq<char>>))
        requires
            old(self)@.wf(),
            p < old(self)@.cubes.len(),
            i < old(self)@.cubes.len(),
        ensures
            final(self)@.wf(),
            final(self)@ == spec_fuse_single(old(self)@, p as int, i).0,
            final(out)@ == old(out)@ + spec_fuse_single(old(self)@, p as int, i).1,
    {
        let ghost v = self@;
        let ghost o = out@;
        let k = FuseKey::new_single(&self.cubes[i].name);
        let ghost a = v.cubes[i as int].name;
        let ghost pn = v.cubes[p as int].name;
        let stop = self.unknown_stage(p, &k, out);
        let ghost o1 = out@;
        let ghost v1 = self@;
        if stop {
            return (Ghost(v1), Ghost(o1));
        }
        let known = self.add_fb(p, k, (i, i));
        assert(self@.cubes[i as int].name == a && self@.cubes[p as int].name == pn);
        assert(self.cubes@[i as int].name@ == a && self.cubes@[p as int].name@ == pn);
        if known {
            put(out, "Cube \"");
            put(out, self.cubes[i].name.as_str());
            put(out, "\" has already been added as a key to \"");
            put(out, self.cubes[p].name.as_str());
            put(out, "\"\n");
        }
        assert(self@ == spec_add_fb(v1, p as int, KeyView::Single(a), (i, i), msg_single_known(a, pn)).0) by {
            reveal(spec_add_fb);
        }
        assert(spec_add_fb(v1, p as int, KeyView::Single(a), (i, i), msg_single_known(a, pn)).1 == if known { msg_single_known(a, pn) } else { no_text() }) by {
            reveal(spec_add_fb);
        }
        assert(out@ =~= o1 + spec_add_fb(v1, p as int, KeyView::Single(a), (i, i), msg_single_known(a, pn)).1);
        self.add_to(i, p, out);
        assert(out@ =~= o + spec_fuse_single(v, p as int, i).1);
        (Ghost(self@), Ghost(out@))
    }
    /// `remove_to_maybe`: cube `c` stops converting to cube `p` unless a key
    /// of `p` still names `c`.
    #[verifier::loop_isolation(false)]
    fn remove_to_maybe(&mut self, c: usize, p: usize, out: &mut String)
        requires
            old(self)@.wf(),
            c < old(self)@.cubes.len(),
            p < old(self)@.cubes.len(),
        ensures
            final(self)@.wf(),
            same_frame(old(self)@, final(self)@),
            final(self)@ == spec_remove_to_maybe(old(self)@, c as int, p as int).0,
            final(out)@ == old(out)@ + spec_remove_to_maybe(old(self)@, c as int, p as int).1,
    {
        reveal(spec_remove_to_maybe);
        let ghost v = self@;
        let mut i: usize = 0;
        let n = self.cubes[p].fused_by.len();
        while i < n
            invariant
                self@ == v,
                out@ == old(out)@,
                c < v.cubes.len(),
                p < v.cubes.len(),
                n == v.cubes[p as int].fused_by.len(),
                i <= n,
                forall|j: int| 0 <= j < i ==> !key_mentions(#[trigger] v.cubes[p as int].fused_by[j].0, v.cubes[c as int].name),
            decreases n - i,
        {
            if self.cubes[p].fused_by[i].0.contains_key(&self.cubes[c].name) {
                assert(key_mentions(v.cubes[p as int].fused_by[i as int].0, v.cubes[c as int].name));
                assert(fb_mentions(v, p as int, v.cubes[c as int].name));
                put(out, "Cube \"");
                put(out, self.cubes[p].name.as_str());
                put(out, "\" cannot be removed for \"");
                put(out, self.cubes[c].name.as_str());
                put(out, "\" as a conversion (Contains other keys)\n");
                return;
            }
            i = i + 1;
        }
        assert(!fb_mentions(v, p as int, v.cubes[c as int].name));
        let pn = self.cubes[p].name.clone();
        let removed = named_remove(&mut self.cubes[c].converts_to, &pn);
        proof {
            let ct = v.cubes[c as int].converts_to;
            lemma_find_key(ct, pn@);
            lemma_insert_remove(ct, pn@, 0);
            lemma_ids_below(ct, pn@, 0, v.cubes.len());
            lemma_set_ct_wf(v, c as int, key_remove(ct, pn@));
            assert(self@.cubes =~= v.set_ct(c as int, key_remove(ct, pn@)).cubes);
            if !has_key(ct, pn@) {
                assert(v.set_ct(c as int, key_remove(ct, pn@)).cubes =~= v.cubes);
            }
        }
        if removed.is_none() {
            put(out, "Cube \"");
            put(out, self.cubes[p].name.as_str());
            put(out, "\" has already been removed for \"");
            put(out, self.cubes[c].name.as_str());
            put(out, "\" as a conversion\n");
        } else {
            assert(out@ =~= old(out)@ + no_text());
        }
    }

    /// `remove_fb_key`: cube `p` loses key `k`.
    fn remove_fb_key(&mut self, p: usize, k: &FuseKey, out: &mut String)
        requires
            old(self)@.wf(),
            p < old(self)@.cubes.len(),
        ensures
            final(self)@.wf(),
            same_frame(old(self)@, final(self)@),
            final(self)@ == spec_remove_fb_key(old(self)@, p as int, k@).0,
            final(out)@ == old(out)@ + spec_remove_fb_key(old(self)@, p as int, k@).1,
    {
        reveal(spec_remove_fb_key);
        let ghost v = self@;
        let removed = keyed_remove(&mut self.cubes[p].fused_by, k);
        proof {
            let fb = v.cubes[p as int].fused_by;
            lemma_find_key(fb, k@);
            lemma_insert_remove(fb, k@, (0, 0));
            lemma_pairs_below(fb, k@, (0, 0), v.cubes.len());
            lemma_set_fb_wf(v, p as int, key_remove(fb, k@));
            assert(self@.cubes =~= v.set_fb(p as int, key_remove(fb, k@)).cubes);
            if !has_key(fb, k@) {
                assert(v.set_fb(p as int, key_remove(fb, k@)).cubes =~= v.cubes);
            }
        }
        if removed.is_some() {
            put(out, "Fuse key has been deleted for cube ");
        } else {
            put(out, "Fuse key has already been deleted for cube ");
        }
        put(out, self.cubes[p].name.as_str());
        put(out, "\n");
    }

    /// Unlinks key `k` of cubes `i1` and `i2` from cube `p`.
    fn unlink_key(&mut self, p: usize, k: &FuseKey, i1: usize, i2: usize, out: &mut String)
        requires
            old(self)@.wf(),
            p < old(self)@.cubes.len(),
            i1 < old(self)@.cubes.len(),
            i2 < old(self)@.cubes.len(),
        ensures
            final(self)@.wf(),
            final(self)@ == spec_unlink_key(old(self)@, p as int, k@, i1 as int, i2 as int).0,
            final(out)@ == old(out)@ + spec_unlink_key(old(self)@, p as int, k@, i1 as int, i2 as int).1,
    {
        let ghost v = self@;
        let ghost o = out@;
        self.remove_fb_key(p, k, out);
        self.remove_to_maybe(i1, p, out);
        if self.cubes[i1].name == self.cubes[i2].name {
            assert(out@ =~= o + spec_unlink_key(v, p as int, k@, i1 as int, i2 as int).1);
            return;
        }
        self.remove_to_maybe(i2, p, out);
        assert(out@ =~= o + spec_unlink_key(v, p as int, k@, i1 as int, i2 as int).1);
    }

    /// `unlink_at_p_fb_keys`: takes the key of `cs_n1` (and `cs_opt`) off
    /// the pointed cube.
    pub fn unlink_at_p_fb_keys(&mut self, cs_n1: String, cs_opt: Option<String>, out: &mut String) -> (r: CSResult<()>)
        requires
            old(self)@.wf(),
        ensures
            final(self)@.wf(),
            ({
                let (w, t, e) = spec_unlink_keys(old(self)@, cs_n1@, match cs_opt { Some(s) => Some(s@), None => None });
                final(self)@ == w && final(out)@ == old(out)@ + t && outcome(r) == e
            }),
    {
        let ghost v = self@;
        let ghost o = out@;
        let p = match self.pointer {
            Some(p) => p,
            None => {
                assert(out@ =~= o + no_text());
                return Err(CSError::NullPointer("CubeDLL::unlink_at_p_fb_keys"));
            },
        };
        let i1 = match self.lookup(&cs_n1) {
            Some(i) => i,
            None => {
                assert(out@ =~= o + no_text());
                return Err(CSError::NonExistentName("CubeDLL::unlink_at_p_fused_by", cs_n1));
            },
        };
        if self.cubes[i1].name == self.cubes[p].name {
            assert(out@ =~= o + no_text());
            return Err(CSError::SameStruct("CubeDLL::unlink_at_p_fused_by", self.cubes[p].name.clone()));
        }
        match cs_opt {
            Some(cs_n2) => {
                let i2 = match self.lookup(&cs_n2) {
                    Some(i) => i,
                    None => {
                        assert(out@ =~= o + no_text());
                        return Err(CSError::NonExistentName("CubeDLL::unlink_at_p_fused_by", cs_n2));
                    },
                };
                if self.cubes[i2].name == self.cubes[p].name {
                    assert(out@ =~= o + no_text());
                    return Err(CSError::SameStruct("CubeDLL::unlink_at_p_fused_by", self.cubes[p].name.clone()));
                }
                let k = FuseKey::new_pair(&self.cubes[i1].name, &self.cubes[i2].name);
                self.unlink_key(p, &k, i1, i2, out);
            },
            None => {
                let k = FuseKey::new_single(&self.cubes[i1].name);
                self.unlink_key(p, &k, i1, i1, out);
            },
        }
        Ok(())
    }

    /// `merge_keys_at_p`: the single keys of `cs_n1` and `cs_n2` in the
    /// pointed cube become one pair key.
    pub fn merge_keys_at_p(&mut self, cs_n1: String, cs_n2: String, out: &mut String) -> (r: CSResult<()>)
        requires
            old(self)@.wf(),
        ensures
            final(self)@.wf(),
            ({
                let (w, t, e) = spec_merge(old(self)@, cs_n1@, cs_n2@);
                final(self)@ == w && final(out)@ == old(out)@ + t && outcome(r) == e
            }),
    {
        let ghost v = self@;
        let ghost o = out@;
        let p = match self.pointer {
            Some(p) => p,
            None => {
                assert(out@ =~= o + no_text());
                return Err(CSError::NullPointer("CubeDLL::change_tier_at_p"));
            },
        };
        let i1 = match self.lookup(&cs_n1) {
            Some(i) => i,
            None => {
                assert(out@ =~= o + no_text());
                return Err(CSError::NonExistentName("CubeDLL::merge_keys_at_p", cs_n1));
            },
        };
        let i2 = match self.lookup(&cs_n2) {
            Some(i) => i,
            None => {
                assert(out@ =~= o + no_text());
                return Err(CSError::NonExistentName("CubeDLL::merge_keys_at_p", cs_n2));
            },
        };
        let k1 = FuseKey::new_single(&cs_n1);
        let k2 = FuseKey::new_single(&cs_n2);
        let s1 = self.has_fuse_key(p, &k1);
        let s2 = self.has_fuse_key(p, &k2);
        if !s1 && !s2 {
            assert(out@ =~= o + no_text());
            let mut both = cs_n1;
            both.append(" and ");
            both.append(cs_n2.as_str());
            return Err(CSError::NonExistentName("CubeDLL::merge_keys_at_p", both));
        } else if !s1 {
            assert(out@ =~= o + no_text());
            return Err(CSError::NonExistentName("CubeDLL::merge_keys_at_p", cs_n1));
        } else if !s2 {
            assert(out@ =~= o + no_text());
            return Err(CSError::NonExistentName("CubeDLL::merge_keys_at_p", cs_n2));
        }
        self.merge_single_keys(p, i1, i2, out);
        Ok(())
    }

    /// `merge_single_keys`: in cube `p`, the single keys of cubes `i1` and
    /// `i2` make way for their pair key.
    fn merge_single_keys(&mut self, p: usize, i1: usize, i2: usize, out: &mut String)
        requires
            old(self)@.wf(),
            p < old(self)@.cubes.len(),
            i1 < old(self)@.cubes.len(),
            i2 < old(self)@.cubes.len(),
        ensures
            final(self)@.wf(),
            final(self)@ == spec_merge_singles(old(self)@, p as int, i1, i2).0,
            final(out)@ == old(out)@ + spec_merge_singles(old(self)@, p as int, i1, i2).1,
    {
        let ghost v = self@;
        let ghost fb0 = v.cubes[p as int].fused_by;
        let ka = FuseKey::new_single(&self.cubes[i1].name);
        let kb = FuseKey::new_single(&self.cubes[i2].name);
        let k = FuseKey::new_pair(&self.cubes[i1].name, &self.cubes[i2].name);
        keyed_remove(&mut self.cubes[p].fused_by, &ka);
        keyed_remove(&mut self.cubes[p].fused_by, &kb);
        let ghost fb1 = key_remove(key_remove(fb0, ka@), kb@);
        let known = keyed_insert(&mut self.cubes[p].fused_by, k, (i1, i2));
        proof {
            lemma_insert_remove(fb0, ka@, (0, 0));
            lemma_pairs_below(fb0, ka@, (0, 0), v.cubes.len());
            lemma_insert_remove(key_remove(fb0, ka@), kb@, (0, 0));
            lemma_pairs_below(key_remove(fb0, ka@), kb@, (0, 0), v.cubes.len());
            lemma_insert_remove(fb1, k@, (i1, i2));
            lemma_pairs_below(fb1, k@, (i1, i2), v.cubes.len());
            lemma_set_fb_wf(v, p as int, key_insert(fb1, k@, (i1, i2)));
            assert(self@.cubes =~= v.set_fb(p as int, key_insert(fb1, k@, (i1, i2))).cubes);
        }
        if known.is_some() {
            put(out, "Cubes \"");
            put(out, self.cubes[i1].name.as_str());
            put(out, "\" and \"");
            put(out, self.cubes[i2].name.as_str());
            put(out, "\" have already been added as a key to \"");
            put(out, self.cubes[p].name.as_str());
            put(out, "\"\n");
        } else {
            assert(out@ =~= old(out)@ + no_text());
        }
    }
    /// Cube `c` drops every fuse key that names `name`, with a note for each.
    fn strip_keys(&mut self, c: usize, name: &String, out: &mut String)
        requires
            old(self)@.wf(),
            c < old(self)@.cubes.len(),
        ensures
            final(self)@.wf(),
            same_frame(old(self)@, final(self)@),
            final(self)@ == spec_strip(old(self)@, c as int, name@).0,
            final(out)@ == old(out)@ + spec_strip(old(self)@, c as int, name@).1,
    {
        let ghost v = self@;
        let ghost o = out@;
        let ghost fb = v.cubes[c as int].fused_by;
        let ghost tn = v.cubes[c as int].name;
        let mut old_fb: Vec<(FuseKey, (usize, usize))> = Vec::new();
        std::mem::swap(&mut self.cubes[c].fused_by, &mut old_fb);
        let mut kept: Vec<(FuseKey, (usize, usize))> = Vec::new();
        assert(keyed_view(kept@) =~= strip_fold(fb, name@, tn, 0).0);
        let mut i: usize = 0;
        while i < old_fb.len()
            invariant
                keyed_view(old_fb@) == fb,
                i <= fb.len(),
                c < self@.cubes.len(),
                self.cubes@[c as int].name@ == tn,
                keyed_view(kept@) == strip_fold(fb, name@, tn, i as nat).0,
                out@ == o + strip_fold(fb, name@, tn, i as nat).1,
            decreases old_fb.len() - i,
        {
            let ghost o0 = out@;
            if old_fb[i].0.contains_key(name) {
                match &old_fb[i].0 {
                    FuseKey::Pair(k0, k1) => {
                        put(out, "Removing fuse key pair {\"");
                        put(out, k0.as_str());
                        put(out, "\",\"");
                        put(out, k1.as_str());
                        put(out, "\"} for \"");
                    },
                    FuseKey::Single(k0) => {
                        put(out, "Removing fuse key {\"");
                        put(out, k0.as_str());
                        put(out, "\"} for \"");
                    },
                }
                put(out, self.cubes[c].name.as_str());
                put(out, "\"\n");
                assert(out@ =~= o0 + msg_removing_key(fb[i as int].0, tn));
            } else {
                let e = (old_fb[i].0.duplicate(), old_fb[i].1);
                kept.push(e);
                assert(keyed_view(kept@) =~= strip_fold(fb, name@, tn, (i + 1) as nat).0);
            }
            assert(out@ =~= o + strip_fold(fb, name@, tn, (i + 1) as nat).1);
            i = i + 1;
        }
        self.cubes[c].fused_by = kept;
        let ghost keptv = strip_fold(fb, name@, tn, fb.len()).0;
        let ghost w0 = v.set_fb(c as int, keptv);
        proof {
            lemma_strip_fold(fb, name@, tn, fb.len(), v.cubes.len());
            lemma_set_fb_wf(v, c as int, keptv);
            assert(self@.cubes =~= w0.cubes);
        }
        let tn_s = self.cubes[c].name.clone();
        let mut i: usize = 0;
        while i < old_fb.len()
            invariant
                keyed_view(old_fb@) == fb,
                pairs_below(fb, v.cubes.len()),
                i <= fb.len(),
                c < v.cubes.len(),
                tn_s@ == tn,
                self@.wf(),
                self@.cubes.len() == v.cubes.len(),
                self@.cubes[c as int].fused_by == keptv,
                same_frame(v, self@),
                self@ == release_fold(w0, fb, name@, tn, keptv, i as nat),
            decreases old_fb.len() - i,
        {
            if old_fb[i].0.contains_key(name) {
                let ids = old_fb[i].1;
                assert(ids == fb[i as int].1);
                self.release(c, ids.0, &tn_s);
                self.release(c, ids.1, &tn_s);
            }
            i = i + 1;
        }
    }

    /// Whether some key of `fb` names `n`.
    fn keys_name(fb: &Vec<(FuseKey, (usize, usize))>, n: &String) -> (r: bool)
        ensures
            r == keys_mention(keyed_view(fb@), n@),
    {
        let ghost s = keyed_view(fb@);
        let mut i: usize = 0;
        while i < fb.len()
            invariant
                s == keyed_view(fb@),
                i <= fb@.len(),
                forall|j: int| 0 <= j < i ==> !key_mentions(#[trigger] s[j].0, n@),
            decreases fb.len() - i,
        {
            if fb[i].0.contains_key(n) {
                assert(key_mentions(s[i as int].0, n@));
                return true;
            }
            i = i + 1;
        }
        false
    }

    /// Cube `x` stops converting to the cube named `tn` unless a key of cube
    /// `c` names it.
    fn release(&mut self, c: usize, x: usize, tn: &String)
        requires
            old(self)@.wf(),
            c < old(self)@.cubes.len(),
            x < old(self)@.cubes.len(),
        ensures
            final(self)@.wf(),
            final(self)@ == release_one(old(self)@, x as int, tn@, old(self)@.cubes[c as int].fused_by),
    {
        let ghost w = self@;
        if !Self::keys_name(&self.cubes[c].fused_by, &self.cubes[x].name) {
            named_remove(&mut self.cubes[x].converts_to, tn);
            proof {
                let ct = w.cubes[x as int].converts_to;
                assert(w.cubes[x as int].wf(w.cubes.len()));
                lemma_insert_remove(ct, tn@, 0);
                lemma_ids_below(ct, tn@, 0, w.cubes.len());
                lemma_set_ct_wf(w, x as int, key_remove(ct, tn@));
                assert(self@.cubes =~= w.set_ct(x as int, key_remove(ct, tn@)).cubes);
            }
        }
    }

    /// `destroy_at_p`: the pointed cube goes away with all its links.
    #[verifier::spinoff_prover]
    #[verifier::rlimit(50)]
    pub fn destroy_at_p(&mut self, out: &mut String) -> (r: CSResult<()>)
        requires
            old(self)@.wf(),
        ensures
            final(self)@.wf(),
            ({
                let (w, t, e) = spec_destroy(old(self)@);
                final(self)@ == w && final(out)@ == old(out)@ + t && outcome(r) == e
            }),
    {
        let ghost v = self@;
        let ghost o = out@;
        let p = match self.pointer {
            Some(p) => p,
            None => {
                assert(out@ =~= o + no_text());
                return Err(CSError::NullPointer("CubeDLL::destroy_at_p"));
            },
        };
        self.pointer = None;
        let name = self.cubes[p].name.clone();
        let ghost fb = v.cubes[p as int].fused_by;
        let mut fb_list: Vec<(FuseKey, (usize, usize))> = Vec::new();
        std::mem::swap(&mut self.cubes[p].fused_by, &mut fb_list);
        let ghost v0 = DllView { pointer: None, ..v.set_fb(p as int, Seq::empty()) };
        proof {
            assert(keyed_view(self.cubes@[p as int].fused_by@) =~= Seq::empty());
            assert(self@.cubes =~= v0.cubes);
            lemma_set_fb_wf(v, p as int, Seq::empty());
            assert(v.cubes[p as int].wf(v.cubes.len()));
        }
        proof {
            assert(keyed_view(fb_list@) == fb);
        }
        self.unconvert_keys(&fb_list, &name, out);
        let ghost v1 = self@;
        let ghost ct = v1.cubes[p as int].converts_to;
        let mut ct_list: Vec<(String, usize)> = Vec::new();
        std::mem::swap(&mut self.cubes[p].converts_to, &mut ct_list);
        let ghost v2 = v1.set_ct(p as int, Seq::empty());
        proof {
            assert(named_view(self.cubes@[p as int].converts_to@) =~= Seq::empty());
            assert(self@.cubes =~= v2.cubes);
            lemma_set_ct_wf(v1, p as int, Seq::empty());
            assert(v1.cubes[p as int].wf(v1.cubes.len()));
        }
        let ghost o1 = out@;
        let mut j: usize = 0;
        while j < ct_list.len()
            invariant
                named_view(ct_list@) == ct,
                ids_below(ct, v.cubes.len()),
                j <= ct.len(),
                self@.wf(),
                self@.cubes.len() == v.cubes.len(),
                self@.pointer is None,
                self@ == destroy_ct_fold(v2, name@, ct, j as nat).0,
                out@ == o1 + destroy_ct_fold(v2, name@, ct, j as nat).1,
            decreases ct_list.len() - j,
        {
            let c = ct_list[j].1;
            assert(ct[j as int].1 < v.cubes.len());
            self.strip_keys(c, &name, out);
            assert(out@ =~= o1 + destroy_ct_fold(v2, name@, ct, (j + 1) as nat).1);
            j = j + 1;
        }
        let ghost v2b = self@;
        let ghost o2 = out@;
        let unknown = string_of("?");
        match named_get(&self.hashmap, &unknown) {
            Some(q) => {
                if q != p {
                    proof {
                        lemma_find_key(self@.hashmap, unknown@);
                    }
                    assert(q < self@.cubes.len());
                    self.strip_keys(q, &name, out);
                }
            },
            None => {},
        }
        let ghost v3 = self@;
        named_remove(&mut self.hashmap, &name);
        proof {
            reveal_strlit("?");
            lemma_forget_name_wf(v3, name@);
            lemma_insert_remove(v3.hashmap, name@, 0);
            lemma_ids_below(v3.hashmap, name@, 0, v3.cubes.len());
            assert(out@ =~= o + spec_destroy(v).1);
        }
        Ok(())
    }
    /// The cubes of the keys `fb_list` stop converting to the cube named
    /// `name`, with a note for each key.
    fn unconvert_keys(&mut self, fb_list: &Vec<(FuseKey, (usize, usize))>, name: &String, out: &mut String)
        requires
            old(self)@.wf(),
            pairs_below(keyed_view(fb_list@), old(self)@.cubes.len()),
        ensures
            final(self)@.wf(),
            final(self)@.cubes.len() == old(self)@.cubes.len(),
            final(self)@.pointer == old(self)@.pointer,
            final(self)@.hashmap == old(self)@.hashmap,
            final(self)@ == destroy_fb_fold(old(self)@, name@, keyed_view(fb_list@), fb_list@.len()).0,
            final(out)@ == old(out)@ + destroy_fb_fold(old(self)@, name@, keyed_view(fb_list@), fb_list@.len()).1,
    {
        let ghost v0 = self@;
        let ghost fb = keyed_view(fb_list@);
        let ghost o = out@;
        let mut i: usize = 0;
        while i < fb_list.len()
            invariant
                keyed_view(fb_list@) == fb,
                pairs_below(fb, v0.cubes.len()),
                i <= fb.len(),
                self@.wf(),
                self@.cubes.len() == v0.cubes.len(),
                self@.pointer == v0.pointer,
                self@.hashmap == v0.hashmap,
                self@ == destroy_fb_fold(v0, name@, fb, i as nat).0,
                out@ == o + destroy_fb_fold(v0, name@, fb, i as nat).1,
            decreases fb_list.len() - i,
        {
            let ids = fb_list[i].1;
            assert(fb[i as int].1.0 < v0.cubes.len() && fb[i as int].1.1 < v0.cubes.len());
            self.unconvert(name, ids, out);
            assert(out@ =~= o + destroy_fb_fold(v0, name@, fb, (i + 1) as nat).1);
            i = i + 1;
        }
    }

    /// The cubes `ids` stop converting to the cube named `name`.
    fn unconvert(&mut self, name: &String, ids: (usize, usize), out: &mut String)
        requires
            old(self)@.wf(),
            ids.0 < old(self)@.cubes.len(),
            ids.1 < old(self)@.cubes.len(),
        ensures
            final(self)@.wf(),
            final(self)@.cubes.len() == old(self)@.cubes.len(),
            final(self)@.pointer == old(self)@.pointer,
            final(self)@.hashmap == old(self)@.hashmap,
            final(self)@ == spec_unconvert(old(self)@, name@, ids).0,
            final(out)@ == old(out)@ + spec_unconvert(old(self)@, name@, ids).1,
    {
        reveal(spec_unconvert);
        let ghost w = self@;
        let a = ids.0;
        let b = ids.1;
        named_remove(&mut self.cubes[a].converts_to, name);
        proof {
            let ct = w.cubes[a as int].converts_to;
            lemma_insert_remove(ct, name@, 0);
            lemma_ids_below(ct, name@, 0, w.cubes.len());
            lemma_set_ct_wf(w, a as int, key_remove(ct, name@));
            assert(self@.cubes =~= w.set_ct(a as int, key_remove(ct, name@)).cubes);
        }
        let ghost w1 = self@;
        named_remove(&mut self.cubes[b].converts_to, name);
        proof {
            let ct = w1.cubes[b as int].converts_to;
            lemma_insert_remove(ct, name@, 0);
            lemma_ids_below(ct, name@, 0, w1.cubes.len());
            lemma_set_ct_wf(w1, b as int, key_remove(ct, name@));
            assert(self@.cubes =~= w1.set_ct(b as int, key_remove(ct, name@)).cubes);
        }
        let ghost o0 = out@;
        put(out, "Removing \"");
        put(out, name.as_str());
        put(out, "\" from cubes \"");
        put(out, self.cubes[a].name.as_str());
        put(out, "\" and \"");
        put(out, self.cubes[b].name.as_str());
        put(out, "\"\n");
        assert(out@ =~= o0 + msg_removing_from(name@, self@.cubes[a as int].name, self@.cubes[b as int].name));
    }
    /// Moves the conversion of cube `c` named `old_name` to the name `to`;
    /// false when there is none.
    fn rebind_conversion(&mut self, c: usize, old_name: &String, to: &String) -> (ok: bool)
        requires
            old(self)@.wf(),
            c < old(self)@.cubes.len(),
        ensures
            final(self)@.wf(),
            same_frame(old(self)@, final(self)@),
            forall|x: int| 0 <= x < old(self)@.cubes.len() ==> (#[trigger] final(self)@.cubes[x]).fused_by == old(self)@.cubes[x].fused_by,
            match rebind(old(self)@, c as int, old_name@, to@) {
                Some(w) => ok && final(self)@ == w,
                None => !ok && final(self)@ == old(self)@,
            },
    {
        let ghost w = self@;
        let ghost ct = w.cubes[c as int].converts_to;
        proof {
            lemma_find_key(ct, old_name@);
            lemma_insert_remove(ct, old_name@, 0);
            lemma_ids_below(ct, old_name@, 0, w.cubes.len());
        }
        match named_remove(&mut self.cubes[c].converts_to, old_name) {
            None => {
                assert(key_remove(ct, old_name@) == ct);
                assert(self@.cubes =~= w.cubes);
                named_get(&self.cubes[c].converts_to, to).is_some()
            },
            Some(v0) => {
                named_insert(&mut self.cubes[c].converts_to, to.clone(), v0);
                proof {
                    let r = key_remove(ct, old_name@);
                    assert(v0 < w.cubes.len());
                    lemma_insert_remove(r, to@, v0);
                    lemma_ids_below(r, to@, v0, w.cubes.len());
                    lemma_set_ct_wf(w, c as int, key_insert(r, to@, v0));
                    assert(self@.cubes =~= w.set_ct(c as int, key_insert(r, to@, v0)).cubes);
                }
                true
            },
        }
    }

    /// One fuse key entry of the renamed cube: its cubes move their
    /// conversion to the new name.
    fn rename_fb_step(&mut self, old_name: &String, to: &String, ids: (usize, usize), out: &mut String) -> (r: CSResult<()>)
        requires
            old(self)@.wf(),
            ids.0 < old(self)@.cubes.len(),
            ids.1 < old(self)@.cubes.len(),
        ensures
            final(self)@.wf(),
            same_frame(old(self)@, final(self)@),
            forall|x: int| 0 <= x < old(self)@.cubes.len() ==> (#[trigger] final(self)@.cubes[x]).fused_by == old(self)@.cubes[x].fused_by,
            ({
                let (w, t, e) = spec_rename_fb_step(old(self)@, old_name@, to@, ids);
                final(self)@ == w && final(out)@ == old(out)@ + t && outcome(r) == step_outcome(e)
            }),
    {
        reveal(spec_rename_fb_step);
        let ghost o = out@;
        let a = ids.0;
        let b = ids.1;
        if !self.rebind_conversion(a, old_name, to) {
            assert(out@ =~= o + no_text());
            return Err(CSError::EmptyValue("CubeDLL::rename_at_p", self.cubes[a].name.clone()));
        }
        if self.cubes[a].name != self.cubes[b].name {
            if !self.rebind_conversion(b, old_name, to) {
                assert(out@ =~= o + no_text());
                return Err(CSError::EmptyValue("CubeDLL::rename_at_p", self.cubes[b].name.clone()));
            }
        }
        put(out, "Changing key name of \"");
        put(out, old_name.as_str());
        put(out, "\" to \"");
        put(out, to.as_str());
        put(out, "\" for \"");
        put(out, self.cubes[a].name.as_str());
        put(out, "\" and \"");
        put(out, self.cubes[b].name.as_str());
        put(out, "\"\n");
        assert(out@ =~= o + msg_changing_key(old_name@, to@, self@.cubes[a as int].name, self@.cubes[b as int].name));
        Ok(())
    }

    /// Writes the note on the keys of cube `cn` that change name.
    fn put_changing_keys(out: &mut String, old_name: &String, to: &String, cn: &String)
        ensures
            final(out)@ == old(out)@ + msg_changing_keys(old_name@, to@, cn@),
    {
        let ghost o0 = out@;
        put(out, "Changing key names of \"");
        put(out, old_name.as_str());
        put(out, "\" to \"");
        put(out, to.as_str());
        put(out, "\" for cube \"");
        put(out, cn.as_str());
        put(out, "\"\n");
        assert(out@ =~= o0 + msg_changing_keys(old_name@, to@, cn@));
    }

    /// One conversion of the renamed cube: cube `c` rewrites its keys that
    /// name `old_name`, with a note for each.
    #[verifier::loop_isolation(false)]
    #[verifier::spinoff_prover]
    #[verifier::rlimit(50)]
    fn rename_ct_step(&mut self, c: usize, old_name: &String, to: &String, out: &mut String) -> (r: CSResult<()>)
        requires
            old(self)@.wf(),
            c < old(self)@.cubes.len(),
        ensures
            final(self)@.wf(),
            same_frame(old(self)@, final(self)@),
            forall|x: int| 0 <= x < old(self)@.cubes.len() ==> (#[trigger] final(self)@.cubes[x]).converts_to == old(self)@.cubes[x].converts_to,
            ({
                let (w, t, e) = spec_rename_ct_step(old(self)@, old_name@, to@, c as int);
                final(self)@ == w && final(out)@ == old(out)@ + t && outcome(r) == step_outcome(e)
            }),
    {
        reveal(spec_rename_ct_step);
        let ghost w = self@;
        let ghost o = out@;
        let ghost fb = w.cubes[c as int].fused_by;
        let ghost cn = w.cubes[c as int].name;
        let ghost msg = msg_changing_keys(old_name@, to@, cn);
        let mut ks: Vec<FuseKey> = Vec::new();
        let n = self.cubes[c].fused_by.len();
        let mut i: usize = 0;
        assert(ks@.map_values(|k: FuseKey| k@) =~= mentioning(fb, old_name@, 0));
        assert(self.cubes@[c as int]@.fused_by == fb);
        while i < n
            invariant
                self@ == w,
                c < w.cubes.len(),
                self.cubes@.len() == w.cubes.len(),
                keyed_view(self.cubes@[c as int].fused_by@) == fb,
                self.cubes@[c as int].name@ == cn,
                n == fb.len(),
                i <= n,
                ks@.map_values(|k: FuseKey| k@) == mentioning(fb, old_name@, i as nat),
                out@ == o + repeat_text(msg, ks@.len()),
            decreases n - i,
        {
            if self.cubes[c].fused_by[i].0.contains_key(old_name) {
                let k = self.cubes[c].fused_by[i].0.duplicate();
                ks.push(k);
                let ghost o0 = out@;
                Self::put_changing_keys(out, old_name, to, &self.cubes[c].name);
                assert(out@ =~= o0 + msg);
                assert(ks@.map_values(|k: FuseKey| k@) =~= mentioning(fb, old_name@, (i + 1) as nat));
            } else {
                assert(ks@.map_values(|k: FuseKey| k@) =~= mentioning(fb, old_name@, (i + 1) as nat));
            }
            i = i + 1;
        }
        let ghost ksv = mentioning(fb, old_name@, fb.len());
        let ghost o1 = out@;
        assert(ksv.len() == ks@.len());
        assert(o1 == o + repeat_text(msg, ksv.len()));
        assert(w.set_fb(c as int, fb).cubes =~= w.cubes);
        let mut j: usize = 0;
        while j < ks.len()
            invariant
                ks@.map_values(|k: FuseKey| k@) == ksv,
                j <= ks@.len(),
                c < w.cubes.len(),
                self@.wf(),
                same_frame(w, self@),
                forall|x: int| 0 <= x < w.cubes.len() ==> (#[trigger] self@.cubes[x]).converts_to == w.cubes[x].converts_to,
                self@ == w.set_fb(c as int, rewrite_fold(fb, ksv, old_name@, to@, j as nat).0),
                rewrite_fold(fb, ksv, old_name@, to@, j as nat).1,
                out@ == o1,
            decreases ks.len() - j,
        {
            let ghost cur = self@;
            let ghost f = cur.cubes[c as int].fused_by;
            let k = ks[j].duplicate();
            assert(k@ == ksv[j as int]);
            proof {
                lemma_find_key(f, k@);
                lemma_insert_remove(f, k@, (0, 0));
                lemma_pairs_below(f, k@, (0, 0), w.cubes.len());
            }
            match keyed_remove(&mut self.cubes[c].fused_by, &ks[j]) {
                None => {
                    proof {
                        assert(key_remove(f, k@) == f);
                        assert(self@.cubes =~= cur.cubes);
                        assert(rewrite_fold(fb, ksv, old_name@, to@, (j + 1) as nat).0 == rewrite_fold(fb, ksv, old_name@, to@, j as nat).0);
                        assert(!rewrite_fold(fb, ksv, old_name@, to@, (j + 1) as nat).1);
                        lemma_rewrite_fold_stops(fb, ksv, old_name@, to@, (j + 1) as nat, ksv.len());
                        assert(out@ =~= o + spec_rename_ct_step(w, old_name@, to@, c as int).1);
                    }
                    return Err(CSError::EmptyValue("CubeDLL::rename_at_p", self.cubes[c].name.clone()));
                },
                Some(val) => {
                    let nk = k.into_rewrite_key(old_name, to);
                    let ghost r = key_remove(f, ksv[j as int]);
                    proof {
                        assert(f[find_key(f, k@)].1.0 < w.cubes.len());
                        lemma_insert_remove(r, nk@, val);
                        lemma_pairs_below(r, nk@, val, w.cubes.len());
                    }
                    keyed_insert(&mut self.cubes[c].fused_by, nk, val);
                    proof {
                        lemma_set_fb_wf(cur, c as int, key_insert(r, nk@, val));
                        assert(self@.cubes =~= cur.set_fb(c as int, key_insert(r, nk@, val)).cubes);
                        assert(self@.cubes =~= w.set_fb(c as int, rewrite_fold(fb, ksv, old_name@, to@, (j + 1) as nat).0).cubes);
                    }
                },
            }
            j = j + 1;
        }
        assert(out@ =~= o + spec_rename_ct_step(w, old_name@, to@, c as int).1);
        Ok(())
    }

    /// `rename_at_p`: the pointed cube takes the name `to_name`, and every
    /// link to it follows.
    #[verifier::loop_isolation(false)]
    #[verifier::spinoff_prover]
    #[verifier::rlimit(100)]
    pub fn rename_at_p(&mut self, to_name: String, out: &mut String) -> (r: CSResult<()>)
        requires
            old(self)@.wf(),
        ensures
            final(self)@.wf(),
            ({
                let (w, t, e) = spec_rename(old(self)@, to_name@);
                final(self)@ == w && final(out)@ == old(out)@ + t && outcome(r) == e
            }),
    {
        let ghost v = self@;
        let ghost o = out@;
        proof {
            lemma_find_key(v.hashmap, to_name@);
        }
        if named_get(&self.hashmap, &to_name).is_some() {
            assert(out@ =~= o + no_text());
            return Err(CSError::DuplicateName("CubeDLL::rename_at_p", to_name));
        }
        let p = match self.pointer {
            Some(p) => p,
            None => {
                assert(out@ =~= o + no_text());
                return Err(CSError::NullPointer("CubeDLL::rename_at_p"));
            },
        };
        let old_name = self.cubes[p].name.clone();
        let ghost v0 = v;
        let ghost fb = v0.cubes[p as int].fused_by;
        proof {
            assert(v0.cubes[p as int].wf(v0.cubes.len()));
        }
        let n = self.cubes[p].fused_by.len();
        let mut i: usize = 0;
        assert(self.cubes@[p as int]@.fused_by == fb);
        while i < n
            invariant
                p < v.cubes.len(),
                n == fb.len(),
                i <= n,
                pairs_below(fb, v.cubes.len()),
                self@.wf(),
                same_frame(v0, self@),
                self@.cubes[p as int].fused_by == fb,
                self.cubes@.len() == v.cubes.len(),
                keyed_view(self.cubes@[p as int].fused_by@) == fb,
                self@ == rename_fb_fold(v0, old_name@, to_name@, fb, i as nat).0,
                out@ == o + rename_fb_fold(v0, old_name@, to_name@, fb, i as nat).1,
                rename_fb_fold(v0, old_name@, to_name@, fb, i as nat).2 is None,
            decreases n - i,
        {
            let ids = self.cubes[p].fused_by[i].1;
            assert(ids == fb[i as int].1);
            let ghost o0 = out@;
            let step = self.rename_fb_step(&old_name, &to_name, ids, out);
            if step.is_err() {
                proof {
                    lemma_rename_fb_fold_stops(v0, old_name@, to_name@, fb, (i + 1) as nat, fb.len());
                    assert(out@ =~= o + spec_rename(v, to_name@).1);
                }
                return step;
            }
            assert(out@ =~= o + rename_fb_fold(v0, old_name@, to_name@, fb, (i + 1) as nat).1);
            assert(self@.cubes[p as int] == self.cubes@[p as int]@);
            i = i + 1;
        }
        let ghost v1 = self@;
        let ghost ct = v1.cubes[p as int].converts_to;
        let ghost o1 = out@;
        proof {
            assert(v1.cubes[p as int].wf(v1.cubes.len()));
        }
        assert(self.cubes@[p as int]@.converts_to == ct);
        let m = self.cubes[p].converts_to.len();
        let mut j: usize = 0;
        while j < m
            invariant
                p < v.cubes.len(),
                m == ct.len(),
                j <= m,
                ids_below(ct, v.cubes.len()),
                self@.wf(),
                same_frame(v1, self@),
                self@.cubes[p as int].converts_to == ct,
                self.cubes@.len() == v.cubes.len(),
                named_view(self.cubes@[p as int].converts_to@) == ct,
                self@ == rename_ct_fold(v1, old_name@, to_name@, ct, j as nat).0,
                out@ == o1 + rename_ct_fold(v1, old_name@, to_name@, ct, j as nat).1,
                rename_ct_fold(v1, old_name@, to_name@, ct, j as nat).2 is None,
            decreases m - j,
        {
            let c = self.cubes[p].converts_to[j].1;
            assert(c == ct[j as int].1);
            let step = self.rename_ct_step(c, &old_name, &to_name, out);
            if step.is_err() {
                proof {
                    lemma_rename_ct_fold_stops(v1, old_name@, to_name@, ct, (j + 1) as nat, ct.len());
                    assert(out@ =~= o + spec_rename(v, to_name@).1);
                }
                return step;
            }
            assert(out@ =~= o1 + rename_ct_fold(v1, old_name@, to_name@, ct, (j + 1) as nat).1);
            assert(self@.cubes[p as int] == self.cubes@[p as int]@);
            j = j + 1;
        }
        let ghost v2 = self@;
        let ghost o2 = out@;
        let unknown = string_of("?");
        match named_get(&self.hashmap, &unknown) {
            Some(q) => {
                if q != p {
                    proof {
                        lemma_find_key(self@.hashmap, unknown@);
                    }
                    let step = self.rename_ct_step(q, &old_name, &to_name, out);
                    if step.is_err() {
                        proof {
                            reveal_strlit("?");
                            assert(out@ =~= o + spec_rename(v, to_name@).1);
                        }
                        return step;
                    }
                }
            },
            None => {},
        }
        let ghost v3 = self@;
        proof {
            reveal_strlit("?");
            lemma_find_key(v3.hashmap, old_name@);
            lemma_insert_remove(v3.hashmap, old_name@, 0);
            lemma_ids_below(v3.hashmap, old_name@, 0, v3.cubes.len());
            assert(out@ =~= o + spec_rename(v, to_name@).1);
        }
        match named_remove(&mut self.hashmap, &old_name) {
            None => Err(CSError::EmptyValue("CubeDLL::rename_at_p", string_of("CubeDLL Hashmap"))),
            Some(id) => {
                proof {
                    let r = key_remove(v3.hashmap, old_name@);
                    assert(id < v3.cubes.len());
                    lemma_insert_remove(r, to_name@, id);
                    lemma_ids_below(r, to_name@, id, v3.cubes.len());
                }
                self.cubes[p].name = to_name.clone();
                proof {
                    lemma_rename_map_wf(v3, to_name@);
                    assert(self@.cubes =~= v3.set_name(p as int, to_name@).cubes);
                }
                named_insert(&mut self.hashmap, to_name, id);
                Ok(())
            },
        }
    }
}

} // verus!
