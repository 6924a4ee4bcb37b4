//! The tree of the cubes that go into a cube: every cube reached from it
//! through fuse keys, each with its keys, and the two listings of it (one
//! line a cube, or one path a line), grouped by depth.
use vstd::prelude::*;
use crate::assoc::{find_key, has_key, value_of, keys_distinct, lemma_find_key, lemma_find_key_at};
use crate::cube::{CubeDLL, DllView, put, no_text};
use crate::error::{CSError, CSResult, ErrView};
use crate::fuse_key::{FuseKey, KeyView, key_text, key_mentions};
use crate::text::{str_eq, usize_text, nat_decimal};
use crate::laws::law_tree_root;

verus! {

/// The cubes found so far, in the order they were found, each with the
/// keys that fuse into it; `parent` is the first cube added.
pub struct BuildTreeNode {
    pub parent: Option<String>,
    pub cubes: Vec<(String, Vec<FuseKey>)>,
}

/// The value of a tree.
pub struct TreeView {
    pub parent: Option<Seq<char>>,
    pub cubes: Seq<(Seq<char>, Seq<KeyView>)>,
}

/// The values of a vector of keys.
pub open spec fn keys_view(v: Seq<FuseKey>) -> Seq<KeyView> {
    v.map_values(|k: FuseKey| k@)
}

/// The values of the entries of a tree.
pub open spec fn tree_entries(v: Seq<(String, Vec<FuseKey>)>) -> Seq<(Seq<char>, Seq<KeyView>)> {
    v.map_values(|e: (String, Vec<FuseKey>)| (e.0@, keys_view(e.1@)))
}

impl View for BuildTreeNode {
    type V = TreeView;

    open spec fn view(&self) -> TreeView {
        TreeView {
            parent: match self.parent {
                Some(p) => Some(p@),
                None => None,
            },
            cubes: tree_entries(self.cubes@),
        }
    }
}

impl TreeView {
    /// No cube is in the tree twice.
    pub open spec fn wf(self) -> bool {
        keys_distinct(self.cubes)
    }
}

/// The tree with nothing in it.
pub open spec fn empty_tree() -> TreeView {
    TreeView { parent: None, cubes: Seq::empty() }
}

/// `add_cube`: the first cube added becomes the parent; a cube not yet in
/// the tree joins it with no keys (true), one already there is left (false).
pub open spec fn tree_add_cube(t: TreeView, x: Seq<char>) -> (TreeView, bool) {
    let t1 = if t.parent is None {
        TreeView { parent: Some(x), ..t }
    } else {
        t
    };
    if has_key(t1.cubes, x) {
        (t1, false)
    } else {
        (TreeView { cubes: t1.cubes.push((x, Seq::empty())), ..t1 }, true)
    }
}

/// `add_fuse_key`: key `k` is appended to the keys of cube `x`.
pub open spec fn tree_add_key(t: TreeView, x: Seq<char>, k: KeyView) -> TreeView {
    let i = find_key(t.cubes, x);
    TreeView { cubes: t.cubes.update(i, (x, t.cubes[i].1.push(k))), ..t }
}

/// Growing tree `t` from cube `x` of graph `v`: a cube not yet in the tree
/// joins it; each of its keys (in order) is added to it and the cubes of
/// the key are grown in turn. False when a cube reached is not in the
/// graph's map: the growth stops there. `fuel` bounds the depth of the
/// search (enough when it is at least the number of cubes of the map not
/// yet in the tree).
pub open spec fn grow(v: DllView, t: TreeView, x: Seq<char>, fuel: nat) -> (TreeView, bool)
    decreases fuel, 0nat,
{
    let (t1, fresh) = tree_add_cube(t, x);
    if !fresh {
        (t1, true)
    } else {
        match v.lookup(x) {
            None => (t1, false),
            Some(c) => if fuel == 0 {
                (t1, true)
            } else {
                grow_keys(v, t1, x, v.cubes[c as int].fused_by, 0, (fuel - 1) as nat)
            },
        }
    }
}

/// Growing from the keys `fb` of cube `x`, from the `j`-th on.
pub open spec fn grow_keys(
    v: DllView,
    t: TreeView,
    x: Seq<char>,
    fb: Seq<(KeyView, (usize, usize))>,
    j: nat,
    fuel: nat,
) -> (TreeView, bool)
    decreases fuel, (fb.len() - j) as nat,
{
    if j >= fb.len() {
        (t, true)
    } else {
        let k = fb[j as int].0;
        let t1 = tree_add_key(t, x, k);
        let (t2, ok) = match k {
            KeyView::Pair(a, b) => {
                let (ta, oka) = grow(v, t1, a, fuel);
                if oka {
                    grow(v, ta, b, fuel)
                } else {
                    (ta, false)
                }
            },
            KeyView::Single(a) => grow(v, t1, a, fuel),
        };
        if ok {
            grow_keys(v, t2, x, fb, j + 1, fuel)
        } else {
            (t2, false)
        }
    }
}

/// The tree of cube `x` of graph `v`, and whether every cube reached is in
/// the map.
pub open spec fn tree_of(v: DllView, x: Seq<char>) -> (TreeView, bool) {
    grow(v, empty_tree(), x, v.hashmap.len() as nat)
}

/// How many entries of the map `hm` name a cube not in the tree `t`.
pub open spec fn unvisited(hm: Seq<(Seq<char>, usize)>, t: Seq<(Seq<char>, Seq<KeyView>)>) -> nat
    decreases hm.len(),
{
    if hm.len() == 0 {
        0
    } else {
        unvisited(hm.drop_last(), t) + if has_key(t, hm.last().0) {
            0nat
        } else {
            1nat
        }
    }
}

proof fn lemma_unvisited_bound(hm: Seq<(Seq<char>, usize)>, t: Seq<(Seq<char>, Seq<KeyView>)>)
    ensures
        unvisited(hm, t) <= hm.len(),
    decreases hm.len(),
{
    if hm.len() > 0 {
        lemma_unvisited_bound(hm.drop_last(), t);
    }
}

proof fn lemma_unvisited_mono(
    hm: Seq<(Seq<char>, usize)>,
    t1: Seq<(Seq<char>, Seq<KeyView>)>,
    t2: Seq<(Seq<char>, Seq<KeyView>)>,
)
    requires
        forall|n: Seq<char>| #[trigger] has_key(t1, n) ==> has_key(t2, n),
    ensures
        unvisited(hm, t2) <= unvisited(hm, t1),
    decreases hm.len(),
{
    if hm.len() > 0 {
        lemma_unvisited_mono(hm.drop_last(), t1, t2);
        assert(has_key(t1, hm.last().0) ==> has_key(t2, hm.last().0));
    }
}

proof fn lemma_unvisited_drop(
    hm: Seq<(Seq<char>, usize)>,
    t1: Seq<(Seq<char>, Seq<KeyView>)>,
    t2: Seq<(Seq<char>, Seq<KeyView>)>,
    x: Seq<char>,
)
    requires
        forall|n: Seq<char>| #[trigger] has_key(t1, n) ==> has_key(t2, n),
        has_key(hm, x),
        !has_key(t1, x),
        has_key(t2, x),
    ensures
        unvisited(hm, t2) < unvisited(hm, t1),
    decreases hm.len(),
{
    let i = choose|i: int| 0 <= i < hm.len() && #[trigger] hm[i].0 == x;
    lemma_unvisited_mono(hm.drop_last(), t1, t2);
    if i < hm.len() - 1 {
        assert(hm.drop_last()[i].0 == x);
        lemma_unvisited_drop(hm.drop_last(), t1, t2, x);
        assert(has_key(t1, hm.last().0) ==> has_key(t2, hm.last().0));
    }
}

/// A key appended to a cube of the tree leaves its set of cubes as it was.
proof fn lemma_add_key_same_cubes(t: TreeView, x: Seq<char>, k: KeyView)
    requires
        t.wf(),
        has_key(t.cubes, x),
    ensures
        tree_add_key(t, x, k).wf(),
        forall|n: Seq<char>| #[trigger] has_key(t.cubes, n) ==> has_key(tree_add_key(t, x, k).cubes, n),
        forall|n: Seq<char>| #[trigger] has_key(tree_add_key(t, x, k).cubes, n) ==> has_key(t.cubes, n),
        tree_add_key(t, x, k).parent == t.parent,
{
    lemma_find_key(t.cubes, x);
    let i = find_key(t.cubes, x);
    let u = tree_add_key(t, x, k).cubes;
    assert forall|n: Seq<char>| #[trigger] has_key(t.cubes, n) implies has_key(u, n) by {
        let j = choose|j: int| 0 <= j < t.cubes.len() && #[trigger] t.cubes[j].0 == n;
        assert(u[j].0 == n);
    }
    assert forall|n: Seq<char>| #[trigger] has_key(u, n) implies has_key(t.cubes, n) by {
        let j = choose|j: int| 0 <= j < u.len() && #[trigger] u[j].0 == n;
        assert(t.cubes[j].0 == n);
    }
}

impl BuildTreeNode {
    /// The empty tree.
    pub fn new() -> (r: BuildTreeNode)
        ensures
            r@ == empty_tree(),
    {
        let r = BuildTreeNode { parent: None, cubes: Vec::new() };
        assert(r@.cubes =~= Seq::empty());
        r
    }

    /// Position of cube `name` in the tree, if it is there.
    fn find(&self, name: &String) -> (r: Option<usize>)
        ensures
            match r {
                Some(i) => i as int == find_key(self@.cubes, name@) && i < self.cubes@.len(),
                None => find_key(self@.cubes, name@) == -1,
            },
    {
        let ghost s = self@.cubes;
        proof {
            lemma_find_key(s, name@);
        }
        let mut i: usize = 0;
        while i < self.cubes.len()
            invariant
                s == self@.cubes,
                i <= self.cubes@.len(),
                forall|j: int| 0 <= j < i ==> s[j].0 != name@,
            decreases self.cubes.len() - i,
        {
            assert(s[i as int].0 == self.cubes@[i as int].0@);
            if str_eq(self.cubes[i].0.as_str(), name.as_str()) {
                proof {
                    lemma_find_key_at(s, name@, i as int);
                }
                return Some(i);
            }
            i = i + 1;
        }
        None
    }

    /// `add_cube`: adds cube `cube` if it is not in the tree yet (true);
    /// the first cube added becomes the parent.
    pub fn add_cube(&mut self, cube: &String) -> (r: bool)
        requires
            old(self)@.wf(),
        ensures
            final(self)@.wf(),
            (final(self)@, r) == tree_add_cube(old(self)@, cube@),
    {
        let ghost t = self@;
        if self.parent.is_none() {
            self.parent = Some(cube.clone());
        }
        proof {
            lemma_find_key(t.cubes, cube@);
        }
        match self.find(cube) {
            Some(_) => false,
            None => {
                let fresh_keys: Vec<FuseKey> = Vec::new();
                assert(keys_view(fresh_keys@) =~= Seq::<KeyView>::empty());
                self.cubes.push((cube.clone(), fresh_keys));
                proof {
                    let e: Seq<KeyView> = Seq::empty();
                    assert(self@.cubes =~= t.cubes.push((cube@, e)));
                    assert forall|i: int, j: int| 0 <= i < j < self@.cubes.len() implies #[trigger] self@.cubes[i].0
                        != #[trigger] self@.cubes[j].0 by {
                        if j == self@.cubes.len() - 1 {
                            assert(self@.cubes[i] == t.cubes[i]);
                        }
                    }
                }
                true
            },
        }
    }

    /// `add_fuse_key`: appends `fuse_key` to the keys of cube `cube`, which
    /// is in the tree.
    pub fn add_fuse_key(&mut self, cube: &String, fuse_key: &FuseKey)
        requires
            old(self)@.wf(),
            has_key(old(self)@.cubes, cube@),
        ensures
            final(self)@ == tree_add_key(old(self)@, cube@, fuse_key@),
            final(self)@.wf(),
    {
        let ghost t = self@;
        proof {
            lemma_find_key(t.cubes, cube@);
            lemma_add_key_same_cubes(t, cube@, fuse_key@);
        }
        match self.find(cube) {
            Some(i) => {
                let k = fuse_key.duplicate();
                self.cubes[i].1.push(k);
                proof {
                    let u = tree_add_key(t, cube@, fuse_key@);
                    assert(keys_view(self.cubes@[i as int].1@) =~= t.cubes[i as int].1.push(fuse_key@));
                    assert(self@.cubes =~= u.cubes);
                }
            },
            None => {},
        }
    }
}

impl CubeDLL {
    /// `build_tree_recurse`: grows tree `btn` from cube `visit_str`; false
    /// when a cube reached is not in the map (the growth stops there).
    #[verifier::loop_isolation(false)]
    fn build_tree_recurse(&self, visit_str: &String, btn: &mut BuildTreeNode, Ghost(fuel): Ghost<nat>) -> (ok: bool)
        requires
            self@.wf(),
            old(btn)@.wf(),
            fuel >= unvisited(self@.hashmap, old(btn)@.cubes),
        ensures
            final(btn)@.wf(),
            (final(btn)@, ok) == grow(self@, old(btn)@, visit_str@, fuel),
            forall|n: Seq<char>| #[trigger] has_key(old(btn)@.cubes, n) ==> has_key(final(btn)@.cubes, n),
            final(btn)@.parent is Some,
            old(btn)@.parent is Some ==> final(btn)@.parent == old(btn)@.parent,
        decreases fuel,
    {
        let ghost v = self@;
        let ghost t0 = btn@;
        let fresh = btn.add_cube(visit_str);
        let ghost t1 = btn@;
        proof {
            lemma_find_key(t0.cubes, visit_str@);
            assert forall|n: Seq<char>| #[trigger] has_key(t0.cubes, n) implies has_key(t1.cubes, n) by {
                if !has_key(t0.cubes, visit_str@) {
                    let j = choose|j: int| 0 <= j < t0.cubes.len() && #[trigger] t0.cubes[j].0 == n;
                    assert(t1.cubes[j].0 == n);
                }
            }
        }
        if !fresh {
            return true;
        }
        let c = match self.lookup(visit_str) {
            None => {
                return false;
            },
            Some(c) => c,
        };
        proof {
            assert(t1.cubes[t1.cubes.len() - 1].0 == visit_str@);
            lemma_unvisited_drop(v.hashmap, t0.cubes, t1.cubes, visit_str@);
        }
        let ghost f1: nat = (fuel - 1) as nat;
        let ghost fb = v.cubes[c as int].fused_by;
        assert(self.cubes@[c as int]@ == v.cubes[c as int]);
        let n = self.cubes[c].fused_by.len();
        let mut j: usize = 0;
        while j < n
            invariant
                self@ == v,
                v.wf(),
                c < v.cubes.len(),
                fb == v.cubes[c as int].fused_by,
                n == fb.len(),
                self.cubes@[c as int]@ == v.cubes[c as int],
                j <= n,
                btn@.wf(),
                has_key(btn@.cubes, visit_str@),
                unvisited(v.hashmap, btn@.cubes) <= f1,
                forall|m: Seq<char>| #[trigger] has_key(t0.cubes, m) ==> has_key(btn@.cubes, m),
                btn@.parent == t1.parent,
                t1.parent is Some,
                fuel >= 1,
                f1 == fuel - 1,
                grow(v, t0, visit_str@, fuel) == grow_keys(v, t1, visit_str@, fb, 0, f1),
                grow_keys(v, t1, visit_str@, fb, 0, f1) == grow_keys(v, btn@, visit_str@, fb, j as nat, f1),
            decreases n - j,
        {
            let ghost tj = btn@;
            let key = &self.cubes[c].fused_by[j].0;
            assert(key@ == fb[j as int].0);
            btn.add_fuse_key(visit_str, key);
            let ghost tk = btn@;
            proof {
                lemma_add_key_same_cubes(tj, visit_str@, key@);
                lemma_unvisited_mono(v.hashmap, tj.cubes, tk.cubes);
            }
            let ghost mut tm = tk;
            let ok = match key {
                FuseKey::Pair(a, b) => {
                    let oka = self.build_tree_recurse(a, btn, Ghost(f1));
                    proof {
                        tm = btn@;
                    }
                    if oka {
                        proof {
                            lemma_unvisited_mono(v.hashmap, tk.cubes, btn@.cubes);
                        }
                        self.build_tree_recurse(b, btn, Ghost(f1))
                    } else {
                        false
                    }
                },
                FuseKey::Single(a) => self.build_tree_recurse(a, btn, Ghost(f1)),
            };
            proof {
                lemma_unvisited_mono(v.hashmap, tk.cubes, btn@.cubes);
                assert forall|m: Seq<char>| #[trigger] has_key(t0.cubes, m) implies has_key(btn@.cubes, m) by {
                    assert(has_key(tj.cubes, m));
                    assert(has_key(tk.cubes, m));
                    assert(has_key(tm.cubes, m));
                }
                assert(tk == tree_add_key(tj, visit_str@, fb[j as int].0));
                if !ok {
                    assert(grow_keys(v, tj, visit_str@, fb, j as nat, f1) == (btn@, false));
                } else {
                    assert(grow_keys(v, tj, visit_str@, fb, j as nat, f1) == grow_keys(v, btn@, visit_str@, fb, (j + 1) as nat, f1));
                }
            }
            if !ok {
                return false;
            }
            j = j + 1;
        }
        true
    }
}

// ---------------------------------------------------------------------
// Listing the tree.

/// Strings as character sequences.
pub open spec fn strings_view(v: Seq<String>) -> Seq<Seq<char>> {
    v.map_values(|s: String| s@)
}

/// The depth and text of each entry of a listing.
pub open spec fn depth_entries(v: Seq<(usize, String)>) -> Seq<(nat, Seq<char>)> {
    v.map_values(|e: (usize, String)| (e.0 as nat, e.1@))
}

/// The keys shown one after another, separated by `, `.
pub open spec fn keys_listing(ks: Seq<KeyView>) -> Seq<char>
    decreases ks.len(),
{
    if ks.len() == 0 {
        Seq::empty()
    } else if ks.len() == 1 {
        key_text(ks[0])
    } else {
        keys_listing(ks.drop_last()) + ", "@ + key_text(ks.last())
    }
}

/// The line of a cube in the simple listing: its name, then ` => ` and its
/// keys when it has any.
pub open spec fn simple_line(x: Seq<char>, ks: Seq<KeyView>) -> Seq<char> {
    if ks.len() == 0 {
        x
    } else {
        x + " => "@ + keys_listing(ks)
    }
}

/// The simple listing from cube `x` at depth `d`, with the cubes `vis`
/// already visited: a cube met for the first time that is in the tree gives
/// its line, then the listings of the cubes of its keys (in order) one
/// level deeper. Gives the entries and the cubes visited after it.
pub open spec fn walk_simple(t: TreeView, vis: Seq<Seq<char>>, x: Seq<char>, d: nat, fuel: nat) -> (
    Seq<(nat, Seq<char>)>,
    Seq<Seq<char>>,
)
    decreases fuel, 0nat,
{
    if vis.contains(x) {
        (Seq::empty(), vis)
    } else {
        let vis1 = vis.push(x);
        if !has_key(t.cubes, x) || fuel == 0 {
            (Seq::empty(), vis1)
        } else {
            let ks = value_of(t.cubes, x);
            let (rest, vis2) = walk_simple_keys(t, vis1, ks, 0, d + 1, (fuel - 1) as nat);
            (seq![(d, simple_line(x, ks))] + rest, vis2)
        }
    }
}

/// The simple listings of the cubes of keys `ks`, from the `j`-th key on.
pub open spec fn walk_simple_keys(t: TreeView, vis: Seq<Seq<char>>, ks: Seq<KeyView>, j: nat, d: nat, fuel: nat) -> (
    Seq<(nat, Seq<char>)>,
    Seq<Seq<char>>,
)
    decreases fuel, (ks.len() - j) as nat,
{
    if j >= ks.len() {
        (Seq::empty(), vis)
    } else {
        let (e1, v1) = match ks[j as int] {
            KeyView::Pair(a, b) => {
                let (ea, va) = walk_simple(t, vis, a, d, fuel);
                let (eb, vb) = walk_simple(t, va, b, d, fuel);
                (ea + eb, vb)
            },
            KeyView::Single(a) => walk_simple(t, vis, a, d, fuel),
        };
        let (e2, v2) = walk_simple_keys(t, v1, ks, j + 1, d, fuel);
        (e1 + e2, v2)
    }
}

/// The path listing from cube `x` at depth `d`, reached by path `path`:
/// every visit gives the path; a cube met for the first time that is in the
/// tree then gives the listings of the cubes of its keys, one level deeper,
/// each with its name added to the path.
pub open spec fn walk_paths(t: TreeView, vis: Seq<Seq<char>>, x: Seq<char>, d: nat, path: Seq<char>, fuel: nat) -> (
    Seq<(nat, Seq<char>)>,
    Seq<Seq<char>>,
)
    decreases fuel, 0nat,
{
    let e = seq![(d, path)];
    if vis.contains(x) {
        (e, vis)
    } else {
        let vis1 = vis.push(x);
        if !has_key(t.cubes, x) || fuel == 0 {
            (e, vis1)
        } else {
            let (rest, vis2) = walk_paths_keys(t, vis1, value_of(t.cubes, x), 0, d + 1, path, (fuel - 1) as nat);
            (e + rest, vis2)
        }
    }
}

/// The path listings of the cubes of keys `ks`, from the `j`-th key on.
pub open spec fn walk_paths_keys(
    t: TreeView,
    vis: Seq<Seq<char>>,
    ks: Seq<KeyView>,
    j: nat,
    d: nat,
    path: Seq<char>,
    fuel: nat,
) -> (Seq<(nat, Seq<char>)>, Seq<Seq<char>>)
    decreases fuel, (ks.len() - j) as nat,
{
    if j >= ks.len() {
        (Seq::empty(), vis)
    } else {
        let (e1, v1) = match ks[j as int] {
            KeyView::Pair(a, b) => {
                let (ea, va) = walk_paths(t, vis, a, d, path + "/"@ + a, fuel);
                let (eb, vb) = walk_paths(t, va, b, d, path + "/"@ + b, fuel);
                (ea + eb, vb)
            },
            KeyView::Single(a) => walk_paths(t, vis, a, d, path + "/"@ + a, fuel),
        };
        let (e2, v2) = walk_paths_keys(t, v1, ks, j + 1, d, path, fuel);
        (e1 + e2, v2)
    }
}

/// How an entry of a listing is written.
pub open spec fn entry_text(e: (nat, Seq<char>), simple: bool) -> Seq<char> {
    if simple {
        "["@ + nat_decimal(e.0) + "] => "@ + e.1 + "\n"@
    } else {
        e.1 + "\n"@
    }
}

/// The entries of depth `d` among the first `i`, in order.
pub open spec fn lines_at(es: Seq<(nat, Seq<char>)>, d: nat, i: nat, simple: bool) -> Seq<char>
    decreases i,
{
    if i == 0 || i > es.len() {
        Seq::empty()
    } else {
        lines_at(es, d, (i - 1) as nat, simple) + if es[i - 1].0 == d {
            entry_text(es[i - 1], simple)
        } else {
            no_text()
        }
    }
}

/// The greatest depth of the entries (0 when there are none).
pub open spec fn max_depth(es: Seq<(nat, Seq<char>)>) -> nat
    decreases es.len(),
{
    if es.len() == 0 {
        0
    } else {
        let m = max_depth(es.drop_last());
        if es.last().0 > m {
            es.last().0
        } else {
            m
        }
    }
}

/// The entries of depths below `n`, depth by depth.
pub open spec fn depths_text(es: Seq<(nat, Seq<char>)>, n: nat, simple: bool) -> Seq<char>
    decreases n,
{
    if n == 0 {
        Seq::empty()
    } else {
        depths_text(es, (n - 1) as nat, simple) + lines_at(es, (n - 1) as nat, es.len(), simple)
    }
}

/// The entries sorted by depth, those of one depth in the order they were
/// listed (a stable sort by depth), one line each.
pub open spec fn by_depth_text(es: Seq<(nat, Seq<char>)>, simple: bool) -> Seq<char> {
    if es.len() == 0 {
        Seq::empty()
    } else {
        depths_text(es, max_depth(es) + 1, simple)
    }
}

/// What `print_simple` writes for tree `t`.
pub open spec fn simple_listing(t: TreeView) -> Seq<char> {
    by_depth_text(walk_simple(t, Seq::empty(), t.parent->0, 0, t.cubes.len()).0, true)
}

/// What `print_tree` writes for tree `t`.
pub open spec fn path_listing(t: TreeView) -> Seq<char> {
    by_depth_text(walk_paths(t, Seq::empty(), t.parent->0, 0, t.parent->0, t.cubes.len()).0, false)
}

/// How many cubes of the tree are not among the visited `vis`.
pub open spec fn unseen(s: Seq<(Seq<char>, Seq<KeyView>)>, vis: Seq<Seq<char>>) -> nat
    decreases s.len(),
{
    if s.len() == 0 {
        0
    } else {
        unseen(s.drop_last(), vis) + if vis.contains(s.last().0) {
            0nat
        } else {
            1nat
        }
    }
}

proof fn lemma_unseen_bound(s: Seq<(Seq<char>, Seq<KeyView>)>, vis: Seq<Seq<char>>)
    ensures
        unseen(s, vis) <= s.len(),
    decreases s.len(),
{
    if s.len() > 0 {
        lemma_unseen_bound(s.drop_last(), vis);
    }
}

proof fn lemma_unseen_mono(s: Seq<(Seq<char>, Seq<KeyView>)>, v1: Seq<Seq<char>>, v2: Seq<Seq<char>>)
    requires
        v1.is_prefix_of(v2),
    ensures
        unseen(s, v2) <= unseen(s, v1),
    decreases s.len(),
{
    if s.len() > 0 {
        lemma_unseen_mono(s.drop_last(), v1, v2);
        if v1.contains(s.last().0) {
            let i = choose|i: int| 0 <= i < v1.len() && v1[i] == s.last().0;
            assert(v2[i] == s.last().0);
        }
    }
}

proof fn lemma_unseen_drop(s: Seq<(Seq<char>, Seq<KeyView>)>, v1: Seq<Seq<char>>, v2: Seq<Seq<char>>, x: Seq<char>)
    requires
        v1.is_prefix_of(v2),
        has_key(s, x),
        !v1.contains(x),
        v2.contains(x),
    ensures
        unseen(s, v2) < unseen(s, v1),
    decreases s.len(),
{
    let i = choose|i: int| 0 <= i < s.len() && #[trigger] s[i].0 == x;
    lemma_unseen_mono(s.drop_last(), v1, v2);
    if i < s.len() - 1 {
        assert(s.drop_last()[i].0 == x);
        lemma_unseen_drop(s.drop_last(), v1, v2, x);
        if v1.contains(s.last().0) {
            let k = choose|k: int| 0 <= k < v1.len() && v1[k] == s.last().0;
            assert(v2[k] == s.last().0);
        }
    }
}

/// Whether `x` was visited.
fn seen(vis: &Vec<String>, x: &String) -> (r: bool)
    ensures
        r == strings_view(vis@).contains(x@),
{
    let ghost sv = strings_view(vis@);
    let mut i: usize = 0;
    while i < vis.len()
        invariant
            sv == strings_view(vis@),
            i <= vis@.len(),
            forall|j: int| 0 <= j < i ==> sv[j] != x@,
        decreases vis.len() - i,
    {
        assert(sv[i as int] == vis@[i as int]@);
        if str_eq(vis[i].as_str(), x.as_str()) {
            return true;
        }
        i = i + 1;
    }
    false
}

/// Marks `x` visited.
fn visit(vis: &mut Vec<String>, x: &String)
    ensures
        strings_view(final(vis)@) == strings_view(old(vis)@).push(x@),
{
    vis.push(x.clone());
    assert(strings_view(vis@) =~= strings_view(old(vis)@).push(x@));
}

/// Pushes an entry to a listing.
fn push_entry(build_vec: &mut Vec<(usize, String)>, d: usize, s: String)
    ensures
        depth_entries(final(build_vec)@) == depth_entries(old(build_vec)@).push((d as nat, s@)),
{
    build_vec.push((d, s));
    assert(depth_entries(build_vec@) =~= depth_entries(old(build_vec)@).push((d as nat, s@)));
}

impl BuildTreeNode {
    /// The line of the `i`-th cube in the simple listing.
    fn simple_line_of(&self, i: usize) -> (r: String)
        requires
            i < self@.cubes.len(),
        ensures
            r@ == simple_line(self@.cubes[i as int].0, self@.cubes[i as int].1),
    {
        let ghost x = self@.cubes[i as int].0;
        let ghost ks = self@.cubes[i as int].1;
        assert(self.cubes@[i as int].0@ == x && keys_view(self.cubes@[i as int].1@) == ks);
        let mut r = self.cubes[i].0.clone();
        let n = self.cubes[i].1.len();
        if n == 0 {
            return r;
        }
        put(&mut r, " => ");
        let mut j: usize = 0;
        while j < n
            invariant
                n == ks.len(),
                keys_view(self.cubes@[i as int].1@) == ks,
                i < self.cubes@.len(),
                j <= n,
                r@ == x + " => "@ + keys_listing(ks.subrange(0, j as int)),
            decreases n - j,
        {
            let kt = self.cubes[i].1[j].to_text();
            assert(self.cubes@[i as int].1@[j as int]@ == ks[j as int]);
            if j > 0 {
                put(&mut r, ", ");
            }
            put(&mut r, kt.as_str());
            proof {
                let s1 = ks.subrange(0, j + 1);
                assert(s1.drop_last() =~= ks.subrange(0, j as int));
                assert(s1.last() == ks[j as int]);
                if j == 0 {
                    assert(keys_listing(ks.subrange(0, 0)) =~= Seq::<char>::empty());
                }
            }
            assert(r@ =~= x + " => "@ + keys_listing(ks.subrange(0, j + 1)));
            j = j + 1;
        }
        assert(ks.subrange(0, n as int) =~= ks);
        r
    }

    /// `print_simple_recurse`: the simple listing from cube `visit_str` at
    /// depth `sort_tier`, appended to `build_vec`.
    #[verifier::loop_isolation(false)]
    fn print_simple_recurse(
        &self,
        build_vec: &mut Vec<(usize, String)>,
        sort_tier: usize,
        visit_str: &String,
        visit_hs: &mut Vec<String>,
        Ghost(fuel): Ghost<nat>,
    )
        requires
            self@.wf(),
            fuel >= unseen(self@.cubes, strings_view(old(visit_hs)@)),
            sort_tier + fuel <= self@.cubes.len(),
        ensures
            ({
                let (es, vis) = walk_simple(self@, strings_view(old(visit_hs)@), visit_str@, sort_tier as nat, fuel);
                &&& depth_entries(final(build_vec)@) == depth_entries(old(build_vec)@) + es
                &&& strings_view(final(visit_hs)@) == vis
            }),
            strings_view(old(visit_hs)@).is_prefix_of(strings_view(final(visit_hs)@)),
        decreases fuel,
    {
        let ghost t = self@;
        let ghost vis0 = strings_view(visit_hs@);
        let ghost b0 = depth_entries(build_vec@);
        if seen(visit_hs, visit_str) {
            assert(depth_entries(build_vec@) =~= b0 + Seq::<(nat, Seq<char>)>::empty());
            return;
        }
        visit(visit_hs, visit_str);
        let ghost vis1 = strings_view(visit_hs@);
        assert(vis0.is_prefix_of(vis1));
        proof {
            lemma_find_key(t.cubes, visit_str@);
        }
        let i = match self.find(visit_str) {
            None => {
                assert(depth_entries(build_vec@) =~= b0 + Seq::<(nat, Seq<char>)>::empty());
                return;
            },
            Some(i) => i,
        };
        proof {
            assert(vis1[vis1.len() - 1] == visit_str@);
            lemma_unseen_drop(t.cubes, vis0, vis1, visit_str@);
        }
        let ghost f1: nat = (fuel - 1) as nat;
        let ghost ks = t.cubes[i as int].1;
        assert(ks == value_of(t.cubes, visit_str@));
        let line = self.simple_line_of(i);
        push_entry(build_vec, sort_tier, line);
        let ghost b1 = depth_entries(build_vec@);
        let total = self.cubes.len();
        assert(total == t.cubes.len());
        let d1 = sort_tier + 1;
        assert(keys_view(self.cubes@[i as int].1@) == ks);
        let n = self.cubes[i].1.len();
        let mut j: usize = 0;
        while j < n
            invariant
                self@ == t,
                t.wf(),
                i < t.cubes.len(),
                keys_view(self.cubes@[i as int].1@) == ks,
                n == ks.len(),
                j <= n,
                d1 == sort_tier + 1,
                d1 + f1 <= t.cubes.len(),
                fuel >= 1,
                f1 == fuel - 1,
                vis0.is_prefix_of(strings_view(visit_hs@)),
                unseen(t.cubes, strings_view(visit_hs@)) <= f1,
                ({
                    let (eall, vall) = walk_simple_keys(t, vis1, ks, 0, d1 as nat, f1);
                    let (erest, vrest) = walk_simple_keys(t, strings_view(visit_hs@), ks, j as nat, d1 as nat, f1);
                    &&& b1 + eall == depth_entries(build_vec@) + erest
                    &&& vall == vrest
                }),
            decreases n - j,
        {
            let ghost vj = strings_view(visit_hs@);
            let ghost bj = depth_entries(build_vec@);
            assert(self.cubes@[i as int].1@[j as int]@ == ks[j as int]);
            match &self.cubes[i].1[j] {
                FuseKey::Pair(a, b) => {
                    self.print_simple_recurse(build_vec, d1, a, visit_hs, Ghost(f1));
                    proof {
                        lemma_unseen_mono(t.cubes, vj, strings_view(visit_hs@));
                    }
                    self.print_simple_recurse(build_vec, d1, b, visit_hs, Ghost(f1));
                },
                FuseKey::Single(a) => {
                    self.print_simple_recurse(build_vec, d1, a, visit_hs, Ghost(f1));
                },
            }
            proof {
                lemma_unseen_mono(t.cubes, vj, strings_view(visit_hs@));
                assert(vis0.is_prefix_of(strings_view(visit_hs@)));
            }
            assert(depth_entries(build_vec@) + walk_simple_keys(t, strings_view(visit_hs@), ks, (j + 1) as nat, d1 as nat, f1).0
                =~= bj + walk_simple_keys(t, vj, ks, j as nat, d1 as nat, f1).0);
            j = j + 1;
        }
        assert(depth_entries(build_vec@) =~= b0 + walk_simple(t, vis0, visit_str@, sort_tier as nat, fuel).0);
    }
}


proof fn lemma_prefix_trans(a: Seq<Seq<char>>, b: Seq<Seq<char>>, c: Seq<Seq<char>>)
    requires
        a.is_prefix_of(b),
        b.is_prefix_of(c),
    ensures
        a.is_prefix_of(c),
{
    assert(a =~= c.subrange(0, a.len() as int)) by {
        assert forall|i: int| 0 <= i < a.len() implies a[i] == c[i] by {
            assert(a[i] == b[i]);
            assert(b[i] == c[i]);
        }
    }
}

impl BuildTreeNode {
    /// `print_tree_recurse`: the path listing from cube `visit_str` at depth
    /// `sort_tier`, reached by path `concat_str`, appended to `build_vec`.
    #[verifier::loop_isolation(false)]
    fn print_tree_recurse(
        &self,
        build_vec: &mut Vec<(usize, String)>,
        sort_tier: usize,
        visit_str: &String,
        visit_hs: &mut Vec<String>,
        concat_str: String,
        Ghost(fuel): Ghost<nat>,
    )
        requires
            self@.wf(),
            fuel >= unseen(self@.cubes, strings_view(old(visit_hs)@)),
            sort_tier + fuel <= self@.cubes.len(),
        ensures
            ({
                let (es, vis) = walk_paths(
                    self@,
                    strings_view(old(visit_hs)@),
                    visit_str@,
                    sort_tier as nat,
                    concat_str@,
                    fuel,
                );
                &&& depth_entries(final(build_vec)@) == depth_entries(old(build_vec)@) + es
                &&& strings_view(final(visit_hs)@) == vis
            }),
            strings_view(old(visit_hs)@).is_prefix_of(strings_view(final(visit_hs)@)),
        decreases fuel,
    {
        let ghost t = self@;
        let ghost vis0 = strings_view(visit_hs@);
        let ghost b0 = depth_entries(build_vec@);
        let ghost path = concat_str@;
        push_entry(build_vec, sort_tier, concat_str.clone());
        let ghost b1 = depth_entries(build_vec@);
        if seen(visit_hs, visit_str) {
            assert(vis0.is_prefix_of(vis0));
            return;
        }
        visit(visit_hs, visit_str);
        let ghost vis1 = strings_view(visit_hs@);
        assert(vis0.is_prefix_of(vis1));
        proof {
            lemma_find_key(t.cubes, visit_str@);
        }
        let i = match self.find(visit_str) {
            None => {
                return;
            },
            Some(i) => i,
        };
        proof {
            assert(vis1[vis1.len() - 1] == visit_str@);
            lemma_unseen_drop(t.cubes, vis0, vis1, visit_str@);
        }
        let ghost f1: nat = (fuel - 1) as nat;
        let ghost ks = t.cubes[i as int].1;
        assert(ks == value_of(t.cubes, visit_str@));
        let total = self.cubes.len();
        assert(total == t.cubes.len());
        let d1 = sort_tier + 1;
        assert(keys_view(self.cubes@[i as int].1@) == ks);
        let n = self.cubes[i].1.len();
        let mut j: usize = 0;
        while j < n
            invariant
                self@ == t,
                t.wf(),
                i < t.cubes.len(),
                keys_view(self.cubes@[i as int].1@) == ks,
                n == ks.len(),
                j <= n,
                d1 == sort_tier + 1,
                d1 + f1 <= t.cubes.len(),
                fuel >= 1,
                f1 == fuel - 1,
                concat_str@ == path,
                vis0.is_prefix_of(strings_view(visit_hs@)),
                unseen(t.cubes, strings_view(visit_hs@)) <= f1,
                ({
                    let (eall, vall) = walk_paths_keys(t, vis1, ks, 0, d1 as nat, path, f1);
                    let (erest, vrest) = walk_paths_keys(t, strings_view(visit_hs@), ks, j as nat, d1 as nat, path, f1);
                    &&& b1 + eall == depth_entries(build_vec@) + erest
                    &&& vall == vrest
                }),
            decreases n - j,
        {
            let ghost vj = strings_view(visit_hs@);
            let ghost bj = depth_entries(build_vec@);
            assert(self.cubes@[i as int].1@[j as int]@ == ks[j as int]);
            match &self.cubes[i].1[j] {
                FuseKey::Pair(a, b) => {
                    let mut pa = concat_str.clone();
                    put(&mut pa, "/");
                    put(&mut pa, a.as_str());
                    self.print_tree_recurse(build_vec, d1, a, visit_hs, pa, Ghost(f1));
                    let ghost vm = strings_view(visit_hs@);
                    proof {
                        lemma_unseen_mono(t.cubes, vj, vm);
                    }
                    let mut pb = concat_str.clone();
                    put(&mut pb, "/");
                    put(&mut pb, b.as_str());
                    self.print_tree_recurse(build_vec, d1, b, visit_hs, pb, Ghost(f1));
                    proof {
                        lemma_prefix_trans(vj, vm, strings_view(visit_hs@));
                    }
                },
                FuseKey::Single(a) => {
                    let mut pa = concat_str.clone();
                    put(&mut pa, "/");
                    put(&mut pa, a.as_str());
                    self.print_tree_recurse(build_vec, d1, a, visit_hs, pa, Ghost(f1));
                },
            }
            proof {
                lemma_unseen_mono(t.cubes, vj, strings_view(visit_hs@));
                lemma_prefix_trans(vis0, vj, strings_view(visit_hs@));
            }
            assert(depth_entries(build_vec@) + walk_paths_keys(t, strings_view(visit_hs@), ks, (j + 1) as nat, d1 as nat, path, f1).0
                =~= bj + walk_paths_keys(t, vj, ks, j as nat, d1 as nat, path, f1).0);
            j = j + 1;
        }
        assert(depth_entries(build_vec@) =~= b0 + walk_paths(t, vis0, visit_str@, sort_tier as nat, path, fuel).0);
    }
}

/// The greatest depth of the entries.
fn max_of_depths(es: &Vec<(usize, String)>) -> (m: usize)
    ensures
        m as nat == max_depth(depth_entries(es@)),
{
    let ghost ev = depth_entries(es@);
    let mut m: usize = 0;
    let mut i: usize = 0;
    while i < es.len()
        invariant
            ev == depth_entries(es@),
            i <= es@.len(),
            m as nat == max_depth(ev.subrange(0, i as int)),
        decreases es.len() - i,
    {
        proof {
            let s1 = ev.subrange(0, i + 1);
            assert(s1.drop_last() =~= ev.subrange(0, i as int));
            assert(s1.last() == ev[i as int]);
        }
        if es[i].0 > m {
            m = es[i].0;
        }
        i = i + 1;
    }
    assert(ev.subrange(0, es.len() as int) =~= ev);
    m
}

/// Appends the entries of depth `d`, in order.
fn write_depth(es: &Vec<(usize, String)>, d: usize, simple: bool, out: &mut String)
    ensures
        final(out)@ == old(out)@ + lines_at(depth_entries(es@), d as nat, es@.len(), simple),
{
    let ghost ev = depth_entries(es@);
    let ghost o = out@;
    let mut k: usize = 0;
    while k < es.len()
        invariant
            ev == depth_entries(es@),
            k <= es@.len(),
            out@ == o + lines_at(ev, d as nat, k as nat, simple),
        decreases es.len() - k,
    {
        assert(ev[k as int] == (es@[k as int].0 as nat, es@[k as int].1@));
        if es[k].0 == d {
            if simple {
                put(out, "[");
                let dt = usize_text(d);
                put(out, dt.as_str());
                put(out, "] => ");
            }
            put(out, es[k].1.as_str());
            put(out, "\n");
        }
        assert(out@ =~= o + lines_at(ev, d as nat, (k + 1) as nat, simple));
        k = k + 1;
    }
}

/// Appends the entries of a listing to `out`, sorted by depth (stable).
fn write_by_depth(es: &Vec<(usize, String)>, simple: bool, out: &mut String)
    ensures
        final(out)@ == old(out)@ + by_depth_text(depth_entries(es@), simple),
{
    let ghost ev = depth_entries(es@);
    let ghost o = out@;
    if es.len() == 0 {
        assert(out@ =~= o + by_depth_text(ev, simple));
        return;
    }
    let m = max_of_depths(es);
    let mut d: usize = 0;
    loop
        invariant_except_break
            d <= m,
            out@ == o + depths_text(ev, d as nat, simple),
        invariant
            ev == depth_entries(es@),
            m as nat == max_depth(ev),
            ev.len() > 0,
        ensures
            out@ == o + depths_text(ev, m as nat + 1, simple),
        decreases m - d,
    {
        write_depth(es, d, simple, out);
        assert(out@ =~= o + depths_text(ev, (d + 1) as nat, simple));
        if d == m {
            break;
        }
        d = d + 1;
    }
    assert(out@ =~= o + by_depth_text(ev, simple));
}

impl BuildTreeNode {
    /// `print_simple`: from the parent, each cube found once with its keys,
    /// as `[depth] => line`, sorted by depth.
    pub fn print_simple(&self, out: &mut String)
        requires
            self@.wf(),
            self@.parent is Some,
        ensures
            final(out)@ == old(out)@ + simple_listing(self@),
    {
        let parent = match &self.parent {
            Some(p) => p,
            None => {
                return;
            },
        };
        let mut visit_hs: Vec<String> = Vec::new();
        let mut build_vec: Vec<(usize, String)> = Vec::new();
        proof {
            lemma_unseen_bound(self@.cubes, Seq::empty());
        }
        assert(strings_view(visit_hs@) =~= Seq::<Seq<char>>::empty());
        assert(depth_entries(build_vec@) =~= Seq::<(nat, Seq<char>)>::empty());
        self.print_simple_recurse(&mut build_vec, 0, parent, &mut visit_hs, Ghost(self@.cubes.len()));
        assert(depth_entries(build_vec@) =~= walk_simple(self@, Seq::empty(), self@.parent->0, 0, self@.cubes.len()).0);
        write_by_depth(&build_vec, true, out);
    }

    /// `print_tree`: from the parent, the path of every visit, sorted by
    /// depth.
    pub fn print_tree(&self, out: &mut String)
        requires
            self@.wf(),
            self@.parent is Some,
        ensures
            final(out)@ == old(out)@ + path_listing(self@),
    {
        let parent = match &self.parent {
            Some(p) => p,
            None => {
                return;
            },
        };
        let mut visit_hs: Vec<String> = Vec::new();
        let mut build_vec: Vec<(usize, String)> = Vec::new();
        proof {
            lemma_unseen_bound(self@.cubes, Seq::empty());
        }
        assert(strings_view(visit_hs@) =~= Seq::<Seq<char>>::empty());
        assert(depth_entries(build_vec@) =~= Seq::<(nat, Seq<char>)>::empty());
        self.print_tree_recurse(&mut build_vec, 0, parent, &mut visit_hs, parent.clone(), Ghost(self@.cubes.len()));
        assert(depth_entries(build_vec@) =~= walk_paths(self@, Seq::empty(), self@.parent->0, 0, self@.parent->0, self@.cubes.len()).0);
        write_by_depth(&build_vec, false, out);
    }
}

/// `build_tree_at_p`: the tree of the pointed cube, listed simply when
/// `arg` is `build_tree` (after a title line), else as paths. `Ok(false)`
/// when a cube reached is not in the map: the listing stops after the title.
pub open spec fn spec_build_tree(v: DllView, arg: Seq<char>) -> (Seq<char>, Result<bool, ErrView>) {
    match v.pointer {
        None => (no_text(), Err(ErrView::NullPointer("CubeDLL::change_tier_at_p"@))),
        Some(p) => {
            let name = v.cubes[p as int].name;
            let simple = arg == "build_tree"@;
            let head = if simple {
                "Cube Combinations to get "@ + name + "\n"@
            } else {
                no_text()
            };
            let (t, ok) = tree_of(v, name);
            if !ok {
                (head, Ok(false))
            } else {
                (
                    head + if simple {
                        simple_listing(t)
                    } else {
                        path_listing(t)
                    },
                    Ok(true),
                )
            }
        },
    }
}

impl CubeDLL {
    /// `build_tree_at_p`: writes the tree of the pointed cube; gives
    /// `Ok(false)` when the tree reaches a cube that is not in the map.
    pub fn build_tree_at_p(&self, out: &mut String, arg: &str) -> (r: CSResult<bool>)
        requires
            self@.wf(),
        ensures
            final(out)@ == old(out)@ + spec_build_tree(self@, arg@).0,
            match r {
                Ok(b) => spec_build_tree(self@, arg@).1 == Ok::<bool, ErrView>(b),
                Err(e) => spec_build_tree(self@, arg@).1 == Err::<bool, ErrView>(e@),
            },
    {
        let ghost v = self@;
        let ghost o = out@;
        let p = match self.pointer {
            None => {
                assert(out@ =~= o + no_text());
                return Err(CSError::NullPointer("CubeDLL::change_tier_at_p"));
            },
            Some(p) => p,
        };
        assert(self.cubes@[p as int]@ == v.cubes[p as int]);
        let cs_str = self.cubes[p].name.clone();
        let simple = str_eq(arg, "build_tree");
        if simple {
            put(out, "Cube Combinations to get ");
            put(out, cs_str.as_str());
            put(out, "\n");
        }
        let ghost o1 = out@;
        let mut btn = BuildTreeNode::new();
        proof {
            lemma_unvisited_bound(v.hashmap, Seq::empty());
        }
        let ok = self.build_tree_recurse(&cs_str, &mut btn, Ghost(v.hashmap.len() as nat));
        if !ok {
            assert(out@ =~= o + spec_build_tree(v, arg@).0);
            return Ok(false);
        }
        if simple {
            btn.print_simple(out);
        } else {
            btn.print_tree(out);
        }
        assert(out@ =~= o + spec_build_tree(v, arg@).0);
        Ok(true)
    }
}

// ---------------------------------------------------------------------
// What the tree of a cube holds.

/// The keys of a list of fuse keys, in order.
pub open spec fn fb_keys(fb: Seq<(KeyView, (usize, usize))>) -> Seq<KeyView> {
    fb.map_values(|e: (KeyView, (usize, usize))| e.0)
}

/// Every cube that key `k` names is in tree `t`.
spec fn key_in_tree(t: TreeView, k: KeyView) -> bool {
    match k {
        KeyView::Pair(a, b) => has_key(t.cubes, a) && has_key(t.cubes, b),
        KeyView::Single(a) => has_key(t.cubes, a),
    }
}

/// Entry `i` of tree `t` is complete: when its cube is in the map, the
/// entry holds the cube's fuse keys in order, and every cube they name is
/// in the tree.
spec fn entry_done(v: DllView, t: TreeView, i: int) -> bool {
    let e = t.cubes[i];
    v.lookup(e.0) matches Some(c) ==> {
        &&& e.1 == fb_keys(v.cubes[c as int].fused_by)
        &&& forall|m: int| 0 <= m < e.1.len() ==> key_in_tree(t, #[trigger] e.1[m])
    }
}

/// `r` keeps the entries of `t` in their places, each with its name, and
/// each but the one at `skip` with its keys.
spec fn kept(t: TreeView, r: TreeView, skip: int) -> bool {
    &&& t.cubes.len() <= r.cubes.len()
    &&& forall|i: int| #![trigger r.cubes[i]] 0 <= i < t.cubes.len() ==> r.cubes[i].0 == t.cubes[i].0
    &&& forall|i: int| #![trigger r.cubes[i]] 0 <= i < t.cubes.len() && i != skip ==> r.cubes[i] == t.cubes[i]
}

/// Growing the cubes of key `k`.
spec fn key_grow(v: DllView, t: TreeView, k: KeyView, fuel: nat) -> (TreeView, bool) {
    match k {
        KeyView::Pair(a, b) => {
            let (ta, oka) = grow(v, t, a, fuel);
            if oka {
                grow(v, ta, b, fuel)
            } else {
                (ta, false)
            }
        },
        KeyView::Single(a) => grow(v, t, a, fuel),
    }
}

proof fn lemma_kept(t: TreeView, r: TreeView, skip: int)
    requires
        kept(t, r, skip),
    ensures
        forall|n: Seq<char>| #[trigger] has_key(t.cubes, n) ==> has_key(r.cubes, n),
        forall|n: Seq<char>| has_key(t.cubes, n) ==> #[trigger] find_key(r.cubes, n) == find_key(t.cubes, n),
{
    assert forall|n: Seq<char>| #[trigger] has_key(t.cubes, n) implies has_key(r.cubes, n) && find_key(r.cubes, n)
        == find_key(t.cubes, n) by {
        lemma_find_key(t.cubes, n);
        let i = find_key(t.cubes, n);
        assert(r.cubes[i].0 == n);
        assert forall|j: int| 0 <= j < i implies r.cubes[j].0 != n by {
            assert(t.cubes[j].0 != n);
        }
        lemma_find_key_at(r.cubes, n, i);
    }
}

proof fn lemma_done_kept(v: DllView, t: TreeView, r: TreeView, skip: int, i: int)
    requires
        kept(t, r, skip),
        0 <= i < t.cubes.len(),
        i != skip,
        entry_done(v, t, i),
    ensures
        entry_done(v, r, i),
{
    lemma_kept(t, r, skip);
    assert(r.cubes[i] == t.cubes[i]);
    let e = t.cubes[i];
    match v.lookup(e.0) {
        Some(c) => {
            assert forall|m: int| 0 <= m < e.1.len() implies key_in_tree(r, #[trigger] e.1[m]) by {
                assert(key_in_tree(t, e.1[m]));
            }
        },
        None => {},
    }
}

proof fn lemma_grow_done(v: DllView, t: TreeView, x: Seq<char>, fuel: nat)
    requires
        fuel >= unvisited(v.hashmap, t.cubes),
    ensures
        kept(t, grow(v, t, x, fuel).0, -1),
        has_key(grow(v, t, x, fuel).0.cubes, x),
        grow(v, t, x, fuel).1 ==> forall|i: int|
            t.cubes.len() <= i < grow(v, t, x, fuel).0.cubes.len() ==> entry_done(v, grow(v, t, x, fuel).0, i),
    decreases fuel, 0nat, 0nat,
{
    let (t1, fresh) = tree_add_cube(t, x);
    lemma_find_key(t.cubes, x);
    if !fresh {
        assert(kept(t, t1, -1));
    } else {
        let n0 = t.cubes.len() as int;
        assert(t1.cubes[n0].0 == x);
        assert(has_key(t1.cubes, x));
        assert(kept(t, t1, -1));
        lemma_kept(t, t1, -1);
        match v.lookup(x) {
            None => {},
            Some(c) => {
                lemma_unvisited_drop(v.hashmap, t.cubes, t1.cubes, x);
                let fb = v.cubes[c as int].fused_by;
                let f1 = (fuel - 1) as nat;
                lemma_find_key_at(t1.cubes, x, n0);
                lemma_grow_keys_done(v, t1, x, fb, 0, f1);
                let (r, ok) = grow_keys(v, t1, x, fb, 0, f1);
                lemma_kept(t1, r, n0);
                assert(has_key(r.cubes, x));
                assert(grow(v, t, x, fuel) == (r, ok));
                assert(kept(t, r, -1));
                if ok {
                    assert(t1.cubes[n0].1 + fb_keys(fb).subrange(0, fb.len() as int) =~= fb_keys(fb));
                    assert forall|m: int| 0 <= m < r.cubes[n0].1.len() implies key_in_tree(r, #[trigger] r.cubes[n0].1[m]) by {
                        assert(fb_keys(fb)[m] == fb[m].0);
                    }
                    assert(entry_done(v, r, n0));
                }
            },
        }
    }
}

proof fn lemma_key_grow_done(v: DllView, t: TreeView, k: KeyView, fuel: nat)
    requires
        fuel >= unvisited(v.hashmap, t.cubes),
    ensures
        kept(t, key_grow(v, t, k, fuel).0, -1),
        fuel >= unvisited(v.hashmap, key_grow(v, t, k, fuel).0.cubes),
        key_grow(v, t, k, fuel).1 ==> key_in_tree(key_grow(v, t, k, fuel).0, k),
        key_grow(v, t, k, fuel).1 ==> forall|i: int|
            t.cubes.len() <= i < key_grow(v, t, k, fuel).0.cubes.len() ==> entry_done(v, key_grow(v, t, k, fuel).0, i),
    decreases fuel, 0nat, 1nat,
{
    match k {
        KeyView::Pair(a, b) => {
            lemma_grow_done(v, t, a, fuel);
            let (ta, oka) = grow(v, t, a, fuel);
            lemma_kept(t, ta, -1);
            lemma_unvisited_mono(v.hashmap, t.cubes, ta.cubes);
            if oka {
                lemma_grow_done(v, ta, b, fuel);
                let (tb, okb) = grow(v, ta, b, fuel);
                lemma_kept(ta, tb, -1);
                lemma_unvisited_mono(v.hashmap, ta.cubes, tb.cubes);
                assert(kept(t, tb, -1));
                if okb {
                    assert forall|i: int| t.cubes.len() <= i < tb.cubes.len() implies entry_done(v, tb, i) by {
                        if i < ta.cubes.len() {
                            lemma_done_kept(v, ta, tb, -1, i);
                        }
                    }
                }
            }
        },
        KeyView::Single(a) => {
            lemma_grow_done(v, t, a, fuel);
            let (ta, oka) = grow(v, t, a, fuel);
            lemma_kept(t, ta, -1);
            lemma_unvisited_mono(v.hashmap, t.cubes, ta.cubes);
        },
    }
}

proof fn lemma_grow_keys_done(
    v: DllView,
    t: TreeView,
    x: Seq<char>,
    fb: Seq<(KeyView, (usize, usize))>,
    j: nat,
    fuel: nat,
)
    requires
        fuel >= unvisited(v.hashmap, t.cubes),
        has_key(t.cubes, x),
        j <= fb.len(),
    ensures
        ({
            let (r, ok) = grow_keys(v, t, x, fb, j, fuel);
            let ix = find_key(t.cubes, x);
            &&& kept(t, r, ix)
            &&& ok ==> r.cubes[ix].1 == t.cubes[ix].1 + fb_keys(fb).subrange(j as int, fb.len() as int)
            &&& ok ==> forall|m: int| j <= m < fb.len() ==> key_in_tree(r, #[trigger] fb[m].0)
            &&& ok ==> forall|i: int| t.cubes.len() <= i < r.cubes.len() ==> entry_done(v, r, i)
        }),
    decreases fuel, (fb.len() - j) as nat, 2nat,
{
    lemma_find_key(t.cubes, x);
    let ix = find_key(t.cubes, x);
    if j >= fb.len() {
        assert(t.cubes[ix].1 + fb_keys(fb).subrange(j as int, fb.len() as int) =~= t.cubes[ix].1);
    } else {
        let k = fb[j as int].0;
        let t1 = tree_add_key(t, x, k);
        assert(kept(t, t1, ix));
        lemma_kept(t, t1, ix);
        lemma_unvisited_mono(v.hashmap, t.cubes, t1.cubes);
        lemma_key_grow_done(v, t1, k, fuel);
        let (t2, ok2) = key_grow(v, t1, k, fuel);
        assert(kept(t, t2, ix));
        lemma_kept(t, t2, ix);
        assert(grow_keys(v, t, x, fb, j, fuel) == (if ok2 {
            grow_keys(v, t2, x, fb, j + 1, fuel)
        } else {
            (t2, false)
        }));
        if ok2 {
            lemma_grow_keys_done(v, t2, x, fb, j + 1, fuel);
            let (r, ok) = grow_keys(v, t2, x, fb, j + 1, fuel);
            lemma_kept(t2, r, ix);
            assert(kept(t, r, ix));
            if ok {
                assert(t.cubes[ix].1.push(k) + fb_keys(fb).subrange((j + 1) as int, fb.len() as int) =~= t.cubes[ix].1
                    + fb_keys(fb).subrange(j as int, fb.len() as int));
                assert forall|m: int| j <= m < fb.len() implies key_in_tree(r, #[trigger] fb[m].0) by {
                    if m == j {
                        assert(key_in_tree(t2, k));
                    }
                }
                assert forall|i: int| t.cubes.len() <= i < r.cubes.len() implies entry_done(v, r, i) by {
                    if i < t2.cubes.len() {
                        lemma_done_kept(v, t2, r, ix, i);
                    }
                }
            }
        }
    }
}

/// Building the tree follows every fuse key: when every cube reached is
/// in the map, each cube of the map that is in the tree of `x` is
/// recorded with exactly its own fuse keys, in their order, and every
/// cube that one of those keys names is in the tree too.
pub proof fn law_tree_follows_every_key(v: DllView, x: Seq<char>, c: Seq<char>)
    requires
        tree_of(v, x).1,
        has_key(tree_of(v, x).0.cubes, c),
        has_key(v.hashmap, c),
    ensures
        value_of(tree_of(v, x).0.cubes, c) == fb_keys(v.cubes[value_of(v.hashmap, c) as int].fused_by),
        forall|m: int, n: Seq<char>|
            0 <= m < value_of(tree_of(v, x).0.cubes, c).len() && #[trigger] key_mentions(
                value_of(tree_of(v, x).0.cubes, c)[m],
                n,
            ) ==> has_key(tree_of(v, x).0.cubes, n),
{
    lemma_unvisited_bound(v.hashmap, empty_tree().cubes);
    lemma_grow_done(v, empty_tree(), x, v.hashmap.len() as nat);
    let t = tree_of(v, x).0;
    lemma_find_key(t.cubes, c);
    let i = find_key(t.cubes, c);
    assert(entry_done(v, t, i));
    let ks = value_of(t.cubes, c);
    assert forall|m: int, n: Seq<char>| 0 <= m < ks.len() && #[trigger] key_mentions(ks[m], n) implies has_key(
        t.cubes,
        n,
    ) by {
        assert(key_in_tree(t, ks[m]));
    }
}

/// The names of the cubes of a tree, in order.
spec fn tree_names(s: Seq<(Seq<char>, Seq<KeyView>)>) -> Seq<Seq<char>> {
    s.map_values(|e: (Seq<char>, Seq<KeyView>)| e.0)
}

proof fn lemma_tree_names(s: Seq<(Seq<char>, Seq<KeyView>)>, n: Seq<char>)
    ensures
        tree_names(s).contains(n) <==> has_key(s, n),
{
    if has_key(s, n) {
        let i = choose|i: int| 0 <= i < s.len() && #[trigger] s[i].0 == n;
        assert(tree_names(s)[i] == n);
    }
    if tree_names(s).contains(n) {
        let i = choose|i: int| 0 <= i < tree_names(s).len() && tree_names(s)[i] == n;
        assert(s[i].0 == n);
    }
}

/// The final tree `big` agrees with `r`, grown from `t`: same names on the
/// entries of `r`, same entries on those added since `t`.
spec fn agrees(t: TreeView, r: TreeView, big: TreeView) -> bool {
    &&& r.cubes.len() <= big.cubes.len()
    &&& forall|i: int| #![trigger big.cubes[i]] 0 <= i < r.cubes.len() ==> big.cubes[i].0 == r.cubes[i].0
    &&& forall|i: int| #![trigger big.cubes[i]] t.cubes.len() <= i < r.cubes.len() ==> big.cubes[i] == r.cubes[i]
}

/// Entries `es` are the lines, in order, of the cubes of `big` at the
/// places that `r` added to `t`.
spec fn lines_match(es: Seq<(nat, Seq<char>)>, t: TreeView, r: TreeView, big: TreeView) -> bool {
    &&& es.len() == r.cubes.len() - t.cubes.len()
    &&& forall|k: int| 0 <= k < es.len() ==> (#[trigger] es[k]).1 == simple_line(
        big.cubes[t.cubes.len() + k].0,
        big.cubes[t.cubes.len() + k].1,
    )
}

proof fn lemma_walk_grow(v: DllView, t: TreeView, x: Seq<char>, fuel: nat, big: TreeView, d: nat, f: nat)
    requires
        fuel >= unvisited(v.hashmap, t.cubes),
        grow(v, t, x, fuel).1,
        agrees(t, grow(v, t, x, fuel).0, big),
        f + t.cubes.len() >= big.cubes.len(),
    ensures
        walk_simple(big, tree_names(t.cubes), x, d, f).1 == tree_names(grow(v, t, x, fuel).0.cubes),
        lines_match(walk_simple(big, tree_names(t.cubes), x, d, f).0, t, grow(v, t, x, fuel).0, big),
    decreases fuel, 0nat, 0nat,
{
    let (t1, fresh) = tree_add_cube(t, x);
    lemma_grow_done(v, t, x, fuel);
    lemma_tree_names(t.cubes, x);
    lemma_find_key(t.cubes, x);
    if !fresh {
        assert(t1.cubes == t.cubes);
    } else {
        let n0 = t.cubes.len() as int;
        assert(t1.cubes[n0].0 == x);
        assert(has_key(t1.cubes, x));
        assert(kept(t, t1, -1));
        lemma_kept(t, t1, -1);
        match v.lookup(x) {
            None => {},
            Some(c) => {
                lemma_unvisited_drop(v.hashmap, t.cubes, t1.cubes, x);
                let fb = v.cubes[c as int].fused_by;
                let f1 = (fuel - 1) as nat;
                lemma_find_key_at(t1.cubes, x, n0);
                lemma_grow_keys_done(v, t1, x, fb, 0, f1);
                let (r, ok) = grow_keys(v, t1, x, fb, 0, f1);
                assert(grow(v, t, x, fuel) == (r, ok));
                assert(t1.cubes[n0].1 + fb_keys(fb).subrange(0, fb.len() as int) =~= fb_keys(fb));
                assert(big.cubes[n0] == r.cubes[n0]);
                assert forall|j: int| 0 <= j < n0 implies big.cubes[j].0 != x by {
                    assert(big.cubes[j].0 == r.cubes[j].0);
                    assert(r.cubes[j].0 == t.cubes[j].0);
                }
                lemma_find_key_at(big.cubes, x, n0);
                let ks = value_of(big.cubes, x);
                assert(ks == fb_keys(fb));
                assert(tree_names(t.cubes).push(x) =~= tree_names(t1.cubes));
                lemma_walk_keys(v, t1, x, fb, 0, f1, big, d + 1, (f - 1) as nat);
                let (rest, vis2) = walk_simple_keys(big, tree_names(t1.cubes), ks, 0, d + 1, (f - 1) as nat);
                let es = seq![(d, simple_line(x, ks))] + rest;
                assert(walk_simple(big, tree_names(t.cubes), x, d, f) == (es, vis2));
                assert forall|k: int| 0 <= k < es.len() implies (#[trigger] es[k]).1 == simple_line(
                    big.cubes[n0 + k].0,
                    big.cubes[n0 + k].1,
                ) by {
                    if k > 0 {
                        assert(es[k] == rest[k - 1]);
                    }
                }
            },
        }
    }
}

proof fn lemma_walk_keys(
    v: DllView,
    t: TreeView,
    x: Seq<char>,
    fb: Seq<(KeyView, (usize, usize))>,
    j: nat,
    fuel: nat,
    big: TreeView,
    d: nat,
    f: nat,
)
    requires
        fuel >= unvisited(v.hashmap, t.cubes),
        has_key(t.cubes, x),
        j <= fb.len(),
        grow_keys(v, t, x, fb, j, fuel).1,
        agrees(t, grow_keys(v, t, x, fb, j, fuel).0, big),
        f + t.cubes.len() >= big.cubes.len(),
    ensures
        walk_simple_keys(big, tree_names(t.cubes), fb_keys(fb), j, d, f).1 == tree_names(
            grow_keys(v, t, x, fb, j, fuel).0.cubes,
        ),
        lines_match(walk_simple_keys(big, tree_names(t.cubes), fb_keys(fb), j, d, f).0, t, grow_keys(v, t, x, fb, j, fuel).0, big),
    decreases fuel, (fb.len() - j) as nat, 2nat,
{
    lemma_find_key(t.cubes, x);
    let ix = find_key(t.cubes, x);
    let ks = fb_keys(fb);
    let vis = tree_names(t.cubes);
    if j < fb.len() {
        let k = fb[j as int].0;
        assert(ks[j as int] == k);
        let t1 = tree_add_key(t, x, k);
        assert(kept(t, t1, ix));
        lemma_kept(t, t1, ix);
        assert(tree_names(t1.cubes) =~= vis);
        lemma_unvisited_mono(v.hashmap, t.cubes, t1.cubes);
        lemma_key_grow_done(v, t1, k, fuel);
        let (t2, ok2) = key_grow(v, t1, k, fuel);
        assert(kept(t, t2, ix));
        lemma_kept(t, t2, ix);
        assert(grow_keys(v, t, x, fb, j, fuel) == (if ok2 {
            grow_keys(v, t2, x, fb, j + 1, fuel)
        } else {
            (t2, false)
        }));
        lemma_grow_keys_done(v, t2, x, fb, j + 1, fuel);
        let r = grow_keys(v, t2, x, fb, j + 1, fuel).0;
        lemma_kept(t2, r, ix);
        lemma_walk_keys(v, t2, x, fb, j + 1, fuel, big, d, f);
        let (e2, v2) = walk_simple_keys(big, tree_names(t2.cubes), ks, j + 1, d, f);
        match k {
            KeyView::Pair(a, b) => {
                lemma_grow_done(v, t1, a, fuel);
                let (ta, oka) = grow(v, t1, a, fuel);
                lemma_kept(t1, ta, -1);
                lemma_unvisited_mono(v.hashmap, t1.cubes, ta.cubes);
                lemma_grow_done(v, ta, b, fuel);
                let (tb, okb) = grow(v, ta, b, fuel);
                lemma_kept(ta, tb, -1);
                assert(tb == t2);
                assert(agrees(t1, ta, big)) by {
                    assert forall|i: int| #![trigger big.cubes[i]] 0 <= i < ta.cubes.len() implies big.cubes[i].0
                        == ta.cubes[i].0 by {
                        assert(big.cubes[i].0 == r.cubes[i].0);
                        assert(r.cubes[i].0 == tb.cubes[i].0);
                    }
                    assert forall|i: int| #![trigger big.cubes[i]] t1.cubes.len() <= i < ta.cubes.len() implies big.cubes[i]
                        == ta.cubes[i] by {
                        assert(big.cubes[i] == r.cubes[i]);
                        assert(r.cubes[i] == tb.cubes[i]);
                    }
                }
                assert(agrees(ta, tb, big)) by {
                    assert forall|i: int| #![trigger big.cubes[i]] 0 <= i < tb.cubes.len() implies big.cubes[i].0
                        == tb.cubes[i].0 by {
                        assert(big.cubes[i].0 == r.cubes[i].0);
                    }
                    assert forall|i: int| #![trigger big.cubes[i]] ta.cubes.len() <= i < tb.cubes.len() implies big.cubes[i]
                        == tb.cubes[i] by {
                        assert(big.cubes[i] == r.cubes[i]);
                    }
                }
                lemma_walk_grow(v, t1, a, fuel, big, d, f);
                lemma_walk_grow(v, ta, b, fuel, big, d, f);
                let (ea, va) = walk_simple(big, vis, a, d, f);
                let (eb, vb) = walk_simple(big, va, b, d, f);
                let es = (ea + eb) + e2;
                assert(walk_simple_keys(big, vis, ks, j, d, f) == (es, v2));
                assert forall|m: int| 0 <= m < es.len() implies (#[trigger] es[m]).1 == simple_line(
                    big.cubes[t.cubes.len() + m].0,
                    big.cubes[t.cubes.len() + m].1,
                ) by {
                    if m < ea.len() {
                        assert(es[m] == ea[m]);
                    } else if m < ea.len() + eb.len() {
                        assert(es[m] == eb[m - ea.len()]);
                    } else {
                        assert(es[m] == e2[m - ea.len() - eb.len()]);
                    }
                }
            },
            KeyView::Single(a) => {
                lemma_grow_done(v, t1, a, fuel);
                let (ta, oka) = grow(v, t1, a, fuel);
                lemma_kept(t1, ta, -1);
                assert(ta == t2);
                assert(agrees(t1, ta, big)) by {
                    assert forall|i: int| #![trigger big.cubes[i]] 0 <= i < ta.cubes.len() implies big.cubes[i].0
                        == ta.cubes[i].0 by {
                        assert(big.cubes[i].0 == r.cubes[i].0);
                    }
                    assert forall|i: int| #![trigger big.cubes[i]] t1.cubes.len() <= i < ta.cubes.len() implies big.cubes[i]
                        == ta.cubes[i] by {
                        assert(big.cubes[i] == r.cubes[i]);
                    }
                }
                lemma_walk_grow(v, t1, a, fuel, big, d, f);
                let (ea, va) = walk_simple(big, vis, a, d, f);
                let es = ea + e2;
                assert(walk_simple_keys(big, vis, ks, j, d, f) == (es, v2));
                assert forall|m: int| 0 <= m < es.len() implies (#[trigger] es[m]).1 == simple_line(
                    big.cubes[t.cubes.len() + m].0,
                    big.cubes[t.cubes.len() + m].1,
                ) by {
                    if m < ea.len() {
                        assert(es[m] == ea[m]);
                    } else {
                        assert(es[m] == e2[m - ea.len()]);
                    }
                }
            },
        }
    }
}

/// The simple listing shows the whole tree: its entries are one line for
/// each cube of the tree of `x`, in the order the cubes were reached, each
/// line the cube's name with its keys (when every cube reached is in the
/// map).
pub proof fn law_simple_listing_shows_tree(v: DllView, x: Seq<char>)
    requires
        tree_of(v, x).1,
    ensures
        ({
            let t = tree_of(v, x).0;
            let es = walk_simple(t, Seq::empty(), t.parent->0, 0, t.cubes.len()).0;
            &&& es.len() == t.cubes.len()
            &&& forall|i: int| 0 <= i < es.len() ==> (#[trigger] es[i]).1 == simple_line(t.cubes[i].0, t.cubes[i].1)
        }),
{
    law_tree_root(v, x);
    let t = tree_of(v, x).0;
    lemma_unvisited_bound(v.hashmap, empty_tree().cubes);
    assert(tree_names(empty_tree().cubes) =~= Seq::<Seq<char>>::empty());
    lemma_walk_grow(v, empty_tree(), x, v.hashmap.len() as nat, t, 0, t.cubes.len() as nat);
    let es = walk_simple(t, Seq::empty(), x, 0, t.cubes.len() as nat).0;
    assert forall|i: int| 0 <= i < es.len() implies (#[trigger] es[i]).1 == simple_line(t.cubes[i].0, t.cubes[i].1) by {
        assert(es[i].1 == simple_line(t.cubes[0 + i].0, t.cubes[0 + i].1));
    }
}

/// How many cubes key `k` names.
pub open spec fn key_arity(k: KeyView) -> nat {
    match k {
        KeyView::Pair(_, _) => 2,
        KeyView::Single(_) => 1,
    }
}

/// How many cubes the keys `ks` name, all together.
pub open spec fn keys_arity(ks: Seq<KeyView>) -> nat
    decreases ks.len(),
{
    if ks.len() == 0 {
        0
    } else {
        key_arity(ks[0]) + keys_arity(ks.drop_first())
    }
}

/// How many cubes the keys of the entries `s` name, all together.
pub open spec fn entries_arity(s: Seq<(Seq<char>, Seq<KeyView>)>) -> nat
    decreases s.len(),
{
    if s.len() == 0 {
        0
    } else {
        keys_arity(s[0].1) + entries_arity(s.drop_first())
    }
}

proof fn lemma_entries_arity_split(s: Seq<(Seq<char>, Seq<KeyView>)>, a: int, b: int, c: int)
    requires
        0 <= a <= b <= c <= s.len(),
    ensures
        entries_arity(s.subrange(a, c)) == entries_arity(s.subrange(a, b)) + entries_arity(s.subrange(b, c)),
    decreases b - a,
{
    if a < b {
        assert(s.subrange(a, c).drop_first() =~= s.subrange(a + 1, c));
        assert(s.subrange(a, b).drop_first() =~= s.subrange(a + 1, b));
        lemma_entries_arity_split(s, a + 1, b, c);
    } else {
        assert(s.subrange(a, b) =~= Seq::<(Seq<char>, Seq<KeyView>)>::empty());
    }
}

proof fn lemma_walk_paths_grow(
    v: DllView,
    t: TreeView,
    x: Seq<char>,
    fuel: nat,
    big: TreeView,
    d: nat,
    path: Seq<char>,
    f: nat,
)
    requires
        fuel >= unvisited(v.hashmap, t.cubes),
        grow(v, t, x, fuel).1,
        agrees(t, grow(v, t, x, fuel).0, big),
        f + t.cubes.len() >= big.cubes.len(),
    ensures
        walk_paths(big, tree_names(t.cubes), x, d, path, f).1 == tree_names(grow(v, t, x, fuel).0.cubes),
        walk_paths(big, tree_names(t.cubes), x, d, path, f).0.len() == 1 + entries_arity(
            big.cubes.subrange(t.cubes.len() as int, grow(v, t, x, fuel).0.cubes.len() as int),
        ),
    decreases fuel, 0nat, 0nat,
{
    let (t1, fresh) = tree_add_cube(t, x);
    lemma_grow_done(v, t, x, fuel);
    lemma_tree_names(t.cubes, x);
    lemma_find_key(t.cubes, x);
    if !fresh {
        assert(t1.cubes == t.cubes);
        assert(big.cubes.subrange(t.cubes.len() as int, t.cubes.len() as int) =~= Seq::<
            (Seq<char>, Seq<KeyView>),
        >::empty());
    } else {
        let n0 = t.cubes.len() as int;
        assert(t1.cubes[n0].0 == x);
        assert(has_key(t1.cubes, x));
        assert(kept(t, t1, -1));
        lemma_kept(t, t1, -1);
        match v.lookup(x) {
            None => {},
            Some(c) => {
                lemma_unvisited_drop(v.hashmap, t.cubes, t1.cubes, x);
                let fb = v.cubes[c as int].fused_by;
                let f1 = (fuel - 1) as nat;
                lemma_find_key_at(t1.cubes, x, n0);
                lemma_grow_keys_done(v, t1, x, fb, 0, f1);
                let (r, ok) = grow_keys(v, t1, x, fb, 0, f1);
                assert(grow(v, t, x, fuel) == (r, ok));
                assert(t1.cubes[n0].1 + fb_keys(fb).subrange(0, fb.len() as int) =~= fb_keys(fb));
                assert(big.cubes[n0] == r.cubes[n0]);
                assert forall|j: int| 0 <= j < n0 implies big.cubes[j].0 != x by {
                    assert(big.cubes[j].0 == r.cubes[j].0);
                    assert(r.cubes[j].0 == t.cubes[j].0);
                }
                lemma_find_key_at(big.cubes, x, n0);
                let ks = value_of(big.cubes, x);
                assert(ks == fb_keys(fb));
                assert(tree_names(t.cubes).push(x) =~= tree_names(t1.cubes));
                lemma_walk_paths_keys(v, t1, x, fb, 0, f1, big, d + 1, path, (f - 1) as nat);
                assert(fb_keys(fb).subrange(0, fb.len() as int) =~= fb_keys(fb));
                let sub = big.cubes.subrange(n0, r.cubes.len() as int);
                assert(sub.drop_first() =~= big.cubes.subrange(n0 + 1, r.cubes.len() as int));
                assert(sub[0] == big.cubes[n0]);
            },
        }
    }
}

proof fn lemma_walk_paths_keys(
    v: DllView,
    t: TreeView,
    x: Seq<char>,
    fb: Seq<(KeyView, (usize, usize))>,
    j: nat,
    fuel: nat,
    big: TreeView,
    d: nat,
    path: Seq<char>,
    f: nat,
)
    requires
        fuel >= unvisited(v.hashmap, t.cubes),
        has_key(t.cubes, x),
        j <= fb.len(),
        grow_keys(v, t, x, fb, j, fuel).1,
        agrees(t, grow_keys(v, t, x, fb, j, fuel).0, big),
        f + t.cubes.len() >= big.cubes.len(),
    ensures
        walk_paths_keys(big, tree_names(t.cubes), fb_keys(fb), j, d, path, f).1 == tree_names(
            grow_keys(v, t, x, fb, j, fuel).0.cubes,
        ),
        walk_paths_keys(big, tree_names(t.cubes), fb_keys(fb), j, d, path, f).0.len() == entries_arity(
            big.cubes.subrange(t.cubes.len() as int, grow_keys(v, t, x, fb, j, fuel).0.cubes.len() as int),
        ) + keys_arity(fb_keys(fb).subrange(j as int, fb.len() as int)),
    decreases fuel, (fb.len() - j) as nat, 2nat,
{
    lemma_find_key(t.cubes, x);
    let ix = find_key(t.cubes, x);
    let ks = fb_keys(fb);
    let vis = tree_names(t.cubes);
    if j >= fb.len() {
        assert(ks.subrange(j as int, fb.len() as int) =~= Seq::<KeyView>::empty());
        assert(big.cubes.subrange(t.cubes.len() as int, t.cubes.len() as int) =~= Seq::<
            (Seq<char>, Seq<KeyView>),
        >::empty());
    } else {
        let k = fb[j as int].0;
        assert(ks[j as int] == k);
        let t1 = tree_add_key(t, x, k);
        assert(kept(t, t1, ix));
        lemma_kept(t, t1, ix);
        assert(tree_names(t1.cubes) =~= vis);
        lemma_unvisited_mono(v.hashmap, t.cubes, t1.cubes);
        lemma_key_grow_done(v, t1, k, fuel);
        let (t2, ok2) = key_grow(v, t1, k, fuel);
        assert(kept(t, t2, ix));
        lemma_kept(t, t2, ix);
        assert(grow_keys(v, t, x, fb, j, fuel) == (if ok2 {
            grow_keys(v, t2, x, fb, j + 1, fuel)
        } else {
            (t2, false)
        }));
        lemma_grow_keys_done(v, t2, x, fb, j + 1, fuel);
        let r = grow_keys(v, t2, x, fb, j + 1, fuel).0;
        lemma_kept(t2, r, ix);
        lemma_walk_paths_keys(v, t2, x, fb, j + 1, fuel, big, d, path, f);
        let (e2, v2) = walk_paths_keys(big, tree_names(t2.cubes), ks, j + 1, d, path, f);
        let rest = ks.subrange(j as int, fb.len() as int);
        assert(rest.drop_first() =~= ks.subrange((j + 1) as int, fb.len() as int));
        assert(rest[0] == k);
        let n0 = t.cubes.len() as int;
        match k {
            KeyView::Pair(a, b) => {
                lemma_grow_done(v, t1, a, fuel);
                let (ta, oka) = grow(v, t1, a, fuel);
                lemma_kept(t1, ta, -1);
                lemma_unvisited_mono(v.hashmap, t1.cubes, ta.cubes);
                lemma_grow_done(v, ta, b, fuel);
                let (tb, okb) = grow(v, ta, b, fuel);
                lemma_kept(ta, tb, -1);
                assert(tb == t2);
                assert(agrees(t1, ta, big)) by {
                    assert forall|i: int| #![trigger big.cubes[i]] 0 <= i < ta.cubes.len() implies big.cubes[i].0
                        == ta.cubes[i].0 by {
                        assert(big.cubes[i].0 == r.cubes[i].0);
                        assert(r.cubes[i].0 == tb.cubes[i].0);
                    }
                    assert forall|i: int| #![trigger big.cubes[i]] t1.cubes.len() <= i < ta.cubes.len() implies big.cubes[i]
                        == ta.cubes[i] by {
                        assert(big.cubes[i] == r.cubes[i]);
                        assert(r.cubes[i] == tb.cubes[i]);
                    }
                }
                assert(agrees(ta, tb, big)) by {
                    assert forall|i: int| #![trigger big.cubes[i]] 0 <= i < tb.cubes.len() implies big.cubes[i].0
                        == tb.cubes[i].0 by {
                        assert(big.cubes[i].0 == r.cubes[i].0);
                    }
                    assert forall|i: int| #![trigger big.cubes[i]] ta.cubes.len() <= i < tb.cubes.len() implies big.cubes[i]
                        == tb.cubes[i] by {
                        assert(big.cubes[i] == r.cubes[i]);
                    }
                }
                lemma_walk_paths_grow(v, t1, a, fuel, big, d, path + "/"@ + a, f);
                lemma_walk_paths_grow(v, ta, b, fuel, big, d, path + "/"@ + b, f);
                let (ea, va) = walk_paths(big, vis, a, d, path + "/"@ + a, f);
                let (eb, vb) = walk_paths(big, va, b, d, path + "/"@ + b, f);
                assert(walk_paths_keys(big, vis, ks, j, d, path, f) == ((ea + eb) + e2, v2));
                lemma_entries_arity_split(big.cubes, n0, ta.cubes.len() as int, r.cubes.len() as int);
                lemma_entries_arity_split(big.cubes, ta.cubes.len() as int, tb.cubes.len() as int, r.cubes.len() as int);
            },
            KeyView::Single(a) => {
                lemma_grow_done(v, t1, a, fuel);
                let (ta, oka) = grow(v, t1, a, fuel);
                lemma_kept(t1, ta, -1);
                assert(ta == t2);
                assert(agrees(t1, ta, big)) by {
                    assert forall|i: int| #![trigger big.cubes[i]] 0 <= i < ta.cubes.len() implies big.cubes[i].0
                        == ta.cubes[i].0 by {
                        assert(big.cubes[i].0 == r.cubes[i].0);
                    }
                    assert forall|i: int| #![trigger big.cubes[i]] t1.cubes.len() <= i < ta.cubes.len() implies big.cubes[i]
                        == ta.cubes[i] by {
                        assert(big.cubes[i] == r.cubes[i]);
                    }
                }
                lemma_walk_paths_grow(v, t1, a, fuel, big, d, path + "/"@ + a, f);
                let (ea, va) = walk_paths(big, vis, a, d, path + "/"@ + a, f);
                assert(walk_paths_keys(big, vis, ks, j, d, path, f) == (ea + e2, v2));
                lemma_entries_arity_split(big.cubes, n0, ta.cubes.len() as int, r.cubes.len() as int);
            },
        }
    }
}

/// The path listing follows every key: it has one line for the cube
/// itself and one more for every name in every key of the cubes of the
/// tree (when every cube reached is in the map).
pub proof fn law_path_listing_follows_keys(v: DllView, x: Seq<char>)
    requires
        tree_of(v, x).1,
    ensures
        ({
            let t = tree_of(v, x).0;
            walk_paths(t, Seq::empty(), t.parent->0, 0, t.parent->0, t.cubes.len()).0.len() == 1 + entries_arity(t.cubes)
        }),
{
    law_tree_root(v, x);
    let t = tree_of(v, x).0;
    lemma_unvisited_bound(v.hashmap, empty_tree().cubes);
    assert(tree_names(empty_tree().cubes) =~= Seq::<Seq<char>>::empty());
    lemma_walk_paths_grow(v, empty_tree(), x, v.hashmap.len() as nat, t, 0, x, t.cubes.len() as nat);
    assert(t.cubes.subrange(0, t.cubes.len() as int) =~= t.cubes);
}

} // verus!
