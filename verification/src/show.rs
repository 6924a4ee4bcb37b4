//! What the graph shows: a cube's description, the cube's links as paths,
//! the fusions that use a cube, the open tasks, and the save line of a cube.
use vstd::prelude::*;
use crate::assoc::{has_key, value_of, named_get, lemma_find_key, named_view, keyed_view};
use crate::cube::{CubeDLL, DllView, CubeView, put, unknown_name, no_text};
use crate::error::{CSError, CSResult, ErrView, outcome};
use crate::fuse_key::{FuseKey, KeyView, key_text, key_mentions};
use crate::text::{seq_lt, text_lt, lemma_seq_lt_order, push_char, i32_text, usize_text, int_decimal, nat_decimal, str_eq, string_of};

verus! {

/// The items joined with commas.
pub open spec fn joined(items: Seq<Seq<char>>) -> Seq<char>
    decreases items.len(),
{
    if items.len() == 0 {
        Seq::empty()
    } else if items.len() == 1 {
        items[0]
    } else {
        joined(items.drop_last()) + seq![','] + items.last()
    }
}

/// `s` in double quotes.
pub open spec fn quoted(s: Seq<char>) -> Seq<char> {
    seq!['"'] + s + seq!['"']
}

/// How a listing writes the keys of a cube.
pub enum KeyStyle {
    /// `[a|b]` or `a?`, as the description of a cube lists them.
    Info,
    /// `"a"|"b"` or `"a"?`, as the path listing shows them.
    Path,
    /// `a|b` or `a?`, as the save format writes them.
    Save,
}

/// How a listing writes the conversions of a cube.
pub enum CtStyle {
    /// The quoted name of each cube converted to.
    TargetNames,
    /// The quoted name under which each conversion is kept.
    QuotedKeys,
    /// The name under which each conversion is kept.
    Keys,
}

/// Key `k` written in style `st`.
pub open spec fn key_styled(st: KeyStyle, k: KeyView) -> Seq<char> {
    match (st, k) {
        (KeyStyle::Info, KeyView::Pair(a, b)) => seq!['['] + a + seq!['|'] + b + seq![']'],
        (KeyStyle::Path, KeyView::Pair(a, b)) => quoted(a) + seq!['|'] + quoted(b),
        (KeyStyle::Save, KeyView::Pair(a, b)) => a + seq!['|'] + b,
        (KeyStyle::Path, KeyView::Single(a)) => quoted(a) + seq!['?'],
        (_, KeyView::Single(a)) => a + seq!['?'],
    }
}

/// The keys of `fb`, each written in style `st`.
pub open spec fn fb_items(fb: Seq<(KeyView, (usize, usize))>, st: KeyStyle) -> Seq<Seq<char>> {
    fb.map_values(|e: (KeyView, (usize, usize))| key_styled(st, e.0))
}

/// One conversion written in style `st`.
pub open spec fn ct_styled(v: DllView, st: CtStyle, e: (Seq<char>, usize)) -> Seq<char> {
    match st {
        CtStyle::TargetNames => quoted(v.cubes[e.1 as int].name),
        CtStyle::QuotedKeys => quoted(e.0),
        CtStyle::Keys => e.0,
    }
}

/// The conversions `ct`, each written in style `st`.
pub open spec fn ct_items(v: DllView, ct: Seq<(Seq<char>, usize)>, st: CtStyle) -> Seq<Seq<char>> {
    ct.map_values(|e: (Seq<char>, usize)| ct_styled(v, st, e))
}

/// The description of cube `c`: its name, tier, the names of the cubes
/// it converts to (or `(None)`) and its keys.
pub open spec fn cube_text(v: DllView, c: int) -> Seq<char> {
    let cube = v.cubes[c];
    let con_to = if cube.converts_to.len() != 0 {
        joined(ct_items(v, cube.converts_to, CtStyle::TargetNames))
    } else {
        "(None)"@
    };
    let fus_by = joined(fb_items(cube.fused_by, KeyStyle::Info));
    "CubeStruct{ name:[\""@ + cube.name + "\"], tier:["@ + int_decimal(cube.tier as int) + "], converts_to:["@
        + con_to + "], fused_by:["@ + fus_by + "] }"@
}

/// Joining one more item.
pub proof fn lemma_joined_push(items: Seq<Seq<char>>, x: Seq<char>)
    ensures
        joined(items.push(x)) == if items.len() == 0 {
            x
        } else {
            joined(items) + seq![','] + x
        },
{
    assert(items.push(x).drop_last() =~= items);
}

/// The conversions of a cube, as `get_info_p` lists them after the cube:
/// each names a cube in the map, described in turn.
pub open spec fn assoc_fold(v: DllView, ct: Seq<(Seq<char>, usize)>, i: nat) -> Seq<char>
    decreases i,
{
    if i == 0 || i > ct.len() {
        no_text()
    } else {
        assoc_fold(v, ct, (i - 1) as nat) + "Associated fusions: "@ + cube_text(v, value_of(v.hashmap, ct[i - 1].0) as int)
            + "\n"@
    }
}

/// Every conversion of cube `p` names a cube in the map.
pub open spec fn info_ok(v: DllView, p: int) -> bool {
    forall|i: int| 0 <= i < v.cubes[p].converts_to.len() ==> has_key(v.hashmap, #[trigger] v.cubes[p].converts_to[i].0)
}

/// The position of the first conversion of `ct`, from the `j`-th on, whose
/// name is not in the map (the length when there is none).
pub open spec fn first_missing(v: DllView, ct: Seq<(Seq<char>, usize)>, j: nat) -> nat
    decreases ct.len() - j,
{
    if j >= ct.len() {
        ct.len()
    } else if !has_key(v.hashmap, ct[j as int].0) {
        j
    } else {
        first_missing(v, ct, j + 1)
    }
}

/// What `get_info_p` writes for cube `p`: its description, then that of
/// each cube it converts to, up to the first that is not in the map.
pub open spec fn info_text(v: DllView, p: int) -> Seq<char> {
    let ct = v.cubes[p].converts_to;
    "Info of cube pointer: "@ + cube_text(v, p) + "\n"@ + assoc_fold(v, ct, first_missing(v, ct, 0))
}

/// The path line of cube `c`: its keys, itself with its tier, and the names
/// it converts to.
pub open spec fn path_text(v: DllView, c: int) -> Seq<char> {
    let cube = v.cubes[c];
    "fused_by: ["@ + joined(fb_items(cube.fused_by, KeyStyle::Path)) + "]"@
        + " => [[\""@ + cube.name + "\"]]("@ + int_decimal(cube.tier as int) + ") => "@ + "converts_to: ["@
        + joined(ct_items(v, cube.converts_to, CtStyle::QuotedKeys)) + seq![']']
}

/// The path lines of the first `i` cubes of the map.
pub open spec fn paths_fold(v: DllView, i: nat) -> Seq<char>
    decreases i,
{
    if i == 0 || i > v.hashmap.len() {
        no_text()
    } else {
        paths_fold(v, (i - 1) as nat) + path_text(v, v.hashmap[i - 1].1 as int) + "\n"@
    }
}

pub open spec fn paths_header() -> Seq<char> {
    "Syntax: fused_by: [fuse key array (single/pair)] => [[this cube name]](tier) => converts_to: [cube name array]\n"@
}

/// What `get_info_cube_paths` writes.
pub open spec fn paths_text(v: DllView) -> Seq<char> {
    paths_header() + paths_fold(v, v.hashmap.len())
}

/// The next number of a count (it stops at the largest `usize`).
pub open spec fn next_count(n: usize) -> usize {
    if n == usize::MAX {
        n
    } else {
        (n + 1) as usize
    }
}

/// The fusion lines of the first `j` keys of cube `c` that name `pn`,
/// numbered from `n`; and the next number.
pub open spec fn fusion_lines(v: DllView, pn: Seq<char>, c: int, j: nat, n: usize) -> (Seq<char>, usize)
    decreases j,
{
    let fb = v.cubes[c].fused_by;
    if j == 0 || j > fb.len() {
        (no_text(), n)
    } else {
        let (t, m) = fusion_lines(v, pn, c, (j - 1) as nat, n);
        if key_mentions(fb[j - 1].0, pn) {
            (t + nat_decimal(m as nat) + ": "@ + v.cubes[c].name + " made with "@ + key_text(fb[j - 1].0) + "\n"@, next_count(m))
        } else {
            (t, m)
        }
    }
}

/// The fusion lines of the first `i` cubes of the map; and the next number.
pub open spec fn fusions_fold(v: DllView, pn: Seq<char>, i: nat) -> (Seq<char>, usize)
    decreases i,
{
    if i == 0 || i > v.hashmap.len() {
        (no_text(), 1)
    } else {
        let (t, n) = fusions_fold(v, pn, (i - 1) as nat);
        let c = v.hashmap[i - 1].1 as int;
        let (t2, n2) = fusion_lines(v, pn, c, v.cubes[c].fused_by.len(), n);
        (t + t2, n2)
    }
}

/// `get_fusions_at_p`: every key of every cube that names the pointed cube,
/// numbered from 1.
pub open spec fn spec_fusions(v: DllView) -> (Seq<char>, Result<(), ErrView>) {
    match v.pointer {
        None => (no_text(), Err(ErrView::NullPointer("CubeDLL::change_tier_at_p"@))),
        Some(p) => (fusions_fold(v, v.cubes[p as int].name, v.hashmap.len()).0, Ok(())),
    }
}

/// The single keys among the first `j` keys of `fb`, noted under `n`.
pub open spec fn singles_text(n: Seq<char>, fb: Seq<(KeyView, (usize, usize))>, j: nat) -> Seq<char>
    decreases j,
{
    if j == 0 || j > fb.len() {
        no_text()
    } else {
        singles_text(n, fb, (j - 1) as nat) + if fb[j - 1].0 is Single {
            n + " contains a single fuse key "@ + key_text(fb[j - 1].0) + "\n"@
        } else {
            no_text()
        }
    }
}

/// The open tasks of the cube bound to `n` (none for the unknown cube):
/// tier -1, no links, single keys.
pub open spec fn todo_entry(v: DllView, n: Seq<char>, c: int) -> Seq<char> {
    let cube = v.cubes[c];
    if n == unknown_name() {
        no_text()
    } else {
        (if cube.tier == -1 {
            n + " cube has tier -1\n"@
        } else {
            no_text()
        }) + (if cube.fused_by.len() == 0 && cube.converts_to.len() == 0 {
            n + " cube is an orphan (No links added)\n"@
        } else {
            no_text()
        }) + singles_text(n, cube.fused_by, cube.fused_by.len())
    }
}

/// The tasks of the first `i` cubes of the map.
pub open spec fn todo_fold(v: DllView, i: nat) -> Seq<char>
    decreases i,
{
    if i == 0 || i > v.hashmap.len() {
        no_text()
    } else {
        todo_fold(v, (i - 1) as nat) + todo_entry(v, v.hashmap[i - 1].0, v.hashmap[i - 1].1 as int)
    }
}

/// The first `j` keys of `fb`, each followed by `, `.
pub open spec fn keys_listed(fb: Seq<(KeyView, (usize, usize))>, j: nat) -> Seq<char>
    decreases j,
{
    if j == 0 || j > fb.len() {
        no_text()
    } else {
        keys_listed(fb, (j - 1) as nat) + key_text(fb[j - 1].0) + ", "@
    }
}

/// What `print_todo` writes: the tasks of every cube, then the keys of the
/// unknown cube when there is one.
pub open spec fn todo_text(v: DllView) -> Seq<char> {
    todo_fold(v, v.hashmap.len()) + match v.lookup(unknown_name()) {
        Some(q) => "Printing fusion keys to unknown '?' Cubes\n"@ + keys_listed(v.cubes[q as int].fused_by, v.cubes[q as int].fused_by.len())
            + "\n\n"@,
        None => no_text(),
    }
}

/// The save line of cube `c`: `n: NAME; t: TIER; fb: KEYS; ct: NAMES;`.
pub open spec fn save_line(v: DllView, c: int) -> Seq<char> {
    let cube = v.cubes[c];
    "n: "@ + cube.name + "; t: "@ + int_decimal(cube.tier as int) + "; fb: "@ + joined(fb_items(cube.fused_by, KeyStyle::Save))
        + "; ct: "@ + joined(ct_items(v, cube.converts_to, CtStyle::Keys)) + seq![';']
}

/// `idx` and `pos` match the entries of `r` and `s` both ways.
pub open spec fn matched(r: Seq<(Seq<char>, usize)>, s: Seq<(Seq<char>, usize)>, idx: Seq<int>, pos: Seq<int>) -> bool {
    &&& idx.len() == r.len()
    &&& pos.len() == s.len()
    &&& forall|a: int| 0 <= a < r.len() ==> 0 <= #[trigger] idx[a] < s.len() && r[a] == s[idx[a]]
    &&& forall|j: int| 0 <= j < s.len() ==> 0 <= #[trigger] pos[j] < r.len() && r[pos[j]] == s[j]
}

/// `r` holds the entries of `s` ordered by name: no name comes after a
/// name below it.
pub open spec fn sorted_by_name(r: Seq<(Seq<char>, usize)>, s: Seq<(Seq<char>, usize)>) -> bool {
    &&& r.len() == s.len()
    &&& (forall|a: int, b: int| 0 <= a < b < r.len() ==> !seq_lt(#[trigger] r[b].0, #[trigger] r[a].0))
    &&& exists|idx: Seq<int>, pos: Seq<int>| #[trigger] matched(r, s, idx, pos)
}

/// The save lines of the entries `es`, each ended by a line break.
pub open spec fn save_fold(v: DllView, es: Seq<(Seq<char>, usize)>, i: nat) -> Seq<char>
    decreases i,
{
    if i == 0 || i > es.len() {
        no_text()
    } else {
        save_fold(v, es, (i - 1) as nat) + save_line(v, es[i - 1].1 as int) + "\n"@
    }
}

/// What a save file holds: the save line of every cube of the map, in the
/// order of the names the map binds them to.
pub open spec fn save_text(v: DllView, r: Seq<char>) -> bool {
    exists|es: Seq<(Seq<char>, usize)>| sorted_by_name(es, v.hashmap) && r == save_fold(v, es, es.len())
}

/// The save text of graph `v`: the save lines of the cubes of the map,
/// sorted by name.
pub open spec fn save_file(v: DllView) -> Seq<char> {
    save_fold(v, isort(v.hashmap), v.hashmap.len())
}

/// Writes `s` in quotes.
fn put_quoted(out: &mut String, s: &str)
    ensures
        final(out)@ == old(out)@ + quoted(s@),
{
    let ghost o = out@;
    push_char(out, '"');
    put(out, s);
    push_char(out, '"');
    assert(out@ =~= o + quoted(s@));
}

/// Writes key `k` in style `st`.
fn put_key_styled(out: &mut String, k: &FuseKey, st: &KeyStyle)
    ensures
        final(out)@ == old(out)@ + key_styled(*st, k@),
{
    let ghost o = out@;
    match (st, k) {
        (KeyStyle::Info, FuseKey::Pair(a, b)) => {
            push_char(out, '[');
            put(out, a.as_str());
            push_char(out, '|');
            put(out, b.as_str());
            push_char(out, ']');
        },
        (KeyStyle::Path, FuseKey::Pair(a, b)) => {
            put_quoted(out, a.as_str());
            push_char(out, '|');
            put_quoted(out, b.as_str());
        },
        (KeyStyle::Save, FuseKey::Pair(a, b)) => {
            put(out, a.as_str());
            push_char(out, '|');
            put(out, b.as_str());
        },
        (KeyStyle::Path, FuseKey::Single(a)) => {
            put_quoted(out, a.as_str());
            push_char(out, '?');
        },
        (_, FuseKey::Single(a)) => {
            put(out, a.as_str());
            push_char(out, '?');
        },
    }
    assert(out@ =~= o + key_styled(*st, k@));
}

/// Inserting `x` where the scan stopped keeps the entries sorted.
proof fn lemma_insert_sorted(rv: Seq<(Seq<char>, usize)>, x: (Seq<char>, usize), k: int)
    requires
        0 <= k <= rv.len(),
        k == rv.len() || seq_lt(x.0, rv[k].0),
        forall|a: int| 0 <= a < k ==> !seq_lt(x.0, #[trigger] rv[a].0),
        forall|a: int, b: int| 0 <= a < b < rv.len() ==> !seq_lt(#[trigger] rv[b].0, #[trigger] rv[a].0),
    ensures
        forall|a: int, b: int| 0 <= a < b < rv.insert(k, x).len() ==> !seq_lt(#[trigger] rv.insert(k, x)[b].0, #[trigger] rv.insert(k, x)[a].0),
{
    let r2 = rv.insert(k, x);
    assert forall|a: int, b: int| 0 <= a < b < r2.len() implies !seq_lt(#[trigger] r2[b].0, #[trigger] r2[a].0) by {
        if a < k && b == k {
        } else if a == k && b > k {
            assert(r2[b] == rv[b - 1]);
            lemma_seq_lt_order(rv[b - 1].0, x.0, rv[k].0);
            lemma_seq_lt_order(x.0, rv[k].0, rv[k].0);
            if b - 1 > k {
                lemma_seq_lt_order(rv[b - 1].0, x.0, rv[k].0);
            }
        } else if a < k && b > k {
            assert(r2[b] == rv[b - 1]);
        } else if a > k {
            assert(r2[a] == rv[a - 1] && r2[b] == rv[b - 1]);
        }
    }
}

/// Where an insertion sort puts name `x` in the sorted entries `r`: before
/// the first entry, from the `k`-th on, whose name is above `x`.
pub open spec fn ins_pos(r: Seq<(Seq<char>, usize)>, x: Seq<char>, k: nat) -> nat
    decreases r.len() - k,
{
    if k >= r.len() {
        r.len()
    } else if seq_lt(x, r[k as int].0) {
        k
    } else {
        ins_pos(r, x, k + 1)
    }
}

/// The entries of `s` sorted by name by insertion, one after another (so
/// entries of equal names keep their order).
pub open spec fn isort(s: Seq<(Seq<char>, usize)>) -> Seq<(Seq<char>, usize)>
    decreases s.len(),
{
    if s.len() == 0 {
        s
    } else {
        let r = isort(s.drop_last());
        r.insert(ins_pos(r, s.last().0, 0) as int, s.last())
    }
}

/// The entries of `s` ordered by name.
pub fn sort_by_name(s: &Vec<(String, usize)>) -> (r: Vec<(String, usize)>)
    ensures
        sorted_by_name(named_view(r@), named_view(s@)),
        named_view(r@) == isort(named_view(s@)),
{
    let ghost sv = named_view(s@);
    let mut r: Vec<(String, usize)> = Vec::new();
    let ghost mut idx: Seq<int> = Seq::empty();
    let ghost mut pos: Seq<int> = Seq::empty();
    let mut i: usize = 0;
    while i < s.len()
        invariant
            sv == named_view(s@),
            i <= s.len(),
            named_view(r@).len() == i,
            idx.len() == i,
            pos.len() == i,
            forall|a: int, b: int| 0 <= a < b < r@.len() ==> !seq_lt(#[trigger] named_view(r@)[b].0, #[trigger] named_view(r@)[a].0),
            forall|a: int| 0 <= a < i ==> 0 <= #[trigger] idx[a] < i && named_view(r@)[a] == sv[idx[a]],
            forall|j: int| 0 <= j < i ==> 0 <= #[trigger] pos[j] < i && named_view(r@)[pos[j]] == sv[j],
            named_view(r@) == isort(sv.subrange(0, i as int)),
        decreases s.len() - i,
    {
        let ghost rv = named_view(r@);
        let x = (s[i].0.clone(), s[i].1);
        let ghost xv = (x.0@, x.1);
        assert(xv == sv[i as int]);
        let mut k: usize = 0;
        loop
            invariant
                k <= r@.len(),
                rv == named_view(r@),
                xv == (x.0@, x.1),
                forall|a: int| 0 <= a < k ==> !seq_lt(xv.0, #[trigger] rv[a].0),
                ins_pos(rv, xv.0, 0) == ins_pos(rv, xv.0, k as nat),
            ensures
                k <= r@.len(),
                k == r@.len() || seq_lt(xv.0, rv[k as int].0),
                forall|a: int| 0 <= a < k ==> !seq_lt(xv.0, #[trigger] rv[a].0),
                ins_pos(rv, xv.0, 0) == k,
            decreases r.len() - k,
        {
            if k >= r.len() {
                break;
            }
            assert(rv[k as int].0 == r@[k as int].0@);
            if text_lt(x.0.as_str(), r[k].0.as_str()) {
                break;
            }
            k = k + 1;
        }
        r.insert(k, x);
        proof {
            assert(named_view(r@) =~= rv.insert(k as int, xv));
            let si = sv.subrange(0, i + 1);
            assert(si.drop_last() =~= sv.subrange(0, i as int));
            assert(si.last() == xv);
            lemma_insert_sorted(rv, xv, k as int);
            let idx2 = idx.insert(k as int, i as int);
            let pos2 = pos.map_values(|p: int| if p >= k { p + 1 } else { p }).push(k as int);
            assert forall|a: int| 0 <= a < i + 1 implies 0 <= #[trigger] idx2[a] < i + 1 && named_view(r@)[a] == sv[idx2[a]] by {
                if a > k {
                    assert(idx2[a] == idx[a - 1]);
                } else if a < k {
                    assert(idx2[a] == idx[a]);
                }
            }
            assert forall|j: int| 0 <= j < i + 1 implies 0 <= #[trigger] pos2[j] < i + 1 && named_view(r@)[pos2[j]] == sv[j] by {
                if j < i {
                    assert(pos2[j] == if pos[j] >= k { pos[j] + 1 } else { pos[j] });
                }
            }
            idx = idx2;
            pos = pos2;
        }
        i = i + 1;
    }
    proof {
        let rv = named_view(r@);
        assert(rv.len() == sv.len());
        assert(matched(rv, sv, idx, pos));
        assert(sv.subrange(0, sv.len() as int) =~= sv);
    }
    r
}

impl CubeDLL {
    /// The keys of cube `c` in style `st`, joined with commas.
    pub fn fb_joined(&self, c: usize, st: KeyStyle) -> (r: String)
        requires
            c < self@.cubes.len(),
        ensures
            r@ == joined(fb_items(self@.cubes[c as int].fused_by, st)),
    {
        let ghost fb = self@.cubes[c as int].fused_by;
        let ghost items = fb_items(fb, st);
        assert(self.cubes@[c as int]@.fused_by == fb);
        let mut r = String::new();
        let m = self.cubes[c].fused_by.len();
        let mut j: usize = 0;
        assert(items.take(0) =~= Seq::<Seq<char>>::empty());
        while j < m
            invariant
                j <= m,
                m == fb.len(),
                c < self.cubes@.len(),
                keyed_view(self.cubes@[c as int].fused_by@) == fb,
                items == fb_items(fb, st),
                r@ == joined(items.take(j as int)),
            decreases m - j,
        {
            let ghost before = r@;
            if j > 0 {
                push_char(&mut r, ',');
            }
            let ghost mid = r@;
            put_key_styled(&mut r, &self.cubes[c].fused_by[j].0, &st);
            proof {
                assert(items[j as int] == key_styled(st, fb[j as int].0));
                lemma_joined_push(items.take(j as int), items[j as int]);
                assert(items.take(j + 1) =~= items.take(j as int).push(items[j as int]));
                assert(r@ =~= joined(items.take(j + 1)));
            }
            j = j + 1;
        }
        assert(items.take(m as int) =~= items);
        r
    }

    /// The conversions of cube `c` in style `st`, joined with commas.
    pub fn ct_joined(&self, c: usize, st: CtStyle) -> (r: String)
        requires
            self@.wf(),
            c < self@.cubes.len(),
        ensures
            r@ == joined(ct_items(self@, self@.cubes[c as int].converts_to, st)),
    {
        let ghost v = self@;
        let ghost ct = v.cubes[c as int].converts_to;
        let ghost items = ct_items(v, ct, st);
        assert(self.cubes@[c as int]@.converts_to == ct);
        assert(v.cubes[c as int].wf(v.cubes.len()));
        let mut r = String::new();
        let m = self.cubes[c].converts_to.len();
        let mut j: usize = 0;
        assert(items.take(0) =~= Seq::<Seq<char>>::empty());
        while j < m
            invariant
                j <= m,
                m == ct.len(),
                c < v.cubes.len(),
                self@ == v,
                v.wf(),
                self.cubes@.len() == v.cubes.len(),
                crate::assoc::ids_below(ct, v.cubes.len()),
                named_view(self.cubes@[c as int].converts_to@) == ct,
                items == ct_items(v, ct, st),
                r@ == joined(items.take(j as int)),
            decreases m - j,
        {
            if j > 0 {
                push_char(&mut r, ',');
            }
            let e = &self.cubes[c].converts_to[j];
            assert(e.0@ == ct[j as int].0 && e.1 == ct[j as int].1);
            match st {
                CtStyle::TargetNames => {
                    assert(ct[j as int].1 < v.cubes.len());
                    assert(self.cubes@[e.1 as int]@ == v.cubes[e.1 as int]);
                    put_quoted(&mut r, self.cubes[e.1].name.as_str());
                },
                CtStyle::QuotedKeys => {
                    put_quoted(&mut r, e.0.as_str());
                },
                CtStyle::Keys => {
                    put(&mut r, e.0.as_str());
                },
            }
            proof {
                assert(items[j as int] == ct_styled(v, st, ct[j as int]));
                lemma_joined_push(items.take(j as int), items[j as int]);
                assert(items.take(j + 1) =~= items.take(j as int).push(items[j as int]));
                assert(r@ =~= joined(items.take(j + 1)));
            }
            j = j + 1;
        }
        assert(items.take(m as int) =~= items);
        r
    }

    /// The description of cube `c`.
    pub fn cube_text(&self, c: usize) -> (r: String)
        requires
            self@.wf(),
            c < self@.cubes.len(),
        ensures
            r@ == cube_text(self@, c as int),
    {
        let ghost v = self@;
        assert(self.cubes@[c as int]@ == v.cubes[c as int]);
        let con_to = if self.cubes[c].converts_to.len() == 0 {
            string_of("(None)")
        } else {
            self.ct_joined(c, CtStyle::TargetNames)
        };
        let fus_by = self.fb_joined(c, KeyStyle::Info);
        let mut r = String::new();
        put(&mut r, "CubeStruct{ name:[\"");
        put(&mut r, self.cubes[c].name.as_str());
        put(&mut r, "\"], tier:[");
        let t = i32_text(self.cubes[c].tier);
        put(&mut r, t.as_str());
        put(&mut r, "], converts_to:[");
        put(&mut r, con_to.as_str());
        put(&mut r, "], fused_by:[");
        put(&mut r, fus_by.as_str());
        put(&mut r, "] }");
        assert(r@ =~= cube_text(v, c as int));
        r
    }
    /// `get_info_p`: the description of the pointed cube, then that of each
    /// cube it converts to (found by name in the map); false when one of
    /// them is not in the map (nothing more is written).
    #[verifier::loop_isolation(false)]
    pub fn get_info_p(&self, out: &mut String) -> (complete: bool)
        requires
            self@.wf(),
            self@.pointer is Some,
        ensures
            final(out)@ == old(out)@ + info_text(self@, self@.pointer->0 as int),
            complete == info_ok(self@, self@.pointer->0 as int),
    {
        let ghost v = self@;
        let ghost o = out@;
        let p = match self.pointer {
            Some(p) => p,
            None => {
                return true;
            },
        };
        let ghost ct = v.cubes[p as int].converts_to;
        put(out, "Info of cube pointer: ");
        let t = self.cube_text(p);
        put(out, t.as_str());
        put(out, "\n");
        let ghost o1 = out@;
        assert(self.cubes@[p as int]@.converts_to == ct);
        let m = self.cubes[p].converts_to.len();
        let mut j: usize = 0;
        while j < m
            invariant
                j <= m,
                m == ct.len(),
                p < v.cubes.len(),
                self@ == v,
                v.wf(),
                v.pointer == Some(p),
                ct == v.cubes[p as int].converts_to,
                named_view(self.cubes@[p as int].converts_to@) == ct,
                out@ == o1 + assoc_fold(v, ct, j as nat),
                first_missing(v, ct, 0) == first_missing(v, ct, j as nat),
                forall|i: int| 0 <= i < j ==> has_key(v.hashmap, #[trigger] ct[i].0),
                o1 == o + "Info of cube pointer: "@ + cube_text(v, p as int) + "\n"@,
            decreases m - j,
        {
            let name = &self.cubes[p].converts_to[j].0;
            assert(name@ == ct[j as int].0);
            proof {
                lemma_find_key(v.hashmap, name@);
            }
            let id = match named_get(&self.hashmap, name) {
                Some(id) => id,
                None => {
                    assert(!has_key(v.hashmap, v.cubes[p as int].converts_to[j as int].0));
                    assert(first_missing(v, ct, j as nat) == j);
                    assert(out@ =~= o + info_text(v, p as int));
                    return false;
                },
            };
            assert(v.hashmap[crate::assoc::find_key(v.hashmap, name@)].1 < v.cubes.len());
            put(out, "Associated fusions: ");
            let t2 = self.cube_text(id);
            put(out, t2.as_str());
            put(out, "\n");
            assert(out@ =~= o1 + assoc_fold(v, ct, (j + 1) as nat));
            j = j + 1;
        }
        assert(out@ =~= o + info_text(v, p as int));
        true
    }

    /// The path line of cube `c`.
    pub fn path_text(&self, c: usize) -> (r: String)
        requires
            self@.wf(),
            c < self@.cubes.len(),
        ensures
            r@ == path_text(self@, c as int),
    {
        let ghost v = self@;
        assert(self.cubes@[c as int]@ == v.cubes[c as int]);
        let mut r = String::new();
        put(&mut r, "fused_by: [");
        let k = self.fb_joined(c, KeyStyle::Path);
        put(&mut r, k.as_str());
        put(&mut r, "]");
        put(&mut r, " => [[\"");
        put(&mut r, self.cubes[c].name.as_str());
        put(&mut r, "\"]](");
        let t = i32_text(self.cubes[c].tier);
        put(&mut r, t.as_str());
        put(&mut r, ") => ");
        put(&mut r, "converts_to: [");
        let n = self.ct_joined(c, CtStyle::QuotedKeys);
        put(&mut r, n.as_str());
        push_char(&mut r, ']');
        assert(r@ =~= path_text(v, c as int));
        r
    }

    /// `get_info_cube_paths`: a header, then the path line of every cube in
    /// the map.
    pub fn get_info_cube_paths(&self, out: &mut String)
        requires
            self@.wf(),
        ensures
            final(out)@ == old(out)@ + paths_text(self@),
    {
        let ghost v = self@;
        let ghost o = out@;
        put(out, "Syntax: fused_by: [fuse key array (single/pair)] => [[this cube name]](tier) => converts_to: [cube name array]\n");
        let ghost o1 = out@;
        let mut i: usize = 0;
        while i < self.hashmap.len()
            invariant
                i <= v.hashmap.len(),
                self@ == v,
                v.wf(),
                out@ == o1 + paths_fold(v, i as nat),
            decreases self.hashmap.len() - i,
        {
            let c = self.hashmap[i].1;
            assert(v.hashmap[i as int] == (self.hashmap@[i as int].0@, self.hashmap@[i as int].1));
            assert(c == v.hashmap[i as int].1 && c < v.cubes.len());
            let t = self.path_text(c);
            put(out, t.as_str());
            put(out, "\n");
            assert(out@ =~= o1 + paths_fold(v, (i + 1) as nat));
            i = i + 1;
        }
        assert(out@ =~= o + paths_text(v));
    }

    /// `get_fusions_at_p`: numbers every key of every cube that names the
    /// pointed cube, from 1.
    pub fn get_fusions_at_p(&self, out: &mut String) -> (r: CSResult<()>)
        requires
            self@.wf(),
        ensures
            final(out)@ == old(out)@ + spec_fusions(self@).0,
            outcome(r) == spec_fusions(self@).1,
    {
        let ghost v = self@;
        let ghost o = out@;
        let p = match self.pointer {
            Some(p) => p,
            None => {
                assert(out@ =~= o + no_text());
                return Err(CSError::NullPointer("CubeDLL::change_tier_at_p"));
            },
        };
        let ghost pn = v.cubes[p as int].name;
        let mut count: usize = 1;
        let mut i: usize = 0;
        assert(self.cubes@[p as int]@.name == pn);
        while i < self.hashmap.len()
            invariant
                i <= v.hashmap.len(),
                self@ == v,
                v.wf(),
                p < v.cubes.len(),
                self.cubes@.len() == v.cubes.len(),
                self.cubes@[p as int].name@ == pn,
                out@ == o + fusions_fold(v, pn, i as nat).0,
                count == fusions_fold(v, pn, i as nat).1,
            decreases self.hashmap.len() - i,
        {
            let c = self.hashmap[i].1;
            assert(v.hashmap[i as int] == (self.hashmap@[i as int].0@, self.hashmap@[i as int].1));
            assert(c == v.hashmap[i as int].1 && c < v.cubes.len());
            let ghost fb = v.cubes[c as int].fused_by;
            let ghost o1 = out@;
            let ghost n0 = count;
            assert(self.cubes@[c as int]@ == v.cubes[c as int]);
            let m = self.cubes[c].fused_by.len();
            let mut j: usize = 0;
            while j < m
                invariant
                    j <= m,
                    m == fb.len(),
                    c < v.cubes.len(),
                    p < v.cubes.len(),
                    self@ == v,
                    self.cubes@.len() == v.cubes.len(),
                    self.cubes@[p as int].name@ == pn,
                    self.cubes@[c as int]@ == v.cubes[c as int],
                    fb == v.cubes[c as int].fused_by,
                    out@ == o1 + fusion_lines(v, pn, c as int, j as nat, n0).0,
                    count == fusion_lines(v, pn, c as int, j as nat, n0).1,
                decreases m - j,
            {
                let k = &self.cubes[c].fused_by[j].0;
                assert(k@ == fb[j as int].0);
                if k.contains_key(&self.cubes[p].name) {
                    let ghost o2 = out@;
                    let num = usize_text(count);
                    put(out, num.as_str());
                    put(out, ": ");
                    put(out, self.cubes[c].name.as_str());
                    put(out, " made with ");
                    let kt = k.to_text();
                    put(out, kt.as_str());
                    put(out, "\n");
                    assert(out@ =~= o1 + fusion_lines(v, pn, c as int, (j + 1) as nat, n0).0);
                    count = if count < usize::MAX {
                        count + 1
                    } else {
                        count
                    };
                }
                j = j + 1;
            }
            assert(out@ =~= o + fusions_fold(v, pn, (i + 1) as nat).0);
            i = i + 1;
        }
        Ok(())
    }

    /// `print_todo`: the open tasks of every cube, then the keys of the
    /// unknown cube when there is one.
    pub fn print_todo(&self, out: &mut String)
        requires
            self@.wf(),
        ensures
            final(out)@ == old(out)@ + todo_text(self@),
    {
        let ghost v = self@;
        let ghost o = out@;
        let mut i: usize = 0;
        while i < self.hashmap.len()
            invariant
                i <= v.hashmap.len(),
                self@ == v,
                v.wf(),
                self.cubes@.len() == v.cubes.len(),
                out@ == o + todo_fold(v, i as nat),
            decreases self.hashmap.len() - i,
        {
            let name = &self.hashmap[i].0;
            let c = self.hashmap[i].1;
            assert(v.hashmap[i as int] == (self.hashmap@[i as int].0@, self.hashmap@[i as int].1));
            assert(c == v.hashmap[i as int].1 && c < v.cubes.len() && name@ == v.hashmap[i as int].0);
            assert(self.cubes@[c as int]@ == v.cubes[c as int]);
            let ghost o1 = out@;
            if !str_eq(name.as_str(), "?") {
                if self.cubes[c].tier == -1 {
                    put(out, name.as_str());
                    put(out, " cube has tier -1\n");
                }
                if self.cubes[c].fused_by.len() == 0 && self.cubes[c].converts_to.len() == 0 {
                    put(out, name.as_str());
                    put(out, " cube is an orphan (No links added)\n");
                }
                let ghost o2 = out@;
                let ghost fb = v.cubes[c as int].fused_by;
                let m = self.cubes[c].fused_by.len();
                let mut j: usize = 0;
                while j < m
                    invariant
                        j <= m,
                        m == fb.len(),
                        c < v.cubes.len(),
                        self.cubes@.len() == v.cubes.len(),
                        self.cubes@[c as int]@ == v.cubes[c as int],
                        fb == v.cubes[c as int].fused_by,
                        out@ == o2 + singles_text(name@, fb, j as nat),
                    decreases m - j,
                {
                    let k = &self.cubes[c].fused_by[j].0;
                    assert(k@ == fb[j as int].0);
                    if let FuseKey::Single(_) = k {
                        put(out, name.as_str());
                        put(out, " contains a single fuse key ");
                        let kt = k.to_text();
                        put(out, kt.as_str());
                        put(out, "\n");
                    }
                    assert(out@ =~= o2 + singles_text(name@, fb, (j + 1) as nat));
                    j = j + 1;
                }
            }
            assert(out@ =~= o + todo_fold(v, (i + 1) as nat));
            i = i + 1;
        }
        let ghost o3 = out@;
        match self.lookup(&string_of("?")) {
            Some(q) => {
                put(out, "Printing fusion keys to unknown '?' Cubes\n");
                let ghost o4 = out@;
                let ghost fb = v.cubes[q as int].fused_by;
                assert(self.cubes@[q as int]@ == v.cubes[q as int]);
                let m = self.cubes[q].fused_by.len();
                let mut j: usize = 0;
                while j < m
                    invariant
                        j <= m,
                        m == fb.len(),
                        q < v.cubes.len(),
                        self.cubes@.len() == v.cubes.len(),
                        self.cubes@[q as int]@ == v.cubes[q as int],
                        fb == v.cubes[q as int].fused_by,
                        out@ == o4 + keys_listed(fb, j as nat),
                    decreases m - j,
                {
                    let kt = self.cubes[q].fused_by[j].0.to_text();
                    assert(self.cubes@[q as int].fused_by@[j as int].0@ == fb[j as int].0);
                    put(out, kt.as_str());
                    put(out, ", ");
                    assert(out@ =~= o4 + keys_listed(fb, (j + 1) as nat));
                    j = j + 1;
                }
                put(out, "\n\n");
                assert(out@ =~= o + todo_text(v));
            },
            None => {
                assert(out@ =~= o + todo_text(v));
            },
        }
    }

    /// `save_write_str`: the save line of cube `c`.
    pub fn save_write_str(&self, c: usize) -> (r: String)
        requires
            self@.wf(),
            c < self@.cubes.len(),
        ensures
            r@ == save_line(self@, c as int),
    {
        let ghost v = self@;
        assert(self.cubes@[c as int]@ == v.cubes[c as int]);
        let mut r = String::new();
        put(&mut r, "n: ");
        put(&mut r, self.cubes[c].name.as_str());
        put(&mut r, "; t: ");
        let t = i32_text(self.cubes[c].tier);
        put(&mut r, t.as_str());
        put(&mut r, "; fb: ");
        let k = self.fb_joined(c, KeyStyle::Save);
        put(&mut r, k.as_str());
        put(&mut r, "; ct: ");
        let n = self.ct_joined(c, CtStyle::Keys);
        put(&mut r, n.as_str());
        push_char(&mut r, ';');
        assert(r@ =~= save_line(v, c as int));
        r
    }
    /// The text of a save file: the save line of every cube in the map, in
    /// the order of their names, each ended by a line break.
    pub fn save_text(&self) -> (r: String)
        requires
            self@.wf(),
        ensures
            save_text(self@, r@),
            r@ == save_file(self@),
    {
        let ghost v = self@;
        let es = sort_by_name(&self.hashmap);
        let ghost ev = named_view(es@);
        let mut r = String::new();
        let mut i: usize = 0;
        while i < es.len()
            invariant
                self@ == v,
                v.wf(),
                ev == named_view(es@),
                sorted_by_name(ev, v.hashmap),
                i <= es.len(),
                r@ == save_fold(v, ev, i as nat),
            decreases es.len() - i,
        {
            let c = es[i].1;
            assert(ev[i as int].1 == c);
            proof {
                let (idx, pos) = choose|idx: Seq<int>, pos: Seq<int>| #[trigger] matched(ev, v.hashmap, idx, pos);
                assert(v.hashmap[idx[i as int]].1 < v.cubes.len());
            }
            let line = self.save_write_str(c);
            put(&mut r, line.as_str());
            put(&mut r, "\n");
            assert(r@ =~= save_fold(v, ev, (i + 1) as nat));
            i = i + 1;
        }
        r
    }
}


/// How the graph describes itself: the quoted name of the pointed cube (or
/// `(None)`), and the quoted names of the cubes of the map.
pub open spec fn dll_text(v: DllView) -> Seq<char> {
    let p = match v.pointer {
        Some(c) => quoted(v.cubes[c as int].name),
        None => "(None)"@,
    };
    "CubeDLL{ pointer:["@ + p + "], hashmap:["@ + joined(map_names(v)) + "] }"@
}

/// The quoted names of the cubes of the map, in map order.
pub open spec fn map_names(v: DllView) -> Seq<Seq<char>> {
    v.hashmap.map_values(|e: (Seq<char>, usize)| quoted(v.cubes[e.1 as int].name))
}

impl CubeDLL {
    /// The description of the graph.
    pub fn dll_text(&self) -> (r: String)
        requires
            self@.wf(),
        ensures
            r@ == dll_text(self@),
    {
        let ghost v = self@;
        let ghost items = map_names(v);
        let mut r = String::new();
        put(&mut r, "CubeDLL{ pointer:[");
        match self.pointer {
            Some(c) => {
                assert(self.cubes@[c as int]@ == v.cubes[c as int]);
                put_quoted(&mut r, self.cubes[c].name.as_str());
            },
            None => {
                put(&mut r, "(None)");
            },
        }
        put(&mut r, "], hashmap:[");
        let ghost r0 = r@;
        let mut j: usize = 0;
        assert(items.take(0) =~= Seq::<Seq<char>>::empty());
        while j < self.hashmap.len()
            invariant
                j <= v.hashmap.len(),
                self@ == v,
                v.wf(),
                items == map_names(v),
                r@ == r0 + joined(items.take(j as int)),
            decreases self.hashmap.len() - j,
        {
            if j > 0 {
                push_char(&mut r, ',');
            }
            let c = self.hashmap[j].1;
            assert(v.hashmap[j as int] == (self.hashmap@[j as int].0@, self.hashmap@[j as int].1));
            assert(c < v.cubes.len());
            assert(self.cubes@[c as int]@ == v.cubes[c as int]);
            put_quoted(&mut r, self.cubes[c].name.as_str());
            proof {
                lemma_joined_push(items.take(j as int), items[j as int]);
                assert(items.take(j + 1) =~= items.take(j as int).push(items[j as int]));
            }
            assert(r@ =~= r0 + joined(items.take(j + 1)));
            j = j + 1;
        }
        assert(items.take(self.hashmap.len() as int) =~= items);
        put(&mut r, "] }");
        assert(r@ =~= dll_text(v));
        r
    }
}

} // verus!
