//! Reading a save file back. The text is cut at white space; the labels
//! `n:`, `t:`, `fb:` and `ct:` and every fourth remaining field (the
//! conversions, which linking rebuilds) are dropped; each remaining triple
//! `NAME; TIER; KEYS;` adds a cube, and the keys are linked once every cube
//! is there.
use vstd::prelude::*;
use crate::cube::{step_outcome, CubeDLL, CubeStruct, DllView, empty_dll, fresh_cube, spec_add, spec_point_to, spec_link_pair, spec_link_single, put, no_text};
use crate::error::{CSError, CSResult, ErrView, outcome};
use crate::names::{valid_cube_name, check_valid_cube_name};
use crate::text::{IntParse, i32_parse, parse_i32, nat_decimal, usize_text, chars_of, string_from_chars, string_of};

verus! {

/// `c` has the Unicode property White_Space (what `char::is_whitespace` tests).
pub open spec fn is_ws(c: char) -> bool {
    ('\u{9}' <= c && c <= '\u{d}') || c == ' ' || c == '\u{85}' || c == '\u{a0}' || c == '\u{1680}'
        || ('\u{2000}' <= c && c <= '\u{200a}') || c == '\u{2028}' || c == '\u{2029}' || c == '\u{202f}'
        || c == '\u{205f}' || c == '\u{3000}'
}

/// The words of the first `i` characters of `s`, and the word being read.
pub open spec fn tok_fold(s: Seq<char>, i: nat) -> (Seq<Seq<char>>, Seq<char>)
    decreases i,
{
    if i == 0 || i > s.len() {
        (Seq::empty(), Seq::empty())
    } else {
        let (d, cur) = tok_fold(s, (i - 1) as nat);
        if is_ws(s[i - 1]) {
            if cur.len() > 0 {
                (d.push(cur), Seq::empty())
            } else {
                (d, Seq::empty())
            }
        } else {
            (d, cur.push(s[i - 1]))
        }
    }
}

/// The words of `s`: its longest runs without white space, in order
/// (`str::split_whitespace`).
pub open spec fn tokens(s: Seq<char>) -> Seq<Seq<char>> {
    let (d, cur) = tok_fold(s, s.len());
    if cur.len() > 0 {
        d.push(cur)
    } else {
        d
    }
}

/// The pieces of the first `i` characters of `s` cut at `c`, and the piece
/// being read.
pub open spec fn split_fold(s: Seq<char>, c: char, i: nat) -> (Seq<Seq<char>>, Seq<char>)
    decreases i,
{
    if i == 0 || i > s.len() {
        (Seq::empty(), Seq::empty())
    } else {
        let (d, cur) = split_fold(s, c, (i - 1) as nat);
        if s[i - 1] == c {
            (d.push(cur), Seq::empty())
        } else {
            (d, cur.push(s[i - 1]))
        }
    }
}

/// The pieces of `s` between the characters `c` (`str::split`; at least one).
pub open spec fn split_on(s: Seq<char>, c: char) -> Seq<Seq<char>> {
    let (d, cur) = split_fold(s, c, s.len());
    d.push(cur)
}

/// A field label of the save format.
pub open spec fn is_label(t: Seq<char>) -> bool {
    t == seq!['n', ':'] || t == seq!['t', ':'] || t == seq!['f', 'b', ':'] || t == seq!['c', 't', ':']
}

/// The first `i` words without the labels.
pub open spec fn unlabeled(ts: Seq<Seq<char>>, i: nat) -> Seq<Seq<char>>
    decreases i,
{
    if i == 0 || i > ts.len() {
        Seq::empty()
    } else if is_label(ts[i - 1]) {
        unlabeled(ts, (i - 1) as nat)
    } else {
        unlabeled(ts, (i - 1) as nat).push(ts[i - 1])
    }
}

/// The first `i` words without every fourth one (positions 3, 7, ...).
pub open spec fn thinned(ts: Seq<Seq<char>>, i: nat) -> Seq<Seq<char>>
    decreases i,
{
    if i == 0 || i > ts.len() {
        Seq::empty()
    } else if (i - 1) % 4 == 3 {
        thinned(ts, (i - 1) as nat)
    } else {
        thinned(ts, (i - 1) as nat).push(ts[i - 1])
    }
}

/// The fields of a save text: its words without labels and conversions.
pub open spec fn fields(s: Seq<char>) -> Seq<Seq<char>> {
    let u = unlabeled(tokens(s), tokens(s).len());
    thinned(u, u.len())
}

/// `t` without its final `;`, if it ends so.
pub open spec fn strip_semi(t: Seq<char>) -> Option<Seq<char>> {
    if t.len() > 0 && t.last() == ';' {
        Some(t.drop_last())
    } else {
        None
    }
}

/// A key to link once all cubes are read: into cube `cube`, the single
/// cube `first` (written with a final `?`) or the pair `first`, `second`.
pub struct LinkReq {
    pub cube: Seq<char>,
    pub first: Seq<char>,
    pub second: Option<Seq<char>>,
}

/// The text of an error about line `n`.
pub open spec fn line_msg(n: nat, s: Seq<char>) -> Seq<char> {
    "Line "@ + nat_decimal(n) + s
}

pub open spec fn read_fn() -> Seq<char> {
    "TUI::read_to_file"@
}

/// One key of line `n`, which adds cube `name`.
#[verifier::opaque]
pub open spec fn parse_item(name: Seq<char>, item: Seq<char>, n: nat) -> Result<LinkReq, ErrView> {
    let parts = split_on(item, '|');
    if parts.len() > 2 {
        Err(ErrView::ParseError(read_fn(), line_msg(n, ": There should only be 1 or 2 cube names delimited with ,"@)))
    } else {
        let fc1 = parts[0];
        let fc2 = if parts.len() == 2 {
            Some(parts[1])
        } else {
            None
        };
        if fc1.len() > 0 && fc1.last() == '?' {
            if fc2 is Some {
                Err(ErrView::ParseError(read_fn(), line_msg(n, ": There should only be 1 cube name ending with ?, or ?;"@)))
            } else if !valid_cube_name(fc1.drop_last()) {
                Err(ErrView::NameSyntax(fc1.drop_last()))
            } else {
                Ok(LinkReq { cube: name, first: fc1, second: None })
            }
        } else {
            match fc2 {
                None => Err(ErrView::ParseError(
                    read_fn(),
                    line_msg(n, ": There should only be 2 cube names delimited with one | ending with , or ;"@),
                )),
                Some(f2) => if !valid_cube_name(fc1) {
                    Err(ErrView::NameSyntax(fc1))
                } else if !valid_cube_name(f2) {
                    Err(ErrView::NameSyntax(f2))
                } else {
                    Ok(LinkReq { cube: name, first: fc1, second: Some(f2) })
                },
            }
        }
    }
}

/// The first `i` keys of line `n`; the first error stops them.
pub open spec fn items_fold(name: Seq<char>, items: Seq<Seq<char>>, n: nat, i: nat) -> Result<Seq<LinkReq>, ErrView>
    decreases i,
{
    if i == 0 || i > items.len() {
        Ok(Seq::empty())
    } else {
        match items_fold(name, items, n, (i - 1) as nat) {
            Err(e) => Err(e),
            Ok(ls) => match parse_item(name, items[i - 1], n) {
                Err(e) => Err(e),
                Ok(l) => Ok(ls.push(l)),
            },
        }
    }
}

/// The state of a load: the graph, the text written, the keys to link,
/// and the error that stopped it, if any.
pub struct LoadState {
    pub dll: DllView,
    pub text: Seq<char>,
    pub links: Seq<LinkReq>,
    pub err: Option<ErrView>,
}

/// Line `n` of a save file, with fields `f0`, `f1`, `f2`.
#[verifier::opaque]
pub open spec fn load_line(st: LoadState, n: nat, f0: Seq<char>, f1: Seq<char>, f2: Seq<char>) -> LoadState {
    if st.err is Some {
        st
    } else {
        match strip_semi(f0) {
            None => LoadState {
                err: Some(ErrView::ParseError(read_fn(), line_msg(n, ": Missing semi-colon at field converts_to"@))),
                ..st
            },
            Some(name) => if !valid_cube_name(name) {
                LoadState { err: Some(ErrView::NameSyntax(name)), ..st }
            } else {
                match strip_semi(f1) {
                    None => LoadState {
                        err: Some(ErrView::ParseError(read_fn(), line_msg(n, ": Missing semi-colon at field tier"@))),
                        ..st
                    },
                    Some(ts) => match i32_parse(ts) {
                        Err(k) => LoadState { err: Some(ErrView::OtherError(k)), ..st },
                        Ok(t) => {
                            let (d, r) = spec_add(st.dll, fresh_cube(name, t));
                            match r {
                                Err(e) => LoadState { err: Some(e), ..st },
                                Ok(_) => {
                                    let text = st.text + "Cube \""@ + name + "\" added\n"@;
                                    match strip_semi(f2) {
                                        None => LoadState {
                                            dll: d,
                                            text,
                                            err: Some(ErrView::ParseError(
                                                read_fn(),
                                                line_msg(n, ": Missing semi-colon at field fused_by"@),
                                            )),
                                            ..st
                                        },
                                        Some(fbs) => if fbs.len() == 0 {
                                            LoadState { dll: d, text, ..st }
                                        } else {
                                            let items = split_on(fbs, ',');
                                            match items_fold(name, items, n, items.len()) {
                                                Err(e) => LoadState { dll: d, text, err: Some(e), ..st },
                                                Ok(ls) => LoadState { dll: d, text, links: st.links + ls, err: None },
                                            }
                                        },
                                    }
                                },
                            }
                        },
                    },
                }
            },
        }
    }
}

/// The first `k` lines of the fields `fs` (three fields a line).
pub open spec fn lines_fold(st: LoadState, fs: Seq<Seq<char>>, k: nat) -> LoadState
    decreases k,
{
    if k == 0 || 3 * k > fs.len() {
        st
    } else {
        let s1 = lines_fold(st, fs, (k - 1) as nat);
        let j = 3 * (k - 1);
        load_line(s1, k, fs[j], fs[j + 1], fs[j + 2])
    }
}

/// Linking one key that was read.
#[verifier::opaque]
pub open spec fn load_link(st: LoadState, l: LinkReq) -> LoadState {
    if st.err is Some {
        st
    } else {
        let (d1, r1) = spec_point_to(st.dll, l.cube);
        match r1 {
            Err(e) => LoadState { dll: d1, err: Some(e), ..st },
            Ok(_) => match l.second {
                Some(c2) => {
                    let (d2, t2, r2) = spec_link_pair(d1, l.first, c2);
                    match r2 {
                        Err(e) => LoadState { dll: d2, text: st.text + t2, err: Some(e), ..st },
                        Ok(_) => LoadState {
                            dll: d2,
                            text: st.text + t2 + "Successfully linked cube \""@ + l.cube + "\" with pairs \""@ + l.first
                                + "\" and \""@ + c2 + "\"\n"@,
                            ..st
                        },
                    }
                },
                None => {
                    let noq = l.first.drop_last();
                    let (d2, t2, r2) = spec_link_single(d1, noq);
                    match r2 {
                        Err(e) => LoadState { dll: d2, text: st.text + t2, err: Some(e), ..st },
                        Ok(_) => LoadState {
                            dll: d2,
                            text: st.text + t2 + "Successfully linked cube \""@ + l.cube + "\" with single \""@ + noq
                                + "\"\n"@,
                            ..st
                        },
                    }
                },
            },
        }
    }
}

/// The first `i` keys of `ls` linked in turn.
pub open spec fn links_fold(st: LoadState, ls: Seq<LinkReq>, i: nat) -> LoadState
    decreases i,
{
    if i == 0 || i > ls.len() {
        st
    } else {
        load_link(links_fold(st, ls, (i - 1) as nat), ls[i - 1])
    }
}

pub open spec fn format_msg() -> Seq<char> {
    "Incorrect format <n: N; t: I; fb: I; ct: ((N|N or N),)*(N|N or N); converts_to: (N)+;>, where N are cube names and I is an integer"@
}

/// Loading save text `file` into graph `v`: a field count that is not a
/// multiple of three is refused and `v` kept; otherwise the graph is
/// emptied, every line adds its cube and every key is linked. The first
/// error stops the load, with what was done so far kept.
pub open spec fn spec_load(v: DllView, file: Seq<char>) -> (DllView, Seq<char>, Result<(), ErrView>) {
    let fs = fields(file);
    if fs.len() % 3 != 0 {
        (v, no_text(), Err(ErrView::ParseError(read_fn(), format_msg())))
    } else {
        let st0 = LoadState { dll: empty_dll(), text: no_text(), links: Seq::empty(), err: None };
        let st1 = lines_fold(st0, fs, fs.len() / 3);
        match st1.err {
            Some(e) => (st1.dll, st1.text, Err(e)),
            None => {
                let st2 = links_fold(st1, st1.links, st1.links.len());
                match st2.err {
                    Some(e) => (st2.dll, st2.text, Err(e)),
                    None => (st2.dll, st2.text + "File successfully read.\n"@, Ok(())),
                }
            },
        }
    }
}

/// The texts of a vector of character vectors.
pub open spec fn words(v: Seq<Vec<char>>) -> Seq<Seq<char>> {
    v.map_values(|t: Vec<char>| t@)
}

/// Every single key read names a cube (with its final `?`).
pub open spec fn links_ok(ls: Seq<LinkReq>) -> bool {
    forall|i: int| 0 <= i < ls.len() ==> (#[trigger] ls[i]).second is None ==> ls[i].first.len() > 0
}

/// Once a load has stopped at an error, further lines change nothing.
pub proof fn lemma_lines_fold_stops(st: LoadState, fs: Seq<Seq<char>>, k: nat, n: nat)
    requires
        lines_fold(st, fs, k).err is Some,
        k <= n,
        3 * n <= fs.len(),
    ensures
        lines_fold(st, fs, n) == lines_fold(st, fs, k),
    decreases n - k,
{
    reveal(load_line);
    if n > k {
        lemma_lines_fold_stops(st, fs, k, (n - 1) as nat);
    }
}

/// Once a load has stopped at an error, further links change nothing.
pub proof fn lemma_links_fold_stops(st: LoadState, ls: Seq<LinkReq>, i: nat, n: nat)
    requires
        links_fold(st, ls, i).err is Some,
        i <= n <= ls.len(),
    ensures
        links_fold(st, ls, n) == links_fold(st, ls, i),
    decreases n - i,
{
    reveal(load_link);
    if n > i {
        lemma_links_fold_stops(st, ls, i, (n - 1) as nat);
    }
}

/// Linking a key does not look at, nor change, the keys still to link.
pub proof fn lemma_load_link_links(st: LoadState, l: LinkReq)
    ensures
        ({
            let r = load_link(LoadState { dll: st.dll, text: st.text, links: Seq::empty(), err: st.err }, l);
            load_link(st, l) == (LoadState { dll: r.dll, text: r.text, links: st.links, err: r.err })
        }),
{
    reveal(load_link);
}

/// Once the keys of a line have met an error, further keys change nothing.
pub proof fn lemma_items_fold_stops(name: Seq<char>, items: Seq<Seq<char>>, n: nat, i: nat, m: nat)
    requires
        items_fold(name, items, n, i) is Err,
        i <= m <= items.len(),
    ensures
        items_fold(name, items, n, m) == items_fold(name, items, n, i),
    decreases m - i,
{
    if m > i {
        lemma_items_fold_stops(name, items, n, i, (m - 1) as nat);
    }
}

/// The value of a key read, held as character vectors.
pub open spec fn link_view(l: (Vec<char>, Vec<char>, Option<Vec<char>>)) -> LinkReq {
    LinkReq {
        cube: l.0@,
        first: l.1@,
        second: match l.2 {
            Some(x) => Some(x@),
            None => None,
        },
    }
}

/// The value of the keys read.
pub open spec fn link_views(v: Seq<(Vec<char>, Vec<char>, Option<Vec<char>>)>) -> Seq<LinkReq> {
    v.map_values(|l: (Vec<char>, Vec<char>, Option<Vec<char>>)| link_view(l))
}

/// `c` is white space.
pub fn is_ws_char(c: char) -> (r: bool)
    ensures
        r == is_ws(c),
{
    ('\u{9}' <= c && c <= '\u{d}') || c == ' ' || c == '\u{85}' || c == '\u{a0}' || c == '\u{1680}'
        || ('\u{2000}' <= c && c <= '\u{200a}') || c == '\u{2028}' || c == '\u{2029}' || c == '\u{202f}'
        || c == '\u{205f}' || c == '\u{3000}'
}

/// The words of `s` (`str::split_whitespace`).
pub fn tokens_of(s: &Vec<char>) -> (r: Vec<Vec<char>>)
    ensures
        words(r@) == tokens(s@),
{
    let mut d: Vec<Vec<char>> = Vec::new();
    let mut cur: Vec<char> = Vec::new();
    let mut i: usize = 0;
    assert(words(d@) =~= Seq::empty());
    while i < s.len()
        invariant
            i <= s@.len(),
            (words(d@), cur@) == tok_fold(s@, i as nat),
        decreases s.len() - i,
    {
        let c = s[i];
        if is_ws_char(c) {
            if cur.len() > 0 {
                let w = cur;
                d.push(w);
                cur = Vec::new();
                assert(words(d@) =~= tok_fold(s@, (i + 1) as nat).0);
            }
            assert(cur@ =~= tok_fold(s@, (i + 1) as nat).1);
        } else {
            cur.push(c);
        }
        i = i + 1;
    }
    if cur.len() > 0 {
        d.push(cur);
        assert(words(d@) =~= tokens(s@));
    }
    d
}

/// The pieces of `s` between the characters `c` (`str::split`).
pub fn split_chars(s: &Vec<char>, c: char) -> (r: Vec<Vec<char>>)
    ensures
        words(r@) == split_on(s@, c),
        r@.len() >= 1,
{
    let mut d: Vec<Vec<char>> = Vec::new();
    let mut cur: Vec<char> = Vec::new();
    let mut i: usize = 0;
    assert(words(d@) =~= Seq::empty());
    while i < s.len()
        invariant
            i <= s@.len(),
            (words(d@), cur@) == split_fold(s@, c, i as nat),
        decreases s.len() - i,
    {
        let x = s[i];
        if x == c {
            let w = cur;
            d.push(w);
            cur = Vec::new();
            assert(words(d@) =~= split_fold(s@, c, (i + 1) as nat).0);
            assert(cur@ =~= split_fold(s@, c, (i + 1) as nat).1);
        } else {
            cur.push(x);
        }
        i = i + 1;
    }
    d.push(cur);
    assert(words(d@) =~= split_on(s@, c));
    d
}

/// `t` is a label of the save format.
fn is_label_word(t: &Vec<char>) -> (r: bool)
    ensures
        r == is_label(t@),
{
    let r = (t.len() == 2 && t[0] == 'n' && t[1] == ':') || (t.len() == 2 && t[0] == 't' && t[1] == ':') || (
    t.len() == 3 && t[0] == 'f' && t[1] == 'b' && t[2] == ':') || (t.len() == 3 && t[0] == 'c' && t[1] == 't'
        && t[2] == ':');
    proof {
        if t@.len() == 2 {
            if t@[0] == 'n' && t@[1] == ':' {
                assert(t@ =~= seq!['n', ':']);
            }
            if t@[0] == 't' && t@[1] == ':' {
                assert(t@ =~= seq!['t', ':']);
            }
        }
        if t@.len() == 3 {
            if t@[0] == 'f' && t@[1] == 'b' && t@[2] == ':' {
                assert(t@ =~= seq!['f', 'b', ':']);
            }
            if t@[0] == 'c' && t@[1] == 't' && t@[2] == ':' {
                assert(t@ =~= seq!['c', 't', ':']);
            }
        }
    }
    r
}

/// The fields of a save text.
pub fn fields_of(file: &str) -> (r: Vec<Vec<char>>)
    ensures
        words(r@) == fields(file@),
{
    let cs = chars_of(file);
    let toks = tokens_of(&cs);
    let ghost tv = tokens(file@);
    let mut u: Vec<Vec<char>> = Vec::new();
    let mut i: usize = 0;
    assert(words(u@) =~= unlabeled(tv, 0));
    while i < toks.len()
        invariant
            words(toks@) == tv,
            i <= toks@.len(),
            words(u@) == unlabeled(tv, i as nat),
        decreases toks.len() - i,
    {
        assert(toks@[i as int]@ == tv[i as int]);
        if !is_label_word(&toks[i]) {
            let w = toks[i].clone();
            u.push(w);
            assert(words(u@) =~= unlabeled(tv, (i + 1) as nat));
        }
        i = i + 1;
    }
    let ghost uv = unlabeled(tv, tv.len());
    let mut r: Vec<Vec<char>> = Vec::new();
    let mut j: usize = 0;
    assert(words(r@) =~= thinned(uv, 0));
    while j < u.len()
        invariant
            words(u@) == uv,
            j <= u@.len(),
            words(r@) == thinned(uv, j as nat),
        decreases u.len() - j,
    {
        if j % 4 != 3 {
            let w = u[j].clone();
            assert(w@ == uv[j as int]);
            r.push(w);
            assert(words(r@) =~= thinned(uv, (j + 1) as nat));
        }
        j = j + 1;
    }
    r
}

/// `t` without its final `;`, if it ends so.
fn strip_semi_word(t: &Vec<char>) -> (r: Option<Vec<char>>)
    ensures
        match r {
            Some(x) => strip_semi(t@) == Some(x@),
            None => strip_semi(t@) is None,
        },
{
    if t.len() > 0 && t[t.len() - 1] == ';' {
        let mut x = t.clone();
        x.pop();
        assert(x@ =~= t@.drop_last());
        Some(x)
    } else {
        None
    }
}

/// A parse error about line `n`.
fn line_error(n: usize, s: &str) -> (r: CSError)
    ensures
        r@ == ErrView::ParseError(read_fn(), line_msg(n as nat, s@)),
{
    let mut m = string_of("Line ");
    let d = usize_text(n);
    put(&mut m, d.as_str());
    put(&mut m, s);
    CSError::ParseError("TUI::read_to_file", m)
}

/// Checks that the characters `t` can name a cube.
fn check_name_chars(t: &Vec<char>) -> (r: CSResult<()>)
    ensures
        r is Ok <==> valid_cube_name(t@),
        r matches Err(e) ==> e@ == ErrView::NameSyntax(t@),
{
    let s = string_from_chars(t);
    check_valid_cube_name(s.as_str())
}

/// One key of line `n`, which adds cube `name`.
fn parse_item_chars(name: &Vec<char>, item: &Vec<char>, n: usize) -> (r: CSResult<(Vec<char>, Vec<char>, Option<Vec<char>>)>)
    ensures
        match r {
            Ok(l) => parse_item(name@, item@, n as nat) == Ok::<LinkReq, ErrView>(link_view(l)) && (l.2 is None ==> l.1@.len() > 0),
            Err(e) => parse_item(name@, item@, n as nat) == Err::<LinkReq, ErrView>(e@),
        },
{
    reveal(parse_item);
    let parts = split_chars(item, '|');
    if parts.len() > 2 {
        return Err(line_error(n, ": There should only be 1 or 2 cube names delimited with ,"));
    }
    let fc1 = parts[0].clone();
    assert(fc1@ == split_on(item@, '|')[0]);
    if fc1.len() > 0 && fc1[fc1.len() - 1] == '?' {
        if parts.len() == 2 {
            return Err(line_error(n, ": There should only be 1 cube name ending with ?, or ?;"));
        }
        let mut bare = fc1.clone();
        bare.pop();
        assert(bare@ =~= fc1@.drop_last());
        check_name_chars(&bare)?;
        assert(fc1@.len() > 0);
        Ok((name.clone(), fc1, None))
    } else {
        if parts.len() == 1 {
            return Err(line_error(n, ": There should only be 2 cube names delimited with one | ending with , or ;"));
        }
        let fc2 = parts[1].clone();
        assert(fc2@ == split_on(item@, '|')[1]);
        check_name_chars(&fc1)?;
        check_name_chars(&fc2)?;
        Ok((name.clone(), fc1, Some(fc2)))
    }
}

impl CubeDLL {
    /// Line `n` of a save file: adds its cube and collects its keys in `links`.
    #[verifier::loop_isolation(false)]
    fn load_line(
        &mut self,
        f0: &Vec<char>,
        f1: &Vec<char>,
        f2: &Vec<char>,
        n: usize,
        links: &mut Vec<(Vec<char>, Vec<char>, Option<Vec<char>>)>,
        out: &mut String,
    ) -> (r: CSResult<()>)
        requires
            old(self)@.wf(),
            links_ok(link_views(old(links)@)),
        ensures
            final(self)@.wf(),
            ({
                let st = load_line(
                    LoadState { dll: old(self)@, text: old(out)@, links: link_views(old(links)@), err: None },
                    n as nat,
                    f0@,
                    f1@,
                    f2@,
                );
                &&& final(self)@ == st.dll
                &&& final(out)@ == st.text
                &&& outcome(r) == step_outcome(st.err)
                &&& (r is Ok ==> link_views(final(links)@) == st.links)
                &&& links_ok(link_views(final(links)@))
            }),
    {
        reveal(load_line);
        let ghost base = link_views(links@);
        let name = match strip_semi_word(f0) {
            Some(x) => x,
            None => {
                return Err(line_error(n, ": Missing semi-colon at field converts_to"));
            },
        };
        match check_name_chars(&name) {
            Err(e) => {
                return Err(e);
            },
            Ok(()) => {},
        }
        let ts = match strip_semi_word(f1) {
            Some(x) => x,
            None => {
                return Err(line_error(n, ": Missing semi-colon at field tier"));
            },
        };
        let tss = string_from_chars(&ts);
        let t = match parse_i32(tss.as_str()) {
            Ok(t) => t,
            Err(k) => {
                return Err(CSError::OtherError(k));
            },
        };
        let name_s = string_from_chars(&name);
        let cs = CubeStruct::new(name_s.clone(), t);
        assert(cs@.converts_to.len() == 0 && cs@.fused_by.len() == 0);
        match self.add(cs) {
            Err(e) => {
                return Err(e);
            },
            Ok(()) => {},
        }
        let ghost o0 = out@;
        put(out, "Cube \"");
        put(out, name_s.as_str());
        put(out, "\" added\n");
        assert(out@ =~= o0 + "Cube \""@ + name@ + "\" added\n"@);
        let fbs = match strip_semi_word(f2) {
            Some(x) => x,
            None => {
                return Err(line_error(n, ": Missing semi-colon at field fused_by"));
            },
        };
        if fbs.len() == 0 {
            assert(link_views(links@) =~= base);
            return Ok(());
        }
        let items = split_chars(&fbs, ',');
        let ghost iv = words(items@);
        let mut k: usize = 0;
        assert(link_views(links@) =~= base + Seq::<LinkReq>::empty());
        while k < items.len()
            invariant
                words(items@) == iv,
                k <= items@.len(),
                links_ok(base),
                items_fold(name@, iv, n as nat, k as nat) is Ok,
                link_views(links@) == base + items_fold(name@, iv, n as nat, k as nat)->Ok_0,
                links_ok(link_views(links@)),
            decreases items.len() - k,
        {
            assert(items@[k as int]@ == iv[k as int]);
            match parse_item_chars(&name, &items[k], n) {
                Err(e) => {
                    proof {
                        lemma_items_fold_stops(name@, iv, n as nat, (k + 1) as nat, iv.len());
                    }
                    return Err(e);
                },
                Ok(l) => {
                    let ghost lv = link_view(l);
                    let ghost prev = link_views(links@);
                    links.push(l);
                    assert(link_views(links@) =~= prev.push(lv));
                    assert(link_views(links@) =~= base + items_fold(name@, iv, n as nat, (k + 1) as nat)->Ok_0);
                    assert forall|i: int| 0 <= i < link_views(links@).len() && (#[trigger] link_views(links@)[i]).second is None implies link_views(links@)[i].first.len() > 0 by {
                        if i < prev.len() {
                            assert(link_views(links@)[i] == prev[i]);
                        }
                    }
                },
            }
            k = k + 1;
        }
        Ok(())
    }
    /// Links one key that was read: the pointer goes to its cube, then the
    /// pair or the single cube is linked.
    fn load_link(&mut self, l: &(Vec<char>, Vec<char>, Option<Vec<char>>), out: &mut String) -> (r: CSResult<()>)
        requires
            old(self)@.wf(),
            l.2 is None ==> l.1@.len() > 0,
        ensures
            final(self)@.wf(),
            ({
                let st = load_link(
                    LoadState { dll: old(self)@, text: old(out)@, links: Seq::empty(), err: None },
                    link_view(*l),
                );
                &&& final(self)@ == st.dll
                &&& final(out)@ == st.text
                &&& outcome(r) == step_outcome(st.err)
            }),
    {
        reveal(load_link);
        let ghost o = out@;
        let name_s = string_from_chars(&l.0);
        match self.point_to(name_s.clone()) {
            Err(e) => {
                return Err(e);
            },
            Ok(()) => {},
        }
        match &l.2 {
            Some(c2) => {
                let a = string_from_chars(&l.1);
                let b = string_from_chars(c2);
                match self.link_at_p_fb_pair(a.clone(), b.clone(), out) {
                    Err(e) => {
                        return Err(e);
                    },
                    Ok(()) => {},
                }
                let ghost o1 = out@;
                put(out, "Successfully linked cube \"");
                put(out, name_s.as_str());
                put(out, "\" with pairs \"");
                put(out, a.as_str());
                put(out, "\" and \"");
                put(out, b.as_str());
                put(out, "\"\n");
                assert(out@ =~= o1 + "Successfully linked cube \""@ + name_s@ + "\" with pairs \""@ + a@ + "\" and \""@ + b@ + "\"\n"@);
            },
            None => {
                let mut noq = l.1.clone();
                noq.pop();
                assert(noq@ =~= l.1@.drop_last());
                let a = string_from_chars(&noq);
                match self.link_at_p_fb_single(a.clone(), out) {
                    Err(e) => {
                        return Err(e);
                    },
                    Ok(()) => {},
                }
                let ghost o1 = out@;
                put(out, "Successfully linked cube \"");
                put(out, name_s.as_str());
                put(out, "\" with single \"");
                put(out, a.as_str());
                put(out, "\"\n");
                assert(out@ =~= o1 + "Successfully linked cube \""@ + name_s@ + "\" with single \""@ + a@ + "\"\n"@);
            },
        }
        Ok(())
    }

    /// The load, with the text written into `buf` (empty at first).
    #[verifier::loop_isolation(false)]
    fn load_into(&mut self, file: &str, buf: &mut String) -> (r: CSResult<()>)
        requires
            old(self)@.wf(),
            old(buf)@ == Seq::<char>::empty(),
        ensures
            final(self)@.wf(),
            ({
                let (w, t, e) = spec_load(old(self)@, file@);
                final(self)@ == w && final(buf)@ == t && outcome(r) == e
            }),
    {
        let ghost v = self@;
        let fs = fields_of(file);
        let ghost fv = words(fs@);
        if fs.len() % 3 != 0 {
            return Err(CSError::ParseError("TUI::read_to_file", string_of("Incorrect format <n: N; t: I; fb: I; ct: ((N|N or N),)*(N|N or N); converts_to: (N)+;>, where N are cube names and I is an integer")));
        }
        self.remove_all_cubes();
        let ghost st0 = LoadState { dll: empty_dll(), text: no_text(), links: Seq::empty(), err: None };
        let mut links: Vec<(Vec<char>, Vec<char>, Option<Vec<char>>)> = Vec::new();
        let total = fs.len() / 3;
        let mut k: usize = 0;
        assert(link_views(links@) =~= Seq::<LinkReq>::empty());
        while k < total
            invariant
                words(fs@) == fv,
                fv.len() % 3 == 0,
                total == fv.len() / 3,
                k <= total,
                self@.wf(),
                ({
                    let st = lines_fold(st0, fv, k as nat);
                    &&& st.err is None
                    &&& self@ == st.dll
                    &&& buf@ == st.text
                    &&& link_views(links@) == st.links
                }),
                links_ok(link_views(links@)),
            decreases total - k,
        {
            let j = 3 * k;
            assert(fs@[j as int]@ == fv[j as int] && fs@[j + 1]@ == fv[j + 1] && fs@[j + 2]@ == fv[j + 2]);
            let ghost stk = lines_fold(st0, fv, k as nat);
            assert(stk == LoadState { dll: self@, text: buf@, links: link_views(links@), err: None });
            let step = self.load_line(&fs[j], &fs[j + 1], &fs[j + 2], k + 1, &mut links, buf);
            if step.is_err() {
                proof {
                    lemma_lines_fold_stops(st0, fv, (k + 1) as nat, total as nat);
                }
                return step;
            }
            k = k + 1;
        }
        let ghost st1 = lines_fold(st0, fv, total as nat);
        let ghost lv = st1.links;
        let mut i: usize = 0;
        while i < links.len()
            invariant
                link_views(links@) == lv,
                links_ok(lv),
                i <= links@.len(),
                self@.wf(),
                st1.err is None,
                ({
                    let st = links_fold(st1, lv, i as nat);
                    &&& st.err is None
                    &&& self@ == st.dll
                    &&& buf@ == st.text
                }),
            decreases links.len() - i,
        {
            assert(link_view(links@[i as int]) == lv[i as int]);
            let ghost sti = links_fold(st1, lv, i as nat);
            proof {
                lemma_load_link_links(sti, lv[i as int]);
                assert((LoadState { dll: sti.dll, text: sti.text, links: Seq::empty(), err: sti.err }) == (LoadState { dll: self@, text: buf@, links: Seq::empty(), err: None }));
            }
            let step = self.load_link(&links[i], buf);
            if step.is_err() {
                proof {
                    lemma_links_fold_stops(st1, lv, (i + 1) as nat, lv.len());
                }
                return step;
            }
            i = i + 1;
        }
        put(buf, "File successfully read.\n");
        Ok(())
    }

    /// Reads save text `file` into the graph, writing what happens to `out`.
    pub fn load_save_text(&mut self, file: &str, out: &mut String) -> (r: CSResult<()>)
        requires
            old(self)@.wf(),
        ensures
            final(self)@.wf(),
            ({
                let (w, t, e) = spec_load(old(self)@, file@);
                final(self)@ == w && final(out)@ == old(out)@ + t && outcome(r) == e
            }),
    {
        let mut buf = String::new();
        let r = self.load_into(file, &mut buf);
        put(out, buf.as_str());
        r
    }
}

} // verus!
