//! Reading back what was saved: the save text of a graph, loaded, gives a
//! graph with the same names, tiers and keys.
use vstd::prelude::*;
use crate::load::{is_ws, tok_fold, tokens, unlabeled, thinned, is_label, fields, split_fold, split_on, LinkReq, parse_item, items_fold, LoadState, lines_fold, load_line, strip_semi, load_link, links_fold, spec_load};
use crate::names::valid_cube_name;
use crate::error::ErrView;
use crate::fuse_key::KeyView;
use crate::cube::{
    DllView, CubeView, fresh_cube, empty_dll, no_text, spec_add, unknown_name, key_known, same_frame, spec_unknown_stage, keys_mention,
    spec_add_fb, spec_add_to, spec_fuse_pair, spec_fuse_single, spec_point_to, spec_link_pair, spec_link_single,
};
use crate::fuse_key::{pair_key, key_mentions};
use crate::assoc::{has_key, keys_distinct, lemma_find_key, lemma_find_key_at, key_insert, find_key};
use crate::laws::{law_isort_permutes, law_isort_keeps_distinct};
use crate::text::{i32_parse, IntParse};
use crate::show::{save_file, isort, save_line, save_fold, joined, fb_items, ct_items, KeyStyle, CtStyle, key_styled};
use crate::text::{int_decimal, nat_decimal, digit_char, digits_value, is_dec_digit, decimal_value, unsigned_part};

verus! {

/// One step of cutting text into words, from the words so far and the
/// word being read.
pub open spec fn tok_step(st: (Seq<Seq<char>>, Seq<char>), c: char) -> (Seq<Seq<char>>, Seq<char>) {
    if is_ws(c) {
        if st.1.len() > 0 {
            (st.0.push(st.1), Seq::empty())
        } else {
            (st.0, Seq::empty())
        }
    } else {
        (st.0, st.1.push(c))
    }
}

/// Cutting the first `j` characters of `b` into words, from state `st`.
pub open spec fn tok_run(st: (Seq<Seq<char>>, Seq<char>), b: Seq<char>, j: nat) -> (Seq<Seq<char>>, Seq<char>)
    decreases j,
{
    if j == 0 || j > b.len() {
        st
    } else {
        tok_step(tok_run(st, b, (j - 1) as nat), b[j - 1])
    }
}

proof fn lemma_tok_prefix(a: Seq<char>, b: Seq<char>, i: nat)
    requires
        i <= a.len(),
    ensures
        tok_fold(a + b, i) == tok_fold(a, i),
    decreases i,
{
    if i > 0 {
        lemma_tok_prefix(a, b, (i - 1) as nat);
        assert((a + b)[i - 1] == a[i - 1]);
    }
}

proof fn lemma_tok_concat_run(a: Seq<char>, b: Seq<char>, j: nat)
    requires
        j <= b.len(),
    ensures
        tok_fold(a + b, a.len() + j) == tok_run(tok_fold(a, a.len()), b, j),
    decreases j,
{
    if j == 0 {
        lemma_tok_prefix(a, b, a.len());
    } else {
        lemma_tok_concat_run(a, b, (j - 1) as nat);
        assert((a + b)[a.len() + j - 1] == b[j - 1]);
    }
}

proof fn lemma_tok_run_fresh(d: Seq<Seq<char>>, b: Seq<char>, j: nat)
    requires
        j <= b.len(),
    ensures
        tok_run((d, Seq::empty()), b, j) == (d + tok_fold(b, j).0, tok_fold(b, j).1),
    decreases j,
{
    if j > 0 {
        lemma_tok_run_fresh(d, b, (j - 1) as nat);
        let (dd, cur) = tok_fold(b, (j - 1) as nat);
        assert((d + dd).push(cur) =~= d + dd.push(cur));
    }
}

/// Text that ends where a word ends (or is empty).
pub open spec fn ends_clean(a: Seq<char>) -> bool {
    tok_fold(a, a.len()).1.len() == 0
}

/// The words of two texts, the first ending cleanly, are the words of each.
pub proof fn lemma_tokens_concat(a: Seq<char>, b: Seq<char>)
    requires
        ends_clean(a),
    ensures
        tokens(a + b) == tokens(a) + tokens(b),
        ends_clean(b) ==> ends_clean(a + b),
{
    lemma_tok_concat_run(a, b, b.len());
    let (da, ca) = tok_fold(a, a.len());
    assert(ca =~= Seq::<char>::empty());
    lemma_tok_run_fresh(da, b, b.len());
    assert((a + b).len() == a.len() + b.len());
    let (db, cb) = tok_fold(b, b.len());
    if cb.len() > 0 {
        assert((da + db).push(cb) =~= da + db.push(cb));
    } else {
        assert(da + db =~= da + db);
    }
}

/// A text with no white space.
pub open spec fn no_ws(w: Seq<char>) -> bool {
    forall|i: int| 0 <= i < w.len() ==> !is_ws(#[trigger] w[i])
}

proof fn lemma_tok_word(w: Seq<char>, k: nat)
    requires
        no_ws(w),
        k <= w.len(),
    ensures
        tok_fold(w, k) == (Seq::<Seq<char>>::empty(), w.subrange(0, k as int)),
    decreases k,
{
    if k > 0 {
        lemma_tok_word(w, (k - 1) as nat);
        assert(w.subrange(0, k - 1).push(w[k - 1]) =~= w.subrange(0, k as int));
    }
}

/// A word followed by one white space is that one word, and ends cleanly.
pub proof fn lemma_tokens_word(w: Seq<char>, c: char)
    requires
        no_ws(w),
        w.len() > 0,
        is_ws(c),
    ensures
        tokens(w.push(c)) == seq![w],
        ends_clean(w.push(c)),
{
    let s = w.push(c);
    lemma_tok_word(w, w.len());
    lemma_tok_prefix(w, seq![c], w.len());
    assert(w + seq![c] =~= s);
    assert(s[w.len() as int] == c);
    assert(w.subrange(0, w.len() as int) =~= w);
}


proof fn lemma_no_ws_concat(a: Seq<char>, b: Seq<char>)
    requires
        no_ws(a),
        no_ws(b),
    ensures
        no_ws(a + b),
{
    assert forall|i: int| 0 <= i < (a + b).len() implies !is_ws(#[trigger] (a + b)[i]) by {
        if i < a.len() {
            assert((a + b)[i] == a[i]);
        } else {
            assert((a + b)[i] == b[i - a.len()]);
        }
    }
}

/// The words of a save line: the labels, and each field with its `;`.
pub open spec fn line_words(v: DllView, c: int) -> Seq<Seq<char>> {
    seq![
        seq!['n', ':'],
        v.cubes[c].name.push(';'),
        seq!['t', ':'],
        int_decimal(v.cubes[c].tier as int).push(';'),
        seq!['f', 'b', ':'],
        fb_text(v, c).push(';'),
        seq!['c', 't', ':'],
        ct_text(v, c).push(';')
    ]
}

/// The keys of cube `c` as the save format writes them.
pub open spec fn fb_text(v: DllView, c: int) -> Seq<char> {
    joined(fb_items(v.cubes[c].fused_by, KeyStyle::Save))
}

/// The conversions of cube `c` as the save format writes them.
pub open spec fn ct_text(v: DllView, c: int) -> Seq<char> {
    joined(ct_items(v, v.cubes[c].converts_to, CtStyle::Keys))
}

proof fn lemma_decimal_no_ws(t: int)
    ensures
        no_ws(int_decimal(t)),
{
    lemma_nat_decimal_digits(if t < 0 { (-t) as nat } else { t as nat });
}

/// The decimal text of a number is made of digits.
pub proof fn lemma_nat_decimal_digits(n: nat)
    ensures
        forall|i: int| 0 <= i < nat_decimal(n).len() ==> is_dec_digit(#[trigger] nat_decimal(n)[i]),
        nat_decimal(n).len() > 0,
        digits_value(nat_decimal(n)) == n,
    decreases n,
{
    assert('0' as int == 48);
    if n < 10 {
        assert(((n + 48) as u32) as char as int == n + 48);
        assert(nat_decimal(n).drop_last() =~= Seq::<char>::empty());
        assert(nat_decimal(n).last() == digit_char(n));
        assert(digits_value(nat_decimal(n)) == digits_value(Seq::<char>::empty()) * 10 + (digit_char(n) as int - '0' as int));
    } else {
        lemma_nat_decimal_digits(n / 10);
        assert(((n % 10 + 48) as u32) as char as int == n % 10 + 48);
        let d = nat_decimal(n / 10);
        assert(nat_decimal(n) == d.push(digit_char(n % 10)));
        assert(nat_decimal(n).drop_last() =~= d);
        assert((n / 10) * 10 + n % 10 == n) by (nonlinear_arith);
        assert(digits_value(nat_decimal(n)) == digits_value(d) * 10 + (digit_char(n % 10) as int - '0' as int));
    }
}

/// Words separated by single spaces, the last followed by a line break.
pub open spec fn spaced(ws: Seq<Seq<char>>) -> Seq<char>
    decreases ws.len(),
{
    if ws.len() <= 1 {
        if ws.len() == 1 {
            ws[0].push('\n')
        } else {
            Seq::empty()
        }
    } else {
        ws[0].push(' ') + spaced(ws.drop_first())
    }
}

/// Words spaced out are read back as the same words.
pub proof fn lemma_spaced_tokens(ws: Seq<Seq<char>>)
    requires
        ws.len() > 0,
        forall|i: int| 0 <= i < ws.len() ==> no_ws(#[trigger] ws[i]) && ws[i].len() > 0,
    ensures
        tokens(spaced(ws)) == ws,
        ends_clean(spaced(ws)),
    decreases ws.len(),
{
    reveal_strlit("\n");
    if ws.len() == 1 {
        lemma_tokens_word(ws[0], '\n');
        assert(seq![ws[0]] =~= ws);
    } else {
        let rest = ws.drop_first();
        assert forall|i: int| 0 <= i < rest.len() implies no_ws(#[trigger] rest[i]) && rest[i].len() > 0 by {
            assert(rest[i] == ws[i + 1]);
        }
        lemma_spaced_tokens(rest);
        lemma_tokens_word(ws[0], ' ');
        lemma_tokens_concat(ws[0].push(' '), spaced(rest));
        assert(seq![ws[0]] + rest =~= ws);
    }
}

/// The words of a save line with the given name, tier, keys and conversions.
pub open spec fn words_of(a: Seq<char>, b: Seq<char>, c: Seq<char>, d: Seq<char>) -> Seq<Seq<char>> {
    seq![seq!['n', ':'], a.push(';'), seq!['t', ':'], b.push(';'), seq!['f', 'b', ':'], c.push(';'), seq!['c', 't', ':'], d.push(';')]
}

#[verifier::spinoff_prover]
#[verifier::rlimit(30)]
proof fn lemma_shape(a: Seq<char>, b: Seq<char>, c: Seq<char>, d: Seq<char>)
    ensures
        "n: "@ + a + "; t: "@ + b + "; fb: "@ + c + "; ct: "@ + d + seq![';'] + "\n"@ == spaced(words_of(a, b, c, d)),
{
    reveal_strlit("n: ");
    reveal_strlit("; t: ");
    reveal_strlit("; fb: ");
    reveal_strlit("; ct: ");
    reveal_strlit("\n");
    let ws = words_of(a, b, c, d);
    let w1 = ws.drop_first();
    let w2 = w1.drop_first();
    let w3 = w2.drop_first();
    let w4 = w3.drop_first();
    let w5 = w4.drop_first();
    let w6 = w5.drop_first();
    let w7 = w6.drop_first();
    assert(w7 =~= seq![d.push(';')]);
    assert(spaced(w7) == d.push(';').push('\n'));
    assert(spaced(w6) == ws[6].push(' ') + spaced(w7));
    assert(spaced(w5) == ws[5].push(' ') + spaced(w6));
    assert(spaced(w4) == ws[4].push(' ') + spaced(w5));
    assert(spaced(w3) == ws[3].push(' ') + spaced(w4));
    assert(spaced(w2) == ws[2].push(' ') + spaced(w3));
    assert(spaced(w1) == ws[1].push(' ') + spaced(w2));
    assert(spaced(ws) == ws[0].push(' ') + spaced(w1));
    assert("n: "@ + a + "; t: "@ + b + "; fb: "@ + c + "; ct: "@ + d + seq![';'] + "\n"@ =~= spaced(ws));
}

proof fn lemma_line_shape(v: DllView, c: int)
    ensures
        save_line(v, c) + "\n"@ == spaced(line_words(v, c)),
{
    lemma_shape(v.cubes[c].name, int_decimal(v.cubes[c].tier as int), fb_text(v, c), ct_text(v, c));
    assert(line_words(v, c) == words_of(v.cubes[c].name, int_decimal(v.cubes[c].tier as int), fb_text(v, c), ct_text(v, c)));
}

/// The words of a save line (with its line break) are the labels and the
/// fields, when the name and the texts of keys and conversions hold no white
/// space.
pub proof fn lemma_line_tokens(v: DllView, c: int)
    requires
        no_ws(v.cubes[c].name),
        no_ws(fb_text(v, c)),
        no_ws(ct_text(v, c)),
    ensures
        tokens(save_line(v, c) + "\n"@) == line_words(v, c),
        ends_clean(save_line(v, c) + "\n"@),
{
    let ws = line_words(v, c);
    let semi: Seq<char> = seq![';'];
    lemma_decimal_no_ws(v.cubes[c].tier as int);
    lemma_no_ws_concat(v.cubes[c].name, semi);
    lemma_no_ws_concat(int_decimal(v.cubes[c].tier as int), semi);
    lemma_no_ws_concat(fb_text(v, c), semi);
    lemma_no_ws_concat(ct_text(v, c), semi);
    assert(v.cubes[c].name.push(';') =~= v.cubes[c].name + semi);
    assert(int_decimal(v.cubes[c].tier as int).push(';') =~= int_decimal(v.cubes[c].tier as int) + semi);
    assert(fb_text(v, c).push(';') =~= fb_text(v, c) + semi);
    assert(ct_text(v, c).push(';') =~= ct_text(v, c) + semi);
    assert forall|i: int| 0 <= i < ws.len() implies no_ws(#[trigger] ws[i]) && ws[i].len() > 0 by {}
    lemma_spaced_tokens(ws);
    lemma_line_shape(v, c);
}


/// What a save line needs to be read back word by word: no white space in
/// the name, nor in the texts of its keys and conversions.
pub open spec fn line_clean(v: DllView, c: int) -> bool {
    &&& no_ws(v.cubes[c].name)
    &&& no_ws(fb_text(v, c))
    &&& no_ws(ct_text(v, c))
}

/// The words of the first `k` save lines of the entries `es`.
pub open spec fn file_words(v: DllView, es: Seq<(Seq<char>, usize)>, k: nat) -> Seq<Seq<char>>
    decreases k,
{
    if k == 0 || k > es.len() {
        Seq::empty()
    } else {
        file_words(v, es, (k - 1) as nat) + line_words(v, es[k - 1].1 as int)
    }
}

/// The words of a save text are the words of its lines.
pub proof fn lemma_file_tokens(v: DllView, es: Seq<(Seq<char>, usize)>, k: nat)
    requires
        k <= es.len(),
        forall|i: int| 0 <= i < k ==> line_clean(v, #[trigger] es[i].1 as int),
    ensures
        tokens(save_fold(v, es, k)) == file_words(v, es, k),
        ends_clean(save_fold(v, es, k)),
    decreases k,
{
    if k == 0 {
        assert(tokens(Seq::<char>::empty()) =~= Seq::<Seq<char>>::empty());
    } else {
        lemma_file_tokens(v, es, (k - 1) as nat);
        let c = es[k - 1].1 as int;
        assert(line_clean(v, c));
        lemma_line_tokens(v, c);
        let f = save_fold(v, es, (k - 1) as nat);
        let l = save_line(v, c) + "\n"@;
        lemma_tokens_concat(f, l);
        assert(save_fold(v, es, k) =~= f + l);
    }
}

proof fn lemma_unlabeled_prefix(x: Seq<Seq<char>>, y: Seq<Seq<char>>, i: nat)
    requires
        i <= x.len(),
    ensures
        unlabeled(x + y, i) == unlabeled(x, i),
    decreases i,
{
    if i > 0 {
        lemma_unlabeled_prefix(x, y, (i - 1) as nat);
        assert((x + y)[i - 1] == x[i - 1]);
    }
}

proof fn lemma_unlabeled_concat_at(x: Seq<Seq<char>>, y: Seq<Seq<char>>, j: nat)
    requires
        j <= y.len(),
    ensures
        unlabeled(x + y, x.len() + j) == unlabeled(x, x.len()) + unlabeled(y, j),
    decreases j,
{
    if j == 0 {
        lemma_unlabeled_prefix(x, y, x.len());
        assert(unlabeled(x, x.len()) + Seq::<Seq<char>>::empty() =~= unlabeled(x, x.len()));
    } else {
        lemma_unlabeled_concat_at(x, y, (j - 1) as nat);
        assert((x + y)[x.len() + j - 1] == y[j - 1]);
        assert((unlabeled(x, x.len()) + unlabeled(y, (j - 1) as nat)).push(y[j - 1]) =~= unlabeled(x, x.len())
            + unlabeled(y, (j - 1) as nat).push(y[j - 1]));
    }
}

/// Dropping labels from two lists of words drops them from each.
pub proof fn lemma_unlabeled_concat(x: Seq<Seq<char>>, y: Seq<Seq<char>>)
    ensures
        unlabeled(x + y, (x + y).len()) == unlabeled(x, x.len()) + unlabeled(y, y.len()),
{
    lemma_unlabeled_concat_at(x, y, y.len());
}

proof fn lemma_thinned_prefix(x: Seq<Seq<char>>, y: Seq<Seq<char>>, i: nat)
    requires
        i <= x.len(),
    ensures
        thinned(x + y, i) == thinned(x, i),
    decreases i,
{
    if i > 0 {
        lemma_thinned_prefix(x, y, (i - 1) as nat);
        assert((x + y)[i - 1] == x[i - 1]);
    }
}

proof fn lemma_thinned_concat_at(x: Seq<Seq<char>>, y: Seq<Seq<char>>, j: nat)
    requires
        j <= y.len(),
        x.len() % 4 == 0,
    ensures
        thinned(x + y, x.len() + j) == thinned(x, x.len()) + thinned(y, j),
    decreases j,
{
    if j == 0 {
        lemma_thinned_prefix(x, y, x.len());
        assert(thinned(x, x.len()) + Seq::<Seq<char>>::empty() =~= thinned(x, x.len()));
    } else {
        lemma_thinned_concat_at(x, y, (j - 1) as nat);
        assert((x + y)[x.len() + j - 1] == y[j - 1]);
        assert((x.len() + j - 1) % 4 == (j - 1) % 4);
        assert((thinned(x, x.len()) + thinned(y, (j - 1) as nat)).push(y[j - 1]) =~= thinned(x, x.len())
            + thinned(y, (j - 1) as nat).push(y[j - 1]));
    }
}

/// Dropping every fourth word from two lists, the first of a length that is
/// a multiple of four, drops them from each.
pub proof fn lemma_thinned_concat(x: Seq<Seq<char>>, y: Seq<Seq<char>>)
    requires
        x.len() % 4 == 0,
    ensures
        thinned(x + y, (x + y).len()) == thinned(x, x.len()) + thinned(y, y.len()),
{
    lemma_thinned_concat_at(x, y, y.len());
}

/// The fields of a save line: name, tier and keys, each with its `;`.
pub open spec fn line_fields(v: DllView, c: int) -> Seq<Seq<char>> {
    seq![
        v.cubes[c].name.push(';'),
        int_decimal(v.cubes[c].tier as int).push(';'),
        fb_text(v, c).push(';')
    ]
}

/// The fields of the first `k` save lines.
pub open spec fn file_fields(v: DllView, es: Seq<(Seq<char>, usize)>, k: nat) -> Seq<Seq<char>>
    decreases k,
{
    if k == 0 || k > es.len() {
        Seq::empty()
    } else {
        file_fields(v, es, (k - 1) as nat) + line_fields(v, es[k - 1].1 as int)
    }
}

/// The words of the first `k` save lines without their labels.
pub open spec fn file_unlabeled(v: DllView, es: Seq<(Seq<char>, usize)>, k: nat) -> Seq<Seq<char>>
    decreases k,
{
    if k == 0 || k > es.len() {
        Seq::empty()
    } else {
        file_unlabeled(v, es, (k - 1) as nat) + seq![
            v.cubes[es[k - 1].1 as int].name.push(';'),
            int_decimal(v.cubes[es[k - 1].1 as int].tier as int).push(';'),
            fb_text(v, es[k - 1].1 as int).push(';'),
            ct_text(v, es[k - 1].1 as int).push(';')
        ]
    }
}

proof fn lemma_line_unlabeled(v: DllView, c: int)
    ensures
        unlabeled(line_words(v, c), 8) == seq![
            v.cubes[c].name.push(';'),
            int_decimal(v.cubes[c].tier as int).push(';'),
            fb_text(v, c).push(';'),
            ct_text(v, c).push(';')
        ],
        thinned(unlabeled(line_words(v, c), 8), 4) == line_fields(v, c),
{
    let ws = line_words(v, c);
    reveal_with_fuel(unlabeled, 9);
    reveal_with_fuel(thinned, 5);
    assert(!is_label(ws[1]) && !is_label(ws[3]) && !is_label(ws[5]) && !is_label(ws[7])) by {
        assert(ws[1].last() == ';' && ws[3].last() == ';' && ws[5].last() == ';' && ws[7].last() == ';');
    }
    assert(is_label(ws[0]) && is_label(ws[2]) && is_label(ws[4]) && is_label(ws[6]));
    assert(unlabeled(ws, 8) =~= seq![ws[1], ws[3], ws[5], ws[7]]);
    assert(thinned(seq![ws[1], ws[3], ws[5], ws[7]], 4) =~= seq![ws[1], ws[3], ws[5]]);
}

/// The fields of a save text are the fields of its lines.
pub proof fn lemma_file_fields(v: DllView, es: Seq<(Seq<char>, usize)>, k: nat)
    requires
        k <= es.len(),
        forall|i: int| 0 <= i < k ==> line_clean(v, #[trigger] es[i].1 as int),
    ensures
        fields(save_fold(v, es, k)) == file_fields(v, es, k),
        unlabeled(file_words(v, es, k), file_words(v, es, k).len()) == file_unlabeled(v, es, k),
        file_unlabeled(v, es, k).len() == 4 * k,
        file_fields(v, es, k).len() == 3 * k,
    decreases k,
{
    lemma_file_tokens(v, es, k);
    if k == 0 {
        assert(unlabeled(Seq::<Seq<char>>::empty(), 0) =~= Seq::<Seq<char>>::empty());
        assert(thinned(Seq::<Seq<char>>::empty(), 0) =~= Seq::<Seq<char>>::empty());
    } else {
        lemma_file_fields(v, es, (k - 1) as nat);
        let c = es[k - 1].1 as int;
        let fw = file_words(v, es, (k - 1) as nat);
        let lw = line_words(v, c);
        lemma_unlabeled_concat(fw, lw);
        lemma_line_unlabeled(v, c);
        let fu = file_unlabeled(v, es, (k - 1) as nat);
        let lu = unlabeled(lw, 8);
        lemma_thinned_concat(fu, lu);
        assert(file_unlabeled(v, es, k) == fu + lu);
        assert(thinned(lu, lu.len()) == line_fields(v, c));
        assert(file_words(v, es, k) == fw + lw);
        lemma_file_tokens(v, es, (k - 1) as nat);
        assert(tokens(save_fold(v, es, (k - 1) as nat)) == fw);
        assert(thinned(fu, fu.len()) == file_fields(v, es, (k - 1) as nat));
        assert(unlabeled(fw + lw, (fw + lw).len()) == fu + lu);
        assert(fields(save_fold(v, es, k)) == thinned(fu + lu, (fu + lu).len()));
        assert(file_fields(v, es, k) == file_fields(v, es, (k - 1) as nat) + line_fields(v, c));
    }
}


/// Cutting the first `j` characters of `b` at `c`, from state `st`.
pub open spec fn split_run(st: (Seq<Seq<char>>, Seq<char>), b: Seq<char>, c: char, j: nat) -> (Seq<Seq<char>>, Seq<char>)
    decreases j,
{
    if j == 0 || j > b.len() {
        st
    } else {
        let (d, cur) = split_run(st, b, c, (j - 1) as nat);
        if b[j - 1] == c {
            (d.push(cur), Seq::empty())
        } else {
            (d, cur.push(b[j - 1]))
        }
    }
}

proof fn lemma_split_prefix(a: Seq<char>, b: Seq<char>, c: char, i: nat)
    requires
        i <= a.len(),
    ensures
        split_fold(a + b, c, i) == split_fold(a, c, i),
    decreases i,
{
    if i > 0 {
        lemma_split_prefix(a, b, c, (i - 1) as nat);
        assert((a + b)[i - 1] == a[i - 1]);
    }
}

proof fn lemma_split_concat_run(a: Seq<char>, b: Seq<char>, c: char, j: nat)
    requires
        j <= b.len(),
    ensures
        split_fold(a + b, c, a.len() + j) == split_run(split_fold(a, c, a.len()), b, c, j),
    decreases j,
{
    if j == 0 {
        lemma_split_prefix(a, b, c, a.len());
    } else {
        lemma_split_concat_run(a, b, c, (j - 1) as nat);
        assert((a + b)[a.len() + j - 1] == b[j - 1]);
    }
}

proof fn lemma_split_run_fresh(d: Seq<Seq<char>>, b: Seq<char>, c: char, j: nat)
    requires
        j <= b.len(),
    ensures
        split_run((d, Seq::empty()), b, c, j) == (d + split_fold(b, c, j).0, split_fold(b, c, j).1),
    decreases j,
{
    if j > 0 {
        lemma_split_run_fresh(d, b, c, (j - 1) as nat);
        let (dd, cur) = split_fold(b, c, (j - 1) as nat);
        assert((d + dd).push(cur) =~= d + dd.push(cur));
    }
}

/// Text that ends just after a cut at `c`.
proof fn lemma_split_after_cut(a: Seq<char>, c: char)
    ensures
        split_fold(a.push(c), c, a.len() + 1) == (split_on(a, c), Seq::<char>::empty()),
{
    lemma_split_prefix(a, seq![c], c, a.len());
    assert(a + seq![c] =~= a.push(c));
}

/// Text cut at `c` after a `c`: the pieces of what comes before it, then
/// those of what comes after.
pub proof fn lemma_split_concat(a: Seq<char>, b: Seq<char>, c: char)
    ensures
        split_on(a.push(c) + b, c) == split_on(a, c) + split_on(b, c),
{
    let a1 = a.push(c);
    lemma_split_after_cut(a, c);
    lemma_split_concat_run(a1, b, c, b.len());
    lemma_split_run_fresh(split_on(a, c), b, c, b.len());
    let (db, cb) = split_fold(b, c, b.len());
    assert((a1 + b).len() == a1.len() + b.len());
    assert((split_on(a, c) + db).push(cb) =~= split_on(a, c) + db.push(cb));
}

/// A text without `c` is one piece.
pub proof fn lemma_split_whole(b: Seq<char>, c: char)
    requires
        forall|i: int| 0 <= i < b.len() ==> #[trigger] b[i] != c,
    ensures
        split_on(b, c) == seq![b],
{
    assert forall|j: nat| j <= b.len() implies #[trigger] split_fold(b, c, j) == (Seq::<Seq<char>>::empty(), b.subrange(0, j as int)) by {
        lemma_split_whole_at(b, c, j);
    }
    assert(b.subrange(0, b.len() as int) =~= b);
    assert(Seq::<Seq<char>>::empty().push(b) =~= seq![b]);
}

proof fn lemma_split_whole_at(b: Seq<char>, c: char, j: nat)
    requires
        forall|i: int| 0 <= i < b.len() ==> #[trigger] b[i] != c,
        j <= b.len(),
    ensures
        split_fold(b, c, j) == (Seq::<Seq<char>>::empty(), b.subrange(0, j as int)),
    decreases j,
{
    if j > 0 {
        lemma_split_whole_at(b, c, (j - 1) as nat);
        assert(b.subrange(0, j - 1).push(b[j - 1]) =~= b.subrange(0, j as int));
    }
}

/// Items joined with commas, none holding a comma, are cut back into the
/// items.
pub proof fn lemma_split_joined(items: Seq<Seq<char>>)
    requires
        items.len() > 0,
        forall|i: int, k: int| 0 <= i < items.len() && 0 <= k < items[i].len() ==> #[trigger] items[i][k] != ',',
    ensures
        split_on(joined(items), ',') == items,
    decreases items.len(),
{
    if items.len() == 1 {
        lemma_split_whole(items[0], ',');
        assert(seq![items[0]] =~= items);
    } else {
        let d = items.drop_last();
        assert forall|i: int, k: int| 0 <= i < d.len() && 0 <= k < d[i].len() implies #[trigger] d[i][k] != ',' by {
            assert(d[i] == items[i]);
        }
        lemma_split_joined(d);
        let x = items.last();
        assert forall|k: int| 0 <= k < x.len() implies #[trigger] x[k] != ',' by {
            assert(items[items.len() - 1][k] != ',');
        }
        lemma_split_whole(x, ',');
        lemma_split_concat(joined(d), x, ',');
        assert(joined(items) =~= joined(d).push(',') + x);
        assert(d + seq![x] =~= items);
    }
}


/// A name that a saved key can hold: a cube name other than `?`.
pub open spec fn key_name_ok(n: Seq<char>) -> bool {
    valid_cube_name(n) && n != "?"@
}

/// The request to link key `k` into cube `name`, as a save file gives it.
pub open spec fn req_of(name: Seq<char>, k: KeyView) -> LinkReq {
    match k {
        KeyView::Pair(a, b) => LinkReq { cube: name, first: a, second: Some(b) },
        KeyView::Single(a) => LinkReq { cube: name, first: a.push('?'), second: None },
    }
}

/// The requests to link the keys `fb` into cube `name`, in order.
pub open spec fn key_reqs(name: Seq<char>, fb: Seq<(KeyView, (usize, usize))>) -> Seq<LinkReq> {
    fb.map_values(|e: (KeyView, (usize, usize))| req_of(name, e.0))
}

proof fn lemma_valid_chars(n: Seq<char>)
    requires
        key_name_ok(n),
    ensures
        forall|i: int| 0 <= i < n.len() ==> #[trigger] n[i] != ',' && n[i] != '|' && n[i] != '?' && !is_ws(n[i]),
{
    reveal_strlit("?");
}

/// Both names of a key that a save file can hold.
pub open spec fn key_names_ok(k: KeyView) -> bool {
    match k {
        KeyView::Pair(a, b) => key_name_ok(a) && key_name_ok(b),
        KeyView::Single(a) => key_name_ok(a),
    }
}

/// A saved key is read back as the request to link it.
#[verifier::spinoff_prover]
#[verifier::rlimit(30)]
pub proof fn lemma_parse_key(name: Seq<char>, k: KeyView, n: nat)
    requires
        key_names_ok(k),
    ensures
        parse_item(name, key_styled(KeyStyle::Save, k), n) == Ok::<LinkReq, ErrView>(req_of(name, k)),
{
    reveal(parse_item);
    reveal_strlit("?");
    match k {
        KeyView::Pair(a, b) => {
            lemma_valid_chars(a);
            lemma_valid_chars(b);
            lemma_split_whole(a, '|');
            lemma_split_whole(b, '|');
            lemma_split_concat(a, b, '|');
            assert(key_styled(KeyStyle::Save, k) =~= a.push('|') + b);
            let parts = split_on(key_styled(KeyStyle::Save, k), '|');
            assert(parts =~= seq![a, b]);
            if a.len() > 0 {
                assert(a[a.len() - 1] != '?');
            }
        },
        KeyView::Single(a) => {
            lemma_valid_chars(a);
            let item = a.push('?');
            assert(key_styled(KeyStyle::Save, k) =~= item);
            assert forall|i: int| 0 <= i < item.len() implies #[trigger] item[i] != '|' by {
                if i < a.len() {
                    assert(item[i] == a[i]);
                }
            }
            lemma_split_whole(item, '|');
            assert(item.drop_last() =~= a);
        },
    }
}

/// The saved keys of a cube are read back as the requests to link them.
pub proof fn lemma_parse_keys(name: Seq<char>, fb: Seq<(KeyView, (usize, usize))>, n: nat, i: nat)
    requires
        i <= fb.len(),
        forall|x: int| 0 <= x < fb.len() ==> key_names_ok(#[trigger] fb[x].0),
    ensures
        items_fold(name, fb_items(fb, KeyStyle::Save), n, i) == Ok::<Seq<LinkReq>, ErrView>(key_reqs(name, fb).subrange(0, i as int)),
    decreases i,
{
    if i > 0 {
        lemma_parse_keys(name, fb, n, (i - 1) as nat);
        assert(key_names_ok(fb[i - 1].0));
        lemma_parse_key(name, fb[i - 1].0, n);
        assert(fb_items(fb, KeyStyle::Save)[i - 1] == key_styled(KeyStyle::Save, fb[i - 1].0));
        assert(key_reqs(name, fb).subrange(0, i - 1).push(req_of(name, fb[i - 1].0)) =~= key_reqs(name, fb).subrange(0, i as int));
    } else {
        assert(key_reqs(name, fb).subrange(0, 0) =~= Seq::<LinkReq>::empty());
    }
}

/// The text of saved keys holds no comma inside a key, nor white space.
pub proof fn lemma_key_texts(fb: Seq<(KeyView, (usize, usize))>)
    requires
        forall|x: int| 0 <= x < fb.len() ==> key_names_ok(#[trigger] fb[x].0),
    ensures
        forall|i: int, k: int|
            0 <= i < fb_items(fb, KeyStyle::Save).len() && 0 <= k < fb_items(fb, KeyStyle::Save)[i].len() ==> #[trigger] fb_items(
                fb,
                KeyStyle::Save,
            )[i][k] != ',' && !is_ws(fb_items(fb, KeyStyle::Save)[i][k]),
        forall|i: int| 0 <= i < fb_items(fb, KeyStyle::Save).len() ==> #[trigger] fb_items(fb, KeyStyle::Save)[i].len() > 0,
{
    let items = fb_items(fb, KeyStyle::Save);
    assert forall|i: int, k: int| 0 <= i < items.len() && 0 <= k < items[i].len() implies #[trigger] items[i][k] != ','
        && !is_ws(items[i][k]) by {
        assert(key_names_ok(fb[i].0));
        match fb[i].0 {
            KeyView::Pair(a, b) => {
                lemma_valid_chars(a);
                lemma_valid_chars(b);
                let t = a + seq!['|'] + b;
                assert(items[i] == t);
                if k < a.len() {
                    assert(t[k] == a[k]);
                } else if k > a.len() {
                    assert(t[k] == b[k - a.len() - 1]);
                }
            },
            KeyView::Single(a) => {
                lemma_valid_chars(a);
                let t = a + seq!['?'];
                assert(items[i] == t);
                if k < a.len() {
                    assert(t[k] == a[k]);
                }
            },
        }
    }
    assert forall|i: int| 0 <= i < items.len() implies #[trigger] items[i].len() > 0 by {
        match fb[i].0 {
            KeyView::Pair(a, b) => {},
            KeyView::Single(a) => {},
        }
    }
}


/// The graph after reading the first `i` lines of the save text of `v`
/// (entries `es`): fresh cubes with the names and tiers of the entries, in
/// order, each bound by the map to its position; no pointer.
pub open spec fn loaded(v: DllView, es: Seq<(Seq<char>, usize)>, i: nat) -> DllView {
    DllView {
        pointer: None,
        cubes: Seq::new(i, |x: int| fresh_cube(es[x].0, v.cubes[es[x].1 as int].tier)),
        hashmap: Seq::new(i, |x: int| (es[x].0, x as usize)),
    }
}

/// The requests to link the keys of the first `i` lines.
pub open spec fn loaded_links(v: DllView, es: Seq<(Seq<char>, usize)>, i: nat) -> Seq<LinkReq>
    decreases i,
{
    if i == 0 || i > es.len() {
        Seq::empty()
    } else {
        loaded_links(v, es, (i - 1) as nat) + key_reqs(es[i - 1].0, v.cubes[es[i - 1].1 as int].fused_by)
    }
}

/// What a line of the save text needs to be read back: the entry names
/// its cube, a name that can be read, a tier of at least -1, text without
/// white space, and keys whose names can be read.
pub open spec fn line_ok(v: DllView, e: (Seq<char>, usize)) -> bool {
    let c = v.cubes[e.1 as int];
    &&& 0 <= e.1 < v.cubes.len()
    &&& c.name == e.0
    &&& valid_cube_name(e.0)
    &&& c.tier >= -1
    &&& line_clean(v, e.1 as int)
    &&& forall|x: int| 0 <= x < c.fused_by.len() ==> key_names_ok(#[trigger] c.fused_by[x].0)
}

proof fn lemma_fields_index(v: DllView, es: Seq<(Seq<char>, usize)>, k: nat)
    requires
        k <= es.len(),
    ensures
        file_fields(v, es, k).len() == 3 * k,
        forall|x: int, j: int|
            0 <= x < k && 0 <= j < 3 ==> #[trigger] file_fields(v, es, k)[3 * x + j] == line_fields(v, es[x].1 as int)[j],
    decreases k,
{
    if k > 0 {
        lemma_fields_index(v, es, (k - 1) as nat);
        let f = file_fields(v, es, (k - 1) as nat);
        let l = line_fields(v, es[k - 1].1 as int);
        assert forall|x: int, j: int| 0 <= x < k && 0 <= j < 3 implies #[trigger] file_fields(v, es, k)[3 * x + j]
            == line_fields(v, es[x].1 as int)[j] by {
            if x < k - 1 {
                assert((f + l)[3 * x + j] == f[3 * x + j]);
            } else {
                assert((f + l)[3 * x + j] == l[j]);
            }
        }
    }
}

proof fn lemma_fields_at(v: DllView, es: Seq<(Seq<char>, usize)>, k: nat, x: int)
    requires
        k <= es.len(),
        0 <= x < k,
    ensures
        file_fields(v, es, k)[3 * x] == line_fields(v, es[x].1 as int)[0],
        file_fields(v, es, k)[3 * x + 1] == line_fields(v, es[x].1 as int)[1],
        file_fields(v, es, k)[3 * x + 2] == line_fields(v, es[x].1 as int)[2],
{
    lemma_fields_index(v, es, k);
    assert(file_fields(v, es, k)[3 * x + 0] == line_fields(v, es[x].1 as int)[0]);
    assert(file_fields(v, es, k)[3 * x + 1] == line_fields(v, es[x].1 as int)[1]);
    assert(file_fields(v, es, k)[3 * x + 2] == line_fields(v, es[x].1 as int)[2]);
}

/// Reading back decimal numbers: the decimal text of every `i32` reads as
/// that number.
pub open spec fn reads_back_decimals() -> bool {
    forall|t: i32| #[trigger] i32_parse(int_decimal(t as int)) == Ok::<i32, IntParse>(t)
}

/// The decimal text of an integer has that integer as its value.
pub proof fn lemma_decimal_value_of(t: int)
    ensures
        decimal_value(int_decimal(t)) == Some(t),
{
    let n: nat = if t < 0 { (-t) as nat } else { t as nat };
    lemma_nat_decimal_digits(n);
    let d = nat_decimal(n);
    if t < 0 {
        let s = seq!['-'] + d;
        assert(unsigned_part(s) =~= d);
    } else {
        assert(d[0] != '+' && d[0] != '-') by {
            assert(is_dec_digit(d[0]));
        }
        assert(unsigned_part(d) == d);
    }
}

/// Every `i32` reads back from its decimal text.
pub proof fn lemma_reads_back_decimals()
    ensures
{
    assert forall|t: i32| #[trigger] i32_parse(int_decimal(t as int)) == Ok::<i32, IntParse>(t) by {
        lemma_decimal_value_of(t as int);
    }
}

proof fn lemma_fb_text_empty(fb: Seq<(KeyView, (usize, usize))>)
    requires
        forall|x: int| 0 <= x < fb.len() ==> key_names_ok(#[trigger] fb[x].0),
    ensures
        (joined(fb_items(fb, KeyStyle::Save)).len() == 0) == (fb.len() == 0),
{
    let items = fb_items(fb, KeyStyle::Save);
    lemma_key_texts(fb);
    if fb.len() > 0 {
        lemma_joined_len(items);
    } else {
        assert(items.len() == 0);
    }
}

proof fn lemma_joined_len(items: Seq<Seq<char>>)
    requires
        items.len() > 0,
        items[0].len() > 0,
    ensures
        joined(items).len() > 0,
    decreases items.len(),
{
    if items.len() > 1 {
        lemma_joined_len(items.drop_last());
    }
}

/// Reading the lines of the save text adds the cubes in order and gathers
/// the requests to link their keys.
pub proof fn lemma_lines(v: DllView, es: Seq<(Seq<char>, usize)>, i: nat)
    requires
        i <= es.len(),
        keys_distinct(es),
        forall|x: int| 0 <= x < es.len() ==> line_ok(v, #[trigger] es[x]),
    ensures
        ({
            let st0 = LoadState { dll: empty_dll(), text: no_text(), links: Seq::empty(), err: None };
            let st = lines_fold(st0, file_fields(v, es, es.len()), i);
            &&& st.dll == loaded(v, es, i)
            &&& st.links == loaded_links(v, es, i)
            &&& st.err is None
        }),
    decreases i,
{
    let st0 = LoadState { dll: empty_dll(), text: no_text(), links: Seq::empty(), err: None };
    let fs = file_fields(v, es, es.len());
    lemma_fields_index(v, es, es.len());
    if i == 0 {
        assert(loaded(v, es, 0).cubes =~= Seq::<CubeView>::empty());
        assert(loaded(v, es, 0).hashmap =~= Seq::<(Seq<char>, usize)>::empty());
    } else {
        lemma_lines(v, es, (i - 1) as nat);
        let x = (i - 1) as int;
        let st = lines_fold(st0, fs, (i - 1) as nat);
        let e = es[x];
        assert(line_ok(v, e));
        let c = v.cubes[e.1 as int];
        let name = e.0;
        let tier = c.tier;
        lemma_fields_at(v, es, es.len(), x);
        reveal(load_line);
        assert(strip_semi(name.push(';')) == Some(name)) by {
            assert(name.push(';').drop_last() =~= name);
        }
        assert(strip_semi(int_decimal(tier as int).push(';')) == Some(int_decimal(tier as int))) by {
            assert(int_decimal(tier as int).push(';').drop_last() =~= int_decimal(tier as int));
        }
        let fbt = fb_text(v, e.1 as int);
        assert(strip_semi(fbt.push(';')) == Some(fbt)) by {
            assert(fbt.push(';').drop_last() =~= fbt);
        }
        lemma_decimal_value_of(tier as int);
        assert(i32_parse(int_decimal(tier as int)) == Ok::<i32, IntParse>(tier));
        let d0 = loaded(v, es, (i - 1) as nat);
        assert(!has_key(d0.hashmap, name)) by {
            if has_key(d0.hashmap, name) {
                let j = choose|j: int| 0 <= j < d0.hashmap.len() && #[trigger] d0.hashmap[j].0 == name;
                assert(es[j].0 == es[x].0);
            }
        }
        lemma_find_key(d0.hashmap, name);
        let (d1, r1) = spec_add(d0, fresh_cube(name, tier));
        assert(r1 is Ok);
        assert(d1.cubes =~= loaded(v, es, i).cubes);
        assert(d1.hashmap =~= loaded(v, es, i).hashmap);
        assert(d1 == loaded(v, es, i));
        let fb = c.fused_by;
        lemma_fb_text_empty(fb);
        if fb.len() == 0 {
            assert(key_reqs(name, fb) =~= Seq::<LinkReq>::empty());
            assert(loaded_links(v, es, i) =~= loaded_links(v, es, (i - 1) as nat));
        } else {
            lemma_key_texts(fb);
            lemma_split_joined(fb_items(fb, KeyStyle::Save));
            lemma_parse_keys(name, fb, i, fb.len());
            assert(key_reqs(name, fb).subrange(0, fb.len() as int) =~= key_reqs(name, fb));
        }
    }
}


/// Linking key `k` into cube `p` leaves the unknown cube alone: when `p` is
/// not `?`, the cube `?` (if any) does not have `k`; when it is, no cube of
/// the map has `k`.
pub open spec fn unknown_untouched(w: DllView, p: int, k: KeyView) -> bool {
    if w.cubes[p].name != unknown_name() {
        match w.lookup(unknown_name()) {
            Some(q) => !has_key(w.cubes[q as int].fused_by, k),
            None => true,
        }
    } else {
        !key_known(w, k)
    }
}

/// Everything but the keys of the cubes stays: the map, the pointer, the
/// cubes' names and tiers.
pub open spec fn same_but_keys(a: DllView, b: DllView) -> bool {
    &&& same_frame(a, b)
    &&& forall|c: int| 0 <= c < a.cubes.len() ==> (#[trigger] b.cubes[c]).tier == a.cubes[c].tier
}

/// Exactly one key more: cube `p` gets `k` with links `ids` at the end of
/// its keys, every other cube keeps its keys.
pub open spec fn one_key_more(a: DllView, b: DllView, p: int, k: KeyView, ids: (usize, usize)) -> bool {
    &&& same_but_keys(a, b)
    &&& b.cubes[p].fused_by == a.cubes[p].fused_by.push((k, ids))
    &&& forall|c: int| 0 <= c < a.cubes.len() && c != p ==> (#[trigger] b.cubes[c]).fused_by == a.cubes[c].fused_by
}

proof fn lemma_stage_untouched(w: DllView, p: int, k: KeyView)
    requires
        0 <= p < w.cubes.len(),
        unknown_untouched(w, p, k),
    ensures
        spec_unknown_stage(w, p, k) == (w, spec_unknown_stage(w, p, k).1, false),
{
    reveal(spec_unknown_stage);
}

proof fn lemma_add_fb_exact(w: DllView, p: int, k: KeyView, ids: (usize, usize), msg: Seq<char>)
    requires
        0 <= p < w.cubes.len(),
        !has_key(w.cubes[p].fused_by, k),
    ensures
        one_key_more(w, spec_add_fb(w, p, k, ids, msg).0, p, k, ids),
{
    reveal(spec_add_fb);
    lemma_find_key(w.cubes[p].fused_by, k);
}

proof fn lemma_add_to_keys_kept(w: DllView, c: int, p: int)
    requires
        0 <= c < w.cubes.len(),
        0 <= p < w.cubes.len(),
    ensures
        same_but_keys(w, spec_add_to(w, c, p).0),
        forall|d: int| 0 <= d < w.cubes.len() ==> (#[trigger] spec_add_to(w, c, p).0.cubes[d]).fused_by == w.cubes[d].fused_by,
{
    reveal(spec_add_to);
}

/// The pair of cubes `i1`, `i2` fused into cube `p`, with the unknown
/// cube left alone and the key new to `p`, adds exactly that key.
pub proof fn lemma_fuse_pair_exact(w: DllView, p: int, i1: usize, i2: usize)
    requires
        0 <= p < w.cubes.len(),
        i1 < w.cubes.len(),
        i2 < w.cubes.len(),
        !has_key(w.cubes[p].fused_by, pair_key(w.cubes[i1 as int].name, w.cubes[i2 as int].name)),
        unknown_untouched(w, p, pair_key(w.cubes[i1 as int].name, w.cubes[i2 as int].name)),
    ensures
        one_key_more(w, spec_fuse_pair(w, p, i1, i2).0, p, pair_key(w.cubes[i1 as int].name, w.cubes[i2 as int].name), (i1, i2)),
{
    let a = w.cubes[i1 as int].name;
    let b = w.cubes[i2 as int].name;
    let k = pair_key(a, b);
    lemma_stage_untouched(w, p, k);
    let msg = crate::cube::msg_pair_known(a, b, w.cubes[p].name);
    lemma_add_fb_exact(w, p, k, (i1, i2), msg);
    let v2 = spec_add_fb(w, p, k, (i1, i2), msg).0;
    lemma_add_to_keys_kept(v2, i1 as int, p);
    let v3 = spec_add_to(v2, i1 as int, p).0;
    lemma_add_to_keys_kept(v3, i2 as int, p);
    let v4 = spec_add_to(v3, i2 as int, p).0;
    assert(v2.cubes[i1 as int].name == a && v2.cubes[i2 as int].name == b);
    if a == b {
        assert(spec_fuse_pair(w, p, i1, i2).0 == v3);
    } else {
        assert(spec_fuse_pair(w, p, i1, i2).0 == v4);
    }
}

/// Cube `i` fused alone into cube `p`, with the unknown cube left alone
/// and the key new to `p`, adds exactly that key.
pub proof fn lemma_fuse_single_exact(w: DllView, p: int, i: usize)
    requires
        0 <= p < w.cubes.len(),
        i < w.cubes.len(),
        !has_key(w.cubes[p].fused_by, KeyView::Single(w.cubes[i as int].name)),
        unknown_untouched(w, p, KeyView::Single(w.cubes[i as int].name)),
    ensures
        one_key_more(w, spec_fuse_single(w, p, i).0, p, KeyView::Single(w.cubes[i as int].name), (i, i)),
{
    let a = w.cubes[i as int].name;
    let k = KeyView::Single(a);
    lemma_stage_untouched(w, p, k);
    let msg = crate::cube::msg_single_known(a, w.cubes[p].name);
    lemma_add_fb_exact(w, p, k, (i, i), msg);
    let v2 = spec_add_fb(w, p, k, (i, i), msg).0;
    lemma_add_to_keys_kept(v2, i as int, p);
    assert(spec_fuse_single(w, p, i).0 == spec_add_to(v2, i as int, p).0);
}


/// The keys of a list of keys with their links.
pub open spec fn fb_keys(s: Seq<(KeyView, (usize, usize))>) -> Seq<KeyView> {
    s.map_values(|e: (KeyView, (usize, usize))| e.0)
}

/// The saved keys of the `x`-th entry.
pub open spec fn vfb(v: DllView, es: Seq<(Seq<char>, usize)>, x: int) -> Seq<(KeyView, (usize, usize))> {
    v.cubes[es[x].1 as int].fused_by
}

/// How many keys of the `x`-th cube are linked once `j` keys of the `i`-th
/// are: all before it, `j` of it, none after.
pub open spec fn linked_count(v: DllView, es: Seq<(Seq<char>, usize)>, x: int, i: int, j: int) -> int {
    if x < i {
        vfb(v, es, x).len() as int
    } else if x == i {
        j
    } else {
        0
    }
}

/// The graph while the keys are linked: the map and the cubes of the lines
/// read, each cube with the first keys it was saved with.
pub open spec fn linked(v: DllView, es: Seq<(Seq<char>, usize)>, w: DllView, i: int, j: int) -> bool {
    &&& w.hashmap == loaded(v, es, es.len()).hashmap
    &&& w.cubes.len() == es.len()
    &&& forall|x: int| 0 <= x < es.len() ==> (#[trigger] w.cubes[x]).name == es[x].0 && w.cubes[x].tier == v.cubes[es[x].1 as int].tier
    &&& forall|x: int| 0 <= x < es.len() ==> fb_keys(#[trigger] w.cubes[x].fused_by) == fb_keys(vfb(v, es, x)).take(linked_count(v, es, x, i, j))
}

/// What the keys of the entries need to be linked back: each key names
/// cubes of the map other than its own, pairs in order, keys of a cube are
/// pairwise different, and the unknown cube shares no key with another.
pub open spec fn keys_ok(v: DllView, es: Seq<(Seq<char>, usize)>) -> bool {
    &&& forall|x: int| 0 <= x < es.len() ==> keys_distinct(#[trigger] vfb(v, es, x))
    &&& forall|x: int, y: int| 0 <= x < es.len() && 0 <= y < vfb(v, es, x).len() ==> key_linkable(es, es[x].0, #[trigger] vfb(v, es, x)[y].0)
    &&& forall|x: int, z: int, k: KeyView|
        0 <= x < es.len() && 0 <= z < es.len() && es[x].0 == unknown_name() && es[z].0 != unknown_name()
            && #[trigger] has_key(vfb(v, es, x), k) ==> !#[trigger] has_key(vfb(v, es, z), k)
}

/// Key `k` of cube `owner` can be linked back among the entries `es`.
pub open spec fn key_linkable(es: Seq<(Seq<char>, usize)>, owner: Seq<char>, k: KeyView) -> bool {
    match k {
        KeyView::Pair(a, b) => has_key(es, a) && has_key(es, b) && a != owner && b != owner && pair_key(a, b) == k,
        KeyView::Single(a) => has_key(es, a) && a != owner,
    }
}

proof fn lemma_lookup_loaded(v: DllView, es: Seq<(Seq<char>, usize)>, a: Seq<char>) -> (y: int)
    requires
        keys_distinct(es),
        has_key(es, a),
    ensures
        0 <= y < es.len(),
        es[y].0 == a,
        loaded(v, es, es.len()).lookup(a) == Some(y as usize),
{
    let y = choose|y: int| 0 <= y < es.len() && #[trigger] es[y].0 == a;
    let h = loaded(v, es, es.len()).hashmap;
    assert(h[y].0 == a);
    assert forall|z: int| 0 <= z < y implies h[z].0 != a by {
        assert(h[z].0 == es[z].0);
    }
    lemma_find_key_at(h, a, y);
    assert(has_key(h, a));
    y
}

proof fn lemma_has_key_keys(s: Seq<(KeyView, (usize, usize))>, k: KeyView)
    ensures
        has_key(s, k) <==> fb_keys(s).contains(k),
{
    if has_key(s, k) {
        let i = choose|i: int| 0 <= i < s.len() && #[trigger] s[i].0 == k;
        assert(fb_keys(s)[i] == k);
    }
    if fb_keys(s).contains(k) {
        let i = choose|i: int| 0 <= i < fb_keys(s).len() && fb_keys(s)[i] == k;
        assert(s[i].0 == k);
    }
}

proof fn lemma_prefix_within(s: Seq<(KeyView, (usize, usize))>, vs: Seq<(KeyView, (usize, usize))>, m: int, k: KeyView)
    requires
        0 <= m <= vs.len(),
        fb_keys(s) == fb_keys(vs).take(m),
        has_key(s, k),
    ensures
        has_key(vs, k),
{
    lemma_has_key_keys(s, k);
    lemma_has_key_keys(vs, k);
    let i = choose|i: int| 0 <= i < fb_keys(s).len() && fb_keys(s)[i] == k;
    assert(fb_keys(vs)[i] == k);
}

proof fn lemma_not_in_prefix(s: Seq<(KeyView, (usize, usize))>, vs: Seq<(KeyView, (usize, usize))>, j: int)
    requires
        0 <= j < vs.len(),
        keys_distinct(vs),
        fb_keys(s) == fb_keys(vs).take(j),
    ensures
        !has_key(s, vs[j].0),
{
    lemma_has_key_keys(s, vs[j].0);
    if fb_keys(s).contains(vs[j].0) {
        let i = choose|i: int| 0 <= i < fb_keys(s).len() && fb_keys(s)[i] == vs[j].0;
        assert(vs[i].0 == vs[j].0);
    }
}


/// The key being linked is not on the unknown cube, or (when it goes to
/// the unknown cube) on no cube at all.
proof fn lemma_untouched(v: DllView, es: Seq<(Seq<char>, usize)>, w: DllView, i: int, j: int)
    requires
        keys_distinct(es),
        keys_ok(v, es),
        es.len() <= usize::MAX,
        0 <= i < es.len(),
        0 <= j < vfb(v, es, i).len(),
        linked(v, es, w, i, j),
    ensures
        unknown_untouched(w, i, vfb(v, es, i)[j].0),
{
    let fb = vfb(v, es, i);
    let k = fb[j].0;
    assert(has_key(fb, k)) by {
        assert(fb[j].0 == k);
    }
    assert(w.cubes[i].name == es[i].0);
    if w.cubes[i].name != unknown_name() {
        if has_key(es, unknown_name()) {
            let q = lemma_lookup_loaded(v, es, unknown_name());
            assert(w.lookup(unknown_name()) == Some(q as usize));
            if has_key(vfb(v, es, q), k) {
                assert(!has_key(vfb(v, es, i), k));
            }
            if has_key(w.cubes[q].fused_by, k) {
                lemma_prefix_within(w.cubes[q].fused_by, vfb(v, es, q), linked_count(v, es, q, i, j), k);
            }
        } else {
            assert(!has_key(w.hashmap, unknown_name())) by {
                if has_key(w.hashmap, unknown_name()) {
                    let z = choose|z: int| 0 <= z < w.hashmap.len() && #[trigger] w.hashmap[z].0 == unknown_name();
                    assert(es[z].0 == unknown_name());
                }
            }
        }
    } else {
        assert forall|z: int| 0 <= z < w.hashmap.len() implies !has_key(
            #[trigger] w.cubes[w.hashmap[z].1 as int].fused_by,
            k,
        ) by {
            assert(w.hashmap[z].1 as int == z);
            if z == i {
                lemma_not_in_prefix(w.cubes[i].fused_by, fb, j);
            } else {
                assert(es[z].0 != es[i].0);
                if has_key(vfb(v, es, z), k) {
                    assert(!has_key(vfb(v, es, z), k));
                }
                if has_key(w.cubes[z].fused_by, k) {
                    lemma_prefix_within(w.cubes[z].fused_by, vfb(v, es, z), linked_count(v, es, z, i, j), k);
                }
            }
        }
    }
}

/// One more key on cube `i`, the next one it was saved with, takes the
/// linking one step on.
proof fn lemma_linked_next(
    v: DllView,
    es: Seq<(Seq<char>, usize)>,
    w: DllView,
    w2: DllView,
    i: int,
    j: int,
    ids: (usize, usize),
)
    requires
        0 <= i < es.len(),
        0 <= j < vfb(v, es, i).len(),
        linked(v, es, w, i, j),
        one_key_more(w, w2, i, vfb(v, es, i)[j].0, ids),
    ensures
        linked(v, es, w2, i, j + 1),
{
    let fb = vfb(v, es, i);
    assert forall|x: int| 0 <= x < es.len() implies fb_keys(#[trigger] w2.cubes[x].fused_by) == fb_keys(vfb(v, es, x)).take(
        linked_count(v, es, x, i, j + 1),
    ) by {
        assert(fb_keys(w.cubes[x].fused_by) == fb_keys(vfb(v, es, x)).take(linked_count(v, es, x, i, j)));
        if x == i {
            let old_fb = w.cubes[i].fused_by;
            assert(fb_keys(old_fb.push((fb[j].0, ids))) =~= fb_keys(old_fb).push(fb[j].0));
            assert(fb_keys(fb).take(j + 1) =~= fb_keys(fb).take(j).push(fb[j].0));
        }
    }
}


/// Some key linked so far, of a cube named `nm`, names `cn`.
pub open spec fn linked_key_names(v: DllView, es: Seq<(Seq<char>, usize)>, i: int, j: int, nm: Seq<char>, cn: Seq<char>) -> bool {
    exists|y: int, z: int|
        0 <= y < es.len() && 0 <= z < linked_count(v, es, y, i, j) && es[y].0 == nm && key_mentions(
            #[trigger] vfb(v, es, y)[z].0,
            cn,
        )
}

/// While linking, each cube converts exactly to the cubes (other than `?`)
/// whose keys linked so far name it.
pub open spec fn ct_linked(v: DllView, es: Seq<(Seq<char>, usize)>, w: DllView, i: int, j: int) -> bool {
    forall|x: int, nm: Seq<char>|
        0 <= x < es.len() ==> (#[trigger] has_key(w.cubes[x].converts_to, nm) <==> (nm != unknown_name() && linked_key_names(
            v,
            es,
            i,
            j,
            nm,
            es[x].0,
        )))
}

/// Binding a key keeps the other keys and adds that one.
proof fn lemma_insert_has<V>(s: Seq<(Seq<char>, V)>, k: Seq<char>, val: V)
    ensures
        forall|x: Seq<char>| #[trigger] has_key(key_insert(s, k, val), x) <==> (x == k || has_key(s, x)),
{
    lemma_find_key(s, k);
    let i = find_key(s, k);
    let r = key_insert(s, k, val);
    assert forall|x: Seq<char>| #[trigger] has_key(r, x) <==> (x == k || has_key(s, x)) by {
        if has_key(r, x) {
            let y = choose|y: int| 0 <= y < r.len() && #[trigger] r[y].0 == x;
            if i >= 0 {
                if y != i {
                    assert(s[y].0 == x);
                }
            } else if y < s.len() {
                assert(s[y].0 == x);
            }
        }
        if x == k {
            if i >= 0 {
                assert(r[i].0 == k);
            } else {
                assert(r[s.len() as int].0 == k);
            }
        } else if has_key(s, x) {
            let y = choose|y: int| 0 <= y < s.len() && #[trigger] s[y].0 == x;
            assert(r[y].0 == x);
        }
    }
}

/// What recording a conversion of cube `c` to cube `p` does to the conversions.
proof fn lemma_add_to_ct(w: DllView, c: int, p: int)
    requires
        0 <= c < w.cubes.len(),
        0 <= p < w.cubes.len(),
    ensures
        spec_add_to(w, c, p).0.cubes.len() == w.cubes.len(),
        forall|x: int, nm: Seq<char>| 0 <= x < w.cubes.len() ==> (#[trigger] has_key(spec_add_to(w, c, p).0.cubes[x].converts_to, nm) <==> (
        has_key(w.cubes[x].converts_to, nm) || (x == c && nm == w.cubes[p].name && nm != unknown_name()))),
{
    reveal(spec_add_to);
    lemma_insert_has(w.cubes[c].converts_to, w.cubes[p].name, p as usize);
}

/// What fusing the pair of cubes `i1`, `i2` into cube `p` does to the
/// conversions, with the unknown cube left alone: both convert to `p`.
proof fn lemma_fuse_pair_ct(w: DllView, p: int, i1: usize, i2: usize)
    requires
        0 <= p < w.cubes.len(),
        i1 < w.cubes.len(),
        i2 < w.cubes.len(),
        i1 != i2 ==> w.cubes[i1 as int].name != w.cubes[i2 as int].name,
        unknown_untouched(w, p, pair_key(w.cubes[i1 as int].name, w.cubes[i2 as int].name)),
    ensures
        forall|x: int, nm: Seq<char>| 0 <= x < w.cubes.len() ==> (#[trigger] has_key(spec_fuse_pair(w, p, i1, i2).0.cubes[x].converts_to, nm) <==> (
        has_key(w.cubes[x].converts_to, nm) || ((x == i1 || x == i2) && nm == w.cubes[p].name && nm != unknown_name()))),
{
    let a = w.cubes[i1 as int].name;
    let b = w.cubes[i2 as int].name;
    let k = pair_key(a, b);
    lemma_stage_untouched(w, p, k);
    reveal(spec_add_fb);
    let msg = crate::cube::msg_pair_known(a, b, w.cubes[p].name);
    let v2 = spec_add_fb(w, p, k, (i1, i2), msg).0;
    assert(forall|x: int| 0 <= x < w.cubes.len() ==> (#[trigger] v2.cubes[x]).converts_to == w.cubes[x].converts_to);
    lemma_add_to_ct(v2, i1 as int, p);
    let v3 = spec_add_to(v2, i1 as int, p).0;
    lemma_add_to_ct(v3, i2 as int, p);
    reveal(spec_add_to);
    assert(v2.cubes[p].name == w.cubes[p].name);
    assert(v3.cubes[p].name == w.cubes[p].name);
    assert(v2.cubes.len() == w.cubes.len());
    let v4 = spec_add_to(v3, i2 as int, p).0;
    assert forall|x: int, nm: Seq<char>| 0 <= x < w.cubes.len() implies (#[trigger] has_key(
        spec_fuse_pair(w, p, i1, i2).0.cubes[x].converts_to,
        nm,
    ) <==> (has_key(w.cubes[x].converts_to, nm) || ((x == i1 || x == i2) && nm == w.cubes[p].name && nm != unknown_name()))) by {
        assert(has_key(v3.cubes[x].converts_to, nm) <==> (has_key(v2.cubes[x].converts_to, nm) || (x == i1 && nm == v2.cubes[p].name
            && nm != unknown_name())));
        assert(has_key(v4.cubes[x].converts_to, nm) <==> (has_key(v3.cubes[x].converts_to, nm) || (x == i2 && nm == v3.cubes[p].name
            && nm != unknown_name())));
        if a == b {
            assert(spec_fuse_pair(w, p, i1, i2).0 == v3);
            if x == i2 && x != i1 && nm == w.cubes[p].name && nm != unknown_name() {
                assert(has_key(v3.cubes[x].converts_to, nm) <==> has_key(w.cubes[x].converts_to, nm));
            }
        } else {
            assert(spec_fuse_pair(w, p, i1, i2).0 == v4);
        }
    }
}

/// What fusing cube `i` alone into cube `p` does to the conversions, with
/// the unknown cube left alone: it converts to `p`.
proof fn lemma_fuse_single_ct(w: DllView, p: int, i: usize)
    requires
        0 <= p < w.cubes.len(),
        i < w.cubes.len(),
        unknown_untouched(w, p, KeyView::Single(w.cubes[i as int].name)),
    ensures
        forall|x: int, nm: Seq<char>| 0 <= x < w.cubes.len() ==> (#[trigger] has_key(spec_fuse_single(w, p, i).0.cubes[x].converts_to, nm) <==> (
        has_key(w.cubes[x].converts_to, nm) || (x == i && nm == w.cubes[p].name && nm != unknown_name()))),
{
    let a = w.cubes[i as int].name;
    let k = KeyView::Single(a);
    lemma_stage_untouched(w, p, k);
    reveal(spec_add_fb);
    let msg = crate::cube::msg_single_known(a, w.cubes[p].name);
    let v2 = spec_add_fb(w, p, k, (i, i), msg).0;
    assert(forall|x: int| 0 <= x < w.cubes.len() ==> (#[trigger] v2.cubes[x]).converts_to == w.cubes[x].converts_to);
    assert(v2.cubes[p].name == w.cubes[p].name);
    assert(v2.cubes.len() == w.cubes.len());
    lemma_add_to_ct(v2, i as int, p);
    assert(spec_fuse_single(w, p, i).0 == spec_add_to(v2, i as int, p).0);
}

/// Linking one more key, which names exactly the cubes `ya` and `yb`, adds
/// the conversions of those two cubes to cube `i` and keeps the
/// conversions in step with the keys linked.
proof fn lemma_ct_next(
    v: DllView,
    es: Seq<(Seq<char>, usize)>,
    w: DllView,
    w2: DllView,
    i: int,
    j: int,
    ya: int,
    yb: int,
)
    requires
        keys_distinct(es),
        0 <= i < es.len(),
        0 <= j < vfb(v, es, i).len(),
        0 <= ya < es.len(),
        0 <= yb < es.len(),
        forall|n: Seq<char>| #[trigger] key_mentions(vfb(v, es, i)[j].0, n) <==> (n == es[ya].0 || n == es[yb].0),
        ct_linked(v, es, w, i, j),
        forall|x: int, nm: Seq<char>|
            0 <= x < es.len() ==> (#[trigger] has_key(w2.cubes[x].converts_to, nm) <==> (has_key(w.cubes[x].converts_to, nm) || ((x
                == ya || x == yb) && nm == es[i].0 && nm != unknown_name()))),
    ensures
        ct_linked(v, es, w2, i, j + 1),
{
    let k = vfb(v, es, i)[j].0;
    assert forall|x: int, nm: Seq<char>| 0 <= x < es.len() implies (#[trigger] has_key(w2.cubes[x].converts_to, nm) <==> (nm
        != unknown_name() && linked_key_names(v, es, i, j + 1, nm, es[x].0))) by {
        let cn = es[x].0;
        assert(key_mentions(k, cn) <==> (x == ya || x == yb)) by {
            if cn == es[ya].0 && x != ya {
                assert(es[x].0 == es[ya].0);
            }
            if cn == es[yb].0 && x != yb {
                assert(es[x].0 == es[yb].0);
            }
        }
        if linked_key_names(v, es, i, j + 1, nm, cn) {
            let (y, z) = choose|y: int, z: int|
                0 <= y < es.len() && 0 <= z < linked_count(v, es, y, i, j + 1) && es[y].0 == nm && key_mentions(
                    #[trigger] vfb(v, es, y)[z].0,
                    cn,
                );
            if !(y == i && z == j) {
                assert(linked_key_names(v, es, i, j, nm, cn));
            }
        }
        if linked_key_names(v, es, i, j, nm, cn) {
            let (y, z) = choose|y: int, z: int|
                0 <= y < es.len() && 0 <= z < linked_count(v, es, y, i, j) && es[y].0 == nm && key_mentions(
                    #[trigger] vfb(v, es, y)[z].0,
                    cn,
                );
            assert(linked_key_names(v, es, i, j + 1, nm, cn));
        }
        if es[i].0 == nm && key_mentions(k, cn) {
            assert(key_mentions(vfb(v, es, i)[j].0, cn));
            assert(linked_key_names(v, es, i, j + 1, nm, cn));
        }
    }
}

/// The names of a pair key are the two names it was made of.
proof fn lemma_pair_key_names(a: Seq<char>, b: Seq<char>, n: Seq<char>)
    ensures
        key_mentions(pair_key(a, b), n) <==> (n == a || n == b),
{
}

/// Linking the `j`-th saved key of the `i`-th entry succeeds and takes the
/// linking one key on.
proof fn lemma_link_step(v: DllView, es: Seq<(Seq<char>, usize)>, st: LoadState, i: int, j: int)
    requires
        keys_distinct(es),
        keys_ok(v, es),
        es.len() <= usize::MAX,
        0 <= i < es.len(),
        0 <= j < vfb(v, es, i).len(),
        st.err is None,
        linked(v, es, st.dll, i, j),
        ct_linked(v, es, st.dll, i, j),
    ensures
        load_link(st, key_reqs(es[i].0, vfb(v, es, i))[j]).err is None,
        linked(v, es, load_link(st, key_reqs(es[i].0, vfb(v, es, i))[j]).dll, i, j + 1),
        ct_linked(v, es, load_link(st, key_reqs(es[i].0, vfb(v, es, i))[j]).dll, i, j + 1),
{
    reveal(load_link);
    let w = st.dll;
    let fb = vfb(v, es, i);
    let k = fb[j].0;
    let owner = es[i].0;
    let l = key_reqs(owner, fb)[j];
    assert(l == req_of(owner, k));
    assert(has_key(es, owner)) by {
        assert(es[i].0 == owner);
    }
    let yi = lemma_lookup_loaded(v, es, owner);
    assert(yi == i);
    assert(w.lookup(owner) == Some(i as usize));
    let w1 = DllView { pointer: Some(i as usize), ..w };
    assert(spec_point_to(w, owner) == (w1, Ok::<(), ErrView>(())));
    assert(linked(v, es, w1, i, j));
    lemma_untouched(v, es, w1, i, j);
    lemma_not_in_prefix(w1.cubes[i].fused_by, fb, j);
    assert(key_linkable(es, owner, k));
    assert(w1.cubes[i].name == owner);
    match k {
        KeyView::Pair(a, b) => {
            let ya = lemma_lookup_loaded(v, es, a);
            let yb = lemma_lookup_loaded(v, es, b);
            assert(w1.lookup(a) == Some(ya as usize));
            assert(w1.lookup(b) == Some(yb as usize));
            assert(w1.cubes[ya].name == a);
            assert(w1.cubes[yb].name == b);
            lemma_fuse_pair_exact(w1, i, ya as usize, yb as usize);
            let w2 = spec_fuse_pair(w1, i, ya as usize, yb as usize).0;
            assert(spec_link_pair(w1, a, b).0 == w2);
            assert(spec_link_pair(w1, a, b).2 is Ok);
            lemma_linked_next(v, es, w1, w2, i, j, (ya as usize, yb as usize));
            if ya != yb {
                assert(es[ya].0 != es[yb].0);
            }
            lemma_fuse_pair_ct(w1, i, ya as usize, yb as usize);
            assert(w1.cubes[i].name == es[i].0);
            assert forall|nm: Seq<char>| #[trigger] key_mentions(fb[j].0, nm) <==> (nm == es[ya].0 || nm == es[yb].0) by {
                assert(pair_key(a, b) == k);
                lemma_pair_key_names(a, b, nm);
            }
            lemma_ct_next(v, es, w1, w2, i, j, ya, yb);
        },
        KeyView::Single(a) => {
            assert(a.push('?').drop_last() =~= a);
            let ya = lemma_lookup_loaded(v, es, a);
            assert(w1.lookup(a) == Some(ya as usize));
            assert(w1.cubes[ya].name == a);
            lemma_fuse_single_exact(w1, i, ya as usize);
            let w2 = spec_fuse_single(w1, i, ya as usize).0;
            assert(spec_link_single(w1, a).0 == w2);
            assert(spec_link_single(w1, a).2 is Ok);
            lemma_linked_next(v, es, w1, w2, i, j, (ya as usize, ya as usize));
            lemma_fuse_single_ct(w1, i, ya as usize);
            assert(w1.cubes[i].name == es[i].0);
            lemma_ct_next(v, es, w1, w2, i, j, ya, ya);
        },
    }
}


/// The requests of the first `i` lines begin the requests of the first `n`.
proof fn lemma_links_prefix(v: DllView, es: Seq<(Seq<char>, usize)>, i: nat, n: nat)
    requires
        i <= n <= es.len(),
    ensures
        loaded_links(v, es, i).len() <= loaded_links(v, es, n).len(),
        forall|m: int| 0 <= m < loaded_links(v, es, i).len() ==> #[trigger] loaded_links(v, es, n)[m] == loaded_links(v, es, i)[m],
    decreases n,
{
    if n > i {
        lemma_links_prefix(v, es, i, (n - 1) as nat);
        let p = loaded_links(v, es, (n - 1) as nat);
        let q = key_reqs(es[n - 1].0, vfb(v, es, n - 1));
        assert(loaded_links(v, es, n) == p + q);
        assert forall|m: int| 0 <= m < loaded_links(v, es, i).len() implies #[trigger] loaded_links(v, es, n)[m]
            == loaded_links(v, es, i)[m] by {
            assert((p + q)[m] == p[m]);
        }
    }
}

/// Every saved key of the lines before the `i`-th, and the first `j` of
/// the `i`-th, are linked back without error.
proof fn lemma_links_progress(v: DllView, es: Seq<(Seq<char>, usize)>, st1: LoadState, i: nat, j: nat)
    requires
        keys_distinct(es),
        keys_ok(v, es),
        forall|x: int| 0 <= x < es.len() ==> line_ok(v, #[trigger] es[x]),
        es.len() <= usize::MAX,
        st1.dll == loaded(v, es, es.len()),
        st1.err is None,
        (i < es.len() && j <= vfb(v, es, i as int).len()) || (i == es.len() && j == 0),
    ensures
        ({
            let st = links_fold(st1, loaded_links(v, es, es.len()), loaded_links(v, es, i).len() + j);
            &&& st.err is None
            &&& linked(v, es, st.dll, i as int, j as int)
            &&& ct_linked(v, es, st.dll, i as int, j as int)
        }),
    decreases i, j,
{
    let n = es.len();
    let ls = loaded_links(v, es, n);
    if j > 0 {
        lemma_links_progress(v, es, st1, i, (j - 1) as nat);
        let m = loaded_links(v, es, i).len() + j - 1;
        lemma_links_prefix(v, es, i + 1, n);
        let p = loaded_links(v, es, i);
        let q = key_reqs(es[i as int].0, vfb(v, es, i as int));
        assert(loaded_links(v, es, i + 1) == p + q);
        assert(ls[m] == (p + q)[m]);
        assert((p + q)[m] == q[j - 1]);
        let prev = links_fold(st1, ls, m as nat);
        assert(links_fold(st1, ls, (m + 1) as nat) == load_link(prev, ls[m]));
        lemma_link_step(v, es, prev, i as int, j - 1);
    } else if i > 0 {
        let c = vfb(v, es, i - 1).len();
        lemma_links_progress(v, es, st1, (i - 1) as nat, c);
        assert(loaded_links(v, es, i) == loaded_links(v, es, (i - 1) as nat) + key_reqs(es[i - 1].0, vfb(v, es, i - 1)));
        let w = links_fold(st1, ls, loaded_links(v, es, i).len()).dll;
        assert forall|x: int| 0 <= x < es.len() implies fb_keys(#[trigger] w.cubes[x].fused_by) == fb_keys(vfb(v, es, x)).take(
            linked_count(v, es, x, i as int, 0),
        ) by {
            assert(fb_keys(w.cubes[x].fused_by) == fb_keys(vfb(v, es, x)).take(linked_count(v, es, x, i - 1, c as int)));
        }
        assert forall|y: int| 0 <= y < es.len() implies #[trigger] linked_count(v, es, y, i as int, 0) == linked_count(
            v,
            es,
            y,
            i - 1,
            c as int,
        ) by {}
        assert forall|x: int, nm: Seq<char>| 0 <= x < es.len() implies (#[trigger] has_key(w.cubes[x].converts_to, nm) <==> (nm
            != unknown_name() && linked_key_names(v, es, i as int, 0, nm, es[x].0))) by {
            assert(has_key(w.cubes[x].converts_to, nm) <==> (nm != unknown_name() && linked_key_names(v, es, i - 1, c as int, nm, es[x].0)));
            if linked_key_names(v, es, i - 1, c as int, nm, es[x].0) {
                let (y, z) = choose|y: int, z: int|
                    0 <= y < es.len() && 0 <= z < linked_count(v, es, y, i - 1, c as int) && es[y].0 == nm && key_mentions(
                        #[trigger] vfb(v, es, y)[z].0,
                        es[x].0,
                    );
                assert(linked_count(v, es, y, i as int, 0) == linked_count(v, es, y, i - 1, c as int));
                assert(linked_key_names(v, es, i as int, 0, nm, es[x].0));
            }
            if linked_key_names(v, es, i as int, 0, nm, es[x].0) {
                let (y, z) = choose|y: int, z: int|
                    0 <= y < es.len() && 0 <= z < linked_count(v, es, y, i as int, 0) && es[y].0 == nm && key_mentions(
                        #[trigger] vfb(v, es, y)[z].0,
                        es[x].0,
                    );
                assert(linked_count(v, es, y, i as int, 0) == linked_count(v, es, y, i - 1, c as int));
                assert(linked_key_names(v, es, i - 1, c as int, nm, es[x].0));
            }
        }
    } else {
        let w = st1.dll;
        assert forall|x: int| 0 <= x < es.len() implies fb_keys(#[trigger] w.cubes[x].fused_by) == fb_keys(vfb(v, es, x)).take(
            linked_count(v, es, x, 0, 0),
        ) by {
            assert(fb_keys(w.cubes[x].fused_by) =~= fb_keys(vfb(v, es, x)).take(0));
        }
        assert forall|x: int| 0 <= x < es.len() implies (#[trigger] w.cubes[x]).name == es[x].0 && w.cubes[x].tier == v.cubes[es[x].1 as int].tier by {
            assert(line_ok(v, es[x]));
        }
        assert forall|x: int, nm: Seq<char>| 0 <= x < es.len() implies (#[trigger] has_key(w.cubes[x].converts_to, nm) <==> (nm
            != unknown_name() && linked_key_names(v, es, 0, 0, nm, es[x].0))) by {
            if linked_key_names(v, es, 0, 0, nm, es[x].0) {
                let (y, z) = choose|y: int, z: int|
                    0 <= y < es.len() && 0 <= z < linked_count(v, es, y, 0, 0) && es[y].0 == nm && key_mentions(
                        #[trigger] vfb(v, es, y)[z].0,
                        es[x].0,
                    );
            }
        }
    }
}


/// Loading the save lines of the entries `es` succeeds and gives the cubes
/// of the entries, in order, each with its name, tier and keys.
proof fn lemma_load_entries(u: DllView, v: DllView, es: Seq<(Seq<char>, usize)>)
    requires
        keys_distinct(es),
        keys_ok(v, es),
        forall|x: int| 0 <= x < es.len() ==> line_ok(v, #[trigger] es[x]),
        es.len() <= usize::MAX,
    ensures
        spec_load(u, save_fold(v, es, es.len())).2 is Ok,
        linked(v, es, spec_load(u, save_fold(v, es, es.len())).0, es.len() as int, 0),
        ct_linked(v, es, spec_load(u, save_fold(v, es, es.len())).0, es.len() as int, 0),
{
    let n = es.len();
    assert forall|x: int| 0 <= x < n implies line_clean(v, #[trigger] es[x].1 as int) by {
        assert(line_ok(v, es[x]));
    }
    lemma_file_fields(v, es, n);
    let fs = fields(save_fold(v, es, n));
    assert(fs.len() % 3 == 0 && fs.len() / 3 == n);
    lemma_lines(v, es, n);
    let st0 = LoadState { dll: empty_dll(), text: no_text(), links: Seq::empty(), err: None };
    let st1 = lines_fold(st0, fs, n);
    lemma_links_progress(v, es, st1, n, 0);
}


/// What a graph needs for its save text to be read back: every cube of the
/// map has a line that can be read, each of its keys names other cubes of
/// the map (a pair with the smaller name first), and the unknown cube
/// shares no key with another cube of the map.
pub open spec fn saveable(v: DllView) -> bool {
    let hm = v.hashmap;
    &&& forall|x: int| 0 <= x < hm.len() ==> line_ok(v, #[trigger] hm[x])
    &&& forall|x: int, y: int|
        0 <= x < hm.len() && 0 <= y < v.cubes[hm[x].1 as int].fused_by.len() ==> key_linkable(
            hm,
            hm[x].0,
            (#[trigger] v.cubes[hm[x].1 as int].fused_by[y]).0,
        )
    &&& forall|x: int, z: int, k: KeyView|
        0 <= x < hm.len() && 0 <= z < hm.len() && hm[x].0 == unknown_name() && hm[z].0 != unknown_name()
            && #[trigger] has_key(v.cubes[hm[x].1 as int].fused_by, k) ==> !#[trigger] has_key(
            v.cubes[hm[z].1 as int].fused_by,
            k,
        )
}

/// The cube named `nm` in `v` is in `d` under the same name, with the same
/// tier and the same keys in the same order.
pub open spec fn kept(v: DllView, d: DllView, nm: Seq<char>) -> bool {
    match (v.lookup(nm), d.lookup(nm)) {
        (Some(a), Some(b)) => {
            &&& d.cubes[b as int].name == nm
            &&& d.cubes[b as int].tier == v.cubes[a as int].tier
            &&& fb_keys(d.cubes[b as int].fused_by) == fb_keys(v.cubes[a as int].fused_by)
        },
        _ => false,
    }
}

/// An entry of the sorted map is an entry of the map.
proof fn lemma_sorted_entry(hm: Seq<(Seq<char>, usize)>, x: int) -> (z: int)
    requires
        0 <= x < isort(hm).len(),
    ensures
        0 <= z < hm.len(),
        hm[z] == isort(hm)[x],
{
    law_isort_permutes(hm);
    assert(isort(hm).contains(isort(hm)[x]));
    choose|z: int| 0 <= z < hm.len() && hm[z] == isort(hm)[x]
}

/// A name of the map is a name of the sorted map.
proof fn lemma_sorted_has(hm: Seq<(Seq<char>, usize)>, nm: Seq<char>)
    ensures
        has_key(hm, nm) <==> has_key(isort(hm), nm),
{
    law_isort_permutes(hm);
    let es = isort(hm);
    if has_key(hm, nm) {
        let z = choose|z: int| 0 <= z < hm.len() && #[trigger] hm[z].0 == nm;
        assert(hm.contains(hm[z]));
        assert(es.contains(hm[z]));
        let y = choose|y: int| 0 <= y < es.len() && es[y] == hm[z];
        assert(es[y].0 == nm);
    }
    if has_key(es, nm) {
        let y = choose|y: int| 0 <= y < es.len() && #[trigger] es[y].0 == nm;
        let z = lemma_sorted_entry(hm, y);
        assert(hm[z].0 == nm);
    }
}

/// The sorted entries of a graph that can be saved meet what reading its
/// save text back needs.
proof fn lemma_saveable_entries(v: DllView)
    requires
        v.wf(),
        saveable(v),
    ensures
        keys_distinct(isort(v.hashmap)),
        keys_ok(v, isort(v.hashmap)),
        forall|x: int| 0 <= x < isort(v.hashmap).len() ==> line_ok(v, #[trigger] isort(v.hashmap)[x]),
        isort(v.hashmap).len() == v.hashmap.len(),
{
    let hm = v.hashmap;
    let es = isort(hm);
    law_isort_permutes(hm);
    law_isort_keeps_distinct(hm);
    assert forall|x: int| 0 <= x < es.len() implies line_ok(v, #[trigger] es[x]) by {
        let z = lemma_sorted_entry(hm, x);
        assert(line_ok(v, hm[z]));
    }
    assert forall|x: int| 0 <= x < es.len() implies keys_distinct(#[trigger] vfb(v, es, x)) by {
        assert(line_ok(v, es[x]));
        assert(v.cubes[es[x].1 as int].wf(v.cubes.len()));
    }
    assert forall|x: int, y: int| 0 <= x < es.len() && 0 <= y < vfb(v, es, x).len() implies key_linkable(
        es,
        es[x].0,
        #[trigger] vfb(v, es, x)[y].0,
    ) by {
        let z = lemma_sorted_entry(hm, x);
        assert(v.cubes[hm[z].1 as int].fused_by[y] == vfb(v, es, x)[y]);
        let k = vfb(v, es, x)[y].0;
        assert(key_linkable(hm, hm[z].0, k));
        match k {
            KeyView::Pair(a, b) => {
                lemma_sorted_has(hm, a);
                lemma_sorted_has(hm, b);
            },
            KeyView::Single(a) => {
                lemma_sorted_has(hm, a);
            },
        }
    }
    assert forall|x: int, z: int, k: KeyView|
        0 <= x < es.len() && 0 <= z < es.len() && es[x].0 == unknown_name() && es[z].0 != unknown_name()
            && #[trigger] has_key(vfb(v, es, x), k) implies !#[trigger] has_key(vfb(v, es, z), k) by {
        let zx = lemma_sorted_entry(hm, x);
        let zz = lemma_sorted_entry(hm, z);
        assert(has_key(v.cubes[hm[zx].1 as int].fused_by, k));
    }
}

/// The conversions of the cube named `nm1` in `d` are the names (but `?`)
/// of the cubes of `v`'s map that have a key naming `nm1`.
pub open spec fn ct_read_back(v: DllView, d: DllView, nm1: Seq<char>) -> bool {
    forall|nm2: Seq<char>|
        #[trigger] has_key(d.cubes[d.lookup(nm1)->0 as int].converts_to, nm2) <==> (nm2 != unknown_name() && has_key(v.hashmap, nm2)
            && keys_mention(v.cubes[v.lookup(nm2)->0 as int].fused_by, nm1))
}

/// A name of the map is at some position of the sorted map, which holds
/// the cube the map binds to it.
proof fn lemma_sorted_lookup(v: DllView, nm: Seq<char>) -> (y: int)
    requires
        v.wf(),
        has_key(v.hashmap, nm),
    ensures
        0 <= y < isort(v.hashmap).len(),
        isort(v.hashmap)[y].0 == nm,
        v.lookup(nm) == Some(isort(v.hashmap)[y].1),
{
    let hm = v.hashmap;
    let es = isort(hm);
    lemma_sorted_has(hm, nm);
    law_isort_keeps_distinct(hm);
    let y = choose|y: int| 0 <= y < es.len() && #[trigger] es[y].0 == nm;
    let z = lemma_sorted_entry(hm, y);
    assert forall|t: int| 0 <= t < z implies hm[t].0 != nm by {
        assert(hm[z].0 == nm);
    }
    lemma_find_key_at(hm, nm, z);
    y
}

/// Saving, then loading the save text, gives the graph back: the load
/// succeeds, the loaded graph has a cube for each name of the map and no
/// other, each cube keeps its name, its tier and its keys in order, and
/// each converts exactly to the cubes (but `?`) whose keys name it.
pub proof fn law_load_reads_back_save(u: DllView, v: DllView)
    requires
        v.wf(),
        v.hashmap.len() <= usize::MAX,
        saveable(v),
    ensures
        spec_load(u, save_file(v)).2 is Ok,
        spec_load(u, save_file(v)).0.cubes.len() == v.hashmap.len(),
        forall|nm: Seq<char>| #[trigger] has_key(spec_load(u, save_file(v)).0.hashmap, nm) <==> has_key(v.hashmap, nm),
        forall|nm: Seq<char>| has_key(v.hashmap, nm) ==> #[trigger] kept(v, spec_load(u, save_file(v)).0, nm),
        forall|nm: Seq<char>| has_key(v.hashmap, nm) ==> #[trigger] ct_read_back(v, spec_load(u, save_file(v)).0, nm),
{
    let hm = v.hashmap;
    let es = isort(hm);
    lemma_saveable_entries(v);
    lemma_load_entries(u, v, es);
    let d = spec_load(u, save_file(v)).0;
    assert(save_file(v) == save_fold(v, es, es.len()));
    assert forall|nm: Seq<char>| #[trigger] has_key(d.hashmap, nm) <==> has_key(hm, nm) by {
        lemma_sorted_has(hm, nm);
        if has_key(d.hashmap, nm) {
            let y = choose|y: int| 0 <= y < d.hashmap.len() && #[trigger] d.hashmap[y].0 == nm;
            assert(es[y].0 == nm);
        }
        if has_key(es, nm) {
            let y = choose|y: int| 0 <= y < es.len() && #[trigger] es[y].0 == nm;
            assert(d.hashmap[y].0 == nm);
        }
    }
    assert forall|nm: Seq<char>| has_key(hm, nm) implies #[trigger] kept(v, d, nm) by {
        lemma_sorted_has(hm, nm);
        let y = lemma_lookup_loaded(v, es, nm);
        assert(d.lookup(nm) == Some(y as usize));
        let z = lemma_sorted_entry(hm, y);
        assert forall|t: int| 0 <= t < z implies hm[t].0 != nm by {
            assert(hm[z].0 == nm);
        }
        lemma_find_key_at(hm, nm, z);
        assert(v.lookup(nm) == Some(es[y].1));
        assert(fb_keys(vfb(v, es, y)).take(vfb(v, es, y).len() as int) =~= fb_keys(vfb(v, es, y)));
        assert(fb_keys(d.cubes[y].fused_by) == fb_keys(vfb(v, es, y)).take(linked_count(v, es, y, es.len() as int, 0)));
    }
    assert forall|nm1: Seq<char>| has_key(hm, nm1) implies #[trigger] ct_read_back(v, d, nm1) by {
        lemma_sorted_has(hm, nm1);
        let y = lemma_lookup_loaded(v, es, nm1);
        assert(d.lookup(nm1) == Some(y as usize));
        assert forall|nm2: Seq<char>| #[trigger] has_key(d.cubes[d.lookup(nm1)->0 as int].converts_to, nm2) <==> (nm2
            != unknown_name() && has_key(v.hashmap, nm2) && keys_mention(v.cubes[v.lookup(nm2)->0 as int].fused_by, nm1)) by {
            assert(has_key(d.cubes[y].converts_to, nm2) <==> (nm2 != unknown_name() && linked_key_names(
                v,
                es,
                es.len() as int,
                0,
                nm2,
                es[y].0,
            )));
            if linked_key_names(v, es, es.len() as int, 0, nm2, nm1) {
                let (y2, z) = choose|y2: int, z: int|
                    0 <= y2 < es.len() && 0 <= z < linked_count(v, es, y2, es.len() as int, 0) && es[y2].0 == nm2 && key_mentions(
                        #[trigger] vfb(v, es, y2)[z].0,
                        nm1,
                    );
                assert(has_key(es, nm2));
                lemma_sorted_has(hm, nm2);
                let y3 = lemma_sorted_lookup(v, nm2);
                assert(es[y3].0 == es[y2].0);
                assert(y3 == y2);
                assert(key_mentions(v.cubes[es[y2].1 as int].fused_by[z].0, nm1));
            }
            if nm2 != unknown_name() && has_key(v.hashmap, nm2) && keys_mention(v.cubes[v.lookup(nm2)->0 as int].fused_by, nm1) {
                let y2 = lemma_sorted_lookup(v, nm2);
                let fb2 = v.cubes[es[y2].1 as int].fused_by;
                let z = choose|z: int| 0 <= z < fb2.len() && key_mentions(#[trigger] fb2[z].0, nm1);
                assert(vfb(v, es, y2)[z] == fb2[z]);
                assert(linked_key_names(v, es, es.len() as int, 0, nm2, nm1));
            }
        }
    }
}

} // verus!
