//! Text primitives shared by the cube graph, the save format and the
//! command layer: character sequences, decimal numbers, ordering and
//! substring search on names.
use vstd::prelude::*;
use vstd::string::StringExecFns;

verus! {

/// Why a decimal integer could not be read (the kinds std reports).
#[derive(Clone, Copy, Debug, PartialEq, Eq, Structural)]
pub enum IntParse {
    Empty,
    InvalidDigit,
    PosOverflow,
    NegOverflow,
}

/// `c` is an ASCII decimal digit.
pub open spec fn is_dec_digit(c: char) -> bool {
    '0' <= c && c <= '9'
}

/// The value of a non-empty run of decimal digits.
pub open spec fn digits_value(d: Seq<char>) -> int
    decreases d.len(),
{
    if d.len() == 0 {
        0
    } else {
        digits_value(d.drop_last()) * 10 + ((d.last() as int) - ('0' as int))
    }
}

/// The digits of `s` after an optional leading `+` or `-`.
pub open spec fn unsigned_part(s: Seq<char>) -> Seq<char> {
    if s.len() > 0 && (s[0] == '+' || s[0] == '-') {
        s.drop_first()
    } else {
        s
    }
}

/// The integer that `s` writes in decimal (optional sign, then only digits),
/// or `None` when `s` has another shape.
pub open spec fn decimal_value(s: Seq<char>) -> Option<int> {
    let body = unsigned_part(s);
    if body.len() > 0 && (forall|i: int| 0 <= i < body.len() ==> is_dec_digit(#[trigger] body[i])) {
        if s[0] == '-' {
            Some(-digits_value(body))
        } else {
            Some(digits_value(body))
        }
    } else {
        None
    }
}

/// The character of a decimal digit `d < 10`.
pub open spec fn digit_char(d: nat) -> char {
    ((d + 48) as u32) as char
}

/// Decimal digits of a natural number, without leading zeros.
pub open spec fn nat_decimal(n: nat) -> Seq<char>
    decreases n,
{
    if n < 10 {
        seq![digit_char(n)]
    } else {
        nat_decimal(n / 10).push(digit_char(n % 10))
    }
}

/// Decimal text of an integer, with a leading `-` when negative.
pub open spec fn int_decimal(v: int) -> Seq<char> {
    if v < 0 {
        seq!['-'] + nat_decimal((-v) as nat)
    } else {
        nat_decimal(v as nat)
    }
}

/// Lexicographic order on character sequences (the order of `str`'s `<`).
#[verifier::opaque]
pub open spec fn seq_lt(a: Seq<char>, b: Seq<char>) -> bool
    decreases a.len(),
{
    if b.len() == 0 {
        false
    } else if a.len() == 0 {
        true
    } else if a[0] != b[0] {
        a[0] < b[0]
    } else {
        seq_lt(a.drop_first(), b.drop_first())
    }
}

/// `n` occurs in `h` starting at position `i`.
pub open spec fn occurs_at(h: Seq<char>, n: Seq<char>, i: int) -> bool {
    0 <= i && i + n.len() <= h.len() && h.subrange(i, i + n.len()) == n
}

/// `n` is a contiguous part of `h`.
pub open spec fn has_substring(h: Seq<char>, n: Seq<char>) -> bool {
    exists|i: int| occurs_at(h, n, i)
}

/// The text that `str::to_lowercase` gives for `s` (Unicode lower case).
pub uninterp spec fn lowercase(s: Seq<char>) -> Seq<char>;

/// `<str as PartialEq>::eq`: true exactly when the two texts are equal.
#[verifier::external_body]
pub(crate) fn str_eq(a: &str, b: &str) -> (r: bool)
    ensures
        r == (a@ == b@),
{
    a == b
}

/// `String::push`: appends one character.
#[verifier::external_body]
pub(crate) fn push_char(s: &mut String, c: char)
    ensures
        final(s)@ == old(s)@.push(c),
{
    s.push(c)
}

/// `i32`'s `to_string`: its decimal text.
#[verifier::external_body]
pub(crate) fn i32_text(v: i32) -> (r: String)
    ensures
        r@ == int_decimal(v as int),
{
    v.to_string()
}

/// `usize`'s `to_string`: its decimal text.
#[verifier::external_body]
pub(crate) fn usize_text(v: usize) -> (r: String)
    ensures
        r@ == nat_decimal(v as nat),
{
    v.to_string()
}

/// `str::to_lowercase`; its result is named by `lowercase`.
#[verifier::external_body]
pub(crate) fn to_lowercase(s: &str) -> (r: String)
    ensures
        r@ == lowercase(s@),
{
    s.to_lowercase()
}

/// The error kind that `str::parse::<i32>` reports for a non-empty text
/// that is not an optional sign followed by decimal digits.
pub uninterp spec fn malformed_kind(s: Seq<char>) -> IntParse;

/// What `str::parse::<i32>` gives for `s`: the value of an optional sign
/// followed by decimal digits when it fits in `i32`, the overflow of its
/// sign when it does not, `Empty` for the empty text, and for any other
/// text an error of the kind `malformed_kind` names.
pub open spec fn i32_parse(s: Seq<char>) -> Result<i32, IntParse> {
    match decimal_value(s) {
        Some(v) => if v > i32::MAX {
            Err(IntParse::PosOverflow)
        } else if v < i32::MIN {
            Err(IntParse::NegOverflow)
        } else {
            Ok(v as i32)
        },
        None => if s.len() == 0 {
            Err(IntParse::Empty)
        } else {
            Err(malformed_kind(s))
        },
    }
}

/// A failed reading of an `i32`, with error kind `k`.
pub open spec fn parse_failed(k: IntParse) -> Result<i32, IntParse> {
    Err(k)
}

/// `str::parse::<i32>`: it succeeds exactly on an optional sign followed by
/// decimal digits whose value fits in `i32`, and gives that value; digits
/// out of range give the overflow of their sign; the empty text gives
/// `Empty`; any other text gives another error, whose kind (`InvalidDigit`,
/// or an overflow for a long text that is also malformed) depends on the
/// order in which std reads it and is only named by `malformed_kind`.
#[verifier::external_body]
pub(crate) fn parse_i32(s: &str) -> (r: Result<i32, IntParse>)
    ensures
        r == i32_parse(s@),
        decimal_value(s@) is None && s@.len() > 0 ==> r == parse_failed(malformed_kind(s@)),
        r != parse_failed(IntParse::Empty) || s@.len() == 0,
{
    match s.parse::<i32>() {
        Ok(v) => Ok(v),
        Err(e) => match e.kind() {
            std::num::IntErrorKind::Empty => Err(IntParse::Empty),
            std::num::IntErrorKind::PosOverflow => Err(IntParse::PosOverflow),
            std::num::IntErrorKind::NegOverflow => Err(IntParse::NegOverflow),
            _ => Err(IntParse::InvalidDigit),
        },
    }
}

/// `str::chars` collected into a vector: the characters of `s`, in order.
#[verifier::external_body]
pub(crate) fn chars_of(s: &str) -> (v: Vec<char>)
    ensures
        v@ == s@,
{
    s.chars().collect()
}

/// A `String` holding the characters of `v`.
pub fn string_from_chars(v: &Vec<char>) -> (r: String)
    ensures
        r@ == v@,
{
    let mut r = String::new();
    let mut i: usize = 0;
    while i < v.len()
        invariant
            i <= v@.len(),
            r@ == v@.subrange(0, i as int),
        decreases v.len() - i,
    {
        push_char(&mut r, v[i]);
        assert(r@ =~= v@.subrange(0, i + 1));
        i = i + 1;
    }
    assert(v@.subrange(0, v@.len() as int) =~= v@);
    r
}

/// A fresh `String` holding `s`.
pub fn string_of(s: &str) -> (r: String)
    ensures
        r@ == s@,
{
    String::from_str(s)
}

/// Lexicographic comparison of two texts, as `str`'s `<` compares them.
pub fn text_lt(a: &str, b: &str) -> (r: bool)
    ensures
        r == seq_lt(a@, b@),
{
    reveal(seq_lt);
    let av = chars_of(a);
    let bv = chars_of(b);
    let mut i: usize = 0;
    assert(a@.subrange(0, a@.len() as int) =~= a@);
    assert(b@.subrange(0, b@.len() as int) =~= b@);
    while i < av.len() && i < bv.len() && av[i] == bv[i]
        invariant
            av@ == a@,
            bv@ == b@,
            i <= av.len(),
            i <= bv.len(),
            seq_lt(a@, b@) == seq_lt(a@.subrange(i as int, a@.len() as int), b@.subrange(
                i as int,
                b@.len() as int,
            )),
        decreases av.len() - i,
    {
        proof {
            reveal(seq_lt);
            let sa = a@.subrange(i as int, a@.len() as int);
            let sb = b@.subrange(i as int, b@.len() as int);
            assert(sa.drop_first() =~= a@.subrange(i + 1, a@.len() as int));
            assert(sb.drop_first() =~= b@.subrange(i + 1, b@.len() as int));
        }
        i = i + 1;
    }
    let ghost sa = a@.subrange(i as int, a@.len() as int);
    let ghost sb = b@.subrange(i as int, b@.len() as int);
    if i == bv.len() {
        assert(sb.len() == 0);
        false
    } else if i == av.len() {
        assert(sa.len() == 0 && sb.len() > 0);
        true
    } else {
        assert(sa[0] == av@[i as int] && sb[0] == bv@[i as int]);
        av[i] < bv[i]
    }
}

/// `n` occurs in `h` at position `i` (character by character).
fn occurs_at_exec(h: &Vec<char>, n: &Vec<char>, i: usize) -> (r: bool)
    requires
        i + n@.len() <= h@.len(),
    ensures
        r == occurs_at(h@, n@, i as int),
{
    let hl = h.len();
    let mut j: usize = 0;
    while j < n.len()
        invariant
            hl == h@.len(),
            i + n@.len() <= h@.len(),
            j <= n@.len(),
            forall|k: int| 0 <= k < j ==> h@[i + k] == n@[k],
        decreases n.len() - j,
    {
        if h[i + j] != n[j] {
            assert(h@.subrange(i as int, i + n@.len())[j as int] != n@[j as int]);
            return false;
        }
        j = j + 1;
    }
    assert(h@.subrange(i as int, i + n@.len()) =~= n@);
    true
}

/// `needle` is a contiguous part of `hay` (`str::contains`).
pub fn text_contains(hay: &str, needle: &str) -> (r: bool)
    ensures
        r == has_substring(hay@, needle@),
{
    let h = chars_of(hay);
    let n = chars_of(needle);
    if n.len() > h.len() {
        assert forall|i: int| !occurs_at(hay@, needle@, i) by {}
        return false;
    }
    if n.len() == 0 {
        assert(hay@.subrange(0, 0) =~= needle@);
        assert(occurs_at(hay@, needle@, 0));
        return true;
    }
    let last = h.len() - n.len();
    let hl = h.len();
    let mut i: usize = 0;
    while i <= last
        invariant
            hl == h@.len(),
            h@ == hay@,
            n@ == needle@,
            n@.len() > 0,
            last + n@.len() == h@.len(),
            i <= last + 1,
            forall|k: int| 0 <= k < i ==> !occurs_at(hay@, needle@, k),
        decreases last + 1 - i,
    {
        if occurs_at_exec(&h, &n, i) {
            return true;
        }
        i = i + 1;
    }
    assert forall|k: int| !occurs_at(hay@, needle@, k) by {
        if 0 <= k < i {
        }
    }
    false
}

/// `hay` begins with `needle` (`str::starts_with`).
pub fn text_starts_with(hay: &str, needle: &str) -> (r: bool)
    ensures
        r == (needle@.len() <= hay@.len() && hay@.subrange(0, needle@.len() as int) == needle@),
{
    let h = chars_of(hay);
    let n = chars_of(needle);
    if n.len() > h.len() {
        return false;
    }
    occurs_at_exec(&h, &n, 0)
}

} // verus!

verus! {

/// `seq_lt` is a strict total order: irreflexive, transitive, and any two
/// different texts are ordered one way.
pub proof fn lemma_seq_lt_order(a: Seq<char>, b: Seq<char>, c: Seq<char>)
    ensures
        !seq_lt(a, a),
        seq_lt(a, b) ==> !seq_lt(b, a),
        seq_lt(a, b) && seq_lt(b, c) ==> seq_lt(a, c),
        a != b ==> seq_lt(a, b) || seq_lt(b, a),
    decreases a.len(),
{
    reveal(seq_lt);
    if a.len() > 0 && b.len() > 0 {
        lemma_seq_lt_order(a.drop_first(), b.drop_first(), if c.len() > 0 {
            c.drop_first()
        } else {
            c
        });
        if a != b && a[0] == b[0] {
            assert(a.drop_first() != b.drop_first()) by {
                if a.drop_first() == b.drop_first() {
                    assert(a =~= seq![a[0]] + a.drop_first());
                    assert(b =~= seq![b[0]] + b.drop_first());
                }
            }
        }
    }
    if a.len() == 0 && b.len() == 0 {
        assert(a =~= b);
    }
    if a.len() > 0 {
        lemma_seq_lt_irreflexive(a);
    }
}

/// No text is below itself.
pub proof fn lemma_seq_lt_irreflexive(a: Seq<char>)
    ensures
        !seq_lt(a, a),
    decreases a.len(),
{
    reveal(seq_lt);
    if a.len() > 0 {
        lemma_seq_lt_irreflexive(a.drop_first());
    }
}

} // verus!
