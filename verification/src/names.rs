//! Which texts can name a cube.
use vstd::prelude::*;
use crate::error::{CSError, CSResult, ErrView};
use crate::text::{chars_of, str_eq, string_of};

verus! {

/// A character that a cube name may hold: an ASCII letter or digit, or a
/// round bracket.
pub open spec fn name_char_ok(c: char) -> bool {
    ('0' <= c && c <= '9') || ('a' <= c && c <= 'z') || ('A' <= c && c <= 'Z') || c == '(' || c == ')'
}

/// `s` can name a cube: it is `?`, or it is not empty and all its
/// characters may stand in a name.
pub open spec fn valid_cube_name(s: Seq<char>) -> bool {
    s == "?"@ || (s.len() > 0 && forall|i: int| 0 <= i < s.len() ==> name_char_ok(#[trigger] s[i]))
}

/// Checks that `arg` can name a cube; `NameSyntax(arg)` when it cannot.
pub fn check_valid_cube_name(arg: &str) -> (r: CSResult<()>)
    ensures
        r is Ok <==> valid_cube_name(arg@),
        r matches Err(e) ==> e@ == ErrView::NameSyntax(arg@),
{
    if str_eq(arg, "?") {
        return Ok(());
    }
    let cs = chars_of(arg);
    if cs.len() == 0 {
        return Err(CSError::NameSyntax(string_of(arg)));
    }
    let mut i: usize = 0;
    while i < cs.len()
        invariant
            cs@ == arg@,
            arg@ != "?"@,
            cs@.len() > 0,
            i <= cs@.len(),
            forall|j: int| 0 <= j < i ==> name_char_ok(#[trigger] cs@[j]),
        decreases cs.len() - i,
    {
        let c = cs[i];
        if !(('0' <= c && c <= '9') || ('a' <= c && c <= 'z') || ('A' <= c && c <= 'Z') || c == '(' || c == ')') {
            assert(!name_char_ok(arg@[i as int]));
            return Err(CSError::NameSyntax(string_of(arg)));
        }
        i = i + 1;
    }
    Ok(())
}

} // verus!
