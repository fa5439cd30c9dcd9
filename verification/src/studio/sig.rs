//! Signature help: which parameter of an `invoke` the caret is in.
use crate::studio::complete;
use crate::text;
use crate::studio::complete::{count_top_level_commas, head_word, next_word};
use crate::text::{char_index, chars_of, is_ignoring_case, string_of};
use vstd::prelude::*;
use vstd::slice::slice_subrange;

verus! {

/// The function and the parameter that the character position `c` of `line` is in,
/// where `line` is an `invoke` and `c` lies behind the first comma.
pub open spec fn param_at(line: Seq<char>, c: int) -> Option<(Seq<char>, int)> {
    match complete::head_word_of(line) {
        None => None,
        Some((hs, he)) => if !text::same_ignoring_case(line.subrange(hs, he), "invoke"@) {
            None
        } else {
            match complete::next_word_at(line, he) {
                None => None,
                Some((fs, fe)) => {
                    let commas = complete::top_commas(line.take(c));
                    if c <= fe || commas == 0 {
                        None
                    } else {
                        Some((line.subrange(fs, fe), commas - 1))
                    }
                },
            }
        },
    }
}

/// The function and the parameter that the caret at the byte `cursor` of an
/// `invoke F, …` is in.
pub fn active_param(line: &str, cursor: usize) -> (r: Option<(String, usize)>)
    ensures
        (match r {
            Some((f, n)) => Some((f@, n as int)),
            None => None,
        }) == param_at(line@, text::index_at(line@, cursor as int)),
{
    let s = chars_of(line);
    let c: usize = char_index(&s, cursor);
    let (hs, he) = match head_word(&s) {
        Some(h) => h,
        None => return None,
    };
    if !is_ignoring_case(slice_subrange(&s, hs, he), "invoke") {
        return None;
    }
    let (fs, fe) = match next_word(&s, he) {
        Some(f) => f,
        None => return None,
    };
    if c <= fe {
        return None;
    }
    let head = slice_subrange(&s, 0, c);
    assert(head@ =~= s@.take(c as int));
    let commas: usize = count_top_level_commas(head);
    if commas == 0 {
        return None;
    }
    Some((string_of(slice_subrange(&s, fs, fe)), commas - 1))
}

} // verus!
