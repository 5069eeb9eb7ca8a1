//! The scanning primitives over a compact context: a flag and three
//! counters, for callers that have no use for the start of the current line.
//!
//! Each scanner does what its namesake in [`crate::scan::context`] does, and
//! its contract is stated through the same definitions.

use vstd::prelude::*;
use crate::scan::context::{
    accepted_run, bounded_run, common_prefix_len, ScanPosition,
};
use crate::scan::text::{in_text, text_from, text_width};

verus! {

/// Whether scanning has matched so far, and the offsets in bytes, in
/// characters and in lines that it has reached.
pub type ScanContext = (bool, usize, usize, usize);

/// The full position that the counters of `context` stand for: the current
/// line is taken to start at the position itself.
pub open spec fn position_of(context: ScanContext) -> ScanPosition {
    ScanPosition {
        byte_index: context.1,
        char_index: context.2,
        line_index: context.3,
        line_byte_index: context.1,
        line_char_index: context.2,
    }
}

/// The compact context with the flag `matched` and the counters of
/// `position`.
pub open spec fn compact(matched: bool, position: ScanPosition) -> ScanContext {
    (matched, position.byte_index, position.char_index, position.line_index)
}

/// The counters are consistent with one another, and the byte offset lies in
/// the text `s` or beyond its end, never inside a character.
pub open spec fn fits(s: Seq<char>, context: ScanContext) -> bool {
    &&& context.3 <= context.2 <= context.1
    &&& context.1 <= text_width(s) ==> in_text(s, context.1 as int)
}

/// A context is live in `s` when it has matched so far and its byte offset
/// does not lie beyond the end of `s`.
pub open spec fn live(s: Seq<char>, context: ScanContext) -> bool {
    context.0 && context.1 <= text_width(s)
}

/// The full context that `context` stands for.
fn expand(context: ScanContext) -> (full: crate::scan::context::ScanContext)
    ensures
        full == (context.0, position_of(context)),
{
    (context.0, ScanPosition::new(context.1, context.2, context.3, context.1, context.2))
}

/// The compact context with the flag and the counters of `full`.
fn shrink(full: crate::scan::context::ScanContext) -> (context: ScanContext)
    ensures
        context == compact(full.0, full.1),
{
    (full.0, full.1.byte_index, full.1.char_index, full.1.line_index)
}

/// Scans for the literal string `literal`: matches when every character of
/// it agrees with the text, and stops after the characters that agreed.
pub fn scan_literal(s: &str, context: ScanContext, literal: &str) -> (result: ScanContext)
    requires
        fits(s@, context),
    ensures
        fits(s@, result),
        result.1 >= context.1,
        context.1 <= text_width(s@) ==> result.1 <= text_width(s@),
        !live(s@, context) ==> result == (false, context.1, context.2, context.3),
        live(s@, context) ==> ({
            let rest = text_from(s@, context.1 as int);
            let agreed = common_prefix_len(literal@, rest);
            result == compact(
                agreed == literal@.len(),
                position_of(context).advance(rest.take(agreed as int)),
            )
        }),
{
    shrink(crate::scan::context::scan_literal(s, expand(context), literal))
}

/// Scans greedily over the characters that `test` accepts: always matches
/// in a live context, and stops after the longest run of accepted
/// characters.
pub fn scan_zero_or_more_chars<P: Fn(char) -> bool>(s: &str, context: ScanContext, test: P) -> (result:
    ScanContext)
    requires
        fits(s@, context),
        forall|c: char| test.requires((c,)),
    ensures
        fits(s@, result),
        result.1 >= context.1,
        context.1 <= text_width(s@) ==> result.1 <= text_width(s@),
        !live(s@, context) ==> result == (false, context.1, context.2, context.3),
        live(s@, context) ==> exists|n: int|
            {
                &&& #[trigger] accepted_run(test, text_from(s@, context.1 as int), n)
                &&& result == compact(
                    true,
                    position_of(context).advance(text_from(s@, context.1 as int).take(n)),
                )
            },
{
    shrink(crate::scan::context::scan_zero_or_more_chars(s, expand(context), test))
}

/// Scans greedily over the characters that `test` accepts: matches when
/// there is at least one, and stops after the longest run of accepted
/// characters.
pub fn scan_one_or_more_chars<P: Fn(char) -> bool>(s: &str, context: ScanContext, test: P) -> (result:
    ScanContext)
    requires
        fits(s@, context),
        forall|c: char| test.requires((c,)),
    ensures
        fits(s@, result),
        result.1 >= context.1,
        context.1 <= text_width(s@) ==> result.1 <= text_width(s@),
        !live(s@, context) ==> result == (false, context.1, context.2, context.3),
        live(s@, context) ==> exists|n: int|
            {
                &&& #[trigger] accepted_run(test, text_from(s@, context.1 as int), n)
                &&& result == compact(
                    n > 0,
                    position_of(context).advance(text_from(s@, context.1 as int).take(n)),
                )
            },
{
    shrink(crate::scan::context::scan_one_or_more_chars(s, expand(context), test))
}

/// Scans over exactly `n` characters that `test` accepts: consumes
/// characters while fewer than `n` were consumed and `test` accepts the next
/// one, and matches when `n` were consumed.
pub fn scan_n_chars<P: Fn(char) -> bool>(s: &str, context: ScanContext, n: usize, test: P) -> (result:
    ScanContext)
    requires
        fits(s@, context),
        forall|c: char| test.requires((c,)),
    ensures
        fits(s@, result),
        result.1 >= context.1,
        context.1 <= text_width(s@) ==> result.1 <= text_width(s@),
        !live(s@, context) ==> result == (false, context.1, context.2, context.3),
        live(s@, context) ==> exists|k: int|
            {
                &&& #[trigger] bounded_run(test, text_from(s@, context.1 as int), n as int, k)
                &&& result == compact(
                    k == n,
                    position_of(context).advance(text_from(s@, context.1 as int).take(k)),
                )
            },
{
    shrink(crate::scan::context::scan_n_chars(s, expand(context), n, test))
}

} // verus!
