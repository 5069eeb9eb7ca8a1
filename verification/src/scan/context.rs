//! Scanning primitives that thread a [`ScanContext`] through successive
//! scans, so that a string can be scanned from beginning to end.
//!
//! A context is a flag saying whether everything matched so far, and the
//! position that scanning has reached. A scanner that is handed a failed
//! context, or a position beyond the end of the text, hands it back
//! unchanged; a scanner that fails stops at the first character that did not
//! match.

use vstd::prelude::*;
use vstd::std_specs::iter::IteratorSpec;
use crate::scan::text::{
    char_width, in_text, lemma_char_width, lemma_text_join, lemma_text_split, lemma_width_bounds,
    lemma_width_push, text_before, text_from, text_width,
};

verus! {

/// The character that ends a line.
pub const NEWLINE: char = '\n';

/// A place in a text, counted from its start in bytes, characters and lines,
/// together with the place where the current line starts.
#[derive(Debug, Clone, Copy, PartialEq, Eq, Structural)]
pub struct ScanPosition {
    /// Offset in bytes.
    pub byte_index: usize,
    /// Offset in characters.
    pub char_index: usize,
    /// Number of line ends that lie before this position.
    pub line_index: usize,
    /// Offset in bytes of the start of the current line.
    pub line_byte_index: usize,
    /// Offset in characters of the start of the current line.
    pub line_char_index: usize,
}

/// Whether scanning has matched so far, and the position it has reached.
pub type ScanContext = (bool, ScanPosition);

impl ScanPosition {
    /// The counters are consistent with one another: a line start does not
    /// lie after the position, there is at most one line end per character
    /// and at most one character per byte.
    pub open spec fn well_formed(self) -> bool {
        &&& self.line_index <= self.line_char_index
        &&& self.line_char_index <= self.char_index
        &&& self.line_char_index <= self.line_byte_index
        &&& self.line_byte_index <= self.byte_index
        &&& self.char_index <= self.byte_index
    }

    /// The position lies in the text `s` or beyond its end, never inside a
    /// character.
    pub open spec fn fits(self, s: Seq<char>) -> bool {
        &&& self.well_formed()
        &&& self.byte_index <= text_width(s) ==> in_text(s, self.byte_index as int)
    }

    /// The position after the character `c` was consumed at this position.
    pub open spec fn step(self, c: char) -> ScanPosition {
        let byte_index = (self.byte_index + char_width(c)) as usize;
        let char_index = (self.char_index + 1) as usize;
        if c == NEWLINE {
            ScanPosition {
                byte_index,
                char_index,
                line_index: (self.line_index + 1) as usize,
                line_byte_index: byte_index,
                line_char_index: char_index,
            }
        } else {
            ScanPosition { byte_index, char_index, ..self }
        }
    }

    /// The position after the characters `cs` were consumed one after the
    /// other, starting at this position.
    pub open spec fn advance(self, cs: Seq<char>) -> ScanPosition
        decreases cs.len(),
    {
        if cs.len() == 0 {
            self
        } else {
            self.advance(cs.drop_last()).step(cs.last())
        }
    }

    /// The start of a text.
    pub open spec fn origin() -> ScanPosition {
        ScanPosition {
            byte_index: 0,
            char_index: 0,
            line_index: 0,
            line_byte_index: 0,
            line_char_index: 0,
        }
    }

    /// The position with the given counters.
    pub fn new(
        byte_index: usize,
        char_index: usize,
        line_index: usize,
        line_byte_index: usize,
        line_char_index: usize,
    ) -> (position: Self)
        ensures
            position == (ScanPosition {
                byte_index,
                char_index,
                line_index,
                line_byte_index,
                line_char_index,
            }),
    {
        Self { byte_index, char_index, line_index, line_byte_index, line_char_index }
    }
}

impl Default for ScanPosition {
    /// The start of a text, which fits every text.
    fn default() -> (position: Self)
        ensures
            position == ScanPosition::origin(),
            forall|s: Seq<char>| #[trigger] position.fits(s),
    {
        proof {
            assert forall|s: Seq<char>| #[trigger] ScanPosition::origin().fits(s) by {
                lemma_origin(s);
            }
        }
        Self { byte_index: 0, char_index: 0, line_index: 0, line_byte_index: 0, line_char_index: 0 }
    }
}

/// The start of a text fits the text, and the text from it is the whole
/// text.
pub proof fn lemma_origin(s: Seq<char>)
    ensures
        ScanPosition::origin().fits(s),
        text_from(s, 0) == s,
        live(s, (true, ScanPosition::origin())),
{
    lemma_text_split(Seq::<char>::empty(), s);
    assert(Seq::<char>::empty() + s =~= s);
    assert(text_width(Seq::<char>::empty()) == 0) by {
        lemma_width_bounds(Seq::<char>::empty());
    }
}

/// The context in which scanning of a text begins: it fits every text and
/// is live in it, and the text from it is the whole text.
pub fn beginning() -> (context: ScanContext)
    ensures
        context == (true, ScanPosition::origin()),
        forall|s: Seq<char>| #[trigger] context.1.fits(s),
        forall|s: Seq<char>| #[trigger] live(s, context),
        forall|s: Seq<char>| #[trigger] text_from(s, 0) == s,
{
    proof {
        assert forall|s: Seq<char>|
            live(s, (true, ScanPosition::origin())) && #[trigger] text_from(s, 0) == s by {
            lemma_origin(s);
        }
        assert forall|s: Seq<char>| #[trigger] live(s, (true, ScanPosition::origin())) by {
            lemma_origin(s);
        }
    }
    (true, ScanPosition::default())
}

/// Number of newline characters among `cs`.
pub open spec fn count_newlines(cs: Seq<char>) -> nat
    decreases cs.len(),
{
    if cs.len() == 0 {
        0
    } else {
        count_newlines(cs.drop_last()) + if cs.last() == NEWLINE {
            1nat
        } else {
            0nat
        }
    }
}

/// The longest run of characters at the front of `rest` that `test` accepts
/// has length `n`: `test` says yes to each of the first `n` characters, and
/// no to the one after them if there is one.
pub open spec fn accepted_run<P: Fn(char) -> bool>(test: P, rest: Seq<char>, n: int) -> bool {
    &&& 0 <= n <= rest.len()
    &&& forall|i: int| 0 <= i < n ==> test.ensures((#[trigger] rest[i],), true)
    &&& n < rest.len() ==> test.ensures((rest[n],), false)
}

/// The run of characters at the front of `rest` that `test` accepts, cut off
/// after `limit` characters, has length `k`: `test` says yes to each of the
/// first `k` characters, and where `k` is less than `limit` it says no to
/// the one after them if there is one.
pub open spec fn bounded_run<P: Fn(char) -> bool>(
    test: P,
    rest: Seq<char>,
    limit: int,
    k: int,
) -> bool {
    &&& 0 <= k <= rest.len()
    &&& k <= limit
    &&& forall|i: int| 0 <= i < k ==> test.ensures((#[trigger] rest[i],), true)
    &&& k < limit && k < rest.len() ==> test.ensures((rest[k],), false)
}

/// Number of characters at the front of `a` and `b` that agree.
pub open spec fn common_prefix_len(a: Seq<char>, b: Seq<char>) -> nat
    decreases a.len(),
{
    if a.len() > 0 && b.len() > 0 && a[0] == b[0] {
        1 + common_prefix_len(a.drop_first(), b.drop_first())
    } else {
        0
    }
}

/// A context is live in `s` when it has matched so far and its position does
/// not lie beyond the end of `s`. Every scanner hands back a context that is
/// not live as a failure at the same position.
pub open spec fn live(s: Seq<char>, context: ScanContext) -> bool {
    context.0 && context.1.byte_index <= text_width(s)
}

/// Consuming characters moves every counter forward by what was consumed:
/// bytes by their width, characters by their number, lines by the number of
/// newlines among them.
pub proof fn lemma_advance_counts(position: ScanPosition, cs: Seq<char>)
    requires
        position.well_formed(),
        position.byte_index + text_width(cs) <= usize::MAX,
    ensures
        position.advance(cs).well_formed(),
        position.advance(cs).byte_index == position.byte_index + text_width(cs),
        position.advance(cs).char_index == position.char_index + cs.len(),
        position.advance(cs).line_index == position.line_index + count_newlines(cs),
    decreases cs.len(),
{
    if cs.len() == 0 {
        assert(cs =~= Seq::<char>::empty());
    } else {
        lemma_width_push(cs.drop_last(), cs.last());
        assert(cs.drop_last().push(cs.last()) =~= cs);
        lemma_char_width(cs.last());
        lemma_width_bounds(cs.drop_last());
        lemma_advance_counts(position, cs.drop_last());
    }
}

/// Consuming `a` and then `b` is consuming `a + b`.
pub proof fn lemma_advance_concat(position: ScanPosition, a: Seq<char>, b: Seq<char>)
    ensures
        position.advance(a + b) == position.advance(a).advance(b),
    decreases b.len(),
{
    if b.len() == 0 {
        assert(a + b =~= a);
    } else {
        lemma_advance_concat(position, a, b.drop_last());
        assert((a + b).drop_last() =~= a + b.drop_last());
    }
}

/// The position that `advance` gives after the first `n` characters of the
/// text from `position` still fits the text, and the text from it is what
/// remains.
pub proof fn lemma_advance_fits(s: Seq<char>, position: ScanPosition, n: int)
    requires
        position.fits(s),
        position.byte_index <= text_width(s),
        text_width(s) <= usize::MAX,
        0 <= n <= text_from(s, position.byte_index as int).len(),
    ensures
        position.advance(text_from(s, position.byte_index as int).take(n)).fits(s),
        position.advance(text_from(s, position.byte_index as int).take(n)).byte_index
            <= text_width(s),
        position.advance(text_from(s, position.byte_index as int).take(n)).byte_index
            == position.byte_index + text_width(text_from(s, position.byte_index as int).take(n)),
        text_from(
            s,
            position.advance(text_from(s, position.byte_index as int).take(n)).byte_index as int,
        ) == text_from(s, position.byte_index as int).skip(n),
{
    let rest = text_from(s, position.byte_index as int);
    let head = text_before(s, position.byte_index as int);
    lemma_text_join(s, position.byte_index as int);
    let taken = rest.take(n);
    let left = rest.skip(n);
    assert(rest =~= taken + left);
    assert(s =~= (head + taken) + left);
    lemma_text_split(head + taken, left);
    crate::scan::text::lemma_encode_concat(head, taken);
    crate::scan::text::lemma_encode_concat(head + taken, left);
    lemma_advance_counts(position, taken);
}

/// What every scan does to the counters: the position after the first `n`
/// characters of the text from a position lies at or after that position
/// and in the text, and has counted the bytes, the characters and the
/// newlines of those characters.
pub proof fn law_scan_counts(s: Seq<char>, position: ScanPosition, n: int)
    requires
        position.fits(s),
        position.byte_index <= text_width(s) <= usize::MAX,
        0 <= n <= text_from(s, position.byte_index as int).len(),
    ensures
        ({
            let consumed = text_from(s, position.byte_index as int).take(n);
            let end = position.advance(consumed);
            &&& end.fits(s)
            &&& position.byte_index <= end.byte_index <= text_width(s)
            &&& end.byte_index == position.byte_index + text_width(consumed)
            &&& end.char_index == position.char_index + n
            &&& end.line_index == position.line_index + count_newlines(consumed)
        }),
{
    let consumed = text_from(s, position.byte_index as int).take(n);
    lemma_advance_fits(s, position, n);
    lemma_advance_counts(position, consumed);
    lemma_width_bounds(consumed);
}

/// Width in bytes of the UTF-8 encoding of `c`.
pub fn width_of(c: char) -> (width: usize)
    ensures
        width == char_width(c),
{
    let code: u32 = c as u32;
    if code < 0x80 {
        1
    } else if code < 0x800 {
        2
    } else if code < 0x10000 {
        3
    } else {
        4
    }
}

/// Moves `position` over the character `c`.
fn step_over(position: ScanPosition, c: char) -> (next: ScanPosition)
    requires
        position.well_formed(),
        position.byte_index + char_width(c) <= usize::MAX,
    ensures
        next == position.step(c),
{
    let byte_index: usize = position.byte_index + width_of(c);
    let char_index: usize = position.char_index + 1;
    if c == NEWLINE {
        ScanPosition {
            byte_index,
            char_index,
            line_index: position.line_index + 1,
            line_byte_index: byte_index,
            line_char_index: char_index,
        }
    } else {
        ScanPosition {
            byte_index,
            char_index,
            line_index: position.line_index,
            line_byte_index: position.line_byte_index,
            line_char_index: position.line_char_index,
        }
    }
}

/// Consumes characters of `s` from `position` on, for as long as fewer than
/// `limit` were consumed and `test` accepts the next one. Returns how many
/// were consumed and the position after them.
fn scan_run<P: Fn(char) -> bool>(s: &str, position: ScanPosition, limit: usize, test: P) -> (run: (
    usize,
    ScanPosition,
))
    requires
        position.fits(s@),
        position.byte_index <= text_width(s@),
        text_width(s@) <= usize::MAX,
        forall|c: char| test.requires((c,)),
    ensures
        run.0 <= limit,
        run.0 <= text_from(s@, position.byte_index as int).len(),
        forall|i: int|
            0 <= i < run.0 ==> test.ensures(
                (#[trigger] text_from(s@, position.byte_index as int)[i],),
                true,
            ),
        run.0 < limit && run.0 < text_from(s@, position.byte_index as int).len()
            ==> test.ensures((text_from(s@, position.byte_index as int)[run.0 as int],), false),
        run.1 == position.advance(text_from(s@, position.byte_index as int).take(run.0 as int)),
{
    broadcast use vstd::string::group_string_axioms;
    broadcast use vstd::utf8::group_utf8_lib;

    let ghost rest = text_from(s@, position.byte_index as int);
    let (_, tail) = s.split_at(position.byte_index);
    proof {
        assert(tail@ == rest);
        assert(rest.take(0) =~= Seq::<char>::empty());
    }
    let mut chars = tail.chars();
    let mut current = position;
    let mut count: usize = 0;
    loop
        invariant
            position.fits(s@),
            position.byte_index <= text_width(s@),
            text_width(s@) <= usize::MAX,
            rest == text_from(s@, position.byte_index as int),
            forall|c: char| test.requires((c,)),
            count <= limit,
            count <= rest.len(),
            chars.remaining() == rest.skip(count as int),
            forall|i: int| 0 <= i < count ==> test.ensures((#[trigger] rest[i],), true),
            current == position.advance(rest.take(count as int)),
        decreases rest.len() - count,
    {
        if count == limit {
            return (count, current);
        }
        match chars.next() {
            None => {
                return (count, current);
            },
            Some(c) => {
                assert(c == rest[count as int]);
                if !test(c) {
                    return (count, current);
                }
                proof {
                    lemma_advance_fits(s@, position, count as int);
                    lemma_advance_fits(s@, position, count + 1);
                    assert(rest.take(count + 1).drop_last() =~= rest.take(count as int));
                    assert(rest.take(count + 1).last() == c);
                    lemma_width_push(rest.take(count as int), c);
                    assert(rest.take(count as int).push(c) =~= rest.take(count + 1));
                    assert(rest.skip(count as int).drop_first() =~= rest.skip(count + 1));
                }
                current = step_over(current, c);
                count += 1;
            },
        }
    }
}

/// The first `count` characters of `s` from `position` on.
pub fn collect_chars(s: &str, position: ScanPosition, count: usize) -> (chars: Vec<char>)
    requires
        position.fits(s@),
        position.byte_index <= text_width(s@),
        count <= text_from(s@, position.byte_index as int).len(),
    ensures
        chars@ == text_from(s@, position.byte_index as int).take(count as int),
{
    broadcast use vstd::string::group_string_axioms;
    broadcast use vstd::utf8::group_utf8_lib;

    let ghost rest = text_from(s@, position.byte_index as int);
    let (_, tail) = s.split_at(position.byte_index);
    proof {
        assert(tail@ == rest);
    }
    let mut source = tail.chars();
    let mut chars: Vec<char> = Vec::new();
    while chars.len() < count
        invariant
            chars.len() <= count <= rest.len(),
            source.remaining() == rest.skip(chars.len() as int),
            chars@ == rest.take(chars.len() as int),
        decreases count - chars.len(),
    {
        match source.next() {
            None => {
                return chars;
            },
            Some(c) => {
                proof {
                    let n = chars.len() as int;
                    assert(rest.skip(n).drop_first() =~= rest.skip(n + 1));
                    assert(rest.take(n).push(c) =~= rest.take(n + 1));
                }
                chars.push(c);
            },
        }
    }
    chars
}

/// Scans for the literal string `literal`.
///
/// A context that is not live comes back as a failure at the same position.
/// Otherwise the characters of `literal` are compared with the text one by
/// one: the result matches when all of them agree, and either way its
/// position lies after the characters that agreed.
pub fn scan_literal(s: &str, context: ScanContext, literal: &str) -> (result: ScanContext)
    requires
        context.1.fits(s@),
    ensures
        result.1.fits(s@),
        result.1.byte_index >= context.1.byte_index,
        !live(s@, context) ==> result == (false, context.1),
        context.1.byte_index <= text_width(s@) ==> result.1.byte_index <= text_width(s@),
        live(s@, context) ==> ({
            let rest = text_from(s@, context.1.byte_index as int);
            let agreed = common_prefix_len(literal@, rest);
            &&& result.0 == (agreed == literal@.len())
            &&& result.1 == context.1.advance(rest.take(agreed as int))
        }),
{
    broadcast use vstd::string::group_string_axioms;
    broadcast use vstd::utf8::group_utf8_lib;

    let (matched, position) = context;
    if !matched || position.byte_index > s.as_bytes().len() {
        return (false, position);
    }
    let ghost rest = text_from(s@, position.byte_index as int);
    let (_, tail) = s.split_at(position.byte_index);
    proof {
        assert(tail@ == rest);
        assert(rest.take(0) =~= Seq::<char>::empty());
        assert(rest.skip(0) =~= rest);
        assert(literal@.skip(0) =~= literal@);
        lemma_advance_fits(s@, position, 0);
    }
    let mut source = tail.chars();
    let mut wanted = literal.chars();
    let mut current = position;
    let ghost mut count: int = 0;
    loop
        invariant
            position.fits(s@),
            position.byte_index <= text_width(s@),
            text_width(s@) <= usize::MAX,
            rest == text_from(s@, position.byte_index as int),
            context.1 == position,
            live(s@, context),
            0 <= count <= rest.len(),
            count <= literal@.len(),
            source.remaining() == rest.skip(count),
            wanted.remaining() == literal@.skip(count),
            common_prefix_len(literal@, rest) == count + common_prefix_len(
                literal@.skip(count),
                rest.skip(count),
            ),
            current == position.advance(rest.take(count)),
            current.fits(s@),
            current.byte_index <= text_width(s@),
            current.byte_index >= position.byte_index,
        decreases literal@.len() - count,
    {
        match wanted.next() {
            None => {
                return (true, current);
            },
            Some(w) => {
                match source.next() {
                    None => {
                        return (false, current);
                    },
                    Some(c) => {
                        assert(c == rest[count]);
                        assert(w == literal@[count]);
                        if w != c {
                            return (false, current);
                        }
                        proof {
                            lemma_advance_fits(s@, position, count);
                            lemma_advance_fits(s@, position, count + 1);
                            assert(rest.take(count + 1).drop_last() =~= rest.take(count));
                            lemma_width_push(rest.take(count), c);
                            assert(rest.take(count).push(c) =~= rest.take(count + 1));
                            assert(rest.skip(count).drop_first() =~= rest.skip(count + 1));
                            assert(literal@.skip(count).drop_first() =~= literal@.skip(count + 1));
                            count = count + 1;
                        }
                        current = step_over(current, c);
                    },
                }
            },
        }
    }
}

/// Scans greedily over the characters that `test` accepts.
///
/// A context that is not live comes back as a failure at the same position.
/// Otherwise the scan matches, and its position lies after the longest run
/// of accepted characters, which may be empty.
pub fn scan_zero_or_more_chars<P: Fn(char) -> bool>(s: &str, context: ScanContext, test: P) -> (result:
    ScanContext)
    requires
        context.1.fits(s@),
        forall|c: char| test.requires((c,)),
    ensures
        result.1.fits(s@),
        result.1.byte_index >= context.1.byte_index,
        !live(s@, context) ==> result == (false, context.1),
        context.1.byte_index <= text_width(s@) ==> result.1.byte_index <= text_width(s@),
        live(s@, context) ==> result.0,
        live(s@, context) ==> exists|n: int|
            {
                &&& #[trigger] accepted_run(test, text_from(s@, context.1.byte_index as int), n)
                &&& result.1 == context.1.advance(
                    text_from(s@, context.1.byte_index as int).take(n),
                )
            },
{
    let (matched, position) = context;
    if !matched || position.byte_index > s.as_bytes().len() {
        return (false, position);
    }
    let (count, end) = scan_run(s, position, usize::MAX, test);
    proof {
        let rest = text_from(s@, position.byte_index as int);
        lemma_advance_fits(s@, position, count as int);
        lemma_width_bounds(rest);
        lemma_advance_fits(s@, position, rest.len() as int);
        assert(rest.take(rest.len() as int) =~= rest);
        assert(count < rest.len() ==> count < usize::MAX);
        assert(0 <= count <= rest.len());
        assert(forall|i: int| 0 <= i < count ==> test.ensures((#[trigger] rest[i],), true));
        assert(count < rest.len() ==> test.ensures((rest[count as int],), false));
        assert(accepted_run(test, rest, count as int));
    }
    (true, end)
}

/// Scans greedily over the characters that `test` accepts, of which there
/// must be at least one.
///
/// A context that is not live comes back as a failure at the same position.
/// Otherwise the position of the result lies after the longest run of
/// accepted characters, and the scan matches when that run is not empty; a
/// failure leaves the position where it was.
pub fn scan_one_or_more_chars<P: Fn(char) -> bool>(s: &str, context: ScanContext, test: P) -> (result:
    ScanContext)
    requires
        context.1.fits(s@),
        forall|c: char| test.requires((c,)),
    ensures
        result.1.fits(s@),
        result.1.byte_index >= context.1.byte_index,
        !result.0 ==> result.1 == context.1,
        !live(s@, context) ==> !result.0,
        context.1.byte_index <= text_width(s@) ==> result.1.byte_index <= text_width(s@),
        live(s@, context) ==> exists|n: int|
            {
                &&& #[trigger] accepted_run(test, text_from(s@, context.1.byte_index as int), n)
                &&& result.0 == (n > 0)
                &&& result.1 == context.1.advance(
                    text_from(s@, context.1.byte_index as int).take(n),
                )
            },
{
    let (matched, position) = context;
    if !matched || position.byte_index > s.as_bytes().len() {
        return (false, position);
    }
    let (count, end) = scan_run(s, position, usize::MAX, test);
    proof {
        let rest = text_from(s@, position.byte_index as int);
        lemma_advance_fits(s@, position, count as int);
        lemma_width_bounds(rest);
        lemma_advance_fits(s@, position, rest.len() as int);
        assert(rest.take(rest.len() as int) =~= rest);
        assert(count < rest.len() ==> count < usize::MAX);
        assert(0 <= count <= rest.len());
        assert(forall|i: int| 0 <= i < count ==> test.ensures((#[trigger] rest[i],), true));
        assert(count < rest.len() ==> test.ensures((rest[count as int],), false));
        assert(accepted_run(test, rest, count as int));
        assert(rest.take(0) =~= Seq::<char>::empty());
    }
    (count > 0, end)
}

/// Scans over exactly `n` characters that `test` accepts.
///
/// A context that is not live comes back as a failure at the same position.
/// Otherwise characters are consumed while fewer than `n` were consumed and
/// `test` accepts the next one; the scan matches when `n` were consumed, and
/// either way its position lies after the consumed characters.
pub fn scan_n_chars<P: Fn(char) -> bool>(s: &str, context: ScanContext, n: usize, test: P) -> (result:
    ScanContext)
    requires
        context.1.fits(s@),
        forall|c: char| test.requires((c,)),
    ensures
        result.1.fits(s@),
        result.1.byte_index >= context.1.byte_index,
        !live(s@, context) ==> result == (false, context.1),
        context.1.byte_index <= text_width(s@) ==> result.1.byte_index <= text_width(s@),
        live(s@, context) ==> exists|k: int|
            {
                &&& #[trigger] bounded_run(
                    test,
                    text_from(s@, context.1.byte_index as int),
                    n as int,
                    k,
                )
                &&& result.0 == (k == n)
                &&& result.1 == context.1.advance(
                    text_from(s@, context.1.byte_index as int).take(k),
                )
            },
{
    let (matched, position) = context;
    if !matched || position.byte_index > s.as_bytes().len() {
        return (false, position);
    }
    let (count, end) = scan_run(s, position, n, test);
    proof {
        let rest = text_from(s@, position.byte_index as int);
        lemma_advance_fits(s@, position, count as int);
        assert(bounded_run(test, rest, n as int, count as int));
    }
    (count == n, end)
}

} // verus!
