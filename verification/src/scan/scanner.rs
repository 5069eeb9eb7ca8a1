//! Scanners of a higher order: a pair, a sequence, or a choice of scanners
//! applied to one text.

use vstd::prelude::*;
use crate::scan::context::{live, ScanContext};

verus! {

/// Something that scans a text from a context and returns the context it
/// has reached.
pub trait Scanner {
    /// The scanner may be applied to `s` in `context`.
    spec fn accepts(&self, s: &str, context: ScanContext) -> bool;

    /// Applied to `s` in `context`, the scanner may return `result`.
    spec fn yields(&self, s: &str, context: ScanContext, result: ScanContext) -> bool;

    /// Scans `s` from `context` on.
    fn scan(self, s: &str, context: ScanContext) -> (result: ScanContext)
        requires
            self.accepts(s, context),
        ensures
            self.yields(s, context, result),
    ;
}

/// Every function from a text and a context to a context is a scanner.
impl<F: Fn(&str, ScanContext) -> ScanContext> Scanner for F {
    open spec fn accepts(&self, s: &str, context: ScanContext) -> bool {
        self.requires((s, context))
    }

    open spec fn yields(&self, s: &str, context: ScanContext, result: ScanContext) -> bool {
        self.ensures((s, context), result)
    }

    fn scan(self, s: &str, context: ScanContext) -> (result: ScanContext) {
        self(s, context)
    }
}

/// Each of `scanners` may be applied to the context that the ones before it
/// lead to, as long as they match.
pub open spec fn all_accept<S: Scanner>(scanners: Seq<S>, s: &str, context: ScanContext) -> bool
    decreases scanners.len(),
{
    scanners.len() > 0 ==> {
        &&& scanners[0].accepts(s, context)
        &&& forall|mid: ScanContext| #[trigger]
            scanners[0].yields(s, context, mid) && mid.0 ==> all_accept(
                scanners.drop_first(),
                s,
                mid,
            )
    }
}

/// Applying `scanners` in order from `context`, each to the result of the
/// one before, and stopping after the first that fails, may lead to
/// `result`.
pub open spec fn all_yield<S: Scanner>(
    scanners: Seq<S>,
    s: &str,
    context: ScanContext,
    result: ScanContext,
) -> bool
    decreases scanners.len(),
{
    if scanners.len() == 0 {
        result == context
    } else {
        exists|mid: ScanContext| #[trigger]
            scanners[0].yields(s, context, mid) && if mid.0 {
                all_yield(scanners.drop_first(), s, mid, result)
            } else {
                result == mid
            }
    }
}

/// Applying `scanners` in order, each to `context`, and stopping after the
/// first that matches, may lead to `result`, where `last` is the result of
/// the scanner applied before them.
pub open spec fn any_yield<S: Scanner>(
    scanners: Seq<S>,
    s: &str,
    context: ScanContext,
    last: ScanContext,
    result: ScanContext,
) -> bool
    decreases scanners.len(),
{
    if scanners.len() == 0 {
        result == last
    } else {
        exists|mid: ScanContext| #[trigger]
            scanners[0].yields(s, context, mid) && if mid.0 {
                result == mid
            } else {
                any_yield(scanners.drop_first(), s, context, mid, result)
            }
    }
}

/// Scans with two scanners in order.
///
/// A context that is not live comes back as a failure at the same position.
/// Otherwise the result is that of the left scanner where it fails, and that
/// of the right scanner applied to the result of the left one where the left
/// one matches.
pub fn scan_pair<L: Scanner, R: Scanner>(
    s: &str,
    context: ScanContext,
    scanner_left: L,
    scanner_right: R,
) -> (result: ScanContext)
    requires
        live(s@, context) ==> scanner_left.accepts(s, context),
        live(s@, context) ==> forall|mid: ScanContext| #[trigger]
            scanner_left.yields(s, context, mid) && mid.0 ==> scanner_right.accepts(s, mid),
    ensures
        !live(s@, context) ==> result == (false, context.1),
        live(s@, context) ==> exists|mid: ScanContext| #[trigger]
            scanner_left.yields(s, context, mid) && if mid.0 {
                scanner_right.yields(s, mid, result)
            } else {
                result == mid
            },
{
    let (matched, position) = context;
    if !matched || position.byte_index > s.as_bytes().len() {
        return (false, position);
    }
    let mut result = scanner_left.scan(s, context);
    if result.0 {
        result = scanner_right.scan(s, result);
    }
    result
}

/// Scans with a sequence of scanners in order, until all have matched or
/// one has failed.
///
/// A context that is not live comes back as a failure at the same position.
/// Otherwise each scanner is applied to the result of the one before it, and
/// the result is that of the first scanner that fails, or of the last one
/// where none fails. Without scanners the context comes back as it is.
pub fn scan_all<S: Scanner + Copy, const N: usize>(
    s: &str,
    context: ScanContext,
    scanners: [S; N],
) -> (result: ScanContext)
    requires
        live(s@, context) ==> all_accept(scanners@, s, context),
    ensures
        !live(s@, context) ==> result == (false, context.1),
        live(s@, context) ==> all_yield(scanners@, s, context, result),
{
    let (matched, position) = context;
    if !matched || position.byte_index > s.as_bytes().len() {
        return (false, position);
    }
    let mut scanned = context;
    let mut i: usize = 0;
    proof {
        assert(scanners@.skip(0) =~= scanners@);
    }
    while i < N
        invariant
            0 <= i <= N,
            scanners@.len() == N,
            live(s@, context),
            all_accept(scanners@.skip(i as int), s, scanned),
            forall|end: ScanContext|
                all_yield(scanners@.skip(i as int), s, scanned, end) ==> all_yield(
                    scanners@,
                    s,
                    context,
                    end,
                ),
        decreases N - i,
    {
        let scanner = scanners[i];
        let ghost before = scanned;
        let ghost left = scanners@.skip(i as int);
        proof {
            assert(left[0] == scanner);
            assert(left.drop_first() =~= scanners@.skip(i + 1));
        }
        scanned = scanner.scan(s, scanned);
        if !scanned.0 {
            proof {
                assert(all_yield(left, s, before, scanned));
            }
            return scanned;
        }
        proof {
            assert forall|end: ScanContext|
                all_yield(scanners@.skip(i + 1), s, scanned, end) implies all_yield(
                scanners@,
                s,
                context,
                end,
            ) by {
                assert(all_yield(left, s, before, end));
            }
        }
        i += 1;
    }
    scanned
}

/// Scans with a choice of scanners in order, until one has matched or all
/// have failed.
///
/// A context that is not live comes back as a failure at the same position.
/// Otherwise each scanner is applied to `context`, and the result is that of
/// the first scanner that matches, or of the last one where none matches.
/// Without scanners the context comes back as it is.
pub fn scan_any<S: Scanner + Copy, const N: usize>(
    s: &str,
    context: ScanContext,
    scanners: [S; N],
) -> (result: ScanContext)
    requires
        live(s@, context) ==> forall|i: int| 0 <= i < N ==> (#[trigger] scanners@[i]).accepts(s, context),
    ensures
        !live(s@, context) ==> result == (false, context.1),
        live(s@, context) ==> any_yield(scanners@, s, context, context, result),
{
    let (matched, position) = context;
    if !matched || position.byte_index > s.as_bytes().len() {
        return (false, position);
    }
    let mut scanned = context;
    let mut i: usize = 0;
    proof {
        assert(scanners@.skip(0) =~= scanners@);
    }
    while i < N
        invariant
            0 <= i <= N,
            scanners@.len() == N,
            live(s@, context),
            forall|i: int| 0 <= i < N ==> (#[trigger] scanners@[i]).accepts(s, context),
            forall|end: ScanContext|
                any_yield(scanners@.skip(i as int), s, context, scanned, end) ==> any_yield(
                    scanners@,
                    s,
                    context,
                    context,
                    end,
                ),
        decreases N - i,
    {
        let scanner = scanners[i];
        let ghost before = scanned;
        let ghost left = scanners@.skip(i as int);
        proof {
            assert(left[0] == scanner);
            assert(left.drop_first() =~= scanners@.skip(i + 1));
        }
        scanned = scanner.scan(s, context);
        if scanned.0 {
            proof {
                assert(any_yield(left, s, context, before, scanned));
            }
            return scanned;
        }
        proof {
            assert forall|end: ScanContext|
                any_yield(scanners@.skip(i + 1), s, context, scanned, end) implies any_yield(
                scanners@,
                s,
                context,
                context,
                end,
            ) by {
                assert(any_yield(left, s, context, before, end));
            }
        }
        i += 1;
    }
    scanned
}

} // verus!
