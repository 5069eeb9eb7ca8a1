use expression_calculator::scan::context::{
    scan_n_chars, scan_one_or_more_chars, scan_zero_or_more_chars, ScanContext, ScanPosition,
};
use expression_calculator::scan::scanner::{scan_all, scan_pair};

type ScannerFn = fn(&str, ScanContext) -> ScanContext;



#[test]
fn test_scan_pair_ok() {
    let s = "foo123bar_doo_2";
    let context = (true, ScanPosition::default());

    //
    // scan one or more alphabetic characters
    //
    fn scan_one_or_more_alphabetic(s: &str, context: ScanContext) -> ScanContext {
        scan_one_or_more_chars(s, context, |c| c.is_alphabetic())
    }

    //
    // scan zero or more alphanumeric characters
    //
    fn scan_zero_or_more_alphanumeric(s: &str, context: ScanContext) -> ScanContext {
        scan_zero_or_more_chars(s, context, |c| c.is_alphanumeric())
    }

    //
    // scan variable name that starts with alphabetic the zero or more alphanumerics
    //
    let result = scan_pair(s, context, scan_one_or_more_alphabetic as ScannerFn, scan_zero_or_more_alphanumeric as ScannerFn);
    assert_eq!((true, ScanPosition::new("foo123bar".len(), 9, 0, 0, 0)), result);

    //
    // scan with closure's coerced to function
    //
    let scan_1_or_more_alphabetic: ScannerFn = |s, c| scan_one_or_more_chars(s, c, |ch| ch.is_alphabetic());
    let scan_0_or_more_alphanumeric: ScannerFn = |s, c| scan_zero_or_more_chars(s, c, |ch| ch.is_alphanumeric());
    let result = scan_pair(s, context, scan_1_or_more_alphabetic, scan_0_or_more_alphanumeric);
    assert_eq!((true, ScanPosition::new("foo123bar".len(), 9, 0, 0, 0)), result);

}

#[test]
fn test_scan_pair_ok_out_of_range() {
    let s = "foo123bar_doo_2";

    //
    // offset beyond end of string will not match
    // and will return the byte and char indices unchanged.
    //
    let context = (true, ScanPosition::new(s.len() + 69, s.chars().count() + 69, 0, 0, 0));
    let scan_1_or_more_alphabetic: ScannerFn = |s, c| scan_one_or_more_chars(s, c, |ch| ch.is_alphabetic());
    let scan_0_or_more_alphanumeric: ScannerFn = |s, c| scan_zero_or_more_chars(s, c, |ch| ch.is_alphanumeric());
    let result = scan_pair(s, context, scan_1_or_more_alphabetic, scan_0_or_more_alphanumeric);
    assert_eq!((false, context.1), result);

    //
    // scanning zero out of range will not match
    //
    let scan_0_chars: ScannerFn = |s, c| scan_n_chars(s, c, 0, |ch| ch.is_alphanumeric());
    let result = scan_pair(s, context, scan_0_chars, scan_0_chars);
    assert_eq!((false, context.1), result);
}

#[test]
fn test_scan_pair_ok_end_of_input() {
    let s = "foo bar";

    //
    // offset at end of input is no match,
    // returning byte offset and char offset unchanged.
    //
    let context = (true, ScanPosition::new(s.len(), s.chars().count(), 0, 0, 0));
    let scan_1_or_more_alphabetic: ScannerFn = |s, c| scan_one_or_more_chars(s, c, |ch| ch.is_alphabetic());
    let scan_0_or_more_alphanumeric: ScannerFn = |s, c| scan_zero_or_more_chars(s, c, |ch| ch.is_alphanumeric());
    let result = scan_pair(s, context, scan_1_or_more_alphabetic, scan_0_or_more_alphanumeric);
    assert_eq!((false, ScanPosition::new(s.len(), s.chars().count(), 0, 0, 0)), result);

    //
    // scanning zero at end of input will still match
    //
    let scan_0_chars: ScannerFn = |s, c| scan_n_chars(s, c, 0, |ch| ch.is_alphanumeric());
    let result = scan_pair(s, context, scan_0_chars, scan_0_chars);
    assert_eq!((true, ScanPosition::new(s.len(), s.chars().count(), 0, 0, 0)), result);
}

#[test]
fn test_scan_pair_lines_ok() {
    let s = "foo\nbar\r\nbaz\r\n";
    let context = (true, ScanPosition::default());

    //
    // count number of alphabetic runs followed by new line
    //
    let scan_1_or_more_alphabetic: ScannerFn = |st, ctx| scan_one_or_more_chars(st, ctx, |ch| ch.is_alphabetic());

    //
    // We cannot use a capturing closure; here the scan_pair closure is using to captured local functions:
    //
    // ```
    // let scan_carriage_returns: ScannerFn = |st, ctx| scan_zero_or_more_chars(st, ctx, |ch| ch == '\r');
    // let scan_new_line: ScannerFn = |st, ctx| scan_n_chars(st, ctx, 1, |ch| ch == '\n');
    // let scan_line_ending: ScannerFn = |st, ctx| scan_pair(st, ctx, scan_carriage_returns, scan_new_line);
    // ```
    //
    // but it works if we use inline noncapturing closures
    //
    let scan_line_ending: ScannerFn = |st, ctx| scan_pair(st, ctx,
        (|st, ctx| scan_zero_or_more_chars(st, ctx, |ch| ch == '\r')) as ScannerFn,
        (|st, ctx| scan_n_chars(st, ctx, 1, |ch| ch == '\n')) as ScannerFn
    );

    // scan first line
    let result = scan_pair(s, context, scan_1_or_more_alphabetic, scan_line_ending);
    assert_eq!((true, ScanPosition::new("foo\n".len(), "foo\n".chars().count(), 1, "foo\n".len(), "foo\n".chars().count())), result);

    // scan second line
    let result = scan_pair(s, result, scan_1_or_more_alphabetic, scan_line_ending);
    assert_eq!((true, ScanPosition::new("foo\nbar\r\n".len(), "foo\nbar\r\n".chars().count(), 2, "foo\nbar\r\n".len(), "foo\nbar\r\n".chars().count())), result);

    // scan last line
    let result = scan_pair(s, result, scan_1_or_more_alphabetic, scan_line_ending);
    assert_eq!((true, ScanPosition::new(s.len(), s.chars().count(), 3, s.len(), s.chars().count())), result);
}

#[test]
fn test_scan_sequence_ok() {
    let s = "foo123bar_doo_2";
    let context = (true, ScanPosition::default());

    //
    // scan one or more alphabetic characters
    //
    fn scan_one_or_more_alphabetic(s: &str, context: ScanContext) -> ScanContext {
        scan_one_or_more_chars(s, context, |c| c.is_alphabetic())
    }

    //
    // scan zero or more alphanumeric characters
    //
    fn scan_zero_or_more_alphanumeric(s: &str, context: ScanContext) -> ScanContext {
        scan_zero_or_more_chars(s, context, |c| c.is_alphanumeric())
    }

    //
    // scan variable name that starts with alphabetic the zero or more alphanumerics
    //
    let result = scan_all(s, context, [scan_one_or_more_alphabetic, scan_zero_or_more_alphanumeric]);
    assert_eq!((true, ScanPosition::new("foo123bar".len(), 9, 0, 0, 0)), result);

    //
    // with non-capturing closures coerced to function
    //
    let scan_1_or_more_alphabetic: ScannerFn = |s, c| scan_one_or_more_chars(s, c, |ch| ch.is_alphabetic());
    let scan_0_or_more_alphanumeric: ScannerFn = |s, c| scan_zero_or_more_chars(s, c, |ch| ch.is_alphanumeric());
    let result = scan_all(s, context, [scan_1_or_more_alphabetic, scan_0_or_more_alphanumeric]);
    assert_eq!((true, ScanPosition::new("foo123bar".len(), 9, 0, 0, 0)), result);
}

#[test]
fn test_scan_sequence_ok_out_of_range() {
    let s = "foo123bar_doo_2";

    //
    // offset beyond end of string will not match
    // and will return the byte and char indices unchanged.
    //
    let context = (true, ScanPosition::new(s.len() + 69, s.chars().count() + 69, 0, 0, 0));
    let scan_1_or_more_alphabetic: ScannerFn = |s, c| scan_one_or_more_chars(s, c, |ch| ch.is_alphabetic());
    let scan_0_or_more_alphanumeric: ScannerFn = |s, c| scan_zero_or_more_chars(s, c, |ch| ch.is_alphanumeric());
    let result = scan_all(s, context, [scan_1_or_more_alphabetic, scan_0_or_more_alphanumeric]);
    assert_eq!((false, context.1), result)
}

#[test]
fn test_scan_sequence_ok_end_of_input() {
    let s = "foo bar";

    //
    // offset at end of input is no match,
    // returning byte offset and char offset unchanged.
    //
    let context = (true, ScanPosition::new(s.len(), s.chars().count(), 0, 0, 0));
    let scan_1_or_more_alphabetic: ScannerFn = |s, c| scan_one_or_more_chars(s, c, |ch| ch.is_alphabetic());
    let scan_0_or_more_alphanumeric: ScannerFn = |s, c| scan_zero_or_more_chars(s, c, |ch| ch.is_alphanumeric());
    let result = scan_all(s, context, [scan_1_or_more_alphabetic, scan_0_or_more_alphanumeric]);
    assert_eq!((false, context.1), result);

    //
    // scanning zero at end of input will still match
    //
    let scan_0_chars: ScannerFn = |s, c| scan_n_chars(s, c, 0, |ch| ch.is_alphanumeric());
    let result = scan_all(s, context, [scan_0_chars, scan_0_chars]);
    assert_eq!((true, ScanPosition::new(s.len(), s.chars().count(), 0, 0, 0)), result);
}

#[test]
fn test_scan_sequence_lines_ok() {
    let s = "foo\nbar\r\nbaz\r\n";
    let context = (true, ScanPosition::default());

    //
    // scanner for a line
    //
    let scan_line: ScannerFn = |st, ctx| scan_all(st, ctx, [
        (|st, ctx| scan_zero_or_more_chars(st, ctx, |ch| ch.is_alphabetic())) as ScannerFn,
        (|st, ctx| scan_zero_or_more_chars(st, ctx, |ch| ch == '\r')) as ScannerFn,
        (|st, ctx| scan_n_chars(st, ctx, 1, |ch| ch == '\n')) as ScannerFn
    ]);

    //
    // scan 3 lines
    //
    let result = scan_all(s, context, [scan_line, scan_line, scan_line]);
    assert_eq!((true, ScanPosition::new(s.len(), s.chars().count(), 3, s.len(), s.chars().count())), result);
}
