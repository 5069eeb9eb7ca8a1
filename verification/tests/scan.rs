use expression_calculator::scan::scan::{
    scan_literal, scan_n_chars, scan_one_or_more_chars, scan_zero_or_more_chars,
};



#[test]
fn scan_test_scan_literal_ok_match() {
    let s = "foo bar";
    let context = (true, 0, 0, 0);

    // scan identity
    assert_eq!((true, s.len(), s.chars().count(), 0), scan_literal(s, context, s));

    // scan "foo"
    let foo_context = scan_literal(s, context, "foo");
    assert_eq!((true, "foo".len(), 3, 0), foo_context);

    // scan space
    let space_context = scan_literal(s, foo_context, " ");
    assert_eq!((true, "foo ".len(), 4, 0), space_context);

    // scan "bar"
    let result = scan_literal(s, space_context, "bar");
    assert_eq!((true, "foo_bar".len(), 7, 0), result);
}

#[test]
fn scan_test_scan_literal_ok_no_match() {
    let s = "foo bar";
    let context = (true, 0, 0, 0);

    //
    // not matching returns false
    // along with index of char after last match
    // and number of matched chars.
    //
    let result = scan_literal(s, context, "xxx");
    assert_eq!((false, 0, 0, 0), result);

    //
    // this will stop matching after first char
    // it returns false because it was not a complete match
    // and return index after 'b' match
    // and the count of 1 matched chars
    //
    let result = scan_literal(s, context, "fxx");
    assert_eq!((false, "f".len(), 1, 0), result);

}

#[test]
fn scan_test_scan_literal_ok_out_of_range() {
    let s = "foo bar";

    //
    // offset beyond end of string will not match
    // and will return the byte and char indices unchanged.
    //
    let context = (true, s.len() + 69, s.chars().count() + 69, 0);
    let result = scan_literal(s, context, "bar");
    assert_eq!((false, context.1, context.2, context.3), result)
}

#[test]
fn scan_test_scan_literal_ok_end_of_input() {
    let s = "foo bar";

    //
    // offset at end of input is no match,
    // returning byte offset and char offset unchanged.
    //
    let context = (true, s.len(), s.chars().count(), 0);
    let result = scan_literal(s, context, "foo");
    assert_eq!((false, s.len(), s.chars().count(), 0), result);
}

#[test]
fn scan_test_scan_literal_ok_not_enough_input() {
    let s = "foo bar";
    let context = (true, 0, 0, 0);

    //
    // there are not enough chars in the buffer.
    // this will return false because literal is not completely matched.
    // it will return index at end of input (since it stopped there)
    // and number of matched chars.
    //
    let result = scan_literal(s, context, "foo bar baz");
    assert_eq!((false, s.len(), s.chars().count(), 0), result);
}

#[test]
fn scan_test_scan_chars_ok_lambda() {
    let s = "foo_bar";
    let context = (true, 0, 0, 0);

    //
    // scan the first 'f' character using a lambda
    //
    let result = scan_one_or_more_chars(s, context, |c| c == 'f');
    assert_eq!((true, 'f'.len_utf8(), 1, 0), result);

    //
    // scan the characters in "foo"
    //
    fn is_alphabetic(ch: char) -> bool {
        ch.is_alphabetic()
    }
    let result = scan_one_or_more_chars(s, context, is_alphabetic);
    assert_eq!((true, "foo".len(), 3, 0), result);

    let result = scan_one_or_more_chars(s, context, |c: char| c.is_alphabetic());
    assert_eq!((true, "foo".len(), 3, 0), result);

    //
    // no matches returns false
    //
    let result = scan_one_or_more_chars(s, context, |c| c == 'x');
    assert_eq!((false, 0, 0, 0), result);
}

#[test]
fn scan_test_scan_chars_ok_out_of_range() {
    let s = "foo bar";

    //
    // offset beyond end of string will not match
    // and will return the byte and char indices unchanged.
    //
    let context = (true, s.len() + 69, s.chars().count() + 69, 0);
    let result = scan_one_or_more_chars(s, context, |c| c.is_alphabetic());
    assert_eq!((false, context.1, context.2, context.3), result)
}

#[test]
fn scan_test_scan_chars_ok_end_of_input() {
    let s = "foo bar";

    //
    // offset at end of input is no match,
    // returning byte offset and char offset unchanged.
    //
    let context = (true, s.len(), s.chars().count(), 0);
    let result = scan_one_or_more_chars(s, context, |c| c.is_alphabetic());
    assert_eq!((false, s.len(), s.chars().count(), 0), result);
}

#[test]
fn scan_test_scan_n_chars_ok() {
    let s = "foo_bar";
    let context = (true, 0, 0, 0);

    //
    // scan the first 'f' character using a lambda
    //
    let result = scan_n_chars(s, context, 1, |c| c == 'f');
    assert_eq!((true, 'f'.len_utf8(), 1, 0), result);

    //
    // scan the "foo" using a lambda
    //
    let result = scan_n_chars(s, context, 3, |c| c.is_alphabetic());
    assert_eq!((true, "foo".len(), 3, 0), result);
}

#[test]
fn scan_test_scan_n_chars_zero_ok() {
    let s = "foo_bar";
    let context = (true, 0, 0, 0);

    //
    // n of zero always matches
    //
    let result = scan_n_chars(s, context, 0, |c| c == 'x');
    assert_eq!((true, 0, 0, 0), result);

    //
    // n of zero always matches
    //
    let result = scan_n_chars(s, context, 0, |c| c.is_alphabetic());
    assert_eq!((true, 0, 0, 0), result);
}

#[test]
fn scan_test_scan_n_chars_ok_out_of_range() {
    let s = "foo bar";

    //
    // offset beyond end of string will not match
    // even for n of zero
    // and will return the byte and char indices unchanged.
    //
    let context = (true, s.len() + 69, s.chars().count() + 69, 0);
    let result = scan_n_chars(s, context, 0, |c| c.is_alphabetic());
    assert_eq!((false, context.1, context.2, context.3), result)
}

#[test]
fn scan_test_scan_n_chars_ok_end_of_input() {
    let s = "foo bar";

    //
    // offset at end of input is no match,
    // returning byte offset and char offset unchanged.
    //
    let context = (true, s.len(), s.chars().count(), 0);
    let result = scan_n_chars(s, context, 1, |c| c.is_alphabetic());
    assert_eq!((false, s.len(), s.chars().count(), 0), result);

    //
    // scanning zero at end of input will still match
    //
    let result = scan_n_chars(s, context, 0, |c| c.is_alphabetic());
    assert_eq!((true, s.len(), s.chars().count(), 0), result);
}


#[test]
fn scan_test_scan_chars_ok_sequentially() {
    let s = "foo_bar";
    let context = (true, 0, 0, 0);

    //
    // scan the first 'f' character using a lambda
    //
    let result = scan_one_or_more_chars(s, context, |ch| ch == 'f');
    assert_eq!((true, 'f'.len_utf8(), 1, 0), result);

    //
    // scan the 'o' characters starting from last scan result
    //
    let result = scan_one_or_more_chars(s, result, |ch| ch == 'o');
    assert_eq!((true, "foo".len(), 3, 0), result);

    //
    // scan the remaining underscore and alphabetic characters
    // starting from the last can result.
    //
    let result = scan_zero_or_more_chars(s, result, |ch| ch == '_' || ch.is_alphabetic());
    assert_eq!((true, s.len(), s.chars().count(), 0), result);

    //
    // do the same thing in one function call
    //
    let result = scan_zero_or_more_chars(s,
                    scan_one_or_more_chars(s,
                        scan_one_or_more_chars(s,
                            context,
                            |ch| ch == 'f'),
                        |ch| ch == 'o'),
                    |ch| ch == '_' || ch.is_alphabetic());
    assert_eq!((true, s.len(), s.chars().count(), 0), result);
}

#[test]
fn scan_test_scan_chars_ok_sequence_stops_after_no_match() {
    let s = "foo_bar";
    let context = (true, 0, 0, 0);

    //
    // scanners should not continue scanning
    // after a mismatch is detected.
    //

    //
    // scan the first 'f' character using a lambda
    //
    let result = scan_one_or_more_chars(s, context, |ch| ch == 'f');
    assert_eq!((true, 'f'.len_utf8(), 1, 0), result);

    //
    // Attempt to scan 'x' characters starting from last scan result.
    // This will not match, so subsequent scanners should not match.
    //
    let result = scan_one_or_more_chars(s, result, |ch| ch == 'x');
    assert_eq!((false, "f".len(), 1, 0), result);

    //
    // scan the remaining underscore and alphabetic characters
    // starting from the last can result.
    //
    let result = scan_zero_or_more_chars(s, result, |ch| ch == '_' || ch.is_alphabetic());
    assert_eq!((false, "f".len(), 1, 0), result);

    //
    // do the same thing in one function call
    //
    let result = scan_zero_or_more_chars(s,
                    scan_one_or_more_chars(s,
                        scan_one_or_more_chars(s,
                            context,
                            |ch| ch == 'f'),
                        |ch| ch == 'x'),
                    |ch| ch == '_' || ch.is_alphabetic());
    assert_eq!((false, "f".len(), 1, 0), result);
}

#[test]
fn scan_test_scan_lines_ok() {
    let s = "foo\nbar\r\nbaz";
    let context = (true, 0, 0, 0);

    assert_eq!((true, s.len(), s.chars().count(), 2), scan_literal(s, context, s));
    assert_eq!((true, s.len(), s.chars().count(), 2), scan_zero_or_more_chars(s, context, |_ch| true));
    assert_eq!((true, s.len(), s.chars().count(), 2), scan_one_or_more_chars(s, context, |_ch| true));
    assert_eq!((true, s.len(), s.chars().count(), 2), scan_n_chars(s, context, s.len(), |_ch| true));
}

#[test]
fn scan_test_scan_lines_last_line_ending_ok() {
    let s = "foo\nbar\r\nbaz\r\n";
    let context = (true, 0, 0, 0);

    assert_eq!((true, s.len(), s.chars().count(), 3), scan_literal(s, context, s));
    assert_eq!((true, s.len(), s.chars().count(), 3), scan_zero_or_more_chars(s, context, |_ch| true));
    assert_eq!((true, s.len(), s.chars().count(), 3), scan_one_or_more_chars(s, context, |_ch| true));
    assert_eq!((true, s.len(), s.chars().count(), 3), scan_n_chars(s, context, s.len(), |_ch| true));
}

