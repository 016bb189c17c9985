use fieldcut::selector::{validate_input, SelectorError};

fn invalid(text: &str) {
    assert_eq!(validate_input(text), Err(SelectorError::InvalidFormat), "{:?}", text);
}

#[test]
fn single_number_is_one_field() {
    assert_eq!(validate_input("3"), Ok(vec![3]));
    assert_eq!(validate_input("12"), Ok(vec![12]));
    assert_eq!(validate_input("007"), Ok(vec![7]));
}

#[test]
fn single_zero_is_the_list_of_zero() {
    assert_eq!(validate_input("0"), Ok(vec![0]));
}

#[test]
fn bounded_range_includes_both_ends() {
    assert_eq!(validate_input("2-4"), Ok(vec![2, 3, 4]));
    assert_eq!(validate_input("4-4"), Ok(vec![4]));
    assert_eq!(validate_input("0-2"), Ok(vec![0, 1, 2]));
    assert_eq!(validate_input("0-0"), Ok(vec![0]));
}

#[test]
fn open_start_range_leaves_its_end_out() {
    assert_eq!(validate_input("-3"), Ok(vec![1, 2]));
    assert_eq!(validate_input("-2"), Ok(vec![1]));
    assert_eq!(validate_input("-1"), Ok(vec![]));
    assert_eq!(validate_input("-0"), Ok(vec![]));
}

#[test]
fn open_start_range_has_one_field_less_than_its_end() {
    let mut n: u32 = 1;
    while n <= 60 {
        let fields: Vec<u32> = validate_input(&format!("-{}", n)).unwrap();
        assert_eq!(fields.len(), (n - 1) as usize);
        let expected: Vec<u32> = (1..n).collect();
        assert_eq!(fields, expected);
        n += 1;
    }
}

#[test]
fn open_end_range_is_zero_and_the_start() {
    assert_eq!(validate_input("3-"), Ok(vec![0, 3]));
    assert_eq!(validate_input("0-"), Ok(vec![0, 0]));
    assert_eq!(validate_input("4294967295-"), Ok(vec![0, 4294967295]));
}

#[test]
fn list_keeps_order_and_duplicates() {
    assert_eq!(validate_input("1,3,5"), Ok(vec![1, 3, 5]));
    assert_eq!(validate_input("5,3,3,1"), Ok(vec![5, 3, 3, 1]));
    assert_eq!(validate_input("0,5,7"), Ok(vec![0, 5, 7]));
    assert_eq!(validate_input("1,0"), Ok(vec![1, 0]));
}

#[test]
fn decreasing_range_is_refused() {
    assert_eq!(validate_input("5-2"), Err(SelectorError::DecreasingRange));
    assert_eq!(validate_input("1-0"), Err(SelectorError::DecreasingRange));
    assert_eq!(validate_input("4294967295-4294967294"), Err(SelectorError::DecreasingRange));
}

#[test]
fn text_that_is_not_numeric_is_refused() {
    invalid("a,b");
    invalid("x");
}

#[test]
fn lone_dash_is_refused() {
    invalid("-");
}

#[test]
fn empty_text_is_refused() {
    invalid("");
}

#[test]
fn malformed_ranges_are_refused() {
    invalid("1-2-3");
    invalid("--");
    invalid("1--2");
    invalid("-a");
    invalid("a-");
    invalid("1-a");
    invalid("a-1");
    invalid("1-2,3");
    invalid("1,2-3");
    invalid("-1,2");
}

#[test]
fn malformed_lists_are_refused() {
    invalid(",");
    invalid("1,");
    invalid(",1");
    invalid("1,,2");
    invalid("1, 2");
    invalid("1;2");
}

#[test]
fn blanks_and_foreign_digits_are_refused() {
    invalid(" 3");
    invalid("3 ");
    invalid("3\n");
    invalid("\u{0663}");
    invalid("\u{ff13}");
    invalid("1.5");
    invalid("0x10");
}

#[test]
fn numbers_that_do_not_fit_are_refused() {
    assert_eq!(validate_input("4294967295"), Ok(vec![4294967295]));
    invalid("4294967296");
    invalid("42949672950");
    invalid("99999999999999999999999999");
    invalid("1-4294967296");
    invalid("-4294967296");
    invalid("4294967296-");
    invalid("1,4294967296");
    assert_eq!(validate_input("00000000004294967295"), Ok(vec![4294967295]));
}

#[test]
fn plus_sign_may_lead_a_number() {
    assert_eq!(validate_input("+3"), Ok(vec![3]));
    assert_eq!(validate_input("+3-+5"), Ok(vec![3, 4, 5]));
    assert_eq!(validate_input("-+3"), Ok(vec![1, 2]));
    assert_eq!(validate_input("+3-"), Ok(vec![0, 3]));
    assert_eq!(validate_input("+1,+2"), Ok(vec![1, 2]));
    invalid("+");
    invalid("++3");
    invalid("3+");
    invalid("+-3");
}

#[test]
fn range_may_end_at_the_largest_number() {
    assert_eq!(
        validate_input("4294967293-4294967295"),
        Ok(vec![4294967293, 4294967294, 4294967295])
    );
    assert_eq!(validate_input("4294967295-4294967295"), Ok(vec![4294967295]));
}

#[test]
fn numbers_are_read_as_the_standard_library_reads_them() {
    let samples: [&str; 16] = [
        "0", "1", "42", "007", "+5", "+", "-5", "", " 1", "1 ", "4294967295", "4294967296", "12a",
        "a12", "++1", "1_000",
    ];
    for text in samples {
        let expected: Result<Vec<u32>, SelectorError> = match text.parse::<u32>() {
            Ok(n) => Ok(vec![n]),
            Err(_) => Err(SelectorError::InvalidFormat),
        };
        if !text.contains('-') {
            assert_eq!(validate_input(text), expected, "{:?}", text);
        }
    }
}

#[test]
fn parsing_twice_gives_the_same_result() {
    let samples: [&str; 9] = ["3", "2-4", "-3", "3-", "1,3,5", "5-2", "a,b", "x", ""];
    for text in samples {
        assert_eq!(validate_input(text), validate_input(text));
    }
}

#[test]
fn errors_describe_themselves() {
    assert_eq!(SelectorError::InvalidFormat.message(), "not number, range, or list");
    assert_eq!(SelectorError::DecreasingRange.message(), "invalid decreasing range");
}
