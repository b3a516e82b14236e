use metrology::parsing::{
    get_data_lines, get_raw_lines, numeral, record, token_end, DataLine, Literal, ParseError,
    Token,
};

fn decimal(text: &[u8]) -> u64 {
    std::str::from_utf8(text).unwrap().parse::<f64>().unwrap().to_bits()
}

fn read(text: &str) -> Result<Vec<[f64; 6]>, usize> {
    match get_data_lines(text.as_bytes(), decimal) {
        Ok(lines) => Ok(lines.iter().map(numbers).collect()),
        Err(e) => Err(e.offset),
    }
}

fn numbers(line: &DataLine) -> [f64; 6] {
    [
        f64::from_bits(line.time),
        f64::from_bits(line.area),
        f64::from_bits(line.speed),
        f64::from_bits(line.midline),
        f64::from_bits(line.x),
        f64::from_bits(line.y),
    ]
}

#[test]
fn one_record_on_one_line() {
    assert_eq!(
        read("0.5 120.25 1.5 33 -4.5 7e2\n"),
        Ok(vec![[0.5, 120.25, 1.5, 33.0, -4.5, 700.0]])
    );
}

#[test]
fn records_line_by_line() {
    assert_eq!(
        read("1 2 3 4 5 6\n7 8 9 10 11 12\n13 14 15 16 17 18\n"),
        Ok(vec![
            [1.0, 2.0, 3.0, 4.0, 5.0, 6.0],
            [7.0, 8.0, 9.0, 10.0, 11.0, 12.0],
            [13.0, 14.0, 15.0, 16.0, 17.0, 18.0],
        ])
    );
}

#[test]
fn last_record_without_a_line_end() {
    assert_eq!(
        read("1 2 3 4 5 6\n7 8 9 10 11 12"),
        Ok(vec![[1.0, 2.0, 3.0, 4.0, 5.0, 6.0], [7.0, 8.0, 9.0, 10.0, 11.0, 12.0]])
    );
}

#[test]
fn blanks_of_every_kind_between_fields() {
    assert_eq!(
        read("1\t2  3 \t 4\r\n5\n6\r\n"),
        Ok(vec![[1.0, 2.0, 3.0, 4.0, 5.0, 6.0]])
    );
}

#[test]
fn words_for_what_is_not_finite() {
    let lines = get_data_lines(b"NaN Infinity -Infinity 1 2 3\n", decimal).unwrap();
    assert_eq!(lines.len(), 1);
    assert_eq!(lines[0].time, f64::NAN.to_bits());
    assert_eq!(lines[0].area, f64::INFINITY.to_bits());
    assert_eq!(lines[0].speed, f64::NEG_INFINITY.to_bits());
    assert_eq!(f64::from_bits(lines[0].midline), 1.0);
}

#[test]
fn words_are_taken_letter_for_letter() {
    assert_eq!(read("nan 1 2 3 4 5\n"), Err(0));
    assert_eq!(read("1 infinity 2 3 4 5\n"), Err(2));
    assert_eq!(read("1 2 inf 3 4 5\n"), Err(4));
    assert_eq!(read("1 2 3 +Infinity 4 5\n"), Err(6));
    assert_eq!(read("1 2 3 4 NAN 5\n"), Err(8));
}

#[test]
fn decimal_literals_of_every_shape() {
    assert_eq!(
        read("+1 -2. .5 1e3 1.5E-2 -0.25e+1\n"),
        Ok(vec![[1.0, -2.0, 0.5, 1000.0, 0.015, -2.5]])
    );
}

#[test]
fn records_on_one_line() {
    assert_eq!(
        read("1 2 3 4 5 6 7 8 9 10 11 12\n"),
        Ok(vec![[1.0, 2.0, 3.0, 4.0, 5.0, 6.0], [7.0, 8.0, 9.0, 10.0, 11.0, 12.0]])
    );
    assert_eq!(
        read("1 2 3 4 5 6\t7 8 9 10 11 12  13 14 15 16 17 18"),
        Ok(vec![
            [1.0, 2.0, 3.0, 4.0, 5.0, 6.0],
            [7.0, 8.0, 9.0, 10.0, 11.0, 12.0],
            [13.0, 14.0, 15.0, 16.0, 17.0, 18.0],
        ])
    );
}

#[test]
fn records_across_lines() {
    assert_eq!(
        read("1 2 3\n4 5 6\n7 8\n9 10 11 12\n"),
        Ok(vec![[1.0, 2.0, 3.0, 4.0, 5.0, 6.0], [7.0, 8.0, 9.0, 10.0, 11.0, 12.0]])
    );
}

#[test]
fn what_follows_the_last_record_and_is_no_numeral_is_passed_over() {
    assert_eq!(
        read("1 2 3 4 5 6 and more\n"),
        Ok(vec![[1.0, 2.0, 3.0, 4.0, 5.0, 6.0]])
    );
    assert_eq!(
        read("1 2 3 4 5 6\nrest\n"),
        Ok(vec![[1.0, 2.0, 3.0, 4.0, 5.0, 6.0]])
    );
    assert_eq!(
        read("1 2 3 4 5 6\n7 8 9 10 11 12\n\n# end\n"),
        Ok(vec![[1.0, 2.0, 3.0, 4.0, 5.0, 6.0], [7.0, 8.0, 9.0, 10.0, 11.0, 12.0]])
    );
}

#[test]
fn blank_lines_at_the_end_do_no_harm() {
    assert_eq!(
        read("1 2 3 4 5 6\n\n\n"),
        Ok(vec![[1.0, 2.0, 3.0, 4.0, 5.0, 6.0]])
    );
    assert_eq!(
        read("1 2 3 4 5 6\n  \t\r\n "),
        Ok(vec![[1.0, 2.0, 3.0, 4.0, 5.0, 6.0]])
    );
}

#[test]
fn an_empty_file_is_rejected() {
    assert_eq!(read(""), Err(0));
    assert_eq!(read("\n"), Err(0));
    assert_eq!(read("   "), Err(0));
}

#[test]
fn a_record_that_breaks_off_is_rejected() {
    assert_eq!(read("1 2 3"), Err(5));
    assert_eq!(read("1 2 3 "), Err(6));
    assert_eq!(read("1 2 3 4 5 6\n7 8 9"), Err(17));
    assert_eq!(read("1 2 3 4 5 6\n7 8 9\n"), Err(18));
}

#[test]
fn a_malformed_record_is_rejected() {
    assert_eq!(read("1 2 x 4 5 6\n"), Err(4));
    assert_eq!(read("1 2 3 4 5 6\n7 8 x 10 11 12\n"), Err(16));
    assert_eq!(read("1 2 3 4 5 6x\n"), Err(11));
    assert_eq!(read("1 2 3abc 4 5 6\n"), Err(5));
    assert_eq!(read("rest\n1 2 3 4 5 6\n"), Err(0));
    assert_eq!(read(" 1 2 3 4 5 6\n"), Err(0));
    assert_eq!(read("1 2 3 4 5 6\n7 8 9 10 11 12x\n"), Err(26));
}

#[test]
fn blank_lines_between_records_part_them() {
    assert_eq!(
        read("1 2 3 4 5 6\n\n7 8 9 10 11 12\n"),
        Ok(vec![[1.0, 2.0, 3.0, 4.0, 5.0, 6.0], [7.0, 8.0, 9.0, 10.0, 11.0, 12.0]])
    );
    assert_eq!(
        read("1 2 3 4 5 6 \r\n \t\r\n\n  7 8 9 10 11 12"),
        Ok(vec![[1.0, 2.0, 3.0, 4.0, 5.0, 6.0], [7.0, 8.0, 9.0, 10.0, 11.0, 12.0]])
    );
}

#[test]
fn a_later_record_that_breaks_off_rejects_the_file() {
    assert_eq!(read("1 2 3 4 5 6\n\n7 8 9 10 11\n"), Err(25));
    assert_eq!(read("1 2 3 4 5 6 7\n"), Err(14));
    assert_eq!(read("1 2 3 4 5 6 7"), Err(13));
}

#[test]
fn an_exponent_without_digits_is_no_exponent() {
    assert_eq!(read("1e 2 3 4 5 6\n"), Err(1));
    assert_eq!(read("1e+ 2 3 4 5 6\n"), Err(1));
}

#[test]
fn a_point_alone_is_no_numeral() {
    assert_eq!(read(". 2 3 4 5 6\n"), Err(0));
    assert_eq!(read("- 2 3 4 5 6\n"), Err(0));
}

#[test]
fn raw_lines_say_where_the_numerals_stand() {
    let text = b"10 NaN 2.5 -Infinity Infinity 6e1\n";
    let lines = get_raw_lines(text).unwrap();
    assert_eq!(lines.len(), 1);
    let l = lines[0];
    assert_eq!(l.time, Token { kind: Literal::Decimal, start: 0, end: 2 });
    assert_eq!(l.area, Token { kind: Literal::NotANumber, start: 3, end: 6 });
    assert_eq!(l.speed, Token { kind: Literal::Decimal, start: 7, end: 10 });
    assert_eq!(l.midline, Token { kind: Literal::NegInfinite, start: 11, end: 20 });
    assert_eq!(l.x, Token { kind: Literal::Infinite, start: 21, end: 29 });
    assert_eq!(l.y, Token { kind: Literal::Decimal, start: 30, end: 33 });
    assert_eq!(&text[l.y.start..l.y.end], b"6e1");
}

#[test]
fn raw_lines_report_where_matching_failed() {
    assert_eq!(get_raw_lines(b"1 2 3 4 5\n").unwrap_err(), ParseError { offset: 10 });
    assert_eq!(get_raw_lines(b"1 2 3 4 five 6\n").unwrap_err(), ParseError { offset: 8 });
}

#[test]
fn numerals_one_by_one() {
    assert_eq!(
        numeral(b"12.5e3 ", 0),
        Some(Token { kind: Literal::Decimal, start: 0, end: 6 })
    );
    assert_eq!(numeral(b"x 12", 2), Some(Token { kind: Literal::Decimal, start: 2, end: 4 }));
    assert_eq!(numeral(b"NaN", 0), Some(Token { kind: Literal::NotANumber, start: 0, end: 3 }));
    assert_eq!(numeral(b"Na", 0), None);
    assert_eq!(numeral(b"-Infinit", 0), None);
    assert_eq!(numeral(b"", 0), None);
    assert_eq!(numeral(b"1", 1), None);
}

#[test]
fn word_values() {
    let t = |kind| Token { kind, start: 0, end: 1 };
    assert_eq!(t(Literal::Decimal).word_value(), None);
    assert_eq!(t(Literal::NotANumber).word_value(), Some(f64::NAN.to_bits()));
    assert_eq!(t(Literal::Infinite).word_value(), Some(f64::INFINITY.to_bits()));
    assert_eq!(t(Literal::NegInfinite).word_value(), Some(f64::NEG_INFINITY.to_bits()));
}

#[test]
fn what_ends_a_record() {
    assert_eq!(token_end(b"6", 1), Some(1));
    assert_eq!(token_end(b"6\n7", 1), Some(2));
    assert_eq!(token_end(b"6 \t\r\n7", 1), Some(5));
    assert_eq!(token_end(b"6 more\n7", 1), Some(2));
    assert_eq!(token_end(b"6 more", 1), Some(2));
    assert_eq!(token_end(b"6x", 1), None);
    assert_eq!(token_end(b" 7 8 9 10 11 12\n", 0), Some(1));
    assert_eq!(token_end(b"6 \t 7", 1), Some(4));
    assert_eq!(token_end(b"6\n\n7", 1), Some(2));
    assert_eq!(token_end(b"6 \n \n7", 1), Some(3));
    assert_eq!(token_end(b"6   ", 1), Some(4));
}

#[test]
fn decimal_literals_are_asked_of_the_caller() {
    let lines = get_data_lines(b"1 2 3 NaN 5 6\n", |text: &[u8]| text.len() as u64).unwrap();
    assert_eq!(lines[0].time, 1);
    assert_eq!(lines[0].midline, f64::NAN.to_bits());
}

#[test]
fn places_beyond_the_input_hold_nothing() {
    assert_eq!(numeral(b"12", 3), None);
    assert_eq!(token_end(b"12", 2), Some(2));
    assert_eq!(token_end(b"12", 5), Some(5));
    assert_eq!(record(b"1 2 3 4 5 6", 12).unwrap_err(), ParseError { offset: 12 });
}

#[test]
fn records_one_by_one() {
    let text = b"1 2 3 4 5 6\n7 8 9 10 11 12";
    let (first, next) = record(text, 0).unwrap();
    assert_eq!(next, 12);
    assert_eq!(first.y, Token { kind: Literal::Decimal, start: 10, end: 11 });
    let (second, end) = record(text, next).unwrap();
    assert_eq!(end, 26);
    assert_eq!(second.time, Token { kind: Literal::Decimal, start: 12, end: 13 });
    assert_eq!(record(text, end).unwrap_err(), ParseError { offset: 26 });
}

#[test]
fn blanks_behind_an_accepted_file_change_nothing() {
    let files = ["1 2 3 4 5 6", "1 2 3 4 5 6\n", "1 2 3 4 5 6 rest", "1 2 3 4 5 6\n7 8 9 10 11 NaN"];
    let tails = ["", " ", "\n", "\r\n", "\n\n\n", " \t\n \r\n  "];
    for file in files {
        let plain = get_raw_lines(file.as_bytes()).unwrap();
        for tail in tails {
            let longer = format!("{}{}", file, tail);
            assert_eq!(get_raw_lines(longer.as_bytes()).unwrap(), plain, "{:?}", longer);
        }
    }
}
