use fuzzkit::coverage::Coverage;
use fuzzkit::gcov::{find_byte, parse_decimal, parse_gcov, trim_bounds};

#[test]
fn report_yields_executed_lines() {
    let report = b"        -:    0:Source:cgi_decode.c\n        -:    1:#include <stdio.h>\n        1:    8:int main(int argc, char *argv[]) {\n       38:    9:    while (*s) {\n    #####:   12:        return 1;\n    =====:   13:        abort();\n        2:   14:    x = a ? b : c;\n";
    let coverage = parse_gcov(report).unwrap();
    assert!(coverage.same(&Coverage::from_slice(&[8, 9, 13, 14])));
}

#[test]
fn report_may_end_without_line_feed_and_use_carriage_returns() {
    let coverage = parse_gcov(b"1:5:a\r\n-:6:b\r\n7*:7:c").unwrap();
    assert!(coverage.same(&Coverage::from_slice(&[5, 7])));
    assert!(parse_gcov(b"").unwrap().is_empty());
    assert!(parse_gcov(b"3: 4 ").unwrap().same(&Coverage::from_slice(&[4])));
}

#[test]
fn malformed_lines_are_reported() {
    assert!(parse_gcov(b"no colon here\n").is_none());
    assert!(parse_gcov(b"1:x:code\n").is_none());
    assert!(parse_gcov(b"1::code\n").is_none());
    assert!(parse_gcov(b"1:2:ok\n\n").is_none());
    assert!(parse_gcov(b"-:notanumber:x\n").is_none());
    assert!(parse_gcov(b"1:99999999999999999999999999:x\n").is_none());
}

#[test]
fn helpers_find_trim_and_read_numbers() {
    let s = b"  ab : 42 ";
    assert_eq!(find_byte(s, 0, s.len(), b':'), 5);
    assert_eq!(find_byte(s, 6, s.len(), b':'), s.len());
    assert_eq!(trim_bounds(s, 0, 5), (2, 4));
    assert_eq!(trim_bounds(s, 6, s.len()), (7, 9));
    assert_eq!(trim_bounds(s, 0, 2), (2, 2));
    assert_eq!(parse_decimal(s, 7, 9), Some(42));
    assert_eq!(parse_decimal(s, 7, 7), None);
    assert_eq!(parse_decimal(s, 2, 4), None);
    assert_eq!(parse_decimal(b"007", 0, 3), Some(7));
}
