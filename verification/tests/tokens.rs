use lammps_util::text::{
    char_is_space, count_words, format_u64, parse_u64, read_u64, split_whitespace, starts_with,
};
use lammps_util::{Parser, RunDir};

#[test]
fn words_are_runs_without_white_space() {
    assert_eq!(split_whitespace("  a bc\t\td \n"), vec!["a", "bc", "d"]);
    assert_eq!(split_whitespace(""), Vec::<String>::new());
    assert_eq!(split_whitespace(" \u{a0}\u{3000} "), Vec::<String>::new());
    assert_eq!(split_whitespace("x\u{2003}y\u{85}z"), vec!["x", "y", "z"]);
    assert_eq!(split_whitespace("één twee"), vec!["één", "twee"]);
    let sample = " id  x\ty z \u{1680}q";
    let expected: Vec<&str> = sample.split_whitespace().collect();
    assert_eq!(split_whitespace(sample), expected);
}

#[test]
fn white_space_is_what_the_standard_library_calls_so() {
    for code in 0u32..0x3100 {
        if let Some(c) = char::from_u32(code) {
            assert_eq!(char_is_space(c), c.is_whitespace());
        }
    }
}

#[test]
fn numbers_read_as_the_standard_library_reads_them() {
    for text in [
        "0", "7", "0042", "+5", "+", "", "-1", "1 ", " 1", "1.0", "12a", "18446744073709551615",
        "18446744073709551616", "99999999999999999999999", "++1", "1+", "٣",
    ] {
        assert_eq!(parse_u64(text), text.parse::<u64>().ok());
    }
    assert_eq!(parse_u64("18446744073709551615"), Some(u64::MAX));
    assert_eq!(parse_u64("+0012"), Some(12));
}

#[test]
fn numbers_are_written_in_base_ten() {
    assert_eq!(format_u64(0), "0");
    assert_eq!(format_u64(9), "9");
    assert_eq!(format_u64(10), "10");
    assert_eq!(format_u64(1234567890), "1234567890");
    assert_eq!(format_u64(u64::MAX), "18446744073709551615");
    for n in [0u64, 1, 99, 100, 4096, u64::MAX] {
        assert_eq!(parse_u64(&format_u64(n)), Some(n));
    }
}

#[test]
fn prefix_test() {
    assert!(starts_with("ITEM: ATOMS id", "ITEM: ATOMS"));
    assert!(starts_with("abc", ""));
    assert!(!starts_with("ab", "abc"));
    assert!(!starts_with("abd", "abc"));
}

fn texts(lines: &[&str]) -> Vec<Result<String, String>> {
    lines.iter().map(|l| Ok(l.to_string())).collect()
}

#[test]
fn tokens_carry_line_numbers_from_one() {
    let mut parser = Parser::new(texts(&["1 2", "", "  x  ", "30"]));
    let t = parser.next().unwrap().unwrap();
    assert_eq!((t.value(), t.line_number()), ("1", 1));
    assert_eq!(parser.next_u64().unwrap().ok(), Some(2));
    let e = parser.next_u64().unwrap().err().unwrap();
    assert_eq!((e.source(), e.line_number()), ("invalid digit found in string", 3));
    {
        let mut rest = parser.into_iter();
        let t = rest.next().unwrap().unwrap();
        assert_eq!((t.value(), t.line_number()), ("30", 4));
        assert!(rest.next().is_none());
        assert!(rest.next().is_none());
    }
    assert!(parser.next().is_none());
}

#[test]
fn iterator_takes_from_the_parser_and_leaves_the_rest() {
    let mut parser = Parser::new(texts(&["1 2 3"]));
    {
        let mut first_two = parser.into_iter();
        assert_eq!(first_two.next_u64().unwrap().ok(), Some(1));
        assert_eq!(first_two.next_u64().unwrap().ok(), Some(2));
    }
    assert_eq!(parser.next_u64().unwrap().ok(), Some(3));
    assert!(parser.next_u64().is_none());
    let mut untouched = Parser::new(texts(&["a", "b"]));
    {
        let _nothing_taken = untouched.into_iter();
    }
    let t = untouched.next().unwrap().unwrap();
    assert_eq!((t.value(), t.line_number()), ("a", 1));
}

#[test]
fn errors_say_what_the_standard_library_says() {
    for text in ["", "+", "-", "-1", "12a", "a", "18446744073709551616", "99999999999999999999a",
        "184467440737095516150", "1844674407370955161x", "+x", " 1", "٣"] {
        let said = read_u64(text).err().map(|e| e.describe());
        assert_eq!(said, text.parse::<u64>().err().map(|e| e.to_string()));
        assert!(said.is_some());
    }
    assert_eq!(read_u64("+18446744073709551615").ok(), Some(u64::MAX));
}

#[test]
fn words_are_counted_as_they_are_split() {
    for text in ["", " ", "a", " a  bc\td ", "x\u{2003}y\u{85}z", "één twee", "1 2 3 "] {
        assert_eq!(count_words(text), text.split_whitespace().count());
    }
}

#[test]
fn parser_without_lines_has_no_tokens() {
    let mut parser = Parser::new(vec![]);
    assert!(parser.next().is_none());
    assert!(parser.next_u64().is_none());
}

#[test]
fn line_that_could_not_be_had_gives_one_error() {
    let mut parser = Parser::new(vec![
        Ok("4 5".to_string()),
        Err("broken pipe".to_string()),
        Ok("6".to_string()),
    ]);
    assert_eq!(parser.next_u64().unwrap().ok(), Some(4));
    assert_eq!(parser.next_u64().unwrap().ok(), Some(5));
    let e = parser.next().unwrap().err().unwrap();
    assert_eq!((e.source(), e.line_number()), ("broken pipe", 2));
    assert_eq!(e.describe(), "line 2: broken pipe");
    {
        let mut rest = parser.into_iter();
        assert_eq!(rest.next_u64().unwrap().ok(), Some(6));
        assert!(rest.next_u64().is_none());
    }
    assert!(parser.next().is_none());
    let mut again = Parser::new(vec![Err("gone".to_string())]);
    let e = again.next_u64().unwrap().err().unwrap();
    assert_eq!((e.source(), e.line_number()), ("gone", 1));
    assert!(again.next().is_none());
}

#[test]
fn run_number_follows_the_prefix() {
    assert_eq!(RunDir::run_number("run_12"), Some(12));
    assert_eq!(RunDir::run_number("run_0"), Some(0));
    assert_eq!(RunDir::run_number("run_"), None);
    assert_eq!(RunDir::run_number("run_1a"), None);
    assert_eq!(RunDir::run_number("run12"), None);
    assert_eq!(RunDir::run_number("xrun_1"), None);
    let dir = RunDir::new("results/run_3".to_string(), 3);
    assert_eq!(dir.num, 3);
    assert_eq!(dir.path, "results/run_3");
}

#[test]
fn errors_describe_themselves() {
    let mut parser = Parser::new(texts(&["7", "seven 8"]));
    assert_eq!(parser.next_u64().unwrap().ok(), Some(7));
    let e = parser.next_u64().unwrap().err().unwrap();
    assert_eq!(e.describe(), "line 2: invalid digit found in string");
    assert_eq!(
        lammps_util::DumpParsingError::DuplicateSnapshots.describe(),
        "DuplicateSnapshots"
    );
    assert_eq!(
        lammps_util::DumpParsingError::InvalidOrMissingNumberOfAtoms.describe(),
        "InvalidOrMissingNumberOfAtoms"
    );
}
