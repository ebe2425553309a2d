use scansector::location::{is_float_chars, is_number_chars, parse_vector};
use scansector::model::Position;

fn chars(s: &str) -> Vec<char> {
    s.chars().collect()
}

fn number(s: &str) -> f64 {
    s.parse::<f64>().unwrap()
}

fn position(x: &str, y: &str) -> Position {
    Position { x: x.to_string(), y: y.to_string() }
}

#[test]
fn location_with_two_numbers() {
    let pos = parse_vector("123.5|-67.0").unwrap();
    assert_eq!(pos, position("123.5", "-67.0"));
    assert_eq!(number(&pos.x), 123.5);
    assert_eq!(number(&pos.y), -67.0);
}

#[test]
fn location_without_second_field() {
    assert_eq!(parse_vector("123.5"), None);
}

#[test]
fn location_that_is_not_numeric() {
    assert_eq!(parse_vector("abc|def"), None);
    assert_eq!(parse_vector("1|def"), None);
    assert_eq!(parse_vector("abc|2"), None);
}

#[test]
fn location_of_empty_text() {
    assert_eq!(parse_vector(""), None);
    assert_eq!(parse_vector("|"), None);
    assert_eq!(parse_vector("1|"), None);
    assert_eq!(parse_vector("|1"), None);
}

#[test]
fn location_ignores_fields_after_the_second() {
    assert_eq!(parse_vector("1|2|3"), Some(position("1", "2")));
    assert_eq!(parse_vector("1|2|"), Some(position("1", "2")));
    assert_eq!(parse_vector("1|2|x"), Some(position("1", "2")));
}

#[test]
fn location_is_not_trimmed() {
    assert_eq!(parse_vector(" 1|2"), None);
    assert_eq!(parse_vector("1 |2"), None);
    assert_eq!(parse_vector("1| 2"), None);
    assert_eq!(parse_vector("1|2 "), None);
    assert_eq!(parse_vector("1|2\n"), None);
}

#[test]
fn location_of_whole_numbers() {
    let pos = parse_vector("500|-500").unwrap();
    assert_eq!(number(&pos.x), 500.0);
    assert_eq!(number(&pos.y), -500.0);
    let origin = parse_vector("0|0").unwrap();
    assert_eq!(number(&origin.x), 0.0);
    assert_eq!(number(&origin.y), 0.0);
}

#[test]
fn location_with_exponents_and_words() {
    let pos = parse_vector("1.5e3|-2E-2").unwrap();
    assert_eq!(number(&pos.x), 1500.0);
    assert_eq!(number(&pos.y), -0.02);
    let far = parse_vector("inf|-Infinity").unwrap();
    assert_eq!(number(&far.x), f64::INFINITY);
    assert_eq!(number(&far.y), f64::NEG_INFINITY);
    let none = parse_vector("NaN|+nan").unwrap();
    assert!(number(&none.x).is_nan());
    assert!(number(&none.y).is_nan());
}

#[test]
fn location_with_other_scripts() {
    assert_eq!(parse_vector("\u{ff11}|2"), None);
    assert_eq!(parse_vector("\u{661}|2"), None);
    assert_eq!(parse_vector("1\u{ff5c}2"), None);
    assert_eq!(parse_vector("\u{130}nf|2"), None);
}

#[test]
fn numbers_of_the_grammar() {
    for text in ["0", "7", "007", "3.14", "5.", ".5", "2.5E10", "2.5e10", "2.5E-10", "1e+5", "5.e3", ".5e3"] {
        assert!(is_number_chars(&chars(text)), "{}", text);
        assert!(is_float_chars(&chars(text)), "{}", text);
    }
}

#[test]
fn texts_outside_the_grammar() {
    for text in ["", ".", "e", "e5", ".e5", "1e", "1e+", "1e-", "1.2.3", "1e5e5", "1e5.5", "1_000", "0x10", "1,5", "--1"] {
        assert!(!is_number_chars(&chars(text)), "{}", text);
        assert!(!is_float_chars(&chars(text)), "{}", text);
    }
}

#[test]
fn a_number_has_no_sign_of_its_own() {
    assert!(!is_number_chars(&chars("-1")));
    assert!(!is_number_chars(&chars("+1")));
    assert!(is_float_chars(&chars("-1")));
    assert!(is_float_chars(&chars("+1")));
    assert!(!is_float_chars(&chars("+")));
    assert!(!is_float_chars(&chars("-")));
    assert!(!is_float_chars(&chars("+-1")));
}

#[test]
fn words_in_either_case() {
    for text in ["inf", "INF", "iNf", "infinity", "Infinity", "INFINITY", "nan", "NaN", "NAN", "+inf", "-inf", "+nan", "-nan", "-infinity"] {
        assert!(is_float_chars(&chars(text)), "{}", text);
        assert!(!is_number_chars(&chars(text)), "{}", text);
    }
    for text in ["in", "infi", "infinit", "infinityy", "na", "nana", "nan1", "1nan", "i", "\u{131}nf", "\u{130}nf", "inf "] {
        assert!(!is_float_chars(&chars(text)), "{}", text);
    }
}

#[test]
fn the_grammar_is_that_of_the_standard_parser_on_chosen_texts() {
    let texts = [
        "0", "1", "-1", "+1", "1.5", "-67.0", "123.5", ".5", "5.", "1e10", "1E10", "1e+10",
        "1e-10", "1.5e3", ".5e3", "5.e3", "inf", "-inf", "+inf", "INF", "Infinity", "infinity",
        "-INFINITY", "nan", "NaN", "+nan", "-nan", "", "+", "-", ".", "e", "e5", "1e", "1e+",
        "1e-", ".e5", "abc", "def", " 1", "1 ", "1 .5", "1..5", "1.5.5", "1e5e5", "1e5.5", "++1",
        "+-1", "0x10", "1_000", "infinit", "infinityy", "in", "na", "nan1", "\u{ff11}", "1,5",
        "\u{661}", "1e999999999999999999999", "000", "007", "-.5", "-.", "+.e1", "1E", "iNf",
        "nAn", "1e-999999999999999999999", "123456789012345678901234567890", "0.0000000000001",
        "1\u{0}", "\u{0}", "1\t", "\t1", "1\n", "Inf1", "1inf", "-+inf", "infinity.", "NaN(1)",
        "1f", "1d", "1.0f64", "1e1_0", "1.e", "1.e+", ".0", "0.", "00.00", "-0", "+0.0e-0",
    ];
    for text in texts {
        assert_eq!(is_float_chars(&chars(text)), text.parse::<f64>().is_ok(), "{:?}", text);
    }
}

#[test]
fn the_grammar_is_that_of_the_standard_parser_on_all_short_texts() {
    let letters = ['0', '7', '.', 'e', 'E', '+', '-', 'n', 'a', 'i', 'f', 'N', ' '];
    let mut texts: Vec<String> = vec![String::new()];
    let mut from = 0;
    for _ in 0..4 {
        let to = texts.len();
        for k in from..to {
            for c in letters {
                let mut longer = texts[k].clone();
                longer.push(c);
                texts.push(longer);
            }
        }
        from = to;
    }
    assert_eq!(texts.len(), 1 + 13 + 169 + 2197 + 28561);
    for text in texts {
        assert_eq!(is_float_chars(&chars(&text)), text.parse::<f64>().is_ok(), "{:?}", text);
    }
}

#[test]
fn every_field_of_a_location_is_read_by_the_standard_parser() {
    for text in ["1|2", "-.5|5.", "1e5|NaN", "+inf|-0", "007|1E-3"] {
        let pos = parse_vector(text).unwrap();
        assert!(pos.x.parse::<f64>().is_ok());
        assert!(pos.y.parse::<f64>().is_ok());
        assert_eq!(format!("{}|{}", pos.x, pos.y), text);
    }
}
