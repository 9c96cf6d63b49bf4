use planner::parse_time;
use planner::text::{char_is_digit, char_is_space, chars_of, find, parse_number, text_of, trim};
use planner::time::time_key;
use planner::AppError;

fn written(input: &str) -> String {
    match parse_time(input) {
        Ok(time) => time,
        Err(error) => panic!("{:?} was refused: {}", input, error.to_string()),
    }
}

fn refused(input: &str) {
    match parse_time(input) {
        Ok(time) => panic!("{:?} was read as {:?}", input, time),
        Err(AppError::Msg(words)) => assert_eq!(words, "Invalid time."),
        Err(AppError::Exit) => panic!("{:?} ended the dialog", input),
    }
}

#[test]
fn minute_is_padded_to_two_digits() {
    assert_eq!(written("9:5"), "9:05");
    assert_eq!(written("0:0"), "0:00");
    assert_eq!(written("14:3"), "14:03");
}

#[test]
fn hour_loses_its_leading_zero() {
    assert_eq!(written("09:00"), "9:00");
    assert_eq!(written("00:07"), "0:07");
    assert_eq!(written("007:5"), "7:05");
    assert_eq!(written("0000000000000000000000012:0000000000000000000030"), "12:30");
}

#[test]
fn every_time_of_day_is_written_in_one_way() {
    for hour in 0..24u32 {
        for minute in 0..60u32 {
            let expected = format!("{}:{:02}", hour, minute);
            assert_eq!(written(&format!("{}:{:02}", hour, minute)), expected);
            assert_eq!(written(&format!("{:02}:{:02}", hour, minute)), expected);
            assert_eq!(written(&format!("{}:{}", hour, minute)), expected);
            assert_eq!(written(&expected), expected);
        }
    }
}

#[test]
fn the_ends_of_the_day_are_accepted() {
    assert_eq!(written("0:00"), "0:00");
    assert_eq!(written("23:59"), "23:59");
    assert_eq!(written("14:30"), "14:30");
    assert_eq!(written("10:00"), "10:00");
}

#[test]
fn hour_out_of_range_is_refused() {
    refused("24:00");
    refused("25:00");
    refused("99:59");
    refused("127:00");
    refused("128:00");
    refused("99999999999999999999999999:00");
}

#[test]
fn minute_out_of_range_is_refused() {
    refused("12:60");
    refused("0:99");
    refused("23:128");
    refused("1:99999999999999999999999999");
}

#[test]
fn text_without_a_colon_is_refused() {
    refused("");
    refused("930");
    refused("half past nine");
    refused("9.30");
}

#[test]
fn a_missing_hour_or_minute_is_refused() {
    refused(":");
    refused(":30");
    refused("9:");
    refused("a:b");
}

#[test]
fn a_second_colon_is_refused() {
    refused("1:2:3");
    refused("9::30");
    refused("9:30:");
}

#[test]
fn everything_but_digits_and_colons_is_passed_over() {
    assert_eq!(written(" 9:30\n"), "9:30");
    assert_eq!(written("at 7 : 3 0 pm"), "7:30");
    assert_eq!(written("-9:30"), "9:30");
    assert_eq!(written("1a2:b3c4"), "12:34");
    assert_eq!(written("в 8:15"), "8:15");
    refused("1 2 3 : 0 0");
}

#[test]
fn digits_of_other_scripts_do_not_count() {
    refused("٩:٣٠");
    assert_eq!(written("٩9:٣30"), "9:30");
}

#[test]
fn order_number_joins_the_digits() {
    assert_eq!(time_key("9:30"), Some(930));
    assert_eq!(time_key("14:05"), Some(1405));
    assert_eq!(time_key("0:00"), Some(0));
    assert_eq!(time_key("23:59"), Some(2359));
    assert_eq!(time_key("9:05"), Some(905));
}

#[test]
fn order_number_of_other_texts() {
    assert_eq!(time_key("1:99"), Some(199));
    assert_eq!(time_key("1:2:3"), Some(123));
    assert_eq!(time_key("-5:30"), Some(-530));
    assert_eq!(time_key("+5:30"), Some(530));
    assert_eq!(time_key("0005"), Some(5));
    assert_eq!(time_key("21474:83647"), Some(2147483647));
    assert_eq!(time_key("-21474:83648"), Some(-2147483648));
    assert_eq!(time_key("21474:83648"), None);
    assert_eq!(time_key("-21474:83649"), None);
    assert_eq!(time_key(""), None);
    assert_eq!(time_key(":"), None);
    assert_eq!(time_key("-"), None);
    assert_eq!(time_key("+"), None);
    assert_eq!(time_key("9:30am"), None);
    assert_eq!(time_key(" 9:30"), None);
    assert_eq!(time_key("5-"), None);
}

#[test]
fn order_number_is_what_the_standard_parser_reads() {
    for text in ["9:30", "-1:0", "+0:0", "abc", "", "::", "12:345:6", "99999:99999", "1 : 2"] {
        let expected: Option<i32> = text.replace(':', "").parse().ok();
        assert_eq!(time_key(text), expected, "{:?}", text);
    }
}

#[test]
fn white_space_is_what_the_standard_library_calls_so() {
    for code in 0..0x11_0000u32 {
        if let Some(c) = char::from_u32(code) {
            assert_eq!(char_is_space(c), c.is_whitespace(), "U+{:04X}", code);
            assert_eq!(char_is_digit(c), c.is_ascii_digit(), "U+{:04X}", code);
        }
    }
}

#[test]
fn trim_is_the_trim_of_the_standard_library() {
    for text in [
        "",
        " ",
        "\n",
        "a",
        " a",
        "a ",
        "  a b  ",
        "\t\r\n x \u{a0}\u{3000}",
        "\u{2003}Купить молоко\u{2028}",
        " \u{200b} ",
    ] {
        let chars = chars_of(text);
        assert_eq!(text_of(trim(&chars)), text.trim(), "{:?}", text);
    }
}

#[test]
fn characters_go_to_a_string_and_back() {
    let chars = chars_of("Время: 9:05");
    assert_eq!(chars.len(), 11);
    assert_eq!(chars[0], 'В');
    assert_eq!(text_of(&chars), "Время: 9:05");
    assert_eq!(text_of(&chars[7..]), "9:05");
    assert_eq!(text_of(&[]), "");
}

#[test]
fn find_gives_the_first_place() {
    let chars = chars_of("a:b:c");
    assert_eq!(find(&chars, ':'), 1);
    assert_eq!(find(&chars, 'c'), 4);
    assert_eq!(find(&chars, 'x'), 5);
    assert_eq!(find(&[], 'x'), 0);
}

#[test]
fn numbers_are_read_up_to_their_limit() {
    assert_eq!(parse_number(&chars_of("23"), 23), Some(23));
    assert_eq!(parse_number(&chars_of("24"), 23), None);
    assert_eq!(parse_number(&chars_of("0"), 0), Some(0));
    assert_eq!(parse_number(&chars_of("0000"), 0), Some(0));
    assert_eq!(parse_number(&chars_of(""), 59), None);
    assert_eq!(parse_number(&chars_of("5x"), 59), None);
    assert_eq!(parse_number(&chars_of("x5"), 59), None);
    assert_eq!(parse_number(&chars_of("+5"), 59), None);
    assert_eq!(parse_number(&chars_of("1000000000000"), 1_000_000_000_000), Some(1_000_000_000_000));
    assert_eq!(parse_number(&chars_of("1000000000001"), 1_000_000_000_000), None);
}
