use std::io::BufRead;
use task_manager::text::{is_whitespace, lines, split, trim};

#[test]
fn whitespace_is_what_unicode_calls_white_space() {
    let mut count = 0;
    for code in 0u32..=0x10ffff {
        if let Some(c) = char::from_u32(code) {
            assert_eq!(is_whitespace(c), c.is_whitespace(), "code {:x}", code);
            if is_whitespace(c) {
                count += 1;
            }
        }
    }
    assert_eq!(count, 25);
}

#[test]
fn whitespace_knows_the_usual_characters() {
    assert!(is_whitespace(' '));
    assert!(is_whitespace('\t'));
    assert!(is_whitespace('\n'));
    assert!(is_whitespace('\r'));
    assert!(is_whitespace('\u{a0}'));
    assert!(is_whitespace('\u{3000}'));
    assert!(!is_whitespace('a'));
    assert!(!is_whitespace('0'));
    assert!(!is_whitespace(','));
    assert!(!is_whitespace('\u{200b}'));
    assert!(!is_whitespace('\u{8}'));
    assert!(!is_whitespace('\u{e}'));
}

#[test]
fn trim_takes_white_space_from_both_ends() {
    assert_eq!(trim("  12  "), "12");
    assert_eq!(trim("12\n"), "12");
    assert_eq!(trim("\t a b \r\n"), "a b");
    assert_eq!(trim("a"), "a");
    assert_eq!(trim(" a"), "a");
    assert_eq!(trim("a "), "a");
}

#[test]
fn trim_of_nothing_but_white_space_is_empty() {
    assert_eq!(trim(""), "");
    assert_eq!(trim(" "), "");
    assert_eq!(trim(" \t\r\n\u{3000}"), "");
}

#[test]
fn trim_keeps_white_space_inside() {
    assert_eq!(trim("  Buy  milk \n"), "Buy  milk");
    assert_eq!(trim("x \u{a0} y"), "x \u{a0} y");
}

#[test]
fn trim_counts_characters_not_bytes() {
    assert_eq!(trim("\u{3000}\u{e9}t\u{e9}\u{2003}"), "\u{e9}t\u{e9}");
    assert_eq!(trim(" \u{1f600} "), "\u{1f600}");
}

#[test]
fn trim_agrees_with_the_standard_library() {
    let inputs = [
        "", " ", "a", " a", "a ", "  a  b  ", "\n\n", "\u{85}x\u{85}", "\u{2028}mid\u{2029}",
        "\u{200b} zero width \u{200b}", "\u{feff}bom", " \u{1680}ogham\u{1680} ", "tab\t",
        "\u{b}\u{c}form\u{c}\u{b}", "  \u{4e2d}\u{6587}  ", "-12 ", " +7",
    ];
    for input in inputs {
        assert_eq!(trim(input), input.trim(), "input {:?}", input);
    }
}

#[test]
fn split_cuts_at_every_separator() {
    assert_eq!(split("1,Buy milk,2%,false", ','), vec!["1", "Buy milk", "2%", "false"]);
    assert_eq!(split("a,b", ','), vec!["a", "b"]);
}

#[test]
fn split_without_separator_gives_one_piece() {
    assert_eq!(split("abc", ','), vec!["abc"]);
    assert_eq!(split("", ','), vec![""]);
}

#[test]
fn split_keeps_empty_pieces() {
    assert_eq!(split(",", ','), vec!["", ""]);
    assert_eq!(split(",,", ','), vec!["", "", ""]);
    assert_eq!(split("a,,b", ','), vec!["a", "", "b"]);
    assert_eq!(split(",a", ','), vec!["", "a"]);
    assert_eq!(split("a,", ','), vec!["a", ""]);
    assert_eq!(split("2,Pay bills,,false", ','), vec!["2", "Pay bills", "", "false"]);
}

#[test]
fn split_agrees_with_the_standard_library() {
    let inputs = [
        "", ",", ",,", "a", "a,b,c", ",a,", "1,x,y,true", "1,x,y,z,true", "\u{e9},\u{e8}",
        "a;b,c;d", "no commas here", ",,,,,,",
    ];
    for input in inputs {
        let expected: Vec<String> = input.split(',').map(String::from).collect();
        assert_eq!(split(input, ','), expected, "input {:?}", input);
        let expected: Vec<String> = input.split(';').map(String::from).collect();
        assert_eq!(split(input, ';'), expected, "input {:?}", input);
    }
}

#[test]
fn split_and_join_undo_each_other() {
    let inputs = ["", ",", "a,b", "1,Title,Text,false", ",,x,,"];
    for input in inputs {
        assert_eq!(split(input, ',').join(","), input);
    }
}

#[test]
fn lines_end_at_line_feeds() {
    assert_eq!(lines("a\nb\n"), vec!["a", "b"]);
    assert_eq!(lines("a\nb"), vec!["a", "b"]);
    assert_eq!(lines("one line"), vec!["one line"]);
}

#[test]
fn lines_of_an_empty_text_are_none() {
    assert_eq!(lines(""), Vec::<String>::new());
}

#[test]
fn lines_keep_empty_lines_that_are_ended() {
    assert_eq!(lines("\n"), vec![""]);
    assert_eq!(lines("\n\n"), vec!["", ""]);
    assert_eq!(lines("a\n\nb\n"), vec!["a", "", "b"]);
}

#[test]
fn lines_drop_one_carriage_return_before_a_line_feed() {
    assert_eq!(lines("a\r\nb\r\n"), vec!["a", "b"]);
    assert_eq!(lines("a\r\r\nb"), vec!["a\r", "b"]);
    assert_eq!(lines("\r\n"), vec![""]);
    assert_eq!(lines("a\rb\n"), vec!["a\rb"]);
}

#[test]
fn lines_keep_a_carriage_return_at_the_very_end() {
    assert_eq!(lines("a\r"), vec!["a\r"]);
    assert_eq!(lines("a\nb\r"), vec!["a", "b\r"]);
    assert_eq!(lines("\r"), vec!["\r"]);
}

#[test]
fn lines_agree_with_the_standard_library() {
    let inputs = [
        "", "\n", "\r", "\r\n", "\n\r", "a", "a\n", "a\r\n", "a\r", "a\n\n", "a\r\n\r\n",
        "\r\r\n", "\r\r", "a\rb", "a\r\rb\n", "1,x,y,true\n2,z,,false\n", "x\n\ny", "\n\nx",
        "x\r\n\ny\r", "\u{e9}\r\n\u{4e2d}\n",
    ];
    for input in inputs {
        let expected: Vec<String> = input.as_bytes().lines().map(|l| l.unwrap()).collect();
        assert_eq!(lines(input), expected, "input {:?}", input);
    }
}
