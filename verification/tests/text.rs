use roadnet::text::{chars_of, is_whitespace, split_fields, split_pairs, split_words, string_of};

fn pair(left: &str, right: &str) -> (String, String) {
    (left.to_string(), right.to_string())
}

#[test]
fn white_space_matches_the_standard_library() {
    for code in 0..0x11000u32 {
        if let Some(c) = char::from_u32(code) {
            assert_eq!(is_whitespace(c), c.is_whitespace(), "U+{:04X}", code);
        }
    }
}

#[test]
fn characters_round_trip() {
    let text = "a\u{e9}\u{4e2d}\u{1f600} z";
    let chars = chars_of(text);
    assert_eq!(chars, text.chars().collect::<Vec<char>>());
    assert_eq!(string_of(&chars), text);
}

#[test]
fn words_are_split_at_any_white_space() {
    assert_eq!(split_words("  a\tbc\n\u{a0}d\u{3000}"), vec!["a", "bc", "d"]);
    assert_eq!(split_words(""), Vec::<String>::new());
    assert_eq!(split_words(" \n "), Vec::<String>::new());
    assert_eq!(split_words("one"), vec!["one"]);
}

#[test]
fn words_match_the_standard_library() {
    for text in ["1,2 3,4", " lead", "trail ", "a  b", "\u{2003}x\u{2003}\u{2003}y", "x\r\ny"] {
        let expected: Vec<String> = text.split_whitespace().map(String::from).collect();
        assert_eq!(split_words(text), expected);
    }
}

#[test]
fn fields_are_split_at_every_comma() {
    assert_eq!(split_fields("0,0,100,50"), vec!["0", "0", "100", "50"]);
    assert_eq!(split_fields(""), vec![""]);
    assert_eq!(split_fields(","), vec!["", ""]);
    assert_eq!(split_fields("a,,b,"), vec!["a", "", "b", ""]);
    assert_eq!(split_fields("no comma"), vec!["no comma"]);
}

#[test]
fn pairs_need_exactly_one_comma() {
    assert_eq!(
        split_pairs("1.0,2.0 bad,token 3.0,4.0"),
        vec![pair("1.0", "2.0"), pair("bad", "token"), pair("3.0", "4.0")]
    );
    assert_eq!(split_pairs("1,2,3 4 5,6"), vec![pair("5", "6")]);
    assert_eq!(split_pairs(",5 7,"), vec![pair("", "5"), pair("7", "")]);
    assert_eq!(split_pairs(""), Vec::<(String, String)>::new());
}
