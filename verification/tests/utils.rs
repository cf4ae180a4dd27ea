use linecode::utils::{chars_of, longest_palindrome, longest_palindrome_span};

fn palindrome(text: &str) -> String {
    longest_palindrome(String::from(text))
}

#[test]
fn longest_palindrome_of_bit_strings() {
    assert_eq!(palindrome("0110"), "0110");
    assert_eq!(palindrome("10010"), "1001");
    assert_eq!(palindrome("1101011"), "1101011");
    assert_eq!(palindrome("0001011"), "000");
    assert_eq!(palindrome("1"), "1");
}

#[test]
fn longest_palindrome_takes_the_leftmost_of_the_longest() {
    assert_eq!(palindrome("abcd"), "a");
    assert_eq!(palindrome("abacdc"), "aba");
    assert_eq!(palindrome("xaaybbz"), "aa");
    assert_eq!(palindrome("10"), "1");
}

#[test]
fn longest_palindrome_of_text() {
    assert_eq!(palindrome("babad"), "bab");
    assert_eq!(palindrome("cbbd"), "bb");
    assert_eq!(palindrome("forgeeksskeegfor"), "geeksskeeg");
    assert_eq!(palindrome("\u{e9}a\u{e9}b"), "\u{e9}a\u{e9}");
}

#[test]
fn longest_palindrome_of_nothing_is_nothing() {
    assert_eq!(palindrome(""), "");
}

#[test]
fn longest_palindrome_span_gives_start_and_length() {
    let text: Vec<char> = "10010".chars().collect();
    assert_eq!(longest_palindrome_span(&text), (0, 4));
    let text: Vec<char> = "abcddc".chars().collect();
    assert_eq!(longest_palindrome_span(&text), (2, 4));
    assert_eq!(longest_palindrome_span(&Vec::new()), (0, 0));
}

#[test]
fn chars_of_keeps_every_character() {
    assert_eq!(chars_of("1\u{e9}0"), vec!['1', '\u{e9}', '0']);
    assert_eq!(chars_of(""), Vec::<char>::new());
}

#[test]
fn longest_palindrome_agrees_with_a_search_of_all_substrings() {
    for len in 0..=10u32 {
        for code in 0..(1u32 << len) {
            let text: String =
                (0..len).map(|i| if code >> i & 1 == 1 { '1' } else { '0' }).collect();
            let mut best = "";
            for a in 0..text.len() {
                for b in a..=text.len() {
                    let part = &text[a..b];
                    if part.len() > best.len() && part.chars().eq(part.chars().rev()) {
                        best = part;
                    }
                }
            }
            assert_eq!(palindrome(&text), best);
        }
    }
}
