use mortality::number::{digit_of, parse_radix_in};
use mortality::text::{chars_of, same_text};

#[test]
fn characters_in_order() {
    assert_eq!(chars_of("15-19 years"), "15-19 years".chars().collect::<Vec<char>>());
    assert_eq!(chars_of(""), Vec::<char>::new());
    assert_eq!(chars_of("\u{e9}t\u{e9}"), vec!['\u{e9}', 't', '\u{e9}']);
}

#[test]
fn texts_are_compared_letter_for_letter() {
    assert!(same_text(&"Male".to_string(), &"Male".to_string()));
    assert!(!same_text(&"Male".to_string(), &"male".to_string()));
    assert!(!same_text(&"Male".to_string(), &"Male ".to_string()));
    assert!(same_text(&String::new(), &String::new()));
}

#[test]
fn digits_of_a_radix() {
    assert_eq!(digit_of('0', 10), Some(0));
    assert_eq!(digit_of('9', 10), Some(9));
    assert_eq!(digit_of('a', 10), None);
    assert_eq!(digit_of('a', 16), Some(10));
    assert_eq!(digit_of('F', 16), Some(15));
    assert_eq!(digit_of('g', 16), None);
    assert_eq!(digit_of('z', 36), Some(35));
    assert_eq!(digit_of('7', 2), None);
    assert_eq!(digit_of('+', 10), None);
    assert_eq!(digit_of('\u{0663}', 10), None);
    for radix in 2..=36u32 {
        for c in ['0', '1', '5', '9', 'a', 'f', 'z', 'A', 'F', 'Z', '-', ' ', '/'] {
            assert_eq!(digit_of(c, radix), c.to_digit(radix), "{:?} in {}", c, radix);
        }
    }
}

#[test]
fn numbers_inside_a_text() {
    let chars: Vec<char> = "15-19 years".chars().collect();
    assert_eq!(parse_radix_in(&chars, 0, 2, 10), Some(15));
    assert_eq!(parse_radix_in(&chars, 3, 5, 10), Some(19));
    assert_eq!(parse_radix_in(&chars, 3, 5, 16), Some(25));
    assert_eq!(parse_radix_in(&chars, 0, 5, 10), None);
    assert_eq!(parse_radix_in(&chars, 2, 2, 10), None);
    assert_eq!(parse_radix_in(&chars, 6, 11, 36), Some(57_774_088));
    assert_eq!(parse_radix_in(&chars, 5, 11, 36), None);
}
