//! Character helpers: string-to-character-vector conversion and uppercasing.

use xrosslexiord::chars::{charvec, upper_char_exec, upper_string};

#[test]
fn concerning_charvec_macro() {
    assert_eq!(vec!['H', 'A', 'S', 'T', 'E'], charvec("HASTE"));
}

#[test]
fn charvec_keeps_every_character_in_order() {
    assert_eq!(Vec::<char>::new(), charvec(""));
    assert_eq!(vec!['a', ' ', 'Z', '█'], charvec("a Z█"));
}

#[test]
fn uppercasing_touches_only_lowercase_ascii_letters() {
    assert_eq!('A', upper_char_exec('a'));
    assert_eq!('Z', upper_char_exec('z'));
    assert_eq!('M', upper_char_exec('M'));
    assert_eq!(' ', upper_char_exec(' '));
    assert_eq!('█', upper_char_exec('█'));
    assert_eq!("ABC DEF", upper_string("aBc dEf").as_str());
}
