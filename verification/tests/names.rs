use corral::name_order::name_comes_before;

#[test]
fn names_compare_byte_by_byte() {
    assert!(name_comes_before("a", "b"));
    assert!(!name_comes_before("b", "a"));
    assert!(name_comes_before("abc", "abd"));
    assert!(name_comes_before("abc", "b"));
    assert!(!name_comes_before("abd", "abc"));
}

#[test]
fn a_name_comes_before_what_it_is_a_proper_prefix_of() {
    assert!(name_comes_before("", "a"));
    assert!(name_comes_before("sprite", "sprite_2"));
    assert!(!name_comes_before("sprite_2", "sprite"));
}

#[test]
fn no_name_comes_before_itself() {
    assert!(!name_comes_before("", ""));
    assert!(!name_comes_before("sprite", "sprite"));
}

#[test]
fn capitals_come_before_small_letters_and_digits_before_both() {
    assert!(name_comes_before("Zebra", "apple"));
    assert!(name_comes_before("10", "9"));
    assert!(name_comes_before("9", "A"));
}

#[test]
fn names_beyond_ascii_compare_by_their_encoding() {
    assert!(name_comes_before("z", "\u{e9}"));
    assert!(name_comes_before("\u{e9}", "\u{20ac}"));
    assert!(name_comes_before("\u{20ac}", "\u{1f600}"));
    assert_eq!("z" < "\u{e9}", name_comes_before("z", "\u{e9}"));
}

#[test]
fn the_order_agrees_with_the_order_of_strings() {
    let samples = ["", "a", "A", "ab", "b", "a b", "a_b", "\u{e9}", "10", "9", "sprite"];
    for left in samples {
        for right in samples {
            assert_eq!(left < right, name_comes_before(left, right), "{:?} {:?}", left, right);
        }
    }
}
