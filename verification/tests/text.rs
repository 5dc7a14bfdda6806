use leds::{str_equal, str_less};

#[test]
fn lexicographic_order() {
    assert!(str_less("a", "b"));
    assert!(str_less("ab", "b"));
    assert!(str_less("a", "ab"));
    assert!(!str_less("ab", "ab"));
    assert!(!str_less("b", "a"));
    assert!(str_less("", "a"));
    assert!(str_less("Z", "a"));
    assert!(str_less("é", "ê"));
}

#[test]
fn equality() {
    assert!(str_equal("svg", "svg"));
    assert!(!str_equal("svg", "sv"));
    assert!(!str_equal("svg", "SVG"));
    assert!(str_equal("", ""));
}
