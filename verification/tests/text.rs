use service_orchestration::text::{chars_of, ends_with, is_before, lowercase_chars, starts_with};

fn chars(text: &str) -> Vec<char> {
    text.chars().collect()
}

#[test]
fn chars_of_gives_the_characters_in_order() {
    assert_eq!(chars_of("a\u{e9}\u{1F600}z"), vec!['a', '\u{e9}', '\u{1F600}', 'z']);
    assert_eq!(chars_of(""), Vec::<char>::new());
}

#[test]
fn lowercase_chars_folds_letters() {
    assert_eq!(lowercase_chars("Bravo.Service"), chars("bravo.service"));
    assert_eq!(lowercase_chars("\u{c9}T\u{c9}"), chars("\u{e9}t\u{e9}"));
    assert_eq!(lowercase_chars("already lower 123"), chars("already lower 123"));
    assert_eq!(lowercase_chars(""), Vec::<char>::new());
}

#[test]
fn lowercase_chars_may_change_the_length() {
    assert_eq!(lowercase_chars("\u{130}"), chars("i\u{307}"));
}

#[test]
fn starts_with_compares_the_beginning() {
    assert!(starts_with(&chars("/home/u/x"), &chars("/home/u")));
    assert!(starts_with(&chars("/home/u"), &chars("/home/u")));
    assert!(starts_with(&chars("abc"), &chars("")));
    assert!(starts_with(&chars(""), &chars("")));
    assert!(!starts_with(&chars("/home/v/x"), &chars("/home/u")));
    assert!(!starts_with(&chars("/home"), &chars("/home/u")));
    assert!(!starts_with(&chars(""), &chars("a")));
    assert!(!starts_with(&chars("xab"), &chars("ab")));
}

#[test]
fn ends_with_compares_the_end() {
    assert!(ends_with(&chars("nginx.service"), &chars(".service")));
    assert!(ends_with(&chars(".service"), &chars(".service")));
    assert!(ends_with(&chars("abc"), &chars("")));
    assert!(!ends_with(&chars("nginx.timer"), &chars(".service")));
    assert!(!ends_with(&chars("service"), &chars(".service")));
    assert!(!ends_with(&chars(".service.d"), &chars(".service")));
    assert!(!ends_with(&chars(""), &chars("a")));
}

#[test]
fn is_before_is_the_order_of_strings() {
    let texts = ["", "A", "B", "a", "ab", "abc", "b", "\u{e9}", "\u{1F600}", "z\u{e9}"];
    for a in texts.iter() {
        for b in texts.iter() {
            assert_eq!(is_before(&chars(a), &chars(b)), a < b, "{:?} {:?}", a, b);
        }
    }
}
