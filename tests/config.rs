use cppman::config::{ConfigError, Pager, Source};
use cppman::text::repeat_char;

#[test]
fn pager_names() {
    assert_eq!(Pager::try_from("vim").unwrap(), Pager::Vim);
    assert_eq!(Pager::try_from("less").unwrap(), Pager::Less);
    assert_eq!(Pager::try_from("system").unwrap(), Pager::System);
    assert_eq!(Pager::Less.as_str(), "less");
}

#[test]
fn unknown_pager_fails() {
    match Pager::try_from("more") {
        Err(ConfigError::ParsePager { input }) => assert_eq!(input, "more"),
        other => panic!("unexpected {:?}", other),
    }
}

#[test]
fn source_names() {
    assert_eq!(Source::try_from("cplusplus.com").unwrap(), Source::CPlusPlus);
    assert_eq!(Source::try_from("cppreference.com").unwrap(), Source::CppReference);
    assert_eq!(Source::CppReference.as_str(), "cppreference.com");
}

#[test]
fn unknown_source_fails() {
    match Source::try_from("example.com") {
        Err(ConfigError::ParseSource { input }) => assert_eq!(input, "example.com"),
        other => panic!("unexpected {:?}", other),
    }
}

#[test]
fn repeat_char_counts() {
    assert_eq!(repeat_char(' ', 4), "    ");
    assert_eq!(repeat_char('x', 0), "");
}

#[test]
fn unknown_names_fall_back_to_defaults() {
    assert_eq!(Pager::from("less"), Pager::Less);
    assert_eq!(Pager::from("emacs"), Pager::Vim);
    assert_eq!(Pager::default(), Pager::Vim);
    assert_eq!(Source::from("cppreference.com"), Source::CppReference);
    assert_eq!(Source::from("nowhere"), Source::CPlusPlus);
    assert_eq!(Source::default(), Source::CPlusPlus);
}

#[test]
fn page_names_lose_slashes() {
    assert_eq!(cppman::text::get_normalized_page_name("std::vector/operator="), "std::vector_operator=");
    assert_eq!(cppman::text::get_normalized_page_name("plain"), "plain");
}
