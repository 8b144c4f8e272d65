use gitmeta::error::Error;
use gitmeta::refname::{has_name_shape, RefName};

#[test]
fn usual_names_are_valid() {
    for text in ["HEAD", "refs/heads/main", "refs/tags/v1.0", "refs/remotes/origin/topic/one"] {
        let name = RefName::new(text).unwrap();
        assert_eq!(name.as_str(), text);
        assert!(name.has_text(&text.to_string()));
    }
}

#[test]
fn empty_name_is_invalid() {
    assert_eq!(RefName::new("").unwrap_err(), Error::InvalidInput);
    assert!(!has_name_shape(""));
}

#[test]
fn empty_components_are_invalid() {
    for text in ["/refs/heads/a", "refs//heads/a", "refs/heads/a/", "/"] {
        assert_eq!(RefName::new(text).unwrap_err(), Error::InvalidInput);
        assert!(!has_name_shape(text));
    }
}

#[test]
fn two_dots_are_invalid() {
    for text in ["refs/heads/a..b", "refs/heads/..", "..", "refs/../x"] {
        assert_eq!(RefName::new(text).unwrap_err(), Error::InvalidInput);
        assert!(!has_name_shape(text));
    }
}

#[test]
fn shape_allows_single_dots_and_slashes() {
    assert!(has_name_shape("refs/heads/a.b"));
    assert!(has_name_shape("a"));
    assert!(has_name_shape("a/b"));
    assert!(has_name_shape("a./.b"));
}

#[test]
fn names_that_validation_refuses_are_invalid() {
    for text in ["head", "main", "refs/heads/a b", "refs/heads/a.lock", "refs/heads/a*", "refs/heads/@{x"] {
        assert!(has_name_shape(text));
        assert_eq!(RefName::new(text).unwrap_err(), Error::InvalidInput);
    }
}

#[test]
fn equal_names_compare_equal() {
    let a = RefName::new("refs/heads/a").unwrap();
    assert_eq!(a, RefName::new("refs/heads/a").unwrap());
    assert_ne!(a, RefName::new("refs/heads/b").unwrap());
    assert_eq!(a.clone(), a);
    assert_eq!(a.text(), "refs/heads/a");
    assert!(!a.has_text(&"refs/heads/b".to_string()));
}

#[test]
fn checked_needs_both_shape_and_acceptance() {
    assert_eq!(RefName::checked("refs/heads/a", true).unwrap().as_str(), "refs/heads/a");
    assert_eq!(RefName::checked("refs/heads/a", false).unwrap_err(), Error::InvalidInput);
    assert_eq!(RefName::checked("refs//a", true).unwrap_err(), Error::InvalidInput);
    assert_eq!(RefName::checked("", false).unwrap_err(), Error::InvalidInput);
}
