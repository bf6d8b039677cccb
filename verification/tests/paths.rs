//! Leading-`~` expansion.

use eriksync::expand_user;

#[test]
fn leading_tilde_expands_to_home() {
    assert_eq!(expand_user("~/x", "/home/bob"), "/home/bob/x");
}

#[test]
fn absolute_path_is_unchanged() {
    assert_eq!(expand_user("/abs/x", "/home/bob"), "/abs/x");
}

#[test]
fn only_the_leading_character_is_replaced() {
    // No `~user` expansion: everything after the marker is kept verbatim.
    assert_eq!(expand_user("~abc", "/home/bob"), "/home/bobabc");
    // A bare marker expands to the home directory itself.
    assert_eq!(expand_user("~", "/home/bob"), "/home/bob");
    // A second marker is not special.
    assert_eq!(expand_user("~/a~b", "/h"), "/h/a~b");
}

#[test]
fn tilde_elsewhere_is_not_expanded() {
    assert_eq!(expand_user("a/~/b", "/home/bob"), "a/~/b");
}

#[test]
fn unset_home_expands_to_nothing() {
    assert_eq!(expand_user("~/x", ""), "/x");
}

#[test]
fn empty_path_is_unchanged() {
    assert_eq!(expand_user("", "/home/bob"), "");
}
