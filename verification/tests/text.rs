//! Plain text, names, and the `latest` link.
use trainer::link::{refresh_latest, replace_latest_link, Slot, Step};
use trainer::text::{decimal_text, left_aligned, name_at_or_before, right_aligned};

#[test]
fn decimals_have_no_leading_zeros() {
    assert_eq!(decimal_text(0), "0");
    assert_eq!(decimal_text(10_203), "10203");
    assert_eq!(decimal_text(u64::MAX), "18446744073709551615");
}

#[test]
fn padding_counts_characters() {
    assert_eq!(left_aligned("ab", 4), "ab  ");
    assert_eq!(right_aligned("ab", 4), "  ab");
    assert_eq!(left_aligned("abcde", 4), "abcde");
    assert_eq!(right_aligned("\u{53f0}\u{7a4d}", 3), " \u{53f0}\u{7a4d}");
}

#[test]
fn names_compare_by_bytes() {
    for (a, b) in [("a", "b"), ("Z", "a"), ("ab", "abc"), ("", "a"), ("x", "x"), ("z", "\u{e9}")] {
        assert_eq!(name_at_or_before(a, b), a <= b);
        assert_eq!(name_at_or_before(b, a), b <= a);
    }
}

#[test]
fn only_a_link_gives_way() {
    assert_eq!(replace_latest_link(Slot::Free), Step::Create);
    assert_eq!(replace_latest_link(Slot::Symlink), Step::RemoveAndCreate);
    assert_eq!(replace_latest_link(Slot::Other), Step::Refuse);
}

#[test]
fn latest_is_never_linked_to_itself() {
    assert!(refresh_latest(true, Some("run-1")));
    assert!(!refresh_latest(true, Some("latest")));
    assert!(!refresh_latest(false, Some("run-1")));
    assert!(!refresh_latest(true, None));
}
