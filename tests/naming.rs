use sunbird::augmentation::{Augmentation, AugmentationPrefix};
use sunbird::naming::{decimal_string, label_for, numeral, same_text};

fn prefix(first: &str, middle: &str, last: &str) -> AugmentationPrefix {
    AugmentationPrefix { first: first.to_string(), middle: middle.to_string(), last: last.to_string() }
}

fn augmentation(identifier: &str, p: AugmentationPrefix) -> Augmentation {
    Augmentation { identifier: identifier.to_string(), parent: 0, prefix: p, permissions: vec![], properties: vec![] }
}

#[test]
fn label_for_picks_prefix_by_position() {
    let p = prefix("F ", "M ", "L ");
    assert_eq!(label_for(0, 3, &p, "A1"), "F A1 I");
    assert_eq!(label_for(1, 3, &p, "A1"), "M A1 II");
    assert_eq!(label_for(2, 3, &p, "A1"), "L A1 III");
    assert_eq!(label_for(0, 1, &p, "A1"), "F A1 I");
    assert_eq!(label_for(1, 2, &p, "A1"), "L A1 II");
}

#[test]
fn labels_are_recognised_by_the_matcher() {
    let p = prefix("F ", "M ", "L ");
    let a = augmentation("Room", prefix("F ", "M ", "L "));
    for total in 1..40usize {
        for position in 0..total {
            let label = label_for(position, total, &p, "Room");
            assert!(a.is_instance(&label), "{}", label);
        }
    }
}

#[test]
fn numerals_fall_back_to_decimal_past_3999() {
    assert_eq!(numeral(14), "XIV");
    assert_eq!(numeral(1984), "MCMLXXXIV");
    assert_eq!(numeral(3999), "MMMCMXCIX");
    assert_eq!(numeral(4000), "4000");
    assert_eq!(numeral(0), "0");
    let p = prefix("", "", "");
    assert_eq!(label_for(3999, 4000, &p, "A1"), "A1 4000");
    assert!(!augmentation("A1", prefix("", "", "")).is_instance("A1 4000"));
}

#[test]
fn decimal_digits() {
    assert_eq!(decimal_string(0), "0");
    assert_eq!(decimal_string(7), "7");
    assert_eq!(decimal_string(1984), "1984");
    assert_eq!(decimal_string(u64::MAX), "18446744073709551615");
}

#[test]
fn matcher_accepts_any_run_of_numeral_letters() {
    let a = augmentation("A1", prefix("", "", ""));
    assert!(a.is_instance("A1 I"));
    assert!(a.is_instance("A1 IIII"));
    assert!(a.is_instance("A1 XVX"));
    assert!(a.is_instance("A1 MDCLXVI"));
}

#[test]
fn matcher_rejects_other_shapes() {
    let a = augmentation("A1", prefix("", "", ""));
    assert!(!a.is_instance("A1"));
    assert!(!a.is_instance("A1 "));
    assert!(!a.is_instance("A1 I "));
    assert!(!a.is_instance("A1  I"));
    assert!(!a.is_instance("A1 i"));
    assert!(!a.is_instance("A1 IA"));
    assert!(!a.is_instance("xA1 I"));
    assert!(!a.is_instance("A2 I"));
    assert!(!a.is_instance(""));
}

#[test]
fn matcher_uses_all_three_prefixes() {
    let a = augmentation("Talk", prefix("▶ ", "• ", "◀ "));
    assert!(a.is_instance("▶ Talk I"));
    assert!(a.is_instance("• Talk II"));
    assert!(a.is_instance("◀ Talk III"));
    assert!(!a.is_instance("Talk I"));
    assert!(!a.is_instance("▷ Talk I"));
}

#[test]
fn matcher_follows_a_new_prefix() {
    let mut a = augmentation("Talk", prefix("A ", "B ", "C "));
    assert!(a.is_instance("A Talk I"));
    a.set_prefix(prefix("X ", "Y ", "Z "));
    assert!(!a.is_instance("A Talk I"));
    assert!(a.is_instance("Z Talk II"));
    assert_eq!(a.identifier, "Talk");
}

#[test]
fn text_equality() {
    assert!(same_text("Lobby", "Lobby"));
    assert!(!same_text("Lobby", "Lobby "));
    assert!(!same_text("ä", "a"));
    assert!(same_text("", ""));
}
