use word_scope::{AvoidingWithPrefix, ClassError};

fn class(prefix: &str, patterns: &[&str], alphabet: &[char], atom: bool) -> AvoidingWithPrefix {
    AvoidingWithPrefix::new(
        prefix.to_string(),
        patterns.iter().map(|p| p.to_string()).collect(),
        alphabet.to_vec(),
        atom,
    )
}

fn strings(v: &[&str]) -> Vec<String> {
    v.iter().map(|s| s.to_string()).collect()
}

#[test]
fn empty_when_prefix_holds_pattern() {
    assert!(class("aaab", &["aaab"], &['a', 'b'], false).is_empty());
    assert!(!class("ab", &["aaab"], &['a', 'b'], false).is_empty());
    assert!(class("babb", &["x", "ab"], &['a', 'b'], false).is_empty());
    assert!(!class("", &["ab"], &['a', 'b'], false).is_empty());
}

#[test]
fn empty_pattern_makes_every_class_empty() {
    assert!(class("", &[""], &['a'], false).is_empty());
}

#[test]
fn removable_length_without_patterns_is_whole_prefix() {
    assert_eq!(class("abba", &[], &['a', 'b'], false).removable_prefix_length(), 4);
    assert_eq!(class("", &[], &['a', 'b'], false).removable_prefix_length(), 0);
}

#[test]
fn removable_length_values() {
    assert_eq!(class("aaab", &["aaab"], &['a', 'b'], false).removable_prefix_length(), 0);
    assert_eq!(class("ab", &["aaab"], &['a', 'b'], false).removable_prefix_length(), 2);
    assert_eq!(class("bbba", &["ab"], &['a', 'b'], false).removable_prefix_length(), 3);
    assert_eq!(class("bbbb", &["ab"], &['a', 'b'], false).removable_prefix_length(), 4);
    assert_eq!(class("abaa", &["aab", "b"], &['a', 'b'], false).removable_prefix_length(), 2);
}

#[test]
fn removable_length_within_prefix() {
    for prefix in ["", "a", "ab", "aab", "bbab", "ababab"] {
        let c = class(prefix, &["aab", "ba"], &['a', 'b'], false);
        let r = c.removable_prefix_length();
        assert!(r <= prefix.len());
    }
}

#[test]
fn expand_one_letter_children() {
    let c = class("a", &["ab"], &['a', 'b'], false);
    let kids = c.expand_one_letter();
    assert_eq!(kids.len(), 3);
    assert_eq!(kids[0], class("a", &["ab"], &['a', 'b'], true));
    assert_eq!(kids[1], class("aa", &["ab"], &['a', 'b'], false));
    assert_eq!(kids[2], class("ab", &["ab"], &['a', 'b'], false));
}

#[test]
fn expand_one_letter_count_ignores_prefix() {
    for prefix in ["", "ab", "aaab"] {
        let c = class(prefix, &["aaab"], &['a', 'b', 'c'], false);
        assert_eq!(c.expand_one_letter().len(), 4);
        let atom = class(prefix, &["aaab"], &['a', 'b', 'c'], true);
        assert_eq!(atom.expand_one_letter().len(), 4);
    }
    assert_eq!(class("a", &[], &[], false).expand_one_letter().len(), 1);
}

#[test]
fn remove_front_of_prefix_splits() {
    let c = class("bbba", &["ab"], &['a', 'b'], false);
    let parts = c.remove_front_of_prefix().unwrap();
    assert_eq!(parts.len(), 2);
    assert_eq!(parts[0], class("bbb", &["ab"], &['a', 'b'], true));
    assert_eq!(parts[1], class("a", &["ab"], &['a', 'b'], false));
    assert_eq!(format!("{}{}", parts[0].prefix(), parts[1].prefix()), "bbba");
}

#[test]
fn remove_front_of_whole_prefix() {
    let c = class("ba", &[], &['a', 'b'], false);
    let parts = c.remove_front_of_prefix().unwrap();
    assert_eq!(parts[0].prefix(), "ba");
    assert!(parts[0].is_atom());
    assert_eq!(parts[1].prefix(), "");
    assert!(!parts[1].is_atom());
}

#[test]
fn remove_front_of_prefix_none() {
    assert!(class("bbba", &["ab"], &['a', 'b'], true).remove_front_of_prefix().is_none());
    assert!(class("aaab", &["aaab"], &['a', 'b'], false).remove_front_of_prefix().is_none());
    assert!(class("", &[], &['a', 'b'], false).remove_front_of_prefix().is_none());
}

#[test]
fn objects_of_size_scenario() {
    let c = class("a", &["ab"], &['a', 'b'], false);
    assert!(c.objects_of_size(0).is_empty());
    assert_eq!(c.objects_of_size(1), strings(&["a"]));
    assert_eq!(c.objects_of_size(2), strings(&["aa"]));
    assert_eq!(c.count_objects_of_size(2), 1);
}

#[test]
fn objects_belong_and_have_size() {
    let c = class("ab", &["aaab", "bb"], &['a', 'b'], false);
    for n in 0..8 {
        for w in c.objects_of_size(n) {
            assert!(c.contains(&w));
            assert_eq!(w.chars().count(), n);
        }
    }
}

#[test]
fn objects_in_counter_order() {
    let c = class("", &[], &['b', 'a'], false);
    assert_eq!(c.objects_of_size(2), strings(&["bb", "ba", "ab", "aa"]));
    let d = class("x", &["aa"], &['a', 'b'], false);
    assert_eq!(d.objects_of_size(3), strings(&["xab", "xba", "xbb"]));
}

#[test]
fn objects_with_empty_alphabet() {
    let c = class("x", &[], &[], false);
    assert_eq!(c.objects_of_size(1), strings(&["x"]));
    assert!(c.objects_of_size(2).is_empty());
    assert_eq!(c.count_objects_of_size(2), 0);
}

#[test]
fn count_objects_of_size_values() {
    let c = class("ab", &["aaab"], &['a', 'b'], false);
    let counts: Vec<usize> = (0..7).map(|n| c.count_objects_of_size(n)).collect();
    assert_eq!(counts, vec![0, 0, 1, 2, 4, 8, 15]);
}

#[test]
fn contains_cases() {
    let c = class("ab", &["bb"], &['a', 'b'], false);
    assert!(c.contains("ab"));
    assert!(c.contains("aba"));
    assert!(!c.contains("a"));
    assert!(!c.contains("ba"));
    assert!(!c.contains("abb"));
    assert!(c.contains("abac"));
}

#[test]
fn contains_non_ascii_letters() {
    let c = class("é", &["éé"], &['é', 'ß'], false);
    assert!(c.contains("éß"));
    assert!(!c.contains("ßé"));
    assert!(!c.contains("éé"));
    assert_eq!(c.objects_of_size(2), strings(&["éß"]));
    assert_eq!(c.minimum_size_of_object(), 1);
}

#[test]
fn pattern_order_breaks_equality() {
    let a = class("a", &["ab", "ba"], &['a', 'b'], false);
    let b = class("a", &["ba", "ab"], &['a', 'b'], false);
    assert_ne!(a, b);
    assert_eq!(a, class("a", &["ab", "ba"], &['a', 'b'], false));
}

#[test]
fn alphabet_order_and_flag_break_equality() {
    let a = class("a", &["ab"], &['a', 'b'], false);
    assert_ne!(a, class("a", &["ab"], &['b', 'a'], false));
    assert_ne!(a, class("a", &["ab"], &['a', 'b'], true));
    assert_ne!(a, class("b", &["ab"], &['a', 'b'], false));
}

#[test]
fn accessors() {
    let c = class("ab", &["aaab", "b"], &['a', 'b'], true);
    assert_eq!(c.prefix(), "ab");
    assert_eq!(c.patterns(), strings(&["aaab", "b"]));
    assert_eq!(c.alphabet(), vec!['a', 'b']);
    assert!(c.just_prefix());
    assert!(c.is_atom());
    assert_eq!(c.minimum_size_of_object(), 2);
}

#[test]
fn with_same_base_keeps_patterns_and_alphabet() {
    let c = class("ab", &["aaab"], &['a', 'b'], false);
    let d = c.with_same_base("ba", true);
    assert_eq!(d, class("ba", &["aaab"], &['a', 'b'], true));
}

#[test]
fn to_bytes_not_implemented() {
    let c = class("ab", &["aaab"], &['a', 'b'], false);
    assert_eq!(c.to_bytes(), Err(ClassError::NotImplemented));
}

#[test]
fn branches_cover_parent_words() {
    let c = class("a", &["bb"], &['a', 'b'], false);
    let kids = c.expand_one_letter();
    for n in 2..6 {
        let mut from_kids: Vec<String> = Vec::new();
        for k in &kids[1..] {
            from_kids.extend(k.objects_of_size(n));
        }
        assert_eq!(c.objects_of_size(n), from_kids);
    }
    assert_eq!(c.objects_of_size(3), strings(&["aaa", "aab", "aba"]));
}

#[test]
fn empty_class_yields_no_words() {
    let c = class("aaab", &["aaab"], &['a', 'b'], false);
    for n in 0..8 {
        assert_eq!(c.count_objects_of_size(n), 0);
    }
}

#[test]
fn candidate_count_without_patterns() {
    let c = class("ab", &[], &['a', 'b', 'c'], false);
    assert_eq!(c.count_objects_of_size(2), 1);
    assert_eq!(c.count_objects_of_size(4), 9);
    assert_eq!(c.count_objects_of_size(5), 27);
}
