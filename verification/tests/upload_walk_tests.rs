use pwd_interface::upload::{created_listing, credentials_accepted};
use pwd_interface::walk::{classify, relative_to, IgnoreRule, Step, Walk};

fn p(parts: &[&str]) -> Vec<Vec<u8>> {
    parts.iter().map(|s| s.as_bytes().to_vec()).collect()
}

#[test]
fn listing_names_each_upload() {
    let entries = vec![
        (Some("a.txt".to_string()), "XYZ".to_string()),
        (None, "QRS".to_string()),
        (Some(String::new()), "TUV".to_string()),
    ];
    assert_eq!(created_listing(&entries), "a.txt -> XYZ\nQRS\n -> TUV");
    assert_eq!(created_listing(&Vec::new()), "");
    assert_eq!(created_listing(&vec![(None, "ONE".to_string())]), "ONE");
}

#[test]
fn credentials_need_user_and_password() {
    assert!(credentials_accepted("u", "pw", "u", Some("pw")));
    assert!(!credentials_accepted("u", "pw", "u", None));
    assert!(!credentials_accepted("u", "pw", "v", Some("pw")));
    assert!(!credentials_accepted("u", "pw", "u", Some("px")));
}

#[test]
fn default_rule_skips_git_only() {
    let rule = IgnoreRule::GitOnly;
    assert!(matches!(classify(&rule, &p(&[".", ".git"]), true), Step::Skip));
    assert!(matches!(classify(&rule, &p(&[".", "src"]), true), Step::Descend));
    assert!(matches!(classify(&rule, &p(&[".", "a.rs"]), false), Step::Visit));
    assert!(matches!(classify(&rule, &p(&[]), true), Step::Descend));
}

#[test]
fn listed_rule_keeps_included_files_and_all_directories() {
    let rule = IgnoreRule::Included(vec![p(&["b", "x.txt"])]);
    assert!(matches!(classify(&rule, &p(&["b", "x.txt"]), false), Step::Visit));
    assert!(matches!(classify(&rule, &p(&["b", "y.txt"]), false), Step::Skip));
    assert!(matches!(classify(&rule, &p(&["b", ".git"]), true), Step::Descend));
}

#[test]
fn relative_paths() {
    assert_eq!(relative_to(&p(&["b", "d", "f"]), &p(&["b"])), Some(p(&["d", "f"])));
    assert_eq!(relative_to(&p(&["b"]), &p(&["b"])), Some(p(&[])));
    assert_eq!(relative_to(&p(&["c", "f"]), &p(&["b"])), None);
    assert_eq!(relative_to(&p(&["b"]), &p(&["b", "c"])), None);
}

#[test]
fn walk_is_depth_first_in_entry_order() {
    let mut w = Walk::new(p(&["r"]));
    assert_eq!(w.next(), Some(p(&["r"])));
    w.descend(vec![p(&["r", "a"]), p(&["r", "b"])]);
    assert_eq!(w.next(), Some(p(&["r", "a"])));
    w.descend(vec![p(&["r", "a", "x"])]);
    assert_eq!(w.next(), Some(p(&["r", "a", "x"])));
    assert_eq!(w.next(), Some(p(&["r", "b"])));
    assert!(w.is_done());
    assert_eq!(w.next(), None);
}

#[test]
fn names_are_compared_as_bytes() {
    let rule = IgnoreRule::GitOnly;
    let odd: Vec<Vec<u8>> = vec![b"r".to_vec(), vec![0xff, 0xfe]];
    assert!(matches!(classify(&rule, &odd, false), Step::Visit));
    assert_eq!(relative_to(&odd, &vec![b"r".to_vec()]), Some(vec![vec![0xff, 0xfe]]));
}
