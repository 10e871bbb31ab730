use file_store::{Installed, OpenRegistry};

#[test]
fn opens_of_one_path_share_a_handle() {
    let mut reg = OpenRegistry::new();
    let path = b"/data/a.log".to_vec();
    assert_eq!(reg.registered(&path), None);
    let first = reg.install(&path, false);
    assert_eq!(first, Installed::Fresh(0));
    for _ in 0..5 {
        assert_eq!(reg.registered(&path), Some(0));
        assert_eq!(reg.install(&path, true), Installed::Existing(0));
    }
}

#[test]
fn dropped_handle_is_replaced_by_fresh_one() {
    let mut reg = OpenRegistry::new();
    let a = b"/data/a.log".to_vec();
    let b = b"/data/b.log".to_vec();
    assert_eq!(reg.install(&a, false), Installed::Fresh(0));
    assert_eq!(reg.install(&b, false), Installed::Fresh(1));
    assert_eq!(reg.install(&a, false), Installed::Fresh(2));
    assert_eq!(reg.registered(&a), Some(2));
    assert_eq!(reg.registered(&b), Some(1));
    assert!(reg.has_fresh_id());
}
