use svmgr::config::{shell, Run, Service, Type, Unit};
use svmgr::tag::Tag;

#[test]
fn system_tag() {
    let t = Tag::new("nginx").unwrap();
    assert_eq!(t.user, None);
    assert_eq!(t.sv, b"nginx".to_vec());
    assert_eq!(t.render(), b"nginx".to_vec());
}

#[test]
fn user_tag() {
    let t = Tag::new("alice/mpd").unwrap();
    assert_eq!(t.user, Some(b"alice".to_vec()));
    assert_eq!(t.sv, b"mpd".to_vec());
    assert_eq!(t.render(), b"alice/mpd".to_vec());
}

#[test]
fn malformed_tags() {
    assert!(Tag::new("a/b/c").is_none());
    assert!(Tag::new("with space").is_none());
    assert!(Tag::new("caf\u{e9}").is_none());
    assert!(Tag::new("tab\t").is_none());
}

#[test]
fn unit_defaults() {
    assert_eq!(shell(), "/bin/sh");
    let u = Unit::new(None, None, Type::Service(Service { run: Run::Shell("echo hi".to_owned()) }));
    assert_eq!(u.description, "");
    assert_eq!(u.shell, "/bin/sh");
    let u = Unit::new(Some("d".to_owned()), Some("/bin/bash".to_owned()), Type::Service(Service { run: Run::Exec(vec![]) }));
    assert_eq!(u.description, "d");
    assert_eq!(u.shell, "/bin/bash");
}
