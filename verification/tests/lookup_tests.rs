use rssh::lookup::{contains_sub, get_password, get_password_fuzzy};
use rssh::model::{HostInfo, Rdata, UserInfo};
use rssh::resolve::{apply_choice, resolve_query, Resolution};

fn two_hosts() -> Rdata {
    Rdata {
        current: vec![],
        hosts: vec![
            HostInfo {
                ip: String::from("10.0.0.1"),
                users: vec![UserInfo {
                    username: String::from("root"),
                    password: String::from("a"),
                }],
            },
            HostInfo {
                ip: String::from("10.0.0.10"),
                users: vec![UserInfo {
                    username: String::from("root"),
                    password: String::from("b"),
                }],
            },
        ],
        pwd: String::from("k"),
        version: 0,
    }
}

#[test]
fn substring_matching() {
    assert!(contains_sub("10.0.0.1", "0.0.1"));
    assert!(contains_sub("10.0.0.1", ""));
    assert!(contains_sub("abc", "abc"));
    assert!(!contains_sub("10.0.0.1", "9.9"));
    assert!(!contains_sub("ab", "abc"));
}

#[test]
fn exact_lookup_positions() {
    let v = two_hosts();
    assert_eq!(get_password(&v, "10.0.0.1", "root"), (0, 0));
    assert_eq!(get_password(&v, "10.0.0.10", "root"), (1, 0));
    assert_eq!(get_password(&v, "10.0.0.1", "admin"), (0, -1));
    assert_eq!(get_password(&v, "10.9.9.9", "root"), (-1, -1));
}

#[test]
fn fuzzy_lookup_pairs() {
    let v = two_hosts();
    assert_eq!(get_password_fuzzy(&v, "0.0.1", "root"), vec![(0, 0), (1, 0)]);
    assert_eq!(get_password_fuzzy(&v, "0.0.10", "root"), vec![(1, 0)]);
    assert_eq!(get_password_fuzzy(&v, "9.9", "root"), vec![]);
    assert_eq!(get_password_fuzzy(&v, "0.0.1", "admin"), vec![]);
}

#[test]
fn exact_match_has_priority() {
    // "10.0.0.1" is also a substring of "10.0.0.10"; the exact match must
    // win without any disambiguation.
    let v = two_hosts();
    match resolve_query(&v, "10.0.0.1", "root") {
        Resolution::Found(p) => {
            assert_eq!(p.ip, "10.0.0.1");
            assert_eq!(p.user, "root");
            assert_eq!(p.password, "a");
        }
        _ => panic!("expected a single credential"),
    }
}

#[test]
fn fuzzy_single_match_resolves_directly() {
    let v = two_hosts();
    match resolve_query(&v, "0.0.10", "root") {
        Resolution::Found(p) => {
            assert_eq!(p.ip, "10.0.0.10");
            assert_eq!(p.password, "b");
        }
        _ => panic!("expected a single credential"),
    }
}

#[test]
fn fuzzy_no_match_is_not_found() {
    let v = two_hosts();
    match resolve_query(&v, "9.9", "root") {
        Resolution::NotFound => {}
        _ => panic!("expected no credential"),
    }
}

#[test]
fn ambiguous_options_are_sorted_and_numbered() {
    let v = two_hosts();
    match resolve_query(&v, "0.0.1", "root") {
        Resolution::Ambiguous { options, default_choice } => {
            assert_eq!(options, vec![
                String::from("10.0.0.1 root a"),
                String::from("10.0.0.10 root b"),
            ]);
            assert_eq!(default_choice, 0);
        }
        _ => panic!("expected disambiguation"),
    }
}

#[test]
fn choice_is_applied_and_remembered() {
    let mut v = two_hosts();
    let options = vec![
        String::from("10.0.0.1 root a"),
        String::from("10.0.0.10 root b"),
    ];
    let (p, saved) = apply_choice(&mut v, "0.0.1", &options, "2\n").unwrap();
    assert_eq!(p.ip, "10.0.0.10");
    assert_eq!(p.user, "root");
    assert_eq!(p.password, "b");
    assert!(saved);
    assert_eq!(v.current.len(), 1);
    assert_eq!(v.current[0].ip, "0.0.1");
    assert_eq!(v.current[0].index, 2);

    // The remembered default now appears, and an empty answer accepts it
    // without another save.
    match resolve_query(&v, "0.0.1", "root") {
        Resolution::Ambiguous { default_choice, .. } => assert_eq!(default_choice, 2),
        _ => panic!("expected disambiguation"),
    }
    let (p2, saved2) = apply_choice(&mut v, "0.0.1", &options, "\n").unwrap();
    assert_eq!(p2.ip, "10.0.0.10");
    assert!(!saved2);

    // A differing answer overwrites the remembered choice in place.
    let (p3, saved3) = apply_choice(&mut v, "0.0.1", &options, " 1 \n").unwrap();
    assert_eq!(p3.ip, "10.0.0.1");
    assert!(saved3);
    assert_eq!(v.current.len(), 1);
    assert_eq!(v.current[0].index, 1);
}

#[test]
fn bad_choices_are_rejected() {
    let mut v = two_hosts();
    let options = vec![
        String::from("10.0.0.1 root a"),
        String::from("10.0.0.10 root b"),
    ];
    assert_eq!(
        apply_choice(&mut v, "0.0.1", &options, "zzz\n").unwrap_err().kind,
        rssh::errs::ErrKind::AmbiguousChoice
    );
    assert_eq!(
        apply_choice(&mut v, "0.0.1", &options, "3\n").unwrap_err().kind,
        rssh::errs::ErrKind::AmbiguousChoice
    );
    assert_eq!(
        apply_choice(&mut v, "0.0.1", &options, "0\n").unwrap_err().kind,
        rssh::errs::ErrKind::AmbiguousChoice
    );
    // No remembered choice yet, so the empty answer has no default to take.
    assert_eq!(
        apply_choice(&mut v, "0.0.1", &options, "\n").unwrap_err().kind,
        rssh::errs::ErrKind::AmbiguousChoice
    );
    assert_eq!(v.current.len(), 0);
}
