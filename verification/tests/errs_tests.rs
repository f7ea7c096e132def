use rssh::errs::{map_exec_code, ErrKind, MyErr};

#[test]
fn exec_codes_map_to_distinct_kinds() {
    assert!(map_exec_code(0).is_ok());
    assert_eq!(map_exec_code(1).unwrap_err().kind, ErrKind::ExecBadArgs);
    assert_eq!(map_exec_code(2).unwrap_err().kind, ErrKind::ExecConflict);
    assert_eq!(map_exec_code(3).unwrap_err().kind, ErrKind::ExecRuntime);
    assert_eq!(map_exec_code(4).unwrap_err().kind, ErrKind::ExecParse);
    assert_eq!(map_exec_code(5).unwrap_err().kind, ErrKind::ExecAuth);
    assert_eq!(map_exec_code(6).unwrap_err().kind, ErrKind::ExecUnknownHostKey);
    assert_eq!(map_exec_code(7).unwrap_err().kind, ErrKind::ExecHostKeyChanged);
    assert_eq!(map_exec_code(255).unwrap_err().kind, ErrKind::ExecTimeout);
    assert_eq!(map_exec_code(42).unwrap_err().kind, ErrKind::ExecInternal);
    assert_eq!(map_exec_code(-1).unwrap_err().kind, ErrKind::ExecInternal);
}

#[test]
fn every_error_kind_has_a_distinct_message() {
    let kinds = [
        ErrKind::DecodeError,
        ErrKind::CryptoError,
        ErrKind::SchemaError,
        ErrKind::VaultNotFound,
        ErrKind::PersistenceError,
        ErrKind::CredentialNotFound,
        ErrKind::AmbiguousChoice,
        ErrKind::ImportFormatError,
        ErrKind::ExecBadArgs,
        ErrKind::ExecConflict,
        ErrKind::ExecRuntime,
        ErrKind::ExecParse,
        ErrKind::ExecAuth,
        ErrKind::ExecUnknownHostKey,
        ErrKind::ExecHostKeyChanged,
        ErrKind::ExecTimeout,
        ErrKind::ExecInternal,
    ];
    let messages: Vec<String> = kinds.iter().map(|k| MyErr { kind: *k }.message()).collect();
    for (i, a) in messages.iter().enumerate() {
        assert!(!a.is_empty());
        for b in messages.iter().skip(i + 1) {
            assert_ne!(a, b);
        }
    }
}

#[test]
fn not_found_message_matches_lookup_failure() {
    let e = MyErr::new(ErrKind::CredentialNotFound);
    assert_eq!(e.message(), "not found");
}
