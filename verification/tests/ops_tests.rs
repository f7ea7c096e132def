use rssh::errs::ErrKind;
use rssh::model::{HostInfo, Params, Pwd, Rdata, UserInfo};
use rssh::ops::{check_key, needs_passphrase, set_password};
use rssh::persist::VaultFile;

fn params_for(ip: &str, user: &str, password: &str) -> Params {
    Params {
        option: ' ',
        ip: String::from(ip),
        user: String::from(user),
        password: String::from(password),
        in_file: String::new(),
        key: String::new(),
        cmd: String::new(),
        file_path: String::new(),
        pwd: String::new(),
        version: 0,
    }
}

#[test]
fn upsert_creates_host_then_user_then_updates() {
    let mut v = Rdata::new("k", 0);
    set_password(&mut v, "10.0.0.1", "root", "a");
    assert_eq!(v.hosts.len(), 1);
    assert_eq!(v.hosts[0].ip, "10.0.0.1");
    assert_eq!(v.hosts[0].users.len(), 1);
    assert_eq!(v.hosts[0].users[0].username, "root");
    assert_eq!(v.hosts[0].users[0].password, "a");

    set_password(&mut v, "10.0.0.1", "admin", "b");
    assert_eq!(v.hosts.len(), 1);
    assert_eq!(v.hosts[0].users.len(), 2);
    assert_eq!(v.hosts[0].users[1].username, "admin");

    set_password(&mut v, "10.0.0.1", "root", "c");
    assert_eq!(v.hosts.len(), 1);
    assert_eq!(v.hosts[0].users.len(), 2);
    assert_eq!(v.hosts[0].users[0].password, "c");
}

#[test]
fn delete_last_credential_removes_host() {
    let mut v = Rdata::new("k", 0);
    set_password(&mut v, "10.0.0.1", "root", "a");
    let mut file = VaultFile::new();
    let p = params_for("10.0.0.1", "root", "");
    v.delete_pwd(&p, &mut file, true).unwrap();
    assert_eq!(v.hosts.len(), 0);
}

#[test]
fn delete_one_of_two_keeps_host() {
    let mut v = Rdata::new("k", 0);
    set_password(&mut v, "10.0.0.1", "root", "a");
    set_password(&mut v, "10.0.0.1", "admin", "b");
    let mut file = VaultFile::new();
    let p = params_for("10.0.0.1", "root", "");
    v.delete_pwd(&p, &mut file, true).unwrap();
    assert_eq!(v.hosts.len(), 1);
    assert_eq!(v.hosts[0].users.len(), 1);
    assert_eq!(v.hosts[0].users[0].username, "admin");
}

#[test]
fn delete_missing_pair_is_a_no_op() {
    let mut v = Rdata::new("k", 0);
    set_password(&mut v, "10.0.0.1", "root", "a");
    let mut file = VaultFile::new();
    let p = params_for("10.0.0.2", "root", "");
    v.delete_pwd(&p, &mut file, true).unwrap();
    assert_eq!(v.hosts.len(), 1);
    // Deletion uses exact matching only: a substring must not delete.
    let p2 = params_for("0.0.1", "root", "");
    v.delete_pwd(&p2, &mut file, true).unwrap();
    assert_eq!(v.hosts.len(), 1);
}

#[test]
fn import_is_all_or_nothing() {
    let mut v = Rdata::new("k", 0);
    let mut file = VaultFile::new();
    let lines = vec![
        String::from("10.0.0.1 root a"),
        String::from("malformed-line"),
        String::from("10.0.0.2 root b"),
    ];
    let before = file.read();
    let err = v.import_pwd(&lines, &mut file, true).unwrap_err();
    assert_eq!(err.kind, ErrKind::ImportFormatError);
    assert_eq!(v.hosts.len(), 0);
    assert_eq!(file.read(), before);
}

#[test]
fn import_applies_every_line_in_order() {
    let mut v = Rdata::new("k", 0);
    let mut file = VaultFile::new();
    let lines = vec![
        String::from("10.0.0.1 root a"),
        String::from("10.0.0.2 root b"),
        String::from("10.0.0.1 root c"),
    ];
    v.import_pwd(&lines, &mut file, true).unwrap();
    assert_eq!(v.hosts.len(), 2);
    assert_eq!(v.hosts[0].users[0].password, "c");
    assert_eq!(v.hosts[1].ip, "10.0.0.2");
    assert!(file.read().is_some());
}

#[test]
fn export_lists_credentials_in_stored_order() {
    let mut v = Rdata::new("k", 0);
    set_password(&mut v, "10.0.0.2", "root", "b");
    set_password(&mut v, "10.0.0.1", "root", "a");
    set_password(&mut v, "10.0.0.1", "admin", "c");
    let lines = v.export_pwd();
    assert_eq!(lines, vec![
        String::from("10.0.0.2 root b"),
        String::from("10.0.0.1 root a"),
        String::from("10.0.0.1 admin c"),
    ]);
}

#[test]
fn get_user_lists_exact_address_only() {
    let mut v = Rdata::new("k", 0);
    set_password(&mut v, "10.0.0.1", "root", "a");
    set_password(&mut v, "10.0.0.1", "admin", "b");
    set_password(&mut v, "10.0.0.10", "backup", "c");
    assert_eq!(v.get_user("10.0.0.1"), vec![
        String::from("root"),
        String::from("admin"),
    ]);
    assert_eq!(v.get_user("0.0.1"), Vec::<String>::new());
}

#[test]
fn change_password_updates_and_saves() {
    let mut v = Rdata::new("k", 0);
    let mut file = VaultFile::new();
    let p = params_for("10.0.0.1", "root", "new");
    Pwd::change_password(&mut v, &p, &mut file, true).unwrap();
    assert_eq!(v.hosts[0].users[0].password, "new");
    assert!(file.read().is_some());
}

#[test]
fn policy_gate_by_operation() {
    // Privileged operations need the passphrase under every policy level.
    for op in ['c', 'l', 'e', 'd', 'k'] {
        assert!(needs_passphrase(0, op));
        assert!(needs_passphrase(1, op));
    }
    // Read and login operations need it exactly under level one.
    for op in ['g', 'p', ' '] {
        assert!(!needs_passphrase(0, op));
        assert!(needs_passphrase(1, op));
    }
}

#[test]
fn key_check_is_exact() {
    assert!(check_key("secret", "secret"));
    assert!(!check_key("secret", "Secret"));
    assert!(!check_key("", "secret"));
}

#[test]
fn host_with_password_containing_space_exports_and_reimports() {
    // Export renders fields space-separated, so a password with a space
    // does not survive a re-import as one field; the import must still
    // reject the line outright rather than silently truncate.
    let mut v = Rdata::new("k", 0);
    set_password(&mut v, "10.0.0.1", "root", "p w");
    let lines = v.export_pwd();
    assert_eq!(lines, vec![String::from("10.0.0.1 root p w")]);
    let mut v2 = Rdata::new("k", 0);
    let mut file = VaultFile::new();
    let err = v2.import_pwd(&lines, &mut file, true).unwrap_err();
    assert_eq!(err.kind, ErrKind::ImportFormatError);
}

#[test]
fn vault_model_fields() {
    let v = Rdata::new("secret", 1);
    assert_eq!(v.pwd, "secret");
    assert_eq!(v.version, 1);
    assert_eq!(v.hosts.len(), 0);
    assert_eq!(v.current.len(), 0);
    let h = HostInfo { ip: String::from("h"), users: vec![] };
    assert_eq!(h.users.len(), 0);
    let u = UserInfo { username: String::from("u"), password: String::from("p") };
    assert_eq!(u.username, "u");
}
