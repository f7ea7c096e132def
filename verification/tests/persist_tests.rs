use rssh::errs::ErrKind;
use rssh::model::Rdata;
use rssh::ops::set_password;
use rssh::persist::{load_from_content, VaultFile};

#[test]
fn init_then_load_round_trips() {
    let mut file = VaultFile::new();
    Rdata::init(&mut file, "secret", 0, true).unwrap();
    let v = Rdata::get(&file).unwrap();
    assert_eq!(v.pwd, "secret");
    assert_eq!(v.version, 0);
    assert_eq!(v.hosts.len(), 0);
}

#[test]
fn save_then_load_round_trips() {
    let mut file = VaultFile::new();
    let mut v = Rdata::new("secret", 1);
    set_password(&mut v, "10.0.0.1", "root", "a");
    v.save(&mut file, true).unwrap();
    let back = Rdata::get(&file).unwrap();
    assert_eq!(back.pwd, "secret");
    assert_eq!(back.version, 1);
    assert_eq!(back.hosts.len(), 1);
    assert_eq!(back.hosts[0].users[0].password, "a");
}

#[test]
fn failed_save_leaves_store_byte_identical() {
    let mut file = VaultFile::new();
    Rdata::init(&mut file, "secret", 0, true).unwrap();
    let before = file.read();

    let mut v = Rdata::get(&file).unwrap();
    set_password(&mut v, "10.0.0.1", "root", "a");
    let err = v.save(&mut file, false).unwrap_err();
    assert_eq!(err.kind, ErrKind::PersistenceError);
    assert_eq!(file.read(), before);

    // The old vault is still loadable and unchanged.
    let old = Rdata::get(&file).unwrap();
    assert_eq!(old.hosts.len(), 0);
}

#[test]
fn missing_vault_is_its_own_case() {
    let file = VaultFile::new();
    let err = Rdata::get(&file).unwrap_err();
    assert_eq!(err.kind, ErrKind::VaultNotFound);
    let err2 = load_from_content(&None).unwrap_err();
    assert_eq!(err2.kind, ErrKind::VaultNotFound);
}

#[test]
fn corrupted_store_is_rejected() {
    let err = load_from_content(&Some(String::from("&&&&"))).unwrap_err();
    assert_eq!(err.kind, ErrKind::DecodeError);
    let err2 = load_from_content(&Some(String::from("AAAA"))).unwrap_err();
    assert_eq!(err2.kind, ErrKind::CryptoError);
}

#[test]
fn wrong_build_content_fails_schema() {
    // Seal arbitrary bytes directly: they decrypt but do not parse as a
    // vault.
    let text = rssh::codec::seal(&[9, 9, 9, 9]);
    let err = load_from_content(&Some(text)).unwrap_err();
    assert_eq!(err.kind, ErrKind::SchemaError);
}

#[test]
fn reinitialize_overwrites_without_old_passphrase() {
    let mut file = VaultFile::new();
    Rdata::init(&mut file, "old-secret", 1, true).unwrap();
    Rdata::init(&mut file, "new-secret", 0, true).unwrap();
    let v = Rdata::get(&file).unwrap();
    assert_eq!(v.pwd, "new-secret");
    assert_eq!(v.version, 0);
}

#[test]
fn failed_init_leaves_store_untouched() {
    let mut file = VaultFile::new();
    Rdata::init(&mut file, "secret", 0, true).unwrap();
    let before = file.read();
    let err = Rdata::init(&mut file, "other", 1, false).unwrap_err();
    assert_eq!(err.kind, ErrKind::PersistenceError);
    assert_eq!(file.read(), before);
}

#[test]
fn full_scenario_init_add_resolve_export() {
    let mut file = VaultFile::new();
    Rdata::init(&mut file, "secret", 0, true).unwrap();
    let mut v = Rdata::get(&file).unwrap();
    set_password(&mut v, "192.168.1.5", "root", "hunter2");
    v.save(&mut file, true).unwrap();

    let loaded = Rdata::get(&file).unwrap();
    match rssh::resolve::resolve_query(&loaded, "192.168.1.5", "root") {
        rssh::resolve::Resolution::Found(p) => {
            assert_eq!(p.ip, "192.168.1.5");
            assert_eq!(p.user, "root");
            assert_eq!(p.password, "hunter2");
        }
        _ => panic!("expected a single credential"),
    }
    assert_eq!(loaded.export_pwd(), vec![String::from("192.168.1.5 root hunter2")]);
}
