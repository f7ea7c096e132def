use rssh::errs::ErrKind;
use rssh::model::{HostInfo, LastChoose, Rdata, UserInfo};

fn sample_vault() -> Rdata {
    Rdata {
        current: vec![
            LastChoose { ip: String::from("0.0"), index: 2 },
            LastChoose { ip: String::from("192"), index: 1 },
        ],
        hosts: vec![
            HostInfo {
                ip: String::from("10.0.0.1"),
                users: vec![
                    UserInfo { username: String::from("root"), password: String::from("a") },
                    UserInfo { username: String::from("admin"), password: String::from("p w") },
                ],
            },
            HostInfo {
                ip: String::from("10.0.0.10"),
                users: vec![UserInfo {
                    username: String::from("root"),
                    password: String::from("b"),
                }],
            },
        ],
        pwd: String::from("secret"),
        version: 1,
    }
}

fn assert_same(a: &Rdata, b: &Rdata) {
    assert_eq!(a.pwd, b.pwd);
    assert_eq!(a.version, b.version);
    assert_eq!(a.hosts.len(), b.hosts.len());
    for (x, y) in a.hosts.iter().zip(b.hosts.iter()) {
        assert_eq!(x.ip, y.ip);
        assert_eq!(x.users.len(), y.users.len());
        for (u, v) in x.users.iter().zip(y.users.iter()) {
            assert_eq!(u.username, v.username);
            assert_eq!(u.password, v.password);
        }
    }
    assert_eq!(a.current.len(), b.current.len());
    for (x, y) in a.current.iter().zip(b.current.iter()) {
        assert_eq!(x.ip, y.ip);
        assert_eq!(x.index, y.index);
    }
}

#[test]
fn serialize_deserialize_round_trip() {
    let v = sample_vault();
    let bytes = v.serialize();
    let back = Rdata::deserialize(bytes.as_slice()).unwrap();
    assert_same(&v, &back);
}

#[test]
fn serialize_deserialize_round_trip_empty() {
    let v = Rdata::new("", 0);
    let bytes = v.serialize();
    let back = Rdata::deserialize(bytes.as_slice()).unwrap();
    assert_same(&v, &back);
}

#[test]
fn serialize_deserialize_unicode_strings() {
    let v = Rdata {
        current: vec![],
        hosts: vec![HostInfo {
            ip: String::from("h\u{00e9}te"),
            users: vec![UserInfo {
                username: String::from("\u{4e2d}\u{6587}"),
                password: String::from("p\u{1f511}"),
            }],
        }],
        pwd: String::from("\u{00fc}"),
        version: 0,
    };
    let bytes = v.serialize();
    let back = Rdata::deserialize(bytes.as_slice()).unwrap();
    assert_same(&v, &back);
}

#[test]
fn deserialize_rejects_garbage() {
    let err = Rdata::deserialize(&[1, 2, 3]).unwrap_err();
    assert_eq!(err.kind, ErrKind::SchemaError);
}

#[test]
fn deserialize_rejects_empty() {
    let err = Rdata::deserialize(&[]).unwrap_err();
    assert_eq!(err.kind, ErrKind::SchemaError);
}

#[test]
fn deserialize_rejects_trailing_bytes() {
    let v = Rdata::new("x", 0);
    let mut bytes = v.serialize();
    bytes.push(0);
    let err = Rdata::deserialize(bytes.as_slice()).unwrap_err();
    assert_eq!(err.kind, ErrKind::SchemaError);
}
