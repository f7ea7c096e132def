//! The in-memory vault model: hosts, their credentials, the remembered
//! disambiguation choices, and the gatekeeper passphrase with its policy
//! level.

use vstd::prelude::*;

verus! {

/// A username/password pair stored under a host.
#[derive(Debug)]
pub struct UserInfo {
    pub username: String,
    pub password: String,
}

/// The mathematical value of a [`UserInfo`].
pub struct UserV {
    pub username: Seq<char>,
    pub password: Seq<char>,
}

impl View for UserInfo {
    type V = UserV;

    open spec fn view(&self) -> UserV {
        UserV { username: self.username@, password: self.password@ }
    }
}

/// A stored network address together with its credentials.
#[derive(Debug)]
pub struct HostInfo {
    pub ip: String,
    pub users: Vec<UserInfo>,
}

/// The mathematical value of a [`HostInfo`].
pub struct HostV {
    pub ip: Seq<char>,
    pub users: Seq<UserV>,
}

impl View for HostInfo {
    type V = HostV;

    open spec fn view(&self) -> HostV {
        HostV { ip: self.ip@, users: self.users@.map_values(|u: UserInfo| u@) }
    }
}

/// The remembered disambiguation answer for one fuzzy query string: which
/// numbered candidate (1-based) was picked last time.
#[derive(Debug)]
pub struct LastChoose {
    pub ip: String,
    pub index: usize,
}

/// The mathematical value of a [`LastChoose`].
pub struct ChooseV {
    pub ip: Seq<char>,
    pub index: usize,
}

impl View for LastChoose {
    type V = ChooseV;

    open spec fn view(&self) -> ChooseV {
        ChooseV { ip: self.ip@, index: self.index }
    }
}

/// The complete vault: hosts, remembered choices, the gatekeeper passphrase
/// and the policy level (0: only privileged operations need the passphrase;
/// 1: every operation does).
#[derive(Debug)]
pub struct Rdata {
    pub current: Vec<LastChoose>,
    pub hosts: Vec<HostInfo>,
    pub pwd: String,
    pub version: u8,
}

/// The mathematical value of an [`Rdata`].
pub struct RdataV {
    pub current: Seq<ChooseV>,
    pub hosts: Seq<HostV>,
    pub pwd: Seq<char>,
    pub version: u8,
}

impl View for Rdata {
    type V = RdataV;

    open spec fn view(&self) -> RdataV {
        RdataV {
            current: self.current@.map_values(|c: LastChoose| c@),
            hosts: self.hosts@.map_values(|h: HostInfo| h@),
            pwd: self.pwd@,
            version: self.version,
        }
    }
}

impl HostV {
    /// A well-formed host holds at least one credential and no two
    /// credentials with the same username.
    pub open spec fn wf(self) -> bool {
        &&& self.users.len() >= 1
        &&& forall|a: int, b: int|
            0 <= a < b < self.users.len() ==> self.users[a].username != self.users[b].username
    }
}

impl RdataV {
    /// Host addresses are unique within the vault.
    pub open spec fn host_ips_unique(self) -> bool {
        forall|i: int, j: int|
            0 <= i < j < self.hosts.len() ==> self.hosts[i].ip != self.hosts[j].ip
    }

    /// The vault invariant: unique host addresses, well-formed hosts, at most
    /// one remembered choice per query string, and every remembered index
    /// 1-based.
    pub open spec fn wf(self) -> bool {
        &&& self.host_ips_unique()
        &&& forall|i: int| 0 <= i < self.hosts.len() ==> (#[trigger] self.hosts[i]).wf()
        &&& forall|i: int, j: int|
            0 <= i < j < self.current.len() ==> self.current[i].ip != self.current[j].ip
        &&& forall|i: int| 0 <= i < self.current.len() ==> (#[trigger] self.current[i]).index >= 1
    }
}

/// The fresh empty vault that initialization creates.
pub open spec fn fresh_vault(pwd: Seq<char>, version: u8) -> RdataV {
    RdataV { current: Seq::<ChooseV>::empty(), hosts: Seq::<HostV>::empty(), pwd, version }
}

impl Rdata {
    /// A fresh, empty vault with the given gatekeeper passphrase and policy
    /// level.
    pub fn new(pwd: &str, version: u8) -> (r: Rdata)
        ensures
            r@ == fresh_vault(pwd@, version),
            r@.wf(),
    {
        let r = Rdata { current: Vec::new(), hosts: Vec::new(), pwd: String::from_str(pwd), version };
        proof {
            assert(r@.current =~= Seq::<ChooseV>::empty());
            assert(r@.hosts =~= Seq::<HostV>::empty());
        }
        r
    }
}

/// A resolved credential: the address, username and password to use.
#[derive(Debug)]
pub struct Pwd {
    pub ip: String,
    pub user: String,
    pub password: String,
}

/// The parsed invocation parameters handed to the vault core by its caller.
/// Argument parsing itself is an external collaborator; this is pure data.
pub struct Params {
    pub option: char,
    pub ip: String,
    pub user: String,
    pub password: String,
    pub in_file: String,
    pub key: String,
    pub cmd: String,
    pub file_path: String,
    pub pwd: String,
    pub version: u8,
}

} // verus!
