//! Vault operations: add/update, delete, import, export, list, passphrase
//! change, and the policy gate that says which operations need the
//! gatekeeper passphrase.

use vstd::prelude::*;
use vstd::string::StringExecFns;

use crate::errs::{ErrKind, MyErr};
use crate::lookup::{find_host, find_user, get_password, lemma_find_host, lemma_find_user};
use crate::model::{HostInfo, HostV, Params, Pwd, Rdata, RdataV, UserInfo, UserV};
use crate::persist::{sealed_of, VaultFile};
use crate::text::{line_fields, render_line, split3, views_of};

verus! {

/// The vault after adding or updating one credential: if no host has the
/// address, a new host with that one credential is appended; if the host
/// exists but the username does not, the credential is appended to it; if
/// both exist, that credential's password is replaced.
pub open spec fn spec_upsert(
    v: RdataV,
    ip: Seq<char>,
    user: Seq<char>,
    password: Seq<char>,
) -> RdataV {
    let hi = find_host(v.hosts, ip);
    if hi == -1 {
        RdataV {
            current: v.current,
            hosts: v.hosts.push(HostV { ip, users: seq![UserV { username: user, password }] }),
            pwd: v.pwd,
            version: v.version,
        }
    } else {
        let h = v.hosts[hi];
        let ui = find_user(h.users, user);
        if ui == -1 {
            RdataV {
                current: v.current,
                hosts: v.hosts.update(
                    hi,
                    HostV { ip: h.ip, users: h.users.push(UserV { username: user, password }) },
                ),
                pwd: v.pwd,
                version: v.version,
            }
        } else {
            RdataV {
                current: v.current,
                hosts: v.hosts.update(
                    hi,
                    HostV { ip: h.ip, users: h.users.update(ui, UserV { username: user, password }) },
                ),
                pwd: v.pwd,
                version: v.version,
            }
        }
    }
}

/// The vault after deleting one credential, located by exact match only: a
/// host losing its last credential is removed entirely; a missing pair
/// leaves the vault unchanged.
pub open spec fn spec_delete(v: RdataV, ip: Seq<char>, user: Seq<char>) -> RdataV {
    let hi = find_host(v.hosts, ip);
    if hi == -1 {
        v
    } else {
        let h = v.hosts[hi];
        let ui = find_user(h.users, user);
        if ui == -1 {
            v
        } else if h.users.len() == 1 {
            RdataV {
                current: v.current,
                hosts: v.hosts.remove(hi),
                pwd: v.pwd,
                version: v.version,
            }
        } else {
            RdataV {
                current: v.current,
                hosts: v.hosts.update(hi, HostV { ip: h.ip, users: h.users.remove(ui) }),
                pwd: v.pwd,
                version: v.version,
            }
        }
    }
}

/// Adds or updates one credential in place.
pub fn set_password(data: &mut Rdata, ip: &str, user: &str, password: &str)
    requires
        old(data)@.hosts.len() <= i32::MAX,
        forall|i: int|
            0 <= i < old(data)@.hosts.len() ==> (#[trigger] old(data)@.hosts[i]).users.len()
                <= i32::MAX,
    ensures
        final(data)@ == spec_upsert(old(data)@, ip@, user@, password@),
{
    let (i, j) = get_password(data, ip, user);
    if i == -1 {
        let mut users: Vec<UserInfo> = Vec::new();
        users.push(
            UserInfo { username: String::from_str(user), password: String::from_str(password) },
        );
        let h = HostInfo { ip: String::from_str(ip), users };
        proof {
            assert(h@.users =~= seq![UserV { username: user@, password: password@ }]);
        }
        data.hosts.push(h);
        proof {
            assert(data@.hosts =~= old(data)@.hosts.push(h@));
            assert(data@.current =~= old(data)@.current);
        }
    } else if j == -1 {
        proof {
            lemma_find_host(old(data)@.hosts, ip@);
        }
        let iu = i as usize;
        let u = UserInfo { username: String::from_str(user), password: String::from_str(password) };
        data.hosts[iu].users.push(u);
        proof {
            let hi = find_host(old(data)@.hosts, ip@);
            let h = old(data)@.hosts[hi];
            assert(data@.hosts[hi].users =~= h.users.push(
                UserV { username: user@, password: password@ },
            ));
            assert(data@.hosts =~= old(data)@.hosts.update(
                hi,
                HostV {
                    ip: h.ip,
                    users: h.users.push(UserV { username: user@, password: password@ }),
                },
            ));
            assert(data@.current =~= old(data)@.current);
        }
    } else {
        proof {
            lemma_find_host(old(data)@.hosts, ip@);
            lemma_find_user(
                old(data)@.hosts[find_host(old(data)@.hosts, ip@)].users,
                user@,
            );
        }
        let iu = i as usize;
        let ju = j as usize;
        data.hosts[iu].users[ju].password = String::from_str(password);
        proof {
            let hi = find_host(old(data)@.hosts, ip@);
            let h = old(data)@.hosts[hi];
            let ui = find_user(h.users, user@);
            lemma_find_user(h.users, user@);
            assert(data@.hosts[hi].users =~= h.users.update(
                ui,
                UserV { username: user@, password: password@ },
            ));
            assert(data@.hosts =~= old(data)@.hosts.update(
                hi,
                HostV {
                    ip: h.ip,
                    users: h.users.update(ui, UserV { username: user@, password: password@ }),
                },
            ));
            assert(data@.current =~= old(data)@.current);
        }
    }
}

/// Adding or updating a credential preserves the vault invariant.
pub proof fn lemma_upsert_preserves_wf(v: RdataV, ip: Seq<char>, user: Seq<char>, pw: Seq<char>)
    requires
        v.wf(),
    ensures
        spec_upsert(v, ip, user, pw).wf(),
{
    let r = spec_upsert(v, ip, user, pw);
    let hi = find_host(v.hosts, ip);
    lemma_find_host(v.hosts, ip);
    if hi == -1 {
        assert forall|a: int, b: int| 0 <= a < b < r.hosts.len() implies r.hosts[a].ip
            != r.hosts[b].ip by {
            if b == v.hosts.len() {
                assert(r.hosts[a] == v.hosts[a]);
                assert(r.hosts[b].ip == ip);
            } else {
                assert(r.hosts[a] == v.hosts[a]);
                assert(r.hosts[b] == v.hosts[b]);
            }
        }
        assert forall|a: int| 0 <= a < r.hosts.len() implies (#[trigger] r.hosts[a]).wf() by {
            if a < v.hosts.len() {
                assert(r.hosts[a] == v.hosts[a]);
            } else {
                assert(r.hosts[a].users =~= seq![UserV { username: user, password: pw }]);
            }
        }
    } else {
        let h = v.hosts[hi];
        let ui = find_user(h.users, user);
        lemma_find_user(h.users, user);
        let h2 = r.hosts[hi];
        assert forall|a: int, b: int| 0 <= a < b < r.hosts.len() implies r.hosts[a].ip
            != r.hosts[b].ip by {
            assert(r.hosts[a].ip == v.hosts[a].ip);
            assert(r.hosts[b].ip == v.hosts[b].ip);
        }
        assert forall|a: int| 0 <= a < r.hosts.len() implies (#[trigger] r.hosts[a]).wf() by {
            if a != hi {
                assert(r.hosts[a] == v.hosts[a]);
            } else {
                assert(h.wf());
                if ui == -1 {
                    assert forall|x: int, y: int|
                        0 <= x < y < h2.users.len() implies h2.users[x].username
                        != h2.users[y].username by {
                        if y == h.users.len() {
                            assert(h2.users[x] == h.users[x]);
                            assert(h2.users[y].username == user);
                        } else {
                            assert(h2.users[x] == h.users[x]);
                            assert(h2.users[y] == h.users[y]);
                        }
                    }
                } else {
                    assert forall|x: int, y: int|
                        0 <= x < y < h2.users.len() implies h2.users[x].username
                        != h2.users[y].username by {
                        assert(h2.users[x].username == h.users[x].username);
                        assert(h2.users[y].username == h.users[y].username);
                    }
                }
            }
        }
    }
}

/// Deleting a credential preserves the vault invariant; in particular a host
/// never survives with zero credentials.
pub proof fn lemma_delete_preserves_wf(v: RdataV, ip: Seq<char>, user: Seq<char>)
    requires
        v.wf(),
    ensures
        spec_delete(v, ip, user).wf(),
{
    let r = spec_delete(v, ip, user);
    let hi = find_host(v.hosts, ip);
    lemma_find_host(v.hosts, ip);
    if hi != -1 {
        let h = v.hosts[hi];
        let ui = find_user(h.users, user);
        lemma_find_user(h.users, user);
        if ui != -1 {
            if h.users.len() == 1 {
                assert forall|a: int, b: int| 0 <= a < b < r.hosts.len() implies r.hosts[a].ip
                    != r.hosts[b].ip by {
                    let a0 = if a < hi {
                        a
                    } else {
                        a + 1
                    };
                    let b0 = if b < hi {
                        b
                    } else {
                        b + 1
                    };
                    assert(r.hosts[a] == v.hosts[a0]);
                    assert(r.hosts[b] == v.hosts[b0]);
                }
                assert forall|a: int| 0 <= a < r.hosts.len() implies (#[trigger] r.hosts[a]).wf() by {
                    let a0 = if a < hi {
                        a
                    } else {
                        a + 1
                    };
                    assert(r.hosts[a] == v.hosts[a0]);
                }
            } else {
                let h2 = r.hosts[hi];
                assert forall|a: int, b: int| 0 <= a < b < r.hosts.len() implies r.hosts[a].ip
                    != r.hosts[b].ip by {
                    assert(r.hosts[a].ip == v.hosts[a].ip);
                    assert(r.hosts[b].ip == v.hosts[b].ip);
                }
                assert forall|a: int| 0 <= a < r.hosts.len() implies (#[trigger] r.hosts[a]).wf() by {
                    if a != hi {
                        assert(r.hosts[a] == v.hosts[a]);
                    } else {
                        assert(h.wf());
                        assert forall|x: int, y: int|
                            0 <= x < y < h2.users.len() implies h2.users[x].username
                            != h2.users[y].username by {
                            let x0 = if x < ui {
                                x
                            } else {
                                x + 1
                            };
                            let y0 = if y < ui {
                                y
                            } else {
                                y + 1
                            };
                            assert(h2.users[x] == h.users[x0]);
                            assert(h2.users[y] == h.users[y0]);
                        }
                    }
                }
            }
        }
    }
}

impl Rdata {
    /// Deletes one credential, located by exact match only; a host losing
    /// its last credential is removed whole.  A missing pair is a no-op, not
    /// an error.  Always followed by a save.
    pub fn delete_pwd(&mut self, params: &Params, file: &mut VaultFile, write_ok: bool) -> (r:
        Result<(), MyErr>)
        requires
            old(self)@.hosts.len() <= i32::MAX,
            forall|i: int|
                0 <= i < old(self)@.hosts.len() ==> (#[trigger] old(self)@.hosts[i]).users.len()
                    <= i32::MAX,
        ensures
            final(self)@ == spec_delete(old(self)@, params.ip@, params.user@),
            write_ok ==> r is Ok && final(file).spec_content() == Some(
                sealed_of(spec_delete(old(self)@, params.ip@, params.user@)),
            ),
            !write_ok ==> r == Result::<(), MyErr>::Err(MyErr { kind: ErrKind::PersistenceError })
                && *final(file) == *old(file),
    {
        let (x, y) = get_password(self, params.ip.as_str(), params.user.as_str());
        proof {
            lemma_find_host(old(self)@.hosts, params.ip@);
            if find_host(old(self)@.hosts, params.ip@) != -1 {
                lemma_find_user(
                    old(self)@.hosts[find_host(old(self)@.hosts, params.ip@)].users,
                    params.user@,
                );
            }
        }
        if x != -1 && y != -1 {
            let xu = x as usize;
            if self.hosts[xu].users.len() == 1 {
                self.hosts.remove(xu);
                proof {
                    assert(self@.hosts =~= old(self)@.hosts.remove(x as int));
                    assert(self@.current =~= old(self)@.current);
                }
            } else {
                let yu = y as usize;
                self.hosts[xu].users.remove(yu);
                proof {
                    let h = old(self)@.hosts[x as int];
                    assert(self@.hosts[x as int].users =~= h.users.remove(y as int));
                    assert(self@.hosts =~= old(self)@.hosts.update(
                        x as int,
                        HostV { ip: h.ip, users: h.users.remove(y as int) },
                    ));
                    assert(self@.current =~= old(self)@.current);
                }
            }
        }
        self.save(file, write_ok)
    }
}

/// The usernames of the first `j` credentials.
pub open spec fn user_names(users: Seq<UserV>, j: int) -> Seq<Seq<char>>
    decreases j,
{
    if j <= 0 {
        Seq::<Seq<char>>::empty()
    } else {
        user_names(users, j - 1).push(users[j - 1].username)
    }
}

/// The usernames listed for address `ip` over the first `i` hosts: those of
/// every host whose address equals the query exactly (not fuzzily).
pub open spec fn listed_users(hosts: Seq<HostV>, ip: Seq<char>, i: int) -> Seq<Seq<char>>
    decreases i,
{
    if i <= 0 {
        Seq::<Seq<char>>::empty()
    } else {
        listed_users(hosts, ip, i - 1) + (if hosts[i - 1].ip == ip {
            user_names(hosts[i - 1].users, hosts[i - 1].users.len() as int)
        } else {
            Seq::<Seq<char>>::empty()
        })
    }
}

/// The export lines of the first `j` credentials of one host.
pub open spec fn host_lines(ip: Seq<char>, users: Seq<UserV>, j: int) -> Seq<Seq<char>>
    decreases j,
{
    if j <= 0 {
        Seq::<Seq<char>>::empty()
    } else {
        host_lines(ip, users, j - 1).push(
            render_line(ip, users[j - 1].username, users[j - 1].password),
        )
    }
}

/// The export lines of the first `i` hosts: one `address username password`
/// line per credential, hosts and credentials in stored order.
pub open spec fn export_lines(hosts: Seq<HostV>, i: int) -> Seq<Seq<char>>
    decreases i,
{
    if i <= 0 {
        Seq::<Seq<char>>::empty()
    } else {
        export_lines(hosts, i - 1) + host_lines(
            hosts[i - 1].ip,
            hosts[i - 1].users,
            hosts[i - 1].users.len() as int,
        )
    }
}

impl Rdata {
    /// Lists the usernames of every host whose address equals the query
    /// exactly.
    pub fn get_user(&self, ip: &str) -> (r: Vec<String>)
        ensures
            views_of(r@) == listed_users(self@.hosts, ip@, self@.hosts.len() as int),
    {
        let ip_s = String::from_str(ip);
        let mut out: Vec<String> = Vec::new();
        proof {
            assert(views_of(out@) =~= Seq::<Seq<char>>::empty());
        }
        let n = self.hosts.len();
        let mut i: usize = 0;
        while i < n
            invariant
                n == self.hosts@.len(),
                self@.hosts.len() == n,
                self@.hosts == self.hosts@.map_values(|h: HostInfo| h@),
                ip_s@ == ip@,
                i <= n,
                views_of(out@) == listed_users(self@.hosts, ip@, i as int),
            decreases n - i,
        {
            if self.hosts[i].ip.eq(&ip_s) {
                let ghost base = views_of(out@);
                let ghost usersv = self@.hosts[i as int].users;
                let m = self.hosts[i].users.len();
                let mut j: usize = 0;
                while j < m
                    invariant
                        0 <= i < self@.hosts.len(),
                        m == self.hosts@[i as int].users@.len(),
                        usersv == self@.hosts[i as int].users,
                        usersv.len() == m,
                        usersv == self.hosts@[i as int].users@.map_values(|u: UserInfo| u@),
                        self@.hosts == self.hosts@.map_values(|h: HostInfo| h@),
                        j <= m,
                        views_of(out@) == base + user_names(usersv, j as int),
                    decreases m - j,
                {
                    let ghost before = out@;
                    let uname = self.hosts[i].users[j].username.clone();
                    proof {
                        assert(uname@ == usersv[j as int].username);
                    }
                    out.push(uname);
                    proof {
                        assert(views_of(out@) =~= views_of(before).push(
                            usersv[j as int].username,
                        ));
                        assert(user_names(usersv, j + 1 as int) == user_names(
                            usersv,
                            j as int,
                        ).push(usersv[j as int].username));
                        assert(views_of(out@) =~= base + user_names(usersv, j + 1 as int));
                    }
                    j += 1;
                }
                proof {
                    assert(usersv =~= self@.hosts[i as int].users);
                    assert(views_of(out@) =~= listed_users(self@.hosts, ip@, i + 1 as int));
                }
            } else {
                proof {
                    assert(views_of(out@) =~= listed_users(self@.hosts, ip@, i + 1 as int));
                }
            }
            i += 1;
        }
        out
    }

    /// Produces the export lines: one `address username password` line per
    /// credential, hosts and credentials in their stored order.  A pure
    /// read; writing them anywhere is the caller's business.
    pub fn export_pwd(&self) -> (r: Vec<String>)
        ensures
            views_of(r@) == export_lines(self@.hosts, self@.hosts.len() as int),
    {
        let mut out: Vec<String> = Vec::new();
        proof {
            assert(views_of(out@) =~= Seq::<Seq<char>>::empty());
        }
        let n = self.hosts.len();
        let mut i: usize = 0;
        while i < n
            invariant
                n == self.hosts@.len(),
                self@.hosts.len() == n,
                self@.hosts == self.hosts@.map_values(|h: HostInfo| h@),
                i <= n,
                views_of(out@) == export_lines(self@.hosts, i as int),
            decreases n - i,
        {
            let ghost base = views_of(out@);
            let ghost usersv = self@.hosts[i as int].users;
            let m = self.hosts[i].users.len();
            let mut j: usize = 0;
            while j < m
                invariant
                    0 <= i < self@.hosts.len(),
                    m == self.hosts@[i as int].users@.len(),
                    usersv == self@.hosts[i as int].users,
                    usersv.len() == m,
                    usersv == self.hosts@[i as int].users@.map_values(|u: UserInfo| u@),
                    self@.hosts == self.hosts@.map_values(|h: HostInfo| h@),
                    j <= m,
                    views_of(out@) == base + host_lines(self@.hosts[i as int].ip, usersv, j as int),
                decreases m - j,
            {
                let ghost before = out@;
                let line = crate::text::render_cred(
                    &self.hosts[i].ip,
                    &self.hosts[i].users[j].username,
                    &self.hosts[i].users[j].password,
                );
                proof {
                    assert(line@ == render_line(
                        self@.hosts[i as int].ip,
                        usersv[j as int].username,
                        usersv[j as int].password,
                    ));
                }
                out.push(line);
                proof {
                    assert(views_of(out@) =~= views_of(before).push(line@));
                    assert(host_lines(self@.hosts[i as int].ip, usersv, j + 1 as int)
                        == host_lines(self@.hosts[i as int].ip, usersv, j as int).push(
                        render_line(
                            self@.hosts[i as int].ip,
                            usersv[j as int].username,
                            usersv[j as int].password,
                        ),
                    ));
                    assert(views_of(out@) =~= base + host_lines(
                        self@.hosts[i as int].ip,
                        usersv,
                        j + 1 as int,
                    ));
                }
                j += 1;
            }
            proof {
                assert(views_of(out@) =~= export_lines(self@.hosts, i + 1 as int));
            }
            i += 1;
        }
        out
    }
}

/// Every import line has the required `address username password` shape.
pub open spec fn lines_ok(lines: Seq<Seq<char>>) -> bool {
    forall|i: int| 0 <= i < lines.len() ==> line_fields(#[trigger] lines[i]) is Some
}

/// The vault after importing the first `i` lines, each applied as an
/// add-or-update in order; a malformed line leaves the fold unchanged (the
/// operation itself rejects such input before applying anything).
pub open spec fn import_fold(v: RdataV, lines: Seq<Seq<char>>, i: int) -> RdataV
    decreases i,
{
    if i <= 0 {
        v
    } else {
        let prev = import_fold(v, lines, i - 1);
        match line_fields(lines[i - 1]) {
            Some(f) => spec_upsert(prev, f.0, f.1, f.2),
            None => prev,
        }
    }
}

/// Importing any number of well-shaped lines preserves the vault invariant.
pub proof fn lemma_import_fold_preserves_wf(v: RdataV, lines: Seq<Seq<char>>, i: int)
    requires
        v.wf(),
        0 <= i,
    ensures
        import_fold(v, lines, i).wf(),
    decreases i,
{
    if i > 0 {
        lemma_import_fold_preserves_wf(v, lines, i - 1);
        let prev = import_fold(v, lines, i - 1);
        match line_fields(lines[i - 1]) {
            Some(f) => {
                lemma_upsert_preserves_wf(prev, f.0, f.1, f.2);
            },
            None => {},
        }
    }
}

proof fn lemma_upsert_bounds(v: RdataV, ip: Seq<char>, user: Seq<char>, pw: Seq<char>, b: int)
    requires
        forall|t: int| 0 <= t < v.hosts.len() ==> (#[trigger] v.hosts[t]).users.len() <= b,
        b >= 0,
    ensures
        spec_upsert(v, ip, user, pw).hosts.len() <= v.hosts.len() + 1,
        forall|t: int|
            0 <= t < spec_upsert(v, ip, user, pw).hosts.len() ==> (#[trigger] spec_upsert(
                v,
                ip,
                user,
                pw,
            ).hosts[t]).users.len() <= b + 1,
{
    let r = spec_upsert(v, ip, user, pw);
    let hi = find_host(v.hosts, ip);
    lemma_find_host(v.hosts, ip);
    assert forall|t: int| 0 <= t < r.hosts.len() implies (#[trigger] r.hosts[t]).users.len() <= b
        + 1 by {
        if hi == -1 && t == v.hosts.len() {
            assert(r.hosts[t].users.len() == 1);
        } else if hi != -1 && t == hi {
            assert(v.hosts[hi].users.len() <= b);
            let h = v.hosts[hi];
            let ui = find_user(h.users, user);
            lemma_find_user(h.users, user);
            if ui == -1 {
                assert(r.hosts[t].users.len() == h.users.len() + 1);
            } else {
                assert(r.hosts[t].users.len() == h.users.len());
            }
        } else {
            assert(r.hosts[t] == v.hosts[t]);
        }
    }
}

proof fn lemma_import_fold_bounds(v: RdataV, lines: Seq<Seq<char>>, i: int, b: int)
    requires
        0 <= i,
        b >= 0,
        forall|t: int| 0 <= t < v.hosts.len() ==> (#[trigger] v.hosts[t]).users.len() <= b,
    ensures
        import_fold(v, lines, i).hosts.len() <= v.hosts.len() + i,
        forall|t: int|
            0 <= t < import_fold(v, lines, i).hosts.len() ==> (#[trigger] import_fold(
                v,
                lines,
                i,
            ).hosts[t]).users.len() <= b + i,
    decreases i,
{
    if i > 0 {
        lemma_import_fold_bounds(v, lines, i - 1, b);
        let prev = import_fold(v, lines, i - 1);
        match line_fields(lines[i - 1]) {
            Some(f) => {
                lemma_upsert_bounds(prev, f.0, f.1, f.2, b + i - 1);
            },
            None => {},
        }
    }
}

impl Rdata {
    /// Imports credentials from `address username password` lines.  Every
    /// line is validated before anything is applied: one malformed line
    /// fails the whole import with `ImportFormatError` and leaves the vault
    /// and the store untouched.  Otherwise each line is applied as an
    /// add-or-update, in order, followed by one save.
    pub fn import_pwd(&mut self, lines: &Vec<String>, file: &mut VaultFile, write_ok: bool) -> (r:
        Result<(), MyErr>)
        requires
            old(self)@.hosts.len() + lines@.len() <= i32::MAX,
            forall|i: int|
                0 <= i < old(self)@.hosts.len() ==> (#[trigger] old(self)@.hosts[i]).users.len()
                    + lines@.len() < i32::MAX,
            forall|i: int| 0 <= i < lines@.len() ==> (#[trigger] lines@[i])@.len() <= i64::MAX,
        ensures
            !lines_ok(views_of(lines@)) ==> r == Result::<(), MyErr>::Err(
                MyErr { kind: ErrKind::ImportFormatError },
            ) && *final(self) == *old(self) && *final(file) == *old(file),
            lines_ok(views_of(lines@)) ==> {
                &&& final(self)@ == import_fold(
                    old(self)@,
                    views_of(lines@),
                    lines@.len() as int,
                )
                &&& (write_ok ==> r is Ok && final(file).spec_content() == Some(
                    sealed_of(import_fold(old(self)@, views_of(lines@), lines@.len() as int)),
                ))
                &&& (!write_ok ==> r == Result::<(), MyErr>::Err(
                    MyErr { kind: ErrKind::PersistenceError },
                ) && *final(file) == *old(file))
            },
    {
        let n = lines.len();
        let mut fields: Vec<(String, String, String)> = Vec::new();
        let mut i: usize = 0;
        while i < n
            invariant
                n == lines@.len(),
                i <= n,
                forall|t: int| 0 <= t < lines@.len() ==> (#[trigger] lines@[t])@.len() <= i64::MAX,
                fields@.len() == i,
                forall|t: int|
                    0 <= t < i ==> line_fields(views_of(lines@)[t]) == Some(
                        (
                            (#[trigger] fields@[t]).0@,
                            fields@[t].1@,
                            fields@[t].2@,
                        ),
                    ),
            decreases n - i,
        {
            match split3(lines[i].as_str()) {
                Some(t) => {
                    fields.push(t);
                },
                None => {
                    assert(line_fields(views_of(lines@)[i as int]) is None);
                    return Err(MyErr { kind: ErrKind::ImportFormatError });
                },
            }
            i += 1;
        }
        let ghost linesv = views_of(lines@);
        proof {
            assert forall|t: int| 0 <= t < linesv.len() implies line_fields(
                #[trigger] linesv[t],
            ) is Some by {
                assert(line_fields(linesv[t]) == Some(
                    (fields@[t].0@, fields@[t].1@, fields@[t].2@),
                ));
            }
            assert(lines_ok(linesv));
        }
        let ghost v0 = self@;
        let mut k: usize = 0;
        while k < n
            invariant
                n == lines@.len(),
                k <= n,
                linesv == views_of(lines@),
                v0.hosts.len() + n <= i32::MAX,
                forall|t: int|
                    0 <= t < v0.hosts.len() ==> (#[trigger] v0.hosts[t]).users.len() + n
                        < i32::MAX,
                fields@.len() == n,
                forall|t: int|
                    0 <= t < n ==> line_fields(linesv[t]) == Some(
                        ((#[trigger] fields@[t]).0@, fields@[t].1@, fields@[t].2@),
                    ),
                self@ == import_fold(v0, linesv, k as int),
            decreases n - k,
        {
            proof {
                lemma_import_fold_bounds(v0, linesv, k as int, i32::MAX - n as int);
            }
            let f = &fields[k];
            set_password(self, f.0.as_str(), f.1.as_str(), f.2.as_str());
            k += 1;
        }
        self.save(file, write_ok)
    }
}

impl Pwd {
    /// Adds or updates the credential named by the parameters, then saves.
    pub fn change_password(data: &mut Rdata, params: &Params, file: &mut VaultFile, write_ok: bool) -> (r:
        Result<(), MyErr>)
        requires
            old(data)@.hosts.len() <= i32::MAX,
            forall|i: int|
                0 <= i < old(data)@.hosts.len() ==> (#[trigger] old(data)@.hosts[i]).users.len()
                    <= i32::MAX,
        ensures
            final(data)@ == spec_upsert(old(data)@, params.ip@, params.user@, params.password@),
            write_ok ==> r is Ok && final(file).spec_content() == Some(
                sealed_of(spec_upsert(old(data)@, params.ip@, params.user@, params.password@)),
            ),
            !write_ok ==> r == Result::<(), MyErr>::Err(MyErr { kind: ErrKind::PersistenceError })
                && *final(file) == *old(file),
    {
        set_password(data, params.ip.as_str(), params.user.as_str(), params.password.as_str());
        data.save(file, write_ok)
    }
}

/// Whether an operation requires the gatekeeper passphrase under the given
/// policy level: the privileged operations — add/update, import, export,
/// delete and passphrase change — always do; read and login operations
/// (password read, listing, login) do exactly under policy level one.
pub open spec fn spec_needs_passphrase(version: u8, option: char) -> bool {
    if option == 'c' || option == 'l' || option == 'e' || option == 'd' || option == 'k' {
        true
    } else {
        version == 1
    }
}

/// Decides whether the given operation needs the gatekeeper passphrase.
pub fn needs_passphrase(version: u8, option: char) -> (r: bool)
    ensures
        r == spec_needs_passphrase(version, option),
{
    if option == 'c' || option == 'l' || option == 'e' || option == 'd' || option == 'k' {
        true
    } else {
        version == 1
    }
}

/// Whether the passphrase a caller presented equals the expected secret.
pub fn check_key(input: &str, expected: &str) -> (r: bool)
    ensures
        r == (input@ == expected@),
{
    let a = String::from_str(input);
    let b = String::from_str(expected);
    a.eq(&b)
}

} // verus!
