//! The lookup engine's search primitives: exact host/user search and the
//! fuzzy fallback that matches the query as a substring of stored addresses.

use vstd::prelude::*;
use vstd::string::StrSliceExecFns;
use vstd::string::StringExecFns;

use crate::model::{ChooseV, HostV, Rdata, RdataV, UserV};

verus! {

/// `n` occurs as a contiguous substring of `h`.
pub open spec fn is_substring(n: Seq<char>, h: Seq<char>) -> bool {
    exists|k: int| 0 <= k && k + n.len() <= h.len() && #[trigger] h.subrange(k, k + n.len()) == n
}

/// The first index of a host whose address equals `ip`, or -1.
pub open spec fn find_host(hosts: Seq<HostV>, ip: Seq<char>) -> int
    decreases hosts.len(),
{
    if hosts.len() == 0 {
        -1
    } else if hosts[0].ip == ip {
        0
    } else {
        let r = find_host(hosts.drop_first(), ip);
        if r == -1 {
            -1
        } else {
            r + 1
        }
    }
}

/// The first index of a credential whose username equals `user`, or -1.
pub open spec fn find_user(users: Seq<UserV>, user: Seq<char>) -> int
    decreases users.len(),
{
    if users.len() == 0 {
        -1
    } else if users[0].username == user {
        0
    } else {
        let r = find_user(users.drop_first(), user);
        if r == -1 {
            -1
        } else {
            r + 1
        }
    }
}

/// The first index of a remembered choice whose query string equals `ip`,
/// or -1.
pub open spec fn find_choice(cur: Seq<ChooseV>, ip: Seq<char>) -> int
    decreases cur.len(),
{
    if cur.len() == 0 {
        -1
    } else if cur[0].ip == ip {
        0
    } else {
        let r = find_choice(cur.drop_first(), ip);
        if r == -1 {
            -1
        } else {
            r + 1
        }
    }
}

/// `find_host` returns -1 exactly when no host matches, and otherwise the
/// first matching index.
pub proof fn lemma_find_host(hosts: Seq<HostV>, ip: Seq<char>)
    ensures
        find_host(hosts, ip) == -1 ==> forall|i: int|
            0 <= i < hosts.len() ==> (#[trigger] hosts[i]).ip != ip,
        find_host(hosts, ip) != -1 ==> {
            &&& 0 <= find_host(hosts, ip) < hosts.len()
            &&& hosts[find_host(hosts, ip)].ip == ip
            &&& forall|i: int| 0 <= i < find_host(hosts, ip) ==> (#[trigger] hosts[i]).ip != ip
        },
    decreases hosts.len(),
{
    if hosts.len() > 0 && hosts[0].ip != ip {
        let d = hosts.drop_first();
        lemma_find_host(d, ip);
        if find_host(hosts, ip) == -1 {
            assert forall|i: int| 0 <= i < hosts.len() implies (#[trigger] hosts[i]).ip != ip by {
                if i >= 1 {
                    assert(hosts[i] == d[i - 1]);
                }
            }
        } else {
            let r = find_host(hosts, ip);
            assert(hosts[r] == d[r - 1]);
            assert forall|i: int| 0 <= i < r implies (#[trigger] hosts[i]).ip != ip by {
                if i >= 1 {
                    assert(hosts[i] == d[i - 1]);
                }
            }
        }
    }
}

/// `find_user` returns -1 exactly when no credential matches, and otherwise
/// the first matching index.
pub proof fn lemma_find_user(users: Seq<UserV>, user: Seq<char>)
    ensures
        find_user(users, user) == -1 ==> forall|j: int|
            0 <= j < users.len() ==> (#[trigger] users[j]).username != user,
        find_user(users, user) != -1 ==> {
            &&& 0 <= find_user(users, user) < users.len()
            &&& users[find_user(users, user)].username == user
            &&& forall|j: int|
                0 <= j < find_user(users, user) ==> (#[trigger] users[j]).username != user
        },
    decreases users.len(),
{
    if users.len() > 0 && users[0].username != user {
        let d = users.drop_first();
        lemma_find_user(d, user);
        if find_user(users, user) == -1 {
            assert forall|j: int| 0 <= j < users.len() implies (#[trigger] users[j]).username
                != user by {
                if j >= 1 {
                    assert(users[j] == d[j - 1]);
                }
            }
        } else {
            let r = find_user(users, user);
            assert(users[r] == d[r - 1]);
            assert forall|j: int| 0 <= j < r implies (#[trigger] users[j]).username != user by {
                if j >= 1 {
                    assert(users[j] == d[j - 1]);
                }
            }
        }
    }
}

/// `find_choice` returns -1 exactly when no remembered choice matches, and
/// otherwise the first matching index.
pub proof fn lemma_find_choice(cur: Seq<ChooseV>, ip: Seq<char>)
    ensures
        find_choice(cur, ip) == -1 ==> forall|i: int|
            0 <= i < cur.len() ==> (#[trigger] cur[i]).ip != ip,
        find_choice(cur, ip) != -1 ==> {
            &&& 0 <= find_choice(cur, ip) < cur.len()
            &&& cur[find_choice(cur, ip)].ip == ip
            &&& forall|i: int| 0 <= i < find_choice(cur, ip) ==> (#[trigger] cur[i]).ip != ip
        },
    decreases cur.len(),
{
    if cur.len() > 0 && cur[0].ip != ip {
        let d = cur.drop_first();
        lemma_find_choice(d, ip);
        if find_choice(cur, ip) == -1 {
            assert forall|i: int| 0 <= i < cur.len() implies (#[trigger] cur[i]).ip != ip by {
                if i >= 1 {
                    assert(cur[i] == d[i - 1]);
                }
            }
        } else {
            let r = find_choice(cur, ip);
            assert(cur[r] == d[r - 1]);
            assert forall|i: int| 0 <= i < r implies (#[trigger] cur[i]).ip != ip by {
                if i >= 1 {
                    assert(cur[i] == d[i - 1]);
                }
            }
        }
    }
}

pub(crate) proof fn lemma_find_host_is_first(hosts: Seq<HostV>, ip: Seq<char>, k: int)
    requires
        0 <= k < hosts.len(),
        hosts[k].ip == ip,
        forall|i: int| 0 <= i < k ==> (#[trigger] hosts[i]).ip != ip,
    ensures
        find_host(hosts, ip) == k,
    decreases k,
{
    if k > 0 {
        assert(forall|i: int|
            1 <= i < hosts.len() ==> hosts[i] == #[trigger] hosts.drop_first()[i - 1]);
        lemma_find_host_is_first(hosts.drop_first(), ip, k - 1);
    }
}

pub(crate) proof fn lemma_find_user_is_first(users: Seq<UserV>, user: Seq<char>, k: int)
    requires
        0 <= k < users.len(),
        users[k].username == user,
        forall|j: int| 0 <= j < k ==> (#[trigger] users[j]).username != user,
    ensures
        find_user(users, user) == k,
    decreases k,
{
    if k > 0 {
        assert(forall|j: int|
            1 <= j < users.len() ==> users[j] == #[trigger] users.drop_first()[j - 1]);
        lemma_find_user_is_first(users.drop_first(), user, k - 1);
    }
}

pub(crate) proof fn lemma_find_choice_is_first(cur: Seq<ChooseV>, ip: Seq<char>, k: int)
    requires
        0 <= k < cur.len(),
        cur[k].ip == ip,
        forall|i: int| 0 <= i < k ==> (#[trigger] cur[i]).ip != ip,
    ensures
        find_choice(cur, ip) == k,
    decreases k,
{
    if k > 0 {
        assert(forall|i: int| 1 <= i < cur.len() ==> cur[i] == #[trigger] cur.drop_first()[i - 1]);
        lemma_find_choice_is_first(cur.drop_first(), ip, k - 1);
    }
}

pub(crate) proof fn lemma_find_host_none(hosts: Seq<HostV>, ip: Seq<char>)
    requires
        forall|i: int| 0 <= i < hosts.len() ==> (#[trigger] hosts[i]).ip != ip,
    ensures
        find_host(hosts, ip) == -1,
    decreases hosts.len(),
{
    if hosts.len() > 0 {
        assert(forall|i: int|
            1 <= i < hosts.len() ==> hosts[i] == #[trigger] hosts.drop_first()[i - 1]);
        lemma_find_host_none(hosts.drop_first(), ip);
    }
}

pub(crate) proof fn lemma_find_user_none(users: Seq<UserV>, user: Seq<char>)
    requires
        forall|j: int| 0 <= j < users.len() ==> (#[trigger] users[j]).username != user,
    ensures
        find_user(users, user) == -1,
    decreases users.len(),
{
    if users.len() > 0 {
        assert(forall|j: int|
            1 <= j < users.len() ==> users[j] == #[trigger] users.drop_first()[j - 1]);
        lemma_find_user_none(users.drop_first(), user);
    }
}

pub(crate) proof fn lemma_find_choice_none(cur: Seq<ChooseV>, ip: Seq<char>)
    requires
        forall|i: int| 0 <= i < cur.len() ==> (#[trigger] cur[i]).ip != ip,
    ensures
        find_choice(cur, ip) == -1,
    decreases cur.len(),
{
    if cur.len() > 0 {
        assert(forall|i: int| 1 <= i < cur.len() ==> cur[i] == #[trigger] cur.drop_first()[i - 1]);
        lemma_find_choice_none(cur.drop_first(), ip);
    }
}

/// Whether the stored text at offset `k` equals the needle.
fn match_at(hay: &str, needle: &str, k: usize) -> (r: bool)
    requires
        k + needle@.len() <= hay@.len(),
    ensures
        r == (hay@.subrange(k as int, k + needle@.len()) == needle@),
{
    let nl = needle.unicode_len();
    let hl = hay.unicode_len();
    let mut i: usize = 0;
    while i < nl
        invariant
            nl == needle@.len(),
            hl == hay@.len(),
            k + nl <= hl,
            i <= nl,
            forall|j: int| 0 <= j < i ==> hay@[k + j] == needle@[j],
        decreases nl - i,
    {
        if hay.get_char(k + i) != needle.get_char(i) {
            assert(hay@.subrange(k as int, k + needle@.len())[i as int] != needle@[i as int]);
            return false;
        }
        i += 1;
    }
    proof {
        assert(hay@.subrange(k as int, k + needle@.len()) =~= needle@);
    }
    true
}

/// Whether `needle` occurs as a substring of `hay`.  Mirrors the fuzzy
/// address test of the lookup engine; the empty needle matches everything.
pub fn contains_sub(hay: &str, needle: &str) -> (r: bool)
    ensures
        r == is_substring(needle@, hay@),
{
    let hl = hay.unicode_len();
    let nl = needle.unicode_len();
    if nl > hl {
        return false;
    }
    if nl == 0 {
        proof {
            let z: int = 0;
            assert(hay@.subrange(z, z + needle@.len()) =~= needle@);
        }
        return true;
    }
    let mut k: usize = 0;
    while k <= hl - nl
        invariant
            hl == hay@.len(),
            nl == needle@.len(),
            nl <= hl,
            1 <= nl,
            k <= hl - nl + 1,
            forall|k2: int|
                0 <= k2 < k ==> #[trigger] hay@.subrange(k2, k2 + needle@.len()) != needle@,
        decreases hl - nl - k + 1,
    {
        if match_at(hay, needle, k) {
            return true;
        }
        k += 1;
    }
    false
}

impl RdataV {
    /// The credential query `(ip, user)` matches position `(i, j)` fuzzily:
    /// the query address occurs in the stored address and the username is
    /// equal.
    pub open spec fn fuzzy_match(self, ip: Seq<char>, user: Seq<char>, i: int, j: int) -> bool {
        &&& 0 <= i < self.hosts.len()
        &&& 0 <= j < self.hosts[i].users.len()
        &&& is_substring(ip, self.hosts[i].ip)
        &&& self.hosts[i].users[j].username == user
    }
}

/// Exact lookup: the first host whose address equals `ip`, and within it the
/// first credential whose username equals `user`.  A result of -1 in the
/// first position means no such host; -1 in the second means the host was
/// found but the username was not.
pub fn get_password(data: &Rdata, ip: &str, user: &str) -> (r: (i32, i32))
    requires
        data@.hosts.len() <= i32::MAX,
        forall|i: int|
            0 <= i < data@.hosts.len() ==> (#[trigger] data@.hosts[i]).users.len() <= i32::MAX,
    ensures
        r.0 as int == find_host(data@.hosts, ip@),
        find_host(data@.hosts, ip@) == -1 ==> r.1 == -1i32,
        find_host(data@.hosts, ip@) >= 0 ==> r.1 as int == find_user(
            data@.hosts[find_host(data@.hosts, ip@)].users,
            user@,
        ),
{
    let ip_s = String::from_str(ip);
    let user_s = String::from_str(user);
    let ghost hostsv = data@.hosts;
    let n = data.hosts.len();
    let mut i: usize = 0;
    while i < n
        invariant
            n == data.hosts@.len(),
            hostsv == data@.hosts,
            hostsv.len() == n,
            hostsv.len() <= i32::MAX,
            forall|t: int| 0 <= t < hostsv.len() ==> (#[trigger] hostsv[t]).users.len() <= i32::MAX,
            hostsv == data.hosts@.map_values(|h: crate::model::HostInfo| h@),
            ip_s@ == ip@,
            user_s@ == user@,
            i <= n,
            forall|t: int| 0 <= t < i ==> (#[trigger] hostsv[t]).ip != ip@,
        decreases n - i,
    {
        if data.hosts[i].ip.eq(&ip_s) {
            let m = data.hosts[i].users.len();
            let ghost usersv = hostsv[i as int].users;
            let mut j: usize = 0;
            while j < m
                invariant
                    0 <= i < hostsv.len(),
                    hostsv.len() <= i32::MAX,
                    m == data.hosts@[i as int].users@.len(),
                    usersv == hostsv[i as int].users,
                    usersv.len() == m,
                    usersv.len() <= i32::MAX,
                    usersv == data.hosts@[i as int].users@.map_values(
                        |u: crate::model::UserInfo| u@,
                    ),
                    hostsv == data.hosts@.map_values(|h: crate::model::HostInfo| h@),
                    user_s@ == user@,
                    hostsv[i as int].ip == ip@,
                    forall|t: int| 0 <= t < i ==> (#[trigger] hostsv[t]).ip != ip@,
                    j <= m,
                    forall|t: int| 0 <= t < j ==> (#[trigger] usersv[t]).username != user@,
                decreases m - j,
            {
                if data.hosts[i].users[j].username.eq(&user_s) {
                    proof {
                        assert(hostsv[i as int] == data.hosts@[i as int]@);
                        assert(hostsv[i as int].ip == ip@);
                        assert(usersv[j as int] == data.hosts@[i as int].users@[j as int]@);
                        assert(usersv[j as int].username == user@);
                        lemma_find_host_is_first(hostsv, ip@, i as int);
                        lemma_find_user_is_first(usersv, user@, j as int);
                    }
                    return (i as i32, j as i32);
                }
                j += 1;
            }
            proof {
                assert(hostsv[i as int] == data.hosts@[i as int]@);
                assert(hostsv[i as int].ip == ip@);
                lemma_find_host_is_first(hostsv, ip@, i as int);
                lemma_find_user_none(usersv, user@);
            }
            return (i as i32, -1);
        }
        i += 1;
    }
    proof {
        lemma_find_host_none(hostsv, ip@);
    }
    (-1, -1)
}

/// The fuzzy index pairs contributed by the first `j` credentials of host
/// `i`: one `(i, j2)` pair for each credential `j2 < j` whose username
/// equals `user`.
pub open spec fn user_pairs(users: Seq<UserV>, user: Seq<char>, i: int, j: int) -> Seq<(i32, i32)>
    decreases j,
{
    if j <= 0 {
        Seq::<(i32, i32)>::empty()
    } else {
        user_pairs(users, user, i, j - 1) + (if users[j - 1].username == user {
            seq![(i as i32, (j - 1) as i32)]
        } else {
            Seq::<(i32, i32)>::empty()
        })
    }
}

/// The fuzzy index pairs contributed by the first `i` hosts: for each host
/// whose address has the query as a substring, the pairs of all its
/// credentials with the queried username, in index order.
pub open spec fn fuzzy_pairs(v: RdataV, ip: Seq<char>, user: Seq<char>, i: int) -> Seq<(i32, i32)>
    decreases i,
{
    if i <= 0 {
        Seq::<(i32, i32)>::empty()
    } else {
        fuzzy_pairs(v, ip, user, i - 1) + (if is_substring(ip, v.hosts[i - 1].ip) {
            user_pairs(v.hosts[i - 1].users, user, i - 1, v.hosts[i - 1].users.len() as int)
        } else {
            Seq::<(i32, i32)>::empty()
        })
    }
}

proof fn lemma_user_pairs_props(users: Seq<UserV>, user: Seq<char>, i: int, j: int)
    requires
        0 <= i <= i32::MAX,
        0 <= j <= users.len() <= i32::MAX,
    ensures
        forall|k: int|
            0 <= k < user_pairs(users, user, i, j).len() ==> {
                &&& (#[trigger] user_pairs(users, user, i, j)[k]).0 == i
                &&& 0 <= user_pairs(users, user, i, j)[k].1 < j
                &&& users[user_pairs(users, user, i, j)[k].1 as int].username == user
            },
        forall|j2: int|
            0 <= j2 < j && (#[trigger] users[j2]).username == user ==> exists|k: int|
                0 <= k < user_pairs(users, user, i, j).len() && (#[trigger] user_pairs(
                    users,
                    user,
                    i,
                    j,
                )[k]).1 == j2,
        forall|k1: int, k2: int|
            0 <= k1 < k2 < user_pairs(users, user, i, j).len() ==> (#[trigger] user_pairs(
                users,
                user,
                i,
                j,
            )[k1]).1 < (#[trigger] user_pairs(users, user, i, j)[k2]).1,
    decreases j,
{
    if j > 0 {
        lemma_user_pairs_props(users, user, i, j - 1);
        let prev = user_pairs(users, user, i, j - 1);
        let cur = user_pairs(users, user, i, j);
        assert(forall|k: int| 0 <= k < prev.len() ==> #[trigger] cur[k] == prev[k]);
        assert forall|j2: int|
            0 <= j2 < j && (#[trigger] users[j2]).username == user implies exists|k: int|
            0 <= k < cur.len() && (#[trigger] cur[k]).1 == j2 by {
            if j2 == j - 1 {
                assert(cur[prev.len() as int].1 == j2);
            } else {
                let k = choose|k: int| 0 <= k < prev.len() && (#[trigger] prev[k]).1 == j2;
                assert(cur[k].1 == j2);
            }
        }
    }
}

/// The fuzzy pair collection holds exactly the fuzzily matching index pairs,
/// each exactly once, ordered by host index and then credential index.
pub proof fn lemma_fuzzy_pairs_props(v: RdataV, ip: Seq<char>, user: Seq<char>, i: int)
    requires
        0 <= i <= v.hosts.len() <= i32::MAX,
        forall|t: int| 0 <= t < v.hosts.len() ==> (#[trigger] v.hosts[t]).users.len() <= i32::MAX,
    ensures
        forall|k: int|
            0 <= k < fuzzy_pairs(v, ip, user, i).len() ==> {
                &&& (#[trigger] fuzzy_pairs(v, ip, user, i)[k]).0 < i
                &&& v.fuzzy_match(
                    ip,
                    user,
                    fuzzy_pairs(v, ip, user, i)[k].0 as int,
                    fuzzy_pairs(v, ip, user, i)[k].1 as int,
                )
            },
        forall|i2: int, j2: int|
            i2 < i && v.fuzzy_match(ip, user, i2, j2) ==> exists|k: int|
                0 <= k < fuzzy_pairs(v, ip, user, i).len() && (#[trigger] fuzzy_pairs(
                    v,
                    ip,
                    user,
                    i,
                )[k]).0 == i2 && fuzzy_pairs(v, ip, user, i)[k].1 == j2,
        forall|k1: int, k2: int|
            0 <= k1 < k2 < fuzzy_pairs(v, ip, user, i).len() ==> ((#[trigger] fuzzy_pairs(
                v,
                ip,
                user,
                i,
            )[k1]).0 < (#[trigger] fuzzy_pairs(v, ip, user, i)[k2]).0 || (fuzzy_pairs(
                v,
                ip,
                user,
                i,
            )[k1].0 == fuzzy_pairs(v, ip, user, i)[k2].0 && fuzzy_pairs(v, ip, user, i)[k1].1
                < fuzzy_pairs(v, ip, user, i)[k2].1)),
    decreases i,
{
    if i > 0 {
        lemma_fuzzy_pairs_props(v, ip, user, i - 1);
        let prev = fuzzy_pairs(v, ip, user, i - 1);
        let cur = fuzzy_pairs(v, ip, user, i);
        let h = v.hosts[i - 1];
        if is_substring(ip, h.ip) {
            lemma_user_pairs_props(h.users, user, i - 1, h.users.len() as int);
        }
        let tail = if is_substring(ip, h.ip) {
            user_pairs(h.users, user, i - 1, h.users.len() as int)
        } else {
            Seq::<(i32, i32)>::empty()
        };
        assert(cur == prev + tail);
        assert(forall|k: int| 0 <= k < prev.len() ==> #[trigger] cur[k] == prev[k]);
        assert(forall|k: int|
            prev.len() <= k < cur.len() ==> #[trigger] cur[k] == tail[k - prev.len()]);
        assert forall|i2: int, j2: int| i2 < i && v.fuzzy_match(ip, user, i2, j2) implies exists|
            k: int,
        |
            0 <= k < cur.len() && (#[trigger] cur[k]).0 == i2 && cur[k].1 == j2 by {
            if i2 == i - 1 {
                let kt = choose|kt: int| 0 <= kt < tail.len() && (#[trigger] tail[kt]).1 == j2;
                assert(cur[prev.len() + kt].0 == i2 && cur[prev.len() + kt].1 == j2);
            } else {
                let k = choose|k: int|
                    0 <= k < prev.len() && (#[trigger] prev[k]).0 == i2 && prev[k].1 == j2;
                assert(cur[k].0 == i2 && cur[k].1 == j2);
            }
        }
    }
}

/// Fuzzy lookup: every `(host, credential)` index pair where the query
/// address occurs as a substring of the stored address and the username is
/// equal, in increasing host order and, within a host, increasing credential
/// order — exactly the collection [`fuzzy_pairs`] describes.
pub fn get_password_fuzzy(data: &Rdata, ip: &str, user: &str) -> (r: Vec<(i32, i32)>)
    requires
        data@.hosts.len() <= i32::MAX,
        forall|i: int|
            0 <= i < data@.hosts.len() ==> (#[trigger] data@.hosts[i]).users.len() <= i32::MAX,
    ensures
        r@ == fuzzy_pairs(data@, ip@, user@, data@.hosts.len() as int),
{
    let user_s = String::from_str(user);
    let ghost hostsv = data@.hosts;
    let mut out: Vec<(i32, i32)> = Vec::new();
    let n = data.hosts.len();
    let mut i: usize = 0;
    while i < n
        invariant
            n == data.hosts@.len(),
            hostsv == data@.hosts,
            hostsv.len() == n,
            hostsv.len() <= i32::MAX,
            forall|t: int| 0 <= t < hostsv.len() ==> (#[trigger] hostsv[t]).users.len() <= i32::MAX,
            hostsv == data.hosts@.map_values(|h: crate::model::HostInfo| h@),
            user_s@ == user@,
            i <= n,
            out@ == fuzzy_pairs(data@, ip@, user@, i as int),
        decreases n - i,
    {
        let sub = contains_sub(data.hosts[i].ip.as_str(), ip);
        if sub {
            let m = data.hosts[i].users.len();
            let ghost usersv = hostsv[i as int].users;
            let ghost base = out@;
            let mut j: usize = 0;
            while j < m
                invariant
                    0 <= i < hostsv.len(),
                    hostsv == data@.hosts,
                    hostsv.len() <= i32::MAX,
                    m == data.hosts@[i as int].users@.len(),
                    usersv == hostsv[i as int].users,
                    usersv.len() == m,
                    usersv.len() <= i32::MAX,
                    usersv == data.hosts@[i as int].users@.map_values(
                        |u: crate::model::UserInfo| u@,
                    ),
                    hostsv == data.hosts@.map_values(|h: crate::model::HostInfo| h@),
                    user_s@ == user@,
                    is_substring(ip@, hostsv[i as int].ip),
                    base == fuzzy_pairs(data@, ip@, user@, i as int),
                    j <= m,
                    out@ == base + user_pairs(usersv, user@, i as int, j as int),
                decreases m - j,
            {
                let ghost before = out@;
                if data.hosts[i].users[j].username.eq(&user_s) {
                    out.push((i as i32, j as i32));
                    proof {
                        assert(out@ =~= base + user_pairs(usersv, user@, i as int, j + 1 as int));
                    }
                } else {
                    proof {
                        assert(out@ =~= base + user_pairs(usersv, user@, i as int, j + 1 as int));
                    }
                }
                j += 1;
            }
            proof {
                assert(out@ =~= fuzzy_pairs(data@, ip@, user@, i + 1 as int));
            }
            i += 1;
        } else {
            proof {
                assert(out@ =~= fuzzy_pairs(data@, ip@, user@, i + 1 as int));
            }
            i += 1;
        }
    }
    out
}

} // verus!
