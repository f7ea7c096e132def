//! The disambiguation flow of the lookup engine: exact-match priority,
//! fuzzy fallback, candidate rendering and numbering, and the remembered
//! choice that a valid answer updates.
//!
//! The interactive part — printing the numbered candidates and reading the
//! answer — belongs to the caller; this module computes what to show and
//! applies the answer as a state transition.

use vstd::prelude::*;
use vstd::string::StringExecFns;

use crate::errs::{ErrKind, MyErr};
use crate::lookup::{find_choice, find_host, find_user, fuzzy_pairs, get_password,
    get_password_fuzzy, lemma_find_choice_is_first, lemma_find_choice_none, lemma_find_host,
    lemma_find_user, lemma_fuzzy_pairs_props};
use crate::model::{ChooseV, HostInfo, LastChoose, Pwd, Rdata, RdataV};
use crate::text::{first3, parse_usize, parse_usize_spec, render_line, sort_strings, sorted_strs,
    split_first3, trim_exec, trim_spec, views_of};

verus! {

/// The query hits a stored credential exactly: some host's address equals
/// the query address and holds the queried username.
pub open spec fn exact_hit(v: RdataV, ip: Seq<char>, user: Seq<char>) -> bool {
    find_host(v.hosts, ip) >= 0 && find_user(v.hosts[find_host(v.hosts, ip)].users, user) >= 0
}

/// The rendered `address username password` line of each fuzzy match, in
/// match order.
pub open spec fn rendered(v: RdataV, pairs: Seq<(i32, i32)>) -> Seq<Seq<char>> {
    pairs.map_values(
        |p: (i32, i32)|
            render_line(
                v.hosts[p.0 as int].ip,
                v.hosts[p.0 as int].users[p.1 as int].username,
                v.hosts[p.0 as int].users[p.1 as int].password,
            ),
    )
}

/// The remembered 1-based default shown for a query, or 0 when no
/// remembered choice exists or its index is stale (outside `1..=n`).
pub open spec fn spec_default_choice(v: RdataV, ip: Seq<char>, n: nat) -> usize {
    let mi = find_choice(v.current, ip);
    if mi == -1 {
        0
    } else {
        let idx = v.current[mi].index;
        if idx != 0 && idx <= n {
            idx
        } else {
            0
        }
    }
}

/// What resolving a query yields before any interaction: a single
/// credential, a numbered candidate list to disambiguate, or nothing.
pub enum Resolution {
    /// A single credential was determined.
    Found(Pwd),
    /// Several candidates match: the sorted rendered lines, numbered from
    /// one as displayed, and the remembered default (0 for none).
    Ambiguous { options: Vec<String>, default_choice: usize },
    /// No stored credential matches.
    NotFound,
}

/// Resolves a query: an exact match returns immediately; otherwise every
/// fuzzy match is considered, a single one is returned directly, several
/// enter disambiguation with their rendered lines sorted lexicographically,
/// and none is `NotFound`.
pub fn resolve_query(data: &Rdata, ip: &str, user: &str) -> (r: Resolution)
    requires
        data@.hosts.len() <= i32::MAX,
        forall|i: int|
            0 <= i < data@.hosts.len() ==> (#[trigger] data@.hosts[i]).users.len() <= i32::MAX,
    ensures
        ({
            let v = data@;
            let pairs = fuzzy_pairs(v, ip@, user@, v.hosts.len() as int);
            match r {
                Resolution::Found(p) => {
                    if exact_hit(v, ip@, user@) {
                        let hi = find_host(v.hosts, ip@);
                        let ui = find_user(v.hosts[hi].users, user@);
                        p.ip@ == v.hosts[hi].ip && p.user@ == v.hosts[hi].users[ui].username
                            && p.password@ == v.hosts[hi].users[ui].password
                    } else {
                        pairs.len() == 1 && p.ip@ == v.hosts[pairs[0].0 as int].ip && p.user@
                            == v.hosts[pairs[0].0 as int].users[pairs[0].1 as int].username
                            && p.password@ == v.hosts[pairs[0].0 as int].users[pairs[0].1
                            as int].password
                    }
                },
                Resolution::NotFound => !exact_hit(v, ip@, user@) && pairs.len() == 0,
                Resolution::Ambiguous { options, default_choice } => {
                    &&& !exact_hit(v, ip@, user@)
                    &&& pairs.len() >= 2
                    &&& options@.len() == pairs.len()
                    &&& sorted_strs(views_of(options@))
                    &&& views_of(options@).to_multiset() == rendered(v, pairs).to_multiset()
                    &&& default_choice == spec_default_choice(v, ip@, options@.len() as nat)
                },
            }
        }),
{
    broadcast use vstd::seq_lib::group_to_multiset_ensures;

    let (i, j) = get_password(data, ip, user);
    if i != -1 && j != -1 {
        proof {
            lemma_find_host(data@.hosts, ip@);
            lemma_find_user(data@.hosts[find_host(data@.hosts, ip@)].users, user@);
        }
        let iu = i as usize;
        let ju = j as usize;
        return Resolution::Found(
            Pwd {
                ip: data.hosts[iu].ip.clone(),
                user: data.hosts[iu].users[ju].username.clone(),
                password: data.hosts[iu].users[ju].password.clone(),
            },
        );
    }
    proof {
        lemma_find_host(data@.hosts, ip@);
        if find_host(data@.hosts, ip@) >= 0 {
            lemma_find_user(data@.hosts[find_host(data@.hosts, ip@)].users, user@);
        }
        lemma_fuzzy_pairs_props(data@, ip@, user@, data@.hosts.len() as int);
    }
    let re = get_password_fuzzy(data, ip, user);
    let ghost pairsv = fuzzy_pairs(data@, ip@, user@, data@.hosts.len() as int);
    if re.len() == 0 {
        return Resolution::NotFound;
    }
    if re.len() == 1 {
        let (x, y) = re[0];
        let xu = x as usize;
        let yu = y as usize;
        return Resolution::Found(
            Pwd {
                ip: data.hosts[xu].ip.clone(),
                user: data.hosts[xu].users[yu].username.clone(),
                password: data.hosts[xu].users[yu].password.clone(),
            },
        );
    }
    let mut temp: Vec<String> = Vec::new();
    proof {
        assert(views_of(temp@) =~= rendered(data@, pairsv).take(0));
    }
    let n = re.len();
    let mut k: usize = 0;
    while k < n
        invariant
            n == re@.len(),
            re@ == pairsv,
            pairsv == fuzzy_pairs(data@, ip@, user@, data@.hosts.len() as int),
            data@.hosts.len() <= i32::MAX,
            data@.hosts == data.hosts@.map_values(|h: HostInfo| h@),
            forall|t: int|
                0 <= t < pairsv.len() ==> {
                    &&& 0 <= (#[trigger] pairsv[t]).0 < data@.hosts.len()
                    &&& 0 <= pairsv[t].1 < data@.hosts[pairsv[t].0 as int].users.len()
                },
            k <= n,
            views_of(temp@) == rendered(data@, pairsv).take(k as int),
        decreases n - k,
    {
        let p = re[k];
        let p0 = p.0 as usize;
        let p1 = p.1 as usize;
        let ghost before = temp@;
        let line = crate::text::render_cred(
            &data.hosts[p0].ip,
            &data.hosts[p0].users[p1].username,
            &data.hosts[p0].users[p1].password,
        );
        proof {
            assert(line@ == rendered(data@, pairsv)[k as int]);
        }
        temp.push(line);
        proof {
            assert(views_of(temp@) =~= views_of(before).push(line@));
            assert(rendered(data@, pairsv).take(k + 1 as int) =~= rendered(
                data@,
                pairsv,
            ).take(k as int).push(rendered(data@, pairsv)[k as int]));
            assert(views_of(temp@) =~= rendered(data@, pairsv).take(k + 1 as int));
        }
        k += 1;
    }
    proof {
        assert(rendered(data@, pairsv).take(n as int) =~= rendered(data@, pairsv));
    }
    let options = sort_strings(temp);
    proof {
        assert(views_of(options@).len() == options@.len());
        assert(rendered(data@, pairsv).len() == pairsv.len());
        assert(views_of(options@).to_multiset().len() == views_of(options@).len());
        assert(rendered(data@, pairsv).to_multiset().len() == rendered(data@, pairsv).len());
    }
    let d = default_for(data, ip, options.len());
    Resolution::Ambiguous { options, default_choice: d }
}

/// Looks up the remembered default for a query over `n` candidates.
fn default_for(data: &Rdata, ip: &str, n: usize) -> (r: usize)
    ensures
        r == spec_default_choice(data@, ip@, n as nat),
{
    let ip_s = String::from_str(ip);
    let ghost curv = data@.current;
    let m = data.current.len();
    let mut t: usize = 0;
    while t < m
        invariant
            m == data.current@.len(),
            curv == data@.current,
            curv.len() == m,
            curv == data.current@.map_values(|c: LastChoose| c@),
            ip_s@ == ip@,
            t <= m,
            forall|q: int| 0 <= q < t ==> (#[trigger] curv[q]).ip != ip@,
        decreases m - t,
    {
        if data.current[t].ip.eq(&ip_s) {
            proof {
                lemma_find_choice_is_first(curv, ip@, t as int);
            }
            let idx = data.current[t].index;
            if idx != 0 && idx <= n {
                return idx;
            } else {
                return 0;
            }
        }
        t += 1;
    }
    proof {
        lemma_find_choice_none(curv, ip@);
    }
    0
}

/// Finds the position of the remembered choice for a query, if any.
fn find_memo(data: &Rdata, ip: &str) -> (r: Option<usize>)
    ensures
        match r {
            Some(t) => t < data@.current.len() && find_choice(data@.current, ip@) == t,
            None => find_choice(data@.current, ip@) == -1,
        },
{
    let ip_s = String::from_str(ip);
    let ghost curv = data@.current;
    let m = data.current.len();
    let mut t: usize = 0;
    while t < m
        invariant
            m == data.current@.len(),
            curv == data@.current,
            curv.len() == m,
            curv == data.current@.map_values(|c: LastChoose| c@),
            ip_s@ == ip@,
            t <= m,
            forall|q: int| 0 <= q < t ==> (#[trigger] curv[q]).ip != ip@,
        decreases m - t,
    {
        if data.current[t].ip.eq(&ip_s) {
            proof {
                lemma_find_choice_is_first(curv, ip@, t as int);
            }
            return Some(t);
        }
        t += 1;
    }
    proof {
        lemma_find_choice_none(curv, ip@);
    }
    None
}

/// The remembered index for the query (its stored value, or 0 when no
/// remembered choice exists).
pub open spec fn spec_old_idx(v: RdataV, ip: Seq<char>) -> int {
    let mi = find_choice(v.current, ip);
    if mi == -1 {
        0
    } else {
        v.current[mi].index as int
    }
}

/// The candidate number an answer line denotes: the bare newline accepts
/// the remembered index when one exists, anything else is read as a
/// number after trimming whitespace.
pub open spec fn spec_chosen(v: RdataV, ip: Seq<char>, line: Seq<char>) -> Option<int> {
    if spec_old_idx(v, ip) != 0 && line == seq!['\n'] {
        Some(spec_old_idx(v, ip))
    } else {
        match parse_usize_spec(trim_spec(line)) {
            Some(n) => Some(n as int),
            None => None,
        }
    }
}

/// The vault after a valid choice `c`, and whether it changed: a differing
/// remembered index is overwritten in place, a missing one is appended; a
/// choice equal to the remembered one changes nothing.
pub open spec fn spec_after_choice(v: RdataV, ip: Seq<char>, c: int) -> (RdataV, bool) {
    let oi = spec_old_idx(v, ip);
    let mi = find_choice(v.current, ip);
    if oi > 0 && c != oi {
        (
            RdataV {
                current: v.current.update(
                    mi,
                    ChooseV { ip: v.current[mi].ip, index: c as usize },
                ),
                hosts: v.hosts,
                pwd: v.pwd,
                version: v.version,
            },
            true,
        )
    } else if oi <= 0 {
        (
            RdataV {
                current: v.current.push(ChooseV { ip, index: c as usize }),
                hosts: v.hosts,
                pwd: v.pwd,
                version: v.version,
            },
            true,
        )
    } else {
        (v, false)
    }
}

/// Remembering a 1-based choice preserves the vault invariant: hosts are
/// untouched, at most one remembered choice per query string remains, and
/// every remembered index stays 1-based.
pub proof fn lemma_after_choice_preserves_wf(v: RdataV, ip: Seq<char>, c: int)
    requires
        v.wf(),
        1 <= c <= usize::MAX,
    ensures
        spec_after_choice(v, ip, c).0.wf(),
{
    let r = spec_after_choice(v, ip, c).0;
    let oi = spec_old_idx(v, ip);
    let mi = find_choice(v.current, ip);
    crate::lookup::lemma_find_choice(v.current, ip);
    if oi > 0 && c != oi {
        assert forall|i: int, j: int| 0 <= i < j < r.current.len() implies r.current[i].ip
            != r.current[j].ip by {
            assert(r.current[i].ip == v.current[i].ip);
            assert(r.current[j].ip == v.current[j].ip);
        }
    } else if oi <= 0 {
        assert(mi == -1);
        assert forall|i: int, j: int| 0 <= i < j < r.current.len() implies r.current[i].ip
            != r.current[j].ip by {
            if j == v.current.len() {
                assert(r.current[i] == v.current[i]);
                assert(r.current[j].ip == ip);
            } else {
                assert(r.current[i] == v.current[i]);
                assert(r.current[j] == v.current[j]);
            }
        }
    }
}

/// Applies a disambiguation answer to the numbered candidate list.
///
/// A valid choice yields the credential parsed back out of the chosen
/// sorted line, updates or establishes the remembered choice (the returned
/// flag says whether the vault changed and must be saved); an empty answer
/// without a remembered choice, a non-numeric answer, or an out-of-range
/// number fails with `AmbiguousChoice` and changes nothing.
pub fn apply_choice(data: &mut Rdata, ip: &str, options: &Vec<String>, line: &str) -> (r: Result<
    (Pwd, bool),
    MyErr,
>)
    requires
        old(data)@.current.len() < usize::MAX,
        forall|k: int| 0 <= k < options@.len() ==> (#[trigger] options@[k])@.len() <= i64::MAX,
    ensures
        ({
            let v = old(data)@;
            match spec_chosen(v, ip@, line@) {
                None => r is Err && r->Err_0.kind == ErrKind::AmbiguousChoice && *final(data)
                    == *old(data),
                Some(c) => {
                    if 1 <= c <= options@.len() {
                        match first3(options@[c - 1]@) {
                            Some(f) => {
                                &&& r is Ok
                                &&& r->Ok_0.0.ip@ == f.0
                                &&& r->Ok_0.0.user@ == f.1
                                &&& r->Ok_0.0.password@ == f.2
                                &&& final(data)@ == spec_after_choice(v, ip@, c).0
                                &&& r->Ok_0.1 == spec_after_choice(v, ip@, c).1
                            },
                            None => r is Err && r->Err_0.kind == ErrKind::AmbiguousChoice
                                && *final(data) == *old(data),
                        }
                    } else {
                        r is Err && r->Err_0.kind == ErrKind::AmbiguousChoice && *final(data)
                            == *old(data)
                    }
                },
            }
        }),
{
    let ghost curv = old(data)@.current;
    let memo = find_memo(data, ip);
    let (found, mpos): (bool, usize) = match memo {
        Some(t) => (true, t),
        None => (false, 0),
    };
    let old_idx: usize = if found {
        data.current[mpos].index
    } else {
        0
    };
    assert(old_idx as int == spec_old_idx(old(data)@, ip@));
    let nl = String::from_str("\n");
    let line_s = String::from_str(line);
    proof {
        reveal_strlit("\n");
        assert(nl@ =~= seq!['\n']);
    }
    let choose: usize;
    if old_idx != 0 && line_s.eq(&nl) {
        choose = old_idx;
    } else {
        let trimmed = trim_exec(line);
        match parse_usize(trimmed) {
            Some(c) => {
                choose = c;
            },
            None => {
                return Err(MyErr { kind: ErrKind::AmbiguousChoice });
            },
        }
    }
    if choose > options.len() || choose == 0 {
        return Err(MyErr { kind: ErrKind::AmbiguousChoice });
    }
    let sel = match split_first3(options[choose - 1].as_str()) {
        Some(t) => t,
        None => {
            return Err(MyErr { kind: ErrKind::AmbiguousChoice });
        },
    };
    let mut saved = false;
    if old_idx > 0 && choose != old_idx {
        data.current[mpos].index = choose;
        saved = true;
        proof {
            let mi = find_choice(curv, ip@);
            assert(data@.current =~= curv.update(
                mi,
                ChooseV { ip: curv[mi].ip, index: choose },
            ));
            assert(data@.hosts =~= old(data)@.hosts);
        }
    } else if old_idx == 0 {
        data.current.push(LastChoose { ip: String::from_str(ip), index: choose });
        saved = true;
        proof {
            assert(data@.current =~= curv.push(ChooseV { ip: ip@, index: choose }));
            assert(data@.hosts =~= old(data)@.hosts);
        }
    }
    Ok((Pwd { ip: sel.0, user: sel.1, password: sel.2 }, saved))
}

} // verus!
