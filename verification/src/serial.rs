//! The serializer: lossless structured marshal/unmarshal between the vault
//! model and a byte payload.
//!
//! The format is opaque outside this system: every string is written as its
//! UTF-8 bytes behind a little-endian 8-byte length, every list behind a
//! little-endian 8-byte count, and the policy level as one leading byte.
//! [`lemma_serialize_round_trip`] proves that unmarshalling what was
//! marshalled gives back exactly the original vault.

use vstd::bytes::{lemma_auto_spec_u64_to_from_le_bytes, spec_u64_from_le_bytes,
    spec_u64_to_le_bytes, u64_from_le_bytes, u64_to_le_bytes};
use vstd::prelude::*;
use vstd::string::StrSliceExecFns;
use vstd::utf8::{decode_utf8, encode_utf8, encode_utf8_decode_utf8, encode_utf8_valid_utf8,
    valid_utf8};

use crate::codec::bytes_to_string;
use crate::errs::{ErrKind, MyErr};
use crate::model::{ChooseV, HostInfo, HostV, LastChoose, Rdata, RdataV, UserInfo, UserV};

verus! {

// ---------------------------------------------------------------------------
// Size bounds under which the format is faithful: every length and count must
// fit in its 8-byte field.  Real in-memory values always satisfy them.
// ---------------------------------------------------------------------------
/// The string's UTF-8 byte length fits in the length field.
pub open spec fn str_ok(s: Seq<char>) -> bool {
    encode_utf8(s).len() <= u64::MAX
}

/// Both strings of the credential fit their length fields.
pub open spec fn user_ok(u: UserV) -> bool {
    str_ok(u.username) && str_ok(u.password)
}

/// The host's address, credential count and credentials all fit.
pub open spec fn host_ok(h: HostV) -> bool {
    &&& str_ok(h.ip)
    &&& h.users.len() <= u64::MAX
    &&& forall|i: int| 0 <= i < h.users.len() ==> user_ok(#[trigger] h.users[i])
}

/// The remembered choice's query string fits.
pub open spec fn choice_ok(c: ChooseV) -> bool {
    str_ok(c.ip)
}

/// Every length and count of the vault fits its field.
pub open spec fn vault_ok(v: RdataV) -> bool {
    &&& str_ok(v.pwd)
    &&& v.hosts.len() <= u64::MAX
    &&& v.current.len() <= u64::MAX
    &&& forall|i: int| 0 <= i < v.hosts.len() ==> host_ok(#[trigger] v.hosts[i])
    &&& forall|i: int| 0 <= i < v.current.len() ==> choice_ok(#[trigger] v.current[i])
}

// ---------------------------------------------------------------------------
// The marshalled form.
// ---------------------------------------------------------------------------
/// A string: its UTF-8 byte length, then its UTF-8 bytes.
pub open spec fn enc_str(s: Seq<char>) -> Seq<u8> {
    spec_u64_to_le_bytes(encode_utf8(s).len() as u64) + encode_utf8(s)
}

/// A credential: username, then password.
pub open spec fn enc_user(u: UserV) -> Seq<u8> {
    enc_str(u.username) + enc_str(u.password)
}

/// A credential list, first to last.
pub open spec fn enc_users(us: Seq<UserV>) -> Seq<u8>
    decreases us.len(),
{
    if us.len() == 0 {
        Seq::<u8>::empty()
    } else {
        enc_user(us[0]) + enc_users(us.drop_first())
    }
}

/// A host: its address, then its credential count, then its credentials.
pub open spec fn enc_host(h: HostV) -> Seq<u8> {
    enc_str(h.ip) + (spec_u64_to_le_bytes(h.users.len() as u64) + enc_users(h.users))
}

/// A host list, first to last.
pub open spec fn enc_hosts(hs: Seq<HostV>) -> Seq<u8>
    decreases hs.len(),
{
    if hs.len() == 0 {
        Seq::<u8>::empty()
    } else {
        enc_host(hs[0]) + enc_hosts(hs.drop_first())
    }
}

/// A remembered choice: its query string, then its 1-based index.
pub open spec fn enc_choice(c: ChooseV) -> Seq<u8> {
    enc_str(c.ip) + spec_u64_to_le_bytes(c.index as u64)
}

/// A remembered-choice list, first to last.
pub open spec fn enc_choices(cs: Seq<ChooseV>) -> Seq<u8>
    decreases cs.len(),
{
    if cs.len() == 0 {
        Seq::<u8>::empty()
    } else {
        enc_choice(cs[0]) + enc_choices(cs.drop_first())
    }
}

/// The whole vault: policy level, passphrase, hosts, remembered choices.
pub open spec fn spec_ser(v: RdataV) -> Seq<u8> {
    seq![v.version] + (enc_str(v.pwd) + (spec_u64_to_le_bytes(v.hosts.len() as u64) + (enc_hosts(
        v.hosts,
    ) + (spec_u64_to_le_bytes(v.current.len() as u64) + enc_choices(v.current)))))
}

// ---------------------------------------------------------------------------
// The parser: each piece consumes a prefix and yields the value and the rest.
// ---------------------------------------------------------------------------
/// Reads one little-endian u64.
pub open spec fn p_u64(s: Seq<u8>) -> Option<(u64, Seq<u8>)> {
    if s.len() < 8 {
        None
    } else {
        Some((spec_u64_from_le_bytes(s.take(8)), s.skip(8)))
    }
}

/// Reads one length-prefixed UTF-8 string.
pub open spec fn p_str(s: Seq<u8>) -> Option<(Seq<char>, Seq<u8>)> {
    match p_u64(s) {
        None => None,
        Some((n, r)) => {
            if r.len() < n {
                None
            } else {
                let b = r.take(n as int);
                if valid_utf8(b) {
                    Some((decode_utf8(b), r.skip(n as int)))
                } else {
                    None
                }
            }
        },
    }
}

/// Reads one credential.
pub open spec fn p_user(s: Seq<u8>) -> Option<(UserV, Seq<u8>)> {
    match p_str(s) {
        None => None,
        Some((username, r1)) => match p_str(r1) {
            None => None,
            Some((password, r2)) => Some((UserV { username, password }, r2)),
        },
    }
}

/// Reads exactly `n` credentials.
pub open spec fn p_users(s: Seq<u8>, n: nat) -> Option<(Seq<UserV>, Seq<u8>)>
    decreases n,
{
    if n == 0 {
        Some((Seq::<UserV>::empty(), s))
    } else {
        match p_user(s) {
            None => None,
            Some((u, r)) => match p_users(r, (n - 1) as nat) {
                None => None,
                Some((us, rr)) => Some((seq![u] + us, rr)),
            },
        }
    }
}

/// Reads one host.
pub open spec fn p_host(s: Seq<u8>) -> Option<(HostV, Seq<u8>)> {
    match p_str(s) {
        None => None,
        Some((ip, r1)) => match p_u64(r1) {
            None => None,
            Some((n, r2)) => match p_users(r2, n as nat) {
                None => None,
                Some((users, r3)) => Some((HostV { ip, users }, r3)),
            },
        },
    }
}

/// Reads exactly `n` hosts.
pub open spec fn p_hosts(s: Seq<u8>, n: nat) -> Option<(Seq<HostV>, Seq<u8>)>
    decreases n,
{
    if n == 0 {
        Some((Seq::<HostV>::empty(), s))
    } else {
        match p_host(s) {
            None => None,
            Some((h, r)) => match p_hosts(r, (n - 1) as nat) {
                None => None,
                Some((hs, rr)) => Some((seq![h] + hs, rr)),
            },
        }
    }
}

/// Reads one remembered choice; its index must fit the machine word.
pub open spec fn p_choice(s: Seq<u8>) -> Option<(ChooseV, Seq<u8>)> {
    match p_str(s) {
        None => None,
        Some((ip, r1)) => match p_u64(r1) {
            None => None,
            Some((n, r2)) => {
                if n > usize::MAX as u64 {
                    None
                } else {
                    Some((ChooseV { ip, index: n as usize }, r2))
                }
            },
        },
    }
}

/// Reads exactly `n` remembered choices.
pub open spec fn p_choices(s: Seq<u8>, n: nat) -> Option<(Seq<ChooseV>, Seq<u8>)>
    decreases n,
{
    if n == 0 {
        Some((Seq::<ChooseV>::empty(), s))
    } else {
        match p_choice(s) {
            None => None,
            Some((c, r)) => match p_choices(r, (n - 1) as nat) {
                None => None,
                Some((cs, rr)) => Some((seq![c] + cs, rr)),
            },
        }
    }
}

/// Reads a whole vault.
pub open spec fn p_vault(s: Seq<u8>) -> Option<(RdataV, Seq<u8>)> {
    if s.len() < 1 {
        None
    } else {
        let version = s[0];
        match p_str(s.skip(1)) {
            None => None,
            Some((pwd, r1)) => match p_u64(r1) {
                None => None,
                Some((nh, r2)) => match p_hosts(r2, nh as nat) {
                    None => None,
                    Some((hosts, r3)) => match p_u64(r3) {
                        None => None,
                        Some((nc, r4)) => match p_choices(r4, nc as nat) {
                            None => None,
                            Some((current, r5)) => Some(
                                (RdataV { current, hosts, pwd, version }, r5),
                            ),
                        },
                    },
                },
            },
        }
    }
}

/// The unmarshalled value of a payload: a vault exactly when the payload is a
/// complete well-shaped marshalling with nothing trailing.
pub open spec fn spec_deser(s: Seq<u8>) -> Option<RdataV> {
    match p_vault(s) {
        None => None,
        Some((v, rest)) => {
            if rest.len() == 0 {
                Some(v)
            } else {
                None
            }
        },
    }
}

// ---------------------------------------------------------------------------
// Round-trip lemmas: parsing what was marshalled yields the original value.
// ---------------------------------------------------------------------------
proof fn lemma_p_u64(n: u64, rest: Seq<u8>)
    ensures
        p_u64(spec_u64_to_le_bytes(n) + rest) == Some((n, rest)),
{
    lemma_auto_spec_u64_to_from_le_bytes();
    let s = spec_u64_to_le_bytes(n) + rest;
    assert(s.take(8) =~= spec_u64_to_le_bytes(n));
    assert(s.skip(8) =~= rest);
}

proof fn lemma_p_str(t: Seq<char>, rest: Seq<u8>)
    requires
        str_ok(t),
    ensures
        p_str(enc_str(t) + rest) == Some((t, rest)),
{
    broadcast use encode_utf8_valid_utf8, encode_utf8_decode_utf8;

    let b = encode_utf8(t);
    let n = b.len() as u64;
    assert(enc_str(t) + rest =~= spec_u64_to_le_bytes(n) + (b + rest));
    lemma_p_u64(n, b + rest);
    assert((b + rest).take(n as int) =~= b);
    assert((b + rest).skip(n as int) =~= rest);
}

proof fn lemma_p_user(u: UserV, rest: Seq<u8>)
    requires
        user_ok(u),
    ensures
        p_user(enc_user(u) + rest) == Some((u, rest)),
{
    assert(enc_user(u) + rest =~= enc_str(u.username) + (enc_str(u.password) + rest));
    lemma_p_str(u.username, enc_str(u.password) + rest);
    lemma_p_str(u.password, rest);
}

proof fn lemma_p_users(us: Seq<UserV>, rest: Seq<u8>)
    requires
        forall|i: int| 0 <= i < us.len() ==> user_ok(#[trigger] us[i]),
    ensures
        p_users(enc_users(us) + rest, us.len()) == Some((us, rest)),
    decreases us.len(),
{
    if us.len() == 0 {
        assert(enc_users(us) + rest =~= rest);
    } else {
        let u = us[0];
        let tail = us.drop_first();
        assert(enc_users(us) + rest =~= enc_user(u) + (enc_users(tail) + rest));
        lemma_p_user(u, enc_users(tail) + rest);
        lemma_p_users(tail, rest);
        assert(seq![u] + tail =~= us);
    }
}

proof fn lemma_p_host(h: HostV, rest: Seq<u8>)
    requires
        host_ok(h),
    ensures
        p_host(enc_host(h) + rest) == Some((h, rest)),
{
    let n = h.users.len() as u64;
    let body = spec_u64_to_le_bytes(n) + (enc_users(h.users) + rest);
    assert(enc_host(h) + rest =~= enc_str(h.ip) + body);
    lemma_p_str(h.ip, body);
    lemma_p_u64(n, enc_users(h.users) + rest);
    lemma_p_users(h.users, rest);
}

proof fn lemma_p_hosts(hs: Seq<HostV>, rest: Seq<u8>)
    requires
        forall|i: int| 0 <= i < hs.len() ==> host_ok(#[trigger] hs[i]),
    ensures
        p_hosts(enc_hosts(hs) + rest, hs.len()) == Some((hs, rest)),
    decreases hs.len(),
{
    if hs.len() == 0 {
        assert(enc_hosts(hs) + rest =~= rest);
    } else {
        let h = hs[0];
        let tail = hs.drop_first();
        assert(enc_hosts(hs) + rest =~= enc_host(h) + (enc_hosts(tail) + rest));
        lemma_p_host(h, enc_hosts(tail) + rest);
        lemma_p_hosts(tail, rest);
        assert(seq![h] + tail =~= hs);
    }
}

proof fn lemma_p_choice(c: ChooseV, rest: Seq<u8>)
    requires
        choice_ok(c),
    ensures
        p_choice(enc_choice(c) + rest) == Some((c, rest)),
{
    let n = c.index as u64;
    assert(enc_choice(c) + rest =~= enc_str(c.ip) + (spec_u64_to_le_bytes(n) + rest));
    lemma_p_str(c.ip, spec_u64_to_le_bytes(n) + rest);
    lemma_p_u64(n, rest);
}

proof fn lemma_p_choices(cs: Seq<ChooseV>, rest: Seq<u8>)
    requires
        forall|i: int| 0 <= i < cs.len() ==> choice_ok(#[trigger] cs[i]),
    ensures
        p_choices(enc_choices(cs) + rest, cs.len()) == Some((cs, rest)),
    decreases cs.len(),
{
    if cs.len() == 0 {
        assert(enc_choices(cs) + rest =~= rest);
    } else {
        let c = cs[0];
        let tail = cs.drop_first();
        assert(enc_choices(cs) + rest =~= enc_choice(c) + (enc_choices(tail) + rest));
        lemma_p_choice(c, enc_choices(tail) + rest);
        lemma_p_choices(tail, rest);
        assert(seq![c] + tail =~= cs);
    }
}

/// Round-trip: unmarshalling a marshalled vault yields exactly that vault.
pub proof fn lemma_serialize_round_trip(v: RdataV)
    requires
        vault_ok(v),
    ensures
        spec_deser(spec_ser(v)) == Some(v),
{
    let s = spec_ser(v);
    let r1 = spec_u64_to_le_bytes(v.hosts.len() as u64) + (enc_hosts(v.hosts) + (
    spec_u64_to_le_bytes(v.current.len() as u64) + enc_choices(v.current)));
    let r2 = enc_hosts(v.hosts) + (spec_u64_to_le_bytes(v.current.len() as u64) + enc_choices(
        v.current,
    ));
    let r3 = spec_u64_to_le_bytes(v.current.len() as u64) + enc_choices(v.current);
    let r4 = enc_choices(v.current);
    assert(s.len() >= 1);
    assert(s[0] == v.version);
    assert(s.skip(1) =~= enc_str(v.pwd) + r1);
    lemma_p_str(v.pwd, r1);
    assert(r4 =~= enc_choices(v.current) + Seq::<u8>::empty());
    lemma_p_u64(v.hosts.len() as u64, r2);
    lemma_p_hosts(v.hosts, r3);
    lemma_p_u64(v.current.len() as u64, r4);
    lemma_p_choices(v.current, Seq::<u8>::empty());
}

// ---------------------------------------------------------------------------
// Writers: executable marshalling.
// ---------------------------------------------------------------------------
proof fn lemma_enc_users_push(us: Seq<UserV>, u: UserV)
    ensures
        enc_users(us.push(u)) == enc_users(us) + enc_user(u),
    decreases us.len(),
{
    let p = us.push(u);
    if us.len() == 0 {
        assert(p[0] == u);
        assert(p.drop_first() =~= Seq::<UserV>::empty());
        assert(enc_users(p.drop_first()) == Seq::<u8>::empty());
        assert(enc_users(p) == enc_user(u) + Seq::<u8>::empty());
        assert(enc_user(u) + Seq::<u8>::empty() =~= Seq::<u8>::empty() + enc_user(u));
    } else {
        assert(p[0] == us[0]);
        assert(p.drop_first() =~= us.drop_first().push(u));
        lemma_enc_users_push(us.drop_first(), u);
        assert(enc_users(p) == enc_user(us[0]) + (enc_users(us.drop_first()) + enc_user(u)));
        assert(enc_user(us[0]) + (enc_users(us.drop_first()) + enc_user(u)) =~= (enc_user(us[0])
            + enc_users(us.drop_first())) + enc_user(u));
    }
}

proof fn lemma_enc_hosts_push(hs: Seq<HostV>, h: HostV)
    ensures
        enc_hosts(hs.push(h)) == enc_hosts(hs) + enc_host(h),
    decreases hs.len(),
{
    let p = hs.push(h);
    if hs.len() == 0 {
        assert(p[0] == h);
        assert(p.drop_first() =~= Seq::<HostV>::empty());
        assert(enc_hosts(p.drop_first()) == Seq::<u8>::empty());
        assert(enc_hosts(p) == enc_host(h) + Seq::<u8>::empty());
        assert(enc_host(h) + Seq::<u8>::empty() =~= Seq::<u8>::empty() + enc_host(h));
    } else {
        assert(p[0] == hs[0]);
        assert(p.drop_first() =~= hs.drop_first().push(h));
        lemma_enc_hosts_push(hs.drop_first(), h);
        assert(enc_hosts(p) == enc_host(hs[0]) + (enc_hosts(hs.drop_first()) + enc_host(h)));
        assert(enc_host(hs[0]) + (enc_hosts(hs.drop_first()) + enc_host(h)) =~= (enc_host(hs[0])
            + enc_hosts(hs.drop_first())) + enc_host(h));
    }
}

proof fn lemma_enc_choices_push(cs: Seq<ChooseV>, c: ChooseV)
    ensures
        enc_choices(cs.push(c)) == enc_choices(cs) + enc_choice(c),
    decreases cs.len(),
{
    let p = cs.push(c);
    if cs.len() == 0 {
        assert(p[0] == c);
        assert(p.drop_first() =~= Seq::<ChooseV>::empty());
        assert(enc_choices(p.drop_first()) == Seq::<u8>::empty());
        assert(enc_choices(p) == enc_choice(c) + Seq::<u8>::empty());
        assert(enc_choice(c) + Seq::<u8>::empty() =~= Seq::<u8>::empty() + enc_choice(c));
    } else {
        assert(p[0] == cs[0]);
        assert(p.drop_first() =~= cs.drop_first().push(c));
        lemma_enc_choices_push(cs.drop_first(), c);
        assert(enc_choices(p) == enc_choice(cs[0]) + (enc_choices(cs.drop_first()) + enc_choice(
            c,
        )));
        assert(enc_choice(cs[0]) + (enc_choices(cs.drop_first()) + enc_choice(c)) =~= (enc_choice(
            cs[0],
        ) + enc_choices(cs.drop_first())) + enc_choice(c));
    }
}

fn w_u64(out: &mut Vec<u8>, n: u64)
    ensures
        final(out)@ == old(out)@ + spec_u64_to_le_bytes(n),
{
    let mut b = u64_to_le_bytes(n);
    out.append(&mut b);
}

fn w_str(out: &mut Vec<u8>, s: &String)
    ensures
        final(out)@ == old(out)@ + enc_str(s@),
{
    let mut b = s.as_str().as_bytes_vec();
    w_u64(out, b.len() as u64);
    out.append(&mut b);
    assert(final(out)@ =~= old(out)@ + enc_str(s@));
}

fn w_user(out: &mut Vec<u8>, u: &UserInfo)
    ensures
        final(out)@ == old(out)@ + enc_user(u@),
{
    w_str(out, &u.username);
    w_str(out, &u.password);
    assert(final(out)@ =~= old(out)@ + enc_user(u@));
}

fn w_host(out: &mut Vec<u8>, h: &HostInfo)
    ensures
        final(out)@ == old(out)@ + enc_host(h@),
{
    let ghost base = out@;
    w_str(out, &h.ip);
    w_u64(out, h.users.len() as u64);
    let ghost pre = base + enc_str(h@.ip) + spec_u64_to_le_bytes(h@.users.len() as u64);
    assert(out@ == pre);
    let mut j: usize = 0;
    while j < h.users.len()
        invariant
            j <= h.users.len(),
            out@ == pre + enc_users(h@.users.take(j as int)),
            h@.users.len() == h.users@.len(),
            h@.users == h.users@.map_values(|u: UserInfo| u@),
            pre == base + enc_str(h@.ip) + spec_u64_to_le_bytes(h@.users.len() as u64),
        decreases h.users.len() - j,
    {
        let ghost done = h@.users.take(j as int);
        w_user(out, &h.users[j]);
        proof {
            lemma_enc_users_push(done, h@.users[j as int]);
            assert(h@.users.take(j + 1 as int) =~= done.push(h@.users[j as int]));
        }
        j += 1;
    }
    proof {
        assert(h@.users.take(h.users@.len() as int) =~= h@.users);
        assert(final(out)@ =~= base + enc_host(h@));
    }
}

fn w_choice(out: &mut Vec<u8>, c: &LastChoose)
    ensures
        final(out)@ == old(out)@ + enc_choice(c@),
{
    w_str(out, &c.ip);
    w_u64(out, c.index as u64);
    assert(final(out)@ =~= old(out)@ + enc_choice(c@));
}

impl Rdata {
    /// Marshals the vault into its byte payload.
    pub fn serialize(&self) -> (r: Vec<u8>)
        ensures
            r@ == spec_ser(self@),
    {
        let mut out: Vec<u8> = Vec::new();
        out.push(self.version);
        w_str(&mut out, &self.pwd);
        w_u64(&mut out, self.hosts.len() as u64);
        let ghost pre_hosts = seq![self@.version] + enc_str(self@.pwd) + spec_u64_to_le_bytes(
            self@.hosts.len() as u64,
        );
        assert(out@ =~= pre_hosts);
        let mut i: usize = 0;
        while i < self.hosts.len()
            invariant
                i <= self.hosts.len(),
                out@ == pre_hosts + enc_hosts(self@.hosts.take(i as int)),
                self@.hosts.len() == self.hosts@.len(),
                self@.hosts == self.hosts@.map_values(|h: HostInfo| h@),
            decreases self.hosts.len() - i,
        {
            let ghost done = self@.hosts.take(i as int);
            w_host(&mut out, &self.hosts[i]);
            proof {
                lemma_enc_hosts_push(done, self@.hosts[i as int]);
                assert(self@.hosts.take(i + 1 as int) =~= done.push(self@.hosts[i as int]));
            }
            i += 1;
        }
        proof {
            assert(self@.hosts.take(self.hosts@.len() as int) =~= self@.hosts);
        }
        w_u64(&mut out, self.current.len() as u64);
        let ghost pre_choices = pre_hosts + enc_hosts(self@.hosts) + spec_u64_to_le_bytes(
            self@.current.len() as u64,
        );
        assert(out@ =~= pre_choices);
        let mut k: usize = 0;
        while k < self.current.len()
            invariant
                k <= self.current.len(),
                out@ == pre_choices + enc_choices(self@.current.take(k as int)),
                self@.current.len() == self.current@.len(),
                self@.current == self.current@.map_values(|c: LastChoose| c@),
            decreases self.current.len() - k,
        {
            let ghost done = self@.current.take(k as int);
            w_choice(&mut out, &self.current[k]);
            proof {
                lemma_enc_choices_push(done, self@.current[k as int]);
                assert(self@.current.take(k + 1 as int) =~= done.push(self@.current[k as int]));
            }
            k += 1;
        }
        proof {
            assert(self@.current.take(self.current@.len() as int) =~= self@.current);
            assert(out@ =~= spec_ser(self@));
        }
        out
    }
}

// ---------------------------------------------------------------------------
// Readers: executable unmarshalling, each one matching its parser piece.
// ---------------------------------------------------------------------------
fn r_u64(bytes: &[u8], pos: usize) -> (r: Option<(u64, usize)>)
    requires
        pos <= bytes@.len(),
    ensures
        match r {
            Some(t) => pos <= t.1 <= bytes@.len() && p_u64(bytes@.skip(pos as int)) == Some(
                (t.0, bytes@.skip(t.1 as int)),
            ),
            None => p_u64(bytes@.skip(pos as int)) is None,
        },
{
    if bytes.len() - pos < 8 {
        return None;
    }
    let mut tmp: Vec<u8> = Vec::new();
    let mut k: usize = 0;
    while k < 8
        invariant
            bytes@.len() <= usize::MAX,
            pos + 8 <= bytes@.len(),
            k <= 8,
            tmp@ == bytes@.subrange(pos as int, pos + k),
        decreases 8 - k,
    {
        tmp.push(bytes[pos + k]);
        assert(tmp@ =~= bytes@.subrange(pos as int, pos + k + 1));
        k += 1;
    }
    let n = u64_from_le_bytes(tmp.as_slice());
    proof {
        assert(bytes@.skip(pos as int).take(8) =~= bytes@.subrange(pos as int, pos + 8));
        assert(bytes@.skip(pos as int).skip(8) =~= bytes@.skip(pos + 8));
    }
    Some((n, pos + 8))
}

fn r_str(bytes: &[u8], pos: usize) -> (r: Option<(String, usize)>)
    requires
        pos <= bytes@.len(),
    ensures
        match r {
            Some(t) => pos <= t.1 <= bytes@.len() && p_str(bytes@.skip(pos as int)) == Some(
                (t.0@, bytes@.skip(t.1 as int)),
            ),
            None => p_str(bytes@.skip(pos as int)) is None,
        },
{
    let (n, p1) = match r_u64(bytes, pos) {
        Some(t) => t,
        None => {
            return None;
        },
    };
    if n > (bytes.len() - p1) as u64 {
        assert(bytes@.skip(p1 as int).len() < n);
        return None;
    }
    let nn = n as usize;
    let mut tmp: Vec<u8> = Vec::new();
    let mut k: usize = 0;
    while k < nn
        invariant
            bytes@.len() <= usize::MAX,
            p1 + nn <= bytes@.len(),
            k <= nn,
            tmp@ == bytes@.subrange(p1 as int, p1 + k),
        decreases nn - k,
    {
        tmp.push(bytes[p1 + k]);
        assert(tmp@ =~= bytes@.subrange(p1 as int, p1 + k + 1));
        k += 1;
    }
    proof {
        assert(bytes@.skip(p1 as int).take(n as int) =~= bytes@.subrange(p1 as int, p1 + nn));
        assert(bytes@.skip(p1 as int).skip(n as int) =~= bytes@.skip(p1 + nn));
    }
    match bytes_to_string(tmp) {
        Some(s) => Some((s, p1 + nn)),
        None => None,
    }
}

fn r_user(bytes: &[u8], pos: usize) -> (r: Option<(UserInfo, usize)>)
    requires
        pos <= bytes@.len(),
    ensures
        match r {
            Some(t) => pos <= t.1 <= bytes@.len() && p_user(bytes@.skip(pos as int)) == Some(
                (t.0@, bytes@.skip(t.1 as int)),
            ),
            None => p_user(bytes@.skip(pos as int)) is None,
        },
{
    let (username, p1) = match r_str(bytes, pos) {
        Some(t) => t,
        None => {
            return None;
        },
    };
    let (password, p2) = match r_str(bytes, p1) {
        Some(t) => t,
        None => {
            return None;
        },
    };
    Some((UserInfo { username, password }, p2))
}

fn r_users(bytes: &[u8], pos: usize, n: u64) -> (r: Option<(Vec<UserInfo>, usize)>)
    requires
        pos <= bytes@.len(),
    ensures
        match r {
            Some(t) => pos <= t.1 <= bytes@.len() && p_users(bytes@.skip(pos as int), n as nat)
                == Some((t.0@.map_values(|u: UserInfo| u@), bytes@.skip(t.1 as int))),
            None => p_users(bytes@.skip(pos as int), n as nat) is None,
        },
{
    let mut acc: Vec<UserInfo> = Vec::new();
    let mut cur: usize = pos;
    let mut i: u64 = 0;
    assert(acc@.map_values(|u: UserInfo| u@) =~= Seq::<UserV>::empty());
    while i < n
        invariant
            pos <= cur <= bytes@.len(),
            i <= n,
            ({
                let full = p_users(bytes@.skip(pos as int), n as nat);
                let part = p_users(bytes@.skip(cur as int), (n - i) as nat);
                match part {
                    Some(t) => full == Some(
                        (acc@.map_values(|u: UserInfo| u@) + t.0, t.1),
                    ),
                    None => full is None,
                }
            }),
        decreases n - i,
    {
        let ghost accv = acc@.map_values(|u: UserInfo| u@);
        match r_user(bytes, cur) {
            Some((u, np)) => {
                proof {
                    let part = p_users(bytes@.skip(cur as int), (n - i) as nat);
                    let partn = p_users(bytes@.skip(np as int), (n - i - 1) as nat);
                    if partn is Some {
                        let t = partn->0;
                        assert(part == Some((seq![u@] + t.0, t.1)));
                        assert(accv + (seq![u@] + t.0) =~= accv.push(u@) + t.0);
                        assert(acc@.push(u).map_values(|x: UserInfo| x@) =~= accv.push(u@));
                    }
                }
                acc.push(u);
                cur = np;
                i += 1;
            },
            None => {
                return None;
            },
        }
    }
    proof {
        let accv = acc@.map_values(|u: UserInfo| u@);
        assert(accv + Seq::<UserV>::empty() =~= accv);
    }
    Some((acc, cur))
}

fn r_host(bytes: &[u8], pos: usize) -> (r: Option<(HostInfo, usize)>)
    requires
        pos <= bytes@.len(),
    ensures
        match r {
            Some(t) => pos <= t.1 <= bytes@.len() && p_host(bytes@.skip(pos as int)) == Some(
                (t.0@, bytes@.skip(t.1 as int)),
            ),
            None => p_host(bytes@.skip(pos as int)) is None,
        },
{
    let (ip, p1) = match r_str(bytes, pos) {
        Some(t) => t,
        None => {
            return None;
        },
    };
    let (nu, p2) = match r_u64(bytes, p1) {
        Some(t) => t,
        None => {
            return None;
        },
    };
    let (users, p3) = match r_users(bytes, p2, nu) {
        Some(t) => t,
        None => {
            return None;
        },
    };
    Some((HostInfo { ip, users }, p3))
}

fn r_hosts(bytes: &[u8], pos: usize, n: u64) -> (r: Option<(Vec<HostInfo>, usize)>)
    requires
        pos <= bytes@.len(),
    ensures
        match r {
            Some(t) => pos <= t.1 <= bytes@.len() && p_hosts(bytes@.skip(pos as int), n as nat)
                == Some((t.0@.map_values(|h: HostInfo| h@), bytes@.skip(t.1 as int))),
            None => p_hosts(bytes@.skip(pos as int), n as nat) is None,
        },
{
    let mut acc: Vec<HostInfo> = Vec::new();
    let mut cur: usize = pos;
    let mut i: u64 = 0;
    assert(acc@.map_values(|h: HostInfo| h@) =~= Seq::<HostV>::empty());
    while i < n
        invariant
            pos <= cur <= bytes@.len(),
            i <= n,
            ({
                let full = p_hosts(bytes@.skip(pos as int), n as nat);
                let part = p_hosts(bytes@.skip(cur as int), (n - i) as nat);
                match part {
                    Some(t) => full == Some(
                        (acc@.map_values(|h: HostInfo| h@) + t.0, t.1),
                    ),
                    None => full is None,
                }
            }),
        decreases n - i,
    {
        let ghost accv = acc@.map_values(|h: HostInfo| h@);
        match r_host(bytes, cur) {
            Some((h, np)) => {
                proof {
                    let partn = p_hosts(bytes@.skip(np as int), (n - i - 1) as nat);
                    if partn is Some {
                        let t = partn->0;
                        assert(accv + (seq![h@] + t.0) =~= accv.push(h@) + t.0);
                        assert(acc@.push(h).map_values(|x: HostInfo| x@) =~= accv.push(h@));
                    }
                }
                acc.push(h);
                cur = np;
                i += 1;
            },
            None => {
                return None;
            },
        }
    }
    proof {
        let accv = acc@.map_values(|h: HostInfo| h@);
        assert(accv + Seq::<HostV>::empty() =~= accv);
    }
    Some((acc, cur))
}

fn r_choice(bytes: &[u8], pos: usize) -> (r: Option<(LastChoose, usize)>)
    requires
        pos <= bytes@.len(),
    ensures
        match r {
            Some(t) => pos <= t.1 <= bytes@.len() && p_choice(bytes@.skip(pos as int)) == Some(
                (t.0@, bytes@.skip(t.1 as int)),
            ),
            None => p_choice(bytes@.skip(pos as int)) is None,
        },
{
    let (ip, p1) = match r_str(bytes, pos) {
        Some(t) => t,
        None => {
            return None;
        },
    };
    let (n, p2) = match r_u64(bytes, p1) {
        Some(t) => t,
        None => {
            return None;
        },
    };
    if n > usize::MAX as u64 {
        return None;
    }
    Some((LastChoose { ip, index: n as usize }, p2))
}

fn r_choices(bytes: &[u8], pos: usize, n: u64) -> (r: Option<(Vec<LastChoose>, usize)>)
    requires
        pos <= bytes@.len(),
    ensures
        match r {
            Some(t) => pos <= t.1 <= bytes@.len() && p_choices(bytes@.skip(pos as int), n as nat)
                == Some((t.0@.map_values(|c: LastChoose| c@), bytes@.skip(t.1 as int))),
            None => p_choices(bytes@.skip(pos as int), n as nat) is None,
        },
{
    let mut acc: Vec<LastChoose> = Vec::new();
    let mut cur: usize = pos;
    let mut i: u64 = 0;
    assert(acc@.map_values(|c: LastChoose| c@) =~= Seq::<ChooseV>::empty());
    while i < n
        invariant
            pos <= cur <= bytes@.len(),
            i <= n,
            ({
                let full = p_choices(bytes@.skip(pos as int), n as nat);
                let part = p_choices(bytes@.skip(cur as int), (n - i) as nat);
                match part {
                    Some(t) => full == Some(
                        (acc@.map_values(|c: LastChoose| c@) + t.0, t.1),
                    ),
                    None => full is None,
                }
            }),
        decreases n - i,
    {
        let ghost accv = acc@.map_values(|c: LastChoose| c@);
        match r_choice(bytes, cur) {
            Some((c, np)) => {
                proof {
                    let partn = p_choices(bytes@.skip(np as int), (n - i - 1) as nat);
                    if partn is Some {
                        let t = partn->0;
                        assert(accv + (seq![c@] + t.0) =~= accv.push(c@) + t.0);
                        assert(acc@.push(c).map_values(|x: LastChoose| x@) =~= accv.push(c@));
                    }
                }
                acc.push(c);
                cur = np;
                i += 1;
            },
            None => {
                return None;
            },
        }
    }
    proof {
        let accv = acc@.map_values(|c: LastChoose| c@);
        assert(accv + Seq::<ChooseV>::empty() =~= accv);
    }
    Some((acc, cur))
}

impl Rdata {
    /// Unmarshals a byte payload back into a vault.
    ///
    /// Fails with `SchemaError` exactly when the payload is not a complete
    /// well-shaped marshalling of some vault.
    pub fn deserialize(bytes: &[u8]) -> (r: Result<Rdata, MyErr>)
        ensures
            match spec_deser(bytes@) {
                Some(v) => r is Ok && r->Ok_0@ == v,
                None => r is Err && r->Err_0.kind == ErrKind::SchemaError,
            },
    {
        if bytes.len() < 1 {
            return Err(MyErr { kind: ErrKind::SchemaError });
        }
        let version = bytes[0];
        proof {
            assert(bytes@.skip(0).len() >= 1);
            assert(bytes@.skip(0)[0] == bytes@[0]);
        }
        let (pwd, p1) = match r_str(bytes, 1) {
            Some(t) => t,
            None => {
                assert(bytes@.skip(0).skip(1) =~= bytes@.skip(1));
                return Err(MyErr { kind: ErrKind::SchemaError });
            },
        };
        proof {
            assert(bytes@.skip(0).skip(1) =~= bytes@.skip(1));
        }
        let (nh, p2) = match r_u64(bytes, p1) {
            Some(t) => t,
            None => {
                return Err(MyErr { kind: ErrKind::SchemaError });
            },
        };
        let (hosts, p3) = match r_hosts(bytes, p2, nh) {
            Some(t) => t,
            None => {
                return Err(MyErr { kind: ErrKind::SchemaError });
            },
        };
        let (nc, p4) = match r_u64(bytes, p3) {
            Some(t) => t,
            None => {
                return Err(MyErr { kind: ErrKind::SchemaError });
            },
        };
        let (current, p5) = match r_choices(bytes, p4, nc) {
            Some(t) => t,
            None => {
                return Err(MyErr { kind: ErrKind::SchemaError });
            },
        };
        if p5 != bytes.len() {
            assert(bytes@.skip(p5 as int).len() != 0);
            return Err(MyErr { kind: ErrKind::SchemaError });
        }
        let data = Rdata { current, hosts, pwd, version };
        proof {
            assert(bytes@.skip(p5 as int).len() == 0);
        }
        Ok(data)
    }
}

} // verus!
