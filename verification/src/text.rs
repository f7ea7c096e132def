//! Verified text utilities: first-occurrence search, the three-field line
//! shape used by import/export and disambiguation, lexicographic string
//! order with a verified sort, and decimal parsing of a choice number.

use vstd::prelude::*;
use vstd::seq_lib::lemma_multiset_commutative;
use vstd::string::StrSliceExecFns;
use vstd::string::StringExecFns;

verus! {

/// The first index of `c` in `s`, or -1.
pub open spec fn find_ch(s: Seq<char>, c: char) -> int
    decreases s.len(),
{
    if s.len() == 0 {
        -1
    } else if s[0] == c {
        0
    } else {
        let r = find_ch(s.drop_first(), c);
        if r == -1 {
            -1
        } else {
            r + 1
        }
    }
}

/// `find_ch` returns -1 exactly when `c` does not occur, and otherwise its
/// first index.
pub proof fn lemma_find_ch(s: Seq<char>, c: char)
    ensures
        find_ch(s, c) == -1 ==> forall|i: int| 0 <= i < s.len() ==> s[i] != c,
        find_ch(s, c) != -1 ==> {
            &&& 0 <= find_ch(s, c) < s.len()
            &&& s[find_ch(s, c)] == c
            &&& forall|i: int| 0 <= i < find_ch(s, c) ==> s[i] != c
        },
    decreases s.len(),
{
    if s.len() > 0 && s[0] != c {
        let d = s.drop_first();
        lemma_find_ch(d, c);
        if find_ch(s, c) == -1 {
            assert forall|i: int| 0 <= i < s.len() implies s[i] != c by {
                if i >= 1 {
                    assert(s[i] == d[i - 1]);
                }
            }
        } else {
            let r = find_ch(s, c);
            assert(s[r] == d[r - 1]);
            assert forall|i: int| 0 <= i < r implies s[i] != c by {
                if i >= 1 {
                    assert(s[i] == d[i - 1]);
                }
            }
        }
    }
}

proof fn lemma_find_ch_is_first(s: Seq<char>, c: char, k: int)
    requires
        0 <= k < s.len(),
        s[k] == c,
        forall|i: int| 0 <= i < k ==> s[i] != c,
    ensures
        find_ch(s, c) == k,
    decreases k,
{
    if k > 0 {
        let d = s.drop_first();
        assert forall|i: int| 0 <= i < k - 1 implies d[i] != c by {
            assert(d[i] == s[i + 1]);
        }
        assert(d[k - 1] == s[k]);
        lemma_find_ch_is_first(d, c, k - 1);
    }
}

proof fn lemma_find_ch_none(s: Seq<char>, c: char)
    requires
        forall|i: int| 0 <= i < s.len() ==> s[i] != c,
    ensures
        find_ch(s, c) == -1,
    decreases s.len(),
{
    if s.len() > 0 {
        let d = s.drop_first();
        assert forall|i: int| 0 <= i < d.len() implies d[i] != c by {
            assert(d[i] == s[i + 1]);
        }
        lemma_find_ch_none(d, c);
    }
}

/// The first index of `c` in `s`, where -1 means `c` does not occur.
pub fn find_char(s: &str, c: char) -> (r: i64)
    requires
        s@.len() <= i64::MAX,
    ensures
        r as int == find_ch(s@, c),
{
    let n = s.unicode_len();
    let mut i: usize = 0;
    while i < n
        invariant
            n == s@.len(),
            n <= i64::MAX,
            i <= n,
            forall|t: int| 0 <= t < i ==> s@[t] != c,
        decreases n - i,
    {
        if s.get_char(i) == c {
            proof {
                lemma_find_ch_is_first(s@, c, i as int);
            }
            return i as i64;
        }
        i += 1;
    }
    proof {
        lemma_find_ch_none(s@, c);
    }
    -1
}

/// The three space-separated fields of a line of the form
/// `address username password`, where each of the first two fields is
/// delimited by a single space and the third holds no space at all; any
/// other shape has no fields.
pub open spec fn line_fields(s: Seq<char>) -> Option<(Seq<char>, Seq<char>, Seq<char>)> {
    let i = find_ch(s, ' ');
    if i == -1 {
        None
    } else {
        let rest = s.skip(i + 1);
        let j = find_ch(rest, ' ');
        if j == -1 {
            None
        } else {
            let rest2 = rest.skip(j + 1);
            if find_ch(rest2, ' ') != -1 {
                None
            } else {
                Some((s.take(i), rest.take(j), rest2))
            }
        }
    }
}

/// Splits a line into its three space-separated fields, or reports that the
/// line is not of that shape.
pub fn split3(s: &str) -> (r: Option<(String, String, String)>)
    requires
        s@.len() <= i64::MAX,
    ensures
        match r {
            Some(t) => line_fields(s@) == Some((t.0@, t.1@, t.2@)),
            None => line_fields(s@) is None,
        },
{
    let n = s.unicode_len();
    let i = find_char(s, ' ');
    proof {
        lemma_find_ch(s@, ' ');
    }
    if i < 0 {
        return None;
    }
    let iu = i as usize;
    let rest = s.substring_char(iu + 1, n);
    proof {
        assert(rest@ =~= s@.skip(i + 1));
    }
    let m = rest.unicode_len();
    let j = find_char(rest, ' ');
    proof {
        lemma_find_ch(rest@, ' ');
    }
    if j < 0 {
        return None;
    }
    let ju = j as usize;
    let rest2 = rest.substring_char(ju + 1, m);
    proof {
        assert(rest2@ =~= rest@.skip(j + 1));
    }
    let k = find_char(rest2, ' ');
    proof {
        lemma_find_ch(rest2@, ' ');
    }
    if k >= 0 {
        return None;
    }
    let f0 = s.substring_char(0, iu);
    let f1 = rest.substring_char(0, ju);
    proof {
        assert(f0@ =~= s@.take(i as int));
        assert(f1@ =~= rest@.take(j as int));
    }
    Some((String::from_str(f0), String::from_str(f1), String::from_str(rest2)))
}

/// The first three space-separated fields of a line: the parse-back shape
/// of a rendered candidate, where anything after the third field's next
/// space is dropped.
pub open spec fn first3(s: Seq<char>) -> Option<(Seq<char>, Seq<char>, Seq<char>)> {
    let i = find_ch(s, ' ');
    if i == -1 {
        None
    } else {
        let rest = s.skip(i + 1);
        let j = find_ch(rest, ' ');
        if j == -1 {
            None
        } else {
            let rest2 = rest.skip(j + 1);
            let k = find_ch(rest2, ' ');
            if k == -1 {
                Some((s.take(i), rest.take(j), rest2))
            } else {
                Some((s.take(i), rest.take(j), rest2.take(k)))
            }
        }
    }
}

/// Splits a line into its first three space-separated fields, or reports
/// that it has fewer than three.
pub fn split_first3(s: &str) -> (r: Option<(String, String, String)>)
    requires
        s@.len() <= i64::MAX,
    ensures
        match r {
            Some(t) => first3(s@) == Some((t.0@, t.1@, t.2@)),
            None => first3(s@) is None,
        },
{
    let n = s.unicode_len();
    let i = find_char(s, ' ');
    proof {
        lemma_find_ch(s@, ' ');
    }
    if i < 0 {
        return None;
    }
    let iu = i as usize;
    let rest = s.substring_char(iu + 1, n);
    proof {
        assert(rest@ =~= s@.skip(i + 1));
    }
    let m = rest.unicode_len();
    let j = find_char(rest, ' ');
    proof {
        lemma_find_ch(rest@, ' ');
    }
    if j < 0 {
        return None;
    }
    let ju = j as usize;
    let rest2 = rest.substring_char(ju + 1, m);
    proof {
        assert(rest2@ =~= rest@.skip(j + 1));
    }
    let m2 = rest2.unicode_len();
    let k = find_char(rest2, ' ');
    proof {
        lemma_find_ch(rest2@, ' ');
    }
    let f2 = if k >= 0 {
        let ku = k as usize;
        rest2.substring_char(0, ku)
    } else {
        rest2
    };
    let f0 = s.substring_char(0, iu);
    let f1 = rest.substring_char(0, ju);
    proof {
        assert(f0@ =~= s@.take(i as int));
        assert(f1@ =~= rest@.take(j as int));
        if k >= 0 {
            assert(f2@ =~= rest2@.take(k as int));
        }
    }
    Some((String::from_str(f0), String::from_str(f1), String::from_str(f2)))
}

/// Lexicographic order on strings by character value, the order in which
/// disambiguation candidates are numbered.
pub open spec fn str_le(a: Seq<char>, b: Seq<char>) -> bool
    decreases a.len(),
{
    if a.len() == 0 {
        true
    } else if b.len() == 0 {
        false
    } else if a[0] < b[0] {
        true
    } else if b[0] < a[0] {
        false
    } else {
        str_le(a.drop_first(), b.drop_first())
    }
}

/// The order is total.
pub proof fn lemma_str_le_total(a: Seq<char>, b: Seq<char>)
    ensures
        str_le(a, b) || str_le(b, a),
    decreases a.len(),
{
    if a.len() > 0 && b.len() > 0 && a[0] == b[0] {
        lemma_str_le_total(a.drop_first(), b.drop_first());
    }
}

/// The order is transitive.
pub proof fn lemma_str_le_trans(a: Seq<char>, b: Seq<char>, c: Seq<char>)
    requires
        str_le(a, b),
        str_le(b, c),
    ensures
        str_le(a, c),
    decreases a.len(),
{
    if a.len() > 0 && b.len() > 0 && c.len() > 0 && a[0] == b[0] && b[0] == c[0] {
        lemma_str_le_trans(a.drop_first(), b.drop_first(), c.drop_first());
    }
}

/// Compares two strings in the lexicographic order.
pub fn str_le_exec(a: &String, b: &String) -> (r: bool)
    ensures
        r == str_le(a@, b@),
{
    let an = a.as_str().unicode_len();
    let bn = b.as_str().unicode_len();
    let mut i: usize = 0;
    proof {
        assert(a@.skip(0) =~= a@);
        assert(b@.skip(0) =~= b@);
    }
    loop
        invariant
            an == a@.len(),
            bn == b@.len(),
            i <= an,
            i <= bn,
            forall|t: int| 0 <= t < i ==> a@[t] == b@[t],
            str_le(a@, b@) == str_le(a@.skip(i as int), b@.skip(i as int)),
            str_le(b@, a@) == str_le(b@.skip(i as int), a@.skip(i as int)),
        decreases an - i,
    {
        if i >= an {
            assert(a@.skip(i as int).len() == 0);
            return true;
        }
        if i >= bn {
            assert(b@.skip(i as int).len() == 0);
            assert(a@.skip(i as int).len() > 0);
            return false;
        }
        let ca = a.as_str().get_char(i);
        let cb = b.as_str().get_char(i);
        proof {
            assert(a@.skip(i as int)[0] == a@[i as int]);
            assert(b@.skip(i as int)[0] == b@[i as int]);
        }
        if (ca as u32) < (cb as u32) {
            return true;
        }
        if (cb as u32) < (ca as u32) {
            return false;
        }
        proof {
            assert(a@.skip(i as int).drop_first() =~= a@.skip(i + 1));
            assert(b@.skip(i as int).drop_first() =~= b@.skip(i + 1));
        }
        i += 1;
    }
}

/// The views of the strings in a vector.
pub open spec fn views_of(v: Seq<String>) -> Seq<Seq<char>> {
    v.map_values(|s: String| s@)
}

/// The sequence is sorted in the lexicographic order.
pub open spec fn sorted_strs(s: Seq<Seq<char>>) -> bool {
    forall|i: int, j: int| 0 <= i < j < s.len() ==> str_le(#[trigger] s[i], #[trigger] s[j])
}

/// Sorts strings into the lexicographic order, keeping exactly the same
/// collection of strings.
pub fn sort_strings(v: Vec<String>) -> (r: Vec<String>)
    ensures
        sorted_strs(views_of(r@)),
        views_of(r@).to_multiset() == views_of(v@).to_multiset(),
{
    broadcast use vstd::seq_lib::group_to_multiset_ensures;

    let mut src = v;
    let mut out: Vec<String> = Vec::new();
    let ghost orig = views_of(src@);
    proof {
        assert(views_of(out@) =~= Seq::<Seq<char>>::empty());
        assert(views_of(out@).to_multiset().add(views_of(src@).to_multiset()) =~= orig.to_multiset());
    }
    while src.len() > 0
        invariant
            views_of(out@).to_multiset().add(views_of(src@).to_multiset()) == orig.to_multiset(),
            sorted_strs(views_of(out@)),
            forall|k: int, t: int|
                0 <= k < out@.len() && 0 <= t < src@.len() ==> str_le(
                    #[trigger] views_of(out@)[k],
                    #[trigger] views_of(src@)[t],
                ),
        decreases src.len(),
    {
        let mut mi: usize = 0;
        let mut t: usize = 1;
        proof {
            lemma_str_le_total(src@[0]@, src@[0]@);
            assert(views_of(src@)[0] == src@[0]@);
        }
        while t < src.len()
            invariant
                src@.len() > 0,
                mi < src@.len(),
                1 <= t <= src@.len(),
                forall|k: int| 0 <= k < t ==> str_le(views_of(src@)[mi as int], #[trigger] views_of(src@)[k]),
            decreases src.len() - t,
        {
            if str_le_exec(&src[t], &src[mi]) {
                proof {
                    assert forall|k: int| 0 <= k < t + 1 implies str_le(
                        views_of(src@)[t as int],
                        #[trigger] views_of(src@)[k],
                    ) by {
                        assert(views_of(src@)[t as int] == src@[t as int]@);
                        assert(views_of(src@)[mi as int] == src@[mi as int]@);
                        assert(views_of(src@)[k] == src@[k]@);
                        if k < t {
                            lemma_str_le_trans(src@[t as int]@, src@[mi as int]@, src@[k]@);
                        } else {
                            lemma_str_le_total(src@[t as int]@, src@[t as int]@);
                        }
                    }
                }
                mi = t;
            } else {
                proof {
                    lemma_str_le_total(src@[t as int]@, src@[mi as int]@);
                    assert(views_of(src@)[t as int] == src@[t as int]@);
                    assert(views_of(src@)[mi as int] == src@[mi as int]@);
                }
            }
            t += 1;
        }
        let ghost src_before = src@;
        let ghost out_before = out@;
        let x = src.remove(mi);
        out.push(x);
        proof {
            broadcast use vstd::seq_lib::group_to_multiset_ensures;

            let sb = views_of(src_before);
            let ob = views_of(out_before);
            assert(views_of(src@) =~= sb.remove(mi as int));
            assert(views_of(out@) =~= ob.push(x@));
            assert(sb[mi as int] == x@);
            assert(sb.contains(x@));
            assert(ob.push(x@).to_multiset() =~= ob.to_multiset().insert(x@));
            assert(sb.remove(mi as int).to_multiset() =~= sb.to_multiset().remove(x@));
            assert(views_of(out@).to_multiset().add(views_of(src@).to_multiset())
                =~= views_of(out_before).to_multiset().add(views_of(src_before).to_multiset()));
            assert forall|k: int, t2: int|
                0 <= k < out@.len() && 0 <= t2 < src@.len() implies str_le(
                #[trigger] views_of(out@)[k],
                #[trigger] views_of(src@)[t2],
            ) by {
                let n = out_before.len() as int;
                let origk = if t2 < mi {
                    t2
                } else {
                    t2 + 1
                };
                assert(views_of(src@)[t2] == views_of(src_before)[origk]);
                if k < n {
                    assert(views_of(out@)[k] == views_of(out_before)[k]);
                } else {
                    assert(views_of(out@)[k] == x@);
                }
            }
            assert forall|i1: int, j1: int|
                0 <= i1 < j1 < out@.len() implies str_le(
                #[trigger] views_of(out@)[i1],
                #[trigger] views_of(out@)[j1],
            ) by {
                let n = out_before.len() as int;
                if j1 < n {
                    assert(views_of(out@)[i1] == views_of(out_before)[i1]);
                    assert(views_of(out@)[j1] == views_of(out_before)[j1]);
                } else {
                    assert(views_of(out@)[i1] == views_of(out_before)[i1]);
                    assert(views_of(out@)[j1] == x@);
                    assert(str_le(views_of(out_before)[i1], views_of(src_before)[mi as int]));
                }
            }
        }
    }
    proof {
        assert(views_of(src@) =~= Seq::<Seq<char>>::empty());
        assert(views_of(out@).to_multiset() =~= orig.to_multiset());
    }
    out
}

/// The rendered candidate line `address username password`.
pub open spec fn render_line(ip: Seq<char>, user: Seq<char>, pw: Seq<char>) -> Seq<char> {
    ip + seq![' '] + user + seq![' '] + pw
}

/// Renders a credential as its `address username password` line.
pub fn render_cred(ip: &String, user: &String, pw: &String) -> (r: String)
    ensures
        r@ == render_line(ip@, user@, pw@),
{
    let mut s = String::new();
    s.append(ip.as_str());
    s.append(" ");
    s.append(user.as_str());
    s.append(" ");
    s.append(pw.as_str());
    proof {
        reveal_strlit(" ");
        assert(s@ =~= render_line(ip@, user@, pw@));
    }
    s
}

/// An ASCII whitespace character, as stripped from a choice answer.
pub open spec fn is_space(c: char) -> bool {
    c == ' ' || c == '\t' || c == '\n' || c == '\r'
}

/// The string with leading whitespace stripped.
pub open spec fn trim_front(s: Seq<char>) -> Seq<char>
    decreases s.len(),
{
    if s.len() > 0 && is_space(s[0]) {
        trim_front(s.drop_first())
    } else {
        s
    }
}

/// The string with trailing whitespace stripped.
pub open spec fn trim_back(s: Seq<char>) -> Seq<char>
    decreases s.len(),
{
    if s.len() > 0 && is_space(s.last()) {
        trim_back(s.drop_last())
    } else {
        s
    }
}

/// The string with whitespace stripped from both ends.
pub open spec fn trim_spec(s: Seq<char>) -> Seq<char> {
    trim_back(trim_front(s))
}

proof fn lemma_trim_front_at(s: Seq<char>, i: int)
    requires
        0 <= i <= s.len(),
        forall|t: int| 0 <= t < i ==> is_space(s[t]),
        i < s.len() ==> !is_space(s[i]),
    ensures
        trim_front(s) == s.skip(i),
    decreases i,
{
    if i == 0 {
        assert(s.skip(0) =~= s);
    } else {
        let d = s.drop_first();
        assert forall|t: int| 0 <= t < i - 1 implies is_space(d[t]) by {
            assert(d[t] == s[t + 1]);
        }
        assert(i - 1 < d.len() ==> d[i - 1] == s[i]);
        lemma_trim_front_at(d, i - 1);
        assert(d.skip(i - 1) =~= s.skip(i));
    }
}

proof fn lemma_trim_back_at(s: Seq<char>, i: int)
    requires
        0 <= i <= s.len(),
        forall|t: int| i <= t < s.len() ==> is_space(s[t]),
        i > 0 ==> !is_space(s[i - 1]),
    ensures
        trim_back(s) == s.take(i),
    decreases s.len() - i,
{
    if i == s.len() {
        assert(s.take(i) =~= s);
    } else {
        let d = s.drop_last();
        assert(is_space(s.last()));
        assert forall|t: int| i <= t < d.len() implies is_space(d[t]) by {
            assert(d[t] == s[t]);
        }
        lemma_trim_back_at(d, i);
        assert(d.take(i) =~= s.take(i));
    }
}

/// Whether the character is ASCII whitespace.
fn is_space_char(c: char) -> (r: bool)
    ensures
        r == is_space(c),
{
    c == ' ' || c == '\t' || c == '\n' || c == '\r'
}

/// Strips whitespace from both ends of the string.
pub fn trim_exec(s: &str) -> (r: &str)
    ensures
        r@ == trim_spec(s@),
{
    let n = s.unicode_len();
    let mut a: usize = 0;
    while a < n && is_space_char(s.get_char(a))
        invariant
            n == s@.len(),
            a <= n,
            forall|t: int| 0 <= t < a ==> is_space(s@[t]),
        decreases n - a,
    {
        a += 1;
    }
    let mut b: usize = n;
    while b > a && is_space_char(s.get_char(b - 1))
        invariant
            n == s@.len(),
            a <= b <= n,
            forall|t: int| 0 <= t < a ==> is_space(s@[t]),
            a < n ==> !is_space(s@[a as int]),
            forall|t: int| b <= t < n ==> is_space(s@[t]),
        decreases b,
    {
        b -= 1;
    }
    let r = s.substring_char(a, b);
    proof {
        lemma_trim_front_at(s@, a as int);
        let f = s@.skip(a as int);
        if b == a {
            lemma_trim_back_at(f, 0);
        } else {
            assert forall|t: int| b - a <= t < f.len() implies is_space(f[t]) by {
                assert(f[t] == s@[t + a]);
            }
            assert(f[b - a - 1] == s@[b - 1]);
            lemma_trim_back_at(f, b - a);
        }
        assert(f.take(b - a) =~= s@.subrange(a as int, b as int));
    }
    r
}

/// A decimal digit.
pub open spec fn is_digit(c: char) -> bool {
    '0' <= c <= '9'
}

/// Every character is a decimal digit.
pub open spec fn all_digits(s: Seq<char>) -> bool {
    forall|i: int| 0 <= i < s.len() ==> is_digit(#[trigger] s[i])
}

/// The value of a digit string, most significant first.
pub open spec fn digits_val(s: Seq<char>) -> int
    decreases s.len(),
{
    if s.len() == 0 {
        0
    } else {
        digits_val(s.drop_last()) * 10 + (s.last() as int - '0' as int)
    }
}

/// The digit part of a choice answer: what follows an optional leading `+`.
pub open spec fn parse_body(s: Seq<char>) -> Seq<char> {
    if s.len() >= 1 && s[0] == '+' {
        s.drop_first()
    } else {
        s
    }
}

/// The number a choice answer denotes: an optional leading `+`, then one or
/// more decimal digits whose value fits the machine word; anything else
/// denotes nothing.
pub open spec fn parse_usize_spec(s: Seq<char>) -> Option<usize> {
    let body = parse_body(s);
    if body.len() == 0 {
        None
    } else if !all_digits(body) {
        None
    } else if digits_val(body) > usize::MAX {
        None
    } else {
        Some(digits_val(body) as usize)
    }
}

proof fn lemma_digits_step(s: Seq<char>, i: int)
    requires
        0 <= i < s.len(),
    ensures
        digits_val(s.take(i + 1)) == digits_val(s.take(i)) * 10 + (s[i] as int - '0' as int),
{
    assert(s.take(i + 1).drop_last() =~= s.take(i));
    assert(s.take(i + 1).last() == s[i]);
}

proof fn lemma_digits_grow(s: Seq<char>, i: int, j: int)
    requires
        0 <= i <= j <= s.len(),
        digits_val(s.take(i)) >= 0,
        forall|t: int| i <= t < j ==> is_digit(#[trigger] s[t]),
    ensures
        digits_val(s.take(j)) >= digits_val(s.take(i)),
    decreases j - i,
{
    if j > i {
        lemma_digits_grow(s, i, j - 1);
        lemma_digits_step(s, j - 1);
        assert(is_digit(s[j - 1]));
    }
}

/// Reads a digit string (with optional leading `+`) as a number, reporting
/// nothing when the shape is wrong or the value does not fit.
pub fn parse_usize(s: &str) -> (r: Option<usize>)
    ensures
        r == parse_usize_spec(s@),
{
    let n = s.unicode_len();
    let start: usize = if n >= 1 && s.get_char(0) == '+' {
        1
    } else {
        0
    };
    let ghost body = parse_body(s@);
    proof {
        assert(body =~= s@.skip(start as int));
        assert(body.len() == n - start);
        assert(forall|t: int| 0 <= t < body.len() ==> body[t] == s@[t + start]);
    }
    if n == start {
        return None;
    }
    let mut acc: usize = 0;
    let mut i: usize = start;
    while i < n
        invariant
            n == s@.len(),
            start <= i <= n,
            body == parse_body(s@),
            body == s@.skip(start as int),
            body.len() == n - start,
            forall|t: int| 0 <= t < body.len() ==> body[t] == s@[t + start],
            forall|t: int| 0 <= t < i - start ==> is_digit(#[trigger] body[t]),
            acc == digits_val(body.take(i - start)),
        decreases n - i,
    {
        let c = s.get_char(i);
        let cu = c as u32;
        if !(cu >= 48 && cu <= 57) {
            proof {
                assert(!is_digit(body[i - start]));
                assert(!all_digits(body));
            }
            return None;
        }
        assert(is_digit(body[i - start]));
        let d = (cu - 48) as usize;
        proof {
            lemma_digits_step(body, i - start);
        }
        if acc > (usize::MAX - d) / 10 {
            proof {
                let q = (usize::MAX - d) / 10;
                assert(usize::MAX - d < (q + 1) * 10);
                assert(acc * 10 + d > usize::MAX);
                assert(digits_val(body.take(i - start + 1)) > usize::MAX);
                if all_digits(body) {
                    lemma_digits_grow(body, i - start + 1, body.len() as int);
                    assert(body.take(body.len() as int) =~= body);
                    assert(digits_val(body) > usize::MAX);
                }
            }
            return None;
        }
        acc = acc * 10 + d;
        i += 1;
    }
    proof {
        assert(body.take(body.len() as int) =~= body);
    }
    Some(acc)
}

} // verus!
