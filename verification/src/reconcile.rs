//! Synthesizing a registry name from a URL. When the configuration file
//! holds a URL the profile does not know, a name is derived from the URL's
//! host: schemes are stripped, the text up to the first slash is kept, dots
//! and colons become dashes, and a numeric suffix is appended until the name
//! collides with no custom registry.

use vstd::prelude::*;
use vstd::string::StrSliceExecFns;
use vstd::string::StringExecFns;

use crate::codec::p_profile;
use crate::codec::parse_profile;
use crate::error::NrsError;
use crate::lines::lines_of;
use crate::npmrc::read_registry_url;
use crate::npmrc::registry_url_of;
use crate::profile::find_key;
use crate::profile::find_url;
use crate::profile::has_key;
use crate::profile::has_url;
use crate::profile::name_for_url;
use crate::profile::unique_keys;
use crate::profile::wf;
use crate::profile::Config;
use crate::profile::ProfileView;
use crate::profile::RegMap;
use crate::sort::names_sorted;
use crate::sort::sort_names;
use crate::text::dec_digits;
use crate::text::has_prefix;
use crate::text::lemma_dec_digits_val;
use crate::text::render_dec;
use crate::text::str_has_prefix;

verus! {

/// `s` with every leading occurrence of `p` removed.
pub open spec fn strip_all(s: Seq<char>, p: Seq<char>) -> Seq<char>
    decreases s.len(),
{
    if p.len() > 0 && has_prefix(s, p) {
        strip_all(s.skip(p.len() as int), p)
    } else {
        s
    }
}

/// The text before the first slash.
pub open spec fn until_slash(s: Seq<char>) -> Seq<char>
    decreases s.len(),
{
    if s.len() == 0 {
        s
    } else if s[0] == '/' {
        Seq::<char>::empty()
    } else {
        seq![s[0]] + until_slash(s.drop_first())
    }
}

/// Dots and colons become dashes.
pub open spec fn dash_char(c: char) -> char {
    if c == '.' || c == ':' {
        '-'
    } else {
        c
    }
}

/// Every character rewritten by [`dash_char`].
pub open spec fn dashify(s: Seq<char>) -> Seq<char> {
    s.map_values(|c: char| dash_char(c))
}

/// The name a URL's host suggests.
pub open spec fn host_name(u: Seq<char>) -> Seq<char> {
    dashify(until_slash(strip_all(strip_all(u, "http://"@), "https://"@)))
}

/// The host name with a numeric suffix.
pub open spec fn candidate(base: Seq<char>, t: nat) -> Seq<char> {
    base + seq!['-'] + dec_digits(t)
}

/// Distinct suffixes give distinct candidates.
pub proof fn lemma_candidate_injective(base: Seq<char>, u: nat, t: nat)
    requires
        candidate(base, u) == candidate(base, t),
    ensures
        u == t,
{
    lemma_dec_digits_val(u);
    lemma_dec_digits_val(t);
    let cu = candidate(base, u);
    let ct = candidate(base, t);
    assert(cu.len() == base.len() + 1 + dec_digits(u).len());
    assert(ct.len() == base.len() + 1 + dec_digits(t).len());
    assert(dec_digits(u) =~= cu.subrange(base.len() as int + 1, cu.len() as int));
    assert(dec_digits(t) =~= ct.subrange(base.len() as int + 1, ct.len() as int));
    assert(dec_digits(u) == dec_digits(t));
}

/// A candidate is longer than its base, so it never equals the base.
pub proof fn lemma_candidate_not_base(base: Seq<char>, t: nat)
    ensures
        candidate(base, t) != base,
{
    lemma_dec_digits_val(t);
    assert(candidate(base, t).len() >= base.len() + 2);
}

/// The base name together with the first `k` candidates.
pub open spec fn cand_set(base: Seq<char>, k: nat) -> Set<Seq<char>>
    decreases k,
{
    if k == 0 {
        Set::<Seq<char>>::empty().insert(base)
    } else {
        cand_set(base, (k - 1) as nat).insert(candidate(base, k))
    }
}

/// The candidate set is finite, holds exactly the base and the candidates
/// with suffix at most `k`, and has `k + 1` members.
pub proof fn lemma_cand_set(base: Seq<char>, k: nat)
    ensures
        cand_set(base, k).finite(),
        cand_set(base, k).len() == k + 1,
        forall|s: Seq<char>|
            cand_set(base, k).contains(s) <==> (s == base || exists|u: int|
                1 <= u <= k && s == #[trigger] candidate(base, u as nat)),
    decreases k,
{
    if k == 0 {
        assert forall|s: Seq<char>| cand_set(base, 0).contains(s) implies (s == base || exists|
            u: int,
        | 1 <= u <= 0 && s == #[trigger] candidate(base, u as nat)) by {}
    } else {
        lemma_cand_set(base, (k - 1) as nat);
        assert(!cand_set(base, (k - 1) as nat).contains(candidate(base, k))) by {
            if cand_set(base, (k - 1) as nat).contains(candidate(base, k)) {
                if candidate(base, k) == base {
                    lemma_candidate_not_base(base, k);
                } else {
                    let u = choose|u: int|
                        1 <= u <= k - 1 && candidate(base, k) == #[trigger] candidate(base, u as nat);
                    lemma_candidate_injective(base, u as nat, k);
                }
            }
        }
        assert forall|s: Seq<char>| cand_set(base, k).contains(s) implies (s == base || exists|
            u: int,
        | 1 <= u <= k && s == #[trigger] candidate(base, u as nat)) by {
            if s == candidate(base, k) {
                assert(1 <= k as int <= k && s == candidate(base, (k as int) as nat));
            } else {
                assert(cand_set(base, (k - 1) as nat).contains(s));
            }
        }
        assert forall|s: Seq<char>|
            (s == base || exists|u: int|
                1 <= u <= k && s == #[trigger] candidate(base, u as nat)) implies cand_set(
            base,
            k,
        ).contains(s) by {
            if s != base {
                let u = choose|u: int| 1 <= u <= k && s == #[trigger] candidate(base, u as nat);
                if u <= k - 1 {
                    assert(cand_set(base, (k - 1) as nat).contains(s));
                }
            }
        }
    }
}

/// Is `name` the host-derived name for `u`: the host text itself or the
/// host text with some numeric suffix?
pub open spec fn host_derived(name: Seq<char>, u: Seq<char>) -> bool {
    name == host_name(u) || (exists|t: int|
        1 <= t && name == #[trigger] candidate(host_name(u), t as nat))
}

/// The names of a map's entries, in entry order.
pub open spec fn keys_seq(m: RegMap) -> Seq<Seq<char>> {
    m.map_values(|p: (Seq<char>, Seq<char>)| p.0)
}

/// A name some entry carries occurs among the keys.
pub proof fn lemma_has_key_keys(m: RegMap, s: Seq<char>)
    requires
        has_key(m, s),
    ensures
        keys_seq(m).contains(s),
{
    let i = choose|i: int| 0 <= i < m.len() && (#[trigger] m[i]).0 == s;
    assert(keys_seq(m)[i] == s);
}

/// A map holding the base name cannot also hold every one of the first
/// `len` candidates: that would take one name more than it has entries. So
/// some candidate with a small suffix is free.
pub proof fn lemma_candidate_free(m: RegMap, base: Seq<char>)
    requires
        has_key(m, base),
    ensures
        exists|u: int| 1 <= u <= m.len() && !has_key(m, #[trigger] candidate(base, u as nat)),
{
    broadcast use vstd::seq_lib::seq_to_set_is_finite;

    let n = m.len() as int;
    if forall|u: int| 1 <= u <= n ==> has_key(m, #[trigger] candidate(base, u as nat)) {
        lemma_cand_set(base, n as nat);
        let cs = cand_set(base, n as nat);
        let ks = keys_seq(m);
        assert forall|s: Seq<char>| cs.contains(s) implies ks.to_set().contains(s) by {
            if s == base {
                lemma_has_key_keys(m, s);
            } else {
                let u = choose|u: int| 1 <= u <= n && s == #[trigger] candidate(base, u as nat);
                assert(has_key(m, candidate(base, u as nat)));
                lemma_has_key_keys(m, s);
            }
            assert(ks.contains(s));
        }
        vstd::set_lib::lemma_len_subset(cs, ks.to_set());
        ks.lemma_cardinality_of_set();
        assert(ks.len() == n);
        assert(n + 1 <= n);
        assert(false);
    }
}

/// The host segment of `s` ends at its first slash.
pub proof fn lemma_until_slash_at(s: Seq<char>, i: int)
    requires
        0 <= i <= s.len(),
        forall|j: int| 0 <= j < i ==> s[j] != '/',
        i == s.len() || s[i] == '/',
    ensures
        until_slash(s) == s.take(i),
    decreases i,
{
    if s.len() == 0 {
        assert(s.take(0) =~= s);
    } else if i == 0 {
        assert(s.take(0) =~= Seq::<char>::empty());
    } else {
        assert(s[0] != '/');
        lemma_until_slash_at(s.drop_first(), i - 1);
        assert(seq![s[0]] + s.drop_first().take(i - 1) =~= s.take(i));
    }
}

/// The suggested name for a URL's host.
pub fn host_name_of(url: &str) -> (r: String)
    ensures
        r@ == host_name(url@),
{
    proof {
        reveal_strlit("http://");
        reveal_strlit("https://");
    }
    let mut rest: &str = url;
    loop
        invariant
            strip_all(url@, "http://"@) == strip_all(rest@, "http://"@),
        ensures
            strip_all(url@, "http://"@) == rest@,
        decreases rest@.len(),
    {
        if !str_has_prefix(rest, "http://") {
            break;
        }
        proof {
            reveal_strlit("http://");
            assert("http://"@.len() == 7);
        }
        let len = rest.unicode_len();
        let next = rest.substring_char(7, len);
        proof {
            assert("http://"@.len() == 7);
            assert(next@ =~= rest@.skip(7));
        }
        rest = next;
    }
    let ghost after_http = rest@;
    let mut rest2: &str = rest;
    loop
        invariant
            strip_all(after_http, "https://"@) == strip_all(rest2@, "https://"@),
        ensures
            strip_all(after_http, "https://"@) == rest2@,
        decreases rest2@.len(),
    {
        if !str_has_prefix(rest2, "https://") {
            break;
        }
        proof {
            reveal_strlit("https://");
            assert("https://"@.len() == 8);
        }
        let len = rest2.unicode_len();
        let next = rest2.substring_char(8, len);
        proof {
            assert("https://"@.len() == 8);
            assert(next@ =~= rest2@.skip(8));
        }
        rest2 = next;
    }
    let h = rest2;
    let hlen = h.unicode_len();
    let mut i: usize = 0;
    loop
        invariant
            hlen == h@.len(),
            i <= hlen,
            forall|j: int| 0 <= j < i ==> h@[j] != '/',
        ensures
            i <= hlen,
            forall|j: int| 0 <= j < i ==> h@[j] != '/',
            i == hlen || h@[i as int] == '/',
        decreases hlen - i,
    {
        if i == hlen {
            break;
        }
        if h.get_char(i) == '/' {
            break;
        }
        i += 1;
    }
    proof {
        lemma_until_slash_at(h@, i as int);
    }
    let mut out = String::new();
    let mut j: usize = 0;
    proof {
        assert(out@ =~= dashify(h@.take(i as int).take(0)));
    }
    loop
        invariant
            hlen == h@.len(),
            j <= i <= hlen,
            out@ == dashify(h@.take(i as int)).take(j as int),
        ensures
            j == i,
            out@ == dashify(h@.take(i as int)).take(j as int),
        decreases i - j,
    {
        if j == i {
            break;
        }
        let c = h.get_char(j);
        let d = if c == '.' || c == ':' {
            '-'
        } else {
            c
        };
        out.push(d);
        proof {
            assert(d == dash_char(h@[j as int]));
            assert(dashify(h@.take(i as int))[j as int] == dash_char(h@[j as int]));
            assert(out@ =~= dashify(h@.take(i as int)).take(j as int + 1));
        }
        j += 1;
    }
    proof {
        assert(dashify(h@.take(i as int)).take(i as int) =~= dashify(h@.take(i as int)));
        assert(h@.take(i as int) == until_slash(h@));
    }
    out
}

/// `base` with the decimal suffix `t` appended after a dash.
pub fn candidate_text(base: &str, t: usize) -> (r: String)
    ensures
        r@ == candidate(base@, t as nat),
{
    let mut s = String::from_str(base);
    s.push('-');
    let d = render_dec(t);
    s.append(d.as_str());
    proof {
        assert(s@ =~= base@ + seq!['-'] + dec_digits(t as nat));
    }
    s
}

/// A name for the registry at `url` that no custom registry uses: the
/// host-derived name itself when free, else the first of `host-1`,
/// `host-2`, ... that is free.
pub fn derive_registry_name(url: &str, custom_registries: &Vec<(String, String)>) -> (r: String)
    ensures
        !has_key(custom_registries.deep_view(), r@),
        !has_key(custom_registries.deep_view(), host_name(url@)) ==> r@ == host_name(url@),
        has_key(custom_registries.deep_view(), host_name(url@)) ==> exists|t: int|
            1 <= t && r@ == #[trigger] candidate(host_name(url@), t as nat) && (forall|u: int|
                1 <= u < t ==> has_key(
                    custom_registries.deep_view(),
                    #[trigger] candidate(host_name(url@), u as nat),
                )),
{
    let base = host_name_of(url);
    if crate::profile::find_key(custom_registries, base.as_str()).is_none() {
        return base;
    }
    let ghost dv = custom_registries.deep_view();
    let n = custom_registries.len();
    let mut t: u128 = 1;
    proof {
        assert(dv.len() == n);
    }
    loop
        invariant
            dv == custom_registries.deep_view(),
            n == custom_registries@.len(),
            dv.len() == n,
            has_key(dv, base@),
            base@ == host_name(url@),
            1 <= t <= n as int + 1,
            forall|u: int|
                1 <= u < t ==> has_key(dv, #[trigger] candidate(base@, u as nat)),
        decreases n as int + 1 - t,
    {
        proof {
            if t == n as u128 + 1 {
                lemma_candidate_free(dv, base@);
                let u = choose|u: int|
                    1 <= u <= dv.len() && !has_key(dv, #[trigger] candidate(base@, u as nat));
                assert(has_key(dv, candidate(base@, u as nat)));
                assert(false);
            }
            assert(t <= n as u128);
            assert(t <= usize::MAX as u128);
        }
        let tu: usize = t as usize;
        let name = candidate_text(base.as_str(), tu);
        if crate::profile::find_key(custom_registries, name.as_str()).is_none() {
            proof {
                let w: int = t as int;
                assert(1 <= w && name@ == candidate(host_name(url@), w as nat));
            }
            return name;
        }
        t = t + 1;
    }
}

/// Do all entries carry distinct names?
pub fn unique_check(m: &Vec<(String, String)>) -> (r: bool)
    ensures
        r == unique_keys(m.deep_view()),
{
    let n = m.len();
    let mut i: usize = 0;
    loop
        invariant
            n == m@.len(),
            m.deep_view().len() == n,
            i <= n,
            forall|a: int, b: int|
                0 <= a < b < i ==> (#[trigger] m.deep_view()[a]).0 != (
                #[trigger] m.deep_view()[b]).0,
        ensures
            i == n,
            forall|a: int, b: int|
                0 <= a < b < i ==> (#[trigger] m.deep_view()[a]).0 != (
                #[trigger] m.deep_view()[b]).0,
        decreases n - i,
    {
        if i == n {
            break;
        }
        let mut j: usize = 0;
        loop
            invariant
                n == m@.len(),
                m.deep_view().len() == n,
                j <= i < n,
                forall|a: int|
                    0 <= a < j ==> (#[trigger] m.deep_view()[a]).0 != m.deep_view()[i as int].0,
            ensures
                j == i,
                forall|a: int|
                    0 <= a < j ==> (#[trigger] m.deep_view()[a]).0 != m.deep_view()[i as int].0,
            decreases i - j,
        {
            if j == i {
                break;
            }
            proof {
                assert(m.deep_view()[j as int].0 == m@[j as int].0@);
                assert(m.deep_view()[i as int].0 == m@[i as int].0@);
            }
            if crate::text::str_eq(m[j].0.as_str(), m[i].0.as_str()) {
                return false;
            }
            j += 1;
        }
        i += 1;
    }
    true
}

/// Does no name occur in both maps?
pub fn disjoint_check(b: &Vec<(String, String)>, c: &Vec<(String, String)>) -> (r: bool)
    ensures
        r == (forall|i: int, j: int|
            0 <= i < b.deep_view().len() && 0 <= j < c.deep_view().len() ==> (
            #[trigger] b.deep_view()[i]).0 != (#[trigger] c.deep_view()[j]).0),
{
    let n = b.len();
    let mut i: usize = 0;
    loop
        invariant
            n == b@.len(),
            b.deep_view().len() == n,
            i <= n,
            forall|a: int, j: int|
                0 <= a < i && 0 <= j < c.deep_view().len() ==> (#[trigger] b.deep_view()[a]).0
                    != (#[trigger] c.deep_view()[j]).0,
        ensures
            i == n,
            forall|a: int, j: int|
                0 <= a < i && 0 <= j < c.deep_view().len() ==> (#[trigger] b.deep_view()[a]).0
                    != (#[trigger] c.deep_view()[j]).0,
        decreases n - i,
    {
        if i == n {
            break;
        }
        proof {
            assert(b.deep_view()[i as int].0 == b@[i as int].0@);
        }
        match find_key(c, b[i].0.as_str()) {
            Some(_) => {
                return false;
            },
            None => {
                proof {
                    assert forall|j: int| 0 <= j < c.deep_view().len() implies (
                    #[trigger] c.deep_view()[j]).0 != b.deep_view()[i as int].0 by {
                        if c.deep_view()[j].0 == b.deep_view()[i as int].0 {
                            assert(has_key(c.deep_view(), b.deep_view()[i as int].0));
                        }
                    }
                }
            },
        }
        i += 1;
    }
    true
}

/// The names of all entries, first map then second, as owned strings.
pub(crate) fn all_names(b: &Vec<(String, String)>, c: &Vec<(String, String)>) -> (r: Vec<String>)
    ensures
        r.deep_view() == keys_seq(b.deep_view()) + keys_seq(c.deep_view()),
{
    let mut out: Vec<String> = Vec::new();
    let nb = b.len();
    let mut i: usize = 0;
    loop
        invariant
            nb == b@.len(),
            b.deep_view().len() == nb,
            i <= nb,
            out.deep_view() =~= keys_seq(b.deep_view()).take(i as int),
        ensures
            i == nb,
            out.deep_view() =~= keys_seq(b.deep_view()).take(i as int),
        decreases nb - i,
    {
        if i == nb {
            break;
        }
        let ghost before = out.deep_view();
        out.push(b[i].0.clone());
        proof {
            assert(keys_seq(b.deep_view())[i as int] == b.deep_view()[i as int].0);
            assert(b.deep_view()[i as int].0 == b@[i as int].0@);
            assert(out.deep_view() =~= before.push(b@[i as int].0@));
            assert(out.deep_view() =~= keys_seq(b.deep_view()).take(i as int + 1));
        }
        i += 1;
    }
    let nc = c.len();
    let mut j: usize = 0;
    proof {
        assert(keys_seq(b.deep_view()).take(nb as int) =~= keys_seq(b.deep_view()));
    }
    loop
        invariant
            nc == c@.len(),
            c.deep_view().len() == nc,
            j <= nc,
            out.deep_view() =~= keys_seq(b.deep_view()) + keys_seq(c.deep_view()).take(j as int),
        ensures
            j == nc,
            out.deep_view() =~= keys_seq(b.deep_view()) + keys_seq(c.deep_view()).take(j as int),
        decreases nc - j,
    {
        if j == nc {
            break;
        }
        let ghost before = out.deep_view();
        out.push(c[j].0.clone());
        proof {
            assert(keys_seq(c.deep_view())[j as int] == c.deep_view()[j as int].0);
            assert(c.deep_view()[j as int].0 == c@[j as int].0@);
            assert(out.deep_view() =~= before.push(c@[j as int].0@));
            assert(out.deep_view() =~= keys_seq(b.deep_view()) + keys_seq(c.deep_view()).take(
                j as int + 1,
            ));
        }
        j += 1;
    }
    proof {
        assert(keys_seq(c.deep_view()).take(nc as int) =~= keys_seq(c.deep_view()));
    }
    out
}

/// Both maps' entries in one list, first map then second.
pub(crate) fn concat_entries(b: &Vec<(String, String)>, c: &Vec<(String, String)>) -> (r: Vec<
    (String, String),
>)
    ensures
        r.deep_view() == b.deep_view() + c.deep_view(),
{
    let mut out: Vec<(String, String)> = Vec::new();
    let nb = b.len();
    let mut i: usize = 0;
    loop
        invariant
            nb == b@.len(),
            b.deep_view().len() == nb,
            i <= nb,
            out.deep_view() =~= b.deep_view().take(i as int),
        ensures
            i == nb,
            out.deep_view() =~= b.deep_view().take(i as int),
        decreases nb - i,
    {
        if i == nb {
            break;
        }
        let ghost before = out.deep_view();
        out.push((b[i].0.clone(), b[i].1.clone()));
        proof {
            assert(b.deep_view()[i as int] == (b@[i as int].0@, b@[i as int].1@));
            assert(out.deep_view() =~= before.push(b.deep_view()[i as int]));
            assert(out.deep_view() =~= b.deep_view().take(i as int + 1));
        }
        i += 1;
    }
    let nc = c.len();
    let mut j: usize = 0;
    proof {
        assert(b.deep_view().take(nb as int) =~= b.deep_view());
    }
    loop
        invariant
            nc == c@.len(),
            c.deep_view().len() == nc,
            j <= nc,
            out.deep_view() =~= b.deep_view() + c.deep_view().take(j as int),
        ensures
            j == nc,
            out.deep_view() =~= b.deep_view() + c.deep_view().take(j as int),
        decreases nc - j,
    {
        if j == nc {
            break;
        }
        let ghost before = out.deep_view();
        out.push((c[j].0.clone(), c[j].1.clone()));
        proof {
            assert(c.deep_view()[j as int] == (c@[j as int].0@, c@[j as int].1@));
            assert(out.deep_view() =~= before.push(c.deep_view()[j as int]));
            assert(out.deep_view() =~= b.deep_view() + c.deep_view().take(j as int + 1));
        }
        j += 1;
    }
    proof {
        assert(c.deep_view().take(nc as int) =~= c.deep_view());
    }
    out
}

/// Is the stored record's shape acceptable: names unique across both maps?
pub open spec fn stored_ok(pv: ProfileView) -> bool {
    &&& unique_keys(pv.builtin)
    &&& unique_keys(pv.custom)
    &&& forall|i: int, j: int|
        0 <= i < pv.builtin.len() && 0 <= j < pv.custom.len() ==> (#[trigger] pv.builtin[i]).0
            != (#[trigger] pv.custom[j]).0
}

/// The display order after normalization on load: an empty stored order is
/// rebuilt as the sorted list of all known names; any other order is kept.
pub open spec fn order_normal(base: ProfileView, o: Seq<Seq<char>>) -> bool {
    if base.order.len() == 0 {
        names_sorted(o) && o.to_multiset() == (keys_seq(base.builtin) + keys_seq(
            base.custom,
        )).to_multiset()
    } else {
        o == base.order
    }
}

/// The stored record with a selection that resolves to nothing discarded.
pub open spec fn fix_current(pv: ProfileView) -> ProfileView {
    match pv.current {
        Some(c) => if has_key(pv.builtin, c) || has_key(pv.custom, c) {
            pv
        } else {
            ProfileView { current: None, ..pv }
        },
        None => pv,
    }
}

impl Config {
    /// The profile as an invocation begins: the stored text (if any) read
    /// back, its display order rebuilt sorted when empty, and the result
    /// reconciled against the configuration file's registry line (if any
    /// was passed). A stored text that does not parse, or whose names are
    /// not unique across the two maps, is refused as corrupt. The caller is
    /// expected to persist the result.
    #[verifier::rlimit(100)]
    pub fn load(stored: Option<&String>, npmrc: Option<&String>) -> (r: Result<Config, NrsError>)
        ensures
            match r {
                Err(e) => {
                    &&& e matches NrsError::CorruptProfile
                    &&& stored matches Some(s) && (p_profile(s@) is None || (p_profile(s@)
                        matches Some(pv) && !stored_ok(pv)))
                },
                Ok(c) => {
                    &&& wf(c@)
                    &&& ({
                        let base = match stored {
                            None => crate::profile::default_profile(),
                            Some(s) => fix_current(p_profile(s@).unwrap()),
                        };
                        let url = match npmrc {
                            None => None::<Seq<char>>,
                            Some(t) => registry_url_of(lines_of(t@)),
                        };
                        &&& (stored matches Some(s) ==> p_profile(s@) matches Some(pv)
                            && stored_ok(pv))
                        &&& c@.builtin == base.builtin
                        &&& match url {
                            None => c@.custom == base.custom && c@.current == base.current
                                && order_normal(base, c@.order),
                            Some(u) => {
                                if has_url(base.builtin, u) {
                                    &&& c@.custom == base.custom
                                    &&& c@.current == Some(name_for_url(base.builtin, u))
                                    &&& order_normal(base, c@.order)
                                } else if has_url(base.custom, u) {
                                    &&& c@.custom == base.custom
                                    &&& c@.current == Some(name_for_url(base.custom, u))
                                    &&& order_normal(base, c@.order)
                                } else if u.len() > 0 {
                                    &&& c@.custom.len() == base.custom.len() + 1
                                    &&& c@.custom == base.custom.push(c@.custom.last())
                                    &&& c@.custom.last().1 == u
                                    &&& !has_key(base.custom, c@.custom.last().0)
                                    &&& !has_key(base.builtin, c@.custom.last().0)
                                    &&& host_derived(c@.custom.last().0, u)
                                    &&& c@.current == Some(c@.custom.last().0)
                                    &&& (order_normal(base, c@.order) || (c@.order.len() > 0
                                        && order_normal(base, c@.order.drop_last())
                                        && c@.order.last() == c@.custom.last().0))
                                } else {
                                    &&& c@.custom == base.custom
                                    &&& c@.current == base.current
                                    &&& order_normal(base, c@.order)
                                }
                            },
                        }
                    })
                },
            },
    {
        let mut cfg: Config = match stored {
            None => Config::new(),
            Some(s) => {
                let parsed = match parse_profile(s.as_str()) {
                    Ok(c) => c,
                    Err(_) => {
                        return Err(NrsError::CorruptProfile);
                    },
                };
                if !unique_check(&parsed.registries) {
                    return Err(NrsError::CorruptProfile);
                }
                if !unique_check(&parsed.custom_registries) {
                    return Err(NrsError::CorruptProfile);
                }
                if !disjoint_check(&parsed.registries, &parsed.custom_registries) {
                    return Err(NrsError::CorruptProfile);
                }
                let clear = match &parsed.current {
                    Some(cu) => find_key(&parsed.registries, cu.as_str()).is_none() && find_key(
                        &parsed.custom_registries,
                        cu.as_str(),
                    ).is_none(),
                    None => false,
                };
                let mut p2 = parsed;
                if clear {
                    p2.current = None;
                }
                proof {
                    assert(p2@ =~= fix_current(p_profile(s@).unwrap()));
                }
                p2
            },
        };
        proof {
            if stored is None {
                crate::profile::lemma_default_profile_wf();
            }
            assert(wf(cfg@));
        }
        let ghost base = cfg@;
        if cfg.registry_order.is_empty() {
            let pool = all_names(&cfg.registries, &cfg.custom_registries);
            let sorted = sort_names(&pool);
            cfg.registry_order = sorted;
        }
        let ghost p1 = cfg@;
        proof {
            assert(p1.builtin == base.builtin);
            assert(p1.custom == base.custom);
            assert(p1.current == base.current);
            assert(wf(p1));
        }
        let url_opt: Option<String> = match npmrc {
            None => None,
            Some(t) => read_registry_url(t.as_str()),
        };
        match url_opt {
            None => {},
            Some(u) => {
                let hit_b = find_url(&cfg.registries, u.as_str());
                match hit_b {
                    Some(i) => {
                        let name = cfg.registries[i].0.clone();
                        proof {
                            crate::profile::lemma_name_for_url_at(p1.builtin, u@, i as int);
                        }
                        cfg.current = Some(name);
                        proof {
                            assert(has_key(p1.builtin, p1.builtin[i as int].0));
                            assert(wf(cfg@));
                        }
                    },
                    None => {
                        let hit_c = find_url(&cfg.custom_registries, u.as_str());
                        match hit_c {
                            Some(i) => {
                                let name = cfg.custom_registries[i].0.clone();
                                proof {
                                    crate::profile::lemma_name_for_url_at(p1.custom, u@, i as int);
                                }
                                cfg.current = Some(name);
                                proof {
                                    assert(has_key(p1.custom, p1.custom[i as int].0));
                                    assert(wf(cfg@));
                                }
                            },
                            None => {
                                if u.as_str().unicode_len() > 0 {
                                    let pool = concat_entries(
                                        &cfg.registries,
                                        &cfg.custom_registries,
                                    );
                                    proof {
                                        assert(pool.deep_view() =~= p1.builtin + p1.custom);
                                    }
                                    let fresh = derive_registry_name(u.as_str(), &pool);
                                    proof {
                                        assert(fresh@ == host_name(u@) || (exists|t: int|
                                            1 <= t && fresh@ == #[trigger] candidate(
                                                host_name(u@),
                                                t as nat,
                                            )));
                                        assert(host_derived(fresh@, u@));
                                        assert forall|k: int|
                                            0 <= k < p1.custom.len() implies (
                                        #[trigger] p1.custom[k]).0 != fresh@ by {
                                            if p1.custom[k].0 == fresh@ {
                                                assert(pool.deep_view()[p1.builtin.len() + k].0
                                                    == fresh@);
                                                assert(has_key(pool.deep_view(), fresh@));
                                            }
                                        }
                                        assert forall|k: int|
                                            0 <= k < p1.builtin.len() implies (
                                        #[trigger] p1.builtin[k]).0 != fresh@ by {
                                            if p1.builtin[k].0 == fresh@ {
                                                assert(pool.deep_view()[k].0 == fresh@);
                                                assert(has_key(pool.deep_view(), fresh@));
                                            }
                                        }
                                    }
                                    let ghost c1 = p1.custom;
                                    cfg.custom_registries.push((fresh.clone(), u));
                                    proof {
                                        assert(cfg@.custom =~= c1.push((fresh@, u@)));
                                    }
                                    if !crate::profile::contains_name(
                                        &cfg.registry_order,
                                        fresh.as_str(),
                                    ) {
                                        let ghost o1 = cfg@.order;
                                        cfg.registry_order.push(fresh.clone());
                                        proof {
                                            assert(cfg@.order =~= o1.push(fresh@));
                                            assert(cfg@.order.drop_last() =~= o1);
                                            assert(cfg@.order.last() == fresh@);
                                        }
                                    }
                                    cfg.current = Some(fresh);
                                    proof {
                                        assert(cfg@.custom.last().0 == cfg@.current.unwrap());
                                        assert(has_key(cfg@.custom, cfg@.custom.last().0));
                                        assert forall|a: int, b2: int|
                                            0 <= a < b2 < cfg@.custom.len() implies (
                                        #[trigger] cfg@.custom[a]).0 != (
                                        #[trigger] cfg@.custom[b2]).0 by {
                                            if b2 == cfg@.custom.len() - 1 {
                                                assert(cfg@.custom[a] == c1[a]);
                                            }
                                        }
                                        assert(wf(cfg@));
                                    }
                                }
                            },
                        }
                    },
                }
            },
        }
        Ok(cfg)
    }
}

} // verus!
