//! The registry profile: two maps from registry name to URL (built-in
//! defaults and custom entries), a display order, and the name of the
//! currently selected registry. Maps are association lists whose keys are
//! unique across both maps; contracts are stated over a mathematical view of
//! the whole record.

use vstd::prelude::*;
use vstd::string::StringExecFns;

use crate::error::NrsError;
use crate::text::has_prefix;
use crate::text::str_eq;
use crate::text::str_has_prefix;

verus! {

/// One name-to-URL map, as a sequence of (name, URL) pairs.
pub type RegMap = Seq<(Seq<char>, Seq<char>)>;

/// Does the map hold an entry for `k`?
pub open spec fn has_key(m: RegMap, k: Seq<char>) -> bool {
    exists|i: int| 0 <= i < m.len() && (#[trigger] m[i]).0 == k
}

/// Does some entry of the map hold the URL `u`?
pub open spec fn has_url(m: RegMap, u: Seq<char>) -> bool {
    exists|i: int| 0 <= i < m.len() && (#[trigger] m[i]).1 == u
}

/// The URL of the first entry named `k`.
pub open spec fn map_val(m: RegMap, k: Seq<char>) -> Seq<char>
    decreases m.len(),
{
    if m.len() == 0 {
        Seq::<char>::empty()
    } else if m[0].0 == k {
        m[0].1
    } else {
        map_val(m.drop_first(), k)
    }
}

/// The name of the first entry holding the URL `u`.
pub open spec fn name_for_url(m: RegMap, u: Seq<char>) -> Seq<char>
    decreases m.len(),
{
    if m.len() == 0 {
        Seq::<char>::empty()
    } else if m[0].1 == u {
        m[0].0
    } else {
        name_for_url(m.drop_first(), u)
    }
}

/// Every entry named `k` (under unique keys: the one) now maps to `v`;
/// everything else is untouched.
pub open spec fn map_set(m: RegMap, k: Seq<char>, v: Seq<char>) -> RegMap {
    Seq::new(
        m.len(),
        |i: int|
            if m[i].0 == k {
                (k, v)
            } else {
                m[i]
            },
    )
}

/// The map without its entries named `k`, in unchanged order.
pub open spec fn map_del(m: RegMap, k: Seq<char>) -> RegMap {
    m.filter(|p: (Seq<char>, Seq<char>)| p.0 != k)
}

/// The order list without the name `k`, in unchanged order.
pub open spec fn order_del(o: Seq<Seq<char>>, k: Seq<char>) -> Seq<Seq<char>> {
    o.filter(|n: Seq<char>| n != k)
}

/// No two entries share a name.
pub open spec fn unique_keys(m: RegMap) -> bool {
    forall|i: int, j: int| 0 <= i < j < m.len() ==> (#[trigger] m[i]).0 != (#[trigger] m[j]).0
}

/// A registry URL a mutating operation accepts.
pub open spec fn valid_url(u: Seq<char>) -> bool {
    has_prefix(u, "http://"@) || has_prefix(u, "https://"@)
}

/// The mathematical shape of a profile.
#[verifier::ext_equal]
pub ghost struct ProfileView {
    pub builtin: RegMap,
    pub custom: RegMap,
    pub order: Seq<Seq<char>>,
    pub current: Option<Seq<char>>,
}

/// The name `k` appears in one of the two maps.
pub open spec fn known_name(p: ProfileView, k: Seq<char>) -> bool {
    has_key(p.builtin, k) || has_key(p.custom, k)
}

/// The URL a name resolves to: built-in entries shadow custom ones.
pub open spec fn resolve(p: ProfileView, k: Seq<char>) -> Option<Seq<char>> {
    if has_key(p.builtin, k) {
        Some(map_val(p.builtin, k))
    } else if has_key(p.custom, k) {
        Some(map_val(p.custom, k))
    } else {
        None
    }
}

/// Well-formedness: names are unique across the union of the two maps, and
/// the current selection, when set, resolves to an entry.
pub open spec fn wf(p: ProfileView) -> bool {
    &&& unique_keys(p.builtin)
    &&& unique_keys(p.custom)
    &&& forall|i: int, j: int|
        0 <= i < p.builtin.len() && 0 <= j < p.custom.len() ==> (#[trigger] p.builtin[i]).0 != (
        #[trigger] p.custom[j]).0
    &&& p.current matches Some(c) ==> known_name(p, c)
}

/// The persisted profile record.
pub struct Config {
    /// The built-in registries, name to URL.
    pub registries: Vec<(String, String)>,
    /// The user-managed registries, name to URL.
    pub custom_registries: Vec<(String, String)>,
    /// Display order of registry names; advisory, kept synchronized by
    /// mutations.
    pub registry_order: Vec<String>,
    /// The name of the registry presently selected, if any.
    pub current: Option<String>,
}

impl View for Config {
    type V = ProfileView;

    open spec fn view(&self) -> ProfileView {
        ProfileView {
            builtin: self.registries.deep_view(),
            custom: self.custom_registries.deep_view(),
            order: self.registry_order.deep_view(),
            current: self.current.deep_view(),
        }
    }
}

/// The profile a fresh installation starts from.
pub open spec fn default_profile() -> ProfileView {
    ProfileView {
        builtin: default_entries(),
        custom: Seq::empty(),
        order: default_entries().map_values(|p: (Seq<char>, Seq<char>)| p.0),
        current: None,
    }
}

/// The built-in registries every profile starts with.
pub open spec fn default_entries() -> RegMap {
    seq![
        ("npm"@, "https://registry.npmjs.org/"@),
        ("yarn"@, "https://registry.yarnpkg.com/"@),
        ("taobao"@, "https://registry.npmmirror.com/"@),
        ("tencent"@, "https://mirrors.cloud.tencent.com/npm/"@),
        ("npmMirror"@, "https://skimdb.npmjs.com/registry/"@),
        ("github"@, "https://npm.pkg.github.com/"@),
    ]
}

/// The default names are pairwise distinct.
pub proof fn lemma_default_profile_wf()
    ensures
        wf(default_profile()),
        default_profile().order == default_entries().map_values(
            |p: (Seq<char>, Seq<char>)| p.0,
        ),
{
    reveal_strlit("npm");
    reveal_strlit("yarn");
    reveal_strlit("taobao");
    reveal_strlit("tencent");
    reveal_strlit("npmMirror");
    reveal_strlit("github");
    assert("npm"@.len() == 3);
    assert("yarn"@.len() == 4);
    assert("taobao"@.len() == 6);
    assert("tencent"@.len() == 7);
    assert("npmMirror"@.len() == 9);
    assert("github"@.len() == 6);
    assert("taobao"@[0] == 't');
    assert("github"@[0] == 'g');
    let m = default_entries();
    assert(m.len() == 6);
    assert(m[0].0 == "npm"@);
    assert(m[1].0 == "yarn"@);
    assert(m[2].0 == "taobao"@);
    assert(m[3].0 == "tencent"@);
    assert(m[4].0 == "npmMirror"@);
    assert(m[5].0 == "github"@);
    assert(unique_keys(m)) by {
        assert(forall|i: int, j: int|
            0 <= i < j < m.len() ==> (#[trigger] m[i]).0.len() != (#[trigger] m[j]).0.len() || (
            m[i]).0[0] != (m[j]).0[0]);
    }
}

impl Config {
    /// A fresh profile holding exactly the built-in registries, in their
    /// canonical order, with nothing selected.
    pub fn new() -> (c: Config)
        ensures
            c@ == default_profile(),
            wf(c@),
    {
        let mut registries: Vec<(String, String)> = Vec::new();
        let mut registry_order: Vec<String> = Vec::new();
        registries.push((String::from_str("npm"), String::from_str("https://registry.npmjs.org/")));
        registries.push((
            String::from_str("yarn"),
            String::from_str("https://registry.yarnpkg.com/"),
        ));
        registries.push((
            String::from_str("taobao"),
            String::from_str("https://registry.npmmirror.com/"),
        ));
        registries.push((
            String::from_str("tencent"),
            String::from_str("https://mirrors.cloud.tencent.com/npm/"),
        ));
        registries.push((
            String::from_str("npmMirror"),
            String::from_str("https://skimdb.npmjs.com/registry/"),
        ));
        registries.push((
            String::from_str("github"),
            String::from_str("https://npm.pkg.github.com/"),
        ));
        registry_order.push(String::from_str("npm"));
        registry_order.push(String::from_str("yarn"));
        registry_order.push(String::from_str("taobao"));
        registry_order.push(String::from_str("tencent"));
        registry_order.push(String::from_str("npmMirror"));
        registry_order.push(String::from_str("github"));
        let c = Config {
            registries,
            custom_registries: Vec::new(),
            registry_order,
            current: None,
        };
        proof {
            assert(c@.builtin =~= default_entries());
            assert(c@.custom =~= Seq::<(Seq<char>, Seq<char>)>::empty());
            assert(c@.order =~= default_entries().map_values(|p: (Seq<char>, Seq<char>)| p.0));
            assert(c@.current is None);
            lemma_default_profile_wf();
        }
        c
    }
}

/// Index of the first entry named `name`, if any.
pub fn find_key(m: &Vec<(String, String)>, name: &str) -> (r: Option<usize>)
    ensures
        match r {
            Some(i) => {
                &&& i < m.deep_view().len()
                &&& m.deep_view()[i as int].0 == name@
                &&& forall|j: int| 0 <= j < i ==> (#[trigger] m.deep_view()[j]).0 != name@
            },
            None => !has_key(m.deep_view(), name@),
        },
{
    let n = m.len();
    let mut i: usize = 0;
    proof {
        assert(m.deep_view().len() == m@.len());
    }
    loop
        invariant
            n == m@.len(),
            m.deep_view().len() == n,
            i <= n,
            forall|j: int| 0 <= j < i ==> (#[trigger] m.deep_view()[j]).0 != name@,
        ensures
            i == n,
            forall|j: int| 0 <= j < i ==> (#[trigger] m.deep_view()[j]).0 != name@,
        decreases n - i,
    {
        if i == n {
            break;
        }
        proof {
            assert(m.deep_view()[i as int].0 == m@[i as int].0@);
        }
        if str_eq(m[i].0.as_str(), name) {
            return Some(i);
        }
        i += 1;
    }
    None
}

/// Index of the first entry holding `url`, if any.
pub fn find_url(m: &Vec<(String, String)>, url: &str) -> (r: Option<usize>)
    ensures
        match r {
            Some(i) => {
                &&& i < m.deep_view().len()
                &&& m.deep_view()[i as int].1 == url@
                &&& forall|j: int| 0 <= j < i ==> (#[trigger] m.deep_view()[j]).1 != url@
            },
            None => !has_url(m.deep_view(), url@),
        },
{
    let n = m.len();
    let mut i: usize = 0;
    loop
        invariant
            n == m@.len(),
            m.deep_view().len() == n,
            i <= n,
            forall|j: int| 0 <= j < i ==> (#[trigger] m.deep_view()[j]).1 != url@,
        ensures
            i == n,
            forall|j: int| 0 <= j < i ==> (#[trigger] m.deep_view()[j]).1 != url@,
        decreases n - i,
    {
        if i == n {
            break;
        }
        proof {
            assert(m.deep_view()[i as int].1 == m@[i as int].1@);
        }
        if str_eq(m[i].1.as_str(), url) {
            return Some(i);
        }
        i += 1;
    }
    None
}

/// The first entry named `k` determines [`map_val`].
pub proof fn lemma_map_val_at(m: RegMap, k: Seq<char>, i: int)
    requires
        0 <= i < m.len(),
        m[i].0 == k,
        forall|j: int| 0 <= j < i ==> (#[trigger] m[j]).0 != k,
    ensures
        map_val(m, k) == m[i].1,
        has_key(m, k),
    decreases i,
{
    if i == 0 {
    } else {
        assert(m[0].0 != k);
        lemma_map_val_at(m.drop_first(), k, i - 1);
    }
}

/// The first entry holding `u` determines [`name_for_url`].
pub proof fn lemma_name_for_url_at(m: RegMap, u: Seq<char>, i: int)
    requires
        0 <= i < m.len(),
        m[i].1 == u,
        forall|j: int| 0 <= j < i ==> (#[trigger] m[j]).1 != u,
    ensures
        name_for_url(m, u) == m[i].0,
        has_url(m, u),
    decreases i,
{
    if i == 0 {
    } else {
        assert(m[0].1 != u);
        lemma_name_for_url_at(m.drop_first(), u, i - 1);
    }
}

/// A filter that keeps every element changes nothing.
pub proof fn lemma_filter_keeps_all<A>(s: Seq<A>, pred: spec_fn(A) -> bool)
    requires
        forall|i: int| 0 <= i < s.len() ==> pred(#[trigger] s[i]),
    ensures
        s.filter(pred) == s,
    decreases s.len(),
{
    reveal(Seq::filter);
    if s.len() > 0 {
        lemma_filter_keeps_all(s.drop_last(), pred);
    }
}

/// The profile after a successful `add`: an already-present URL changes
/// nothing; otherwise an existing name is updated in place, a new name gets a
/// custom entry, and the order list learns the name if it did not list it.
pub open spec fn add_result(p: ProfileView, name: Seq<char>, url: Seq<char>) -> ProfileView {
    if has_url(p.builtin, url) || has_url(p.custom, url) {
        p
    } else {
        ProfileView {
            builtin: if has_key(p.builtin, name) {
                map_set(p.builtin, name, url)
            } else {
                p.builtin
            },
            custom: if has_key(p.builtin, name) {
                p.custom
            } else if has_key(p.custom, name) {
                map_set(p.custom, name, url)
            } else {
                p.custom.push((name, url))
            },
            order: if p.order.contains(name) {
                p.order
            } else {
                p.order.push(name)
            },
            current: p.current,
        }
    }
}

/// The profile after a successful `edit`: the named entry, wherever it
/// lives, now maps to the new URL.
pub open spec fn edit_result(p: ProfileView, name: Seq<char>, url: Seq<char>) -> ProfileView {
    if has_key(p.builtin, name) {
        ProfileView { builtin: map_set(p.builtin, name, url), ..p }
    } else {
        ProfileView { custom: map_set(p.custom, name, url), ..p }
    }
}

/// The profile after a successful `remove`: the entry and its order line are
/// gone, and a selection pointing at it is cleared.
pub open spec fn remove_result(p: ProfileView, name: Seq<char>) -> ProfileView {
    ProfileView {
        builtin: map_del(p.builtin, name),
        custom: map_del(p.custom, name),
        order: order_del(p.order, name),
        current: if p.current == Some(name) {
            None
        } else {
            p.current
        },
    }
}

/// The profile with `name` selected.
pub open spec fn with_current(p: ProfileView, name: Seq<char>) -> ProfileView {
    ProfileView { current: Some(name), ..p }
}

/// Is `name` one of the order list's entries?
pub fn contains_name(v: &Vec<String>, name: &str) -> (r: bool)
    ensures
        r == v.deep_view().contains(name@),
{
    let n = v.len();
    let mut i: usize = 0;
    loop
        invariant
            n == v@.len(),
            v.deep_view().len() == n,
            i <= n,
            forall|j: int| 0 <= j < i ==> #[trigger] v.deep_view()[j] != name@,
        ensures
            i == n,
            forall|j: int| 0 <= j < i ==> #[trigger] v.deep_view()[j] != name@,
        decreases n - i,
    {
        if i == n {
            break;
        }
        proof {
            assert(v.deep_view()[i as int] == v@[i as int]@);
        }
        if str_eq(v[i].as_str(), name) {
            proof {
                assert(v.deep_view().contains(name@));
            }
            return true;
        }
        i += 1;
    }
    proof {
        assert(!v.deep_view().contains(name@));
    }
    false
}

/// Replace the URL of the entry at `i`, which carries the key `name`.
fn set_entry(m: &mut Vec<(String, String)>, i: usize, name: &str, url: &str)
    requires
        i < old(m)@.len(),
        old(m).deep_view()[i as int].0 == name@,
        unique_keys(old(m).deep_view()),
    ensures
        final(m).deep_view() == map_set(old(m).deep_view(), name@, url@),
{
    let ghost m0 = m.deep_view();
    m.remove(i);
    m.insert(i, (String::from_str(name), String::from_str(url)));
    proof {
        assert forall|j: int| 0 <= j < m0.len() implies m.deep_view()[j] == map_set(
            m0,
            name@,
            url@,
        )[j] by {
            if j != i {
                assert(m0[j].0 != name@);
            }
        }
        assert(m.deep_view() =~= map_set(m0, name@, url@));
    }
}

/// Drop the first entry named `name`, if there is one; under unique keys the
/// map afterwards holds no entry of that name.
fn remove_key(m: &mut Vec<(String, String)>, name: &str) -> (found: bool)
    requires
        unique_keys(old(m).deep_view()),
    ensures
        found == has_key(old(m).deep_view(), name@),
        final(m).deep_view() == map_del(old(m).deep_view(), name@),
        unique_keys(final(m).deep_view()),
    decreases old(m)@.len(),
{
    let ghost m0 = m.deep_view();
    let ghost pred = |p: (Seq<char>, Seq<char>)| p.0 != name@;
    match find_key(m, name) {
        None => {
            proof {
                lemma_filter_keeps_all(m0, pred);
            }
            false
        },
        Some(i) => {
            m.remove(i);
            proof {
                reveal_with_fuel(Seq::filter, 3);
                let head = m0.take(i as int);
                let tail = m0.skip(i as int + 1);
                assert(m0 =~= head + (seq![m0[i as int]] + tail));
                Seq::filter_distributes_over_add(head, seq![m0[i as int]] + tail, pred);
                Seq::filter_distributes_over_add(seq![m0[i as int]], tail, pred);
                lemma_filter_keeps_all(head, pred);
                assert forall|j: int| 0 <= j < tail.len() implies pred(#[trigger] tail[j]) by {
                    assert(tail[j] == m0[i + 1 + j]);
                    assert(m0[i as int].0 != m0[i + 1 + j].0);
                }
                lemma_filter_keeps_all(tail, pred);
                assert(seq![m0[i as int]].drop_last() =~= Seq::<(Seq<char>, Seq<char>)>::empty());
                assert(seq![m0[i as int]].filter(pred) =~= Seq::<(Seq<char>, Seq<char>)>::empty());
                assert(m.deep_view() =~= head + tail);
                assert(map_del(m0, name@) == m0.filter(pred));
                assert(m.deep_view() =~= map_del(m0, name@));
                assert forall|a: int, b: int|
                    0 <= a < b < m.deep_view().len() implies (#[trigger] m.deep_view()[a]).0 != (
                #[trigger] m.deep_view()[b]).0 by {
                    let a0 = if a < i {
                        a
                    } else {
                        a + 1
                    };
                    let b0 = if b < i {
                        b
                    } else {
                        b + 1
                    };
                    assert(m.deep_view()[a] == m0[a0]);
                    assert(m.deep_view()[b] == m0[b0]);
                }
            }
            true
        },
    }
}

/// One step of filtering the order list.
pub proof fn lemma_order_del_step(o: Seq<Seq<char>>, k: Seq<char>, i: int)
    requires
        0 <= i < o.len(),
    ensures
        o[i] != k ==> order_del(o.take(i + 1), k) == order_del(o.take(i), k).push(o[i]),
        o[i] == k ==> order_del(o.take(i + 1), k) == order_del(o.take(i), k),
{
    reveal(Seq::filter);
    assert(o.take(i + 1).drop_last() =~= o.take(i));
    assert(o.take(i + 1).last() == o[i]);
}

/// Filtering an empty order list gives an empty list.
pub proof fn lemma_order_del_empty(k: Seq<char>)
    ensures
        order_del(Seq::<Seq<char>>::empty(), k) == Seq::<Seq<char>>::empty(),
{
    reveal(Seq::filter);
}

/// The order list without `name`, other entries kept in their order.
fn remove_order_name(v: &Vec<String>, name: &str) -> (r: Vec<String>)
    ensures
        r.deep_view() == order_del(v.deep_view(), name@),
{
    let n = v.len();
    let mut out: Vec<String> = Vec::new();
    let mut i: usize = 0;
    proof {
        lemma_order_del_empty(name@);
        assert(v.deep_view().take(0) =~= Seq::<Seq<char>>::empty());
        assert(out.deep_view() =~= Seq::<Seq<char>>::empty());
    }
    loop
        invariant
            n == v@.len(),
            v.deep_view().len() == n,
            i <= n,
            out.deep_view() == order_del(v.deep_view().take(i as int), name@),
        ensures
            i == n,
            out.deep_view() == order_del(v.deep_view().take(i as int), name@),
        decreases n - i,
    {
        if i == n {
            break;
        }
        let ghost dv = v.deep_view();
        proof {
            assert(dv[i as int] == v@[i as int]@);
            lemma_order_del_step(dv, name@, i as int);
        }
        let keep = !str_eq(v[i].as_str(), name);
        if keep {
            let ghost out0 = out.deep_view();
            out.push(v[i].clone());
            proof {
                assert(out.deep_view() =~= out0.push(dv[i as int]));
            }
        }
        i += 1;
    }
    proof {
        assert(v.deep_view().take(n as int) =~= v.deep_view());
    }
    out
}

impl Config {
    /// The URL `name` resolves to, built-in entries first.
    pub fn registry_url(&self, name: &str) -> (r: Option<String>)
        ensures
            match r {
                Some(u) => resolve(self@, name@) == Some(u@) && known_name(self@, name@),
                None => !known_name(self@, name@),
            },
    {
        match find_key(&self.registries, name) {
            Some(i) => {
                proof {
                    lemma_map_val_at(self@.builtin, name@, i as int);
                }
                Some(self.registries[i].1.clone())
            },
            None => {
                match find_key(&self.custom_registries, name) {
                    Some(i) => {
                        proof {
                            lemma_map_val_at(self@.custom, name@, i as int);
                        }
                        Some(self.custom_registries[i].1.clone())
                    },
                    None => None,
                }
            },
        }
    }

    /// Record a registry under `name`. A URL some entry already holds is
    /// accepted and changes nothing; a URL without an `http://` or
    /// `https://` scheme is refused and changes nothing.
    pub fn add_registry(&mut self, name: &str, url: &str) -> (r: Result<(), NrsError>)
        requires
            wf(old(self)@),
        ensures
            !valid_url(url@) ==> (r matches Err(e) && e matches NrsError::InvalidRegistryUrl(u)
                && u@ == url@) && final(self)@ == old(self)@,
            valid_url(url@) ==> (r matches Ok(v) && v == () && final(self)@ == add_result(
                old(self)@,
                name@,
                url@,
            )),
            wf(final(self)@),
    {
        let http = str_has_prefix(url, "http://");
        let https = str_has_prefix(url, "https://");
        proof {
            reveal_strlit("http://");
            reveal_strlit("https://");
        }
        if !http && !https {
            return Err(NrsError::InvalidRegistryUrl(String::from_str(url)));
        }
        if find_url(&self.registries, url).is_some() {
            return Ok(());
        }
        if find_url(&self.custom_registries, url).is_some() {
            return Ok(());
        }
        let ghost p0 = self@;
        match find_key(&self.registries, name) {
            Some(i) => {
                set_entry(&mut self.registries, i, name, url);
            },
            None => {
                match find_key(&self.custom_registries, name) {
                    Some(i) => {
                        set_entry(&mut self.custom_registries, i, name, url);
                    },
                    None => {
                        self.custom_registries.push((
                            String::from_str(name),
                            String::from_str(url),
                        ));
                        proof {
                            assert(self@.custom =~= p0.custom.push((name@, url@)));
                        }
                    },
                }
            },
        }
        if !contains_name(&self.registry_order, name) {
            self.registry_order.push(String::from_str(name));
            proof {
                assert(self@.order =~= p0.order.push(name@));
            }
        }
        proof {
            assert(self@ =~= add_result(p0, name@, url@));
            lemma_add_wf(p0, name@, url@);
        }
        Ok(())
    }

    /// Change the URL of an existing entry, wherever it lives.
    pub fn edit_registry(&mut self, name: &str, new_url: &str) -> (r: Result<(), NrsError>)
        requires
            wf(old(self)@),
        ensures
            !known_name(old(self)@, name@) ==> (r matches Err(e) && e matches
                NrsError::RegistryNotFound(n) && n@ == name@) && final(self)@ == old(self)@,
            known_name(old(self)@, name@) && !valid_url(new_url@) ==> (r matches Err(e)
                && e matches NrsError::InvalidRegistryUrl(u) && u@ == new_url@) && final(self)@
                == old(self)@,
            known_name(old(self)@, name@) && valid_url(new_url@) ==> (r matches Ok(v) && v
                == () && final(self)@ == edit_result(old(self)@, name@, new_url@)),
            wf(final(self)@),
    {
        let in_builtin = find_key(&self.registries, name);
        let in_custom = find_key(&self.custom_registries, name);
        if in_builtin.is_none() && in_custom.is_none() {
            return Err(NrsError::RegistryNotFound(String::from_str(name)));
        }
        let https = str_has_prefix(new_url, "https://");
        let http = str_has_prefix(new_url, "http://");
        proof {
            reveal_strlit("http://");
            reveal_strlit("https://");
        }
        if !https && !http {
            return Err(NrsError::InvalidRegistryUrl(String::from_str(new_url)));
        }
        let ghost p0 = self@;
        match in_builtin {
            Some(i) => {
                set_entry(&mut self.registries, i, name, new_url);
            },
            None => {
                let i = in_custom.unwrap();
                set_entry(&mut self.custom_registries, i, name, new_url);
            },
        }
        proof {
            assert(self@ =~= edit_result(p0, name@, new_url@));
            lemma_edit_wf(p0, name@, new_url@);
        }
        Ok(())
    }

    /// Forget an entry: its map loses it, the order list no longer names it,
    /// and a selection pointing at it is cleared.
    pub fn remove_registry(&mut self, name: &str) -> (r: Result<(), NrsError>)
        requires
            wf(old(self)@),
        ensures
            !known_name(old(self)@, name@) ==> (r matches Err(e) && e matches
                NrsError::RegistryNotFound(n) && n@ == name@) && final(self)@ == old(self)@,
            known_name(old(self)@, name@) ==> (r matches Ok(v) && v == () && final(self)@
                == remove_result(old(self)@, name@)),
            wf(final(self)@),
    {
        let ghost p0 = self@;
        let was_builtin = remove_key(&mut self.registries, name);
        let was_custom = remove_key(&mut self.custom_registries, name);
        if !was_builtin && !was_custom {
            proof {
                lemma_filter_keeps_all(
                    p0.builtin,
                    |p: (Seq<char>, Seq<char>)| p.0 != name@,
                );
                lemma_filter_keeps_all(p0.custom, |p: (Seq<char>, Seq<char>)| p.0 != name@);
                assert(self@ =~= p0);
            }
            return Err(NrsError::RegistryNotFound(String::from_str(name)));
        }
        let new_order = remove_order_name(&self.registry_order, name);
        self.registry_order = new_order;
        let clear = match &self.current {
            Some(c) => str_eq(c.as_str(), name),
            None => false,
        };
        if clear {
            self.current = None;
        }
        proof {
            assert(self@ =~= remove_result(p0, name@));
            lemma_remove_wf(p0, name@);
        }
        Ok(())
    }

    /// Select `name` as the current registry.
    pub fn set_current(&mut self, name: &str) -> (r: Result<(), NrsError>)
        requires
            wf(old(self)@),
        ensures
            !known_name(old(self)@, name@) ==> (r matches Err(e) && e matches
                NrsError::RegistryNotFound(n) && n@ == name@) && final(self)@ == old(self)@,
            known_name(old(self)@, name@) ==> (r matches Ok(v) && v == () && final(self)@
                == with_current(old(self)@, name@)),
            wf(final(self)@),
    {
        let in_builtin = find_key(&self.registries, name);
        let in_custom = find_key(&self.custom_registries, name);
        if in_builtin.is_none() && in_custom.is_none() {
            return Err(NrsError::RegistryNotFound(String::from_str(name)));
        }
        self.current = Some(String::from_str(name));
        Ok(())
    }
}

/// A successful `add` preserves well-formedness.
pub proof fn lemma_add_wf(p: ProfileView, name: Seq<char>, url: Seq<char>)
    requires
        wf(p),
    ensures
        wf(add_result(p, name, url)),
{
    let q = add_result(p, name, url);
    assert(q.builtin.len() == p.builtin.len());
    assert(forall|i: int|
        0 <= i < p.builtin.len() ==> (#[trigger] q.builtin[i]).0 == p.builtin[i].0);
    if !(has_url(p.builtin, url) || has_url(p.custom, url)) && !has_key(p.builtin, name)
        && !has_key(p.custom, name) {
        assert(forall|i: int|
            0 <= i < p.custom.len() ==> (#[trigger] q.custom[i]) == p.custom[i]);
        assert(q.custom[p.custom.len() as int].0 == name);
    } else {
        assert(forall|i: int|
            0 <= i < p.custom.len() ==> (#[trigger] q.custom[i]).0 == p.custom[i].0);
    }
    if let Some(c) = p.current {
        if has_key(p.builtin, c) {
            let i = choose|i: int| 0 <= i < p.builtin.len() && (#[trigger] p.builtin[i]).0 == c;
            assert(q.builtin[i].0 == c);
        } else {
            let i = choose|i: int| 0 <= i < p.custom.len() && (#[trigger] p.custom[i]).0 == c;
            assert(q.custom[i].0 == c);
        }
        assert(known_name(q, c));
    }
}

/// A successful `edit` preserves well-formedness.
pub proof fn lemma_edit_wf(p: ProfileView, name: Seq<char>, url: Seq<char>)
    requires
        wf(p),
    ensures
        wf(edit_result(p, name, url)),
{
    let q = edit_result(p, name, url);
    assert(forall|i: int|
        0 <= i < p.builtin.len() ==> (#[trigger] q.builtin[i]).0 == p.builtin[i].0);
    assert(forall|i: int|
        0 <= i < p.custom.len() ==> (#[trigger] q.custom[i]).0 == p.custom[i].0);
    if let Some(c) = p.current {
        if has_key(p.builtin, c) {
            let i = choose|i: int| 0 <= i < p.builtin.len() && (#[trigger] p.builtin[i]).0 == c;
            assert(q.builtin[i].0 == c);
        } else {
            let i = choose|i: int| 0 <= i < p.custom.len() && (#[trigger] p.custom[i]).0 == c;
            assert(q.custom[i].0 == c);
        }
        assert(known_name(q, c));
    }
}

/// Every entry of `map_del(m, k)` stems from `m`.
pub proof fn lemma_map_del_member(m: RegMap, k: Seq<char>, a: int)
    requires
        0 <= a < map_del(m, k).len(),
    ensures
        exists|j: int| 0 <= j < m.len() && #[trigger] m[j] == map_del(m, k)[a],
    decreases m.len(),
{
    reveal(Seq::filter);
    if m.len() > 0 {
        let f = map_del(m, k);
        let g = map_del(m.drop_last(), k);
        if m.last().0 != k && a == f.len() - 1 {
            assert(m[m.len() - 1] == f[a]);
        } else {
            lemma_map_del_member(m.drop_last(), k, a);
            let j = choose|j: int|
                0 <= j < m.drop_last().len() && #[trigger] m.drop_last()[j] == g[a];
            assert(m[j] == f[a]);
        }
    }
}

/// Unique keys survive deletion.
pub proof fn lemma_map_del_unique(m: RegMap, k: Seq<char>)
    requires
        unique_keys(m),
    ensures
        unique_keys(map_del(m, k)),
    decreases m.len(),
{
    reveal(Seq::filter);
    if m.len() > 0 {
        assert(unique_keys(m.drop_last()));
        lemma_map_del_unique(m.drop_last(), k);
        let f = map_del(m, k);
        let g = map_del(m.drop_last(), k);
        if m.last().0 != k {
            assert(f == g.push(m.last()));
            assert forall|a: int, b: int| 0 <= a < b < f.len() implies (#[trigger] f[a]).0 != (
            #[trigger] f[b]).0 by {
                if b < f.len() - 1 {
                    assert(f[a] == g[a] && f[b] == g[b]);
                } else {
                    assert(f[b] == m.last());
                    assert(f[a] == g[a]);
                    lemma_map_del_member(m.drop_last(), k, a);
                    let j = choose|j: int|
                        0 <= j < m.drop_last().len() && #[trigger] m.drop_last()[j] == g[a];
                    assert(m[j] == f[a]);
                    assert(m[j].0 != m.last().0);
                }
            }
        }
    }
}

/// Deleting one name keeps every other name present.
pub proof fn lemma_map_del_has_key(m: RegMap, k: Seq<char>, c: Seq<char>)
    requires
        has_key(m, c),
        c != k,
    ensures
        has_key(map_del(m, k), c),
    decreases m.len(),
{
    reveal(Seq::filter);
    if m.len() > 0 {
        let f = map_del(m, k);
        let g = map_del(m.drop_last(), k);
        if m.last().0 == c {
            assert(f[f.len() - 1] == m.last());
            assert(has_key(f, c));
        } else {
            assert(has_key(m.drop_last(), c)) by {
                let i = choose|i: int| 0 <= i < m.len() && (#[trigger] m[i]).0 == c;
                assert(m.drop_last()[i] == m[i]);
            }
            lemma_map_del_has_key(m.drop_last(), k, c);
            let i = choose|i: int| 0 <= i < g.len() && (#[trigger] g[i]).0 == c;
            if m.last().0 != k {
                assert(f[i] == g[i]);
            } else {
                assert(f == g);
            }
            assert(has_key(f, c));
        }
    }
}

/// A successful `remove` preserves well-formedness.
pub proof fn lemma_remove_wf(pv: ProfileView, name: Seq<char>)
    requires
        wf(pv),
    ensures
        wf(remove_result(pv, name)),
{
    let q = remove_result(pv, name);
    lemma_map_del_unique(pv.builtin, name);
    lemma_map_del_unique(pv.custom, name);
    assert forall|a: int, b: int| 0 <= a < q.builtin.len() && 0 <= b < q.custom.len() implies (
    #[trigger] q.builtin[a]).0 != (#[trigger] q.custom[b]).0 by {
        lemma_map_del_member(pv.builtin, name, a);
        let i = choose|i: int| 0 <= i < pv.builtin.len() && #[trigger] pv.builtin[i] == q.builtin[a];
        lemma_map_del_member(pv.custom, name, b);
        let j = choose|j: int| 0 <= j < pv.custom.len() && #[trigger] pv.custom[j] == q.custom[b];
        assert(pv.builtin[i].0 != pv.custom[j].0);
    }
    if let Some(c) = q.current {
        assert(pv.current == Some(c));
        assert(c != name);
        assert(known_name(pv, c));
        if has_key(pv.builtin, c) {
            lemma_map_del_has_key(pv.builtin, name, c);
        } else {
            lemma_map_del_has_key(pv.custom, name, c);
        }
        assert(known_name(q, c));
    }
}

} // verus!
