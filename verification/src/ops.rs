//! The remaining command decisions: resetting the profile to its defaults,
//! pruning unreachable custom registries, reporting the current selection,
//! and judging a reachability probe.

use vstd::prelude::*;
use vstd::string::StringExecFns;

use crate::error::NrsError;
use crate::profile::default_entries;
use crate::profile::find_key;
use crate::profile::find_url;
use crate::profile::has_key;
use crate::profile::known_name;
use crate::profile::lemma_default_profile_wf;
use crate::profile::lemma_name_for_url_at;
use crate::profile::name_for_url;
use crate::profile::resolve;
use crate::profile::unique_keys;
use crate::profile::wf;
use crate::profile::Config;
use crate::profile::RegMap;
use crate::reconcile::keys_seq;
use crate::sort::names_sorted;
use crate::sort::sort_names;
use crate::text::str_eq;

verus! {

/// A probe counts as reachable exactly when the response status is a
/// success status.
pub fn is_success_status(code: u16) -> (r: bool)
    ensures
        r == (200 <= code < 300),
{
    200 <= code && code < 300
}

/// The custom entries that survive a reset: those whose name does not
/// collide with a built-in default.
pub open spec fn reset_custom(c: RegMap) -> RegMap {
    c.filter(|p: (Seq<char>, Seq<char>)| !has_key(default_entries(), p.0))
}

/// One step of [`reset_custom`].
proof fn lemma_reset_custom_step(c: RegMap, i: int)
    requires
        0 <= i < c.len(),
    ensures
        !has_key(default_entries(), c[i].0) ==> reset_custom(c.take(i + 1)) == reset_custom(
            c.take(i),
        ).push(c[i]),
        has_key(default_entries(), c[i].0) ==> reset_custom(c.take(i + 1)) == reset_custom(
            c.take(i),
        ),
{
    reveal(Seq::filter);
    assert(c.take(i + 1).drop_last() =~= c.take(i));
    assert(c.take(i + 1).last() == c[i]);
}

/// Every surviving entry stems from the original list.
proof fn lemma_reset_custom_member(c: RegMap, a: int)
    requires
        0 <= a < reset_custom(c).len(),
    ensures
        exists|j: int| 0 <= j < c.len() && #[trigger] c[j] == reset_custom(c)[a],
        !has_key(default_entries(), reset_custom(c)[a].0),
    decreases c.len(),
{
    reveal(Seq::filter);
    if c.len() > 0 {
        let f = reset_custom(c);
        let g = reset_custom(c.drop_last());
        if !has_key(default_entries(), c.last().0) && a == f.len() - 1 {
            assert(c[c.len() - 1] == f[a]);
        } else {
            lemma_reset_custom_member(c.drop_last(), a);
            let j = choose|j: int|
                0 <= j < c.drop_last().len() && #[trigger] c.drop_last()[j] == g[a];
            assert(c[j] == f[a]);
        }
    }
}

/// Unique names survive the reset filter.
proof fn lemma_reset_custom_unique(c: RegMap)
    requires
        unique_keys(c),
    ensures
        unique_keys(reset_custom(c)),
    decreases c.len(),
{
    reveal(Seq::filter);
    if c.len() > 0 {
        assert(unique_keys(c.drop_last()));
        lemma_reset_custom_unique(c.drop_last());
        let f = reset_custom(c);
        let g = reset_custom(c.drop_last());
        if !has_key(default_entries(), c.last().0) {
            assert(f == g.push(c.last()));
            assert forall|a: int, b: int| 0 <= a < b < f.len() implies (#[trigger] f[a]).0 != (
            #[trigger] f[b]).0 by {
                if b < f.len() - 1 {
                    assert(f[a] == g[a] && f[b] == g[b]);
                } else {
                    assert(f[b] == c.last());
                    assert(f[a] == g[a]);
                    lemma_reset_custom_member(c.drop_last(), a);
                    let j = choose|j: int|
                        0 <= j < c.drop_last().len() && #[trigger] c.drop_last()[j] == g[a];
                    assert(c[j] == f[a]);
                    assert(c[j].0 != c.last().0);
                }
            }
        }
    }
}

/// A surviving name is still present after the reset filter.
proof fn lemma_reset_custom_has_key(c: RegMap, k: Seq<char>)
    requires
        has_key(c, k),
        !has_key(default_entries(), k),
    ensures
        has_key(reset_custom(c), k),
    decreases c.len(),
{
    reveal(Seq::filter);
    if c.len() > 0 {
        let f = reset_custom(c);
        let g = reset_custom(c.drop_last());
        if c.last().0 == k {
            assert(f[f.len() - 1] == c.last());
            assert(has_key(f, k));
        } else {
            assert(has_key(c.drop_last(), k)) by {
                let i = choose|i: int| 0 <= i < c.len() && (#[trigger] c[i]).0 == k;
                assert(c.drop_last()[i] == c[i]);
            }
            lemma_reset_custom_has_key(c.drop_last(), k);
            let i = choose|i: int| 0 <= i < g.len() && (#[trigger] g[i]).0 == k;
            if !has_key(default_entries(), c.last().0) {
                assert(f[i] == g[i]);
            } else {
                assert(f == g);
            }
            assert(has_key(f, k));
        }
    }
}

/// The profile after a reset: `None` while unconfirmed; with `all`, the
/// pristine defaults; otherwise the defaults plus the surviving custom
/// entries, the order rebuilt sorted, and the selection kept only where it
/// still resolves.
pub fn reset(prior: &Config, confirm: bool, all: bool) -> (r: Option<Config>)
    requires
        wf(prior@),
    ensures
        !confirm ==> r is None,
        confirm && all ==> (r matches Some(c) && c@ == crate::profile::default_profile() && wf(
            c@,
        )),
        confirm && !all ==> (r matches Some(c) && {
            &&& c@.builtin == default_entries()
            &&& c@.custom == reset_custom(prior@.custom)
            &&& names_sorted(c@.order)
            &&& c@.order.to_multiset() == (keys_seq(default_entries()) + keys_seq(
                reset_custom(prior@.custom),
            )).to_multiset()
            &&& c@.current == (match prior@.current {
                Some(cu) => if has_key(default_entries(), cu) || has_key(
                    reset_custom(prior@.custom),
                    cu,
                ) {
                    Some(cu)
                } else {
                    None::<Seq<char>>
                },
                None => None::<Seq<char>>,
            })
            &&& wf(c@)
        }),
{
    if !confirm {
        return None;
    }
    let mut fresh = Config::new();
    if all {
        return Some(fresh);
    }
    let n = prior.custom_registries.len();
    let ghost cdv = prior.custom_registries.deep_view();
    let mut kept: Vec<(String, String)> = Vec::new();
    let mut i: usize = 0;
    proof {
        reveal(Seq::filter);
        assert(cdv.take(0) =~= Seq::<(Seq<char>, Seq<char>)>::empty());
        assert(kept.deep_view() =~= reset_custom(cdv.take(0)));
    }
    loop
        invariant
            n == prior.custom_registries@.len(),
            cdv == prior.custom_registries.deep_view(),
            cdv.len() == n,
            i <= n,
            fresh@.builtin == default_entries(),
            kept.deep_view() == reset_custom(cdv.take(i as int)),
        ensures
            i == n,
            kept.deep_view() == reset_custom(cdv.take(i as int)),
        decreases n - i,
    {
        if i == n {
            break;
        }
        proof {
            assert(cdv[i as int] == (
                prior.custom_registries@[i as int].0@,
                prior.custom_registries@[i as int].1@,
            ));
            lemma_reset_custom_step(cdv, i as int);
        }
        let hit = find_key(&fresh.registries, prior.custom_registries[i].0.as_str());
        if hit.is_none() {
            let ghost before = kept.deep_view();
            kept.push((
                prior.custom_registries[i].0.clone(),
                prior.custom_registries[i].1.clone(),
            ));
            proof {
                assert(kept.deep_view() =~= before.push(cdv[i as int]));
            }
        }
        i += 1;
    }
    proof {
        assert(cdv.take(n as int) =~= cdv);
    }
    fresh.custom_registries = kept;
    let names = crate::reconcile::all_names(&fresh.registries, &fresh.custom_registries);
    fresh.registry_order = sort_names(&names);
    let keep_current = match &prior.current {
        Some(cu) => find_key(&fresh.registries, cu.as_str()).is_some() || find_key(
            &fresh.custom_registries,
            cu.as_str(),
        ).is_some(),
        None => false,
    };
    if keep_current {
        fresh.current = match &prior.current {
            Some(cu) => Some(cu.clone()),
            None => None,
        };
    } else {
        fresh.current = None;
    }
    proof {
        lemma_default_profile_wf();
        lemma_reset_custom_unique(cdv);
        assert forall|a: int, b: int|
            0 <= a < fresh@.builtin.len() && 0 <= b < fresh@.custom.len() implies (
        #[trigger] fresh@.builtin[a]).0 != (#[trigger] fresh@.custom[b]).0 by {
            lemma_reset_custom_member(cdv, b);
            if fresh@.builtin[a].0 == fresh@.custom[b].0 {
                assert(has_key(default_entries(), fresh@.custom[b].0));
            }
        }
        if let Some(cu) = fresh@.current {
            assert(known_name(fresh@, cu));
        }
        assert(wf(fresh@));
    }
    Some(fresh)
}

/// The custom entries that survive a prune: those whose name was not judged
/// unreachable.
pub open spec fn prune_custom(c: RegMap, names: Seq<Seq<char>>) -> RegMap {
    c.filter(|p: (Seq<char>, Seq<char>)| !names.contains(p.0))
}

/// The order list after a prune.
pub open spec fn prune_order(o: Seq<Seq<char>>, names: Seq<Seq<char>>) -> Seq<Seq<char>> {
    o.filter(|n: Seq<char>| !names.contains(n))
}

/// One step of [`prune_custom`].
proof fn lemma_prune_custom_step(c: RegMap, names: Seq<Seq<char>>, i: int)
    requires
        0 <= i < c.len(),
    ensures
        !names.contains(c[i].0) ==> prune_custom(c.take(i + 1), names) == prune_custom(
            c.take(i),
            names,
        ).push(c[i]),
        names.contains(c[i].0) ==> prune_custom(c.take(i + 1), names) == prune_custom(
            c.take(i),
            names,
        ),
{
    reveal(Seq::filter);
    assert(c.take(i + 1).drop_last() =~= c.take(i));
    assert(c.take(i + 1).last() == c[i]);
}

/// One step of [`prune_order`].
proof fn lemma_prune_order_step(o: Seq<Seq<char>>, names: Seq<Seq<char>>, i: int)
    requires
        0 <= i < o.len(),
    ensures
        !names.contains(o[i]) ==> prune_order(o.take(i + 1), names) == prune_order(
            o.take(i),
            names,
        ).push(o[i]),
        names.contains(o[i]) ==> prune_order(o.take(i + 1), names) == prune_order(
            o.take(i),
            names,
        ),
{
    reveal(Seq::filter);
    assert(o.take(i + 1).drop_last() =~= o.take(i));
    assert(o.take(i + 1).last() == o[i]);
}

/// Every surviving entry stems from the original list.
proof fn lemma_prune_custom_member(c: RegMap, names: Seq<Seq<char>>, a: int)
    requires
        0 <= a < prune_custom(c, names).len(),
    ensures
        exists|j: int| 0 <= j < c.len() && #[trigger] c[j] == prune_custom(c, names)[a],
    decreases c.len(),
{
    reveal(Seq::filter);
    if c.len() > 0 {
        let f = prune_custom(c, names);
        let g = prune_custom(c.drop_last(), names);
        if !names.contains(c.last().0) && a == f.len() - 1 {
            assert(c[c.len() - 1] == f[a]);
        } else {
            lemma_prune_custom_member(c.drop_last(), names, a);
            let j = choose|j: int|
                0 <= j < c.drop_last().len() && #[trigger] c.drop_last()[j] == g[a];
            assert(c[j] == f[a]);
        }
    }
}

/// Unique names survive the prune filter.
proof fn lemma_prune_custom_unique(c: RegMap, names: Seq<Seq<char>>)
    requires
        unique_keys(c),
    ensures
        unique_keys(prune_custom(c, names)),
    decreases c.len(),
{
    reveal(Seq::filter);
    if c.len() > 0 {
        assert(unique_keys(c.drop_last()));
        lemma_prune_custom_unique(c.drop_last(), names);
        let f = prune_custom(c, names);
        let g = prune_custom(c.drop_last(), names);
        if !names.contains(c.last().0) {
            assert(f == g.push(c.last()));
            assert forall|a: int, b: int| 0 <= a < b < f.len() implies (#[trigger] f[a]).0 != (
            #[trigger] f[b]).0 by {
                if b < f.len() - 1 {
                    assert(f[a] == g[a] && f[b] == g[b]);
                } else {
                    assert(f[b] == c.last());
                    assert(f[a] == g[a]);
                    lemma_prune_custom_member(c.drop_last(), names, a);
                    let j = choose|j: int|
                        0 <= j < c.drop_last().len() && #[trigger] c.drop_last()[j] == g[a];
                    assert(c[j] == f[a]);
                    assert(c[j].0 != c.last().0);
                }
            }
        }
    }
}

/// A name not pruned is still present afterwards.
proof fn lemma_prune_custom_has_key(c: RegMap, names: Seq<Seq<char>>, k: Seq<char>)
    requires
        has_key(c, k),
        !names.contains(k),
    ensures
        has_key(prune_custom(c, names), k),
    decreases c.len(),
{
    reveal(Seq::filter);
    if c.len() > 0 {
        let f = prune_custom(c, names);
        let g = prune_custom(c.drop_last(), names);
        if c.last().0 == k {
            assert(f[f.len() - 1] == c.last());
            assert(has_key(f, k));
        } else {
            assert(has_key(c.drop_last(), k)) by {
                let i = choose|i: int| 0 <= i < c.len() && (#[trigger] c[i]).0 == k;
                assert(c.drop_last()[i] == c[i]);
            }
            lemma_prune_custom_has_key(c.drop_last(), names, k);
            let i = choose|i: int| 0 <= i < g.len() && (#[trigger] g[i]).0 == k;
            if !names.contains(c.last().0) {
                assert(f[i] == g[i]);
            } else {
                assert(f == g);
            }
            assert(has_key(f, k));
        }
    }
}

impl Config {
    /// The custom registry names a global prune probes, sorted.
    pub fn prune_targets(&self) -> (r: Vec<String>)
        ensures
            names_sorted(r.deep_view()),
            r.deep_view().to_multiset() == keys_seq(self@.custom).to_multiset(),
    {
        let n = self.custom_registries.len();
        let mut names: Vec<String> = Vec::new();
        let mut i: usize = 0;
        loop
            invariant
                n == self.custom_registries@.len(),
                self@.custom.len() == n,
                i <= n,
                names.deep_view() =~= keys_seq(self@.custom).take(i as int),
            ensures
                i == n,
                names.deep_view() =~= keys_seq(self@.custom).take(i as int),
            decreases n - i,
        {
            if i == n {
                break;
            }
            let ghost before = names.deep_view();
            names.push(self.custom_registries[i].0.clone());
            proof {
                assert(keys_seq(self@.custom)[i as int] == self@.custom[i as int].0);
                assert(self@.custom[i as int].0 == self.custom_registries@[i as int].0@);
                assert(names.deep_view() =~= before.push(self@.custom[i as int].0));
                assert(names.deep_view() =~= keys_seq(self@.custom).take(i as int + 1));
            }
            i += 1;
        }
        proof {
            assert(keys_seq(self@.custom).take(n as int) =~= keys_seq(self@.custom));
        }
        sort_names(&names)
    }

    /// Drop every custom registry whose name is listed: its entry and order
    /// line go, and a selection pointing at one of them is cleared.
    pub fn apply_prune(&mut self, unreachable: &Vec<String>)
        requires
            wf(old(self)@),
        ensures
            final(self)@.builtin == old(self)@.builtin,
            final(self)@.custom == prune_custom(old(self)@.custom, unreachable.deep_view()),
            final(self)@.order == prune_order(old(self)@.order, unreachable.deep_view()),
            final(self)@.current == (match old(self)@.current {
                Some(cu) => if unreachable.deep_view().contains(cu) {
                    None::<Seq<char>>
                } else {
                    Some(cu)
                },
                None => None::<Seq<char>>,
            }),
            wf(final(self)@),
    {
        let ghost names = unreachable.deep_view();
        let ghost p0 = self@;
        let n = self.custom_registries.len();
        let mut kept: Vec<(String, String)> = Vec::new();
        let mut i: usize = 0;
        proof {
            reveal(Seq::filter);
            assert(p0.custom.take(0) =~= Seq::<(Seq<char>, Seq<char>)>::empty());
            assert(kept.deep_view() =~= prune_custom(p0.custom.take(0), names));
        }
        loop
            invariant
                n == self.custom_registries@.len(),
                p0.custom == self.custom_registries.deep_view(),
                names == unreachable.deep_view(),
                p0.custom.len() == n,
                i <= n,
                kept.deep_view() == prune_custom(p0.custom.take(i as int), names),
            ensures
                i == n,
                kept.deep_view() == prune_custom(p0.custom.take(i as int), names),
            decreases n - i,
        {
            if i == n {
                break;
            }
            proof {
                assert(p0.custom[i as int] == (
                    self.custom_registries@[i as int].0@,
                    self.custom_registries@[i as int].1@,
                ));
                lemma_prune_custom_step(p0.custom, names, i as int);
            }
            let listed = name_listed(unreachable, self.custom_registries[i].0.as_str());
            if !listed {
                let ghost before = kept.deep_view();
                kept.push((
                    self.custom_registries[i].0.clone(),
                    self.custom_registries[i].1.clone(),
                ));
                proof {
                    assert(kept.deep_view() =~= before.push(p0.custom[i as int]));
                }
            }
            i += 1;
        }
        proof {
            assert(p0.custom.take(n as int) =~= p0.custom);
        }
        self.custom_registries = kept;
        let m = self.registry_order.len();
        let mut kept_order: Vec<String> = Vec::new();
        let mut j: usize = 0;
        proof {
            reveal(Seq::filter);
            assert(p0.order.take(0) =~= Seq::<Seq<char>>::empty());
            assert(kept_order.deep_view() =~= prune_order(p0.order.take(0), names));
        }
        loop
            invariant
                m == self.registry_order@.len(),
                p0.order == self.registry_order.deep_view(),
                names == unreachable.deep_view(),
                p0.order.len() == m,
                j <= m,
                kept_order.deep_view() == prune_order(p0.order.take(j as int), names),
            ensures
                j == m,
                kept_order.deep_view() == prune_order(p0.order.take(j as int), names),
            decreases m - j,
        {
            if j == m {
                break;
            }
            proof {
                assert(p0.order[j as int] == self.registry_order@[j as int]@);
                lemma_prune_order_step(p0.order, names, j as int);
            }
            let listed = name_listed(unreachable, self.registry_order[j].as_str());
            if !listed {
                let ghost before = kept_order.deep_view();
                kept_order.push(self.registry_order[j].clone());
                proof {
                    assert(kept_order.deep_view() =~= before.push(p0.order[j as int]));
                }
            }
            j += 1;
        }
        proof {
            assert(p0.order.take(m as int) =~= p0.order);
        }
        self.registry_order = kept_order;
        let clear = match &self.current {
            Some(cu) => name_listed(unreachable, cu.as_str()),
            None => false,
        };
        if clear {
            self.current = None;
        }
        proof {
            lemma_prune_custom_unique(p0.custom, names);
            assert forall|a: int, b: int|
                0 <= a < self@.builtin.len() && 0 <= b < self@.custom.len() implies (
            #[trigger] self@.builtin[a]).0 != (#[trigger] self@.custom[b]).0 by {
                lemma_prune_custom_member(p0.custom, names, b);
                let w = choose|w: int|
                    0 <= w < p0.custom.len() && #[trigger] p0.custom[w] == self@.custom[b];
                assert(p0.builtin[a].0 != p0.custom[w].0);
            }
            if let Some(cu) = self@.current {
                assert(p0.current == Some(cu));
                assert(!names.contains(cu));
                assert(known_name(p0, cu));
                if has_key(p0.custom, cu) {
                    lemma_prune_custom_has_key(p0.custom, names, cu);
                }
                assert(known_name(self@, cu));
            }
            assert(wf(self@));
        }
    }

    /// The verdict on one reachability probe of a named registry: the name
    /// must be known, and the registry counts as reachable exactly when a
    /// response with a success status came back. `status` is `None` when no
    /// response arrived at all.
    pub fn test_registry(&self, name: &str, status: Option<u16>) -> (r: Result<bool, NrsError>)
        ensures
            !known_name(self@, name@) ==> (r matches Err(e) && e matches
                NrsError::RegistryNotFound(n) && n@ == name@),
            known_name(self@, name@) ==> (r matches Ok(ok) && ok == (status matches Some(c)
                && 200 <= c < 300)),
    {
        if find_key(&self.registries, name).is_none() && find_key(
            &self.custom_registries,
            name,
        ).is_none() {
            return Err(NrsError::RegistryNotFound(String::from_str(name)));
        }
        match status {
            Some(c) => Ok(is_success_status(c)),
            None => Ok(false),
        }
    }

    /// The currently selected registry's name and URL, if one is selected.
    pub fn current_registry(&self) -> (r: Option<(String, String)>)
        requires
            wf(self@),
        ensures
            match r {
                Some(p) => self@.current == Some(p.0@) && resolve(self@, p.0@) == Some(p.1@),
                None => self@.current is None,
            },
    {
        let cur = match &self.current {
            None => {
                return None;
            },
            Some(c) => c.clone(),
        };
        match self.registry_url(cur.as_str()) {
            Some(u) => Some((cur, u)),
            None => {
                proof {
                    assert(false);
                }
                None
            },
        }
    }

    /// The name under which a URL is known, built-in entries first.
    pub fn name_for(&self, url: &str) -> (r: Option<String>)
        ensures
            match r {
                Some(n) => (crate::profile::has_url(self@.builtin, url@) && n@ == name_for_url(
                    self@.builtin,
                    url@,
                )) || (!crate::profile::has_url(self@.builtin, url@)
                    && crate::profile::has_url(self@.custom, url@) && n@ == name_for_url(
                    self@.custom,
                    url@,
                )),
                None => !crate::profile::has_url(self@.builtin, url@)
                    && !crate::profile::has_url(self@.custom, url@),
            },
    {
        match find_url(&self.registries, url) {
            Some(i) => {
                proof {
                    lemma_name_for_url_at(self@.builtin, url@, i as int);
                }
                Some(self.registries[i].0.clone())
            },
            None => {
                match find_url(&self.custom_registries, url) {
                    Some(i) => {
                        proof {
                            lemma_name_for_url_at(self@.custom, url@, i as int);
                        }
                        Some(self.custom_registries[i].0.clone())
                    },
                    None => None,
                }
            },
        }
    }
}

/// Is the name one of the listed names?
fn name_listed(names: &Vec<String>, name: &str) -> (r: bool)
    ensures
        r == names.deep_view().contains(name@),
{
    let n = names.len();
    let mut i: usize = 0;
    loop
        invariant
            n == names@.len(),
            names.deep_view().len() == n,
            i <= n,
            forall|j: int| 0 <= j < i ==> #[trigger] names.deep_view()[j] != name@,
        ensures
            i == n,
            forall|j: int| 0 <= j < i ==> #[trigger] names.deep_view()[j] != name@,
        decreases n - i,
    {
        if i == n {
            break;
        }
        proof {
            assert(names.deep_view()[i as int] == names@[i as int]@);
        }
        if str_eq(names[i].as_str(), name) {
            proof {
                assert(names.deep_view().contains(name@));
            }
            return true;
        }
        i += 1;
    }
    proof {
        assert(!names.deep_view().contains(name@));
    }
    false
}

} // verus!
