//! Verified insertion sorts: registry names in lexicographic order, and
//! (name, URL) pairs under the orders the listing command offers.

use vstd::multiset::Multiset;
use vstd::prelude::*;

use crate::text::lemma_lex_total;
use crate::text::lemma_lex_trans;
use crate::text::lex_leq;
use crate::text::str_leq;

verus! {

broadcast use vstd::seq_lib::group_to_multiset_ensures;

/// Names in non-decreasing lexicographic order.
pub open spec fn names_sorted(s: Seq<Seq<char>>) -> bool {
    forall|i: int, j: int| 0 <= i < j < s.len() ==> lex_leq(#[trigger] s[i], #[trigger] s[j])
}

/// The same names, lexicographically sorted.
pub fn sort_names(v: &Vec<String>) -> (r: Vec<String>)
    ensures
        names_sorted(r.deep_view()),
        r.deep_view().to_multiset() == v.deep_view().to_multiset(),
{
    let n = v.len();
    let mut out: Vec<String> = Vec::new();
    let mut i: usize = 0;
    proof {
        assert(v.deep_view().take(0) =~= Seq::<Seq<char>>::empty());
        assert(out.deep_view() =~= Seq::<Seq<char>>::empty());
        assert(out.deep_view().to_multiset() =~= v.deep_view().take(0).to_multiset());
    }
    loop
        invariant
            n == v@.len(),
            v.deep_view().len() == n,
            i <= n,
            names_sorted(out.deep_view()),
            out.deep_view().to_multiset() == v.deep_view().take(i as int).to_multiset(),
        ensures
            i == n,
            names_sorted(out.deep_view()),
            out.deep_view().to_multiset() == v.deep_view().take(i as int).to_multiset(),
        decreases n - i,
    {
        if i == n {
            break;
        }
        let ghost dv = v.deep_view();
        let x = v[i].clone();
        proof {
            assert(x@ == dv[i as int]);
            assert(dv.take(i as int + 1) =~= dv.take(i as int).push(dv[i as int]));
            assert(dv.take(i as int + 1).to_multiset() == dv.take(
                i as int,
            ).to_multiset().insert(dv[i as int]));
        }
        let m = out.len();
        let mut k: usize = 0;
        loop
            invariant
                m == out@.len(),
                out.deep_view().len() == m,
                k <= m,
                forall|j: int| 0 <= j < k ==> lex_leq(#[trigger] out.deep_view()[j], x@),
            ensures
                k <= m,
                forall|j: int| 0 <= j < k ==> lex_leq(#[trigger] out.deep_view()[j], x@),
                k == m || !lex_leq(out.deep_view()[k as int], x@),
            decreases m - k,
        {
            if k == m {
                break;
            }
            proof {
                assert(out.deep_view()[k as int] == out@[k as int]@);
            }
            if !str_leq(out[k].as_str(), x.as_str()) {
                break;
            }
            k += 1;
        }
        let ghost out0 = out.deep_view();
        out.insert(k, x);
        proof {
            let nv = out.deep_view();
            assert(nv =~= out0.take(k as int) + seq![dv[i as int]] + out0.skip(k as int));
            assert(out0 =~= out0.take(k as int) + out0.skip(k as int));
            vstd::seq_lib::lemma_multiset_commutative(
                out0.take(k as int) + seq![dv[i as int]],
                out0.skip(k as int),
            );
            vstd::seq_lib::lemma_multiset_commutative(out0.take(k as int), seq![dv[i as int]]);
            vstd::seq_lib::lemma_multiset_commutative(out0.take(k as int), out0.skip(k as int));
            assert(seq![dv[i as int]].to_multiset() =~= Multiset::<Seq<char>>::empty().insert(
                dv[i as int],
            ));
            assert(nv.to_multiset() =~= out0.to_multiset().insert(dv[i as int]));
            assert forall|a: int, b: int| 0 <= a < b < nv.len() implies lex_leq(
                #[trigger] nv[a],
                #[trigger] nv[b],
            ) by {
                if a < k && b == k {
                    assert(nv[a] == out0[a]);
                    assert(lex_leq(out0[a], x@));
                } else if a == k && b > k {
                    assert(nv[b] == out0[b - 1]);
                    if k < out0.len() {
                        lemma_lex_total(x@, out0[k as int]);
                        if b - 1 > k {
                            lemma_lex_trans(x@, out0[k as int], out0[b - 1]);
                        }
                    }
                } else if a < k && b > k {
                    assert(nv[a] == out0[a]);
                    assert(nv[b] == out0[b - 1]);
                } else if b < k {
                    assert(nv[a] == out0[a]);
                    assert(nv[b] == out0[b]);
                } else if a > k {
                    assert(nv[a] == out0[a - 1]);
                    assert(nv[b] == out0[b - 1]);
                }
            }
        }
        i += 1;
    }
    proof {
        assert(v.deep_view().take(n as int) =~= v.deep_view());
    }
    out
}

/// The orders the listing command offers.
#[derive(Clone, Copy)]
pub enum SortOrder {
    /// By registry name.
    Name,
    /// By registry URL.
    Url,
    /// By position in the profile's order list; names the list does not
    /// mention sort last.
    Default,
}

/// The position of a name in the order list; absent names rank after every
/// listed one.
pub open spec fn name_pos(o: Seq<Seq<char>>, n: Seq<char>) -> int
    decreases o.len(),
{
    if o.len() == 0 {
        0
    } else if o[0] == n {
        0
    } else {
        1 + name_pos(o.drop_first(), n)
    }
}

/// The first occurrence determines the position.
pub proof fn lemma_name_pos_at(o: Seq<Seq<char>>, n: Seq<char>, i: int)
    requires
        0 <= i <= o.len(),
        forall|j: int| 0 <= j < i ==> #[trigger] o[j] != n,
        i == o.len() || o[i] == n,
    ensures
        name_pos(o, n) == i,
    decreases i,
{
    if o.len() == 0 {
    } else if i == 0 {
    } else {
        assert(o[0] != n);
        lemma_name_pos_at(o.drop_first(), n, i - 1);
    }
}

/// Where a pair sorts under a listing order.
pub open spec fn pair_leq(
    ord: SortOrder,
    o: Seq<Seq<char>>,
    a: (Seq<char>, Seq<char>),
    b: (Seq<char>, Seq<char>),
) -> bool {
    match ord {
        SortOrder::Name => lex_leq(a.0, b.0),
        SortOrder::Url => lex_leq(a.1, b.1),
        SortOrder::Default => name_pos(o, a.0) <= name_pos(o, b.0),
    }
}

/// Any two pairs are comparable under any listing order.
pub proof fn lemma_pair_total(
    ord: SortOrder,
    o: Seq<Seq<char>>,
    a: (Seq<char>, Seq<char>),
    b: (Seq<char>, Seq<char>),
)
    ensures
        pair_leq(ord, o, a, b) || pair_leq(ord, o, b, a),
{
    match ord {
        SortOrder::Name => lemma_lex_total(a.0, b.0),
        SortOrder::Url => lemma_lex_total(a.1, b.1),
        SortOrder::Default => {},
    }
}

/// Listing orders are transitive.
pub proof fn lemma_pair_trans(
    ord: SortOrder,
    o: Seq<Seq<char>>,
    a: (Seq<char>, Seq<char>),
    b: (Seq<char>, Seq<char>),
    c: (Seq<char>, Seq<char>),
)
    requires
        pair_leq(ord, o, a, b),
        pair_leq(ord, o, b, c),
    ensures
        pair_leq(ord, o, a, c),
{
    match ord {
        SortOrder::Name => lemma_lex_trans(a.0, b.0, c.0),
        SortOrder::Url => lemma_lex_trans(a.1, b.1, c.1),
        SortOrder::Default => {},
    }
}

/// The position of a name in the order list, executably.
fn name_pos_of(o: &Vec<String>, n: &str) -> (r: usize)
    ensures
        r == name_pos(o.deep_view(), n@),
{
    let m = o.len();
    let mut i: usize = 0;
    loop
        invariant
            m == o@.len(),
            o.deep_view().len() == m,
            i <= m,
            forall|j: int| 0 <= j < i ==> #[trigger] o.deep_view()[j] != n@,
        ensures
            i <= m,
            forall|j: int| 0 <= j < i ==> #[trigger] o.deep_view()[j] != n@,
            i == m || o.deep_view()[i as int] == n@,
        decreases m - i,
    {
        if i == m {
            break;
        }
        proof {
            assert(o.deep_view()[i as int] == o@[i as int]@);
        }
        if crate::text::str_eq(o[i].as_str(), n) {
            break;
        }
        i += 1;
    }
    proof {
        lemma_name_pos_at(o.deep_view(), n@, i as int);
    }
    i
}

/// Executable comparison under a listing order.
fn pair_le(ord: SortOrder, o: &Vec<String>, a: &(String, String), b: &(String, String)) -> (r:
    bool)
    ensures
        r == pair_leq(ord, o.deep_view(), (a.0@, a.1@), (b.0@, b.1@)),
{
    match ord {
        SortOrder::Name => str_leq(a.0.as_str(), b.0.as_str()),
        SortOrder::Url => str_leq(a.1.as_str(), b.1.as_str()),
        SortOrder::Default => {
            let pa = name_pos_of(o, a.0.as_str());
            let pb = name_pos_of(o, b.0.as_str());
            pa <= pb
        },
    }
}

/// All pairs sorted under a listing order.
pub open spec fn pairs_sorted(
    ord: SortOrder,
    o: Seq<Seq<char>>,
    s: Seq<(Seq<char>, Seq<char>)>,
) -> bool {
    forall|i: int, j: int|
        0 <= i < j < s.len() ==> pair_leq(ord, o, #[trigger] s[i], #[trigger] s[j])
}

impl crate::profile::Config {
    /// Every registry, built-in and custom, sorted for display under the
    /// chosen order.
    pub fn sorted_registries(&self, ord: SortOrder) -> (r: Vec<(String, String)>)
        ensures
            pairs_sorted(ord, self@.order, r.deep_view()),
            r.deep_view().to_multiset() == (self@.builtin + self@.custom).to_multiset(),
    {
        let pool = crate::reconcile::concat_entries(&self.registries, &self.custom_registries);
        let n = pool.len();
        let mut out: Vec<(String, String)> = Vec::new();
        let mut i: usize = 0;
        proof {
            assert(pool.deep_view().take(0) =~= Seq::<(Seq<char>, Seq<char>)>::empty());
            assert(out.deep_view() =~= Seq::<(Seq<char>, Seq<char>)>::empty());
            assert(out.deep_view().to_multiset() =~= pool.deep_view().take(0).to_multiset());
        }
        loop
            invariant
                n == pool@.len(),
                pool.deep_view().len() == n,
                i <= n,
                pairs_sorted(ord, self@.order, out.deep_view()),
                self@.order == self.registry_order.deep_view(),
                out.deep_view().to_multiset() == pool.deep_view().take(i as int).to_multiset(),
            ensures
                i == n,
                pairs_sorted(ord, self@.order, out.deep_view()),
                out.deep_view().to_multiset() == pool.deep_view().take(i as int).to_multiset(),
            decreases n - i,
        {
            if i == n {
                break;
            }
            let ghost dv = pool.deep_view();
            let x = (pool[i].0.clone(), pool[i].1.clone());
            proof {
                assert((x.0@, x.1@) == dv[i as int]);
                assert(dv.take(i as int + 1) =~= dv.take(i as int).push(dv[i as int]));
                assert(dv.take(i as int + 1).to_multiset() == dv.take(
                    i as int,
                ).to_multiset().insert(dv[i as int]));
            }
            let m = out.len();
            let mut k: usize = 0;
            loop
                invariant
                    m == out@.len(),
                    out.deep_view().len() == m,
                    k <= m,
                    self@.order == self.registry_order.deep_view(),
                    forall|j: int|
                        0 <= j < k ==> pair_leq(
                            ord,
                            self@.order,
                            #[trigger] out.deep_view()[j],
                            (x.0@, x.1@),
                        ),
                ensures
                    k <= m,
                    forall|j: int|
                        0 <= j < k ==> pair_leq(
                            ord,
                            self@.order,
                            #[trigger] out.deep_view()[j],
                            (x.0@, x.1@),
                        ),
                    k == m || !pair_leq(ord, self@.order, out.deep_view()[k as int], (x.0@, x.1@)),
                decreases m - k,
            {
                if k == m {
                    break;
                }
                proof {
                    assert(out.deep_view()[k as int] == (out@[k as int].0@, out@[k as int].1@));
                }
                if !pair_le(ord, &self.registry_order, &out[k], &x) {
                    break;
                }
                k += 1;
            }
            let ghost out0 = out.deep_view();
            out.insert(k, x);
            proof {
                let nv = out.deep_view();
                let ghost ov = self@.order;
                assert(nv =~= out0.take(k as int) + seq![dv[i as int]] + out0.skip(k as int));
                assert(out0 =~= out0.take(k as int) + out0.skip(k as int));
                vstd::seq_lib::lemma_multiset_commutative(
                    out0.take(k as int) + seq![dv[i as int]],
                    out0.skip(k as int),
                );
                vstd::seq_lib::lemma_multiset_commutative(out0.take(k as int), seq![dv[i as int]]);
                vstd::seq_lib::lemma_multiset_commutative(out0.take(k as int), out0.skip(k as int));
                assert(seq![dv[i as int]].to_multiset() =~= Multiset::<(
                    Seq<char>,
                    Seq<char>,
                )>::empty().insert(dv[i as int]));
                assert(nv.to_multiset() =~= out0.to_multiset().insert(dv[i as int]));
                assert forall|a: int, b: int| 0 <= a < b < nv.len() implies pair_leq(
                    ord,
                    ov,
                    #[trigger] nv[a],
                    #[trigger] nv[b],
                ) by {
                    if a < k && b == k {
                        assert(nv[a] == out0[a]);
                        assert(pair_leq(ord, ov, out0[a], (x.0@, x.1@)));
                    } else if a == k && b > k {
                        assert(nv[b] == out0[b - 1]);
                        if k < out0.len() {
                            lemma_pair_total(ord, ov, (x.0@, x.1@), out0[k as int]);
                            if b - 1 > k {
                                lemma_pair_trans(
                                    ord,
                                    ov,
                                    (x.0@, x.1@),
                                    out0[k as int],
                                    out0[b - 1],
                                );
                            }
                        }
                    } else if a < k && b > k {
                        assert(nv[a] == out0[a]);
                        assert(nv[b] == out0[b - 1]);
                    } else if b < k {
                        assert(nv[a] == out0[a]);
                        assert(nv[b] == out0[b]);
                    } else if a > k {
                        assert(nv[a] == out0[a - 1]);
                        assert(nv[b] == out0[b - 1]);
                    }
                }
            }
            i += 1;
        }
        proof {
            assert(pool.deep_view().take(n as int) =~= pool.deep_view());
        }
        out
    }
}

} // verus!
