//! The configuration-file line editor. The file is line-oriented text; the
//! only line this library reads or writes is `registry=<url>`. Rewriting
//! drops every registry line, keeps all other lines verbatim and in order,
//! and appends a single fresh registry line.

use vstd::prelude::*;
use vstd::string::StringExecFns;

use crate::lines::join_lines;
use crate::lines::join_nl;
use crate::lines::lines_of;
use crate::lines::split_lines;
use crate::profile::resolve;
use crate::profile::wf;
use crate::profile::Config;
use crate::profile::ProfileView;
use crate::text::has_prefix;
use crate::text::str_has_prefix;
use crate::text::trim;
use crate::text::trim_spec;
use crate::text::strip_prefix_of;

verus! {

/// Is this a registry assignment line (after trimming whitespace)?
pub open spec fn is_registry_line(l: Seq<char>) -> bool {
    has_prefix(trim_spec(l), "registry="@)
}

/// The URL a registry line assigns: what follows `registry=` in the trimmed
/// line.
pub open spec fn line_url(l: Seq<char>) -> Seq<char> {
    trim_spec(l).skip("registry="@.len() as int)
}

/// The URL assigned by the first registry line, if any line is one.
pub open spec fn registry_url_of(ls: Seq<Seq<char>>) -> Option<Seq<char>>
    decreases ls.len(),
{
    if ls.len() == 0 {
        None
    } else if is_registry_line(ls[0]) {
        Some(line_url(ls[0]))
    } else {
        registry_url_of(ls.drop_first())
    }
}

/// The lines that are not registry lines, in unchanged order.
pub open spec fn keep_lines(ls: Seq<Seq<char>>) -> Seq<Seq<char>> {
    ls.filter(|l: Seq<char>| !is_registry_line(l))
}

/// The text of a registry line for `url`.
pub open spec fn registry_line(url: Seq<char>) -> Seq<char> {
    "registry="@ + url
}

/// The rewritten configuration text: every non-registry line kept verbatim,
/// then one registry line for `url`, each line closed by a newline.
pub open spec fn set_content(ls: Seq<Seq<char>>, url: Seq<char>) -> Seq<char> {
    join_nl(keep_lines(ls).push(registry_line(url)))
}

/// The lines of an optional text; an absent file has no lines.
pub open spec fn existing_lines(t: Option<Seq<char>>) -> Seq<Seq<char>> {
    match t {
        Some(s) => lines_of(s),
        None => Seq::<Seq<char>>::empty(),
    }
}

/// What rewriting the configuration file produces: nothing to write while no
/// registry is selected, else the rewritten text.
pub open spec fn npmrc_update(p: ProfileView, existing: Option<Seq<char>>) -> Option<Seq<char>> {
    match p.current {
        None => None,
        Some(c) => match resolve(p, c) {
            None => None,
            Some(u) => Some(set_content(existing_lines(existing), u)),
        },
    }
}

/// One step of [`keep_lines`].
pub proof fn lemma_keep_lines_step(ls: Seq<Seq<char>>, i: int)
    requires
        0 <= i < ls.len(),
    ensures
        !is_registry_line(ls[i]) ==> keep_lines(ls.take(i + 1)) == keep_lines(ls.take(i)).push(
            ls[i],
        ),
        is_registry_line(ls[i]) ==> keep_lines(ls.take(i + 1)) == keep_lines(ls.take(i)),
{
    reveal(Seq::filter);
    assert(ls.take(i + 1).drop_last() =~= ls.take(i));
    assert(ls.take(i + 1).last() == ls[i]);
}

/// Keeping lines of nothing gives nothing.
pub proof fn lemma_keep_lines_empty()
    ensures
        keep_lines(Seq::<Seq<char>>::empty()) == Seq::<Seq<char>>::empty(),
{
    reveal(Seq::filter);
}

/// Every kept line is a non-registry line of the original, and every
/// non-registry line is kept; order is preserved by construction.
pub proof fn lemma_keep_lines_all(ls: Seq<Seq<char>>)
    ensures
        forall|i: int| 0 <= i < keep_lines(ls).len() ==> !is_registry_line(
            #[trigger] keep_lines(ls)[i],
        ),
        keep_lines(ls).len() <= ls.len(),
    decreases ls.len(),
{
    reveal(Seq::filter);
    if ls.len() > 0 {
        lemma_keep_lines_all(ls.drop_last());
    }
}

/// Filtering a text's lines on "not a registry line" twice changes nothing
/// beyond the first pass.
pub proof fn lemma_keep_lines_idempotent(ls: Seq<Seq<char>>)
    ensures
        keep_lines(keep_lines(ls)) == keep_lines(ls),
{
    lemma_keep_lines_all(ls);
    lemma_keep_lines_fixed(keep_lines(ls));
}

/// A sequence of non-registry lines is kept whole.
pub proof fn lemma_keep_lines_fixed(ls: Seq<Seq<char>>)
    requires
        forall|i: int| 0 <= i < ls.len() ==> !is_registry_line(#[trigger] ls[i]),
    ensures
        keep_lines(ls) == ls,
    decreases ls.len(),
{
    reveal(Seq::filter);
    if ls.len() > 0 {
        assert(forall|i: int|
            0 <= i < ls.drop_last().len() ==> !is_registry_line(#[trigger] ls.drop_last()[i]));
        lemma_keep_lines_fixed(ls.drop_last());
    }
}

/// The lines that are not registry lines, as owned strings.
pub fn keep_lines_exec(ls: &Vec<String>) -> (r: Vec<String>)
    ensures
        r.deep_view() == keep_lines(ls.deep_view()),
{
    let n = ls.len();
    let mut out: Vec<String> = Vec::new();
    let mut i: usize = 0;
    proof {
        lemma_keep_lines_empty();
        assert(ls.deep_view().take(0) =~= Seq::<Seq<char>>::empty());
        assert(out.deep_view() =~= Seq::<Seq<char>>::empty());
    }
    loop
        invariant
            n == ls@.len(),
            ls.deep_view().len() == n,
            i <= n,
            out.deep_view() == keep_lines(ls.deep_view().take(i as int)),
        ensures
            i == n,
            out.deep_view() == keep_lines(ls.deep_view().take(i as int)),
        decreases n - i,
    {
        if i == n {
            break;
        }
        let ghost dv = ls.deep_view();
        proof {
            assert(dv[i as int] == ls@[i as int]@);
            lemma_keep_lines_step(dv, i as int);
        }
        let t = trim(ls[i].as_str());
        let is_reg = str_has_prefix(t, "registry=");
        if !is_reg {
            let ghost out0 = out.deep_view();
            out.push(ls[i].clone());
            proof {
                assert(out.deep_view() =~= out0.push(dv[i as int]));
            }
        }
        i += 1;
    }
    proof {
        assert(ls.deep_view().take(n as int) =~= ls.deep_view());
    }
    out
}

/// The URL of the first `registry=` line of a configuration text, if any.
pub fn read_registry_url(content: &str) -> (r: Option<String>)
    ensures
        match r {
            Some(u) => registry_url_of(lines_of(content@)) == Some(u@),
            None => registry_url_of(lines_of(content@)) is None,
        },
{
    let ls = split_lines(content);
    let n = ls.len();
    let mut i: usize = 0;
    let ghost dv = ls.deep_view();
    proof {
        assert(dv.skip(0) =~= dv);
    }
    loop
        invariant
            n == ls@.len(),
            dv == ls.deep_view(),
            dv.len() == n,
            i <= n,
            registry_url_of(lines_of(content@)) == registry_url_of(dv.skip(i as int)),
        ensures
            i == n,
            registry_url_of(lines_of(content@)) == registry_url_of(dv.skip(i as int)),
        decreases n - i,
    {
        if i == n {
            break;
        }
        proof {
            assert(dv.skip(i as int)[0] == dv[i as int]);
            assert(dv.skip(i as int).drop_first() =~= dv.skip(i as int + 1));
            assert(dv[i as int] == ls@[i as int]@);
        }
        let t = trim(ls[i].as_str());
        match strip_prefix_of(t, "registry=") {
            Some(u) => {
                return Some(String::from_str(u));
            },
            None => {},
        }
        i += 1;
    }
    proof {
        assert(dv.skip(n as int) =~= Seq::<Seq<char>>::empty());
    }
    None
}

/// The text of a registry assignment line for `url`.
pub fn registry_line_text(url: &str) -> (r: String)
    ensures
        r@ == registry_line(url@),
{
    let mut s = String::from_str("registry=");
    s.append(url);
    s
}

/// A configuration text with its registry lines removed: `None` when no line
/// remains, so the caller may delete the file instead of writing an empty
/// one.
pub fn strip_registry_lines(content: &str) -> (r: Option<String>)
    ensures
        match r {
            Some(out) => keep_lines(lines_of(content@)).len() > 0 && out@ == join_nl(
                keep_lines(lines_of(content@)),
            ),
            None => keep_lines(lines_of(content@)).len() == 0,
        },
{
    let ls = split_lines(content);
    let kept = keep_lines_exec(&ls);
    if kept.len() == 0 {
        None
    } else {
        Some(join_lines(&kept))
    }
}

impl Config {
    /// The rewritten configuration text selecting the current registry:
    /// `None` while no registry is selected (nothing is written), else the
    /// old text with registry lines dropped and one fresh `registry=<url>`
    /// line appended. `existing` is the file's current text, if the file
    /// exists.
    pub fn update_npmrc(&self, existing: Option<&String>) -> (r: Option<String>)
        requires
            wf(self@),
        ensures
            match r {
                Some(out) => {
                    &&& npmrc_update(
                        self@,
                        match existing {
                            Some(s) => Some(s@),
                            None => None,
                        },
                    ) == Some(out@)
                    &&& self@.current is Some
                },
                None => self@.current is None,
            },
    {
        let cur = match &self.current {
            None => {
                return None;
            },
            Some(c) => c.clone(),
        };
        let url = match self.registry_url(cur.as_str()) {
            Some(u) => u,
            None => {
                proof {
                    assert(false);
                }
                return None;
            },
        };
        let ls = match existing {
            Some(s) => split_lines(s.as_str()),
            None => Vec::new(),
        };
        proof {
            if existing is None {
                assert(ls.deep_view() =~= Seq::<Seq<char>>::empty());
            }
        }
        let mut kept = keep_lines_exec(&ls);
        let ghost kept0 = kept.deep_view();
        kept.push(registry_line_text(url.as_str()));
        proof {
            assert(kept.deep_view() =~= kept0.push(registry_line(url@)));
        }
        Some(join_lines(&kept))
    }
}

} // verus!
