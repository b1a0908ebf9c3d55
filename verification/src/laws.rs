//! Properties that tie several operations together, each proved once and
//! for all: adding then selecting a registry puts exactly its URL into the
//! configuration text, removing the selected registry clears the selection,
//! and rewriting the configuration text keeps every non-registry line
//! verbatim and in order.

use vstd::prelude::*;

use crate::lines::lemma_lines_of_join;
use crate::lines::lemma_split_no_nl;
use crate::lines::lines_of;
use crate::npmrc::is_registry_line;
use crate::npmrc::keep_lines;
use crate::npmrc::lemma_keep_lines_all;
use crate::npmrc::lemma_keep_lines_idempotent;
use crate::npmrc::line_url;
use crate::npmrc::registry_line;
use crate::npmrc::registry_url_of;
use crate::npmrc::set_content;
use crate::profile::add_result;
use crate::profile::has_key;
use crate::profile::has_url;
use crate::profile::map_set;
use crate::profile::map_val;
use crate::profile::remove_result;
use crate::profile::resolve;
use crate::profile::valid_url;
use crate::profile::wf;
use crate::profile::with_current;
use crate::profile::ProfileView;
use crate::profile::RegMap;
use crate::text::has_prefix;
use crate::text::is_space;
use crate::text::trim_back;
use crate::text::trim_front;
use crate::text::trim_spec;

verus! {

/// Setting an existing key's value makes lookups of that key return it.
pub proof fn lemma_map_val_set(m: RegMap, k: Seq<char>, v: Seq<char>)
    requires
        has_key(m, k),
    ensures
        map_val(map_set(m, k, v), k) == v,
    decreases m.len(),
{
    let ms = map_set(m, k, v);
    if m[0].0 == k {
        assert(ms[0] == (k, v));
    } else {
        assert(ms[0] == m[0]);
        assert(has_key(m.drop_first(), k)) by {
            let i = choose|i: int| 0 <= i < m.len() && (#[trigger] m[i]).0 == k;
            assert(m.drop_first()[i - 1] == m[i]);
        }
        lemma_map_val_set(m.drop_first(), k, v);
        assert(ms.drop_first() =~= map_set(m.drop_first(), k, v));
        assert(map_val(ms, k) == map_val(ms.drop_first(), k));
    }
}

/// Setting a key's value does not change which keys exist.
pub proof fn lemma_map_set_keys(m: RegMap, k: Seq<char>, v: Seq<char>, k2: Seq<char>)
    ensures
        has_key(map_set(m, k, v), k2) == has_key(m, k2),
{
    let ms = map_set(m, k, v);
    if has_key(m, k2) {
        let i = choose|i: int| 0 <= i < m.len() && (#[trigger] m[i]).0 == k2;
        assert(ms[i].0 == k2);
    }
    if has_key(ms, k2) {
        let i = choose|i: int| 0 <= i < ms.len() && (#[trigger] ms[i]).0 == k2;
        assert(m[i].0 == k2);
    }
}

/// After a successful `add` of a fresh URL, the name resolves to that URL.
pub proof fn lemma_add_resolves(p: ProfileView, name: Seq<char>, url: Seq<char>)
    requires
        wf(p),
        !has_url(p.builtin, url),
        !has_url(p.custom, url),
    ensures
        resolve(add_result(p, name, url), name) == Some(url),
{
    let q = add_result(p, name, url);
    if has_key(p.builtin, name) {
        lemma_map_set_keys(p.builtin, name, url, name);
        lemma_map_val_set(p.builtin, name, url);
    } else if has_key(p.custom, name) {
        assert(q.builtin == p.builtin);
        lemma_map_set_keys(p.custom, name, url, name);
        lemma_map_val_set(p.custom, name, url);
    } else {
        assert(q.custom == p.custom.push((name, url)));
        assert(q.custom[q.custom.len() - 1].0 == name);
        assert(has_key(q.custom, name));
        crate::profile::lemma_map_val_at(q.custom, name, q.custom.len() - 1);
    }
}

/// Selecting a name does not change what any name resolves to.
pub proof fn lemma_with_current_resolve(p: ProfileView, name: Seq<char>, k: Seq<char>)
    ensures
        resolve(with_current(p, name), k) == resolve(p, k),
{
}

/// A registry assignment line for a URL with no surrounding whitespace is
/// recognized as one, and assigns exactly that URL.
pub proof fn lemma_registry_line_shape(url: Seq<char>)
    requires
        url.len() > 0,
        !is_space(url[0]),
        trim_back(url) == url,
    ensures
        is_registry_line(registry_line(url)),
        line_url(registry_line(url)) == url,
{
    reveal_strlit("registry=");
    let l = registry_line(url);
    assert(l.len() == 9 + url.len());
    assert(l[0] == 'r');
    assert(!is_space(l[0]));
    assert(trim_front(l) == l);
    assert(l.last() == url.last());
    assert(trim_back(url) == url);
    assert(!is_space(url.last())) by {
        if is_space(url.last()) {
            assert(trim_back(url) == trim_back(url.drop_last()));
            lemma_trim_back_shorter(url.drop_last());
            assert(trim_back(url).len() <= url.len() - 1);
        }
    }
    assert(!is_space(l.last()));
    assert(trim_back(l) == l);
    assert(trim_spec(l) == l);
    assert(l.subrange(0, 9) =~= "registry="@);
    assert(has_prefix(l, "registry="@));
    assert(l.skip(9) =~= url);
}

/// Trimming the back never lengthens a text.
pub proof fn lemma_trim_back_shorter(s: Seq<char>)
    ensures
        trim_back(s).len() <= s.len(),
    decreases s.len(),
{
    if s.len() > 0 && is_space(s.last()) {
        lemma_trim_back_shorter(s.drop_last());
    }
}

/// Lines that are not registry lines do not affect which URL the text
/// assigns.
pub proof fn lemma_registry_url_after(pre: Seq<Seq<char>>, rest: Seq<Seq<char>>)
    requires
        forall|i: int| 0 <= i < pre.len() ==> !is_registry_line(#[trigger] pre[i]),
    ensures
        registry_url_of(pre + rest) == registry_url_of(rest),
    decreases pre.len(),
{
    if pre.len() == 0 {
        assert(pre + rest =~= rest);
    } else {
        let t = pre + rest;
        assert(t.len() > 0);
        assert(t[0] == pre[0]);
        assert(!is_registry_line(t[0]));
        assert(t.drop_first() =~= pre.drop_first() + rest);
        assert(forall|i: int|
            0 <= i < pre.drop_first().len() ==> !is_registry_line(
                #[trigger] pre.drop_first()[i],
            ));
        lemma_registry_url_after(pre.drop_first(), rest);
    }
}

/// The kept lines of a text's lines hold no newline.
pub proof fn lemma_keep_lines_no_nl(s: Seq<char>)
    ensures
        forall|i: int, j: int|
            0 <= i < keep_lines(lines_of(s)).len() && 0 <= j < keep_lines(lines_of(s))[i].len()
                ==> keep_lines(lines_of(s))[i][j] != '\n',
{
    let ls = lines_of(s);
    if s.len() == 0 {
        assert(keep_lines(ls).len() == 0) by {
            crate::npmrc::lemma_keep_lines_empty();
        }
    } else {
        if s.last() == '\n' {
            lemma_split_no_nl(s.drop_last());
        } else {
            lemma_split_no_nl(s);
        }
        lemma_keep_lines_member_no_nl(ls);
    }
}

/// Filtering keeps only lines of the original, so a newline-free line list
/// filters to a newline-free line list.
pub proof fn lemma_keep_lines_member_no_nl(ls: Seq<Seq<char>>)
    requires
        forall|i: int, j: int| 0 <= i < ls.len() && 0 <= j < ls[i].len() ==> ls[i][j] != '\n',
    ensures
        forall|i: int, j: int|
            0 <= i < keep_lines(ls).len() && 0 <= j < keep_lines(ls)[i].len() ==> keep_lines(
                ls,
            )[i][j] != '\n',
    decreases ls.len(),
{
    reveal(Seq::filter);
    if ls.len() > 0 {
        assert(forall|i: int, j: int|
            0 <= i < ls.drop_last().len() && 0 <= j < ls.drop_last()[i].len()
                ==> ls.drop_last()[i][j] != '\n');
        lemma_keep_lines_member_no_nl(ls.drop_last());
        let f = keep_lines(ls);
        let g = keep_lines(ls.drop_last());
        if !is_registry_line(ls.last()) {
            assert(f == g.push(ls.last()));
        }
    }
}

/// The lines of the rewritten configuration text: every kept line, then the
/// fresh registry line.
pub proof fn lemma_set_content_lines(s: Seq<char>, url: Seq<char>)
    requires
        forall|j: int| 0 <= j < url.len() ==> url[j] != '\n',
    ensures
        lines_of(set_content(lines_of(s), url)) == keep_lines(lines_of(s)).push(
            registry_line(url),
        ),
{
    reveal_strlit("registry=");
    let kept = keep_lines(lines_of(s));
    let all = kept.push(registry_line(url));
    lemma_keep_lines_no_nl(s);
    assert(forall|i: int, j: int|
        0 <= i < all.len() && 0 <= j < all[i].len() ==> all[i][j] != '\n') by {
        assert(registry_line(url).len() == 9 + url.len());
        assert(forall|j: int|
            0 <= j < registry_line(url).len() ==> registry_line(url)[j] != '\n');
    }
    lemma_lines_of_join(all);
}

/// Rewriting the registry line preserves every non-registry line verbatim,
/// in its original order.
pub proof fn lemma_rewrite_preserves_lines(s: Seq<char>, url: Seq<char>)
    requires
        forall|j: int| 0 <= j < url.len() ==> url[j] != '\n',
    ensures
        keep_lines(lines_of(set_content(lines_of(s), url))) == keep_lines(lines_of(s)),
{
    lemma_set_content_lines(s, url);
    let kept = keep_lines(lines_of(s));
    let reg = registry_line(url);
    lemma_registry_line_recognized(url);
    lemma_keep_lines_idempotent(lines_of(s));
    reveal(Seq::filter);
    assert(kept.push(reg).drop_last() =~= kept);
    assert(keep_lines(kept.push(reg)) == keep_lines(kept));
}

/// A registry line is recognized as one whatever its URL holds: trimming
/// cannot eat into the `registry=` prefix.
pub proof fn lemma_registry_line_recognized(url: Seq<char>)
    ensures
        is_registry_line(registry_line(url)),
{
    reveal_strlit("registry=");
    let l = registry_line(url);
    assert(l[0] == 'r');
    assert(!is_space(l[0]));
    assert(trim_front(l) == l);
    lemma_trim_back_registry(l);
    let t = trim_spec(l);
    assert(t.subrange(0, 9) =~= "registry="@) by {
        lemma_trim_back_prefix_keeps(l, 9);
        assert(forall|j: int| 0 <= j < 9 ==> t[j] == l[j]);
        assert(forall|j: int| 0 <= j < 9 ==> l[j] == "registry="@[j]);
    }
    assert(has_prefix(t, "registry="@));
}

/// Trimming the back keeps any prefix that ends at or before a non-space
/// character.
pub proof fn lemma_trim_back_registry(l: Seq<char>)
    requires
        l.len() >= 9,
        !is_space(l[8]),
    ensures
        trim_back(l).len() >= 9,
        trim_back(l) == l.take(trim_back(l).len() as int),
    decreases l.len(),
{
    if is_space(l.last()) {
        if l.len() > 9 {
            lemma_trim_back_registry(l.drop_last());
            lemma_trim_back_shorter(l.drop_last());
            assert(l.drop_last() =~= l.take(l.len() - 1));
            assert(trim_back(l) == trim_back(l.drop_last()));
            assert(trim_back(l).len() <= l.len() - 1);
            assert(l.drop_last().take(trim_back(l).len() as int) =~= l.take(
                trim_back(l).len() as int,
            ));
        } else {
            assert(l.last() == l[8]);
        }
    } else {
        assert(trim_back(l) == l);
        assert(l.take(l.len() as int) =~= l);
    }
}

/// A trimmed-back prefix below the kept length matches the original.
pub proof fn lemma_trim_back_prefix_keeps(l: Seq<char>, n: int)
    requires
        l.len() >= 9,
        !is_space(l[8]),
        0 <= n <= 9,
    ensures
        forall|j: int| 0 <= j < n ==> trim_back(l)[j] == l[j],
{
    lemma_trim_back_registry(l);
    lemma_trim_back_shorter(l);
    assert forall|j: int| 0 <= j < n implies trim_back(l)[j] == l[j] by {
        assert(trim_back(l).len() <= l.len());
        assert(trim_back(l)[j] == l.take(trim_back(l).len() as int)[j]);
        assert(l.take(trim_back(l).len() as int)[j] == l[j]);
    }
}

/// Adding a registry and selecting it, then rewriting the configuration
/// text, puts exactly that URL on the text's registry line.
pub proof fn lemma_add_use_read(
    p: ProfileView,
    name: Seq<char>,
    url: Seq<char>,
    content: Seq<char>,
)
    requires
        wf(p),
        valid_url(url),
        !has_url(p.builtin, url),
        !has_url(p.custom, url),
        forall|j: int| 0 <= j < url.len() ==> url[j] != '\n',
        trim_back(url) == url,
    ensures
        ({
            let selected = with_current(add_result(p, name, url), name);
            let rewritten = set_content(lines_of(content), resolve(selected, name).unwrap());
            registry_url_of(lines_of(rewritten)) == Some(url)
        }),
{
    reveal_strlit("registry=");
    reveal_strlit("http://");
    reveal_strlit("https://");
    lemma_add_resolves(p, name, url);
    lemma_with_current_resolve(add_result(p, name, url), name, name);
    let selected = with_current(add_result(p, name, url), name);
    assert(resolve(selected, name) == Some(url));
    lemma_set_content_lines(content, url);
    let kept = keep_lines(lines_of(content));
    lemma_keep_lines_all(lines_of(content));
    assert(url[0] == 'h') by {
        if has_prefix(url, "http://"@) {
            assert(url.subrange(0, "http://"@.len() as int)[0] == url[0]);
        } else {
            assert(url.subrange(0, "https://"@.len() as int)[0] == url[0]);
        }
    }
    assert(!is_space(url[0]));
    assert(url.len() > 0);
    lemma_registry_line_shape(url);
    assert(kept.push(registry_line(url)) =~= kept + seq![registry_line(url)]);
    lemma_registry_url_after(kept, seq![registry_line(url)]);
    assert(registry_url_of(seq![registry_line(url)]) == Some(url)) by {
        assert(seq![registry_line(url)][0] == registry_line(url));
    }
}

/// A saved profile loads back equal in both maps, order and selection: its
/// text parses to the very same record, its shape passes the load-time
/// checks, and loading normalizes nothing away.
pub proof fn lemma_save_load_roundtrip(pv: ProfileView)
    requires
        wf(pv),
    ensures
        crate::codec::p_profile(crate::codec::ser_profile(pv)) == Some(pv),
        crate::reconcile::stored_ok(pv),
        crate::reconcile::fix_current(pv) == pv,
{
    crate::codec::lemma_profile_roundtrip(pv);
    if let Some(c) = pv.current {
        assert(has_key(pv.builtin, c) || has_key(pv.custom, c));
    }
}

/// Removing the currently selected registry clears the selection, so a
/// later query reports that nothing is selected.
pub proof fn lemma_remove_clears_current(p: ProfileView, name: Seq<char>)
    requires
        wf(p),
        p.current == Some(name),
    ensures
        remove_result(p, name).current is None,
{
}

} // verus!
