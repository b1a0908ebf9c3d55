//! The persisted profile format: a JSON object with the two registry maps,
//! the order list, and the current selection. The writer emits a canonical
//! form (no optional whitespace; `"` and `\` escaped with a backslash, other
//! characters verbatim), and the reader accepts exactly that form, so that
//! saving and loading invert each other for every profile.

use vstd::prelude::*;

use crate::error::NrsError;
use crate::profile::Config;
use crate::profile::ProfileView;
use crate::profile::RegMap;
use crate::text::has_prefix;
use crate::text::str_has_prefix;
use crate::text::strip_prefix_of;
use vstd::string::StrSliceExecFns;
use vstd::string::StringExecFns;

verus! {

/// How one character is written inside a quoted string.
pub open spec fn esc_char(c: char) -> Seq<char> {
    if c == '"' || c == '\\' {
        seq!['\\', c]
    } else {
        seq![c]
    }
}

/// How a string's characters are written inside its quotes.
pub open spec fn escape(s: Seq<char>) -> Seq<char>
    decreases s.len(),
{
    if s.len() == 0 {
        Seq::<char>::empty()
    } else {
        esc_char(s[0]) + escape(s.drop_first())
    }
}

/// A quoted string.
pub open spec fn ser_str(s: Seq<char>) -> Seq<char> {
    seq!['"'] + escape(s) + seq!['"']
}

/// One `"name":"url"` member.
pub open spec fn ser_pair(p: (Seq<char>, Seq<char>)) -> Seq<char> {
    ser_str(p.0) + seq![':'] + ser_str(p.1)
}

/// The members of a map from entry `i` on, each after a comma except the
/// first.
pub open spec fn ser_entries(m: RegMap, i: int) -> Seq<char>
    decreases m.len() - i,
{
    if i < 0 || i >= m.len() {
        Seq::<char>::empty()
    } else {
        (if i > 0 {
            seq![',']
        } else {
            Seq::<char>::empty()
        }) + ser_pair(m[i]) + ser_entries(m, i + 1)
    }
}

/// The elements of the order list from entry `i` on.
pub open spec fn ser_names(o: Seq<Seq<char>>, i: int) -> Seq<char>
    decreases o.len() - i,
{
    if i < 0 || i >= o.len() {
        Seq::<char>::empty()
    } else {
        (if i > 0 {
            seq![',']
        } else {
            Seq::<char>::empty()
        }) + ser_str(o[i]) + ser_names(o, i + 1)
    }
}

/// The whole profile, in the canonical written form.
pub open spec fn ser_profile(p: ProfileView) -> Seq<char> {
    "{\"registries\":{"@ + ser_entries(p.builtin, 0) + "},\"custom_registries\":{"@ + ser_entries(
        p.custom,
        0,
    ) + "},\"registry_order\":["@ + ser_names(p.order, 0) + "],\"current\":"@ + (match p.current {
        None => "null"@,
        Some(c) => ser_str(c),
    }) + seq!['}']
}

/// Reading a quoted string's body: characters until the closing quote, with
/// `\"` and `\\` unescaped; a stray backslash escape is refused.
pub open spec fn p_strbody(s: Seq<char>) -> Option<(Seq<char>, Seq<char>)>
    decreases s.len(),
{
    if s.len() == 0 {
        None
    } else if s[0] == '"' {
        Some((Seq::<char>::empty(), s.skip(1)))
    } else if s[0] == '\\' {
        if s.len() >= 2 && (s[1] == '"' || s[1] == '\\') {
            match p_strbody(s.skip(2)) {
                Some((v, r)) => Some((seq![s[1]] + v, r)),
                None => None,
            }
        } else {
            None
        }
    } else {
        match p_strbody(s.skip(1)) {
            Some((v, r)) => Some((seq![s[0]] + v, r)),
            None => None,
        }
    }
}

/// Reading a quoted string, opening quote included.
pub open spec fn p_str(s: Seq<char>) -> Option<(Seq<char>, Seq<char>)> {
    if s.len() > 0 && s[0] == '"' {
        p_strbody(s.skip(1))
    } else {
        None
    }
}

/// Reading one `"name":"url"` member.
pub open spec fn p_pair(s: Seq<char>) -> Option<((Seq<char>, Seq<char>), Seq<char>)> {
    match p_str(s) {
        None => None,
        Some((k, r1)) => {
            if r1.len() > 0 && r1[0] == ':' {
                match p_str(r1.skip(1)) {
                    None => None,
                    Some((v, r2)) => Some(((k, v), r2)),
                }
            } else {
                None
            }
        },
    }
}

/// Reading a map's members up to and including the closing brace. `fuel`
/// bounds the number of members; each member consumes at least one
/// character, so any fuel beyond the input's length behaves alike.
pub open spec fn p_entries(s: Seq<char>, first: bool, fuel: nat) -> Option<(RegMap, Seq<char>)>
    decreases fuel,
{
    if s.len() > 0 && s[0] == '}' {
        Some((Seq::<(Seq<char>, Seq<char>)>::empty(), s.skip(1)))
    } else if fuel == 0 {
        None
    } else {
        let s1 = if first {
            Some(s)
        } else {
            if s.len() > 0 && s[0] == ',' {
                Some(s.skip(1))
            } else {
                None
            }
        };
        match s1 {
            None => None,
            Some(t) => match p_pair(t) {
                None => None,
                Some((e, r)) => match p_entries(r, false, (fuel - 1) as nat) {
                    None => None,
                    Some((m, r2)) => Some((seq![e] + m, r2)),
                },
            },
        }
    }
}

/// Reading the order list's elements up to and including the closing
/// bracket.
pub open spec fn p_names(s: Seq<char>, first: bool, fuel: nat) -> Option<(Seq<Seq<char>>, Seq<char>)>
    decreases fuel,
{
    if s.len() > 0 && s[0] == ']' {
        Some((Seq::<Seq<char>>::empty(), s.skip(1)))
    } else if fuel == 0 {
        None
    } else {
        let s1 = if first {
            Some(s)
        } else {
            if s.len() > 0 && s[0] == ',' {
                Some(s.skip(1))
            } else {
                None
            }
        };
        match s1 {
            None => None,
            Some(t) => match p_str(t) {
                None => None,
                Some((e, r)) => match p_names(r, false, (fuel - 1) as nat) {
                    None => None,
                    Some((o, r2)) => Some((seq![e] + o, r2)),
                },
            },
        }
    }
}

/// Reading a whole profile: the canonical form of [`ser_profile`], refusing
/// anything else.
pub open spec fn p_profile(s: Seq<char>) -> Option<ProfileView> {
    if !has_prefix(s, "{\"registries\":{"@) {
        None
    } else {
        let s1 = s.skip("{\"registries\":{"@.len() as int);
        match p_entries(s1, true, s1.len() + 1) {
            None => None,
            Some((b, r1)) => {
                if !has_prefix(r1, ",\"custom_registries\":{"@) {
                    None
                } else {
                    let s2 = r1.skip(",\"custom_registries\":{"@.len() as int);
                    match p_entries(s2, true, s2.len() + 1) {
                        None => None,
                        Some((c, r2)) => {
                            if !has_prefix(r2, ",\"registry_order\":["@) {
                                None
                            } else {
                                let s3 = r2.skip(",\"registry_order\":["@.len() as int);
                                match p_names(s3, true, s3.len() + 1) {
                                    None => None,
                                    Some((o, r3)) => {
                                        if !has_prefix(r3, ",\"current\":"@) {
                                            None
                                        } else {
                                            let s4 = r3.skip(",\"current\":"@.len() as int);
                                            p_current(s4, b, c, o)
                                        }
                                    },
                                }
                            }
                        },
                    }
                }
            },
        }
    }
}

/// Reading the `current` member and the closing brace.
pub open spec fn p_current(s: Seq<char>, b: RegMap, c: RegMap, o: Seq<Seq<char>>) -> Option<
    ProfileView,
> {
    if has_prefix(s, "null"@) {
        let r = s.skip(4);
        if r.len() == 1 && r[0] == '}' {
            Some(ProfileView { builtin: b, custom: c, order: o, current: None })
        } else {
            None
        }
    } else {
        match p_str(s) {
            None => None,
            Some((cur, r)) => {
                if r.len() == 1 && r[0] == '}' {
                    Some(ProfileView { builtin: b, custom: c, order: o, current: Some(cur) })
                } else {
                    None
                }
            },
        }
    }
}

/// A string's escaped form, a closing quote and anything after parse back to
/// exactly that string and that remainder.
pub proof fn lemma_strbody_roundtrip(s: Seq<char>, rest: Seq<char>)
    ensures
        p_strbody(escape(s) + seq!['"'] + rest) == Some((s, rest)),
    decreases s.len(),
{
    let input = escape(s) + seq!['"'] + rest;
    if s.len() == 0 {
        assert(escape(s) =~= Seq::<char>::empty());
        assert(input[0] == '"');
        assert(input.skip(1) =~= rest);
    } else {
        let c = s[0];
        let tail = escape(s.drop_first()) + seq!['"'] + rest;
        assert(input =~= esc_char(c) + tail);
        lemma_strbody_roundtrip(s.drop_first(), rest);
        if c == '"' || c == '\\' {
            assert(esc_char(c) == seq!['\\', c]);
            assert(input[0] == '\\');
            assert(input.len() >= 2);
            assert(input[1] == c);
            assert(input.skip(2) =~= tail);
            assert(seq![c] + s.drop_first() =~= s);
        } else {
            assert(esc_char(c) == seq![c]);
            assert(input[0] == c);
            assert(input.skip(1) =~= tail);
            assert(seq![c] + s.drop_first() =~= s);
        }
    }
}

/// A serialized string and anything after parse back to that string.
pub proof fn lemma_str_roundtrip(s: Seq<char>, rest: Seq<char>)
    ensures
        p_str(ser_str(s) + rest) == Some((s, rest)),
{
    let input = ser_str(s) + rest;
    assert(input[0] == '"');
    assert(input.skip(1) =~= escape(s) + seq!['"'] + rest);
    lemma_strbody_roundtrip(s, rest);
}

/// A serialized member and anything after parse back to that member.
pub proof fn lemma_pair_roundtrip(e: (Seq<char>, Seq<char>), rest: Seq<char>)
    ensures
        p_pair(ser_pair(e) + rest) == Some((e, rest)),
{
    let input = ser_pair(e) + rest;
    let mid = seq![':'] + ser_str(e.1) + rest;
    assert(input =~= ser_str(e.0) + mid);
    lemma_str_roundtrip(e.0, mid);
    assert(mid[0] == ':');
    assert(mid.skip(1) =~= ser_str(e.1) + rest);
    lemma_str_roundtrip(e.1, rest);
}

/// Serialized members take at least one character each.
pub proof fn lemma_ser_entries_len(m: RegMap, i: int)
    requires
        0 <= i <= m.len(),
    ensures
        ser_entries(m, i).len() >= m.len() - i,
    decreases m.len() - i,
{
    if 0 <= i < m.len() {
        lemma_ser_entries_len(m, i + 1);
    }
}

/// Serialized list elements take at least one character each.
pub proof fn lemma_ser_names_len(o: Seq<Seq<char>>, i: int)
    requires
        0 <= i <= o.len(),
    ensures
        ser_names(o, i).len() >= o.len() - i,
    decreases o.len() - i,
{
    if 0 <= i < o.len() {
        lemma_ser_names_len(o, i + 1);
    }
}

/// The serialized members of a map from entry `i` on, a closing brace and
/// anything after parse back to exactly those members.
pub proof fn lemma_entries_roundtrip(m: RegMap, i: int, rest: Seq<char>, fuel: nat)
    requires
        0 <= i <= m.len(),
        fuel >= m.len() - i + 1,
    ensures
        p_entries(ser_entries(m, i) + seq!['}'] + rest, i == 0, fuel) == Some((m.skip(i), rest)),
    decreases m.len() - i,
{
    let input = ser_entries(m, i) + seq!['}'] + rest;
    if i == m.len() {
        assert(ser_entries(m, i) =~= Seq::<char>::empty());
        assert(input[0] == '}');
        assert(input.skip(1) =~= rest);
        assert(m.skip(i) =~= Seq::<(Seq<char>, Seq<char>)>::empty());
    } else {
        let after = ser_entries(m, i + 1) + seq!['}'] + rest;
        let body = ser_pair(m[i]) + after;
        assert(ser_str(m[i].0)[0] == '"');
        assert(ser_pair(m[i])[0] == '"');
        assert(body[0] == '"');
        lemma_pair_roundtrip(m[i], after);
        lemma_entries_roundtrip(m, i + 1, rest, (fuel - 1) as nat);
        if i == 0 {
            assert(input =~= body);
            assert(input[0] == '"');
            assert(input[0] != '}');
        } else {
            assert(input =~= seq![','] + body);
            assert(input[0] == ',');
            assert(input[0] != '}');
            assert(input.skip(1) =~= body);
        }
        assert(seq![m[i]] + m.skip(i + 1) =~= m.skip(i));
    }
}

/// The serialized elements of the order list from entry `i` on, a closing
/// bracket and anything after parse back to exactly those elements.
pub proof fn lemma_names_roundtrip(o: Seq<Seq<char>>, i: int, rest: Seq<char>, fuel: nat)
    requires
        0 <= i <= o.len(),
        fuel >= o.len() - i + 1,
    ensures
        p_names(ser_names(o, i) + seq![']'] + rest, i == 0, fuel) == Some((o.skip(i), rest)),
    decreases o.len() - i,
{
    let input = ser_names(o, i) + seq![']'] + rest;
    if i == o.len() {
        assert(ser_names(o, i) =~= Seq::<char>::empty());
        assert(input[0] == ']');
        assert(input.skip(1) =~= rest);
        assert(o.skip(i) =~= Seq::<Seq<char>>::empty());
    } else {
        let after = ser_names(o, i + 1) + seq![']'] + rest;
        let body = ser_str(o[i]) + after;
        assert(ser_str(o[i])[0] == '"');
        assert(body[0] == '"');
        lemma_str_roundtrip(o[i], after);
        lemma_names_roundtrip(o, i + 1, rest, (fuel - 1) as nat);
        if i == 0 {
            assert(input =~= body);
            assert(input[0] != ']');
        } else {
            assert(input =~= seq![','] + body);
            assert(input[0] == ',');
            assert(input[0] != ']');
            assert(input.skip(1) =~= body);
        }
        assert(seq![o[i]] + o.skip(i + 1) =~= o.skip(i));
    }
}

/// Saving a profile and loading the text back yields that very profile.
#[verifier::rlimit(100)]
pub proof fn lemma_profile_roundtrip(pv: ProfileView)
    ensures
        p_profile(ser_profile(pv)) == Some(pv),
{
    reveal_strlit("{\"registries\":{");
    reveal_strlit("},\"custom_registries\":{");
    reveal_strlit(",\"custom_registries\":{");
    reveal_strlit("},\"registry_order\":[");
    reveal_strlit(",\"registry_order\":[");
    reveal_strlit("],\"current\":");
    reveal_strlit(",\"current\":");
    reveal_strlit("null");
    let h1 = "{\"registries\":{"@;
    let h2 = ",\"custom_registries\":{"@;
    let h3 = ",\"registry_order\":["@;
    let h4 = ",\"current\":"@;
    let cur = match pv.current {
        None => "null"@,
        Some(c) => ser_str(c),
    };
    let input = ser_profile(pv);
    let tail2 = h2 + ser_entries(pv.custom, 0) + seq!['}'] + h3 + ser_names(pv.order, 0) + seq![
        ']',
    ] + h4 + cur + seq!['}'];
    let tail3 = h3 + ser_names(pv.order, 0) + seq![']'] + h4 + cur + seq!['}'];
    let tail4 = h4 + cur + seq!['}'];
    assert("},\"custom_registries\":{"@ =~= seq!['}'] + h2);
    assert("},\"registry_order\":["@ =~= seq!['}'] + h3);
    assert("],\"current\":"@ =~= seq![']'] + h4);
    assert(input =~= h1 + (ser_entries(pv.builtin, 0) + seq!['}'] + tail2));
    assert(has_prefix(input, h1)) by {
        assert(input.subrange(0, h1.len() as int) =~= h1);
    }
    let s1 = input.skip(h1.len() as int);
    assert(s1 =~= ser_entries(pv.builtin, 0) + seq!['}'] + tail2);
    lemma_ser_entries_len(pv.builtin, 0);
    lemma_entries_roundtrip(pv.builtin, 0, tail2, s1.len() + 1);
    assert(pv.builtin.skip(0) =~= pv.builtin);
    let r1 = tail2;
    assert(has_prefix(r1, h2)) by {
        assert(r1.subrange(0, h2.len() as int) =~= h2);
    }
    let s2 = r1.skip(h2.len() as int);
    assert(s2 =~= ser_entries(pv.custom, 0) + seq!['}'] + tail3);
    lemma_ser_entries_len(pv.custom, 0);
    lemma_entries_roundtrip(pv.custom, 0, tail3, s2.len() + 1);
    assert(pv.custom.skip(0) =~= pv.custom);
    let r2 = tail3;
    assert(has_prefix(r2, h3)) by {
        assert(r2.subrange(0, h3.len() as int) =~= h3);
    }
    let s3 = r2.skip(h3.len() as int);
    assert(s3 =~= ser_names(pv.order, 0) + seq![']'] + tail4);
    lemma_ser_names_len(pv.order, 0);
    lemma_names_roundtrip(pv.order, 0, tail4, s3.len() + 1);
    assert(pv.order.skip(0) =~= pv.order);
    let r3 = tail4;
    assert(has_prefix(r3, h4)) by {
        assert(r3.subrange(0, h4.len() as int) =~= h4);
    }
    let s4 = r3.skip(h4.len() as int);
    assert(s4 =~= cur + seq!['}']);
    match pv.current {
        None => {
            assert(has_prefix(s4, "null"@)) by {
                assert(s4.subrange(0, 4) =~= "null"@);
            }
            assert(s4.skip(4) =~= seq!['}']);
            assert(p_current(s4, pv.builtin, pv.custom, pv.order) == Some(
                ProfileView {
                    builtin: pv.builtin,
                    custom: pv.custom,
                    order: pv.order,
                    current: None,
                },
            ));
            assert(p_profile(input) == Some(pv)) by {
                assert(ProfileView {
                    builtin: pv.builtin,
                    custom: pv.custom,
                    order: pv.order,
                    current: None,
                } =~= pv);
            }
        },
        Some(c) => {
            assert(s4[0] == '"');
            assert(!has_prefix(s4, "null"@)) by {
                assert("null"@[0] == 'n');
                if has_prefix(s4, "null"@) {
                    assert(s4.subrange(0, 4)[0] == s4[0]);
                }
            }
            assert(s4 =~= ser_str(c) + seq!['}']);
            lemma_str_roundtrip(c, seq!['}']);
            assert(p_current(s4, pv.builtin, pv.custom, pv.order) == Some(
                ProfileView {
                    builtin: pv.builtin,
                    custom: pv.custom,
                    order: pv.order,
                    current: Some(c),
                },
            ));
            assert(p_profile(input) == Some(pv)) by {
                assert(ProfileView {
                    builtin: pv.builtin,
                    custom: pv.custom,
                    order: pv.order,
                    current: Some(c),
                } =~= pv);
            }
        },
    }
}

/// Escaping one more character extends the escaped text at its end.
pub proof fn lemma_escape_snoc(t: Seq<char>, c: char)
    ensures
        escape(t.push(c)) == escape(t) + esc_char(c),
    decreases t.len(),
{
    if t.len() == 0 {
        assert(t.push(c) =~= seq![c]);
        assert(t.push(c).drop_first() =~= Seq::<char>::empty());
        assert(escape(t.push(c)) == esc_char(t.push(c)[0]) + escape(t.push(c).drop_first()));
        assert(t.push(c)[0] == c);
        assert(escape(Seq::<char>::empty()) =~= Seq::<char>::empty());
        assert(esc_char(c) + Seq::<char>::empty() =~= esc_char(c));
        assert(escape(t) + esc_char(c) =~= esc_char(c));
    } else {
        assert(t.push(c)[0] == t[0]);
        assert(t.push(c).drop_first() =~= t.drop_first().push(c));
        lemma_escape_snoc(t.drop_first(), c);
        assert(escape(t.push(c)) =~= escape(t) + esc_char(c));
    }
}

/// Append the escaped form of `s` to `out`.
fn escape_into(out: &mut String, s: &str)
    ensures
        final(out)@ == old(out)@ + escape(s@),
{
    let len = s.unicode_len();
    let mut j: usize = 0;
    proof {
        assert(s@.take(0) =~= Seq::<char>::empty());
        assert(old(out)@ + escape(s@.take(0)) =~= old(out)@);
    }
    loop
        invariant
            len == s@.len(),
            j <= len,
            out@ == old(out)@ + escape(s@.take(j as int)),
        ensures
            j == len,
            out@ == old(out)@ + escape(s@.take(j as int)),
        decreases len - j,
    {
        if j == len {
            break;
        }
        let c = s.get_char(j);
        let ghost before = out@;
        if c == '"' || c == '\\' {
            out.push('\\');
            out.push(c);
            proof {
                assert(out@ =~= before + seq!['\\', c]);
                assert(esc_char(c) == seq!['\\', c]);
            }
        } else {
            out.push(c);
            proof {
                assert(out@ =~= before + seq![c]);
                assert(esc_char(c) == seq![c]);
            }
        }
        proof {
            assert(s@.take(j as int + 1) =~= s@.take(j as int).push(s@[j as int]));
            lemma_escape_snoc(s@.take(j as int), s@[j as int]);
            assert(out@ =~= old(out)@ + escape(s@.take(j as int + 1)));
        }
        j += 1;
    }
    proof {
        assert(s@.take(len as int) =~= s@);
    }
}

/// Append the quoted form of `s` to `out`.
fn ser_str_into(out: &mut String, s: &str)
    ensures
        final(out)@ == old(out)@ + ser_str(s@),
{
    out.push('"');
    escape_into(out, s);
    out.push('"');
    proof {
        assert(out@ =~= old(out)@ + ser_str(s@));
    }
}

/// Append a map's members to `out`.
fn ser_entries_into(out: &mut String, m: &Vec<(String, String)>)
    ensures
        final(out)@ == old(out)@ + ser_entries(m.deep_view(), 0),
{
    let n = m.len();
    let mut i: usize = 0;
    proof {
        assert(out@ + ser_entries(m.deep_view(), 0) =~= old(out)@ + ser_entries(m.deep_view(), 0));
    }
    loop
        invariant
            n == m@.len(),
            m.deep_view().len() == n,
            i <= n,
            out@ + ser_entries(m.deep_view(), i as int) == old(out)@ + ser_entries(
                m.deep_view(),
                0,
            ),
        ensures
            i == n,
            out@ + ser_entries(m.deep_view(), i as int) == old(out)@ + ser_entries(
                m.deep_view(),
                0,
            ),
        decreases n - i,
    {
        if i == n {
            break;
        }
        let ghost dv = m.deep_view();
        let ghost before = out@;
        if i > 0 {
            out.push(',');
        }
        ser_str_into(out, m[i].0.as_str());
        out.push(':');
        ser_str_into(out, m[i].1.as_str());
        proof {
            assert(dv[i as int].0 == m@[i as int].0@);
            assert(dv[i as int].1 == m@[i as int].1@);
            assert(ser_pair(dv[i as int]) == ser_str(dv[i as int].0) + seq![':'] + ser_str(
                dv[i as int].1,
            ));
            if i > 0 {
                assert(out@ =~= before + (seq![','] + ser_pair(dv[i as int])));
                assert(ser_entries(dv, i as int) == seq![','] + ser_pair(dv[i as int])
                    + ser_entries(dv, i as int + 1));
                assert(before + ser_entries(dv, i as int) =~= out@ + ser_entries(
                    dv,
                    i as int + 1,
                ));
            } else {
                assert(out@ =~= before + (Seq::<char>::empty() + ser_pair(dv[i as int])));
                assert(ser_entries(dv, i as int) == Seq::<char>::empty() + ser_pair(dv[i as int])
                    + ser_entries(dv, i as int + 1));
                assert(before + ser_entries(dv, i as int) =~= out@ + ser_entries(
                    dv,
                    i as int + 1,
                ));
            }
        }
        i += 1;
    }
    proof {
        assert(ser_entries(m.deep_view(), n as int) =~= Seq::<char>::empty());
        assert(out@ + Seq::<char>::empty() =~= out@);
    }
}

/// Append the order list's elements to `out`.
fn ser_names_into(out: &mut String, o: &Vec<String>)
    ensures
        final(out)@ == old(out)@ + ser_names(o.deep_view(), 0),
{
    let n = o.len();
    let mut i: usize = 0;
    loop
        invariant
            n == o@.len(),
            o.deep_view().len() == n,
            i <= n,
            out@ + ser_names(o.deep_view(), i as int) == old(out)@ + ser_names(o.deep_view(), 0),
        ensures
            i == n,
            out@ + ser_names(o.deep_view(), i as int) == old(out)@ + ser_names(o.deep_view(), 0),
        decreases n - i,
    {
        if i == n {
            break;
        }
        let ghost dv = o.deep_view();
        let ghost before = out@;
        if i > 0 {
            out.push(',');
        }
        ser_str_into(out, o[i].as_str());
        proof {
            assert(dv[i as int] == o@[i as int]@);
            if i > 0 {
                assert(out@ =~= before + (seq![','] + ser_str(dv[i as int])));
                assert(ser_names(dv, i as int) == seq![','] + ser_str(dv[i as int]) + ser_names(
                    dv,
                    i as int + 1,
                ));
                assert(before + ser_names(dv, i as int) =~= out@ + ser_names(dv, i as int + 1));
            } else {
                assert(out@ =~= before + (Seq::<char>::empty() + ser_str(dv[i as int])));
                assert(ser_names(dv, i as int) == Seq::<char>::empty() + ser_str(dv[i as int])
                    + ser_names(dv, i as int + 1));
                assert(before + ser_names(dv, i as int) =~= out@ + ser_names(dv, i as int + 1));
            }
        }
        i += 1;
    }
    proof {
        assert(ser_names(o.deep_view(), n as int) =~= Seq::<char>::empty());
        assert(out@ + Seq::<char>::empty() =~= out@);
    }
}

impl Config {
    /// The profile's persisted text, in the canonical written form.
    pub fn save(&self) -> (r: String)
        ensures
            r@ == ser_profile(self@),
    {
        let mut out = String::from_str("{\"registries\":{");
        ser_entries_into(&mut out, &self.registries);
        out.append("},\"custom_registries\":{");
        ser_entries_into(&mut out, &self.custom_registries);
        out.append("},\"registry_order\":[");
        ser_names_into(&mut out, &self.registry_order);
        out.append("],\"current\":");
        match &self.current {
            None => {
                out.append("null");
            },
            Some(c) => {
                ser_str_into(&mut out, c.as_str());
                proof {
                    assert(c@ == self.current.deep_view().unwrap());
                }
            },
        }
        out.push('}');
        proof {
            assert(out@ =~= ser_profile(self@));
        }
        out
    }
}

/// Reading a quoted string's body from the front of `s`.
fn parse_strbody<'a>(s: &'a str) -> (r: Option<(String, &'a str)>)
    ensures
        match r {
            Some(p) => p_strbody(s@) == Some((p.0@, p.1@)),
            None => p_strbody(s@) is None,
        },
    decreases s@.len(),
{
    let len = s.unicode_len();
    if len == 0 {
        return None;
    }
    let c0 = s.get_char(0);
    if c0 == '"' {
        let rest = s.substring_char(1, len);
        proof {
            assert(rest@ =~= s@.skip(1));
        }
        return Some((String::new(), rest));
    }
    if c0 == '\\' {
        if len < 2 {
            return None;
        }
        let c1 = s.get_char(1);
        if c1 == '"' || c1 == '\\' {
            let inner = s.substring_char(2, len);
            proof {
                assert(inner@ =~= s@.skip(2));
            }
            match parse_strbody(inner) {
                Some((v, rest)) => {
                    let mut outs = String::new();
                    outs.push(c1);
                    outs.append(v.as_str());
                    proof {
                        assert(outs@ =~= seq![s@[1]] + v@);
                    }
                    return Some((outs, rest));
                },
                None => {
                    return None;
                },
            }
        } else {
            return None;
        }
    }
    let inner = s.substring_char(1, len);
    proof {
        assert(inner@ =~= s@.skip(1));
    }
    match parse_strbody(inner) {
        Some((v, rest)) => {
            let mut outs = String::new();
            outs.push(c0);
            outs.append(v.as_str());
            proof {
                assert(outs@ =~= seq![s@[0]] + v@);
            }
            Some((outs, rest))
        },
        None => None,
    }
}

/// Reading a quoted string from the front of `s`.
fn parse_str<'a>(s: &'a str) -> (r: Option<(String, &'a str)>)
    ensures
        match r {
            Some(p) => p_str(s@) == Some((p.0@, p.1@)),
            None => p_str(s@) is None,
        },
{
    let len = s.unicode_len();
    if len == 0 {
        return None;
    }
    if s.get_char(0) != '"' {
        return None;
    }
    let inner = s.substring_char(1, len);
    proof {
        assert(inner@ =~= s@.skip(1));
    }
    parse_strbody(inner)
}

/// Reading one `"name":"url"` member from the front of `s`.
fn parse_pair<'a>(s: &'a str) -> (r: Option<((String, String), &'a str)>)
    ensures
        match r {
            Some(p) => p_pair(s@) == Some(((p.0.0@, p.0.1@), p.1@)),
            None => p_pair(s@) is None,
        },
{
    match parse_str(s) {
        None => None,
        Some((k, r1)) => {
            let r1len = r1.unicode_len();
            if r1len == 0 {
                return None;
            }
            if r1.get_char(0) != ':' {
                return None;
            }
            let r1tail = r1.substring_char(1, r1len);
            proof {
                assert(r1tail@ =~= r1@.skip(1));
            }
            match parse_str(r1tail) {
                None => None,
                Some((v, r2)) => Some(((k, v), r2)),
            }
        },
    }
}

/// Reading a map's members and the closing brace from the front of `s`.
fn parse_entries<'a>(s: &'a str, first: bool, fuel: usize) -> (r: Option<(
    Vec<(String, String)>,
    &'a str,
)>)
    ensures
        match r {
            Some(p) => p_entries(s@, first, fuel as nat) == Some((p.0.deep_view(), p.1@)),
            None => p_entries(s@, first, fuel as nat) is None,
        },
    decreases fuel,
{
    let len = s.unicode_len();
    if len > 0 && s.get_char(0) == '}' {
        let rest = s.substring_char(1, len);
        let empty_map: Vec<(String, String)> = Vec::new();
        proof {
            assert(rest@ =~= s@.skip(1));
            assert(empty_map.deep_view() =~= Seq::<(Seq<char>, Seq<char>)>::empty());
        }
        return Some((empty_map, rest));
    }
    if fuel == 0 {
        return None;
    }
    let t: &str = if first {
        s
    } else {
        if len > 0 && s.get_char(0) == ',' {
            s.substring_char(1, len)
        } else {
            return None;
        }
    };
    proof {
        if !first {
            assert(t@ =~= s@.skip(1));
        }
    }
    match parse_pair(t) {
        None => None,
        Some((e, r)) => {
            match parse_entries(r, false, fuel - 1) {
                None => None,
                Some((m, r2)) => {
                    let mut out: Vec<(String, String)> = Vec::new();
                    let mut m2 = m;
                    out.push(e);
                    out.append(&mut m2);
                    proof {
                        assert(out.deep_view() =~= seq![(e.0@, e.1@)] + m.deep_view());
                    }
                    Some((out, r2))
                },
            }
        },
    }
}

/// Reading the order list's elements and the closing bracket from the front
/// of `s`.
fn parse_names<'a>(s: &'a str, first: bool, fuel: usize) -> (r: Option<(Vec<String>, &'a str)>)
    ensures
        match r {
            Some(p) => p_names(s@, first, fuel as nat) == Some((p.0.deep_view(), p.1@)),
            None => p_names(s@, first, fuel as nat) is None,
        },
    decreases fuel,
{
    let len = s.unicode_len();
    if len > 0 && s.get_char(0) == ']' {
        let rest = s.substring_char(1, len);
        let empty_list: Vec<String> = Vec::new();
        proof {
            assert(rest@ =~= s@.skip(1));
            assert(empty_list.deep_view() =~= Seq::<Seq<char>>::empty());
        }
        return Some((empty_list, rest));
    }
    if fuel == 0 {
        return None;
    }
    let t: &str = if first {
        s
    } else {
        if len > 0 && s.get_char(0) == ',' {
            s.substring_char(1, len)
        } else {
            return None;
        }
    };
    proof {
        if !first {
            assert(t@ =~= s@.skip(1));
        }
    }
    match parse_str(t) {
        None => None,
        Some((e, r)) => {
            match parse_names(r, false, fuel - 1) {
                None => None,
                Some((o, r2)) => {
                    let mut out: Vec<String> = Vec::new();
                    let mut o2 = o;
                    out.push(e);
                    out.append(&mut o2);
                    proof {
                        assert(out.deep_view() =~= seq![e@] + o.deep_view());
                    }
                    Some((out, r2))
                },
            }
        },
    }
}

/// Reading a whole persisted profile. Text in any other shape is refused as
/// a corrupt profile.
pub fn parse_profile(s: &str) -> (r: Result<Config, NrsError>)
    ensures
        match r {
            Ok(c) => p_profile(s@) == Some(c@),
            Err(e) => p_profile(s@) is None && e matches NrsError::CorruptProfile,
        },
{
    proof {
        reveal_strlit("{\"registries\":{");
        reveal_strlit(",\"custom_registries\":{");
        reveal_strlit(",\"registry_order\":[");
        reveal_strlit(",\"current\":");
        reveal_strlit("null");
        reveal_strlit("}");
    }
    let s1 = match strip_prefix_of(s, "{\"registries\":{") {
        Some(t) => t,
        None => {
            return Err(NrsError::CorruptProfile);
        },
    };
    let f1 = s1.unicode_len();
    let (b, r1) = match parse_entries(s1, true, f1) {
        Some(p) => p,
        None => {
            proof {
                lemma_entries_fuel(s1@, true, f1 as nat, s1@.len() + 1);
            }
            return Err(NrsError::CorruptProfile);
        },
    };
    proof {
        lemma_entries_fuel(s1@, true, f1 as nat, s1@.len() + 1);
    }
    let s2 = match strip_prefix_of(r1, ",\"custom_registries\":{") {
        Some(t) => t,
        None => {
            return Err(NrsError::CorruptProfile);
        },
    };
    let f2 = s2.unicode_len();
    let (c, r2) = match parse_entries(s2, true, f2) {
        Some(p) => p,
        None => {
            proof {
                lemma_entries_fuel(s2@, true, f2 as nat, s2@.len() + 1);
            }
            return Err(NrsError::CorruptProfile);
        },
    };
    proof {
        lemma_entries_fuel(s2@, true, f2 as nat, s2@.len() + 1);
    }
    let s3 = match strip_prefix_of(r2, ",\"registry_order\":[") {
        Some(t) => t,
        None => {
            return Err(NrsError::CorruptProfile);
        },
    };
    let f3 = s3.unicode_len();
    let (o, r3) = match parse_names(s3, true, f3) {
        Some(p) => p,
        None => {
            proof {
                lemma_names_fuel(s3@, true, f3 as nat, s3@.len() + 1);
            }
            return Err(NrsError::CorruptProfile);
        },
    };
    proof {
        lemma_names_fuel(s3@, true, f3 as nat, s3@.len() + 1);
    }
    let s4 = match strip_prefix_of(r3, ",\"current\":") {
        Some(t) => t,
        None => {
            return Err(NrsError::CorruptProfile);
        },
    };
    let current: Option<String>;
    let tail: &str;
    if str_has_prefix(s4, "null") {
        current = None;
        let s4len = s4.unicode_len();
        tail = s4.substring_char(4, s4len);
        proof {
            assert(tail@ =~= s4@.skip(4));
        }
    } else {
        match parse_str(s4) {
            Some((cur, rest)) => {
                current = Some(cur);
                tail = rest;
            },
            None => {
                return Err(NrsError::CorruptProfile);
            },
        }
    }
    let tlen = tail.unicode_len();
    if tlen == 1 && tail.get_char(0) == '}' {
        let cfg = Config { registries: b, custom_registries: c, registry_order: o, current };
        proof {
            assert(p_profile(s@) == Some(cfg@)) by {
                assert(cfg@ =~= cfg@);
            }
        }
        Ok(cfg)
    } else {
        Err(NrsError::CorruptProfile)
    }
}

/// Fuel beyond what the input can consume does not change the outcome of
/// reading a map's members.
pub proof fn lemma_entries_fuel(s: Seq<char>, first: bool, f1: nat, f2: nat)
    requires
        f1 >= s.len(),
        f2 >= s.len(),
    ensures
        p_entries(s, first, f1) == p_entries(s, first, f2),
    decreases s.len(),
{
    if !(s.len() > 0 && s[0] == '}') && f1 != 0 && f2 != 0 {
        let s1 = if first {
            Some(s)
        } else {
            if s.len() > 0 && s[0] == ',' {
                Some(s.skip(1))
            } else {
                None
            }
        };
        match s1 {
            None => {},
            Some(t) => {
                match p_pair(t) {
                    None => {},
                    Some((e, r)) => {
                        lemma_pair_shrinks(t);
                        assert(t.len() <= s.len());
                        assert(r.len() < t.len());
                        lemma_entries_fuel(r, false, (f1 - 1) as nat, (f2 - 1) as nat);
                    },
                }
            },
        }
    }
}

/// Fuel beyond what the input can consume does not change the outcome of
/// reading the order list.
pub proof fn lemma_names_fuel(s: Seq<char>, first: bool, f1: nat, f2: nat)
    requires
        f1 >= s.len(),
        f2 >= s.len(),
    ensures
        p_names(s, first, f1) == p_names(s, first, f2),
    decreases s.len(),
{
    if !(s.len() > 0 && s[0] == ']') && f1 != 0 && f2 != 0 {
        let s1 = if first {
            Some(s)
        } else {
            if s.len() > 0 && s[0] == ',' {
                Some(s.skip(1))
            } else {
                None
            }
        };
        match s1 {
            None => {},
            Some(t) => {
                match p_str(t) {
                    None => {},
                    Some((e, r)) => {
                        lemma_str_shrinks(t);
                        assert(t.len() <= s.len());
                        assert(r.len() < t.len());
                        lemma_names_fuel(r, false, (f1 - 1) as nat, (f2 - 1) as nat);
                    },
                }
            },
        }
    }
}

/// A parsed string body leaves a strictly shorter remainder.
pub proof fn lemma_strbody_shrinks(s: Seq<char>)
    ensures
        p_strbody(s) matches Some(p) ==> p.1.len() < s.len(),
    decreases s.len(),
{
    if s.len() > 0 && s[0] != '"' {
        if s[0] == '\\' {
            if s.len() >= 2 && (s[1] == '"' || s[1] == '\\') {
                lemma_strbody_shrinks(s.skip(2));
            }
        } else {
            lemma_strbody_shrinks(s.skip(1));
        }
    }
}

/// A parsed quoted string leaves a strictly shorter remainder.
pub proof fn lemma_str_shrinks(s: Seq<char>)
    ensures
        p_str(s) matches Some(p) ==> p.1.len() < s.len(),
{
    if s.len() > 0 && s[0] == '"' {
        lemma_strbody_shrinks(s.skip(1));
    }
}

/// A parsed member leaves a strictly shorter remainder.
pub proof fn lemma_pair_shrinks(s: Seq<char>)
    ensures
        p_pair(s) matches Some(p) ==> p.1.len() < s.len(),
{
    lemma_str_shrinks(s);
    if let Some((k, r1)) = p_str(s) {
        if r1.len() > 0 && r1[0] == ':' {
            lemma_str_shrinks(r1.skip(1));
        }
    }
}

} // verus!
