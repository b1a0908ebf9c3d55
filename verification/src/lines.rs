//! Line-oriented text, the shape of the configuration file this library
//! edits. A text is split at `'\n'`; a single trailing newline does not open
//! an extra empty line. Joining writes every line followed by `'\n'`, the
//! form the editor always produces.

use vstd::prelude::*;
use vstd::string::StrSliceExecFns;
use vstd::string::StringExecFns;

verus! {

/// Split at every newline; the result always has one more element than the
/// text has `'\n'` characters.
pub open spec fn split_nl(s: Seq<char>) -> Seq<Seq<char>>
    decreases s.len(),
{
    if s.len() == 0 {
        seq![Seq::<char>::empty()]
    } else if s[0] == '\n' {
        seq![Seq::<char>::empty()] + split_nl(s.drop_first())
    } else {
        let r = split_nl(s.drop_first());
        seq![seq![s[0]] + r[0]] + r.drop_first()
    }
}

/// The lines of a text: a trailing newline closes the last line instead of
/// opening an empty one, and the empty text has no lines at all.
pub open spec fn lines_of(s: Seq<char>) -> Seq<Seq<char>> {
    if s.len() == 0 {
        Seq::<Seq<char>>::empty()
    } else if s.last() == '\n' {
        split_nl(s.drop_last())
    } else {
        split_nl(s)
    }
}

/// Every line followed by a newline.
pub open spec fn join_nl(ls: Seq<Seq<char>>) -> Seq<char>
    decreases ls.len(),
{
    if ls.len() == 0 {
        Seq::<char>::empty()
    } else {
        ls[0] + seq!['\n'] + join_nl(ls.drop_first())
    }
}

/// A split is never empty.
pub proof fn lemma_split_nonempty(s: Seq<char>)
    ensures
        split_nl(s).len() >= 1,
    decreases s.len(),
{
    if s.len() > 0 {
        lemma_split_nonempty(s.drop_first());
    }
}

/// No line produced by a split contains a newline.
pub proof fn lemma_split_no_nl(s: Seq<char>)
    ensures
        forall|i: int, j: int|
            0 <= i < split_nl(s).len() && 0 <= j < split_nl(s)[i].len() ==> split_nl(s)[i][j]
                != '\n',
    decreases s.len(),
{
    if s.len() > 0 {
        lemma_split_no_nl(s.drop_first());
        lemma_split_nonempty(s.drop_first());
    }
}

/// Splitting `head + rest`, where `head` holds no newline, keeps `head` glued
/// to the front of the first line of `rest`.
pub proof fn lemma_split_prepend(head: Seq<char>, rest: Seq<char>)
    requires
        forall|i: int| 0 <= i < head.len() ==> head[i] != '\n',
    ensures
        split_nl(head + rest) == seq![head + split_nl(rest)[0]] + split_nl(rest).drop_first(),
    decreases head.len(),
{
    lemma_split_nonempty(rest);
    if head.len() == 0 {
        assert(head + rest =~= rest);
        assert(head + split_nl(rest)[0] =~= split_nl(rest)[0]);
        assert(seq![split_nl(rest)[0]] + split_nl(rest).drop_first() =~= split_nl(rest));
    } else {
        let t = head + rest;
        assert(t.len() > 0);
        assert(t[0] == head[0]);
        assert(t[0] != '\n');
        assert(t.drop_first() =~= head.drop_first() + rest);
        lemma_split_prepend(head.drop_first(), rest);
        let r = split_nl(t.drop_first());
        assert(r[0] == head.drop_first() + split_nl(rest)[0]);
        assert(r.drop_first() =~= split_nl(rest).drop_first());
        assert(seq![t[0]] + r[0] =~= head + split_nl(rest)[0]);
        assert(split_nl(t) =~= seq![head + split_nl(rest)[0]] + split_nl(rest).drop_first());
    }
}

/// A text without newlines is a single line.
pub proof fn lemma_split_single(s: Seq<char>)
    requires
        forall|i: int| 0 <= i < s.len() ==> s[i] != '\n',
    ensures
        split_nl(s) == seq![s],
{
    lemma_split_prepend(s, Seq::<char>::empty());
    assert(s + Seq::<char>::empty() =~= s);
    assert(split_nl(Seq::<char>::empty()) == seq![Seq::<char>::empty()]);
    assert(s + split_nl(Seq::<char>::empty())[0] =~= s);
    assert(seq![s] + split_nl(Seq::<char>::empty()).drop_first() =~= seq![s]);
}

/// Joining some lines and reading the text back line by line returns exactly
/// those lines, provided none of them contains a newline.
pub proof fn lemma_lines_of_join(ls: Seq<Seq<char>>)
    requires
        ls.len() >= 1,
        forall|i: int, j: int| 0 <= i < ls.len() && 0 <= j < ls[i].len() ==> ls[i][j] != '\n',
    ensures
        join_nl(ls).len() > 0,
        join_nl(ls).last() == '\n',
        lines_of(join_nl(ls)) == ls,
    decreases ls.len(),
{
    let t = join_nl(ls);
    if ls.len() == 1 {
        assert(t =~= ls[0] + seq!['\n']);
        assert(t.last() == '\n');
        assert(t.drop_last() =~= ls[0]);
        lemma_split_single(ls[0]);
        assert(lines_of(t) == seq![ls[0]]);
        assert(seq![ls[0]] =~= ls);
    } else {
        let rest = ls.drop_first();
        assert(forall|i: int, j: int|
            0 <= i < rest.len() && 0 <= j < rest[i].len() ==> rest[i][j] != '\n');
        lemma_lines_of_join(rest);
        let jr = join_nl(rest);
        assert(t == ls[0] + seq!['\n'] + jr);
        assert(t.len() > 0);
        assert(t.last() == jr.last());
        assert(t.drop_last() =~= ls[0] + (seq!['\n'] + jr.drop_last()));
        lemma_split_prepend(ls[0], seq!['\n'] + jr.drop_last());
        let y = seq!['\n'] + jr.drop_last();
        assert(y[0] == '\n');
        assert(y.drop_first() =~= jr.drop_last());
        assert(split_nl(y) == seq![Seq::<char>::empty()] + split_nl(jr.drop_last()));
        assert(lines_of(jr) == split_nl(jr.drop_last()));
        assert(split_nl(jr.drop_last()) == rest);
        assert(split_nl(y)[0] =~= Seq::<char>::empty());
        assert(split_nl(y).drop_first() =~= rest);
        assert(ls[0] + split_nl(y)[0] =~= ls[0]);
        assert(split_nl(t.drop_last()) =~= seq![ls[0]] + rest);
        assert(seq![ls[0]] + rest =~= ls);
        assert(lines_of(t) == split_nl(t.drop_last()));
    }
}

/// The lines of a text, as owned strings.
pub fn split_lines(s: &str) -> (r: Vec<String>)
    ensures
        r.deep_view() == lines_of(s@),
{
    let len = s.unicode_len();
    let mut done: Vec<String> = Vec::new();
    if len == 0 {
        proof {
            assert(done.deep_view() =~= lines_of(s@));
        }
        return done;
    }
    let last = s.get_char(len - 1);
    let core_len: usize = if last == '\n' {
        len - 1
    } else {
        len
    };
    let ghost t: Seq<char> = s@.subrange(0, core_len as int);
    proof {
        if s@.last() == '\n' {
            assert(t =~= s@.drop_last());
        } else {
            assert(t =~= s@);
        }
        assert(lines_of(s@) == split_nl(t));
    }
    let mut cur: String = String::new();
    let mut i: usize = 0;
    proof {
        assert(t.skip(0) =~= t);
        lemma_split_nonempty(t);
    }
    loop
        invariant
            len == s@.len(),
            core_len <= len,
            i <= core_len,
            t == s@.subrange(0, core_len as int),
            split_nl(t).len() >= 1,
            split_nl(t) =~= done.deep_view() + seq![cur@ + split_nl(t.skip(i as int))[0]]
                + split_nl(t.skip(i as int)).drop_first(),
        ensures
            i == core_len,
            split_nl(t) =~= done.deep_view() + seq![cur@ + split_nl(t.skip(i as int))[0]]
                + split_nl(t.skip(i as int)).drop_first(),
        decreases core_len - i,
    {
        if i == core_len {
            break;
        }
        let c = s.get_char(i);
        proof {
            assert(t.skip(i as int)[0] == t[i as int]);
            assert(t[i as int] == s@[i as int]);
            assert(t.skip(i as int).drop_first() =~= t.skip(i as int + 1));
            lemma_split_nonempty(t.skip(i as int + 1));
        }
        if c == '\n' {
            let ghost old_done = done.deep_view();
            let ghost old_cur = cur@;
            done.push(cur);
            cur = String::new();
            proof {
                assert(done.deep_view() =~= old_done.push(old_cur));
                let r2 = split_nl(t.skip(i as int + 1));
                assert(split_nl(t.skip(i as int)) == seq![Seq::<char>::empty()] + r2);
                assert(split_nl(t.skip(i as int))[0] =~= Seq::<char>::empty());
                assert(old_cur + split_nl(t.skip(i as int))[0] =~= old_cur);
                assert(split_nl(t.skip(i as int)).drop_first() =~= r2);
                assert(r2 =~= seq![r2[0]] + r2.drop_first());
                assert(cur@ + r2[0] =~= r2[0]);
            }
            i += 1;
        } else {
            let ghost old_cur = cur@;
            cur.push(c);
            proof {
                let r2 = split_nl(t.skip(i as int + 1));
                assert(split_nl(t.skip(i as int)) == seq![seq![t[i as int]] + r2[0]]
                    + r2.drop_first());
                assert(old_cur + split_nl(t.skip(i as int))[0] =~= cur@ + r2[0]);
                assert(split_nl(t.skip(i as int)).drop_first() =~= r2.drop_first());
            }
            i += 1;
        }
    }
    proof {
        assert(t.skip(core_len as int) =~= Seq::<char>::empty());
        assert(split_nl(t.skip(core_len as int)) == seq![Seq::<char>::empty()]);
        assert(cur@ + Seq::<char>::empty() =~= cur@);
    }
    done.push(cur);
    proof {
        assert(done.deep_view() =~= split_nl(t));
    }
    done
}

/// The text whose lines are exactly `ls`, each closed by a newline.
pub fn join_lines(ls: &Vec<String>) -> (r: String)
    ensures
        r@ == join_nl(ls.deep_view()),
{
    let mut out = String::new();
    let mut i: usize = 0;
    let n = ls.len();
    proof {
        assert(ls.deep_view().skip(0) =~= ls.deep_view());
        assert(out@ + join_nl(ls.deep_view()) =~= join_nl(ls.deep_view()));
    }
    loop
        invariant
            n == ls@.len(),
            i <= n,
            ls.deep_view().len() == n,
            out@ + join_nl(ls.deep_view().skip(i as int)) == join_nl(ls.deep_view()),
        ensures
            i == n,
            out@ + join_nl(ls.deep_view().skip(i as int)) == join_nl(ls.deep_view()),
        decreases n - i,
    {
        if i == n {
            break;
        }
        let ghost dv = ls.deep_view();
        proof {
            assert(dv.skip(i as int)[0] == dv[i as int]);
            assert(dv.skip(i as int).drop_first() =~= dv.skip(i as int + 1));
            assert(dv[i as int] == ls@[i as int]@);
        }
        out.append(ls[i].as_str());
        out.push('\n');
        proof {
            assert(out@ + join_nl(dv.skip(i as int + 1)) =~= join_nl(dv));
        }
        i += 1;
    }
    proof {
        assert(join_nl(ls.deep_view().skip(n as int)) == Seq::<char>::empty());
        assert(out@ + Seq::<char>::empty() =~= out@);
    }
    out
}

} // verus!
