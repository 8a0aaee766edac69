//! Text as lines: joining lines with a `\n` after each, and splitting text
//! into lines the way `str::lines` does (at `\n`, with one `\r` right before
//! the `\n` dropped, and no empty line after a final `\n`).

use vstd::prelude::*;

verus! {

/// Index of the first `\n` in `s`, or `s.len()` if there is none.
pub open spec fn newline_index(s: Seq<char>) -> nat
    decreases s.len(),
{
    if s.len() == 0 {
        0
    } else if s[0] == '\n' {
        0
    } else {
        1 + newline_index(s.drop_first())
    }
}

/// A line ended by `\n` loses one trailing `\r`.
pub open spec fn strip_cr(l: Seq<char>) -> Seq<char> {
    if l.len() > 0 && l.last() == '\r' {
        l.drop_last()
    } else {
        l
    }
}

/// The lines of `s`.
pub open spec fn split_lines(s: Seq<char>) -> Seq<Seq<char>>
    decreases s.len(),
{
    if s.len() == 0 {
        seq![]
    } else {
        let k = newline_index(s);
        if k < s.len() {
            seq![strip_cr(s.take(k as int))] + split_lines(s.skip(k + 1 as int))
        } else {
            seq![s]
        }
    }
}

/// Each line followed by `\n`, one after the other.
pub open spec fn join_lines(ls: Seq<Seq<char>>) -> Seq<char>
    decreases ls.len(),
{
    if ls.len() == 0 {
        seq![]
    } else {
        ls[0] + seq!['\n'] + join_lines(ls.drop_first())
    }
}

/// A line that splitting gives back as it is: no `\n` in it, and no `\r`
/// at its end.
pub open spec fn plain_line(l: Seq<char>) -> bool {
    &&& forall|j: int| 0 <= j < l.len() ==> l[j] != '\n'
    &&& (l.len() > 0 ==> l.last() != '\r')
}

/// The views of a vector of strings.
pub open spec fn views(v: Seq<String>) -> Seq<Seq<char>> {
    v.map_values(|x: String| x@)
}

pub proof fn lemma_newline_index(s: Seq<char>, k: int)
    requires
        0 <= k <= s.len(),
        forall|j: int| 0 <= j < k ==> s[j] != '\n',
        k == s.len() || s[k] == '\n',
    ensures
        newline_index(s) == k,
    decreases k,
{
    if k > 0 {
        lemma_newline_index(s.drop_first(), k - 1);
    }
}

pub proof fn lemma_join_lines_append(a: Seq<Seq<char>>, b: Seq<Seq<char>>)
    ensures
        join_lines(a + b) == join_lines(a) + join_lines(b),
    decreases a.len(),
{
    if a.len() == 0 {
        assert(a + b == b);
    } else {
        assert((a + b).drop_first() == a.drop_first() + b);
        lemma_join_lines_append(a.drop_first(), b);
    }
}

/// Splitting undoes joining, for plain lines.
pub proof fn lemma_split_join(ls: Seq<Seq<char>>)
    requires
        forall|i: int| 0 <= i < ls.len() ==> plain_line(#[trigger] ls[i]),
    ensures
        split_lines(join_lines(ls)) == ls,
    decreases ls.len(),
{
    if ls.len() > 0 {
        let l = ls[0];
        let rest = join_lines(ls.drop_first());
        let s = join_lines(ls);
        assert(s == l + seq!['\n'] + rest);
        lemma_newline_index(s, l.len() as int);
        assert(s.take(l.len() as int) == l);
        assert(s.skip(l.len() + 1int) == rest);
        lemma_split_join(ls.drop_first());
        assert(ls == seq![l] + ls.drop_first());
    }
}

/// Relies on `String::push`: appends one character.
#[verifier::external_body]
pub(crate) fn push_char(s: &mut String, c: char)
    ensures
        final(s)@ == old(s)@.push(c),
{
    s.push(c)
}

/// The lines of `text`, each as a new string.
pub fn split_text_lines(text: &str) -> (r: Vec<String>)
    ensures
        views(r@) == split_lines(text@),
{
    let ghost s = text@;
    let mut out: Vec<String> = Vec::new();
    let mut cur = String::new();
    let mut pending_cr = false;
    let mut open_line = false;
    let ghost mut start: int = 0;
    assert(s.skip(0) == s);
    assert(views(out@) + split_lines(s) == split_lines(s));
    for c in it: text.chars()
        invariant
            it.seq() == s,
            0 <= start <= it.index() <= s.len(),
            open_line == (start < it.index()),
            forall|j: int| start <= j < it.index() ==> s[j] != '\n',
            !pending_cr ==> cur@.len() == 0 || cur@.last() != '\r',
            cur@ + (if pending_cr { seq!['\r'] } else { seq![] }) == s.subrange(start, it.index()),
            split_lines(s) == views(out@) + split_lines(s.skip(start)),
    {
        let ghost i = it.index();
        if c == '\n' {
            proof {
                let t = s.skip(start);
                lemma_newline_index(t, i - start);
                assert(t.take(i - start) == s.subrange(start, i));
                assert(t.skip(i - start + 1) == s.skip(i + 1));
                if pending_cr {
                    assert((cur@ + seq!['\r']).drop_last() == cur@);
                } else {
                    assert(cur@ + seq![] == cur@);
                }
                assert(strip_cr(s.subrange(start, i)) == cur@);
                assert(views(out@.push(cur)) == views(out@).push(cur@));
            }
            out.push(cur);
            cur = String::new();
            pending_cr = false;
            open_line = false;
            proof {
                start = i + 1;
                assert(cur@ + seq![] =~= s.subrange(start, i + 1));
            }
        } else {
            open_line = true;
            if pending_cr {
                push_char(&mut cur, '\r');
            }
            if c == '\r' {
                pending_cr = true;
            } else {
                pending_cr = false;
                push_char(&mut cur, c);
            }
            assert(c == s[i]);
            assert(s.subrange(start, i + 1) == s.subrange(start, i).push(c));
            assert(cur@ + (if pending_cr { seq!['\r'] } else { seq![] }) =~= s.subrange(start, i + 1));
        }
    }
    if pending_cr {
        push_char(&mut cur, '\r');
    }
    proof {
        let t = s.skip(start);
        assert(cur@ == t);
        if t.len() > 0 {
            lemma_newline_index(t, t.len() as int);
        }
        assert(views(out@.push(cur)) == views(out@).push(cur@));
    }
    if open_line {
        out.push(cur);
    }
    out
}

} // verus!
