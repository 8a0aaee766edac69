//! The index of the days on record: the dates that lead the names of the
//! files in the store's directory, newest first; and the name of a day's
//! file.

use vstd::prelude::*;
use vstd::seq_lib::{to_multiset_build, to_multiset_insert};
use crate::framer::is_digit;
use crate::text::{views, push_char};

verus! {

/// What ends the name of a day's file, after its date.
pub const SHARD_SUFFIX: &'static str = "-feedback.txt";

/// Length of a date, `YYYY-MM-DD`.
pub const DATE_LEN: usize = 10;

/// The name of the file that holds the entries of `date`.
pub fn shard_file_name(date: &str) -> (r: String)
    ensures
        r@ == date@ + SHARD_SUFFIX@,
{
    let mut r = String::from_str(date);
    r.append(SHARD_SUFFIX);
    r
}

/// Where a date holds a `-`; a digit stands everywhere else.
pub open spec fn date_dash(i: int) -> bool {
    i == 4 || i == 7
}

/// The date, `YYYY-MM-DD` with decimal digits, that `name` starts with.
pub open spec fn date_prefix(name: Seq<char>) -> Option<Seq<char>> {
    if name.len() >= DATE_LEN && forall|i: int|
        0 <= i < DATE_LEN ==> if #[trigger] date_dash(i) {
            name[i] == '-'
        } else {
            is_digit(name[i])
        } {
        Some(name.take(DATE_LEN as int))
    } else {
        None
    }
}

/// The dates that lead the names, in the order of the names; names that do
/// not start with a date are passed over.
pub open spec fn dates_in(names: Seq<Seq<char>>) -> Seq<Seq<char>>
    decreases names.len(),
{
    if names.len() == 0 {
        seq![]
    } else {
        let before = dates_in(names.drop_last());
        match date_prefix(names.last()) {
            Some(d) => before.push(d),
            None => before,
        }
    }
}

/// `a` comes before `b` in lexicographic order.
pub open spec fn lex_lt(a: Seq<char>, b: Seq<char>) -> bool
    decreases a.len(),
{
    if a.len() == 0 {
        b.len() > 0
    } else if b.len() == 0 {
        false
    } else if a[0] != b[0] {
        a[0] < b[0]
    } else {
        lex_lt(a.drop_first(), b.drop_first())
    }
}

/// Each element comes no earlier, in lexicographic order, than the ones
/// after it.
pub open spec fn sorted_newest_first(s: Seq<Seq<char>>) -> bool {
    forall|i: int, j: int| 0 <= i < j < s.len() ==> !lex_lt(#[trigger] s[i], #[trigger] s[j])
}

pub proof fn lemma_lex_lt_transitive(a: Seq<char>, b: Seq<char>, c: Seq<char>)
    requires
        lex_lt(a, b),
        lex_lt(b, c),
    ensures
        lex_lt(a, c),
    decreases a.len(),
{
    if a.len() > 0 && b.len() > 0 && c.len() > 0 && a[0] == b[0] && b[0] == c[0] {
        lemma_lex_lt_transitive(a.drop_first(), b.drop_first(), c.drop_first());
    }
}

/// The date that `name` starts with, if it starts with one.
pub fn leading_date(name: &str) -> (r: Option<String>)
    ensures
        r matches Some(d) ==> date_prefix(name@) == Some(d@),
        r is None ==> date_prefix(name@) is None,
{
    let ghost s = name@;
    let mut date = String::new();
    let mut n: usize = 0;
    for c in it: name.chars()
        invariant
            it.seq() == s,
            s == name@,
            n <= it.index(),
            n < DATE_LEN ==> n == it.index(),
            n <= DATE_LEN,
            forall|i: int|
                0 <= i < n ==> if #[trigger] date_dash(i) {
                    s[i] == '-'
                } else {
                    is_digit(s[i])
                },
            date@ == s.take(n as int),
    {
        if n < DATE_LEN {
        assert(n < s.len() && c == s[n as int]);
        let fits = if n == 4 || n == 7 {
            c == '-'
        } else {
            '0' <= c && c <= '9'
        };
        if !fits {
            assert(date_prefix(s) is None) by {
                assert(!(if date_dash(n as int) {
                    s[n as int] == '-'
                } else {
                    is_digit(s[n as int])
                }));
            }
            return None;
        }
        push_char(&mut date, c);
        n = n + 1;
        assert(date@ =~= s.take(n as int));
        }
    }
    if n == DATE_LEN {
        Some(date)
    } else {
        assert(s.len() < DATE_LEN);
        None
    }
}

/// True iff `a` comes before `b` in lexicographic order.
pub fn lex_less(a: &str, b: &str) -> (r: bool)
    ensures
        r == lex_lt(a@, b@),
{
    let la = a.unicode_len();
    let lb = b.unicode_len();
    let mut i: usize = 0;
    assert(a@.skip(0) == a@ && b@.skip(0) == b@);
    while i < la && i < lb
        invariant
            la == a@.len(),
            lb == b@.len(),
            i <= la,
            i <= lb,
            forall|j: int| 0 <= j < i ==> a@[j] == b@[j],
            lex_lt(a@, b@) == lex_lt(a@.skip(i as int), b@.skip(i as int)),
        decreases la - i,
    {
        let ca = a.get_char(i);
        let cb = b.get_char(i);
        if ca != cb {
            assert(a@.skip(i as int)[0] == ca && b@.skip(i as int)[0] == cb);
            return ca < cb;
        }
        assert(a@.skip(i as int).drop_first() == a@.skip(i + 1));
        assert(b@.skip(i as int).drop_first() == b@.skip(i + 1));
        i = i + 1;
    }
    i < lb
}

/// The dates that lead `names`, the names of the files in the store's
/// directory, sorted newest first; names that do not start with a date are
/// passed over. A date appears as many times as names start with it.
pub fn available_dates(names: &Vec<String>) -> (r: Vec<String>)
    ensures
        sorted_newest_first(views(r@)),
        views(r@).to_multiset() == dates_in(views(names@)).to_multiset(),
{
    let ghost ns = views(names@);
    let mut out: Vec<String> = Vec::new();
    proof {
        assert(ns.take(0) == Seq::<Seq<char>>::empty());
        assert(views(out@) == Seq::<Seq<char>>::empty());
    }
    for i in 0..names.len()
        invariant
            ns == views(names@),
            sorted_newest_first(views(out@)),
            views(out@).to_multiset() == dates_in(ns.take(i as int)).to_multiset(),
    {
        proof {
            let t = ns.take(i + 1);
            assert(t.drop_last() == ns.take(i as int));
            assert(t.last() == names[i as int]@);
        }
        if let Some(d) = leading_date(names[i].as_str()) {
            let mut p: usize = 0;
            while p < out.len() && !lex_less(out[p].as_str(), d.as_str())
                invariant
                    p <= out.len(),
                    forall|j: int| 0 <= j < p ==> !lex_lt(#[trigger] views(out@)[j], d@),
                decreases out.len() - p,
            {
                p = p + 1;
            }
            let ghost old_v = views(out@);
            let ghost dv = d@;
            out.insert(p, d);
            proof {
                let v = views(out@);
                to_multiset_build(dates_in(ns.take(i as int)), dv);
                assert(v =~= old_v.insert(p as int, dv));
                to_multiset_insert(old_v, p as int, dv);
                assert forall|a: int, b: int| 0 <= a < b < v.len() implies !lex_lt(
                    #[trigger] v[a],
                    #[trigger] v[b],
                ) by {
                    if b < p {
                        assert(v[a] == old_v[a] && v[b] == old_v[b]);
                    } else if b == p {
                        assert(v[a] == old_v[a] && v[b] == dv);
                    } else if a > p {
                        assert(v[a] == old_v[a - 1] && v[b] == old_v[b - 1]);
                    } else {
                        assert(v[b] == old_v[b - 1]);
                        assert(p < old_v.len() && lex_lt(old_v[p as int], dv));
                        if a == p {
                            assert(v[a] == dv);
                            if lex_lt(dv, old_v[b - 1]) {
                                lemma_lex_lt_transitive(old_v[p as int], dv, old_v[b - 1]);
                                if b - 1 > p {
                                    assert(!lex_lt(old_v[p as int], old_v[b - 1]));
                                } else {
                                    lemma_lex_lt_irreflexive(old_v[p as int]);
                                }
                            }
                        } else {
                            assert(v[a] == old_v[a]);
                        }
                    }
                }
            }
        }
    }
    proof {
        assert(ns.take(names.len() as int) == ns);
    }
    out
}

pub proof fn lemma_lex_lt_irreflexive(a: Seq<char>)
    ensures
        !lex_lt(a, a),
    decreases a.len(),
{
    if a.len() > 0 {
        lemma_lex_lt_irreflexive(a.drop_first());
    }
}

} // verus!
