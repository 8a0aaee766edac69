//! The framing shared by writer and reader: the delimiter line, the
//! timestamp line `[YYYY-MM-DD - HH:MM:SS]z`, and the frame written for one
//! entry (delimiter, timestamp, body lines, delimiter, blank line).

use vstd::prelude::*;
use crate::text::{join_lines, views, push_char};

verus! {

/// Number of `-` characters in a delimiter line.
pub const DELIMITER_LEN: usize = 50;

/// The delimiter line: exactly fifty `-`.
pub open spec fn delimiter() -> Seq<char> {
    Seq::new(DELIMITER_LEN as nat, |i: int| '-')
}

pub open spec fn is_digit(c: char) -> bool {
    '0' <= c && c <= '9'
}

/// The decimal digit for the last place of `n`.
pub open spec fn digit_char(n: nat) -> char {
    seq!['0', '1', '2', '3', '4', '5', '6', '7', '8', '9'][(n % 10) as int]
}

/// `n` written with two digits (the last two places).
pub open spec fn two_digits(n: nat) -> Seq<char> {
    seq![digit_char(n / 10), digit_char(n)]
}

/// `n` written with four digits (the last four places).
pub open spec fn four_digits(n: nat) -> Seq<char> {
    seq![digit_char(n / 1000), digit_char(n / 100), digit_char(n / 10), digit_char(n)]
}

/// A point in time, in UTC, to the second.
#[derive(Clone, Copy, Debug, PartialEq, Eq)]
pub struct Timestamp {
    pub year: u16,
    pub month: u8,
    pub day: u8,
    pub hour: u8,
    pub minute: u8,
    pub second: u8,
}

impl Timestamp {
    /// Every field in its range; the year has at most four digits.
    pub open spec fn wf(&self) -> bool {
        &&& self.year <= 9999
        &&& 1 <= self.month <= 12
        &&& 1 <= self.day <= 31
        &&& self.hour < 24
        &&& self.minute < 60
        &&& self.second < 60
    }

    /// `YYYY-MM-DD`
    pub open spec fn date_text(&self) -> Seq<char> {
        four_digits(self.year as nat) + seq!['-'] + two_digits(self.month as nat) + seq!['-']
            + two_digits(self.day as nat)
    }

    /// `HH:MM:SS`
    pub open spec fn time_text(&self) -> Seq<char> {
        two_digits(self.hour as nat) + seq![':'] + two_digits(self.minute as nat) + seq![':']
            + two_digits(self.second as nat)
    }

    /// `[YYYY-MM-DD - HH:MM:SS]z`
    pub open spec fn stamp_text(&self) -> Seq<char> {
        seq!['['] + self.date_text() + seq![' ', '-', ' '] + self.time_text() + seq![']', 'z']
    }

    /// The timestamp of these fields, if each is in its range.
    pub fn new(year: i32, month: u32, day: u32, hour: u32, minute: u32, second: u32) -> (r: Option<
        Timestamp,
    >)
        ensures
            r is Some <==> (0 <= year <= 9999 && 1 <= month <= 12 && 1 <= day <= 31 && hour < 24
                && minute < 60 && second < 60),
            r matches Some(t) ==> t.wf() && t.year == year && t.month == month && t.day == day
                && t.hour == hour && t.minute == minute && t.second == second,
    {
        if 0 <= year && year <= 9999 && 1 <= month && month <= 12 && 1 <= day && day <= 31 && hour
            < 24 && minute < 60 && second < 60 {
            Some(
                Timestamp {
                    year: year as u16,
                    month: month as u8,
                    day: day as u8,
                    hour: hour as u8,
                    minute: minute as u8,
                    second: second as u8,
                },
            )
        } else {
            None
        }
    }

    /// The date, `YYYY-MM-DD`.
    pub fn date_string(&self) -> (r: String)
        ensures
            r@ == self.date_text(),
    {
        let mut r = String::new();
        push_four_digits(&mut r, self.year);
        push_char(&mut r, '-');
        push_two_digits(&mut r, self.month);
        push_char(&mut r, '-');
        push_two_digits(&mut r, self.day);
        assert(r@ =~= self.date_text());
        r
    }

    /// The time of day, `HH:MM:SS`.
    pub fn time_string(&self) -> (r: String)
        ensures
            r@ == self.time_text(),
    {
        let mut r = String::new();
        push_two_digits(&mut r, self.hour);
        push_char(&mut r, ':');
        push_two_digits(&mut r, self.minute);
        push_char(&mut r, ':');
        push_two_digits(&mut r, self.second);
        assert(r@ =~= self.time_text());
        r
    }

    /// The timestamp line, `[YYYY-MM-DD - HH:MM:SS]z`.
    pub fn stamp_string(&self) -> (r: String)
        ensures
            r@ == self.stamp_text(),
    {
        let mut r = String::new();
        push_char(&mut r, '[');
        let date = self.date_string();
        r.append(date.as_str());
        push_char(&mut r, ' ');
        push_char(&mut r, '-');
        push_char(&mut r, ' ');
        let time = self.time_string();
        r.append(time.as_str());
        push_char(&mut r, ']');
        push_char(&mut r, 'z');
        assert(r@ =~= self.stamp_text());
        r
    }
}

fn digit(n: u16) -> (c: char)
    ensures
        c == digit_char(n as nat),
{
    let ds = ['0', '1', '2', '3', '4', '5', '6', '7', '8', '9'];
    let c = ds[(n % 10) as usize];
    assert(c == digit_char(n as nat)) by {
        assert(ds@ == seq!['0', '1', '2', '3', '4', '5', '6', '7', '8', '9']);
    }
    c
}

fn push_two_digits(s: &mut String, n: u8)
    ensures
        final(s)@ == old(s)@ + two_digits(n as nat),
{
    push_char(s, digit(n as u16 / 10));
    push_char(s, digit(n as u16));
    assert(final(s)@ =~= old(s)@ + two_digits(n as nat));
}

fn push_four_digits(s: &mut String, n: u16)
    ensures
        final(s)@ == old(s)@ + four_digits(n as nat),
{
    push_char(s, digit(n / 1000));
    push_char(s, digit(n / 100));
    push_char(s, digit(n / 10));
    push_char(s, digit(n));
    assert(final(s)@ =~= old(s)@ + four_digits(n as nat));
}

/// What the timestamp line holds at position `i`: a fixed character, or
/// `None` where a digit stands.
pub open spec fn stamp_template(i: int) -> Option<char> {
    if i == 0 {
        Some('[')
    } else if i == 5 || i == 8 || i == 12 {
        Some('-')
    } else if i == 11 || i == 13 {
        Some(' ')
    } else if i == 16 || i == 19 {
        Some(':')
    } else if i == 22 {
        Some(']')
    } else if i == 23 {
        Some('z')
    } else {
        None
    }
}

/// Length of a timestamp line.
pub const STAMP_LEN: usize = 24;

/// Where the time of day starts and ends in a timestamp line.
pub const TIME_START: usize = 14;
pub const TIME_END: usize = 22;

/// `l` has the shape `[DDDD-DD-DD - DD:DD:DD]z`, each `D` a decimal digit.
pub open spec fn is_stamp_line(l: Seq<char>) -> bool {
    &&& l.len() == STAMP_LEN
    &&& forall|i: int|
        0 <= i < STAMP_LEN ==> match #[trigger] stamp_template(i) {
            Some(c) => l[i] == c,
            None => is_digit(l[i]),
        }
}

/// The time of day that a timestamp line holds, if `l` is one.
pub open spec fn stamp_time(l: Seq<char>) -> Option<Seq<char>> {
    if is_stamp_line(l) {
        Some(l.subrange(TIME_START as int, TIME_END as int))
    } else {
        None
    }
}

/// The part of `s[TIME_START..TIME_END]` that lies before `n`.
pub open spec fn time_prefix(s: Seq<char>, n: int) -> Seq<char> {
    if n <= TIME_START {
        seq![]
    } else if n < TIME_END {
        s.subrange(TIME_START as int, n)
    } else {
        s.subrange(TIME_START as int, TIME_END as int)
    }
}

fn template_at(i: usize) -> (r: Option<char>)
    ensures
        r == stamp_template(i as int),
{
    if i == 0 {
        Some('[')
    } else if i == 5 || i == 8 || i == 12 {
        Some('-')
    } else if i == 11 || i == 13 {
        Some(' ')
    } else if i == 16 || i == 19 {
        Some(':')
    } else if i == 22 {
        Some(']')
    } else if i == 23 {
        Some('z')
    } else {
        None
    }
}

/// The time of day in `line`, `HH:MM:SS`, if it is a timestamp line.
pub fn match_timestamp(line: &str) -> (r: Option<String>)
    ensures
        r matches Some(t) ==> stamp_time(line@) == Some(t@),
        r is None ==> stamp_time(line@) is None,
{
    let ghost s = line@;
    let mut time = String::new();
    let mut n: usize = 0;
    for c in it: line.chars()
        invariant
            it.seq() == s,
            s == line@,
            n == it.index(),
            n <= STAMP_LEN,
            forall|i: int|
                0 <= i < n ==> match #[trigger] stamp_template(i) {
                    Some(c) => s[i] == c,
                    None => is_digit(s[i]),
                },
            time@ == time_prefix(s, n as int),
    {
        assert(n < s.len() && c == s[n as int]);
        if n >= STAMP_LEN {
            return None;
        }
        let fits = match template_at(n) {
            Some(t) => c == t,
            None => '0' <= c && c <= '9',
        };
        if !fits {
            assert(!is_stamp_line(s)) by {
                if s.len() == STAMP_LEN {
                    assert(match stamp_template(n as int) {
                        Some(c) => s[n as int] == c,
                        None => is_digit(s[n as int]),
                    } == false);
                }
            }
            return None;
        }
        if TIME_START <= n && n < TIME_END {
            push_char(&mut time, c);
        }
        n = n + 1;
        assert(time@ =~= time_prefix(s, n as int));
    }
    if n == STAMP_LEN {
        Some(time)
    } else {
        None
    }
}

/// True iff `line` is the delimiter line.
pub fn is_delimiter(line: &str) -> (r: bool)
    ensures
        r == (line@ == delimiter()),
{
    let ghost s = line@;
    let mut n: usize = 0;
    for c in it: line.chars()
        invariant
            it.seq() == s,
            s == line@,
            n == it.index(),
            n <= DELIMITER_LEN,
            forall|i: int| 0 <= i < n ==> s[i] == '-',
    {
        assert(n < s.len() && c == s[n as int]);
        if n >= DELIMITER_LEN || c != '-' {
            assert(s != delimiter()) by {
                if n < DELIMITER_LEN {
                    assert(s[n as int] != delimiter()[n as int]);
                }
            }
            return false;
        }
        n = n + 1;
    }
    assert(n == DELIMITER_LEN ==> s =~= delimiter());
    n == DELIMITER_LEN
}

/// The delimiter line, as a new string.
pub fn delimiter_string() -> (r: String)
    ensures
        r@ == delimiter(),
{
    let mut r = String::new();
    for i in 0..DELIMITER_LEN
        invariant
            r@ == Seq::new(i as nat, |j: int| '-'),
    {
        push_char(&mut r, '-');
        assert(r@ =~= Seq::new((i + 1) as nat, |j: int| '-'));
    }
    r
}

/// The lines of the frame for one entry.
pub open spec fn frame_lines(stamp: Seq<char>, body: Seq<Seq<char>>) -> Seq<Seq<char>> {
    seq![delimiter(), stamp] + body + seq![delimiter(), seq![]]
}

/// The text of the frame for one entry: each of its lines followed by `\n`.
pub open spec fn frame_text(stamp: Seq<char>, body: Seq<Seq<char>>) -> Seq<char> {
    join_lines(frame_lines(stamp, body))
}

proof fn lemma_join_push(ls: Seq<Seq<char>>, l: Seq<char>)
    ensures
        join_lines(ls.push(l)) == join_lines(ls) + l + seq!['\n'],
{
    crate::text::lemma_join_lines_append(ls, seq![l]);
    assert(ls.push(l) == ls + seq![l]);
    assert(seq![l].drop_first() == Seq::<Seq<char>>::empty());
    assert(join_lines(seq![l]) == l + seq!['\n'] + join_lines(Seq::<Seq<char>>::empty()));
    assert(l + seq!['\n'] + Seq::<char>::empty() == l + seq!['\n']);
}

/// The frame written for one entry: the delimiter, the timestamp line of
/// `stamp`, each body line, the delimiter, and a blank line, each ended by
/// `\n`.
pub fn frame(stamp: &Timestamp, body: &Vec<String>) -> (r: String)
    ensures
        r@ == frame_text(stamp.stamp_text(), views(body@)),
{
    let delim = delimiter_string();
    let stamp_line = stamp.stamp_string();
    let ghost head = seq![delimiter(), stamp.stamp_text()];
    let mut r = String::new();
    r.append(delim.as_str());
    push_char(&mut r, '\n');
    r.append(stamp_line.as_str());
    push_char(&mut r, '\n');
    proof {
        lemma_join_push(Seq::<Seq<char>>::empty(), delimiter());
        lemma_join_push(seq![delimiter()], stamp.stamp_text());
        assert(seq![delimiter()].push(stamp.stamp_text()) == head);
        assert(Seq::<Seq<char>>::empty().push(delimiter()) == seq![delimiter()]);
        assert(r@ =~= join_lines(head));
    }
    for i in 0..body.len()
        invariant
            r@ == join_lines(head + views(body@).take(i as int)),
    {
        r.append(body[i].as_str());
        push_char(&mut r, '\n');
        proof {
            let ls = head + views(body@).take(i as int);
            lemma_join_push(ls, body[i as int]@);
            assert(ls.push(body[i as int]@) == head + views(body@).take(i + 1));
        }
    }
    r.append(delim.as_str());
    push_char(&mut r, '\n');
    push_char(&mut r, '\n');
    proof {
        let ls = head + views(body@);
        assert(views(body@).take(body.len() as int) == views(body@));
        lemma_join_push(ls, delimiter());
        lemma_join_push(ls.push(delimiter()), seq![]);
        assert(ls.push(delimiter()).push(seq![]) == frame_lines(stamp.stamp_text(), views(body@)));
        assert(r@ =~= join_lines(ls.push(delimiter()).push(seq![])));
    }
    r
}

} // verus!
