//! What holds of writing frames and reading them back.

use vstd::prelude::*;
use crate::framer::{
    Timestamp, delimiter, digit_char, is_digit, is_stamp_line, stamp_template, stamp_time,
    frame_lines, frame_text,
};
use crate::parser::{Record, RecordView, Scan, outside, opened, step, emitted, scan, scan_end, parse_text, record_views};
use crate::text::{join_lines, plain_line, lemma_join_lines_append, lemma_split_join};

verus! {

/// A body line that a frame carries through unchanged: a plain line that
/// is not the delimiter.
pub open spec fn storable_line(l: Seq<char>) -> bool {
    plain_line(l) && l != delimiter()
}

pub open spec fn storable_body(body: Seq<Seq<char>>) -> bool {
    forall|i: int| 0 <= i < body.len() ==> storable_line(#[trigger] body[i])
}

/// The record that the frame of `body`, stamped `t`, reads back as.
pub open spec fn entry_record(t: Timestamp, body: Seq<Seq<char>>) -> RecordView {
    RecordView { timestamp: Some(t.time_text()), body }
}

/// The text of a day's file after the frames of `entries` were appended
/// to it, in order, starting from nothing.
pub open spec fn log_text(entries: Seq<(Timestamp, Seq<Seq<char>>)>) -> Seq<char>
    decreases entries.len(),
{
    if entries.len() == 0 {
        seq![]
    } else {
        let e = entries.last();
        log_text(entries.drop_last()) + frame_text(e.0.stamp_text(), e.1)
    }
}

/// The lines of `log_text(entries)`.
pub open spec fn log_lines(entries: Seq<(Timestamp, Seq<Seq<char>>)>) -> Seq<Seq<char>>
    decreases entries.len(),
{
    if entries.len() == 0 {
        seq![]
    } else {
        let e = entries.last();
        log_lines(entries.drop_last()) + frame_lines(e.0.stamp_text(), e.1)
    }
}

proof fn lemma_digit(n: nat)
    ensures
        is_digit(digit_char(n)),
{
    let ds = seq!['0', '1', '2', '3', '4', '5', '6', '7', '8', '9'];
    let k = (n % 10) as int;
    assert(0 <= k < 10);
    assert(is_digit(ds[k]));
}

/// A well-formed timestamp writes a timestamp line, which reads back as its
/// time of day.
pub proof fn lemma_stamp_line(t: Timestamp)
    requires
        t.wf(),
    ensures
        is_stamp_line(t.stamp_text()),
        stamp_time(t.stamp_text()) == Some(t.time_text()),
        storable_line(t.stamp_text()),
{
    let s = t.stamp_text();
    let y = t.year as nat;
    let mo = t.month as nat;
    let d = t.day as nat;
    let h = t.hour as nat;
    let mi = t.minute as nat;
    let se = t.second as nat;
    assert(s =~= seq![
        '[', digit_char(y / 1000), digit_char(y / 100), digit_char(y / 10), digit_char(y), '-',
        digit_char(mo / 10), digit_char(mo), '-', digit_char(d / 10), digit_char(d), ' ', '-',
        ' ', digit_char(h / 10), digit_char(h), ':', digit_char(mi / 10), digit_char(mi), ':',
        digit_char(se / 10), digit_char(se), ']', 'z',
    ]);
    lemma_digit(y / 1000);
    lemma_digit(y / 100);
    lemma_digit(y / 10);
    lemma_digit(y);
    lemma_digit(mo / 10);
    lemma_digit(mo);
    lemma_digit(d / 10);
    lemma_digit(d);
    lemma_digit(h / 10);
    lemma_digit(h);
    lemma_digit(mi / 10);
    lemma_digit(mi);
    lemma_digit(se / 10);
    lemma_digit(se);
    assert forall|i: int| 0 <= i < 24 implies match #[trigger] stamp_template(i) {
        Some(c) => s[i] == c,
        None => is_digit(s[i]),
    } by {}
    assert(s.subrange(14, 22) =~= t.time_text());
    assert forall|j: int| 0 <= j < s.len() implies s[j] != '\n' by {
        if stamp_template(j) is None {
            assert(is_digit(s[j]));
        }
    }
    assert(s.len() != delimiter().len());
}

proof fn lemma_scan_concat(a: Seq<Seq<char>>, b: Seq<Seq<char>>, st: Scan)
    ensures
        scan(a + b, st) == scan(a, st) + scan(b, scan_end(a, st)),
        scan_end(a + b, st) == scan_end(b, scan_end(a, st)),
    decreases a.len(),
{
    if a.len() == 0 {
        assert(a + b == b);
    } else {
        assert((a + b).drop_first() == a.drop_first() + b);
        assert((a + b)[0] == a[0]);
        lemma_scan_concat(a.drop_first(), b, step(st, a[0]));
    }
}

/// Inside a frame whose timestamp is read, storable lines only gather.
proof fn lemma_scan_body(body: Seq<Seq<char>>, st: Scan)
    requires
        st.inside,
        st.timestamp is Some,
        storable_body(body),
    ensures
        scan(body, st) == Seq::<RecordView>::empty(),
        scan_end(body, st) == (Scan { inside: true, timestamp: st.timestamp, body: st.body + body }),
    decreases body.len(),
{
    if body.len() == 0 {
        assert(st.body + body == st.body);
    } else {
        assert(storable_line(body[0]));
        let next = step(st, body[0]);
        assert(next == Scan { inside: true, timestamp: st.timestamp, body: st.body.push(body[0]) });
        assert forall|i: int| 0 <= i < body.drop_first().len() implies storable_line(
            #[trigger] body.drop_first()[i],
        ) by {
            assert(body.drop_first()[i] == body[i + 1]);
        }
        lemma_scan_body(body.drop_first(), next);
        assert(st.body.push(body[0]) + body.drop_first() == st.body + body);
    }
}

proof fn lemma_scan_one(l: Seq<char>, st: Scan)
    ensures
        scan(seq![l], st) == emitted(st, l),
        scan_end(seq![l], st) == step(st, l),
{
    let one = seq![l];
    assert(one.len() == 1 && one[0] == l);
    assert(one.drop_first() == Seq::<Seq<char>>::empty());
    assert(scan(Seq::<Seq<char>>::empty(), step(st, l)) == Seq::<RecordView>::empty());
    assert(scan_end(Seq::<Seq<char>>::empty(), step(st, l)) == step(st, l));
    assert(scan(one, st) == emitted(st, l) + scan(one.drop_first(), step(st, l)));
    assert(emitted(st, l) + Seq::<RecordView>::empty() == emitted(st, l));
}

/// The lines of one frame complete exactly its record, and leave the scan
/// outside.
proof fn lemma_scan_frame(t: Timestamp, body: Seq<Seq<char>>)
    requires
        t.wf(),
        storable_body(body),
    ensures
        scan(frame_lines(t.stamp_text(), body), outside()) == seq![entry_record(t, body)],
        scan_end(frame_lines(t.stamp_text(), body), outside()) == outside(),
{
    let s = t.stamp_text();
    lemma_stamp_line(t);
    let head = seq![delimiter(), s];
    let tail = seq![delimiter(), Seq::<char>::empty()];
    assert(frame_lines(s, body) == head + body + tail);
    assert(head == seq![delimiter()] + seq![s]);
    lemma_scan_one(delimiter(), outside());
    lemma_scan_one(s, opened());
    lemma_scan_concat(seq![delimiter()], seq![s], outside());
    let st1 = Scan { inside: true, timestamp: Some(t.time_text()), body: seq![] };
    assert(scan_end(head, outside()) == st1);
    assert(scan(head, outside()) == Seq::<RecordView>::empty());
    lemma_scan_body(body, st1);
    assert(st1.body + body == body);
    let st2 = Scan { inside: true, timestamp: Some(t.time_text()), body };
    lemma_scan_concat(head, body, outside());
    assert(tail == seq![delimiter()] + seq![Seq::<char>::empty()]);
    lemma_scan_one(delimiter(), st2);
    lemma_scan_one(Seq::<char>::empty(), outside());
    assert(Seq::<char>::empty().len() != delimiter().len());
    lemma_scan_concat(seq![delimiter()], seq![Seq::<char>::empty()], st2);
    assert(scan(tail, st2) == seq![entry_record(t, body)]);
    assert(scan_end(tail, st2) == outside());
    lemma_scan_concat(head + body, tail, outside());
}

proof fn lemma_frame_lines_plain(t: Timestamp, body: Seq<Seq<char>>)
    requires
        t.wf(),
        storable_body(body),
    ensures
        forall|i: int|
            0 <= i < frame_lines(t.stamp_text(), body).len() ==> plain_line(
                #[trigger] frame_lines(t.stamp_text(), body)[i],
            ),
{
    lemma_stamp_line(t);
    let ls = frame_lines(t.stamp_text(), body);
    assert forall|i: int| 0 <= i < ls.len() implies plain_line(#[trigger] ls[i]) by {
        if 2 <= i < 2 + body.len() {
            assert(ls[i] == body[i - 2]);
            assert(storable_line(body[i - 2]));
        } else if i == 0 || i == ls.len() - 2 {
            assert(ls[i] == delimiter());
        }
    }
}

/// Round trip: the frame of `body`, stamped `t`, reads back as exactly one
/// record, with the time of day of `t` and the lines of `body`, where each
/// body line is plain (no `\n`, no `\r` at its end) and not the delimiter.
pub proof fn lemma_frame_round_trip(t: Timestamp, body: Seq<Seq<char>>)
    requires
        t.wf(),
        storable_body(body),
    ensures
        parse_text(frame_text(t.stamp_text(), body)) == seq![entry_record(t, body)],
{
    lemma_frame_lines_plain(t, body);
    lemma_split_join(frame_lines(t.stamp_text(), body));
    lemma_scan_frame(t, body);
}

/// The entries of a log whose frames can be read back: well-formed
/// timestamps, and storable body lines.
pub open spec fn storable_entries(entries: Seq<(Timestamp, Seq<Seq<char>>)>) -> bool {
    forall|i: int|
        0 <= i < entries.len() ==> (#[trigger] entries[i]).0.wf() && storable_body(entries[i].1)
}

/// The records that the entries read back as.
pub open spec fn entry_records(entries: Seq<(Timestamp, Seq<Seq<char>>)>) -> Seq<RecordView> {
    entries.map_values(|e: (Timestamp, Seq<Seq<char>>)| entry_record(e.0, e.1))
}

proof fn lemma_log_lines(entries: Seq<(Timestamp, Seq<Seq<char>>)>)
    requires
        storable_entries(entries),
    ensures
        log_text(entries) == join_lines(log_lines(entries)),
        forall|i: int|
            0 <= i < log_lines(entries).len() ==> plain_line(#[trigger] log_lines(entries)[i]),
        scan(log_lines(entries), outside()) == entry_records(entries),
        scan_end(log_lines(entries), outside()) == outside(),
    decreases entries.len(),
{
    if entries.len() > 0 {
        let prev = entries.drop_last();
        let e = entries.last();
        assert(storable_entries(prev)) by {
            assert forall|i: int| 0 <= i < prev.len() implies (#[trigger] prev[i]).0.wf()
                && storable_body(prev[i].1) by {
                assert(prev[i] == entries[i]);
            }
        }
        assert(entries[entries.len() - 1] == e);
        lemma_log_lines(prev);
        let a = log_lines(prev);
        let f = frame_lines(e.0.stamp_text(), e.1);
        lemma_join_lines_append(a, f);
        lemma_frame_lines_plain(e.0, e.1);
        assert forall|i: int| 0 <= i < (a + f).len() implies plain_line(#[trigger] (a + f)[i]) by {
            if i < a.len() {
                assert((a + f)[i] == a[i]);
            } else {
                assert((a + f)[i] == f[i - a.len()]);
            }
        }
        lemma_scan_concat(a, f, outside());
        lemma_scan_frame(e.0, e.1);
        assert(entry_records(entries) == entry_records(prev).push(entry_record(e.0, e.1)));
    } else {
        assert(entry_records(entries) == Seq::<RecordView>::empty());
    }
}

/// Appending the frames of `entries` one after another to an empty file,
/// in any order they come, reads back as exactly one record per entry, in
/// the order of appending.
pub proof fn lemma_appends_read_back_in_order(entries: Seq<(Timestamp, Seq<Seq<char>>)>)
    requires
        storable_entries(entries),
    ensures
        parse_text(log_text(entries)) == entry_records(entries),
        parse_text(log_text(entries)).len() == entries.len(),
{
    lemma_log_lines(entries);
    lemma_split_join(log_lines(entries));
}

/// Appending one more frame to a file of whole frames adds exactly its
/// record at the end, and leaves the records before it as they were.
pub proof fn lemma_append_adds_one_record(
    entries: Seq<(Timestamp, Seq<Seq<char>>)>,
    t: Timestamp,
    body: Seq<Seq<char>>,
)
    requires
        storable_entries(entries),
        t.wf(),
        storable_body(body),
    ensures
        log_text(entries.push((t, body))) == log_text(entries) + frame_text(t.stamp_text(), body),
        parse_text(log_text(entries.push((t, body)))) == parse_text(log_text(entries)).push(
            entry_record(t, body),
        ),
{
    let all = entries.push((t, body));
    assert(all.drop_last() == entries);
    assert(storable_entries(all)) by {
        assert forall|i: int| 0 <= i < all.len() implies (#[trigger] all[i]).0.wf()
            && storable_body(all[i].1) by {
            if i < entries.len() {
                assert(all[i] == entries[i]);
            }
        }
    }
    lemma_appends_read_back_in_order(entries);
    lemma_appends_read_back_in_order(all);
    assert(entry_records(all) == entry_records(entries).push(entry_record(t, body)));
}

/// Reading is a function of the text alone: two results of `parse` on the
/// same text are the same records.
pub proof fn lemma_parse_repeatable(raw: Seq<char>, first: Seq<Record>, second: Seq<Record>)
    requires
        record_views(first) == parse_text(raw),
        record_views(second) == parse_text(raw),
    ensures
        record_views(first) == record_views(second),
{
}

} // verus!
