//! Rebuilding entries from the text of a day's file: a scan over its lines
//! that is either outside or inside a frame.

use vstd::prelude::*;
use crate::framer::{delimiter, stamp_time, is_delimiter, match_timestamp};
use crate::text::{split_lines, split_text_lines, views};

verus! {

/// One entry rebuilt from a frame: the time of day from its timestamp line,
/// if the frame had one, and its body lines.
#[derive(Debug, PartialEq, Eq)]
pub struct Record {
    pub timestamp: Option<String>,
    pub body: Vec<String>,
}

/// A record as values: the time of day, and the body lines.
pub struct RecordView {
    pub timestamp: Option<Seq<char>>,
    pub body: Seq<Seq<char>>,
}

pub open spec fn opt_view(o: Option<String>) -> Option<Seq<char>> {
    match o {
        Some(s) => Some(s@),
        None => None,
    }
}

impl View for Record {
    type V = RecordView;

    open spec fn view(&self) -> RecordView {
        RecordView { timestamp: opt_view(self.timestamp), body: views(self.body@) }
    }
}

pub open spec fn record_views(v: Seq<Record>) -> Seq<RecordView> {
    v.map_values(|r: Record| r@)
}

/// Where the scan stands: outside a frame, or inside one with what it has
/// gathered so far.
pub struct Scan {
    pub inside: bool,
    pub timestamp: Option<Seq<char>>,
    pub body: Seq<Seq<char>>,
}

/// The state at the start, and after each frame.
pub open spec fn outside() -> Scan {
    Scan { inside: false, timestamp: None, body: seq![] }
}

/// Inside a frame, with nothing gathered yet.
pub open spec fn opened() -> Scan {
    Scan { inside: true, timestamp: None, body: seq![] }
}

/// The state after `line`.
pub open spec fn step(st: Scan, line: Seq<char>) -> Scan {
    if !st.inside {
        if line == delimiter() {
            opened()
        } else {
            outside()
        }
    } else if line == delimiter() {
        outside()
    } else if st.timestamp is None && st.body.len() == 0 && stamp_time(line) is Some {
        Scan { inside: true, timestamp: stamp_time(line), body: seq![] }
    } else {
        Scan { inside: true, timestamp: st.timestamp, body: st.body.push(line) }
    }
}

/// The record that `line` completes: the one gathered, where `line` closes
/// a frame.
pub open spec fn emitted(st: Scan, line: Seq<char>) -> Seq<RecordView> {
    if st.inside && line == delimiter() {
        seq![RecordView { timestamp: st.timestamp, body: st.body }]
    } else {
        seq![]
    }
}

/// The records that `lines` complete, starting from `st`. What is gathered
/// when the lines run out is dropped.
pub open spec fn scan(lines: Seq<Seq<char>>, st: Scan) -> Seq<RecordView>
    decreases lines.len(),
{
    if lines.len() == 0 {
        seq![]
    } else {
        emitted(st, lines[0]) + scan(lines.drop_first(), step(st, lines[0]))
    }
}

/// The state after `lines`, starting from `st`.
pub open spec fn scan_end(lines: Seq<Seq<char>>, st: Scan) -> Scan
    decreases lines.len(),
{
    if lines.len() == 0 {
        st
    } else {
        scan_end(lines.drop_first(), step(st, lines[0]))
    }
}

/// The records of a day's file, oldest first.
pub open spec fn parse_text(text: Seq<char>) -> Seq<RecordView> {
    scan(split_lines(text), outside())
}

proof fn lemma_scan_skip(lines: Seq<Seq<char>>, i: int, st: Scan)
    requires
        0 <= i < lines.len(),
    ensures
        scan(lines.skip(i), st) == emitted(st, lines[i]) + scan(
            lines.skip(i + 1),
            step(st, lines[i]),
        ),
{
    assert(lines.skip(i).drop_first() == lines.skip(i + 1));
    assert(lines.skip(i)[0] == lines[i]);
}

/// The records in `raw`, the text of a day's file, oldest first. A frame
/// that the text ends inside of is left out.
pub fn parse(raw: &str) -> (r: Vec<Record>)
    ensures
        record_views(r@) == parse_text(raw@),
{
    let lines = split_text_lines(raw);
    let ghost ls = views(lines@);
    let mut out: Vec<Record> = Vec::new();
    let mut inside = false;
    let mut timestamp: Option<String> = None;
    let mut body: Vec<String> = Vec::new();
    assert(ls.skip(0) == ls);
    assert(record_views(out@) + scan(ls, outside()) == scan(ls, outside()));
    for i in 0..lines.len()
        invariant
            ls == views(lines@),
            ls == split_lines(raw@),
            !inside ==> timestamp is None && body@.len() == 0,
            scan(ls, outside()) == record_views(out@) + scan(
                ls.skip(i as int),
                Scan { inside, timestamp: opt_view(timestamp), body: views(body@) },
            ),
    {
        let ghost st = Scan { inside, timestamp: opt_view(timestamp), body: views(body@) };
        let ghost before = record_views(out@);
        proof {
            lemma_scan_skip(ls, i as int, st);
        }
        let line = &lines[i];
        let delim = is_delimiter(line.as_str());
        if !inside {
            if delim {
                inside = true;
            }
            proof {
                assert(views(body@) == Seq::<Seq<char>>::empty());
            }
        } else if delim {
            out.push(Record { timestamp, body });
            inside = false;
            timestamp = None;
            body = Vec::new();
            proof {
                assert(record_views(out@) == before + emitted(st, ls[i as int]));
                assert(views(body@) == Seq::<Seq<char>>::empty());
            }
        } else if timestamp.is_none() && body.len() == 0 {
            match match_timestamp(line.as_str()) {
                Some(t) => {
                    timestamp = Some(t);
                    proof {
                        assert(views(body@) == Seq::<Seq<char>>::empty());
                    }
                },
                None => {
                    body.push(line.clone());
                    proof {
                        assert(views(body@) == st.body.push(ls[i as int]));
                    }
                },
            }
        } else {
            body.push(line.clone());
            proof {
                assert(views(body@) == st.body.push(ls[i as int]));
            }
        }
        proof {
            assert(Scan { inside, timestamp: opt_view(timestamp), body: views(body@) } == step(
                st,
                ls[i as int],
            ));
        }
    }
    proof {
        assert(ls.skip(ls.len() as int) == Seq::<Seq<char>>::empty());
        assert(record_views(out@) + Seq::<RecordView>::empty() == record_views(out@));
    }
    out
}

/// A record as lines: its time of day first, where it has one, then its
/// body lines.
pub open spec fn record_lines(r: RecordView) -> Seq<Seq<char>> {
    match r.timestamp {
        Some(t) => seq![t] + r.body,
        None => r.body,
    }
}

/// The records in `feedback`, the text of a day's file, oldest first, each
/// as its lines: the time of day first, where it has one, then the body
/// lines.
pub fn parse_feedback(feedback: &str) -> (r: Result<Vec<Vec<String>>, String>)
    ensures
        r matches Ok(v) && v@.len() == parse_text(feedback@).len() && forall|i: int|
            0 <= i < v@.len() ==> views((#[trigger] v@[i])@) == record_lines(
                parse_text(feedback@)[i],
            ),
{
    let records = parse(feedback);
    let ghost rv = parse_text(feedback@);
    let mut out: Vec<Vec<String>> = Vec::new();
    for i in 0..records.len()
        invariant
            record_views(records@) == rv,
            out@.len() == i,
            forall|k: int| 0 <= k < i ==> views((#[trigger] out@[k])@) == record_lines(rv[k]),
    {
        let rec = &records[i];
        assert(rec@ == rv[i as int]);
        let mut lines: Vec<String> = Vec::new();
        match &rec.timestamp {
            Some(t) => lines.push(t.clone()),
            None => {},
        }
        let ghost head = views(lines@);
        for j in 0..rec.body.len()
            invariant
                views(lines@) == head + views(rec.body@).take(j as int),
        {
            let ghost before = views(lines@);
            let line = rec.body[j].clone();
            assert(line@ == views(rec.body@)[j as int]);
            lines.push(line);
            assert(views(lines@) =~= before.push(line@));
            assert(views(rec.body@).take(j + 1) =~= views(rec.body@).take(j as int).push(line@));
            assert(views(lines@) =~= head + views(rec.body@).take(j + 1));
        }
        assert(views(rec.body@).take(rec.body.len() as int) == views(rec.body@));
        assert(views(lines@) =~= record_lines(rv[i as int]));
        out.push(lines);
    }
    Ok(out)
}

/// The records of a day whose file held `contents`; a day with no file
/// has none.
pub fn records_of_day(contents: Option<&str>) -> (r: Vec<Record>)
    ensures
        contents is None ==> r@.len() == 0,
        contents matches Some(text) ==> record_views(r@) == parse_text(text@),
{
    match contents {
        Some(text) => parse(text),
        None => Vec::new(),
    }
}

} // verus!
