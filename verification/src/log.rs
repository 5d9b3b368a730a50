//! Processing of a whole decoded log: extract a record from every line
//! that matches the grammar, and note the lines that look like findings
//! (they carry the `[File]` marker) yet failed to parse.

use vstd::prelude::*;

use crate::cluster::{appears, recs_view};
use crate::snaffler_record::{
    contains_file_marker, contains_marker, parse_line_spec, RecordView, SnafflerRecord,
};

verus! {

/// The views of a sequence of lines, in order.
pub open spec fn lines_view(ls: Seq<String>) -> Seq<Seq<char>> {
    Seq::new(ls.len(), |i: int| ls[i]@)
}

/// The records of the lines that match the grammar, in line order.
pub open spec fn parsed_records(lines: Seq<Seq<char>>) -> Seq<RecordView>
    decreases lines.len(),
{
    if lines.len() == 0 {
        Seq::empty()
    } else {
        let rest = parsed_records(lines.drop_last());
        match parse_line_spec(lines.last()) {
            Some(r) => rest.push(r),
            None => rest,
        }
    }
}

/// A line worth surfacing as a diagnostic: it carries the `[File]` marker
/// yet does not match the grammar.
pub open spec fn is_warn_line(s: Seq<char>) -> bool {
    parse_line_spec(s) is None && contains_marker(s)
}

/// What processing a log yields: the extracted records, and the indices of
/// the lines worth a diagnostic.
pub struct LoadOutcome {
    /// The records of the lines that matched the grammar, in line order.
    pub records: Vec<SnafflerRecord>,
    /// Indices of the lines that carry the `[File]` marker yet failed to
    /// parse, in increasing order.
    pub unparsed_file_lines: Vec<usize>,
}

/// Process the decoded lines of a log, in order: extract a record from
/// each line that matches the grammar, and collect the indices of the
/// lines that look like findings yet failed to parse. Lines without the
/// marker that fail to parse are silently dropped; no line ever aborts the
/// run.
#[verifier::loop_isolation(false)]
pub fn process_lines(lines: &Vec<String>) -> (out: LoadOutcome)
    ensures
        recs_view(out.records@) == parsed_records(lines_view(lines@)),
        forall|p: int, q: int|
            0 <= p < q < out.unparsed_file_lines@.len() ==> out.unparsed_file_lines@[p]
                < out.unparsed_file_lines@[q],
        forall|p: int|
            0 <= p < out.unparsed_file_lines@.len() ==> (#[trigger] out.unparsed_file_lines@[p])
                < lines@.len() && is_warn_line(lines_view(lines@)[out.unparsed_file_lines@[p] as int]),
        forall|i: int|
            0 <= i < lines@.len() && is_warn_line(#[trigger] lines_view(lines@)[i]) ==> appears(
                out.unparsed_file_lines@,
                i,
            ),
{
    let ghost lv = lines_view(lines@);
    let mut records: Vec<SnafflerRecord> = Vec::new();
    let mut warns: Vec<usize> = Vec::new();
    let mut i: usize = 0;
    proof {
        assert(lv.subrange(0, 0) =~= Seq::<Seq<char>>::empty());
        assert(recs_view(records@) =~= parsed_records(lv.subrange(0, 0)));
    }
    while i < lines.len()
        invariant
            i <= lines@.len(),
            recs_view(records@) == parsed_records(lv.subrange(0, i as int)),
            forall|p: int, q: int| 0 <= p < q < warns@.len() ==> warns@[p] < warns@[q],
            forall|p: int|
                0 <= p < warns@.len() ==> (#[trigger] warns@[p]) < i && is_warn_line(
                    lv[warns@[p] as int],
                ),
            forall|i2: int|
                0 <= i2 < i && is_warn_line(#[trigger] lv[i2]) ==> appears(warns@, i2),
        decreases lines@.len() - i,
    {
        let ghost old_records = records@;
        let ghost old_warns = warns@;
        let line = &lines[i];
        match SnafflerRecord::from_str(line.as_str()) {
            Ok(rec) => {
                records.push(rec);
                proof {
                    assert(recs_view(records@) =~= recs_view(old_records).push(rec@));
                }
            },
            Err(_) => {
                if contains_file_marker(line.as_str()) {
                    warns.push(i);
                }
            },
        }
        proof {
            assert(lv.subrange(0, i + 1).drop_last() =~= lv.subrange(0, i as int));
            assert(lv.subrange(0, i + 1).last() == lv[i as int]);
            assert forall|i2: int|
                0 <= i2 < i + 1 && is_warn_line(#[trigger] lv[i2]) implies appears(warns@, i2) by {
                if i2 == i {
                    if is_warn_line(lv[i2]) {
                        assert(warns@.last() == i);
                        assert(warns@[warns@.len() - 1] == i2);
                    }
                } else {
                    assert(appears(old_warns, i2));
                    let p0 = choose|p: int|
                        0 <= p < old_warns.len() && #[trigger] old_warns[p] == i2;
                    assert(warns@[p0] == i2);
                }
            }
        }
        i += 1;
    }
    proof {
        assert(lv.subrange(0, lines@.len() as int) =~= lv);
    }
    LoadOutcome { records, unparsed_file_lines: warns }
}

} // verus!
