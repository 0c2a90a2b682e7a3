//! The file of jobs comes apart, line by line, as it was put together.

use vstd::prelude::*;
use vstd::string::*;
use vstd::utf8::{encode_scalar, encode_utf8, is_ascii_chars_encode_utf8};

use crate::jobs::{job_line, lemma_encode_concat, snapshot, JobView};
use crate::json::{json_escape, json_escapes, json_string};
use crate::scheduler::{snapshot_rows, written_rows};
use crate::text::{decimal, split_bytes_on};

verus! {

/// Whether a text is all on one line.
pub open spec fn one_line(s: Seq<char>) -> bool {
    forall|i: int| 0 <= i < s.len() ==> #[trigger] s[i] != '\n'
}

proof fn lemma_one_line_concat(a: Seq<char>, b: Seq<char>)
    requires
        one_line(a),
        one_line(b),
    ensures
        one_line(a + b),
{
    assert forall|i: int| 0 <= i < (a + b).len() implies #[trigger] (a + b)[i] != '\n' by {
        if i < a.len() {
            assert((a + b)[i] == a[i]);
        } else {
            assert((a + b)[i] == b[i - a.len()]);
        }
    }
}

proof fn lemma_escape_one_line(c: char)
    ensures
        one_line(json_escape(c)),
{
}

proof fn lemma_escapes_one_line(s: Seq<char>)
    ensures
        one_line(json_escapes(s)),
    decreases s.len(),
{
    if s.len() > 0 {
        lemma_escapes_one_line(s.skip(1));
        lemma_escape_one_line(s[0]);
        lemma_one_line_concat(json_escape(s[0]), json_escapes(s.skip(1)));
    }
}

proof fn lemma_json_one_line(s: Seq<char>)
    ensures
        one_line(json_string(s)),
{
    lemma_escapes_one_line(s);
    lemma_one_line_concat(seq!['"'], json_escapes(s));
    lemma_one_line_concat(seq!['"'] + json_escapes(s), seq!['"']);
}

proof fn lemma_decimal_one_line(n: nat)
    ensures
        one_line(decimal(n)),
    decreases n,
{
    if n >= 10 {
        lemma_decimal_one_line(n / 10);
    }
}

/// The record of a job is all on one line, whatever its texts hold.
pub proof fn a_record_is_one_line(job: JobView)
    ensures
        one_line(job_line(job)),
{
    reveal_strlit("{\"job_id\":");
    reveal_strlit(",\"project_dir\":");
    reveal_strlit(",\"harness_id\":");
    reveal_strlit(",\"time_budget_secs\":");
    reveal_strlit(",\"state\":");
    reveal_strlit("}");
    lemma_json_one_line(job.job_id);
    lemma_json_one_line(job.project_dir);
    lemma_json_one_line(job.harness_id);
    lemma_json_one_line(job.state.word());
    lemma_decimal_one_line(job.time_budget_secs as nat);
    let a = "{\"job_id\":"@;
    let b = a + json_string(job.job_id);
    lemma_one_line_concat(a, json_string(job.job_id));
    let c = b + ",\"project_dir\":"@;
    lemma_one_line_concat(b, ",\"project_dir\":"@);
    let d = c + json_string(job.project_dir);
    lemma_one_line_concat(c, json_string(job.project_dir));
    let e = d + ",\"harness_id\":"@;
    lemma_one_line_concat(d, ",\"harness_id\":"@);
    let f = e + json_string(job.harness_id);
    lemma_one_line_concat(e, json_string(job.harness_id));
    let g = f + ",\"time_budget_secs\":"@;
    lemma_one_line_concat(f, ",\"time_budget_secs\":"@);
    let h = g + decimal(job.time_budget_secs as nat);
    lemma_one_line_concat(g, decimal(job.time_budget_secs as nat));
    let i = h + ",\"state\":"@;
    lemma_one_line_concat(h, ",\"state\":"@);
    let j = i + json_string(job.state.word());
    lemma_one_line_concat(i, json_string(job.state.word()));
    lemma_one_line_concat(j, "}"@);
}

/// Whether bytes hold no line feed.
spec fn no_feed(b: Seq<u8>) -> bool {
    forall|i: int| 0 <= i < b.len() ==> #[trigger] b[i] != 10
}

proof fn lemma_scalar_no_feed(c: char)
    requires
        c != '\n',
    ensures
        no_feed(encode_scalar(c as u32)),
{
    let s = c as u32;
    assert(s != 10);
    assert(s != 10 && s <= 0x7F ==> (s & 0x7F) as u8 != 10) by (bit_vector);
    assert(0xC0u8 | ((s >> 6) & 0x1F) as u8 != 10) by (bit_vector);
    assert(0xE0u8 | ((s >> 12) & 0x0F) as u8 != 10) by (bit_vector);
    assert(0xF0u8 | ((s >> 18) & 0x7) as u8 != 10) by (bit_vector);
    assert(0x80u8 | (s & 0x3F) as u8 != 10) by (bit_vector);
    assert(0x80u8 | ((s >> 6) & 0x3F) as u8 != 10) by (bit_vector);
    assert(0x80u8 | ((s >> 12) & 0x3F) as u8 != 10) by (bit_vector);
}

proof fn lemma_encode_no_feed(s: Seq<char>)
    requires
        one_line(s),
    ensures
        no_feed(encode_utf8(s)),
    decreases s.len(),
{
    if s.len() > 0 {
        lemma_encode_no_feed(s.drop_first());
        lemma_scalar_no_feed(s[0]);
    }
}

proof fn lemma_split_row(b: Seq<u8>, row: Seq<u8>)
    requires
        no_feed(row),
    ensures
        split_bytes_on(b, 10).len() > 0,
        split_bytes_on(b + row, 10) == split_bytes_on(b, 10).drop_last().push(
            split_bytes_on(b, 10).last() + row,
        ),
    decreases row.len(), b.len(),
{
    if row.len() == 0 {
        lemma_split_some(b);
        assert(b + row =~= b);
        let rows = split_bytes_on(b, 10);
        assert(rows.last() + row =~= rows.last());
        assert(rows.drop_last().push(rows.last()) =~= rows);
    } else {
        let head = row.drop_last();
        lemma_split_row(b, head);
        assert((b + row).drop_last() =~= b + head);
        assert((b + row).last() == row.last());
        let rows = split_bytes_on(b, 10);
        let before = split_bytes_on(b + head, 10);
        assert(before.drop_last() =~= rows.drop_last());
        assert((rows.last() + head).push(row.last()) =~= rows.last() + row);
    }
}

proof fn lemma_split_some(b: Seq<u8>)
    ensures
        split_bytes_on(b, 10).len() > 0,
    decreases b.len(),
{
    if b.len() > 0 {
        lemma_split_some(b.drop_last());
    }
}

/// The bytes of the lines of `jobs`.
pub open spec fn job_rows(jobs: Seq<JobView>) -> Seq<Seq<u8>> {
    Seq::new(jobs.len(), |i: int| encode_utf8(job_line(jobs[i])))
}

proof fn lemma_split_snapshot(jobs: Seq<JobView>)
    ensures
        split_bytes_on(encode_utf8(snapshot(jobs)), 10) == job_rows(jobs).push(Seq::empty()),
    decreases jobs.len(),
{
    if jobs.len() == 0 {
        assert(encode_utf8(snapshot(jobs)) =~= Seq::empty());
        assert(split_bytes_on(encode_utf8(snapshot(jobs)), 10) =~= job_rows(jobs).push(
            Seq::empty(),
        ));
    } else {
        let fore = jobs.drop_last();
        lemma_split_snapshot(fore);
        let head = snapshot(fore);
        let line = job_line(jobs.last());
        lemma_encode_concat(head + line, "\n"@);
        lemma_encode_concat(head, line);
        reveal_strlit("\n");
        is_ascii_chars_encode_utf8("\n"@);
        let before = encode_utf8(head);
        let row = encode_utf8(line);
        let feed = encode_utf8("\n"@);
        assert(feed =~= seq![10u8]);
        a_record_is_one_line(jobs.last());
        lemma_encode_no_feed(line);
        lemma_split_row(before, row);
        let all = before + row + feed;
        assert(all == encode_utf8(snapshot(jobs)));
        assert(all.drop_last() =~= before + row);
        assert(all.last() == 10);
        let rows = split_bytes_on(before, 10);
        assert(rows.drop_last() =~= job_rows(fore));
        assert(rows.last() + row =~= row);
        assert(job_rows(fore).push(row) =~= job_rows(jobs));
    }
}

/// The file of jobs has one line for each job, in order: reading its lines gives back the
/// records that were written, each with its length.
pub proof fn the_file_comes_apart_into_its_records(jobs: Seq<JobView>)
    ensures
        snapshot_rows(encode_utf8(snapshot(jobs))) == job_rows(jobs),
        forall|i: int|
            0 <= i < jobs.len() ==> (#[trigger] written_rows(jobs)[i]).length == job_rows(
                jobs,
            )[i].len(),
{
    lemma_split_snapshot(jobs);
    assert(job_rows(jobs).push(Seq::<u8>::empty()).drop_last() =~= job_rows(jobs));
}

} // verus!
