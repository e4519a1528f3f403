//! The batched filtering pipeline: pull records in bounded batches, filter
//! every record, merge per-chunk results in input order, account totals,
//! and frame the surviving records as one gzip stream.
//!
//! Work may be fanned out over contiguous chunks of a batch: merging the
//! per-chunk outputs in chunk order yields exactly the sequential result
//! (`lemma_outputs_concat`), so neither the chunking nor the batch size can
//! change the output or the counts.

use vstd::prelude::*;
use crate::filter::config_admissible;
use crate::filter::filter_record_with_count;
use crate::filter::lemma_record_filtered_bounds;
use crate::filter::record_admissible;
use crate::filter::spec_record_filtered;
use crate::filter::spec_record_outputs;
use crate::filter::FilterConfig;
use crate::filter::FilterConfigView;
use crate::gzip::gunzip_of;
use crate::gzip::gzip_compress;
use crate::quality::quality_of;
use crate::record::byte_lines;
use crate::record::join_lines;
use crate::record::lemma_records_of_len;
use crate::record::lines_of_records;
use crate::record::record_views;
use crate::record::records_from_lines;
use crate::record::records_of;
use crate::record::records_to_lines;
use crate::record::unlines;
use crate::record::FormatError;
use crate::record::Record;
use crate::record::RecordView;

verus! {

/// The run's counters: records seen, and records or split parts dropped.
#[derive(Clone, Copy, Debug, PartialEq, Eq, Structural)]
pub struct RunStats {
    pub total: usize,
    pub filtered: usize,
}

impl RunStats {
    /// Fresh counters.
    pub fn new() -> (r: RunStats)
        ensures
            r.total == 0,
            r.filtered == 0,
    {
        RunStats { total: 0, filtered: 0 }
    }

    /// Combine two workers' counters: componentwise addition, so the
    /// combination is associative and commutative.
    pub fn add(&self, other: &RunStats) -> (r: RunStats)
        requires
            self.total + other.total <= usize::MAX,
            self.filtered + other.filtered <= usize::MAX,
        ensures
            r.total == self.total + other.total,
            r.filtered == self.filtered + other.filtered,
    {
        RunStats { total: self.total + other.total, filtered: self.filtered + other.filtered }
    }
}

/// Every record within the aligner's machine limit.
pub open spec fn records_admissible(rs: Seq<RecordView>, cfg: FilterConfigView) -> bool {
    forall|i: int| 0 <= i < rs.len() ==> record_admissible(#[trigger] rs[i], cfg)
}

/// The records the input contributes to the output, in input order.
pub open spec fn spec_outputs(rs: Seq<RecordView>, cfg: FilterConfigView) -> Seq<RecordView>
    decreases rs.len(),
{
    if rs.len() == 0 {
        Seq::empty()
    } else {
        spec_outputs(rs.drop_last(), cfg) + spec_record_outputs(rs.last(), cfg)
    }
}

/// How many records and split parts of the input are dropped.
pub open spec fn spec_filtered(rs: Seq<RecordView>, cfg: FilterConfigView) -> int
    decreases rs.len(),
{
    if rs.len() == 0 {
        0
    } else {
        spec_filtered(rs.drop_last(), cfg) + spec_record_filtered(rs.last(), cfg)
    }
}

/// The filtered count of a record list is at most twice its length: a
/// record contributes at most its two split parts.
pub proof fn lemma_filtered_bounds(rs: Seq<RecordView>, cfg: FilterConfigView)
    ensures
        0 <= spec_filtered(rs, cfg) <= 2 * rs.len(),
    decreases rs.len(),
{
    if rs.len() > 0 {
        lemma_filtered_bounds(rs.drop_last(), cfg);
        lemma_record_filtered_bounds(rs.last(), cfg);
    }
}

/// Merging is exact: processing a concatenation of two record lists equals
/// processing each and concatenating the outputs in order, with the counts
/// added.  Chunk fan-out with in-order merge, and any choice of batch size,
/// therefore yield the sequential result.
pub proof fn lemma_outputs_concat(xs: Seq<RecordView>, ys: Seq<RecordView>, cfg: FilterConfigView)
    ensures
        spec_outputs(xs + ys, cfg) == spec_outputs(xs, cfg) + spec_outputs(ys, cfg),
        spec_filtered(xs + ys, cfg) == spec_filtered(xs, cfg) + spec_filtered(ys, cfg),
    decreases ys.len(),
{
    if ys.len() == 0 {
        assert(xs + ys =~= xs);
        assert(spec_outputs(xs, cfg) + spec_outputs(ys, cfg) =~= spec_outputs(xs, cfg));
    } else {
        lemma_outputs_concat(xs, ys.drop_last(), cfg);
        assert((xs + ys).drop_last() =~= xs + ys.drop_last());
        assert((xs + ys).last() == ys.last());
        assert(spec_outputs(xs, cfg) + spec_outputs(ys, cfg) =~= (spec_outputs(xs, cfg)
            + spec_outputs(ys.drop_last(), cfg)) + spec_record_outputs(ys.last(), cfg));
    }
}

/// A record passes the plain quality and length gates: its header carries a
/// quality of at least `min_quality`, and its sequence is at least
/// `min_length` long.
pub open spec fn spec_keeps(rv: RecordView, cfg: FilterConfigView) -> bool {
    match quality_of(rv.header) {
        Some(q) => q >= cfg.min_quality_scaled && rv.sequence.len() >= cfg.min_length,
        None => false,
    }
}

/// The keep predicate as a function value.
pub open spec fn keeps_pred(cfg: FilterConfigView) -> spec_fn(RecordView) -> bool {
    |rv: RecordView| spec_keeps(rv, cfg)
}

/// With no adapter configured, the output is exactly the subsequence of
/// input records that pass the quality and length gates, in input order: a
/// record is kept only if its quality reaches the threshold and its
/// sequence the minimum length, and kept records keep their relative input
/// order — and, by `lemma_outputs_concat`, they do so under any chunking.
/// The filtered count is the number of records that fall.
pub proof fn lemma_no_adapter_outputs(rs: Seq<RecordView>, cfg: FilterConfigView)
    requires
        cfg.adapter is None,
    ensures
        spec_outputs(rs, cfg) == rs.filter(keeps_pred(cfg)),
        spec_filtered(rs, cfg) == rs.len() - rs.filter(keeps_pred(cfg)).len(),
    decreases rs.len(),
{
    reveal(Seq::filter);
    if rs.len() > 0 {
        lemma_no_adapter_outputs(rs.drop_last(), cfg);
        if spec_keeps(rs.last(), cfg) {
            assert(spec_outputs(rs, cfg) =~= rs.drop_last().filter(keeps_pred(cfg)).push(
                rs.last(),
            ));
        } else {
            assert(spec_outputs(rs, cfg) =~= rs.drop_last().filter(keeps_pred(cfg)));
        }
    }
}

/// Every record of the no-adapter output passes both gates.
pub proof fn lemma_kept_record_passes(rs: Seq<RecordView>, cfg: FilterConfigView, i: int)
    requires
        cfg.adapter is None,
        0 <= i < spec_outputs(rs, cfg).len(),
    ensures
        spec_keeps(spec_outputs(rs, cfg)[i], cfg),
        quality_of(spec_outputs(rs, cfg)[i].header) matches Some(q) && q
            >= cfg.min_quality_scaled,
        spec_outputs(rs, cfg)[i].sequence.len() >= cfg.min_length,
{
    lemma_no_adapter_outputs(rs, cfg);
    rs.lemma_filter_pred(keeps_pred(cfg), i);
}

/// Records that all pass the gates pass through unchanged.
proof fn lemma_all_kept_fixed(rs: Seq<RecordView>, cfg: FilterConfigView)
    requires
        cfg.adapter is None,
        forall|i: int| 0 <= i < rs.len() ==> spec_keeps(#[trigger] rs[i], cfg),
    ensures
        spec_outputs(rs, cfg) == rs,
        spec_filtered(rs, cfg) == 0,
    decreases rs.len(),
{
    if rs.len() > 0 {
        assert forall|i: int| 0 <= i < rs.drop_last().len() implies spec_keeps(
            #[trigger] rs.drop_last()[i],
            cfg,
        ) by {
            assert(rs.drop_last()[i] == rs[i]);
        }
        lemma_all_kept_fixed(rs.drop_last(), cfg);
        assert(spec_keeps(rs.last(), cfg));
        assert(spec_outputs(rs, cfg) =~= rs);
    }
}

/// Filtering already-filtered output with the same thresholds yields it
/// unchanged, and nothing is dropped a second time — with no adapter
/// configured.  (With an adapter, the law fails: a split part's `_part1`
/// or `_part2` header suffix is not a quality token, so re-filtering split
/// output drops such parts.)
pub proof fn lemma_filter_idempotent(rs: Seq<RecordView>, cfg: FilterConfigView)
    requires
        cfg.adapter is None,
    ensures
        spec_outputs(spec_outputs(rs, cfg), cfg) == spec_outputs(rs, cfg),
        spec_filtered(spec_outputs(rs, cfg), cfg) == 0,
{
    lemma_no_adapter_outputs(rs, cfg);
    let out = spec_outputs(rs, cfg);
    assert forall|i: int| 0 <= i < out.len() implies spec_keeps(#[trigger] out[i], cfg) by {
        rs.lemma_filter_pred(keeps_pred(cfg), i);
    }
    lemma_all_kept_fixed(out, cfg);
}

/// Filter one contiguous chunk of records, in order: the unit of work one
/// worker performs.  Yields the surviving records and the chunk's counters.
pub fn process_chunk(records: &[Record], cfg: &FilterConfig) -> (r: (Vec<Record>, RunStats))
    requires
        records_admissible(record_views(records@), cfg@),
        config_admissible(cfg@),
        4 * records@.len() <= usize::MAX,
    ensures
        record_views(r.0@) == spec_outputs(record_views(records@), cfg@),
        r.1.total == records@.len(),
        r.1.filtered as int == spec_filtered(record_views(records@), cfg@),
{
    let ghost rvs = record_views(records@);
    let mut out: Vec<Record> = Vec::new();
    let mut filtered: usize = 0;
    let mut i: usize = 0;
    proof {
        assert(rvs.take(0) =~= Seq::<RecordView>::empty());
        assert(record_views(out@) =~= spec_outputs(rvs.take(0), cfg@));
    }
    while i < records.len()
        invariant
            i <= records@.len(),
            rvs == record_views(records@),
            4 * records@.len() <= usize::MAX,
            records_admissible(rvs, cfg@),
            config_admissible(cfg@),
            record_views(out@) == spec_outputs(rvs.take(i as int), cfg@),
            filtered as int == spec_filtered(rvs.take(i as int), cfg@),
            filtered <= 2 * i,
        decreases records@.len() - i,
    {
        proof {
            assert(rvs[i as int] == records@[i as int]@);
        }
        let (mut kept, delta) = filter_record_with_count(&records[i], cfg);
        proof {
            lemma_record_filtered_bounds(rvs[i as int], cfg@);
            assert(delta as int == spec_record_filtered(rvs[i as int], cfg@));
            assert(delta <= 2);
            assert(rvs.take(i as int + 1).drop_last() =~= rvs.take(i as int));
            assert(rvs.take(i as int + 1).last() == rvs[i as int]);
        }
        let ghost prev = record_views(out@);
        let ghost added = record_views(kept@);
        out.append(&mut kept);
        proof {
            assert(record_views(out@) =~= prev + added);
        }
        filtered = filtered + delta;
        i = i + 1;
    }
    proof {
        assert(rvs.take(records@.len() as int) =~= rvs);
    }
    (out, RunStats { total: records.len(), filtered })
}

/// Filter a batch chunk by chunk — contiguous, order-preserving chunks of
/// up to `chunk_size` records — and merge the per-chunk outputs in chunk
/// order, summing the counters.  The result does not depend on
/// `chunk_size`: it always equals the sequential result for the whole
/// batch.
pub fn process_batch(records: &[Record], chunk_size: usize, cfg: &FilterConfig) -> (r: (
    Vec<Record>,
    RunStats,
))
    requires
        chunk_size >= 1,
        records_admissible(record_views(records@), cfg@),
        config_admissible(cfg@),
        4 * records@.len() <= usize::MAX,
    ensures
        record_views(r.0@) == spec_outputs(record_views(records@), cfg@),
        r.1.total == records@.len(),
        r.1.filtered as int == spec_filtered(record_views(records@), cfg@),
{
    let ghost rvs = record_views(records@);
    let mut out: Vec<Record> = Vec::new();
    let mut stats = RunStats::new();
    let mut start: usize = 0;
    proof {
        assert(rvs.take(0) =~= Seq::<RecordView>::empty());
        assert(record_views(out@) =~= spec_outputs(rvs.take(0), cfg@));
    }
    while start < records.len()
        invariant
            start <= records@.len(),
            chunk_size >= 1,
            rvs == record_views(records@),
            4 * records@.len() <= usize::MAX,
            records_admissible(rvs, cfg@),
            config_admissible(cfg@),
            record_views(out@) == spec_outputs(rvs.take(start as int), cfg@),
            stats.total == start,
            stats.filtered as int == spec_filtered(rvs.take(start as int), cfg@),
            stats.filtered <= 2 * start,
        decreases records@.len() - start,
    {
        let end: usize = if records.len() - start < chunk_size {
            records.len()
        } else {
            start + chunk_size
        };
        let chunk = &records[start..end];
        proof {
            assert(record_views(chunk@) =~= rvs.subrange(start as int, end as int));
            assert forall|q: int| 0 <= q < record_views(chunk@).len() implies record_admissible(
                #[trigger] record_views(chunk@)[q],
                cfg@,
            ) by {
                assert(record_views(chunk@)[q] == rvs[start as int + q]);
            }
        }
        let (mut kept, cstats) = process_chunk(chunk, cfg);
        proof {
            lemma_outputs_concat(
                rvs.take(start as int),
                rvs.subrange(start as int, end as int),
                cfg@,
            );
            lemma_filtered_bounds(rvs.subrange(start as int, end as int), cfg@);
            assert(cstats.filtered as int <= 2 * (end - start));
            assert(rvs.take(start as int) + rvs.subrange(start as int, end as int) =~= rvs.take(
                end as int,
            ));
        }
        let ghost prev = record_views(out@);
        let ghost added = record_views(kept@);
        out.append(&mut kept);
        proof {
            assert(record_views(out@) =~= prev + added);
        }
        stats = stats.add(&cstats);
        start = end;
    }
    proof {
        assert(rvs.take(records@.len() as int) =~= rvs);
    }
    (out, stats)
}

/// Serialize surviving records — four lines each, every line terminated by
/// a line feed — into one gzip stream.
pub fn encode_output(records: &[Record]) -> (r: Vec<u8>)
    ensures
        gunzip_of(r@) == Some(unlines(lines_of_records(record_views(records@)))),
{
    let out_lines = records_to_lines(records);
    let bytes = join_lines(out_lines.as_slice());
    gzip_compress(bytes.as_slice())
}

/// The whole run on a decoded line stream: frame the lines into records —
/// a line count that is not a multiple of four aborts the run — filter them
/// in batches of up to `batch_size` records, and gzip the survivors'
/// serialized lines.  Neither the outputs nor the counts depend on
/// `batch_size`.
pub fn filter_fastq_by_quality_and_length(
    lines: &[Vec<u8>],
    cfg: &FilterConfig,
    batch_size: usize,
) -> (r: Result<(Vec<u8>, RunStats), FormatError>)
    requires
        batch_size >= 1,
        config_admissible(cfg@),
        records_admissible(records_of(byte_lines(lines@)), cfg@),
    ensures
        match r {
            Ok(res) => {
                let rs = records_of(byte_lines(lines@));
                &&& lines@.len() % 4 == 0
                &&& gunzip_of(res.0@) == Some(
                    unlines(lines_of_records(spec_outputs(rs, cfg@))),
                )
                &&& res.1.total == rs.len()
                &&& res.1.filtered as int == spec_filtered(rs, cfg@)
            },
            Err(e) => lines@.len() % 4 != 0 && e == FormatError::Truncated,
        },
{
    let records = match records_from_lines(lines) {
        Ok(rs) => rs,
        Err(e) => {
            return Err(e);
        },
    };
    let line_count = lines.len();
    proof {
        lemma_records_of_len(byte_lines(lines@));
        assert(lines@.len() == line_count as int);
        assert(byte_lines(lines@).len() == lines@.len());
        assert(records@.len() == records_of(byte_lines(lines@)).len());
        assert(4 * records@.len() <= lines@.len());
    }
    let (survivors, stats) = process_batch(records.as_slice(), batch_size, cfg);
    let gz = encode_output(survivors.as_slice());
    Ok((gz, stats))
}

} // verus!
