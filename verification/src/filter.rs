//! Per-record filtering: quality and length thresholds, and optional
//! adapter-based splitting.
//!
//! A record is dropped when its header carries no parseable quality token,
//! when its quality is below the threshold, or when its sequence is shorter
//! than the minimum length.  Otherwise, with no adapter configured, it is
//! kept unchanged.  With an adapter configured, a detected adapter position
//! splits sequence and quality there; each non-empty part survives on its
//! own when it is long enough, with the header suffixed `_part1` or
//! `_part2` and the separator normalized to `+`.  Split parts inherit the
//! parent's quality decision: the quality score describes the whole read,
//! so it is not re-extracted for parts.

use vstd::prelude::*;
use vstd::slice::slice_subrange;
use vstd::slice::slice_to_vec;
use crate::align::lemma_detect_pos_bound;
use crate::align::detect_adapter_position;
use crate::align::spec_detect_adapter;
use crate::quality::get_quality_value;
use crate::quality::quality_of;
use crate::quality::Decimal;
use crate::record::record_views;
use crate::record::Record;
use crate::record::RecordView;

verus! {

/// The parameters of one filtering run, as the caller hands them in.
pub struct FilterConfig {
    /// Minimum quality score a record's header must carry.
    pub min_quality: Decimal,
    /// Minimum sequence length, for whole records and for split parts.
    pub min_length: usize,
    /// Adapter to detect and split at, when configured.
    pub adapter: Option<Vec<u8>>,
    /// Minimum adapter overlap for a detection to count.
    pub min_adapter_match: usize,
    /// Mismatch budget of the adapter alignment.
    pub max_mismatches: usize,
    /// Indel budget of the adapter alignment.
    pub max_indels: usize,
}

/// The mathematical value of a `FilterConfig`.
pub ghost struct FilterConfigView {
    /// The quality threshold, times `pow10(18)`.
    pub min_quality_scaled: int,
    pub min_length: int,
    pub adapter: Option<Seq<u8>>,
    pub min_adapter_match: int,
    pub max_mismatches: int,
    pub max_indels: int,
}

impl View for FilterConfig {
    type V = FilterConfigView;

    open spec fn view(&self) -> FilterConfigView {
        FilterConfigView {
            min_quality_scaled: self.min_quality.scaled as int,
            min_length: self.min_length as int,
            adapter: match self.adapter {
                Some(a) => Some(a@),
                None => None,
            },
            min_adapter_match: self.min_adapter_match as int,
            max_mismatches: self.max_mismatches as int,
            max_indels: self.max_indels as int,
        }
    }
}

/// Why a record, or all of a record's split parts, left the output.
#[derive(Clone, Copy, Debug, PartialEq, Eq, Structural)]
pub enum DropReason {
    /// Quality score below the threshold.
    LowQuality,
    /// Sequence shorter than the minimum length.
    TooShort,
    /// Header without a parseable trailing quality token.
    MalformedHeader,
    /// An adapter was found, but no split part was long enough.
    PostTrimTooShort,
}

/// What the filter decides for one record.
pub enum FilterOutcome {
    /// The record passes unchanged.
    Kept(Record),
    /// An adapter was found; these split parts survive.
    KeptSplit(Vec<Record>),
    /// Nothing of the record survives.
    Dropped(DropReason),
}

/// The mathematical value of a `FilterOutcome`.
pub ghost enum FilterOutcomeView {
    Kept(RecordView),
    KeptSplit(Seq<RecordView>),
    Dropped(DropReason),
}

impl View for FilterOutcome {
    type V = FilterOutcomeView;

    open spec fn view(&self) -> FilterOutcomeView {
        match self {
            FilterOutcome::Kept(r) => FilterOutcomeView::Kept(r@),
            FilterOutcome::KeptSplit(v) => FilterOutcomeView::KeptSplit(record_views(v@)),
            FilterOutcome::Dropped(d) => FilterOutcomeView::Dropped(*d),
        }
    }
}

/// Where the quality line is cut for a split at `pos`: at `pos`, or at its
/// own end when it is shorter — a quality line shorter than its sequence is
/// not well-formed FASTQ, but it must not break the run.
pub open spec fn quality_cut(rv: RecordView, pos: int) -> int {
    if pos <= rv.quality.len() {
        pos
    } else {
        rv.quality.len() as int
    }
}

/// The part of a record before a split position: header suffixed `_part1`,
/// separator normalized to `+`.
pub open spec fn split_part1(rv: RecordView, pos: int) -> RecordView {
    RecordView {
        header: rv.header + seq![95u8, 112u8, 97u8, 114u8, 116u8, 49u8],
        sequence: rv.sequence.take(pos),
        separator: seq![43u8],
        quality: rv.quality.take(quality_cut(rv, pos)),
    }
}

/// The part of a record from a split position on: header suffixed `_part2`,
/// separator normalized to `+`.
pub open spec fn split_part2(rv: RecordView, pos: int) -> RecordView {
    RecordView {
        header: rv.header + seq![95u8, 112u8, 97u8, 114u8, 116u8, 50u8],
        sequence: rv.sequence.skip(pos),
        separator: seq![43u8],
        quality: rv.quality.skip(quality_cut(rv, pos)),
    }
}

/// The non-empty parts of a record split at `pos`: either, both or neither
/// of part 1 and part 2, an empty part silently left out.
pub open spec fn spec_split_parts(rv: RecordView, pos: int) -> Seq<RecordView> {
    let p1: Seq<RecordView> = if pos > 0 {
        seq![split_part1(rv, pos)]
    } else {
        Seq::empty()
    };
    let p2: Seq<RecordView> = if pos < rv.sequence.len() {
        seq![split_part2(rv, pos)]
    } else {
        Seq::empty()
    };
    p1 + p2
}

/// What adapter processing yields for a record: the record's non-empty
/// split parts when an adapter is detected, the record itself otherwise.
pub open spec fn spec_adapter_parts(
    rv: RecordView,
    adapter: Seq<u8>,
    min_match: int,
    max_mismatches: int,
    max_indels: int,
) -> Seq<RecordView> {
    match spec_detect_adapter(rv.sequence, adapter, min_match, max_mismatches, max_indels) {
        Some(pos) => spec_split_parts(rv, pos),
        None => seq![rv],
    }
}

/// Split parts long enough to survive on their own.
pub open spec fn long_enough(min_length: int) -> spec_fn(RecordView) -> bool {
    |p: RecordView| p.sequence.len() >= min_length
}

/// What the filter decides for a record: drop it for a malformed header,
/// low quality or a short sequence — in that order of reasons — and
/// otherwise keep it, either unchanged or as its long-enough split parts.
pub open spec fn spec_filter_outcome(rv: RecordView, cfg: FilterConfigView) -> FilterOutcomeView {
    match quality_of(rv.header) {
        None => FilterOutcomeView::Dropped(DropReason::MalformedHeader),
        Some(q) => {
            if q < cfg.min_quality_scaled {
                FilterOutcomeView::Dropped(DropReason::LowQuality)
            } else if rv.sequence.len() < cfg.min_length {
                FilterOutcomeView::Dropped(DropReason::TooShort)
            } else {
                match cfg.adapter {
                    None => FilterOutcomeView::Kept(rv),
                    Some(a) => {
                        match spec_detect_adapter(
                            rv.sequence,
                            a,
                            cfg.min_adapter_match,
                            cfg.max_mismatches,
                            cfg.max_indels,
                        ) {
                            None => FilterOutcomeView::Kept(rv),
                            Some(pos) => {
                                let kept = spec_split_parts(rv, pos).filter(
                                    long_enough(cfg.min_length),
                                );
                                if kept.len() > 0 {
                                    FilterOutcomeView::KeptSplit(kept)
                                } else {
                                    FilterOutcomeView::Dropped(DropReason::PostTrimTooShort)
                                }
                            },
                        }
                    },
                }
            }
        },
    }
}

/// The records a single record contributes to the output.
pub open spec fn spec_record_outputs(rv: RecordView, cfg: FilterConfigView) -> Seq<RecordView> {
    match spec_filter_outcome(rv, cfg) {
        FilterOutcomeView::Kept(r) => seq![r],
        FilterOutcomeView::KeptSplit(v) => v,
        FilterOutcomeView::Dropped(_) => Seq::empty(),
    }
}

/// How much a single record adds to the filtered count: one for a dropped
/// record, and one for each split part that was dropped as too short.
pub open spec fn spec_record_filtered(rv: RecordView, cfg: FilterConfigView) -> int {
    match spec_filter_outcome(rv, cfg) {
        FilterOutcomeView::Kept(_) => 0,
        FilterOutcomeView::KeptSplit(v) => spec_all_parts(rv, cfg).len() - v.len(),
        FilterOutcomeView::Dropped(DropReason::PostTrimTooShort) => spec_all_parts(
            rv,
            cfg,
        ).len() as int,
        FilterOutcomeView::Dropped(_) => 1,
    }
}

/// The non-empty split parts behind a `KeptSplit` or `PostTrimTooShort`
/// outcome, before the length check.
pub open spec fn spec_all_parts(rv: RecordView, cfg: FilterConfigView) -> Seq<RecordView> {
    match cfg.adapter {
        Some(a) => spec_adapter_parts(
            rv,
            a,
            cfg.min_adapter_match,
            cfg.max_mismatches,
            cfg.max_indels,
        ),
        None => seq![rv],
    }
}

/// What the aligner's machine limit asks of a record: with an adapter
/// configured, its sequence must fit the alignment matrix.
pub open spec fn record_admissible(rv: RecordView, cfg: FilterConfigView) -> bool {
    match cfg.adapter {
        None => true,
        Some(_) => rv.sequence.len() <= 0x1000_0000,
    }
}

/// What the aligner's machine limit asks of the configuration.
pub open spec fn config_admissible(cfg: FilterConfigView) -> bool {
    match cfg.adapter {
        Some(a) => a.len() <= 0x1000_0000,
        None => true,
    }
}

/// Split a record at an adapter position: sequence and quality are cut at
/// `pos` (the quality at its own end when it is shorter), each non-empty
/// part gets the parent header with `_part1` or `_part2` appended and a `+`
/// separator.
fn split_at_adapter(r: &Record, pos: usize) -> (out: Vec<Record>)
    requires
        pos <= r.sequence@.len(),
    ensures
        record_views(out@) == spec_split_parts(r@, pos as int),
{
    let qpos: usize = if pos <= r.quality.len() {
        pos
    } else {
        r.quality.len()
    };
    let mut out: Vec<Record> = Vec::new();
    if pos > 0 {
        let mut header = slice_to_vec(r.header.as_slice());
        header.push(95u8);
        header.push(112u8);
        header.push(97u8);
        header.push(114u8);
        header.push(116u8);
        header.push(49u8);
        proof {
            assert(header@ =~= r@.header + seq![95u8, 112u8, 97u8, 114u8, 116u8, 49u8]);
        }
        out.push(
            Record {
                header,
                sequence: slice_to_vec(slice_subrange(r.sequence.as_slice(), 0, pos)),
                separator: {
                    let mut sep: Vec<u8> = Vec::new();
                    sep.push(43u8);
                    sep
                },
                quality: slice_to_vec(slice_subrange(r.quality.as_slice(), 0, qpos)),
            },
        );
    }
    if pos < r.sequence.len() {
        let mut header = slice_to_vec(r.header.as_slice());
        header.push(95u8);
        header.push(112u8);
        header.push(97u8);
        header.push(114u8);
        header.push(116u8);
        header.push(50u8);
        proof {
            assert(header@ =~= r@.header + seq![95u8, 112u8, 97u8, 114u8, 116u8, 50u8]);
        }
        out.push(
            Record {
                header,
                sequence: slice_to_vec(
                    slice_subrange(r.sequence.as_slice(), pos, r.sequence.len()),
                ),
                separator: {
                    let mut sep: Vec<u8> = Vec::new();
                    sep.push(43u8);
                    sep
                },
                quality: slice_to_vec(slice_subrange(r.quality.as_slice(), qpos, r.quality.len())),
            },
        );
    }
    proof {
        assert(record_views(out@) =~= spec_split_parts(r@, pos as int));
    }
    out
}

/// Adapter processing for one record, as the filter applies it: detect the
/// adapter in the sequence and split there; without a detection, hand the
/// record back unchanged.
pub fn process_adapter_sequence(
    r: &Record,
    adapter: &[u8],
    min_match: usize,
    max_mismatches: usize,
    max_indels: usize,
) -> (out: Vec<Record>)
    requires
        r.sequence@.len() <= 0x1000_0000,
        adapter@.len() <= 0x1000_0000,
    ensures
        record_views(out@) == spec_adapter_parts(
            r@,
            adapter@,
            min_match as int,
            max_mismatches as int,
            max_indels as int,
        ),
{
    match detect_adapter_position(
        r.sequence.as_slice(),
        adapter,
        min_match,
        max_mismatches,
        max_indels,
    ) {
        Some(pos) => {
            proof {
                lemma_detect_pos_bound(
                    r.sequence@,
                    adapter@,
                    min_match as int,
                    max_mismatches as int,
                    max_indels as int,
                );
            }
            split_at_adapter(r, pos)
        },
        None => {
            let mut out: Vec<Record> = Vec::new();
            out.push(r.duplicate());
            proof {
                assert(record_views(out@) =~= seq![r@]);
            }
            out
        },
    }
}

/// Apply the filter to one record: extract the quality from the header,
/// check it and the sequence length against the thresholds, and — when an
/// adapter is configured and found — split the record and keep the parts
/// that are long enough.
pub fn filter_record(r: &Record, cfg: &FilterConfig) -> (out: FilterOutcome)
    requires
        record_admissible(r@, cfg@),
        config_admissible(cfg@),
    ensures
        out@ == spec_filter_outcome(r@, cfg@),
{
    let q = match get_quality_value(r.header.as_slice()) {
        Ok(q) => q,
        Err(_) => {
            return FilterOutcome::Dropped(DropReason::MalformedHeader);
        },
    };
    if q.scaled < cfg.min_quality.scaled {
        return FilterOutcome::Dropped(DropReason::LowQuality);
    }
    if r.sequence.len() < cfg.min_length {
        return FilterOutcome::Dropped(DropReason::TooShort);
    }
    let adapter = match &cfg.adapter {
        None => {
            return FilterOutcome::Kept(r.duplicate());
        },
        Some(a) => a,
    };
    let pos = match detect_adapter_position(
        r.sequence.as_slice(),
        adapter.as_slice(),
        cfg.min_adapter_match,
        cfg.max_mismatches,
        cfg.max_indels,
    ) {
        None => {
            return FilterOutcome::Kept(r.duplicate());
        },
        Some(pos) => pos,
    };
    proof {
        lemma_detect_pos_bound(
            r.sequence@,
            adapter@,
            cfg.min_adapter_match as int,
            cfg.max_mismatches as int,
            cfg.max_indels as int,
        );
    }
    let parts = split_at_adapter(r, pos);
    let (kept, _dropped) = keep_long_parts(&parts, cfg.min_length);
    if kept.len() > 0 {
        FilterOutcome::KeptSplit(kept)
    } else {
        FilterOutcome::Dropped(DropReason::PostTrimTooShort)
    }
}

/// Keep the parts whose sequence is long enough, and count the dropped
/// ones.
fn keep_long_parts(parts: &Vec<Record>, min_length: usize) -> (r: (Vec<Record>, usize))
    ensures
        record_views(r.0@) == record_views(parts@).filter(long_enough(min_length as int)),
        r.1 as int == parts@.len() - record_views(r.0@).len(),
{
    let ghost pviews = record_views(parts@);
    let mut kept: Vec<Record> = Vec::new();
    let mut dropped: usize = 0;
    let mut k: usize = 0;
    proof {
        reveal(Seq::filter);
        assert(pviews.take(0) =~= Seq::<RecordView>::empty());
        assert(record_views(kept@) =~= pviews.take(0).filter(long_enough(min_length as int)));
    }
    while k < parts.len()
        invariant
            k <= parts@.len(),
            record_views(parts@) == pviews,
            record_views(kept@) == pviews.take(k as int).filter(long_enough(min_length as int)),
            dropped as int == k as int - record_views(kept@).len(),
        decreases parts@.len() - k,
    {
        let ghost prev = record_views(kept@);
        proof {
            reveal(Seq::filter);
            assert(pviews.take(k as int + 1).drop_last() =~= pviews.take(k as int));
            assert(pviews.take(k as int + 1).last() == pviews[k as int]);
            assert(pviews[k as int] == parts@[k as int]@);
        }
        if parts[k].sequence.len() >= min_length {
            kept.push(parts[k].duplicate());
            proof {
                assert(record_views(kept@) =~= prev.push(pviews[k as int]));
            }
        } else {
            dropped = dropped + 1;
        }
        k = k + 1;
    }
    proof {
        assert(pviews.take(parts@.len() as int) =~= pviews);
    }
    (kept, dropped)
}

/// How much one record adds to the filtered count never exceeds its number
/// of split parts, which is at most two.
pub proof fn lemma_record_filtered_bounds(rv: RecordView, cfg: FilterConfigView)
    ensures
        0 <= spec_record_filtered(rv, cfg) <= 2,
{
    match spec_filter_outcome(rv, cfg) {
        FilterOutcomeView::KeptSplit(v) => {
            spec_all_parts(rv, cfg).lemma_filter_len(long_enough(cfg.min_length));
        },
        _ => {},
    }
}

/// Apply the filter to one record and report its contribution to the run:
/// the records it adds to the output, and how much it adds to the filtered
/// count — one for a dropped record, one for each split part dropped as too
/// short.
pub fn filter_record_with_count(r: &Record, cfg: &FilterConfig) -> (out: (Vec<Record>, usize))
    requires
        record_admissible(r@, cfg@),
        config_admissible(cfg@),
    ensures
        record_views(out.0@) == spec_record_outputs(r@, cfg@),
        out.1 as int == spec_record_filtered(r@, cfg@),
{
    let q = match get_quality_value(r.header.as_slice()) {
        Ok(q) => q,
        Err(_) => {
            return (Vec::new(), 1);
        },
    };
    if q.scaled < cfg.min_quality.scaled {
        return (Vec::new(), 1);
    }
    if r.sequence.len() < cfg.min_length {
        return (Vec::new(), 1);
    }
    let adapter = match &cfg.adapter {
        None => {
            let mut out: Vec<Record> = Vec::new();
            out.push(r.duplicate());
            proof {
                assert(record_views(out@) =~= seq![r@]);
            }
            return (out, 0);
        },
        Some(a) => a,
    };
    let pos = match detect_adapter_position(
        r.sequence.as_slice(),
        adapter.as_slice(),
        cfg.min_adapter_match,
        cfg.max_mismatches,
        cfg.max_indels,
    ) {
        None => {
            let mut out: Vec<Record> = Vec::new();
            out.push(r.duplicate());
            proof {
                assert(record_views(out@) =~= seq![r@]);
            }
            return (out, 0);
        },
        Some(pos) => pos,
    };
    proof {
        lemma_detect_pos_bound(
            r.sequence@,
            adapter@,
            cfg.min_adapter_match as int,
            cfg.max_mismatches as int,
            cfg.max_indels as int,
        );
    }
    let parts = split_at_adapter(r, pos);
    let (kept, dropped) = keep_long_parts(&parts, cfg.min_length);
    (kept, dropped)
}

} // verus!
