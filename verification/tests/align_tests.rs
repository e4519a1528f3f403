use fastq_filter::align::detect_adapter_position;
use fastq_filter::align::smith_waterman_align;

// Alignment correctness: a perfect adapter occurrence is found; the
// earliest best-scoring cell wins, so the first of two occurrences is
// reported.
#[test]
fn perfect_match_is_found_at_first_occurrence() {
    assert_eq!(detect_adapter_position(b"ACGTACGTAA", b"ACGT", 4, 0, 0), Some(0));
}

#[test]
fn no_common_characters_yields_none() {
    assert_eq!(detect_adapter_position(b"TTTTTTTT", b"ACG", 3, 0, 0), None);
}

#[test]
fn alignment_reports_start_and_end() {
    // (start row, end row, start column, end column)
    assert_eq!(smith_waterman_align(b"AC", b"AC", 0, 0), Some((0, 2, 0, 2)));
    assert_eq!(smith_waterman_align(b"GGACGTGG", b"ACGT", 0, 0), Some((2, 6, 0, 4)));
}

#[test]
fn empty_sides_align_to_nothing() {
    assert_eq!(smith_waterman_align(b"", b"ACGT", 0, 0), None);
    assert_eq!(smith_waterman_align(b"ACGT", b"", 0, 0), None);
}

#[test]
fn mismatch_budget_gates_detection() {
    // The read carries the adapter with one mismatch in the middle:
    // ACAT against ACGT.
    let read = b"GGGGACATGGGG";
    assert_eq!(detect_adapter_position(read, b"ACGT", 4, 1, 0), Some(4));
    assert_eq!(detect_adapter_position(read, b"ACGT", 4, 0, 0), None);
}

#[test]
fn short_adapters_are_ignored() {
    // The adapter is shorter than the required overlap.
    assert_eq!(detect_adapter_position(b"ACGTACGTAA", b"ACG", 4, 0, 0), None);
}

#[test]
fn aligned_span_must_reach_min_match() {
    // Only three adapter columns align, below the required four.
    assert_eq!(detect_adapter_position(b"GGGACGGGG", b"ACGT", 4, 0, 0), None);
}
