use fastq_filter::filter::filter_record;
use fastq_filter::filter::filter_record_with_count;
use fastq_filter::filter::process_adapter_sequence;
use fastq_filter::filter::DropReason;
use fastq_filter::filter::FilterConfig;
use fastq_filter::filter::FilterOutcome;
use fastq_filter::quality::parse_decimal;
use fastq_filter::record::Record;

fn rec(header: &str, sequence: &str, separator: &str, quality: &str) -> Record {
    Record {
        header: header.as_bytes().to_vec(),
        sequence: sequence.as_bytes().to_vec(),
        separator: separator.as_bytes().to_vec(),
        quality: quality.as_bytes().to_vec(),
    }
}

fn cfg(min_quality: &str, min_length: usize, adapter: Option<&str>) -> FilterConfig {
    FilterConfig {
        min_quality: parse_decimal(min_quality.as_bytes()).unwrap(),
        min_length,
        adapter: adapter.map(|a| a.as_bytes().to_vec()),
        min_adapter_match: 4,
        max_mismatches: 0,
        max_indels: 0,
    }
}

#[test]
fn keeps_a_passing_record_unchanged() {
    let r = rec("@r1_40", "ACGTACGT", "+x", "IIIIIIII");
    match filter_record(&r, &cfg("7.0", 5, None)) {
        FilterOutcome::Kept(k) => {
            assert_eq!(k.header, r.header);
            assert_eq!(k.sequence, r.sequence);
            assert_eq!(k.separator, r.separator);
            assert_eq!(k.quality, r.quality);
        },
        _ => panic!("record should be kept"),
    }
}

#[test]
fn drops_low_quality() {
    let r = rec("@r1_3.5", "ACGTACGT", "+", "IIIIIIII");
    assert!(matches!(
        filter_record(&r, &cfg("7.0", 5, None)),
        FilterOutcome::Dropped(DropReason::LowQuality)
    ));
}

#[test]
fn drops_short_sequences() {
    let r = rec("@r1_40", "ACG", "+", "III");
    assert!(matches!(
        filter_record(&r, &cfg("7.0", 5, None)),
        FilterOutcome::Dropped(DropReason::TooShort)
    ));
}

#[test]
fn drops_malformed_headers() {
    let r = rec("no_underscore_here", "ACGTACGT", "+", "IIIIIIII");
    assert!(matches!(
        filter_record(&r, &cfg("7.0", 5, None)),
        FilterOutcome::Dropped(DropReason::MalformedHeader)
    ));
}

#[test]
fn quality_equal_to_threshold_passes() {
    let r = rec("@r1_7.0", "ACGTACGT", "+", "IIIIIIII");
    assert!(matches!(filter_record(&r, &cfg("7", 5, None)), FilterOutcome::Kept(_)));
}

// Split correctness: the adapter ACGT is found at offset 4 of
// AAAAACGTGGGGG (the alignment starts at the A that opens the ACGT match),
// so the parts are AAAA and ACGTGGGGG, suffixed _part1 and _part2 with a
// normalized + separator.
#[test]
fn split_keeps_both_parts_when_long_enough() {
    let r = rec("@r_50", "AAAAACGTGGGGG", "+", "0123456789ABC");
    match filter_record(&r, &cfg("7", 3, Some("ACGT"))) {
        FilterOutcome::KeptSplit(parts) => {
            assert_eq!(parts.len(), 2);
            assert_eq!(parts[0].header, b"@r_50_part1".to_vec());
            assert_eq!(parts[0].sequence, b"AAAA".to_vec());
            assert_eq!(parts[0].separator, b"+".to_vec());
            assert_eq!(parts[0].quality, b"0123".to_vec());
            assert_eq!(parts[1].header, b"@r_50_part2".to_vec());
            assert_eq!(parts[1].sequence, b"ACGTGGGGG".to_vec());
            assert_eq!(parts[1].separator, b"+".to_vec());
            assert_eq!(parts[1].quality, b"456789ABC".to_vec());
        },
        _ => panic!("record should be split"),
    }
}

#[test]
fn split_drops_a_short_part_alone() {
    let r = rec("@r_50", "AAAAACGTGGGGG", "+", "0123456789ABC");
    let (kept, dropped) = filter_record_with_count(&r, &cfg("7", 6, Some("ACGT")));
    assert_eq!(kept.len(), 1);
    assert_eq!(kept[0].sequence, b"ACGTGGGGG".to_vec());
    assert_eq!(dropped, 1);
}

#[test]
fn split_drops_both_short_parts() {
    let r = rec("@r_50", "AAAAACGTGGGGG", "+", "0123456789ABC");
    assert!(matches!(
        filter_record(&r, &cfg("7", 10, Some("ACGT"))),
        FilterOutcome::Dropped(DropReason::PostTrimTooShort)
    ));
    let (kept, dropped) = filter_record_with_count(&r, &cfg("7", 10, Some("ACGT")));
    assert_eq!(kept.len(), 0);
    assert_eq!(dropped, 2);
}

#[test]
fn no_adapter_found_keeps_record_with_header_untouched() {
    let r = rec("@r_50", "AAAAAAAAAAAAA", "+", "IIIIIIIIIIIII");
    match filter_record(&r, &cfg("7", 3, Some("ACGT"))) {
        FilterOutcome::Kept(k) => assert_eq!(k.header, b"@r_50".to_vec()),
        _ => panic!("record without the adapter should be kept unchanged"),
    }
}

#[test]
fn adapter_at_offset_zero_yields_one_part() {
    // The adapter opens the read: part 1 is empty and silently left out,
    // part 2 is the whole read under a _part2 header.
    let r = rec("@r_50", "ACGTGGGGG", "+", "IIIIIIIII");
    match filter_record(&r, &cfg("7", 3, Some("ACGT"))) {
        FilterOutcome::KeptSplit(parts) => {
            assert_eq!(parts.len(), 1);
            assert_eq!(parts[0].header, b"@r_50_part2".to_vec());
            assert_eq!(parts[0].sequence, b"ACGTGGGGG".to_vec());
        },
        _ => panic!("record should be split"),
    }
}

#[test]
fn process_adapter_sequence_splits_or_passes_through() {
    let r = rec("@r_50", "AAAAACGTGGGGG", "+", "0123456789ABC");
    let parts = process_adapter_sequence(&r, b"ACGT", 4, 0, 0);
    assert_eq!(parts.len(), 2);
    assert_eq!(parts[0].sequence, b"AAAA".to_vec());
    assert_eq!(parts[1].sequence, b"ACGTGGGGG".to_vec());

    let clean = rec("@r_50", "TTTTTTTT", "+", "IIIIIIII");
    let passed = process_adapter_sequence(&clean, b"ACGT", 4, 0, 0);
    assert_eq!(passed.len(), 1);
    assert_eq!(passed[0].header, b"@r_50".to_vec());
    assert_eq!(passed[0].sequence, b"TTTTTTTT".to_vec());
}

// Split parts inherit the parent's quality decision: a part's header ends
// in _part1/_part2, which is not a numeric token, and the part survives on
// its length alone.
#[test]
fn split_parts_are_not_requalified() {
    let r = rec("@r_50", "AAAAACGTGGGGG", "+", "0123456789ABC");
    let (kept, dropped) = filter_record_with_count(&r, &cfg("7", 3, Some("ACGT")));
    assert_eq!(kept.len(), 2);
    assert_eq!(dropped, 0);
    assert!(kept[0].header.ends_with(b"_part1"));
}
