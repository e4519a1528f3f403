use std::io::Read;
use std::io::Write;

use fastq_filter::filter::FilterConfig;
use fastq_filter::gzip::decode_input;
use fastq_filter::pipeline::encode_output;
use fastq_filter::pipeline::filter_fastq_by_quality_and_length;
use fastq_filter::pipeline::process_batch;
use fastq_filter::pipeline::process_chunk;
use fastq_filter::pipeline::RunStats;
use fastq_filter::quality::parse_decimal;
use fastq_filter::record::join_lines;
use fastq_filter::record::records_from_lines;
use fastq_filter::record::split_lines;
use fastq_filter::record::FormatError;

fn cfg(min_quality: &str, min_length: usize, adapter: Option<&str>) -> FilterConfig {
    FilterConfig {
        min_quality: parse_decimal(min_quality.as_bytes()).unwrap(),
        min_length,
        adapter: adapter.map(|a| a.as_bytes().to_vec()),
        min_adapter_match: 4,
        max_mismatches: 0,
        max_indels: 0,
    }
}

fn lines_of(text: &str) -> Vec<Vec<u8>> {
    split_lines(text.as_bytes())
}

fn gunzip(data: &[u8]) -> Vec<u8> {
    let mut out = Vec::new();
    flate2::read::GzDecoder::new(data).read_to_end(&mut out).expect("output must be gzip");
    out
}

const SAMPLE: &str = "@keep1_40\nACGTACGTAA\n+\nIIIIIIIIII\n\
@low_2.5\nACGTACGTAA\n+\nIIIIIIIIII\n\
@short_40\nACG\n+\nIII\n\
no_numeric_tail\nACGTACGTAA\n+\nIIIIIIIIII\n\
@keep2_9.25\nTTTTTTTTTT\n+\nJJJJJJJJJJ\n";

const SAMPLE_KEPT: &str = "@keep1_40\nACGTACGTAA\n+\nIIIIIIIIII\n\
@keep2_9.25\nTTTTTTTTTT\n+\nJJJJJJJJJJ\n";

// A record is kept only if its header quality reaches min_quality and its
// sequence reaches min_length; everything else counts as filtered.
#[test]
fn kept_records_pass_both_gates() {
    let (gz, stats) =
        filter_fastq_by_quality_and_length(&lines_of(SAMPLE), &cfg("7.0", 5, None), 10).unwrap();
    assert_eq!(stats.total, 5);
    assert_eq!(stats.filtered, 3);
    assert_eq!(gunzip(&gz), SAMPLE_KEPT.as_bytes().to_vec());
}

// Order preservation: kept records appear in input order, whatever the
// chunking of the batch.
#[test]
fn output_preserves_input_order_for_any_chunking() {
    let records = records_from_lines(&lines_of(SAMPLE)).unwrap();
    let (seq_out, seq_stats) = process_chunk(&records, &cfg("7.0", 5, None));
    let headers: Vec<&[u8]> = seq_out.iter().map(|r| r.header.as_slice()).collect();
    assert_eq!(headers, vec![b"@keep1_40".as_slice(), b"@keep2_9.25".as_slice()]);
    for chunk_size in [1, 2, 3, 100] {
        let (out, stats) = process_batch(&records, chunk_size, &cfg("7.0", 5, None));
        assert_eq!(out.len(), seq_out.len());
        for (a, b) in out.iter().zip(seq_out.iter()) {
            assert_eq!(a.header, b.header);
            assert_eq!(a.sequence, b.sequence);
        }
        assert_eq!(stats, seq_stats);
    }
}

// Idempotence: filtering already-filtered output with the same thresholds
// yields it unchanged, and drops nothing a second time.
#[test]
fn refiltering_filtered_output_changes_nothing() {
    let config = cfg("7.0", 5, None);
    let (gz, _) = filter_fastq_by_quality_and_length(&lines_of(SAMPLE), &config, 10).unwrap();
    let first = gunzip(&gz);
    let (gz2, stats2) =
        filter_fastq_by_quality_and_length(&split_lines(&first), &config, 10).unwrap();
    assert_eq!(stats2.filtered, 0);
    assert_eq!(gunzip(&gz2), first);
}

// Batch-size invariance: total and filtered counts (and the output itself)
// are identical for batch sizes 1, intermediate, and larger than the input.
#[test]
fn counts_do_not_depend_on_batch_size() {
    let config = cfg("7.0", 5, None);
    let mut seen: Option<(Vec<u8>, RunStats)> = None;
    for batch_size in [1, 3, 1000] {
        let (gz, stats) =
            filter_fastq_by_quality_and_length(&lines_of(SAMPLE), &config, batch_size).unwrap();
        let plain = gunzip(&gz);
        match &seen {
            None => seen = Some((plain, stats)),
            Some((p, s)) => {
                assert_eq!(&plain, p);
                assert_eq!(&stats, s);
            },
        }
    }
}

// Truncated input: a final record of fewer than four lines is a fatal
// format error, and no output is produced for the run.
#[test]
fn truncated_input_aborts_with_format_error() {
    let mut text = String::from(SAMPLE);
    text.push_str("@late_40\nACGTACGT\n+\n"); // quality line missing
    let r = filter_fastq_by_quality_and_length(&lines_of(&text), &cfg("7.0", 5, None), 10);
    assert!(matches!(r, Err(FormatError::Truncated)));
    assert!(matches!(
        records_from_lines(&lines_of(&text)),
        Err(FormatError::Truncated)
    ));
}

#[test]
fn adapter_splitting_shows_up_in_output_and_counts() {
    let text = "@r_50\nAAAAACGTGGGGG\n+\n0123456789ABC\n";
    let (gz, stats) =
        filter_fastq_by_quality_and_length(&lines_of(text), &cfg("7", 6, Some("ACGT")), 10)
            .unwrap();
    assert_eq!(stats.total, 1);
    assert_eq!(stats.filtered, 1); // the short AAAA part fell
    let expected = "@r_50_part2\nACGTGGGGG\n+\n456789ABC\n";
    assert_eq!(gunzip(&gz), expected.as_bytes().to_vec());
}

#[test]
fn zero_surviving_parts_mean_empty_output_and_two_filtered() {
    let text = "@r_50\nAAAAACGTGGGGG\n+\n0123456789ABC\n";
    let (gz, stats) =
        filter_fastq_by_quality_and_length(&lines_of(text), &cfg("7", 10, Some("ACGT")), 10)
            .unwrap();
    assert_eq!(stats.total, 1);
    assert_eq!(stats.filtered, 2);
    assert_eq!(gunzip(&gz), Vec::<u8>::new());
}

#[test]
fn gzip_input_is_decoded_transparently() {
    let mut enc = flate2::write::GzEncoder::new(Vec::new(), flate2::Compression::default());
    enc.write_all(SAMPLE.as_bytes()).unwrap();
    let compressed = enc.finish().unwrap();
    let lines = decode_input(&compressed).unwrap();
    assert_eq!(lines, lines_of(SAMPLE));
}

#[test]
fn plain_input_is_read_verbatim() {
    let lines = decode_input(SAMPLE.as_bytes()).unwrap();
    assert_eq!(lines, lines_of(SAMPLE));
}

#[test]
fn corrupt_gzip_input_is_fatal() {
    let garbage: Vec<u8> = vec![0x1f, 0x8b, 0xff, 0x00, 0x12, 0x34];
    assert!(matches!(decode_input(&garbage), Err(FormatError::UnreadableInput)));
}

#[test]
fn encode_output_round_trips_records() {
    let records = records_from_lines(&lines_of(SAMPLE_KEPT)).unwrap();
    let gz = encode_output(&records);
    assert_eq!(gunzip(&gz), SAMPLE_KEPT.as_bytes().to_vec());
}

#[test]
fn line_splitting_handles_crlf_and_missing_final_newline() {
    assert_eq!(split_lines(b"a\r\nb\nc"), vec![b"a".to_vec(), b"b".to_vec(), b"c".to_vec()]);
    assert_eq!(split_lines(b""), Vec::<Vec<u8>>::new());
    assert_eq!(split_lines(b"x\n"), vec![b"x".to_vec()]);
    assert_eq!(split_lines(b"\n\n"), vec![Vec::new(), Vec::new()]);
    assert_eq!(join_lines(&[b"a".to_vec(), b"b".to_vec()]), b"a\nb\n".to_vec());
}

#[test]
fn stats_add_is_componentwise() {
    let a = RunStats { total: 3, filtered: 1 };
    let b = RunStats { total: 4, filtered: 2 };
    let c = RunStats { total: 5, filtered: 0 };
    let left = a.add(&b).add(&c);
    let right = a.add(&b.add(&c));
    assert_eq!(left, right);
    assert_eq!(left.total, 12);
    assert_eq!(left.filtered, 3);
}

#[test]
fn empty_input_yields_empty_output() {
    let (gz, stats) =
        filter_fastq_by_quality_and_length(&Vec::new(), &cfg("7.0", 5, None), 10).unwrap();
    assert_eq!(stats, RunStats { total: 0, filtered: 0 });
    assert_eq!(gunzip(&gz), Vec::<u8>::new());
}

#[test]
fn separator_lines_pass_through_when_not_splitting() {
    let text = "@r_40\nACGTACGTAA\n+custom comment\nIIIIIIIIII\n";
    let (gz, _) =
        filter_fastq_by_quality_and_length(&lines_of(text), &cfg("7.0", 5, None), 10).unwrap();
    assert_eq!(gunzip(&gz), text.as_bytes().to_vec());
}

fn big_record(i: usize, quality: f64) -> String {
    format!("@r{}_{}\nACGTACGTAA\n+\nIIIIIIIIII\n", i, quality)
}

#[test]
fn randomized_records_respect_the_gates() {
    // A deterministic spread of qualities around the threshold.
    let mut text = String::new();
    let mut expected_kept = 0usize;
    for i in 0..50 {
        let q = (i as f64) * 0.5; // 0.0, 0.5, ..., 24.5
        text.push_str(&big_record(i, q));
        if q >= 7.0 {
            expected_kept += 1;
        }
    }
    let (gz, stats) =
        filter_fastq_by_quality_and_length(&lines_of(&text), &cfg("7.0", 5, None), 7).unwrap();
    assert_eq!(stats.total, 50);
    assert_eq!(stats.filtered, 50 - expected_kept);
    let plain = gunzip(&gz);
    let kept_records = records_from_lines(&split_lines(&plain)).unwrap();
    assert_eq!(kept_records.len(), expected_kept);
}
