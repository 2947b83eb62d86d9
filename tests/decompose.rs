use genomeshader::alignment::{decompose_record, AlignmentElement, CigarOp, ElementType, ReadRecord};
use genomeshader::extract::{extract_reads, get_rg_to_sm_mapping};
use genomeshader::layout::{annotate_column_widths, layout};

fn s(x: &str) -> String {
    x.to_string()
}

fn record(pos: i64, cigar: Vec<CigarOp>, seq: &str) -> ReadRecord {
    ReadRecord {
        reference_start: pos,
        cigar,
        seq: seq.as_bytes().to_vec(),
        is_reverse: false,
        query_name: s("q"),
        haplotype: 0,
        read_group: None,
    }
}

/// The record of the end-to-end scenario: reverse strand, read group and
/// sample "test", aligned to chr2:66409693-66410667.
fn known_record() -> ReadRecord {
    let cigar = vec![
        CigarOp::SoftClip(3),
        CigarOp::Equal(17),
        CigarOp::Diff(1),
        CigarOp::Equal(5),
        CigarOp::Diff(1),
        CigarOp::Equal(49),
        CigarOp::Diff(1),
        CigarOp::Equal(158),
        CigarOp::Del(69),
        CigarOp::Equal(22),
        CigarOp::Ins(32),
        CigarOp::Equal(40),
        CigarOp::Diff(1),
        CigarOp::Equal(413),
        CigarOp::Diff(1),
        CigarOp::Equal(70),
        CigarOp::SoftClip(3),
    ];
    let mut seq = String::new();
    seq.push_str("GAC");
    seq.push_str(&"N".repeat(17));
    seq.push('G');
    seq.push_str(&"N".repeat(5));
    seq.push('C');
    seq.push_str(&"N".repeat(49));
    seq.push('A');
    seq.push_str(&"N".repeat(158));
    seq.push_str(&"N".repeat(22));
    seq.push_str("TGATGCGCGCCATATAGCGATATATGACTATA");
    seq.push_str(&"N".repeat(40));
    seq.push('C');
    seq.push_str(&"N".repeat(413));
    seq.push('G');
    seq.push_str(&"N".repeat(70));
    seq.push_str("CTG");
    ReadRecord {
        reference_start: 66409754,
        cigar,
        seq: seq.into_bytes(),
        is_reverse: true,
        query_name: s("1"),
        haplotype: 0,
        read_group: Some(s("test")),
    }
}

fn codes(rows: &[AlignmentElement]) -> Vec<u8> {
    rows.iter().map(|e| e.element_type.to_u8()).collect()
}

fn seqs(rows: &[AlignmentElement]) -> Vec<String> {
    rows.iter().map(|e| String::from_utf8(e.sequence.clone()).unwrap()).collect()
}

#[test]
fn known_record_decomposes_into_fourteen_rows() {
    let header = vec![vec![(s("ID"), s("test")), (s("SM"), s("test"))]];
    let samples = get_rg_to_sm_mapping(&header);
    let rows = extract_reads(&vec![known_record()], &samples, &s("chr2"));
    assert_eq!(rows.len(), 14);
    assert_eq!(codes(&rows), vec![0, 4, 4, 4, 1, 1, 1, 3, 2, 1, 1, 4, 4, 4]);
    assert_eq!(
        seqs(&rows),
        vec!["", "G", "A", "C", "G", "C", "A", "", "TGATGCGCGCCATATAGCGATATATGACTATA", "C", "G", "C", "T", "G"]
    );
    let starts: Vec<u32> = rows.iter().map(|e| e.reference_start).collect();
    assert_eq!(
        starts,
        vec![
            66409755, 66409752, 66409753, 66409754, 66409772, 66409778, 66409828, 66409987, 66410077, 66410118,
            66410532, 66410603, 66410604, 66410605
        ]
    );
    let ends: Vec<u32> = rows.iter().map(|e| e.reference_end).collect();
    assert_eq!(
        ends,
        vec![
            66410603, 66409753, 66409754, 66409755, 66409773, 66409779, 66409829, 66410056, 66410078, 66410119,
            66410533, 66410604, 66410605, 66410606
        ]
    );
    for e in &rows {
        assert!(!e.is_forward);
        assert_eq!(e.query_name, "1");
        assert_eq!(e.read_group, "test");
        assert_eq!(e.sample_name, "test");
        assert_eq!(e.reference_contig, "chr2");
    }
    let widths: Vec<u32> = rows.iter().map(|e| e.column_width).collect();
    assert_eq!(widths, vec![1, 1, 1, 1, 1, 1, 1, 69, 32, 1, 1, 1, 1, 1]);
}

#[test]
fn read_row_spans_the_consumed_reference() {
    let rec = known_record();
    let rows = decompose_record(&rec, &s("chr2"), &s("test"), &s("test")).unwrap();
    let consumed: u32 = rec
        .cigar
        .iter()
        .map(|op| match op {
            CigarOp::Match(l) | CigarOp::Equal(l) | CigarOp::Diff(l) | CigarOp::Del(l) | CigarOp::RefSkip(l) => *l,
            _ => 0,
        })
        .sum();
    assert_eq!(rows[0].element_type, ElementType::READ);
    assert_eq!(rows[0].reference_end - rows[0].reference_start, consumed);
    assert_eq!(consumed, 848);
}

#[test]
fn leading_soft_clip_precedes_first_aligned_base() {
    let rec = record(99, vec![CigarOp::SoftClip(2), CigarOp::Match(3), CigarOp::SoftClip(2)], "ABCDEFG");
    let rows = decompose_record(&rec, &s("c"), &s("unknown"), &s("unknown")).unwrap();
    assert_eq!(codes(&rows), vec![0, 4, 4, 4, 4]);
    assert_eq!((rows[0].reference_start, rows[0].reference_end), (100, 103));
    assert_eq!((rows[1].reference_start, rows[1].reference_end), (98, 99));
    assert_eq!((rows[2].reference_start, rows[2].reference_end), (99, 100));
    assert_eq!(seqs(&rows[1..3]), vec!["A", "B"]);
    assert_eq!((rows[3].reference_start, rows[4].reference_start), (103, 104));
    assert_eq!(seqs(&rows[3..5]), vec!["F", "G"]);
}

#[test]
fn soft_clip_after_hard_clip_still_leads() {
    let rec = record(10, vec![CigarOp::HardClip(5), CigarOp::SoftClip(1), CigarOp::Match(2)], "XYZ");
    let rows = decompose_record(&rec, &s("c"), &s("g"), &s("m")).unwrap();
    assert_eq!(codes(&rows), vec![0, 4]);
    assert_eq!(rows[1].reference_start, 10);
}

#[test]
fn insertions_at_both_ends_of_the_read() {
    let rec = record(0, vec![CigarOp::Ins(2), CigarOp::Match(3), CigarOp::Ins(1)], "ABCDEF");
    let rows = decompose_record(&rec, &s("c"), &s("g"), &s("m")).unwrap();
    assert_eq!(codes(&rows), vec![0, 2, 2]);
    assert_eq!(seqs(&rows), vec!["", "AB", "F"]);
    assert_eq!((rows[1].reference_start, rows[1].reference_end), (0, 1));
    assert_eq!((rows[2].reference_start, rows[2].reference_end), (3, 4));
}

#[test]
fn mismatch_runs_give_one_row_per_base_and_skips_give_none() {
    let rec = record(4, vec![CigarOp::Diff(3), CigarOp::RefSkip(10), CigarOp::Del(2), CigarOp::Pad(1)], "XYZ");
    let rows = decompose_record(&rec, &s("c"), &s("g"), &s("m")).unwrap();
    assert_eq!(codes(&rows), vec![0, 1, 1, 1, 3]);
    assert_eq!(seqs(&rows), vec!["", "X", "Y", "Z", ""]);
    assert_eq!((rows[0].reference_start, rows[0].reference_end), (5, 20));
    assert_eq!((rows[4].reference_start, rows[4].reference_end), (18, 20));
}

#[test]
fn zero_length_operations_emit_nothing() {
    let rec = record(0, vec![CigarOp::Ins(0), CigarOp::Del(0), CigarOp::Match(1)], "A");
    let rows = decompose_record(&rec, &s("c"), &s("g"), &s("m")).unwrap();
    assert_eq!(codes(&rows), vec![0]);
}

#[test]
fn records_that_cannot_be_decoded_are_skipped() {
    let short = record(0, vec![CigarOp::Ins(4)], "AB");
    assert!(decompose_record(&short, &s("c"), &s("g"), &s("m")).is_none());
    let clipped_before_zero = record(0, vec![CigarOp::SoftClip(2), CigarOp::Match(1)], "ABC");
    assert!(decompose_record(&clipped_before_zero, &s("c"), &s("g"), &s("m")).is_none());
    let unmapped = record(-1, vec![CigarOp::Match(1)], "A");
    assert!(decompose_record(&unmapped, &s("c"), &s("g"), &s("m")).is_none());
    let too_far = record(4294967290, vec![CigarOp::Match(10)], "");
    assert!(decompose_record(&too_far, &s("c"), &s("g"), &s("m")).is_none());
    let rows = extract_reads(&vec![short, record(1, vec![CigarOp::Match(2)], "")], &vec![], &s("c"));
    assert_eq!(rows.len(), 1);
    assert_eq!((rows[0].reference_start, rows[0].reference_end), (2, 4));
}

#[test]
fn unknown_read_groups_fall_back_to_unknown() {
    let header = vec![
        vec![(s("ID"), s("rg1")), (s("SM"), s("s1"))],
        vec![(s("ID"), s("rg2"))],
        vec![(s("SN"), s("chr1")), (s("LN"), s("100"))],
    ];
    let samples = get_rg_to_sm_mapping(&header);
    assert_eq!(samples, vec![(s("rg1"), s("s1"))]);
    let mut a = record(0, vec![CigarOp::Match(1)], "A");
    a.read_group = Some(s("rg1"));
    let mut b = record(0, vec![CigarOp::Match(1)], "A");
    b.read_group = Some(s("rg2"));
    let c = record(0, vec![CigarOp::Match(1)], "A");
    let rows = extract_reads(&vec![a, b, c], &samples, &s("chr1"));
    let groups: Vec<(String, String)> = rows.iter().map(|e| (e.read_group.clone(), e.sample_name.clone())).collect();
    assert_eq!(
        groups,
        vec![(s("rg1"), s("s1")), (s("unknown"), s("unknown")), (s("unknown"), s("unknown"))]
    );
}

#[test]
fn later_header_lines_win_for_a_repeated_read_group() {
    let header = vec![
        vec![(s("ID"), s("rg")), (s("SM"), s("first"))],
        vec![(s("SM"), s("second")), (s("ID"), s("rg"))],
    ];
    let samples = get_rg_to_sm_mapping(&header);
    let mut a = record(0, vec![CigarOp::Match(1)], "A");
    a.read_group = Some(s("rg"));
    let rows = extract_reads(&vec![a], &samples, &s("chr1"));
    assert_eq!(rows[0].sample_name, "second");
}

#[test]
fn column_width_is_the_widest_element_at_each_position() {
    let r1 = record(9, vec![CigarOp::Match(2), CigarOp::Ins(3), CigarOp::Match(1)], "AACCCA");
    let r2 = record(9, vec![CigarOp::Match(2), CigarOp::Ins(5), CigarOp::Match(1)], "AAGGGGGA");
    let r3 = record(9, vec![CigarOp::Match(1), CigarOp::Del(4), CigarOp::Match(1)], "AA");
    let mut rows = Vec::new();
    for r in [r1, r2, r3] {
        rows.extend(decompose_record(&r, &s("c"), &s("g"), &s("m")).unwrap());
    }
    let mask = layout(&rows);
    assert_eq!(mask.get(&11), Some(&5));
    assert_eq!(mask.get(&12), None);
    annotate_column_widths(&mut rows);
    let widths: Vec<(u8, u32, u32)> = rows.iter().map(|e| (e.element_type.to_u8(), e.reference_start, e.column_width)).collect();
    assert_eq!(
        widths,
        vec![(0, 10, 1), (2, 11, 5), (0, 10, 1), (2, 11, 5), (0, 10, 1), (3, 11, 5)]
    );
}

#[test]
fn deletion_width_is_its_span() {
    let r = record(0, vec![CigarOp::Match(1), CigarOp::Del(7), CigarOp::Match(1)], "AA");
    let rows = extract_reads(&vec![r], &vec![], &s("c"));
    assert_eq!(rows[1].element_type, ElementType::DELETION);
    assert_eq!(rows[1].column_width, 7);
    assert_eq!(rows[0].column_width, 1);
}

#[test]
fn element_codes_round_trip() {
    for k in [ElementType::READ, ElementType::DIFF, ElementType::INSERTION, ElementType::DELETION, ElementType::SOFTCLIP] {
        assert_eq!(ElementType::from_u8(k.to_u8()), Some(k));
    }
    assert_eq!(ElementType::SOFTCLIP.to_u8(), 4);
    assert_eq!(ElementType::from_u8(5), None);
}

#[test]
fn inner_soft_clip_starts_at_the_reference_cursor() {
    let rec = record(
        49,
        vec![CigarOp::Match(2), CigarOp::Del(3), CigarOp::Ins(1), CigarOp::SoftClip(2), CigarOp::Match(1)],
        "ABCDEF",
    );
    let rows = decompose_record(&rec, &s("c"), &s("g"), &s("m")).unwrap();
    assert_eq!(codes(&rows), vec![0, 3, 2, 4, 4]);
    assert_eq!(rows[0].reference_start, 50);
    assert_eq!((rows[3].reference_start, rows[3].reference_end), (55, 56));
    assert_eq!((rows[4].reference_start, rows[4].reference_end), (56, 57));
    assert_eq!(seqs(&rows[3..5]), vec!["D", "E"]);
}
