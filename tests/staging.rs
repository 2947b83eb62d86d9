use genomeshader::alignment::{AlignmentElement, ElementType};
use genomeshader::cache::{
    artifact_file_name, cache_read_step, cache_write_step, fingerprint, from_columns, locus_should_be_fetched,
    mirror_uri, to_columns, CacheError, CacheReadAction, CacheWriteAction, ColumnsError,
};
use genomeshader::locus::{parse_locus, Locus, LocusError};
use genomeshader::session::{rows_for_locus, rows_in_range, Session, SessionError};
use genomeshader::stage::{
    next_open_attempt, open_bam_step, stage_data_from_all_files, OpenAction, OpenAttempt, SourceFile, StageError,
    TableRow,
};
use genomeshader::storage::{file_name_of, files_of_type, gcs_split_path};

fn s(x: &str) -> String {
    x.to_string()
}

fn row(source: &str, start: u32, end: u32, kind: ElementType, seq: &str) -> TableRow {
    TableRow {
        cohort: s("cohort"),
        bam_path: s(source),
        element: AlignmentElement {
            reference_contig: s("chr15"),
            reference_start: start,
            reference_end: end,
            is_forward: true,
            query_name: s("r"),
            haplotype: 1,
            read_group: s("rg"),
            sample_name: s("sm"),
            element_type: kind,
            sequence: seq.as_bytes().to_vec(),
            column_width: 1,
        },
    }
}

fn paths(rows: &[TableRow]) -> Vec<String> {
    rows.iter().map(|r| r.bam_path.clone()).collect()
}

#[test]
fn partial_failure_keeps_the_successful_sources_in_order() {
    let outcomes = vec![
        Some(vec![vec![row("a.bam", 1, 5, ElementType::READ, ""), row("a.bam", 2, 3, ElementType::DIFF, "G")]]),
        None,
        Some(vec![vec![row("c.bam", 4, 9, ElementType::READ, "")]]),
    ];
    let tables = stage_data_from_all_files(&outcomes, 1).unwrap();
    assert_eq!(tables.len(), 1);
    assert_eq!(paths(&tables[0]), vec!["a.bam", "a.bam", "c.bam"]);
    assert!(!tables[0].is_empty());
}

#[test]
fn a_batch_fails_only_when_every_source_failed() {
    let outcomes: Vec<Option<Vec<Vec<TableRow>>>> = vec![None, None, None];
    assert_eq!(stage_data_from_all_files(&outcomes, 1).err(), Some(StageError::TotalFailure));
    let none: Vec<Option<Vec<Vec<TableRow>>>> = vec![];
    assert_eq!(stage_data_from_all_files(&none, 1).err(), Some(StageError::TotalFailure));
    let empty_success = vec![None, Some(vec![vec![], vec![]])];
    let tables = stage_data_from_all_files(&empty_success, 2).unwrap();
    assert_eq!(tables.len(), 2);
    assert!(tables[0].is_empty() && tables[1].is_empty());
}

#[test]
fn opening_retries_with_credentials_then_trust_store() {
    assert_eq!(open_bam_step(OpenAttempt::Plain, true), OpenAction::Proceed);
    assert_eq!(open_bam_step(OpenAttempt::Plain, false), OpenAction::RefreshCredentials);
    assert_eq!(open_bam_step(OpenAttempt::AfterCredentialRefresh, false), OpenAction::UseFallbackTrustStore);
    assert_eq!(open_bam_step(OpenAttempt::AfterTrustStoreFallback, false), OpenAction::GiveUp);
    assert_eq!(open_bam_step(OpenAttempt::AfterTrustStoreFallback, true), OpenAction::Proceed);
    assert_eq!(next_open_attempt(OpenAction::RefreshCredentials), Some(OpenAttempt::AfterCredentialRefresh));
    assert_eq!(next_open_attempt(OpenAction::UseFallbackTrustStore), Some(OpenAttempt::AfterTrustStoreFallback));
    assert_eq!(next_open_attempt(OpenAction::GiveUp), None);
}

#[test]
fn columns_round_trip_keeps_every_row() {
    let rows = vec![
        row("a.bam", 10, 20, ElementType::READ, ""),
        row("a.bam", 12, 13, ElementType::SOFTCLIP, "T"),
        row("b.bam", 15, 19, ElementType::DELETION, ""),
        row("b.bam", 14, 15, ElementType::INSERTION, "ACGT"),
    ];
    let cols = to_columns(&rows);
    assert_eq!(cols.element_type, vec![0, 4, 3, 2]);
    let back = from_columns(&cols).unwrap();
    assert_eq!(back.len(), rows.len());
    for (x, y) in back.iter().zip(rows.iter()) {
        assert_eq!(x.cohort, y.cohort);
        assert_eq!(x.bam_path, y.bam_path);
        let (a, b) = (&x.element, &y.element);
        assert_eq!(
            (&a.reference_contig, a.reference_start, a.reference_end, a.is_forward, &a.query_name, a.haplotype),
            (&b.reference_contig, b.reference_start, b.reference_end, b.is_forward, &b.query_name, b.haplotype)
        );
        assert_eq!((&a.read_group, &a.sample_name, a.element_type, &a.sequence, a.column_width),
            (&b.read_group, &b.sample_name, b.element_type, &b.sequence, b.column_width));
    }
}

#[test]
fn malformed_columns_are_refused() {
    let rows = vec![row("a.bam", 10, 20, ElementType::READ, "")];
    let mut ragged = to_columns(&rows);
    ragged.sequence.push(vec![]);
    assert_eq!(from_columns(&ragged).err(), Some(ColumnsError::Ragged));
    let mut bad = to_columns(&rows);
    bad.element_type[0] = 9;
    assert_eq!(from_columns(&bad).err(), Some(ColumnsError::BadElementType));
}

#[test]
fn loci_parse_with_commas_and_single_positions() {
    let l = parse_locus("chr15:23,960,193-23,963,918").unwrap();
    assert_eq!((l.contig.as_str(), l.start, l.stop), ("chr15", 23960193, 23963918));
    let p = parse_locus("chr1:5000").unwrap();
    assert_eq!((p.contig.as_str(), p.start, p.stop), ("chr1", 4000, 6000));
    let near = parse_locus("chrM:500").unwrap();
    assert_eq!((near.start, near.stop), (0, 1500));
    let plus = parse_locus("chr2:+10-20").unwrap();
    assert_eq!((plus.start, plus.stop), (10, 20));
}

#[test]
fn malformed_loci_are_refused() {
    assert_eq!(parse_locus("chr1").err(), Some(LocusError::Format));
    assert_eq!(parse_locus("chr1:1-2-3").err(), Some(LocusError::Format));
    assert_eq!(parse_locus("chr1:x-5").err(), Some(LocusError::Start));
    assert_eq!(parse_locus("chr1:-5").err(), Some(LocusError::Start));
    assert_eq!(parse_locus("chr1:5-y").err(), Some(LocusError::Stop));
    assert_eq!(parse_locus("chr1:5-5").err(), Some(LocusError::Empty));
    assert_eq!(parse_locus("chr1:18446744073709551615").err(), Some(LocusError::Start));
    assert_eq!(parse_locus("chr1:1-18446744073709551616").err(), Some(LocusError::Stop));
}

fn sources(urls: &[&str]) -> Vec<SourceFile> {
    urls.iter().map(|u| SourceFile { url: s(u), cohort: s("c") }).collect()
}

#[test]
fn fingerprint_ignores_order_and_repetition() {
    let a = fingerprint(&sources(&["gs://b/x.bam", "gs://b/y.bam"]));
    let b = fingerprint(&sources(&["gs://b/y.bam", "gs://b/x.bam", "gs://b/y.bam"]));
    let c = fingerprint(&sources(&["gs://b/x.bam"]));
    assert_eq!(a, b);
    assert_ne!(a, c);
    assert_eq!(fingerprint(&vec![]), 0xcbf29ce484222325);
    assert_eq!(fingerprint(&sources(&["a"])), 477529426072558635);
}

#[test]
fn artifact_names_follow_the_cache_key() {
    let l = Locus { contig: s("chr15"), start: 23960193, stop: 23963918 };
    assert_eq!(artifact_file_name(&l, 42), "chr15_23960193_23963918_42.parquet");
    let z = Locus { contig: s("chrX"), start: 0, stop: 10 };
    assert_eq!(artifact_file_name(&z, 18446744073709551615), "chrX_0_10_18446744073709551615.parquet");
    assert_eq!(mirror_uri(&s("gs://bucket/cache"), &s("a.parquet")), "gs://bucket/cache/a.parquet");
    assert_eq!(mirror_uri(&s("gs://bucket/cache/"), &s("a.parquet")), "gs://bucket/cache/a.parquet");
}

#[test]
fn cache_paths_read_local_then_mirror_then_extract() {
    assert_eq!(cache_read_step(false, true, true), CacheReadAction::LoadLocal);
    assert_eq!(cache_read_step(false, false, true), CacheReadAction::DownloadFromMirror);
    assert_eq!(cache_read_step(true, false, true), CacheReadAction::Extract);
    assert_eq!(cache_read_step(false, false, false), CacheReadAction::Extract);
    assert_eq!(cache_write_step(false, true), Err(CacheError::LocalWrite));
    assert_eq!(cache_write_step(true, true), Ok(CacheWriteAction::UploadToMirror));
    assert_eq!(cache_write_step(true, false), Ok(CacheWriteAction::Done));
}

#[test]
fn stale_cached_tables_are_fetched_again() {
    let requested = sources(&["a.bam", "b.bam"]);
    assert!(locus_should_be_fetched(false, &vec![], &requested));
    assert!(!locus_should_be_fetched(true, &vec![s("b.bam"), s("a.bam"), s("a.bam")], &requested));
    assert!(locus_should_be_fetched(true, &vec![s("a.bam")], &requested));
    assert!(locus_should_be_fetched(true, &vec![s("a.bam"), s("b.bam"), s("z.bam")], &requested));
}

#[test]
fn staging_twice_fetches_once() {
    let mut session = Session::new();
    session.attach_reads(&vec![s("gs://bucket/a.bam"), s("gs://bucket/b.cram")], &s("cohort")).unwrap();
    session.attach_loci(&vec![s("chr15:23,960,193-23,963,918"), s("chr1:5000")]).unwrap();
    let first = session.loci_to_fetch();
    assert_eq!(first.len(), 2);
    for l in &first {
        let name = artifact_file_name(l, session.fingerprint());
        session.record_staged(l, name);
    }
    assert!(session.loci_to_fetch().is_empty());
    assert_eq!(session.staged_len(), 2);
    let wide = session.parse_locus("chr15:23960193-23963918").unwrap();
    assert!(session.staged_artifact(&wide).is_some());
    let hit = session.get_locus("chr15:23961000-23962000").unwrap();
    assert!(hit.path.starts_with("chr15_23960193_23963918_"));
    assert_eq!(hit.fingerprint, session.fingerprint());
    assert_eq!(session.get_locus("chr15:23950000-23962000").err(), Some(SessionError::NotStaged));
    assert_eq!(session.get_locus("chr15").err(), Some(SessionError::Locus(LocusError::Format)));
    session.attach_reads(&vec![s("gs://bucket/c.bam")], &s("cohort")).unwrap();
    assert_eq!(session.loci_to_fetch().len(), 2);
    session.reset();
    assert!(session.reads().is_empty());
    assert!(session.loci_to_fetch().is_empty());
}

#[test]
fn attaching_reads_checks_names_and_makes_urls() {
    let mut session = Session::new();
    assert_eq!(
        session.attach_reads(&vec![s("gs://bucket/a.bam"), s("notes.txt")], &s("c")).err(),
        Some(SessionError::NotAlignmentFile(1))
    );
    assert_eq!(session.reads().len(), 1);
    session.attach_reads(&vec![s("gs://bucket/a.bam")], &s("c")).unwrap();
    assert_eq!(session.reads().len(), 1);
    session.attach_reads(&vec![s("/data/x.cram"), s("file:///data/y.bam")], &s("d")).unwrap();
    let urls: Vec<String> = session.reads().iter().map(|r| r.url.clone()).collect();
    assert_eq!(urls, vec!["gs://bucket/a.bam", "file:///data/x.cram", "file:///data/y.bam"]);
    assert_eq!(session.attach_reads(&vec![s("relative/x.bam")], &s("d")).err(), Some(SessionError::BadPath(0)));
    session.attach_reads(&vec![s("file:///data/../z.bam")], &s("e")).unwrap();
    let urls: Vec<String> = session.reads().iter().map(|r| r.url.clone()).collect();
    assert_eq!(urls[3..].to_vec(), vec![s("file:///z.bam")]);
    assert_eq!(session.attach_reads(&vec![s("gs://[bad/x.bam")], &s("d")).err(), Some(SessionError::BadUrl(0)));
}

#[test]
fn lookups_keep_only_rows_meeting_the_range() {
    let rows = vec![
        row("a.bam", 10, 20, ElementType::READ, ""),
        row("a.bam", 25, 26, ElementType::DIFF, "A"),
        row("a.bam", 19, 20, ElementType::INSERTION, "AC"),
        row("a.bam", 5, 10, ElementType::DELETION, ""),
    ];
    let kept = rows_in_range(&rows, 18, 25);
    let starts: Vec<u32> = kept.iter().map(|r| r.element.reference_start).collect();
    assert_eq!(starts, vec![10, 19]);
}

#[test]
fn storage_paths_split_into_bucket_and_object() {
    assert_eq!(gcs_split_path(&s("gs://bucket/a/b/c.bam")), (s("bucket"), s("a/b/c.bam")));
    assert_eq!(gcs_split_path(&s("bucket/a.bam")), (s("bucket"), s("a.bam")));
    assert_eq!(gcs_split_path(&s("gs://bucket")), (s("bucket"), s("")));
    assert_eq!(gcs_split_path(&s("x/gs://y")), (s("x"), s("gs://y")));
    assert_eq!(file_name_of(&s("a/b/c.bam")), "c.bam");
    assert_eq!(file_name_of(&s("c.bam")), "c.bam");
    assert_eq!(file_name_of(&s("a/b/")), "");
    let names = vec![s("x/a.bam"), s("x/a.bam.bai"), s("x/b.bam")];
    assert_eq!(files_of_type(&names, ".bam"), vec![s("x/a.bam"), s("x/b.bam")]);
}

#[test]
fn a_table_put_as_columns_comes_back_for_its_locus() {
    let rows = vec![
        row("a.bam", 10, 20, ElementType::READ, ""),
        row("a.bam", 25, 26, ElementType::DIFF, "A"),
        row("b.bam", 19, 20, ElementType::INSERTION, "AC"),
    ];
    let cols = to_columns(&rows);
    let all = rows_for_locus(&cols, 0, 100).unwrap();
    assert_eq!(all.len(), 3);
    for (x, y) in all.iter().zip(rows.iter()) {
        assert_eq!((&x.bam_path, x.element.reference_start, &x.element.sequence), (&y.bam_path, y.element.reference_start, &y.element.sequence));
    }
    let some = rows_for_locus(&cols, 18, 25).unwrap();
    let starts: Vec<u32> = some.iter().map(|r| r.element.reference_start).collect();
    assert_eq!(starts, vec![10, 19]);
    let mut bad = to_columns(&rows);
    bad.element_type[1] = 7;
    assert_eq!(rows_for_locus(&bad, 0, 100).err(), Some(ColumnsError::BadElementType));
}

#[test]
fn a_second_cached_staging_plans_no_fetch() {
    let mut session = Session::new();
    session.attach_reads(&vec![s("gs://bucket/a.bam")], &s("c")).unwrap();
    session.attach_loci(&vec![s("chr1:100-200"), s("chr2:5000")]).unwrap();
    assert_eq!(session.plan_stage(true).len(), 2);
    for l in session.plan_stage(true) {
        let name = artifact_file_name(&l, session.fingerprint());
        session.record_staged(&l, name);
    }
    assert!(session.plan_stage(true).is_empty());
    assert_eq!(session.plan_stage(false).len(), 2);
    assert_eq!(session.staged_len(), 2);
}

#[test]
fn attaching_one_file_adds_exactly_its_pair() {
    let mut session = Session::new();
    session.attach_reads(&vec![s("gs://b/x.cram")], &s("c")).unwrap();
    let pairs: Vec<(String, String)> = session.reads().iter().map(|r| (r.url.clone(), r.cohort.clone())).collect();
    assert_eq!(pairs, vec![(s("gs://b/x.cram"), s("c"))]);
    assert_eq!(session.attach_reads(&vec![s("notes.txt")], &s("c")).err(), Some(SessionError::NotAlignmentFile(0)));
    assert_eq!(session.reads().len(), 1);
}
