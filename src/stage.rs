use vstd::prelude::*;

use crate::alignment::{views, AlignmentElement, ElementView, ReadRecord};
use crate::extract::{annotated, extract_reads, pair_views, table_rows};
use crate::layout::copy_with_width;
use crate::locus::Locus;

verus! {

/// One alignment source: its URL or path, and the cohort it was attached under.
pub struct SourceFile {
    pub url: String,
    pub cohort: String,
}

/// A row of a staged table: an element, with the cohort and source it came from.
pub struct TableRow {
    pub cohort: String,
    pub bam_path: String,
    pub element: AlignmentElement,
}

impl View for TableRow {
    type V = (Seq<char>, Seq<char>, ElementView);

    open spec fn view(&self) -> (Seq<char>, Seq<char>, ElementView) {
        (self.cohort@, self.bam_path@, self.element@)
    }
}

impl TableRow {
    pub fn duplicate(&self) -> (r: TableRow)
        ensures
            r@ == self@,
    {
        let e = copy_with_width(&self.element, self.element.column_width);
        TableRow { cohort: self.cohort.clone(), bam_path: self.bam_path.clone(), element: e }
    }
}

pub open spec fn row_views(rows: Seq<TableRow>) -> Seq<(Seq<char>, Seq<char>, ElementView)> {
    rows.map_values(|r: TableRow| r@)
}

proof fn lemma_row_views_push(rows: Seq<TableRow>, r: TableRow)
    ensures
        row_views(rows.push(r)) == row_views(rows).push(r@),
{
    assert(row_views(rows.push(r)) =~= row_views(rows).push(r@));
}

/// `rows` labelled with a source's cohort and path.
pub open spec fn tagged(cohort: Seq<char>, path: Seq<char>, rows: Seq<ElementView>) -> Seq<(Seq<char>, Seq<char>, ElementView)> {
    rows.map_values(|e: ElementView| (cohort, path, e))
}

fn tag_rows(source: &SourceFile, rows: Vec<AlignmentElement>) -> (r: Vec<TableRow>)
    ensures
        row_views(r@) == tagged(source.cohort@, source.url@, views(rows@)),
{
    let mut rows = rows;
    let ghost all = views(rows@);
    let mut back: Vec<TableRow> = Vec::new();
    while rows.len() > 0
        invariant
            all.len() == rows@.len() + back@.len(),
            views(rows@) == all.take(rows@.len() as int),
            forall|k: int|
                0 <= k < back@.len() ==> (#[trigger] back@[k])@ == (
                    source.cohort@,
                    source.url@,
                    all[all.len() - 1 - k],
                ),
        decreases rows@.len(),
    {
        let ghost before = rows@;
        let e = rows.pop().unwrap();
        assert(all[rows@.len() as int] == e@) by {
            assert(views(before)[before.len() - 1] == e@);
        }
        assert(views(rows@) =~= all.take(rows@.len() as int));
        back.push(TableRow { cohort: source.cohort.clone(), bam_path: source.url.clone(), element: e });
    }
    let mut out: Vec<TableRow> = Vec::new();
    while back.len() > 0
        invariant
            all.len() == out@.len() + back@.len(),
            forall|k: int|
                0 <= k < back@.len() ==> (#[trigger] back@[k])@ == (
                    source.cohort@,
                    source.url@,
                    all[all.len() - 1 - k],
                ),
            row_views(out@) == tagged(source.cohort@, source.url@, all.take(out@.len() as int)),
        decreases back@.len(),
    {
        let ghost top = back@[back@.len() - 1];
        let ghost n = out@.len();
        assert(top@ == (source.cohort@, source.url@, all[n as int]));
        let r = back.pop().unwrap();
        assert(r == top);
        proof {
            lemma_row_views_push(out@, r);
        }
        out.push(r);
        assert(all.take(n as int + 1) =~= all.take(n as int).push(all[n as int]));
        assert(row_views(out@) =~= tagged(source.cohort@, source.url@, all.take(out@.len() as int)));
    }
    assert(all.take(all.len() as int) =~= all);
    out
}

/// The rows that one source contributes to each locus: for the i-th locus,
/// its records decoded as `extract_reads` does, labelled with the source's
/// cohort and path. `records[i]` holds what the source returned for `loci[i]`.
pub fn stage_data_from_one_file(
    source: &SourceFile,
    loci: &Vec<Locus>,
    records: &Vec<Vec<ReadRecord>>,
    samples: &Vec<(String, String)>,
) -> (r: Vec<Vec<TableRow>>)
    requires
        records@.len() == loci@.len(),
    ensures
        r@.len() == loci@.len(),
        forall|i: int|
            0 <= i < loci@.len() ==> row_views((#[trigger] r@[i])@) == tagged(
                source.cohort@,
                source.url@,
                annotated(
                    table_rows(
                        loci@[i].contig@,
                        records@[i]@,
                        pair_views(samples@),
                        records@[i]@.len() as int,
                    ),
                ),
            ),
{
    let mut out: Vec<Vec<TableRow>> = Vec::new();
    let mut i: usize = 0;
    while i < loci.len()
        invariant
            records@.len() == loci@.len(),
            i <= loci@.len(),
            out@.len() == i,
            forall|j: int|
                0 <= j < i ==> row_views((#[trigger] out@[j])@) == tagged(
                    source.cohort@,
                    source.url@,
                    annotated(
                        table_rows(
                            loci@[j].contig@,
                            records@[j]@,
                            pair_views(samples@),
                            records@[j]@.len() as int,
                        ),
                    ),
                ),
        decreases loci@.len() - i,
    {
        let rows = extract_reads(&records[i], samples, &loci[i].contig);
        let t = tag_rows(source, rows);
        out.push(t);
        i = i + 1;
    }
    out
}

/// Why a staging batch produced nothing.
#[derive(Debug, Clone, Copy, PartialEq, Eq, Structural)]
pub enum StageError {
    /// No source could be opened and read.
    TotalFailure,
}

/// Whether some source of the batch succeeded.
pub open spec fn any_success(outcomes: Seq<Option<Vec<Vec<TableRow>>>>) -> bool {
    exists|k: int| 0 <= k < outcomes.len() && (#[trigger] outcomes[k]) is Some
}

/// The rows of locus `i` over the first `n` sources: each successful
/// source's table for that locus, in source order; failed sources add nothing.
pub open spec fn merged(outcomes: Seq<Option<Vec<Vec<TableRow>>>>, i: int, n: int) -> Seq<(Seq<char>, Seq<char>, ElementView)>
    decreases n,
{
    if n <= 0 {
        Seq::empty()
    } else {
        merged(outcomes, i, n - 1) + match outcomes[n - 1] {
            Some(ts) => row_views(ts@[i]@),
            None => Seq::empty(),
        }
    }
}

/// Merges the per-source results of a staging batch, in source order, one
/// table per locus. A failed source (`None`) only loses its own rows; the
/// batch fails only when no source succeeded.
pub fn stage_data_from_all_files(outcomes: &Vec<Option<Vec<Vec<TableRow>>>>, n_loci: usize) -> (r: Result<
    Vec<Vec<TableRow>>,
    StageError,
>)
    requires
        forall|k: int|
            0 <= k < outcomes@.len() ==> (#[trigger] outcomes@[k] matches Some(ts) ==> ts@.len() == n_loci),
    ensures
        match r {
            Ok(tables) => {
                &&& any_success(outcomes@)
                &&& tables@.len() == n_loci
                &&& forall|i: int|
                    0 <= i < n_loci ==> row_views((#[trigger] tables@[i])@) == merged(
                        outcomes@,
                        i,
                        outcomes@.len() as int,
                    )
            },
            Err(e) => e == StageError::TotalFailure && !any_success(outcomes@),
        },
{
    let mut any = false;
    let mut k: usize = 0;
    while k < outcomes.len()
        invariant
            k <= outcomes@.len(),
            any == exists|j: int| 0 <= j < k && (#[trigger] outcomes@[j]) is Some,
        decreases outcomes@.len() - k,
    {
        if outcomes[k].is_some() {
            any = true;
        }
        k = k + 1;
    }
    if !any {
        return Err(StageError::TotalFailure);
    }
    let mut tables: Vec<Vec<TableRow>> = Vec::new();
    let mut i: usize = 0;
    while i < n_loci
        invariant
            i <= n_loci,
            tables@.len() == i,
            forall|k: int|
                0 <= k < outcomes@.len() ==> (#[trigger] outcomes@[k] matches Some(ts) ==> ts@.len() == n_loci),
            forall|j: int|
                0 <= j < i ==> row_views((#[trigger] tables@[j])@) == merged(outcomes@, j, outcomes@.len() as int),
        decreases n_loci - i,
    {
        let mut t: Vec<TableRow> = Vec::new();
        let mut k: usize = 0;
        assert(row_views(t@) =~= merged(outcomes@, i as int, 0));
        while k < outcomes.len()
            invariant
                i < n_loci,
                k <= outcomes@.len(),
                forall|k: int|
                    0 <= k < outcomes@.len() ==> (#[trigger] outcomes@[k] matches Some(ts) ==> ts@.len() == n_loci),
                row_views(t@) == merged(outcomes@, i as int, k as int),
            decreases outcomes@.len() - k,
        {
            match &outcomes[k] {
                Some(ts) => {
                    let src = &ts[i];
                    let ghost base = row_views(t@);
                    let mut x: usize = 0;
                    while x < src.len()
                        invariant
                            x <= src@.len(),
                            row_views(t@) == base + row_views(src@).take(x as int),
                        decreases src@.len() - x,
                    {
                        let d = src[x].duplicate();
                        assert(row_views(src@)[x as int] == d@);
                        proof {
                            lemma_row_views_push(t@, d);
                            assert(row_views(src@).take(x + 1) =~= row_views(src@).take(x as int).push(d@));
                        }
                        t.push(d);
                        x = x + 1;
                        assert(row_views(t@) =~= base + row_views(src@).take(x as int));
                    }
                    assert(row_views(src@).take(src@.len() as int) =~= row_views(src@));
                },
                None => {
                    assert(row_views(t@) =~= row_views(t@) + Seq::<(Seq<char>, Seq<char>, ElementView)>::empty());
                },
            }
            k = k + 1;
        }
        tables.push(t);
        i = i + 1;
    }
    Ok(tables)
}

/// How far the opening of a source has gone.
#[derive(Debug, Clone, Copy, PartialEq, Eq, Structural)]
pub enum OpenAttempt {
    /// The first, plain attempt.
    Plain,
    /// The attempt after refreshing credentials.
    AfterCredentialRefresh,
    /// The last attempt, after switching to the fallback trust store.
    AfterTrustStoreFallback,
}

/// What to do after an attempt to open a source.
#[derive(Debug, Clone, Copy, PartialEq, Eq, Structural)]
pub enum OpenAction {
    /// The source is open: read it.
    Proceed,
    /// Refresh credentials, then try again.
    RefreshCredentials,
    /// Switch to the fallback trust store, then try once more.
    UseFallbackTrustStore,
    /// Every attempt failed: report the failure.
    GiveUp,
}

pub open spec fn open_action(attempt: OpenAttempt, opened: bool) -> OpenAction {
    if opened {
        OpenAction::Proceed
    } else {
        match attempt {
            OpenAttempt::Plain => OpenAction::RefreshCredentials,
            OpenAttempt::AfterCredentialRefresh => OpenAction::UseFallbackTrustStore,
            OpenAttempt::AfterTrustStoreFallback => OpenAction::GiveUp,
        }
    }
}

/// The decision after one attempt to open a source: proceed once it opened;
/// otherwise refresh credentials after the first failure, switch trust
/// stores after the second, and give up after the third.
pub fn open_bam_step(attempt: OpenAttempt, opened: bool) -> (r: OpenAction)
    ensures
        r == open_action(attempt, opened),
{
    if opened {
        return OpenAction::Proceed;
    }
    match attempt {
        OpenAttempt::Plain => OpenAction::RefreshCredentials,
        OpenAttempt::AfterCredentialRefresh => OpenAction::UseFallbackTrustStore,
        OpenAttempt::AfterTrustStoreFallback => OpenAction::GiveUp,
    }
}

/// The attempt that follows an action that retries.
pub fn next_open_attempt(action: OpenAction) -> (r: Option<OpenAttempt>)
    ensures
        r == match action {
            OpenAction::RefreshCredentials => Some(OpenAttempt::AfterCredentialRefresh),
            OpenAction::UseFallbackTrustStore => Some(OpenAttempt::AfterTrustStoreFallback),
            _ => None::<OpenAttempt>,
        },
{
    match action {
        OpenAction::RefreshCredentials => Some(OpenAttempt::AfterCredentialRefresh),
        OpenAction::UseFallbackTrustStore => Some(OpenAttempt::AfterTrustStoreFallback),
        _ => None,
    }
}

} // verus!
