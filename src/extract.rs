use vstd::prelude::*;
use vstd::string::*;

use crate::alignment::{
    decompose_record, lemma_record_rows_short, meta_of, record_rows, short_sequences, views,
    AlignmentElement, ElementView, ReadRecord,
};
use crate::layout::{annotate_column_widths, column_width_at, with_width};

verus! {

/// The value of the first tag named `key` in one header line.
pub open spec fn tag_value(tags: Seq<(String, String)>, key: Seq<char>) -> Option<Seq<char>>
    decreases tags.len(),
{
    if tags.len() == 0 {
        None
    } else if tags[0].0@ == key {
        Some(tags[0].1@)
    } else {
        tag_value(tags.drop_first(), key)
    }
}

/// The (read group, sample) pairs of the first `n` header lines: one for
/// each line that has both an `ID` and an `SM` tag, in order.
pub open spec fn read_group_pairs(lines: Seq<Vec<(String, String)>>, n: int) -> Seq<(Seq<char>, Seq<char>)>
    decreases n,
{
    if n <= 0 {
        Seq::empty()
    } else {
        let before = read_group_pairs(lines, n - 1);
        match (tag_value(lines[n - 1]@, "ID"@), tag_value(lines[n - 1]@, "SM"@)) {
            (Some(id), Some(sm)) => before.push((id, sm)),
            _ => before,
        }
    }
}

/// The sample of read group `rg`: the last pair that names it.
pub open spec fn sample_of(pairs: Seq<(Seq<char>, Seq<char>)>, rg: Seq<char>) -> Option<Seq<char>>
    decreases pairs.len(),
{
    if pairs.len() == 0 {
        None
    } else if pairs.last().0 == rg {
        Some(pairs.last().1)
    } else {
        sample_of(pairs.drop_last(), rg)
    }
}

pub open spec fn pair_views(pairs: Seq<(String, String)>) -> Seq<(Seq<char>, Seq<char>)> {
    pairs.map_values(|p: (String, String)| (p.0@, p.1@))
}

fn find_tag(tags: &Vec<(String, String)>, key: &String) -> (r: Option<String>)
    ensures
        match r {
            Some(v) => tag_value(tags@, key@) == Some(v@),
            None => tag_value(tags@, key@) is None,
        },
{
    let mut i: usize = 0;
    assert(tags@.skip(0) =~= tags@);
    while i < tags.len()
        invariant
            i <= tags@.len(),
            tag_value(tags@, key@) == tag_value(tags@.skip(i as int), key@),
        decreases tags@.len() - i,
    {
        assert(tags@.skip(i as int).drop_first() =~= tags@.skip(i + 1));
        if tags[i].0 == *key {
            return Some(tags[i].1.clone());
        }
        i = i + 1;
    }
    None
}

/// The read-group to sample lookup of an alignment source's header, given
/// as its lines' tag lists: every line with both an `ID` and an `SM` tag
/// contributes the pair of their values, in order.
pub fn get_rg_to_sm_mapping(lines: &Vec<Vec<(String, String)>>) -> (pairs: Vec<(String, String)>)
    ensures
        pair_views(pairs@) == read_group_pairs(lines@, lines@.len() as int),
{
    let id = String::from_str("ID");
    let sm = String::from_str("SM");
    let mut pairs: Vec<(String, String)> = Vec::new();
    let mut i: usize = 0;
    while i < lines.len()
        invariant
            i <= lines@.len(),
            id@ == "ID"@,
            sm@ == "SM"@,
            pair_views(pairs@) == read_group_pairs(lines@, i as int),
        decreases lines@.len() - i,
    {
        let a = find_tag(&lines[i], &id);
        let b = find_tag(&lines[i], &sm);
        match (a, b) {
            (Some(x), Some(y)) => {
                let ghost before = pairs@;
                pairs.push((x, y));
                assert(pair_views(pairs@) =~= pair_views(before).push((x@, y@)));
            },
            _ => {},
        }
        i = i + 1;
    }
    pairs
}

/// The read group and sample that the rows of record `r` carry: its
/// read-group tag and that group's sample, or "unknown" for both where the
/// record has no tag or the header maps its group to no sample.
pub open spec fn resolve_sample(r: ReadRecord, pairs: Seq<(Seq<char>, Seq<char>)>) -> (Seq<char>, Seq<char>) {
    match r.read_group {
        Some(rg) => match sample_of(pairs, rg@) {
            Some(sm) => (rg@, sm),
            None => ("unknown"@, "unknown"@),
        },
        None => ("unknown"@, "unknown"@),
    }
}

fn lookup_sample(pairs: &Vec<(String, String)>, rg: &String) -> (r: Option<String>)
    ensures
        match r {
            Some(v) => sample_of(pair_views(pairs@), rg@) == Some(v@),
            None => sample_of(pair_views(pairs@), rg@) is None,
        },
{
    let mut i: usize = pairs.len();
    assert(pairs@.take(i as int) =~= pairs@);
    while i > 0
        invariant
            i <= pairs@.len(),
            sample_of(pair_views(pairs@), rg@) == sample_of(pair_views(pairs@.take(i as int)), rg@),
        decreases i,
    {
        let ghost t = pair_views(pairs@.take(i as int));
        assert(t.last() == (pairs@[i - 1].0@, pairs@[i - 1].1@));
        assert(t.drop_last() =~= pair_views(pairs@.take(i - 1)));
        if pairs[i - 1].0 == *rg {
            return Some(pairs[i - 1].1.clone());
        }
        i = i - 1;
    }
    assert(pair_views(pairs@.take(0)) =~= Seq::<(Seq<char>, Seq<char>)>::empty());
    None
}

fn resolve(rec: &ReadRecord, pairs: &Vec<(String, String)>) -> (r: (String, String))
    ensures
        (r.0@, r.1@) == resolve_sample(*rec, pair_views(pairs@)),
{
    match &rec.read_group {
        Some(rg) => match lookup_sample(pairs, rg) {
            Some(sm) => (rg.clone(), sm),
            None => (String::from_str("unknown"), String::from_str("unknown")),
        },
        None => (String::from_str("unknown"), String::from_str("unknown")),
    }
}


/// Decoded rows of the first `n` records, in order; a record that cannot be
/// decoded contributes nothing.
pub open spec fn table_rows(
    contig: Seq<char>,
    recs: Seq<ReadRecord>,
    pairs: Seq<(Seq<char>, Seq<char>)>,
    n: int,
) -> Seq<ElementView>
    decreases n,
{
    if n <= 0 {
        Seq::empty()
    } else {
        let r = recs[n - 1];
        let (rg, sm) = resolve_sample(r, pairs);
        table_rows(contig, recs, pairs, n - 1) + match record_rows(meta_of(contig, r, rg, sm), r) {
            Some(rows) => rows,
            None => Seq::empty(),
        }
    }
}

/// `rows` with each row's column width set from the mask of all of them.
pub open spec fn annotated(rows: Seq<ElementView>) -> Seq<ElementView> {
    Seq::new(rows.len(), |i: int| with_width(rows[i], column_width_at(rows, rows[i].reference_start)))
}

/// The rows of one locus of one source: every record decoded in order, with
/// its read group and sample resolved through `samples`, records that cannot
/// be decoded skipped, and column widths computed over the whole result.
pub fn extract_reads(
    records: &Vec<ReadRecord>,
    samples: &Vec<(String, String)>,
    contig: &String,
) -> (rows: Vec<AlignmentElement>)
    ensures
        views(rows@) == annotated(table_rows(contig@, records@, pair_views(samples@), records@.len() as int)),
{
    let ghost pairs = pair_views(samples@);
    let mut rows: Vec<AlignmentElement> = Vec::new();
    let mut i: usize = 0;
    assert(views(rows@) =~= Seq::<ElementView>::empty());
    while i < records.len()
        invariant
            i <= records@.len(),
            pairs == pair_views(samples@),
            views(rows@) == table_rows(contig@, records@, pairs, i as int),
            short_sequences(views(rows@)),
        decreases records@.len() - i,
    {
        let rec = &records[i];
        let (rg, sm) = resolve(rec, samples);
        let ghost before = views(rows@);
        proof {
            lemma_record_rows_short(meta_of(contig@, *rec, rg@, sm@), *rec);
        }
        match decompose_record(rec, contig, &rg, &sm) {
            Some(more) => {
                let mut more = more;
                let ghost added = views(more@);
                rows.append(&mut more);
                assert(views(rows@) =~= before + added);
            },
            None => {
                assert(before + Seq::<ElementView>::empty() =~= before);
            },
        }
        i = i + 1;
    }
    let ghost plain = views(rows@);
    proof {
        assert forall|j: int| 0 <= j < rows@.len() implies (#[trigger] rows@[j]).sequence@.len() <= u32::MAX by {
            assert(plain[j] == rows@[j]@);
        }
    }
    annotate_column_widths(&mut rows);
    assert(views(rows@) =~= annotated(plain));
    rows
}

} // verus!
