use vstd::prelude::*;
use vstd::string::*;

use crate::cache::{append_decimal, decimal_text};

verus! {

/// One allele call of a sample's genotype.
#[derive(Debug, Clone, Copy, PartialEq, Eq, Structural)]
pub enum GenotypeAllele {
    Unphased(i32),
    Phased(i32),
    UnphasedMissing,
    PhasedMissing,
}

/// The text of a signed allele index.
pub open spec fn int_text(i: i32) -> Seq<char> {
    if i < 0 {
        "-"@ + decimal_text((-(i as int)) as nat)
    } else {
        decimal_text(i as nat)
    }
}

pub open spec fn allele_text(a: GenotypeAllele) -> Seq<char> {
    match a {
        GenotypeAllele::Unphased(i) => int_text(i),
        GenotypeAllele::Phased(i) => int_text(i),
        _ => "."@,
    }
}

pub open spec fn is_phased(a: GenotypeAllele) -> bool {
    a is Phased || a is PhasedMissing
}

/// A genotype as text: two calls joined by `|` when the second call is
/// phased and by `/` otherwise (a genotype's first call never carries the
/// phase flag); a single call as its index, or `./.` when missing; no call
/// at all as `./.`.
pub open spec fn genotype_text(gt: Seq<GenotypeAllele>) -> Seq<char> {
    if gt.len() >= 2 {
        allele_text(gt[0]) + (if is_phased(gt[1]) {
            "|"@
        } else {
            "/"@
        }) + allele_text(gt[1])
    } else if gt.len() == 1 {
        match gt[0] {
            GenotypeAllele::Unphased(i) => int_text(i),
            GenotypeAllele::Phased(i) => int_text(i),
            _ => "./."@,
        }
    } else {
        "./."@
    }
}

fn append_int(s: &mut String, i: i32)
    ensures
        final(s)@ == old(s)@ + int_text(i),
{
    if i < 0 {
        s.append("-");
        let m = (-(i as i64)) as u64;
        append_decimal(s, m);
        assert(old(s)@ + "-"@ + decimal_text(m as nat) =~= old(s)@ + int_text(i));
    } else {
        append_decimal(s, i as u64);
    }
}

fn append_allele(s: &mut String, a: GenotypeAllele)
    ensures
        final(s)@ == old(s)@ + allele_text(a),
{
    match a {
        GenotypeAllele::Unphased(i) => append_int(s, i),
        GenotypeAllele::Phased(i) => append_int(s, i),
        _ => s.append("."),
    }
}

/// Formats one sample's genotype as `genotype_text` says.
pub fn genotype_string(gt: &Vec<GenotypeAllele>) -> (r: String)
    ensures
        r@ == genotype_text(gt@),
{
    let mut s = String::new();
    if gt.len() >= 2 {
        append_allele(&mut s, gt[0]);
        let phased1 = match gt[1] {
            GenotypeAllele::Phased(_) | GenotypeAllele::PhasedMissing => true,
            _ => false,
        };
        if phased1 {
            s.append("|");
        } else {
            s.append("/");
        }
        append_allele(&mut s, gt[1]);
        assert(s@ =~= genotype_text(gt@));
    } else if gt.len() == 1 {
        match gt[0] {
            GenotypeAllele::Unphased(i) => append_int(&mut s, i),
            GenotypeAllele::Phased(i) => append_int(&mut s, i),
            _ => s.append("./."),
        }
        assert(s@ =~= genotype_text(gt@));
    } else {
        s.append("./.");
        assert(s@ =~= genotype_text(gt@));
    }
    s
}


/// One variant record, as far as the table reads it.
pub struct VariantRecord {
    /// 0-based position.
    pub pos: i64,
    /// The record's ID field; empty or `.` when it has none.
    pub id: String,
    /// The reference allele, then the alternate alleles.
    pub alleles: Vec<String>,
    /// Each sample's genotype, in the order of the header's samples.
    pub genotypes: Vec<Vec<GenotypeAllele>>,
}

/// One row of a variant table: one sample at one alternate allele.
pub struct VariantRow {
    pub chromosome: String,
    pub position: u64,
    pub ref_allele: String,
    pub alt_allele: String,
    pub sample_name: String,
    pub genotype: String,
    pub variant_id: u32,
    pub vcf_id: Option<String>,
}

pub struct VariantRowView {
    pub chromosome: Seq<char>,
    pub position: int,
    pub ref_allele: Seq<char>,
    pub alt_allele: Seq<char>,
    pub sample_name: Seq<char>,
    pub genotype: Seq<char>,
    pub variant_id: int,
    pub vcf_id: Option<Seq<char>>,
}

impl View for VariantRow {
    type V = VariantRowView;

    open spec fn view(&self) -> VariantRowView {
        VariantRowView {
            chromosome: self.chromosome@,
            position: self.position as int,
            ref_allele: self.ref_allele@,
            alt_allele: self.alt_allele@,
            sample_name: self.sample_name@,
            genotype: self.genotype@,
            variant_id: self.variant_id as int,
            vcf_id: match self.vcf_id {
                Some(s) => Some(s@),
                None => None,
            },
        }
    }
}

/// A variant: its 1-based position, reference allele and alternate allele.
pub type VariantKey = (int, Seq<char>, Seq<char>);

pub open spec fn vcf_id_of(id: Seq<char>) -> Option<Seq<char>> {
    if id.len() == 0 || id == "."@ {
        None
    } else {
        Some(id)
    }
}

/// Whether a record lies in `[start, stop]` (1-based, both ends included)
/// and names a reference allele.
pub open spec fn in_region(r: VariantRecord, start: u64, stop: u64) -> bool {
    r.pos >= 0 && start <= r.pos + 1 <= stop && r.alleles@.len() >= 1
}

pub open spec fn key_of(r: VariantRecord, j: int) -> VariantKey {
    (r.pos + 1, r.alleles@[0]@, r.alleles@[j]@)
}

/// `keys` with `k` appended unless it is there already.
pub open spec fn with_key(keys: Seq<VariantKey>, k: VariantKey) -> Seq<VariantKey> {
    if keys.contains(k) {
        keys
    } else {
        keys.push(k)
    }
}

/// The position of `k` in `keys`: its variant ID.
pub open spec fn id_of(keys: Seq<VariantKey>, k: VariantKey) -> int {
    choose|i: int| 0 <= i < keys.len() && keys[i] == k
}

/// The known variants after the alternate alleles of `r` before index `j`.
pub open spec fn keys_before_alt(r: VariantRecord, keys: Seq<VariantKey>, j: int) -> Seq<VariantKey>
    decreases j,
{
    if j <= 1 {
        keys
    } else {
        with_key(keys_before_alt(r, keys, j - 1), key_of(r, j - 1))
    }
}

pub open spec fn genotype_of(r: VariantRecord, s: int) -> Seq<GenotypeAllele> {
    if s < r.genotypes@.len() {
        r.genotypes@[s]@
    } else {
        Seq::empty()
    }
}

/// The rows of alternate allele `j` of `r`, one per sample.
pub open spec fn alt_rows(
    chr: Seq<char>,
    samples: Seq<String>,
    r: VariantRecord,
    keys: Seq<VariantKey>,
    j: int,
) -> Seq<VariantRowView> {
    let known = with_key(keys_before_alt(r, keys, j), key_of(r, j));
    Seq::new(
        samples.len(),
        |s: int|
            VariantRowView {
                chromosome: chr,
                position: r.pos + 1,
                ref_allele: r.alleles@[0]@,
                alt_allele: r.alleles@[j]@,
                sample_name: samples[s]@,
                genotype: genotype_text(genotype_of(r, s)),
                variant_id: id_of(known, key_of(r, j)),
                vcf_id: vcf_id_of(r.id@),
            },
    )
}

/// The rows of the alternate alleles of `r` before index `j`.
pub open spec fn record_variant_rows(
    chr: Seq<char>,
    samples: Seq<String>,
    r: VariantRecord,
    keys: Seq<VariantKey>,
    j: int,
) -> Seq<VariantRowView>
    decreases j,
{
    if j <= 1 {
        Seq::empty()
    } else {
        record_variant_rows(chr, samples, r, keys, j - 1) + alt_rows(chr, samples, r, keys, j - 1)
    }
}

/// Rows and known variants after the first `n` records: records outside the
/// region add nothing; a variant's ID is the order in which it was first seen.
pub open spec fn variant_table(
    chr: Seq<char>,
    samples: Seq<String>,
    recs: Seq<VariantRecord>,
    start: u64,
    stop: u64,
    n: int,
) -> (Seq<VariantRowView>, Seq<VariantKey>)
    decreases n,
{
    if n <= 0 {
        (Seq::empty(), Seq::empty())
    } else {
        let (rows, keys) = variant_table(chr, samples, recs, start, stop, n - 1);
        let r = recs[n - 1];
        if in_region(r, start, stop) {
            (
                rows + record_variant_rows(chr, samples, r, keys, r.alleles@.len() as int),
                keys_before_alt(r, keys, r.alleles@.len() as int),
            )
        } else {
            (rows, keys)
        }
    }
}

/// Alternate alleles over the first `n` records.
pub open spec fn alt_count(recs: Seq<VariantRecord>, n: int) -> int
    decreases n,
{
    if n <= 0 {
        0
    } else {
        alt_count(recs, n - 1) + if recs[n - 1].alleles@.len() >= 1 {
            recs[n - 1].alleles@.len() - 1
        } else {
            0
        }
    }
}

pub open spec fn distinct(keys: Seq<VariantKey>) -> bool {
    forall|i: int, j: int| 0 <= i < j < keys.len() ==> keys[i] != keys[j]
}

pub open spec fn key_views(keys: Seq<(u64, String, String)>) -> Seq<VariantKey> {
    keys.map_values(|k: (u64, String, String)| (k.0 as int, k.1@, k.2@))
}

proof fn lemma_id_of_unique(keys: Seq<VariantKey>, k: VariantKey, i: int)
    requires
        distinct(keys),
        0 <= i < keys.len(),
        keys[i] == k,
    ensures
        id_of(keys, k) == i,
{
    let c = id_of(keys, k);
    if c != i {
        if c < i {
            assert(keys[c] != keys[i]);
        } else {
            assert(keys[i] != keys[c]);
        }
    }
}

proof fn lemma_alt_count_monotone(recs: Seq<VariantRecord>, a: int, b: int)
    requires
        0 <= a <= b,
    ensures
        alt_count(recs, a) <= alt_count(recs, b),
    decreases b - a,
{
    if a < b {
        lemma_alt_count_monotone(recs, a, b - 1);
    }
}

/// Index of `k` among `keys`, adding it when it is new.
fn variant_id(keys: &mut Vec<(u64, String, String)>, pos: u64, ref_allele: &String, alt: &String) -> (r: usize)
    requires
        distinct(key_views(old(keys)@)),
    ensures
        key_views(final(keys)@) == with_key(key_views(old(keys)@), (pos as int, ref_allele@, alt@)),
        distinct(key_views(final(keys)@)),
        r < final(keys)@.len(),
        r == id_of(key_views(final(keys)@), (pos as int, ref_allele@, alt@)),
{
    let ghost k = (pos as int, ref_allele@, alt@);
    let ghost before = key_views(keys@);
    let mut i: usize = 0;
    while i < keys.len()
        invariant
            k == (pos as int, ref_allele@, alt@),
            before == key_views(keys@),
            distinct(before),
            i <= keys@.len(),
            forall|j: int| 0 <= j < i ==> before[j] != k,
        decreases keys@.len() - i,
    {
        if keys[i].0 == pos && keys[i].1 == *ref_allele && keys[i].2 == *alt {
            assert(before[i as int] == k);
            proof {
                lemma_id_of_unique(before, k, i as int);
            }
            return i;
        }
        i = i + 1;
    }
    assert(!before.contains(k));
    keys.push((pos, ref_allele.clone(), alt.clone()));
    assert(key_views(keys@) =~= before.push(k));
    proof {
        lemma_id_of_unique(before.push(k), k, before.len() as int);
    }
    keys.len() - 1
}


/// Whether the records hold few enough alternate alleles for 32-bit variant IDs.
pub fn fits_variant_ids(records: &Vec<VariantRecord>) -> (r: bool)
    ensures
        r == (alt_count(records@, records@.len() as int) < u32::MAX),
{
    let mut total: u64 = 0;
    let mut k: usize = 0;
    while k < records.len()
        invariant
            k <= records@.len(),
            total == alt_count(records@, k as int),
            total < u32::MAX,
        decreases records@.len() - k,
    {
        let n = records[k].alleles.len();
        let more: u64 = if n >= 1 { (n - 1) as u64 } else { 0 };
        if more >= u32::MAX as u64 - total {
            proof {
                lemma_alt_count_monotone(records@, k + 1, records@.len() as int);
            }
            return false;
        }
        total = total + more;
        k = k + 1;
    }
    true
}

pub open spec fn variant_views(rows: Seq<VariantRow>) -> Seq<VariantRowView> {
    rows.map_values(|r: VariantRow| r@)
}

proof fn lemma_variant_views_push(rows: Seq<VariantRow>, r: VariantRow)
    ensures
        variant_views(rows.push(r)) == variant_views(rows).push(r@),
{
    assert(variant_views(rows.push(r)) =~= variant_views(rows).push(r@));
}

fn vcf_id_string(id: &String) -> (r: Option<String>)
    ensures
        match r {
            Some(s) => vcf_id_of(id@) == Some(s@),
            None => vcf_id_of(id@) is None,
        },
{
    let dot = String::from_str(".");
    proof {
        reveal_strlit(".");
    }
    if id.as_str().unicode_len() == 0 || *id == dot {
        None
    } else {
        Some(id.clone())
    }
}

fn copy_id(v: &Option<String>) -> (r: Option<String>)
    ensures
        match (r, *v) {
            (Some(a), Some(b)) => a@ == b@,
            (None, None) => true,
            _ => false,
        },
{
    match v {
        Some(s) => Some(s.clone()),
        None => None,
    }
}

/// The variant table of one region: for each record in `[start, stop]`,
/// each alternate allele and each sample, one row with the sample's
/// genotype, in order. Variants are numbered in the order they are first
/// seen, counting a (position, reference, alternate) triple once.
pub fn extract_variants(
    records: &Vec<VariantRecord>,
    samples: &Vec<String>,
    chr: &String,
    start: u64,
    stop: u64,
) -> (rows: Vec<VariantRow>)
    requires
        alt_count(records@, records@.len() as int) < u32::MAX,
    ensures
        variant_views(rows@) == variant_table(chr@, samples@, records@, start, stop, records@.len() as int).0,
{
    let ghost total = alt_count(records@, records@.len() as int);
    let mut rows: Vec<VariantRow> = Vec::new();
    let mut keys: Vec<(u64, String, String)> = Vec::new();
    let mut k: usize = 0;
    assert(variant_views(rows@) =~= Seq::<VariantRowView>::empty());
    assert(key_views(keys@) =~= Seq::<VariantKey>::empty());
    while k < records.len()
        invariant
            k <= records@.len(),
            total == alt_count(records@, records@.len() as int),
            total < u32::MAX,
            variant_views(rows@) == variant_table(chr@, samples@, records@, start, stop, k as int).0,
            key_views(keys@) == variant_table(chr@, samples@, records@, start, stop, k as int).1,
            distinct(key_views(keys@)),
            keys@.len() <= alt_count(records@, k as int),
        decreases records@.len() - k,
    {
        let r = &records[k];
        proof {
            lemma_alt_count_monotone(records@, k + 1, records@.len() as int);
        }
        let inside = if r.pos >= 0 && r.alleles.len() >= 1 {
            let p = r.pos as u64 + 1;
            start <= p && p <= stop
        } else {
            false
        };
        if inside {
            let ghost base = variant_views(rows@);
            let ghost known = key_views(keys@);
            let pos = r.pos as u64 + 1;
            let vcf_id = vcf_id_string(&r.id);
            let mut j: usize = 1;
            assert(base + record_variant_rows(chr@, samples@, *r, known, 1) =~= base);
            while j < r.alleles.len()
                invariant
                    1 <= j <= r.alleles@.len(),
                    k < records@.len(),
                    r == records@[k as int],
                    in_region(*r, start, stop),
                    pos == r.pos + 1,
                    vcf_id matches Some(s) ==> vcf_id_of(r.id@) == Some(s@),
                    vcf_id is None ==> vcf_id_of(r.id@) is None,
                    total < u32::MAX,
                    alt_count(records@, k + 1) <= total,
                    alt_count(records@, k + 1) == alt_count(records@, k as int) + r.alleles@.len() - 1,
                    keys@.len() <= alt_count(records@, k as int) + j - 1,
                    variant_views(rows@) == base + record_variant_rows(chr@, samples@, *r, known, j as int),
                    key_views(keys@) == keys_before_alt(*r, known, j as int),
                    distinct(key_views(keys@)),
                decreases r.alleles@.len() - j,
            {
                let ghost before_keys = key_views(keys@);
                let id = variant_id(&mut keys, pos, &r.alleles[0], &r.alleles[j]);
                assert(key_views(keys@) == keys_before_alt(*r, known, j + 1));
                assert(keys@.len() <= before_keys.len() + 1);
                let ghost mid = variant_views(rows@);
                let ghost target = alt_rows(chr@, samples@, *r, known, j as int);
                let mut s: usize = 0;
                assert(mid + target.take(0) =~= mid);
                while s < samples.len()
                    invariant
                        s <= samples@.len(),
                        j < r.alleles@.len(),
                        k < records@.len(),
                        r == records@[k as int],
                        pos == r.pos + 1,
                        id < keys@.len(),
                        keys@.len() < u32::MAX,
                        id == id_of(key_views(keys@), key_of(*r, j as int)),
                        key_views(keys@) == with_key(keys_before_alt(*r, known, j as int), key_of(*r, j as int)),
                        vcf_id matches Some(x) ==> vcf_id_of(r.id@) == Some(x@),
                        vcf_id is None ==> vcf_id_of(r.id@) is None,
                        target == alt_rows(chr@, samples@, *r, known, j as int),
                        variant_views(rows@) == mid + target.take(s as int),
                    decreases samples@.len() - s,
                {
                    let genotype = if s < r.genotypes.len() {
                        genotype_string(&r.genotypes[s])
                    } else {
                        let mut g = String::new();
                        g.append("./.");
                        assert(g@ =~= genotype_text(Seq::<GenotypeAllele>::empty()));
                        g
                    };
                    let row = VariantRow {
                        chromosome: chr.clone(),
                        position: pos,
                        ref_allele: r.alleles[0].clone(),
                        alt_allele: r.alleles[j].clone(),
                        sample_name: samples[s].clone(),
                        genotype,
                        variant_id: id as u32,
                        vcf_id: copy_id(&vcf_id),
                    };
                    assert(row@ == target[s as int]);
                    proof {
                        lemma_variant_views_push(rows@, row);
                    }
                    rows.push(row);
                    s = s + 1;
                    assert(variant_views(rows@) =~= mid + target.take(s as int));
                }
                assert(target.take(samples@.len() as int) =~= target);
                assert(base + record_variant_rows(chr@, samples@, *r, known, j + 1) =~= mid + target);
                j = j + 1;
            }
        } else {
            proof {
                assert(!in_region(*r, start, stop));
            }
        }
        k = k + 1;
    }
    rows
}

} // verus!
