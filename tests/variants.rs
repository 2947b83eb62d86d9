use genomeshader::variants::{
    extract_variants, fits_variant_ids, genotype_string, GenotypeAllele, VariantRecord,
};

fn s(x: &str) -> String {
    x.to_string()
}

fn rec(pos: i64, id: &str, alleles: &[&str], genotypes: Vec<Vec<GenotypeAllele>>) -> VariantRecord {
    VariantRecord { pos, id: s(id), alleles: alleles.iter().map(|a| s(a)).collect(), genotypes }
}

#[test]
fn genotypes_are_written_as_calls() {
    let p = GenotypeAllele::Phased;
    let u = GenotypeAllele::Unphased;
    assert_eq!(genotype_string(&vec![u(0), p(1)]), "0|1");
    assert_eq!(genotype_string(&vec![u(0), u(1)]), "0/1");
    assert_eq!(genotype_string(&vec![p(0), u(1)]), "0/1");
    assert_eq!(genotype_string(&vec![p(0), p(1)]), "0|1");
    assert_eq!(genotype_string(&vec![p(12), GenotypeAllele::PhasedMissing]), "12|.");
    assert_eq!(genotype_string(&vec![GenotypeAllele::UnphasedMissing, u(2)]), "./2");
    assert_eq!(genotype_string(&vec![GenotypeAllele::UnphasedMissing, GenotypeAllele::PhasedMissing]), ".|.");
    assert_eq!(genotype_string(&vec![u(3)]), "3");
    assert_eq!(genotype_string(&vec![GenotypeAllele::PhasedMissing]), "./.");
    assert_eq!(genotype_string(&vec![]), "./.");
    assert_eq!(genotype_string(&vec![u(-1), u(-2147483648)]), "-1/-2147483648");
}

#[test]
fn variants_get_one_row_per_alt_and_sample_with_stable_ids() {
    let samples = vec![s("s1"), s("s2")];
    let gt = |a: i32, b: i32| vec![GenotypeAllele::Unphased(a), GenotypeAllele::Phased(b)];
    let records = vec![
        rec(9, ".", &["A", "C", "G"], vec![gt(0, 1), gt(1, 2)]),
        rec(19, "rs7", &["T", "A"], vec![gt(0, 0)]),
        rec(99, "rs9", &["T", "A"], vec![gt(1, 1), gt(1, 1)]),
        rec(9, "", &["A", "G"], vec![gt(2, 2), gt(0, 2)]),
    ];
    let rows = extract_variants(&records, &samples, &s("chr1"), 10, 20);
    let got: Vec<(u64, String, String, String, u32, Option<String>)> = rows
        .iter()
        .map(|r| (r.position, r.alt_allele.clone(), r.sample_name.clone(), r.genotype.clone(), r.variant_id, r.vcf_id.clone()))
        .collect();
    assert_eq!(
        got,
        vec![
            (10, s("C"), s("s1"), s("0|1"), 0, None),
            (10, s("C"), s("s2"), s("1|2"), 0, None),
            (10, s("G"), s("s1"), s("0|1"), 1, None),
            (10, s("G"), s("s2"), s("1|2"), 1, None),
            (20, s("A"), s("s1"), s("0|0"), 2, Some(s("rs7"))),
            (20, s("A"), s("s2"), s("./."), 2, Some(s("rs7"))),
            (10, s("G"), s("s1"), s("2|2"), 1, None),
            (10, s("G"), s("s2"), s("0|2"), 1, None),
        ]
    );
    assert!(rows.iter().all(|r| r.chromosome == "chr1"));
    assert_eq!(rows[4].ref_allele, "T");
    assert!(fits_variant_ids(&records));
}
