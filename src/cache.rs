use vstd::prelude::*;
use vstd::wrapping::u64_specs::wrapping_mul;
use vstd::string::*;

use crate::locus::Locus;
use crate::alignment::{element_code, AlignmentElement, ElementType, ElementView};
use crate::stage::{row_views, SourceFile, TableRow};

verus! {

pub const FNV_OFFSET: u64 = 0xcbf29ce484222325;

pub const FNV_PRIME: u64 = 0x100000001b3;

/// One FNV-1a round: mix `x` into `h`.
pub open spec fn mix(h: u64, x: u64) -> u64 {
    wrapping_mul(h ^ x, FNV_PRIME)
}

/// FNV-1a over the code points of `s`.
pub open spec fn text_hash(s: Seq<char>) -> u64
    decreases s.len(),
{
    if s.len() == 0 {
        FNV_OFFSET
    } else {
        mix(text_hash(s.drop_last()), s.last() as u64)
    }
}

/// FNV-1a over a sequence of 64-bit values.
pub open spec fn combine(q: Seq<u64>) -> u64
    decreases q.len(),
{
    if q.len() == 0 {
        FNV_OFFSET
    } else {
        mix(combine(q.drop_last()), q.last())
    }
}

pub open spec fn strictly_increasing(q: Seq<u64>) -> bool {
    forall|i: int, j: int| 0 <= i < j < q.len() ==> q[i] < q[j]
}

/// The hashes of a list of source identifiers, as a set.
pub open spec fn source_hashes(ids: Seq<Seq<char>>) -> Set<u64> {
    Set::new(|h: u64| exists|i: int| 0 <= i < ids.len() && text_hash(#[trigger] ids[i]) == h)
}

/// The elements of `s` in increasing order.
pub open spec fn ascending(s: Set<u64>) -> Seq<u64> {
    choose|q: Seq<u64>| strictly_increasing(q) && q.to_set() == s
}

/// The fingerprint of a set of source identifiers: FNV-1a over their
/// hashes, sorted, each counted once.
pub open spec fn fingerprint_of(ids: Seq<Seq<char>>) -> u64 {
    combine(ascending(source_hashes(ids)))
}

pub open spec fn source_ids(sources: Seq<SourceFile>) -> Seq<Seq<char>> {
    sources.map_values(|s: SourceFile| s.url@)
}

proof fn lemma_ascending_unique(q1: Seq<u64>, q2: Seq<u64>)
    requires
        strictly_increasing(q1),
        strictly_increasing(q2),
        q1.to_set() == q2.to_set(),
    ensures
        q1 == q2,
    decreases q1.len(),
{
    if q1.len() == 0 {
        if q2.len() > 0 {
            assert(q2.to_set().contains(q2[0]));
        }
        assert(q1 =~= q2);
    } else {
        if q2.len() == 0 {
            assert(q1.to_set().contains(q1[0]));
        }
        let m1 = q1.last();
        let m2 = q2.last();
        assert(q1.to_set().contains(m1));
        assert(q2.to_set().contains(m2));
        assert(q2.contains(m1));
        assert(q1.contains(m2));
        let i2 = choose|i: int| 0 <= i < q2.len() && q2[i] == m1;
        let i1 = choose|i: int| 0 <= i < q1.len() && q1[i] == m2;
        assert(m1 <= m2) by {
            if i2 < q2.len() - 1 {
                assert(q2[i2] < q2[q2.len() - 1]);
            }
        }
        assert(m2 <= m1) by {
            if i1 < q1.len() - 1 {
                assert(q1[i1] < q1[q1.len() - 1]);
            }
        }
        let d1 = q1.drop_last();
        let d2 = q2.drop_last();
        assert(d1.to_set() =~= d2.to_set()) by {
            assert forall|x: u64| d1.to_set().contains(x) implies d2.to_set().contains(x) by {
                let k = choose|k: int| 0 <= k < d1.len() && d1[k] == x;
                assert(q1[k] < m1);
                assert(q1.to_set().contains(x));
                assert(q2.contains(x));
                let k2 = choose|k2: int| 0 <= k2 < q2.len() && q2[k2] == x;
                assert(k2 != q2.len() - 1);
                assert(d2[k2] == x);
            }
            assert forall|x: u64| d2.to_set().contains(x) implies d1.to_set().contains(x) by {
                let k = choose|k: int| 0 <= k < d2.len() && d2[k] == x;
                assert(q2[k] < m2);
                assert(q2.to_set().contains(x));
                assert(q1.contains(x));
                let k1 = choose|k1: int| 0 <= k1 < q1.len() && q1[k1] == x;
                assert(k1 != q1.len() - 1);
                assert(d1[k1] == x);
            }
        }
        lemma_ascending_unique(d1, d2);
        assert(q1 =~= d1.push(m1));
        assert(q2 =~= d2.push(m2));
    }
}

fn hash_text(s: &String) -> (h: u64)
    ensures
        h == text_hash(s@),
{
    let n = s.as_str().unicode_len();
    let mut h: u64 = FNV_OFFSET;
    let mut i: usize = 0;
    while i < n
        invariant
            n == s@.len(),
            i <= n,
            h == text_hash(s@.take(i as int)),
        decreases n - i,
    {
        let c = s.as_str().get_char(i);
        assert(s@.take(i + 1).drop_last() =~= s@.take(i as int));
        h = (h ^ (c as u64)).wrapping_mul(FNV_PRIME);
        i = i + 1;
    }
    assert(s@.take(n as int) =~= s@);
    h
}

/// The fingerprint of a set of sources: it depends on which identifiers
/// (URLs or paths) they have, not on their order or repetition.
pub fn fingerprint(sources: &Vec<SourceFile>) -> (r: u64)
    ensures
        r == fingerprint_of(source_ids(sources@)),
{
    let ghost ids = source_ids(sources@);
    let mut q: Vec<u64> = Vec::new();
    let mut i: usize = 0;
    assert(q@.to_set() =~= source_hashes(ids.take(0)));
    while i < sources.len()
        invariant
            ids == source_ids(sources@),
            i <= sources@.len(),
            strictly_increasing(q@),
            q@.to_set() == source_hashes(ids.take(i as int)),
        decreases sources@.len() - i,
    {
        let h = hash_text(&sources[i].url);
        assert(ids[i as int] == sources@[i as int].url@);
        let mut p: usize = 0;
        while p < q.len() && q[p] < h
            invariant
                p <= q@.len(),
                forall|k: int| 0 <= k < p ==> q@[k] < h,
            decreases q@.len() - p,
        {
            p = p + 1;
        }
        let ghost old_q = q@;
        if p < q.len() && q[p] == h {
            assert(q@.to_set() =~= source_hashes(ids.take(i + 1))) by {
                assert forall|x: u64| source_hashes(ids.take(i + 1)).contains(x) implies q@.to_set().contains(x) by {
                    let k = choose|k: int| 0 <= k < i + 1 && text_hash(#[trigger] ids.take(i + 1)[k]) == x;
                    if k < i {
                        assert(ids.take(i as int)[k] == ids.take(i + 1)[k]);
                        assert(source_hashes(ids.take(i as int)).contains(x));
                    } else {
                        assert(q@[p as int] == x);
                    }
                }
                assert forall|x: u64| q@.to_set().contains(x) implies source_hashes(ids.take(i + 1)).contains(x) by {
                    assert(source_hashes(ids.take(i as int)).contains(x));
                    let k = choose|k: int| 0 <= k < i && text_hash(#[trigger] ids.take(i as int)[k]) == x;
                    assert(ids.take(i + 1)[k] == ids.take(i as int)[k]);
                }
            }
        } else {
            q.insert(p, h);
            assert(strictly_increasing(q@)) by {
                assert forall|a: int, b: int| 0 <= a < b < q@.len() implies q@[a] < q@[b] by {
                    if b < p {
                        assert(q@[a] == old_q[a] && q@[b] == old_q[b]);
                    } else if b == p {
                        assert(q@[a] == old_q[a]);
                    } else if a == p {
                        assert(q@[b] == old_q[b - 1]);
                        if b - 1 > p {
                            assert(old_q[p as int] < old_q[b - 1]);
                        }
                    } else if a < p {
                        assert(q@[a] == old_q[a] && q@[b] == old_q[b - 1]);
                    } else {
                        assert(q@[a] == old_q[a - 1] && q@[b] == old_q[b - 1]);
                    }
                }
            }
            assert(q@.to_set() =~= source_hashes(ids.take(i + 1))) by {
                assert forall|x: u64| source_hashes(ids.take(i + 1)).contains(x) implies q@.to_set().contains(x) by {
                    let k = choose|k: int| 0 <= k < i + 1 && text_hash(#[trigger] ids.take(i + 1)[k]) == x;
                    if k < i {
                        assert(ids.take(i as int)[k] == ids.take(i + 1)[k]);
                        assert(source_hashes(ids.take(i as int)).contains(x));
                        assert(old_q.contains(x));
                        let w = choose|w: int| 0 <= w < old_q.len() && old_q[w] == x;
                        if w < p {
                            assert(q@[w] == x);
                        } else {
                            assert(q@[w + 1] == x);
                        }
                    } else {
                        assert(q@[p as int] == x);
                    }
                }
                assert forall|x: u64| q@.to_set().contains(x) implies source_hashes(ids.take(i + 1)).contains(x) by {
                    let w = choose|w: int| 0 <= w < q@.len() && q@[w] == x;
                    if w == p {
                        assert(ids.take(i + 1)[i as int] == ids[i as int]);
                    } else {
                        if w < p {
                            assert(old_q[w] == x);
                        } else {
                            assert(old_q[w - 1] == x);
                        }
                        assert(old_q.to_set().contains(x));
                        let k = choose|k: int| 0 <= k < i && text_hash(#[trigger] ids.take(i as int)[k]) == x;
                        assert(ids.take(i + 1)[k] == ids.take(i as int)[k]);
                    }
                }
            }
        }
        i = i + 1;
    }
    assert(ids.take(sources@.len() as int) =~= ids);
    proof {
        let a = ascending(source_hashes(ids));
        assert(strictly_increasing(a) && a.to_set() == source_hashes(ids));
        lemma_ascending_unique(q@, a);
    }
    let mut r: u64 = FNV_OFFSET;
    let mut j: usize = 0;
    while j < q.len()
        invariant
            j <= q@.len(),
            r == combine(q@.take(j as int)),
        decreases q@.len() - j,
    {
        assert(q@.take(j + 1).drop_last() =~= q@.take(j as int));
        r = (r ^ q[j]).wrapping_mul(FNV_PRIME);
        j = j + 1;
    }
    assert(q@.take(q@.len() as int) =~= q@);
    r
}

/// Two lists that name the same set of sources have the same fingerprint,
/// whatever their order and repetitions.
pub proof fn fingerprint_ignores_order(a: Seq<Seq<char>>, b: Seq<Seq<char>>)
    requires
        a.to_set() == b.to_set(),
    ensures
        fingerprint_of(a) == fingerprint_of(b),
{
    assert(source_hashes(a) =~= source_hashes(b)) by {
        assert forall|h: u64| source_hashes(a).contains(h) implies source_hashes(b).contains(h) by {
            let i = choose|i: int| 0 <= i < a.len() && text_hash(#[trigger] a[i]) == h;
            assert(a.to_set().contains(a[i]));
            assert(b.contains(a[i]));
            let j = choose|j: int| 0 <= j < b.len() && b[j] == a[i];
            assert(text_hash(b[j]) == h);
        }
        assert forall|h: u64| source_hashes(b).contains(h) implies source_hashes(a).contains(h) by {
            let i = choose|i: int| 0 <= i < b.len() && text_hash(#[trigger] b[i]) == h;
            assert(b.to_set().contains(b[i]));
            assert(a.contains(b[i]));
            let j = choose|j: int| 0 <= j < a.len() && a[j] == b[i];
            assert(text_hash(a[j]) == h);
        }
    }
}


/// The decimal digits of `n`, most significant first.
pub open spec fn decimal_text(n: nat) -> Seq<char>
    decreases n,
{
    if n < 10 {
        seq!["0123456789"@[n as int]]
    } else {
        decimal_text(n / 10).push("0123456789"@[(n % 10) as int])
    }
}

pub(crate) fn append_decimal(s: &mut String, n: u64)
    ensures
        final(s)@ == old(s)@ + decimal_text(n as nat),
    decreases n,
{
    let digits = "0123456789";
    proof {
        reveal_strlit("0123456789");
    }
    if n >= 10 {
        append_decimal(s, n / 10);
    }
    let d = (n % 10) as usize;
    let one = digits.substring_char(d, d + 1);
    assert(one@ =~= seq!["0123456789"@[d as int]]);
    s.append(one);
    proof {
        if n >= 10 {
            assert(old(s)@ + decimal_text((n / 10) as nat) + one@ =~= old(s)@ + decimal_text(n as nat));
        } else {
            assert(old(s)@ + one@ =~= old(s)@ + decimal_text(n as nat));
        }
    }
}

/// The file name of the cached table of `locus` for sources of fingerprint
/// `f`: `{contig}_{start}_{stop}_{f}.parquet`.
pub open spec fn artifact_name(contig: Seq<char>, start: u64, stop: u64, f: u64) -> Seq<char> {
    contig + "_"@ + decimal_text(start as nat) + "_"@ + decimal_text(stop as nat) + "_"@ + decimal_text(
        f as nat,
    ) + ".parquet"@
}

/// The local file name of a cached table, derived from the cache key alone.
pub fn artifact_file_name(locus: &Locus, fingerprint: u64) -> (r: String)
    ensures
        r@ == artifact_name(locus.contig@, locus.start, locus.stop, fingerprint),
{
    let mut s = locus.contig.clone();
    s.append("_");
    append_decimal(&mut s, locus.start);
    s.append("_");
    append_decimal(&mut s, locus.stop);
    s.append("_");
    append_decimal(&mut s, fingerprint);
    s.append(".parquet");
    s
}

/// The mirror location of a cached table: `name` under the mirror base,
/// joined by exactly one `/`.
pub open spec fn mirror_uri_of(base: Seq<char>, name: Seq<char>) -> Seq<char> {
    if base.len() > 0 && base.last() == '/' {
        base + name
    } else {
        base + "/"@ + name
    }
}

pub fn mirror_uri(base: &String, name: &String) -> (r: String)
    ensures
        r@ == mirror_uri_of(base@, name@),
{
    let mut s = base.clone();
    let n = base.as_str().unicode_len();
    if n == 0 || base.as_str().get_char(n - 1) != '/' {
        s.append("/");
    }
    s.append(name.as_str());
    s
}

/// Whether a locus must be fetched anew: its cached table is missing, or
/// the sources its rows came from are not exactly the requested ones (the
/// table was computed for another source set).
pub open spec fn should_fetch(present: bool, cached: Seq<Seq<char>>, requested: Seq<Seq<char>>) -> bool {
    !present || cached.to_set() != requested.to_set()
}

pub open spec fn string_views(v: Seq<String>) -> Seq<Seq<char>> {
    v.map_values(|s: String| s@)
}

fn contains_text(v: &Vec<SourceFile>, t: &String) -> (r: bool)
    ensures
        r == source_ids(v@).contains(t@),
{
    let mut i: usize = 0;
    while i < v.len()
        invariant
            i <= v@.len(),
            forall|j: int| 0 <= j < i ==> (#[trigger] v@[j]).url@ != t@,
        decreases v@.len() - i,
    {
        if v[i].url == *t {
            assert(source_ids(v@)[i as int] == t@);
            return true;
        }
        i = i + 1;
    }
    assert(!source_ids(v@).contains(t@)) by {
        if source_ids(v@).contains(t@) {
            let j = choose|j: int| 0 <= j < v@.len() && source_ids(v@)[j] == t@;
            assert(v@[j].url@ != t@);
        }
    }
    false
}

fn contains_string(v: &Vec<String>, t: &String) -> (r: bool)
    ensures
        r == string_views(v@).contains(t@),
{
    let mut i: usize = 0;
    while i < v.len()
        invariant
            i <= v@.len(),
            forall|j: int| 0 <= j < i ==> (#[trigger] v@[j])@ != t@,
        decreases v@.len() - i,
    {
        if v[i] == *t {
            assert(string_views(v@)[i as int] == t@);
            return true;
        }
        i = i + 1;
    }
    assert(!string_views(v@).contains(t@)) by {
        if string_views(v@).contains(t@) {
            let j = choose|j: int| 0 <= j < v@.len() && string_views(v@)[j] == t@;
            assert(v@[j]@ != t@);
        }
    }
    false
}

/// Decides whether a locus must be fetched anew, given whether its cached
/// table exists and, if so, the source paths its rows came from.
pub fn locus_should_be_fetched(present: bool, cached_paths: &Vec<String>, requested: &Vec<SourceFile>) -> (r: bool)
    ensures
        r == should_fetch(present, string_views(cached_paths@), source_ids(requested@)),
{
    if !present {
        return true;
    }
    let ghost cached = string_views(cached_paths@);
    let ghost wanted = source_ids(requested@);
    let mut i: usize = 0;
    while i < cached_paths.len()
        invariant
            cached == string_views(cached_paths@),
            wanted == source_ids(requested@),
            i <= cached_paths@.len(),
            forall|j: int| 0 <= j < i ==> wanted.contains(#[trigger] cached[j]),
        decreases cached_paths@.len() - i,
    {
        if !contains_text(requested, &cached_paths[i]) {
            assert(cached.to_set().contains(cached[i as int]));
            assert(!wanted.to_set().contains(cached[i as int]));
            return true;
        }
        i = i + 1;
    }
    let mut j: usize = 0;
    while j < requested.len()
        invariant
            cached == string_views(cached_paths@),
            wanted == source_ids(requested@),
            j <= requested@.len(),
            forall|x: int| 0 <= x < cached.len() ==> wanted.contains(#[trigger] cached[x]),
            forall|x: int| 0 <= x < j ==> cached.contains(#[trigger] wanted[x]),
        decreases requested@.len() - j,
    {
        assert(wanted[j as int] == requested@[j as int].url@);
        if !contains_string(cached_paths, &requested[j].url) {
            assert(wanted.to_set().contains(wanted[j as int]));
            assert(!cached.to_set().contains(wanted[j as int]));
            return true;
        }
        j = j + 1;
    }
    assert(cached.to_set() =~= wanted.to_set()) by {
        assert forall|x: Seq<char>| cached.to_set().contains(x) implies wanted.to_set().contains(x) by {
            let k = choose|k: int| 0 <= k < cached.len() && cached[k] == x;
            assert(wanted.contains(cached[k]));
        }
        assert forall|x: Seq<char>| wanted.to_set().contains(x) implies cached.to_set().contains(x) by {
            let k = choose|k: int| 0 <= k < wanted.len() && wanted[k] == x;
            assert(cached.contains(wanted[k]));
        }
    }
    false
}

/// Where a cached table is read from next.
#[derive(Debug, Clone, Copy, PartialEq, Eq, Structural)]
pub enum CacheReadAction {
    /// Read the local copy.
    LoadLocal,
    /// Download the mirror's copy into the local path, then check again.
    DownloadFromMirror,
    /// No copy is to be had: extract the table afresh.
    Extract,
}

/// The read path of the cache: the local copy if it exists; else, unless a
/// download was already tried, the mirror's copy if it has one; else a fresh
/// extraction.
pub fn cache_read_step(downloaded: bool, local_exists: bool, mirror_exists: bool) -> (r: CacheReadAction)
    ensures
        r == (if local_exists {
            CacheReadAction::LoadLocal
        } else if !downloaded && mirror_exists {
            CacheReadAction::DownloadFromMirror
        } else {
            CacheReadAction::Extract
        }),
{
    if local_exists {
        CacheReadAction::LoadLocal
    } else if !downloaded && mirror_exists {
        CacheReadAction::DownloadFromMirror
    } else {
        CacheReadAction::Extract
    }
}

/// Why a table could not be cached.
#[derive(Debug, Clone, Copy, PartialEq, Eq, Structural)]
pub enum CacheError {
    /// The local copy could not be written.
    LocalWrite,
}

/// What follows the local write of a cached table.
#[derive(Debug, Clone, Copy, PartialEq, Eq, Structural)]
pub enum CacheWriteAction {
    /// Upload the local copy to the mirror, best effort.
    UploadToMirror,
    /// Nothing more to do.
    Done,
}

/// The write path of the cache: a failed local write is fatal; after a
/// successful one the table is mirrored when a mirror is configured. What
/// the upload then does is never fatal.
pub fn cache_write_step(local_written: bool, has_mirror: bool) -> (r: Result<CacheWriteAction, CacheError>)
    ensures
        r == (if !local_written {
            Err::<CacheWriteAction, CacheError>(CacheError::LocalWrite)
        } else if has_mirror {
            Ok::<CacheWriteAction, CacheError>(CacheWriteAction::UploadToMirror)
        } else {
            Ok::<CacheWriteAction, CacheError>(CacheWriteAction::Done)
        }),
{
    if !local_written {
        Err(CacheError::LocalWrite)
    } else if has_mirror {
        Ok(CacheWriteAction::UploadToMirror)
    } else {
        Ok(CacheWriteAction::Done)
    }
}


/// A table as the columns a cached file stores, one entry per row in each.
pub struct TableColumns {
    pub cohort: Vec<String>,
    pub bam_path: Vec<String>,
    pub reference_contig: Vec<String>,
    pub reference_start: Vec<u32>,
    pub reference_end: Vec<u32>,
    pub is_forward: Vec<bool>,
    pub query_name: Vec<String>,
    pub haplotype: Vec<i32>,
    pub read_group: Vec<String>,
    pub sample_name: Vec<String>,
    pub element_type: Vec<u8>,
    pub sequence: Vec<Vec<u8>>,
    pub column_width: Vec<u32>,
}

/// Why columns could not be read back as rows.
#[derive(Debug, Clone, Copy, PartialEq, Eq, Structural)]
pub enum ColumnsError {
    /// The columns do not all have the same length.
    Ragged,
    /// An element-type code names no kind.
    BadElementType,
}

pub open spec fn kind_of_code(code: u8) -> ElementType {
    if code == 0 {
        ElementType::READ
    } else if code == 1 {
        ElementType::DIFF
    } else if code == 2 {
        ElementType::INSERTION
    } else if code == 3 {
        ElementType::DELETION
    } else {
        ElementType::SOFTCLIP
    }
}

pub open spec fn same_lengths(c: TableColumns) -> bool {
    let n = c.cohort@.len();
    &&& c.bam_path@.len() == n
    &&& c.reference_contig@.len() == n
    &&& c.reference_start@.len() == n
    &&& c.reference_end@.len() == n
    &&& c.is_forward@.len() == n
    &&& c.query_name@.len() == n
    &&& c.haplotype@.len() == n
    &&& c.read_group@.len() == n
    &&& c.sample_name@.len() == n
    &&& c.element_type@.len() == n
    &&& c.sequence@.len() == n
    &&& c.column_width@.len() == n
}

pub open spec fn known_codes(c: TableColumns) -> bool {
    forall|i: int| 0 <= i < c.element_type@.len() ==> #[trigger] c.element_type@[i] <= 4
}

/// The i-th row that the columns hold.
pub open spec fn row_at(c: TableColumns, i: int) -> (Seq<char>, Seq<char>, ElementView) {
    (
        c.cohort@[i]@,
        c.bam_path@[i]@,
        ElementView {
            reference_contig: c.reference_contig@[i]@,
            reference_start: c.reference_start@[i] as int,
            reference_end: c.reference_end@[i] as int,
            is_forward: c.is_forward@[i],
            query_name: c.query_name@[i]@,
            haplotype: c.haplotype@[i],
            read_group: c.read_group@[i]@,
            sample_name: c.sample_name@[i]@,
            element_type: kind_of_code(c.element_type@[i]),
            sequence: c.sequence@[i]@,
            column_width: c.column_width@[i] as int,
        },
    )
}

/// Whether the columns hold exactly `rows`, field by field, kinds by code.
pub open spec fn holds_rows(c: TableColumns, rows: Seq<(Seq<char>, Seq<char>, ElementView)>) -> bool {
    &&& same_lengths(c)
    &&& c.cohort@.len() == rows.len()
    &&& forall|i: int|
        0 <= i < rows.len() ==> {
            &&& c.cohort@[i]@ == (#[trigger] rows[i]).0
            &&& c.bam_path@[i]@ == rows[i].1
            &&& c.reference_contig@[i]@ == rows[i].2.reference_contig
            &&& c.reference_start@[i] as int == rows[i].2.reference_start
            &&& c.reference_end@[i] as int == rows[i].2.reference_end
            &&& c.is_forward@[i] == rows[i].2.is_forward
            &&& c.query_name@[i]@ == rows[i].2.query_name
            &&& c.haplotype@[i] == rows[i].2.haplotype
            &&& c.read_group@[i]@ == rows[i].2.read_group
            &&& c.sample_name@[i]@ == rows[i].2.sample_name
            &&& c.element_type@[i] == element_code(rows[i].2.element_type)
            &&& c.sequence@[i]@ == rows[i].2.sequence
            &&& c.column_width@[i] as int == rows[i].2.column_width
        }
}

/// Writing a table as columns and reading them back gives the same rows, in
/// the same order.
pub proof fn columns_round_trip(c: TableColumns, rows: Seq<(Seq<char>, Seq<char>, ElementView)>)
    requires
        holds_rows(c, rows),
    ensures
        same_lengths(c),
        known_codes(c),
        forall|i: int| 0 <= i < rows.len() ==> row_at(c, i) == #[trigger] rows[i],
{
    assert forall|i: int| 0 <= i < c.element_type@.len() implies #[trigger] c.element_type@[i] <= 4 by {
        assert(c.element_type@[i] == element_code(rows[i].2.element_type));
    }
    assert forall|i: int| 0 <= i < rows.len() implies row_at(c, i) == #[trigger] rows[i] by {
        assert(kind_of_code(element_code(rows[i].2.element_type)) == rows[i].2.element_type);
    }
}

/// The columns of a table.
pub fn to_columns(rows: &Vec<TableRow>) -> (c: TableColumns)
    ensures
        holds_rows(c, row_views(rows@)),
{
    let mut c = TableColumns {
        cohort: Vec::new(),
        bam_path: Vec::new(),
        reference_contig: Vec::new(),
        reference_start: Vec::new(),
        reference_end: Vec::new(),
        is_forward: Vec::new(),
        query_name: Vec::new(),
        haplotype: Vec::new(),
        read_group: Vec::new(),
        sample_name: Vec::new(),
        element_type: Vec::new(),
        sequence: Vec::new(),
        column_width: Vec::new(),
    };
    let mut i: usize = 0;
    while i < rows.len()
        invariant
            i <= rows@.len(),
            holds_rows(c, row_views(rows@).take(i as int)),
        decreases rows@.len() - i,
    {
        let r = &rows[i];
        let e = &r.element;
        c.cohort.push(r.cohort.clone());
        c.bam_path.push(r.bam_path.clone());
        c.reference_contig.push(e.reference_contig.clone());
        c.reference_start.push(e.reference_start);
        c.reference_end.push(e.reference_end);
        c.is_forward.push(e.is_forward);
        c.query_name.push(e.query_name.clone());
        c.haplotype.push(e.haplotype);
        c.read_group.push(e.read_group.clone());
        c.sample_name.push(e.sample_name.clone());
        c.element_type.push(e.element_type.to_u8());
        c.sequence.push(e.sequence.clone());
        c.column_width.push(e.column_width);
        assert(row_views(rows@).take(i + 1)[i as int] == r@);
        assert forall|j: int| 0 <= j < i implies #[trigger] row_views(rows@).take(i + 1)[j] == row_views(rows@).take(i as int)[j] by {}
        i = i + 1;
    }
    assert(row_views(rows@).take(rows@.len() as int) =~= row_views(rows@));
    c
}

fn kind_from_code(code: u8) -> (r: ElementType)
    requires
        code <= 4,
    ensures
        r == kind_of_code(code),
{
    match ElementType::from_u8(code) {
        Some(k) => k,
        None => ElementType::READ,
    }
}

/// The rows that columns hold; an error where the columns differ in length
/// or an element-type code names no kind.
pub fn from_columns(c: &TableColumns) -> (r: Result<Vec<TableRow>, ColumnsError>)
    ensures
        match r {
            Ok(rows) => same_lengths(*c) && known_codes(*c) && rows@.len() == c.cohort@.len() && forall|i: int|
                0 <= i < rows@.len() ==> (#[trigger] rows@[i])@ == row_at(*c, i),
            Err(e) => (e == ColumnsError::Ragged && !same_lengths(*c)) || (e == ColumnsError::BadElementType
                && same_lengths(*c) && !known_codes(*c)),
        },
{
    let n = c.cohort.len();
    if c.bam_path.len() != n || c.reference_contig.len() != n || c.reference_start.len() != n
        || c.reference_end.len() != n || c.is_forward.len() != n || c.query_name.len() != n
        || c.haplotype.len() != n || c.read_group.len() != n || c.sample_name.len() != n
        || c.element_type.len() != n || c.sequence.len() != n || c.column_width.len() != n {
        return Err(ColumnsError::Ragged);
    }
    let mut rows: Vec<TableRow> = Vec::new();
    let mut i: usize = 0;
    while i < n
        invariant
            n == c.cohort@.len(),
            same_lengths(*c),
            i <= n,
            rows@.len() == i,
            forall|j: int| 0 <= j < i ==> #[trigger] c.element_type@[j] <= 4,
            forall|j: int| 0 <= j < i ==> (#[trigger] rows@[j])@ == row_at(*c, j),
        decreases n - i,
    {
        let code = c.element_type[i];
        if code > 4 {
            return Err(ColumnsError::BadElementType);
        }
        let e = AlignmentElement {
            reference_contig: c.reference_contig[i].clone(),
            reference_start: c.reference_start[i],
            reference_end: c.reference_end[i],
            is_forward: c.is_forward[i],
            query_name: c.query_name[i].clone(),
            haplotype: c.haplotype[i],
            read_group: c.read_group[i].clone(),
            sample_name: c.sample_name[i].clone(),
            element_type: kind_from_code(code),
            sequence: c.sequence[i].clone(),
            column_width: c.column_width[i],
        };
        rows.push(TableRow { cohort: c.cohort[i].clone(), bam_path: c.bam_path[i].clone(), element: e });
        i = i + 1;
    }
    Ok(rows)
}

} // verus!
