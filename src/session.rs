use vstd::prelude::*;
use vstd::string::*;

use crate::cache::{
    columns_round_trip, fingerprint, fingerprint_of, from_columns, holds_rows, known_codes, row_at, same_lengths,
    source_ids, ColumnsError, TableColumns,
};
use crate::locus::{locus_of, parse_locus, Locus, LocusError};
use crate::stage::{row_views, SourceFile, TableRow};
use crate::staged::{has_fingerprint, range_before, staged_with, CacheArtifact, StagedIndex};
use crate::text::{ends_with, has_prefix, has_suffix, starts_with};

verus! {

/// What a parsed URL serializes to; the outcome depends on the text alone.
pub uninterp spec fn parsed_url(s: Seq<char>) -> Option<Seq<char>>;

/// Relies on url's `Url::parse`: whether the text parses as an absolute URL,
/// and the serialization (`Url::as_str`) of the URL it parses to.
#[verifier::external_body]
fn parse_url(s: &str) -> (r: Option<String>)
    ensures
        match r {
            Some(u) => parsed_url(s@) == Some(u@),
            None => parsed_url(s@) is None,
        },
{
    match url::Url::parse(s) {
        Ok(u) => Some(u.as_str().to_string()),
        Err(_) => None,
    }
}

/// Relies on url's `Url::from_file_path`: for a path it accepts (an absolute
/// one; the rules depend on the platform), the serialization of a URL that
/// begins with `file://`.
#[verifier::external_body]
fn file_path_url(s: &str) -> (r: Option<String>)
    ensures
        r matches Some(u) ==> has_prefix(u@, "file://"@),
{
    match url::Url::from_file_path(s) {
        Ok(u) => Some(u.as_str().to_string()),
        Err(_) => None,
    }
}

/// Why a session request was refused.
#[derive(Debug, Clone, Copy, PartialEq, Eq, Structural)]
pub enum SessionError {
    /// The file at this position of the request is neither `.bam` nor `.cram`.
    NotAlignmentFile(usize),
    /// The file at this position has a URL scheme but does not parse as a URL.
    BadUrl(usize),
    /// The file at this position is a path that makes no file URL.
    BadPath(usize),
    /// The locus text was refused.
    Locus(LocusError),
    /// No staged artifact covers the locus for the attached sources.
    NotStaged,
}

/// Whether a file name is that of an alignment file.
pub open spec fn is_alignment_file(f: Seq<char>) -> bool {
    has_suffix(f, ".bam"@) || has_suffix(f, ".cram"@)
}

/// Whether a file name already carries a URL scheme that sources use.
pub open spec fn has_scheme(f: Seq<char>) -> bool {
    has_prefix(f, "file://"@) || has_prefix(f, "gs://"@)
}

pub open spec fn source_view(s: SourceFile) -> (Seq<char>, Seq<char>) {
    (s.url@, s.cohort@)
}

pub open spec fn locus_view(l: Locus) -> (Seq<char>, u64, u64) {
    (l.contig@, l.start, l.stop)
}

/// The state behind a user's requests: attached sources, attached loci, and
/// the index of what has been staged.
pub struct Session {
    reads_cohort: Vec<SourceFile>,
    loci: Vec<Locus>,
    staged_tree: StagedIndex,
}

impl Session {
    pub closed spec fn wf(&self) -> bool {
        &&& self.staged_tree.wf()
        &&& forall|i: int| 0 <= i < self.loci@.len() ==> (#[trigger] self.loci@[i]).wf()
    }

    /// The attached sources, as (URL, cohort) pairs.
    pub closed spec fn sources(&self) -> Seq<(Seq<char>, Seq<char>)> {
        self.reads_cohort@.map_values(|s: SourceFile| source_view(s))
    }

    /// The attached loci.
    pub closed spec fn attached(&self) -> Seq<(Seq<char>, u64, u64)> {
        self.loci@.map_values(|l: Locus| locus_view(l))
    }

    pub closed spec fn index(&self) -> StagedIndex {
        self.staged_tree
    }

    /// The fingerprint of the attached sources.
    pub closed spec fn current_fingerprint(&self) -> u64 {
        fingerprint_of(source_ids(self.reads_cohort@))
    }

    pub fn new() -> (r: Session)
        ensures
            r.wf(),
            r.sources().len() == 0,
            r.attached().len() == 0,
            r.index().staged_count() == 0,
            forall|c: Seq<char>, a: u64, b: u64| r.index().stored(c, a, b) is None,
    {
        let r = Session { reads_cohort: Vec::new(), loci: Vec::new(), staged_tree: StagedIndex::new() };
        assert(r.sources() =~= Seq::<(Seq<char>, Seq<char>)>::empty());
        assert(r.attached() =~= Seq::<(Seq<char>, u64, u64)>::empty());
        r
    }

    /// Forgets every attached source and locus and everything staged.
    pub fn reset(&mut self)
        ensures
            final(self).wf(),
            final(self).sources().len() == 0,
            final(self).attached().len() == 0,
            final(self).index().staged_count() == 0,
            forall|c: Seq<char>, a: u64, b: u64| final(self).index().stored(c, a, b) is None,
    {
        *self = Session::new();
    }

    pub fn reads(&self) -> (r: &Vec<SourceFile>)
        ensures
            r@.map_values(|s: SourceFile| source_view(s)) == self.sources(),
    {
        &self.reads_cohort
    }

    pub fn attached_loci(&self) -> (r: &Vec<Locus>)
        requires
            self.wf(),
        ensures
            r@.map_values(|l: Locus| locus_view(l)) == self.attached(),
            forall|i: int| 0 <= i < r@.len() ==> (#[trigger] r@[i]).wf(),
    {
        &self.loci
    }

    pub fn fingerprint(&self) -> (r: u64)
        ensures
            r == self.current_fingerprint(),
    {
        fingerprint(&self.reads_cohort)
    }

    fn add_source(&mut self, url: String, cohort: &String)
        ensures
            final(self).sources() == if old(self).sources().contains((url@, cohort@)) {
                old(self).sources()
            } else {
                old(self).sources().push((url@, cohort@))
            },
            final(self).loci == old(self).loci,
            final(self).staged_tree == old(self).staged_tree,
    {
        let ghost before = self.sources();
        let mut i: usize = 0;
        while i < self.reads_cohort.len()
            invariant
                before == self.sources(),
                i <= self.reads_cohort@.len(),
                forall|j: int| 0 <= j < i ==> before[j] != (url@, cohort@),
            decreases self.reads_cohort@.len() - i,
        {
            if self.reads_cohort[i].url == url && self.reads_cohort[i].cohort == *cohort {
                assert(before[i as int] == (url@, cohort@));
                return;
            }
            i = i + 1;
        }
        self.reads_cohort.push(SourceFile { url, cohort: cohort.clone() });
        assert(self.sources() =~= before.push((url@, cohort@)));
    }

    /// Attaches alignment files under `cohort`, in order. A file must end in
    /// `.bam` or `.cram`; one that carries a `file://` or `gs://` scheme is
    /// attached under the URL it parses to, any other under its file URL. The
    /// first file that fails stops the request with its error; the files
    /// before it stay attached. Attaching a pair twice keeps one copy.
    pub fn attach_reads(&mut self, read_files: &Vec<String>, cohort: &String) -> (r: Result<(), SessionError>)
        requires
            old(self).wf(),
        ensures
            final(self).wf(),
            final(self).attached() == old(self).attached(),
            final(self).index() == old(self).index(),
            (forall|i: int|
                0 <= i < read_files@.len() ==> is_alignment_file(#[trigger] read_files@[i]@) && has_scheme(
                    read_files@[i]@,
                ) && parsed_url(read_files@[i]@) is Some) ==> r is Ok,
            exists|urls: Seq<Seq<char>>|
                #![trigger with_urls(old(self).sources(), urls, cohort@, urls.len() as int)]
                {
                    &&& urls_fit(read_files@, urls)
                    &&& final(self).sources() == with_urls(old(self).sources(), urls, cohort@, urls.len() as int)
                    &&& match r {
                        Ok(()) => urls.len() == read_files@.len(),
                        Err(e) => fails_at(read_files@, e, urls.len() as int),
                    }
                },
    {
        let ghost first = self.sources();
        let ghost urls: Seq<Seq<char>> = Seq::empty();
        let mut k: usize = 0;
        while k < read_files.len()
            invariant
                self.wf(),
                k <= read_files@.len(),
                self.attached() == old(self).attached(),
                self.index() == old(self).index(),
                first == old(self).sources(),
                urls.len() == k,
                urls_fit(read_files@, urls),
                self.sources() == with_urls(first, urls, cohort@, k as int),
            decreases read_files@.len() - k,
        {
            let f = read_files[k].as_str();
            if !(ends_with(f, ".bam") || ends_with(f, ".cram")) {
                assert(fails_at(read_files@, SessionError::NotAlignmentFile(k), urls.len() as int));
                return Err(SessionError::NotAlignmentFile(k));
            }
            let scheme = starts_with(f, "file://") || starts_with(f, "gs://");
            let url = if scheme {
                match parse_url(f) {
                    Some(u) => u,
                    None => {
                        assert(fails_at(read_files@, SessionError::BadUrl(k), urls.len() as int));
                        return Err(SessionError::BadUrl(k));
                    },
                }
            } else {
                match file_path_url(f) {
                    Some(u) => u,
                    None => {
                        assert(fails_at(read_files@, SessionError::BadPath(k), urls.len() as int));
                        return Err(SessionError::BadPath(k));
                    },
                }
            };
            let ghost uv = url@;
            self.add_source(url, cohort);
            proof {
                let next = urls.push(uv);
                lemma_with_urls_prefix(first, urls, next, cohort@, k as int);
                assert(f@ == read_files@[k as int]@);
                assert(is_alignment_file(read_files@[k as int]@));
                assert(url_fits(read_files@[k as int]@, uv));
                lemma_urls_fit_push(read_files@, urls, uv);
                assert(urls_fit(read_files@, next));
                urls = next;
            }
            k = k + 1;
        }
        Ok(())
    }
}

/// `srcs` with the pair `p` appended unless it is there already.
pub open spec fn with_pair(srcs: Seq<(Seq<char>, Seq<char>)>, p: (Seq<char>, Seq<char>)) -> Seq<(Seq<char>, Seq<char>)> {
    if srcs.contains(p) {
        srcs
    } else {
        srcs.push(p)
    }
}

/// `srcs` after attaching the first `n` of `urls` under `cohort`, in order.
pub open spec fn with_urls(
    srcs: Seq<(Seq<char>, Seq<char>)>,
    urls: Seq<Seq<char>>,
    cohort: Seq<char>,
    n: int,
) -> Seq<(Seq<char>, Seq<char>)>
    decreases n,
{
    if n <= 0 {
        srcs
    } else {
        with_pair(with_urls(srcs, urls, cohort, n - 1), (urls[n - 1], cohort))
    }
}

/// Whether `u` is the URL that file name `f` is attached under: the URL it
/// parses to when it carries a scheme, otherwise a file URL.
pub open spec fn url_fits(f: Seq<char>, u: Seq<char>) -> bool {
    if has_scheme(f) {
        parsed_url(f) == Some(u)
    } else {
        has_prefix(u, "file://"@)
    }
}

/// Whether the first `urls.len()` files are alignment files attached under `urls`.
pub open spec fn urls_fit(files: Seq<String>, urls: Seq<Seq<char>>) -> bool {
    &&& urls.len() <= files.len()
    &&& forall|i: int| 0 <= i < urls.len() ==> #[trigger] file_fits(files, urls, i)
}

/// Whether file `i` is an alignment file attached under `urls[i]`.
pub open spec fn file_fits(files: Seq<String>, urls: Seq<Seq<char>>, i: int) -> bool {
    is_alignment_file(files[i]@) && url_fits(files[i]@, urls[i])
}

/// Whether file `i` is the one that stops an attach request with error `e`.
pub open spec fn fails_at(files: Seq<String>, e: SessionError, i: int) -> bool {
    0 <= i < files.len() && match e {
        SessionError::NotAlignmentFile(j) => j == i && !is_alignment_file(files[i]@),
        SessionError::BadUrl(j) => j == i && is_alignment_file(files[i]@) && has_scheme(files[i]@)
            && parsed_url(files[i]@) is None,
        SessionError::BadPath(j) => j == i && is_alignment_file(files[i]@) && !has_scheme(files[i]@),
        _ => false,
    }
}

proof fn lemma_urls_fit_push(files: Seq<String>, urls: Seq<Seq<char>>, u: Seq<char>)
    requires
        urls_fit(files, urls),
        urls.len() < files.len(),
        is_alignment_file(files[urls.len() as int]@),
        url_fits(files[urls.len() as int]@, u),
    ensures
        urls_fit(files, urls.push(u)),
{
    let next = urls.push(u);
    assert forall|i: int| 0 <= i < next.len() implies #[trigger] file_fits(files, next, i) by {
        if i < urls.len() {
            assert(next[i] == urls[i]);
            assert(file_fits(files, urls, i));
        } else {
            assert(next[i] == u);
        }
    }
    assert(next.len() <= files.len());
    assert(urls_fit(files, next));
}

proof fn lemma_with_urls_prefix(
    srcs: Seq<(Seq<char>, Seq<char>)>,
    a: Seq<Seq<char>>,
    b: Seq<Seq<char>>,
    cohort: Seq<char>,
    n: int,
)
    requires
        n <= a.len(),
        n <= b.len(),
        forall|i: int| 0 <= i < n ==> a[i] == b[i],
    ensures
        with_urls(srcs, a, cohort, n) == with_urls(srcs, b, cohort, n),
    decreases n,
{
    if n > 0 {
        lemma_with_urls_prefix(srcs, a, b, cohort, n - 1);
    }
}

impl Session {
    /// Reads a locus text: `contig:start-stop`, or `contig:position` for the
    /// window of 1000 bases on each side; commas are ignored.
    pub fn parse_locus(&self, locus: &str) -> (r: Result<Locus, LocusError>)
        ensures
            match r {
                Ok(l) => l.wf() && locus_of(locus@) == Ok::<(Seq<char>, u64, u64), LocusError>(locus_view(l)),
                Err(e) => locus_of(locus@) == Err::<(Seq<char>, u64, u64), LocusError>(e),
            },
    {
        parse_locus(locus)
    }

    fn add_locus(&mut self, l: Locus)
        requires
            old(self).wf(),
            l.wf(),
        ensures
            final(self).wf(),
            final(self).attached() == if old(self).attached().contains(locus_view(l)) {
                old(self).attached()
            } else {
                old(self).attached().push(locus_view(l))
            },
            final(self).reads_cohort == old(self).reads_cohort,
            final(self).staged_tree == old(self).staged_tree,
    {
        let ghost before = self.attached();
        let mut i: usize = 0;
        while i < self.loci.len()
            invariant
                self.wf(),
                l.wf(),
                before == self.attached(),
                i <= self.loci@.len(),
                forall|j: int| 0 <= j < i ==> before[j] != locus_view(l),
            decreases self.loci@.len() - i,
        {
            if self.loci[i].contig == l.contig && self.loci[i].start == l.start && self.loci[i].stop == l.stop {
                assert(before[i as int] == locus_view(l));
                return;
            }
            i = i + 1;
        }
        self.loci.push(l);
        assert(self.attached() =~= before.push(locus_view(l)));
    }

    /// Attaches loci given as text, in order. The first text that does not
    /// parse stops the request with its error; the loci before it stay
    /// attached. Attaching a locus twice keeps one copy.
    pub fn attach_loci(&mut self, loci: &Vec<String>) -> (r: Result<(), LocusError>)
        requires
            old(self).wf(),
        ensures
            final(self).wf(),
            final(self).sources() == old(self).sources(),
            final(self).index() == old(self).index(),
            r is Ok <==> forall|i: int| 0 <= i < loci@.len() ==> (#[trigger] locus_of(loci@[i]@)) is Ok,
            r matches Err(e) ==> exists|k: int|
                0 <= k < loci@.len() && locus_of(loci@[k]@) == Err::<(Seq<char>, u64, u64), LocusError>(e)
                    && forall|j: int| 0 <= j < k ==> (#[trigger] locus_of(loci@[j]@)) is Ok,
            forall|x| old(self).attached().contains(x) ==> #[trigger] final(self).attached().contains(x),
            forall|i: int|
                0 <= i < loci@.len() && (forall|j: int| 0 <= j <= i ==> (#[trigger] locus_of(loci@[j]@)) is Ok)
                    ==> final(self).attached().contains(#[trigger] locus_of(loci@[i]@)->Ok_0),
            forall|x|
                #[trigger] final(self).attached().contains(x) ==> old(self).attached().contains(x) || exists|i: int|
                    0 <= i < loci@.len() && locus_of(loci@[i]@) == Ok::<(Seq<char>, u64, u64), LocusError>(x),
    {
        let ghost first = self.attached();
        let mut k: usize = 0;
        while k < loci.len()
            invariant
                self.wf(),
                k <= loci@.len(),
                first == old(self).attached(),
                self.sources() == old(self).sources(),
                self.index() == old(self).index(),
                forall|j: int| 0 <= j < k ==> (#[trigger] locus_of(loci@[j]@)) is Ok,
                forall|x| first.contains(x) ==> #[trigger] self.attached().contains(x),
                forall|i: int| 0 <= i < k ==> self.attached().contains(#[trigger] locus_of(loci@[i]@)->Ok_0),
                forall|x|
                    #[trigger] self.attached().contains(x) ==> first.contains(x) || exists|i: int|
                        0 <= i < loci@.len() && locus_of(loci@[i]@) == Ok::<(Seq<char>, u64, u64), LocusError>(x),
            decreases loci@.len() - k,
        {
            match parse_locus(loci[k].as_str()) {
                Ok(l) => {
                    let ghost lv = locus_view(l);
                    let ghost prev = self.attached();
                    self.add_locus(l);
                    proof {
                        assert(self.attached().contains(lv)) by {
                            if !prev.contains(lv) {
                                assert(self.attached()[prev.len() as int] == lv);
                            }
                        }
                        assert forall|x| prev.contains(x) implies #[trigger] self.attached().contains(x) by {
                            if !prev.contains(lv) {
                                let j = choose|j: int| 0 <= j < prev.len() && prev[j] == x;
                                assert(self.attached()[j] == x);
                            }
                        }
                        assert forall|x| #[trigger] self.attached().contains(x) implies first.contains(x) || exists|i: int|
                            0 <= i < loci@.len() && locus_of(loci@[i]@) == Ok::<(Seq<char>, u64, u64), LocusError>(x) by {
                            if !prev.contains(x) {
                                if !prev.contains(lv) {
                                    let j = choose|j: int| 0 <= j < self.attached().len() && self.attached()[j] == x;
                                    if j < prev.len() {
                                        assert(prev[j] == x);
                                    } else {
                                        assert(locus_of(loci@[k as int]@) == Ok::<(Seq<char>, u64, u64), LocusError>(x));
                                    }
                                }
                            }
                        }
                        assert forall|i: int| 0 <= i < k + 1 implies self.attached().contains(#[trigger] locus_of(loci@[i]@)->Ok_0) by {
                            if i < k {
                                assert(prev.contains(locus_of(loci@[i]@)->Ok_0));
                            }
                        }
                    }
                },
                Err(e) => {
                    proof {
                        assert forall|i: int|
                            0 <= i < loci@.len() && (forall|j: int| 0 <= j <= i ==> (#[trigger] locus_of(loci@[j]@)) is Ok)
                                implies self.attached().contains(#[trigger] locus_of(loci@[i]@)->Ok_0) by {
                            if i >= k {
                                assert(locus_of(loci@[k as int]@) is Ok);
                            }
                        }
                    }
                    return Err(e);
                },
            }
            k = k + 1;
        }
        Ok(())
    }

    /// The attached loci that the staged index does not cover for the
    /// attached sources, in order: those a staging request must fetch.
    pub fn loci_to_fetch(&self) -> (r: Vec<Locus>)
        requires
            self.wf(),
        ensures
            forall|i: int| 0 <= i < r@.len() ==> (#[trigger] r@[i]).wf(),
            r@.map_values(|l: Locus| locus_view(l)) == pending(
                self.attached(),
                self.index(),
                self.current_fingerprint(),
                self.attached().len() as int,
            ),
    {
        let f = self.fingerprint();
        let mut r: Vec<Locus> = Vec::new();
        let mut i: usize = 0;
        assert(r@.map_values(|l: Locus| locus_view(l)) =~= Seq::<(Seq<char>, u64, u64)>::empty());
        while i < self.loci.len()
            invariant
                self.wf(),
                f == self.current_fingerprint(),
                i <= self.loci@.len(),
                forall|j: int| 0 <= j < r@.len() ==> (#[trigger] r@[j]).wf(),
                r@.map_values(|l: Locus| locus_view(l)) == pending(self.attached(), self.index(), f, i as int),
            decreases self.loci@.len() - i,
        {
            let l = &self.loci[i];
            assert(self.loci@[i as int].wf());
            let ghost before = r@.map_values(|l: Locus| locus_view(l));
            assert(self.attached()[i as int] == locus_view(*l));
            let found = self.staged_tree.find_covering(&l.contig, l.start, l.stop, f);
            if found.is_none() {
                r.push(l.duplicate());
                assert(r@.map_values(|l: Locus| locus_view(l)) =~= before.push(locus_view(*l)));
            }
            i = i + 1;
        }
        r
    }

    /// The loci a staging request fetches: with `use_cache`, the attached
    /// loci that are not yet covered for the attached sources; without it,
    /// every attached locus.
    pub fn plan_stage(&self, use_cache: bool) -> (r: Vec<Locus>)
        requires
            self.wf(),
        ensures
            forall|i: int| 0 <= i < r@.len() ==> (#[trigger] r@[i]).wf(),
            r@.map_values(|l: Locus| locus_view(l)) == if use_cache {
                pending(self.attached(), self.index(), self.current_fingerprint(), self.attached().len() as int)
            } else {
                self.attached()
            },
    {
        if use_cache {
            return self.loci_to_fetch();
        }
        let mut r: Vec<Locus> = Vec::new();
        let mut i: usize = 0;
        while i < self.loci.len()
            invariant
                self.wf(),
                i <= self.loci@.len(),
                forall|j: int| 0 <= j < r@.len() ==> (#[trigger] r@[j]).wf(),
                r@.map_values(|l: Locus| locus_view(l)) == self.attached().take(i as int),
            decreases self.loci@.len() - i,
        {
            assert(self.loci@[i as int].wf());
            let ghost before = r@.map_values(|l: Locus| locus_view(l));
            let d = self.loci[i].duplicate();
            assert(locus_view(d) == self.attached()[i as int]);
            r.push(d);
            assert(r@.map_values(|l: Locus| locus_view(l)) =~= before.push(locus_view(d)));
            assert(self.attached().take(i + 1) =~= self.attached().take(i as int).push(self.attached()[i as int]));
            i = i + 1;
        }
        assert(self.attached().take(self.loci@.len() as int) =~= self.attached());
        r
    }

    /// Records that the table of `locus` for the attached sources lies at
    /// `path`. Afterwards the locus is covered for those sources, so staging
    /// it again fetches nothing.
    pub fn record_staged(&mut self, locus: &Locus, path: String)
        requires
            old(self).wf(),
            locus.wf(),
            old(self).index().staged_count() < u32::MAX,
        ensures
            final(self).wf(),
            final(self).sources() == old(self).sources(),
            final(self).attached() == old(self).attached(),
            final(self).current_fingerprint() == old(self).current_fingerprint(),
            final(self).index().staged_count() == old(self).index().staged_count() + 1,
            staged_with(
                old(self).index(),
                final(self).index(),
                locus.contig@,
                locus.start,
                locus.stop,
                (path@, old(self).current_fingerprint()),
            ),
            final(self).index().covers(locus.contig@, locus.start, locus.stop, final(self).current_fingerprint()),
    {
        let f = self.fingerprint();
        let ghost pv = path@;
        self.staged_tree.stage(locus, CacheArtifact { path, fingerprint: f });
        proof {
            crate::staged::staging_is_idempotent(
                old(self).index(),
                self.index(),
                locus.contig@,
                locus.start,
                locus.stop,
                (pv, f),
            );
        }
    }

    /// Number of artifacts staged so far.
    pub fn staged_len(&self) -> (r: usize)
        ensures
            r == self.index().staged_count(),
    {
        self.staged_tree.staged_len()
    }

    /// The artifact that serves `locus` for the attached sources, if any.
    pub fn staged_artifact(&self, locus: &Locus) -> (r: Option<CacheArtifact>)
        requires
            self.wf(),
            locus.wf(),
        ensures
            r is Some <==> self.index().covers(locus.contig@, locus.start, locus.stop, self.current_fingerprint()),
            r matches Some(a) ==> a.fingerprint == self.current_fingerprint(),
    {
        let f = self.fingerprint();
        self.staged_tree.find_covering(&locus.contig, locus.start, locus.stop, f)
    }

    /// The artifact that serves a locus text: the first staged range of its
    /// contig that fully contains it and was computed for the attached sources.
    pub fn get_locus(&self, locus: &str) -> (r: Result<CacheArtifact, SessionError>)
        requires
            self.wf(),
        ensures
            locus_of(locus@) matches Err(e) ==> r == Err::<CacheArtifact, SessionError>(SessionError::Locus(e)),
            locus_of(locus@) matches Ok(l) ==> (r matches Ok(a) ==> a.fingerprint == self.current_fingerprint()),
            locus_of(locus@) matches Ok(l) ==> (r matches Ok(a) ==> exists|s: u64, e: u64|
                #![trigger self.index().stored(l.0, s, e)]
                {
                    &&& s <= l.1 && l.2 <= e
                    &&& self.index().stored(l.0, s, e) == Some(a.view())
                    &&& forall|s2: u64, e2: u64|
                        #![trigger self.index().stored(l.0, s2, e2)]
                        s2 <= l.1 && l.2 <= e2 && has_fingerprint(
                            self.index().stored(l.0, s2, e2),
                            self.current_fingerprint(),
                        ) ==> !range_before(s2, e2, s, e)
                }),
            locus_of(locus@) matches Ok(l) ==> (r is Err <==> !self.index().covers(l.0, l.1, l.2, self.current_fingerprint())),
            locus_of(locus@) matches Ok(l) ==> (r is Err ==> r == Err::<CacheArtifact, SessionError>(SessionError::NotStaged)),
    {
        let l = match parse_locus(locus) {
            Ok(l) => l,
            Err(e) => {
                return Err(SessionError::Locus(e));
            },
        };
        let f = self.fingerprint();
        match self.staged_tree.find_covering(&l.contig, l.start, l.stop, f) {
            Some(a) => {
                proof {
                    let (s, e) = choose|s: u64, e: u64|
                        #![trigger self.staged_tree.stored(l.contig@, s, e)]
                        {
                            &&& s <= l.start && l.stop <= e
                            &&& self.staged_tree.stored(l.contig@, s, e) == Some(a.view())
                            &&& a.fingerprint == f
                            &&& forall|a2: u64, b2: u64|
                                #![trigger self.staged_tree.stored(l.contig@, a2, b2)]
                                a2 <= l.start && l.stop <= b2 && crate::staged::has_fingerprint(
                                    self.staged_tree.stored(l.contig@, a2, b2),
                                    f,
                                ) ==> !crate::staged::range_before(a2, b2, s, e)
                        };
                    assert(self.index().stored(l.contig@, s, e) == Some(a.view()));
                    let lt = locus_of(locus@)->Ok_0;
                    assert(lt.0 == l.contig@ && lt.1 == l.start && lt.2 == l.stop);
                    assert(self.index().stored(lt.0, s, e) == Some(a.view()));
                    assert(s <= lt.1 && lt.2 <= e);
                    assert(self.index() == self.staged_tree);
                }
                Ok(a)
            },
            None => {
                assert(!self.index().covers(l.contig@, l.start, l.stop, f));
                Err(SessionError::NotStaged)
            },
        }
    }
}

/// The first `n` of `loci` that `index` does not cover for fingerprint `f`, in order.
pub open spec fn pending(loci: Seq<(Seq<char>, u64, u64)>, index: StagedIndex, f: u64, n: int) -> Seq<(Seq<char>, u64, u64)>
    decreases n,
{
    if n <= 0 {
        Seq::empty()
    } else {
        let before = pending(loci, index, f, n - 1);
        let x = loci[n - 1];
        if index.covers(x.0, x.1, x.2, f) {
            before
        } else {
            before.push(x)
        }
    }
}

/// A locus that the index covers is never among those to fetch: once staged
/// for the attached sources, staging it again fetches nothing.
pub proof fn covered_locus_is_not_fetched(
    loci: Seq<(Seq<char>, u64, u64)>,
    index: StagedIndex,
    f: u64,
    n: int,
    x: (Seq<char>, u64, u64),
)
    requires
        index.covers(x.0, x.1, x.2, f),
    ensures
        !pending(loci, index, f, n).contains(x),
    decreases n,
{
    if n > 0 {
        covered_locus_is_not_fetched(loci, index, f, n - 1, x);
        let before = pending(loci, index, f, n - 1);
        if !index.covers(loci[n - 1].0, loci[n - 1].1, loci[n - 1].2, f) {
            let after = before.push(loci[n - 1]);
            if after.contains(x) {
                let j = choose|j: int| 0 <= j < after.len() && #[trigger] after[j] == x;
                if j < before.len() {
                    assert(before[j] == x);
                }
            }
        }
    }
}

/// Once every locus is covered, a cached staging request fetches nothing:
/// staging the same sources and loci a second time is served from the index.
pub proof fn fully_staged_plans_no_fetch(loci: Seq<(Seq<char>, u64, u64)>, index: StagedIndex, f: u64, n: int)
    requires
        forall|j: int| 0 <= j < loci.len() ==> index.covers(#[trigger] loci[j].0, loci[j].1, loci[j].2, f),
        n <= loci.len(),
    ensures
        pending(loci, index, f, n).len() == 0,
    decreases n,
{
    if n > 0 {
        fully_staged_plans_no_fetch(loci, index, f, n - 1);
        assert(index.covers(loci[n - 1].0, loci[n - 1].1, loci[n - 1].2, f));
    }
}

/// The first `n` rows whose span meets `[start, stop)`, in order.
pub open spec fn rows_meeting(rows: Seq<(Seq<char>, Seq<char>, crate::alignment::ElementView)>, n: int, start: u64, stop: u64) -> Seq<(Seq<char>, Seq<char>, crate::alignment::ElementView)>
    decreases n,
{
    if n <= 0 {
        Seq::empty()
    } else {
        let before = rows_meeting(rows, n - 1, start, stop);
        if meets(rows[n - 1], start, stop) {
            before.push(rows[n - 1])
        } else {
            before
        }
    }
}

/// Whether a row's reference span meets `[start, stop)`.
pub open spec fn meets(row: (Seq<char>, Seq<char>, crate::alignment::ElementView), start: u64, stop: u64) -> bool {
    row.2.reference_start < stop && row.2.reference_end > start
}

/// The rows of a cached table whose span meets `[start, stop)`, in order:
/// what a lookup hands back for a locus inside the artifact's wider range.
pub fn rows_in_range(rows: &Vec<TableRow>, start: u64, stop: u64) -> (r: Vec<TableRow>)
    ensures
        row_views(r@) == rows_meeting(row_views(rows@), rows@.len() as int, start, stop),
{
    let ghost all = row_views(rows@);
    let mut r: Vec<TableRow> = Vec::new();
    let mut i: usize = 0;
    assert(row_views(r@) =~= Seq::<(Seq<char>, Seq<char>, crate::alignment::ElementView)>::empty());
    while i < rows.len()
        invariant
            all == row_views(rows@),
            i <= rows@.len(),
            row_views(r@) == rows_meeting(all, i as int, start, stop),
        decreases rows@.len() - i,
    {
        let e = &rows[i].element;
        assert(all[i as int] == rows@[i as int]@);
        if (e.reference_start as u64) < stop && (e.reference_end as u64) > start {
            let d = rows[i].duplicate();
            let ghost before = r@;
            r.push(d);
            assert(row_views(r@) =~= row_views(before).push(d@));
        }
        i = i + 1;
    }
    r
}

/// The rows that columns hold, in order.
pub open spec fn stored_rows(c: TableColumns) -> Seq<(Seq<char>, Seq<char>, crate::alignment::ElementView)> {
    Seq::new(c.cohort@.len(), |i: int| row_at(c, i))
}

/// What a lookup hands back from a cached table read as columns: the rows
/// they hold whose span meets `[start, stop)`, in order. A table that was
/// put as columns comes back with exactly its own rows that meet the range.
pub fn rows_for_locus(cols: &TableColumns, start: u64, stop: u64) -> (r: Result<Vec<TableRow>, ColumnsError>)
    ensures
        match r {
            Ok(rows) => same_lengths(*cols) && known_codes(*cols) && row_views(rows@) == rows_meeting(
                stored_rows(*cols),
                cols.cohort@.len() as int,
                start,
                stop,
            ),
            Err(e) => (e == ColumnsError::Ragged && !same_lengths(*cols)) || (e == ColumnsError::BadElementType
                && same_lengths(*cols) && !known_codes(*cols)),
        },
        forall|t: Seq<(Seq<char>, Seq<char>, crate::alignment::ElementView)>|
            #[trigger] holds_rows(*cols, t) ==> r is Ok && row_views(r->Ok_0@) == rows_meeting(
                t,
                t.len() as int,
                start,
                stop,
            ),
{
    let all = match from_columns(cols) {
        Ok(rows) => rows,
        Err(e) => {
            proof {
                assert forall|t: Seq<(Seq<char>, Seq<char>, crate::alignment::ElementView)>|
                    #[trigger] holds_rows(*cols, t) implies false by {
                    columns_round_trip(*cols, t);
                }
            }
            return Err(e);
        },
    };
    assert(row_views(all@) =~= stored_rows(*cols));
    let kept = rows_in_range(&all, start, stop);
    proof {
        assert forall|t: Seq<(Seq<char>, Seq<char>, crate::alignment::ElementView)>|
            #[trigger] holds_rows(*cols, t) implies row_views(kept@) == rows_meeting(t, t.len() as int, start, stop) by {
            columns_round_trip(*cols, t);
            assert(stored_rows(*cols) =~= t);
        }
    }
    Ok(kept)
}

} // verus!
