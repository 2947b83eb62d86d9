use iset::IntervalMap;
use vstd::prelude::*;

use crate::locus::Locus;

verus! {

/// An interval map of iset from `[start, end)` ranges to artifact indices,
/// kept opaque; its entries are `interval_contents`.
#[verifier::external_body]
pub struct IntervalTree {
    map: IntervalMap<u64, usize>,
}

/// The entries of an interval map: each stored interval `[start, end)`,
/// keyed as `(start, end)`, with its value.
pub uninterp spec fn interval_contents(t: IntervalTree) -> Map<(u64, u64), usize>;

pub open spec fn no_intervals() -> Map<(u64, u64), usize> {
    Map::empty()
}

/// Relies on iset's `IntervalMap::new`: a map with no entries.
#[verifier::external_body]
fn tree_new() -> (r: IntervalTree)
    ensures
        interval_contents(r) == no_intervals(),
{
    IntervalTree { map: IntervalMap::new() }
}

/// Relies on iset's `IntervalMap::insert`: the value of `[start, end)` is set
/// to `v`, replacing any earlier value of that exact interval. It panics on an
/// empty interval, and when the map already holds `u32::MAX` nodes.
#[verifier::external_body]
fn tree_insert(m: &mut IntervalTree, start: u64, end: u64, v: usize)
    requires
        start < end,
        interval_contents(*old(m)).dom().finite(),
        interval_contents(*old(m)).len() < u32::MAX,
    ensures
        interval_contents(*final(m)) == interval_contents(*old(m)).insert((start, end), v),
{
    m.map.insert(start..end, v);
}

/// Relies on iset's `IntervalMap::iter`: every entry whose interval overlaps
/// `[start, end)`, each once, sorted by interval (by start, then by end). It
/// panics on an empty query.
#[verifier::external_body]
fn tree_overlapping(m: &IntervalTree, start: u64, end: u64) -> (r: Vec<(u64, u64, usize)>)
    requires
        start < end,
    ensures
        forall|i: int|
            0 <= i < r@.len() ==> {
                &&& interval_contents(*m).contains_key(((#[trigger] r@[i]).0, r@[i].1))
                &&& interval_contents(*m)[(r@[i].0, r@[i].1)] == r@[i].2
                &&& r@[i].0 < end && r@[i].1 > start
            },
        forall|a: u64, b: u64|
            #![trigger interval_contents(*m).contains_key((a, b))]
            interval_contents(*m).contains_key((a, b)) && a < end && b > start ==> exists|i: int|
                0 <= i < r@.len() && (#[trigger] r@[i]).0 == a && r@[i].1 == b,
        forall|i: int, j: int|
            0 <= i < j < r@.len() ==> (r@[i].0 < r@[j].0 || (r@[i].0 == r@[j].0 && r@[i].1 < r@[j].1)),
{
    m.map.iter(start..end).map(|(range, v)| (range.start, range.end, *v)).collect()
}


/// A persisted table: where it lies, and the fingerprint of the source set
/// it was computed from.
pub struct CacheArtifact {
    pub path: String,
    pub fingerprint: u64,
}

impl CacheArtifact {
    pub open spec fn view(&self) -> (Seq<char>, u64) {
        (self.path@, self.fingerprint)
    }

    pub fn duplicate(&self) -> (r: CacheArtifact)
        ensures
            r.view() == self.view(),
    {
        CacheArtifact { path: self.path.clone(), fingerprint: self.fingerprint }
    }
}

/// `after` is `before` with `art` staged for exactly `[s, e)` on contig `c`.
pub open spec fn staged_with(before: StagedIndex, after: StagedIndex, c: Seq<char>, s: u64, e: u64, art: (Seq<char>, u64)) -> bool {
    forall|c2: Seq<char>, a: u64, b: u64|
        #[trigger] after.stored(c2, a, b) == if c2 == c && a == s && b == e {
            Some(art)
        } else {
            before.stored(c2, a, b)
        }
}

/// Which cached artifact covers which range of which contig: one interval
/// map per contig, from staged ranges to the artifacts computed for them.
pub struct StagedIndex {
    contigs: Vec<String>,
    trees: Vec<IntervalTree>,
    artifacts: Vec<CacheArtifact>,
}

/// Whether an artifact is present and was computed for fingerprint `f`.
pub open spec fn has_fingerprint(o: Option<(Seq<char>, u64)>, f: u64) -> bool {
    match o {
        Some(art) => art.1 == f,
        None => false,
    }
}

/// Whether `(a, b)` comes before `(c, d)`: by start, then by end.
pub open spec fn range_before(a: u64, b: u64, c: u64, d: u64) -> bool {
    a < c || (a == c && b < d)
}

impl StagedIndex {
    pub closed spec fn wf(&self) -> bool {
        &&& self.contigs@.len() == self.trees@.len()
        &&& forall|i: int, j: int|
            0 <= i < j < self.contigs@.len() ==> self.contigs@[i]@ != self.contigs@[j]@
        &&& forall|i: int|
            0 <= i < self.trees@.len() ==> {
                &&& interval_contents(#[trigger] self.trees@[i]).dom().finite()
                &&& interval_contents(self.trees@[i]).len() <= self.artifacts@.len()
                &&& forall|k: (u64, u64)|
                    #![trigger interval_contents(self.trees@[i]).contains_key(k)]
                    interval_contents(self.trees@[i]).contains_key(k) ==> k.0 < k.1
                        && interval_contents(self.trees@[i])[k] < self.artifacts@.len()
            }
    }

    /// Number of artifacts ever staged.
    pub closed spec fn staged_count(&self) -> nat {
        self.artifacts@.len()
    }

    /// The position of contig `c` among the indexed contigs.
    pub closed spec fn contig_slot(&self, c: Seq<char>) -> Option<int> {
        if exists|i: int| 0 <= i < self.contigs@.len() && (#[trigger] self.contigs@[i])@ == c {
            Some(choose|i: int| 0 <= i < self.contigs@.len() && (#[trigger] self.contigs@[i])@ == c)
        } else {
            None
        }
    }

    /// The artifact staged for exactly `[a, b)` on contig `c`, if any.
    pub closed spec fn stored(&self, c: Seq<char>, a: u64, b: u64) -> Option<(Seq<char>, u64)> {
        match self.contig_slot(c) {
            Some(i) => if interval_contents(self.trees@[i]).contains_key((a, b)) {
                Some(self.artifacts@[interval_contents(self.trees@[i])[(a, b)] as int].view())
            } else {
                None
            },
            None => None,
        }
    }

    /// Whether a stored interval of contig `c` fully contains `[s, e)` and
    /// holds an artifact of fingerprint `f`.
    pub open spec fn covers(&self, c: Seq<char>, s: u64, e: u64, f: u64) -> bool {
        exists|a: u64, b: u64|
            #![trigger self.stored(c, a, b)]
            a <= s && e <= b && has_fingerprint(self.stored(c, a, b), f)
    }

    pub fn new() -> (r: StagedIndex)
        ensures
            r.wf(),
            r.staged_count() == 0,
            forall|c: Seq<char>, a: u64, b: u64| r.stored(c, a, b) is None,
    {
        StagedIndex { contigs: Vec::new(), trees: Vec::new(), artifacts: Vec::new() }
    }

    pub fn staged_len(&self) -> (r: usize)
        ensures
            r == self.staged_count(),
    {
        self.artifacts.len()
    }

    proof fn lemma_slot_is(&self, c: Seq<char>, k: int)
        requires
            forall|i: int, j: int|
                0 <= i < j < self.contigs@.len() ==> self.contigs@[i]@ != self.contigs@[j]@,
            0 <= k < self.contigs@.len(),
            self.contigs@[k]@ == c,
        ensures
            self.contig_slot(c) == Some(k),
    {
        let j = choose|j: int| 0 <= j < self.contigs@.len() && (#[trigger] self.contigs@[j])@ == c;
        if j != k {
            if j < k {
                assert(self.contigs@[j]@ != self.contigs@[k]@);
            } else {
                assert(self.contigs@[k]@ != self.contigs@[j]@);
            }
        }
    }

    fn find_contig(&self, c: &String) -> (r: Option<usize>)
        requires
            self.wf(),
        ensures
            match r {
                Some(i) => self.contig_slot(c@) == Some(i as int) && i < self.contigs@.len(),
                None => self.contig_slot(c@) is None,
            },
    {
        let mut i: usize = 0;
        while i < self.contigs.len()
            invariant
                self.wf(),
                i <= self.contigs@.len(),
                forall|j: int| 0 <= j < i ==> (#[trigger] self.contigs@[j])@ != c@,
            decreases self.contigs@.len() - i,
        {
            if self.contigs[i] == *c {
                proof {
                    let k = choose|k: int| 0 <= k < self.contigs@.len() && (#[trigger] self.contigs@[k])@ == c@;
                    assert(k == i) by {
                        if k != i {
                            if k < i {
                                assert(self.contigs@[k]@ != c@);
                            } else {
                                assert(self.contigs@[i as int]@ != self.contigs@[k]@);
                            }
                        }
                    }
                }
                return Some(i);
            }
            i = i + 1;
        }
        None
    }

    /// Records that `artifact` holds the table of `[locus.start, locus.stop)`
    /// on `locus.contig`, replacing what was staged for that exact range.
    pub fn stage(&mut self, locus: &Locus, artifact: CacheArtifact)
        requires
            old(self).wf(),
            locus.wf(),
            old(self).staged_count() < u32::MAX,
        ensures
            final(self).wf(),
            final(self).staged_count() == old(self).staged_count() + 1,
            staged_with(*old(self), *final(self), locus.contig@, locus.start, locus.stop, artifact.view()),
    {
        let ghost old_self = *self;
        let ghost av = artifact.view();
        let ghost c = locus.contig@;
        let slot = self.artifacts.len();
        self.artifacts.push(artifact);
        let found = self.find_contig(&locus.contig);
        let i = match found {
            Some(i) => i,
            None => {
                let t = tree_new();
                self.contigs.push(locus.contig.clone());
                self.trees.push(t);
                (self.contigs.len() - 1) as usize
            },
        };
        let ghost mid_trees = self.trees@;
        let ghost before = interval_contents(mid_trees[i as int]);
        proof {
            if found is None {
                assert(before == no_intervals());
                assert(before.dom() =~= Set::<(u64, u64)>::empty());
            }
        }
        let mut t = self.trees.remove(i);
        tree_insert(&mut t, locus.start, locus.stop, slot);
        self.trees.insert(i, t);
        proof {
            assert(self.trees@ =~= mid_trees.update(i as int, t));
            assert(self.artifacts@ =~= old_self.artifacts@.push(artifact));
            let after = interval_contents(t);
            assert(after == before.insert((locus.start, locus.stop), slot));
            // the contigs stay pairwise distinct
            assert forall|x: int, y: int|
                0 <= x < y < self.contigs@.len() implies self.contigs@[x]@ != self.contigs@[y]@ by {
                if found is None && y == self.contigs@.len() - 1 {
                    assert(self.contigs@[x] == old_self.contigs@[x]);
                    if self.contigs@[x]@ == c {
                        assert(old_self.contigs@[x]@ == c);
                    }
                }
            }
            // every tree stays finite, bounded and in range
            assert forall|x: int| 0 <= x < self.trees@.len() implies {
                &&& interval_contents(#[trigger] self.trees@[x]).dom().finite()
                &&& interval_contents(self.trees@[x]).len() <= self.artifacts@.len()
                &&& forall|k: (u64, u64)|
                    #![trigger interval_contents(self.trees@[x]).contains_key(k)]
                    interval_contents(self.trees@[x]).contains_key(k) ==> k.0 < k.1
                        && interval_contents(self.trees@[x])[k] < self.artifacts@.len()
            } by {
                if x == i {
                    if found is Some {
                        assert(mid_trees[x] == old_self.trees@[x]);
                    }
                    assert(before.dom().finite());
                    assert(after.dom() == before.dom().insert((locus.start, locus.stop)));
                    if before.contains_key((locus.start, locus.stop)) {
                        assert(after.dom() =~= before.dom());
                    }
                } else {
                    assert(self.trees@[x] == old_self.trees@[x]);
                }
            }
            assert(self.wf());
            assert(self.contigs@[i as int]@ == c) by {
                if found is None {
                    assert(self.contigs@[i as int] == locus.contig);
                }
            }
            self.lemma_slot_is(c, i as int);
            assert forall|c2: Seq<char>, a: u64, b: u64|
                #[trigger] self.stored(c2, a, b) == if c2 == c && a == locus.start && b == locus.stop {
                    Some(av)
                } else {
                    old_self.stored(c2, a, b)
                } by {
                if c2 == c {
                    if found is Some {
                        old_self.lemma_slot_is(c, i as int);
                        assert(mid_trees[i as int] == old_self.trees@[i as int]);
                    } else {
                        assert(old_self.contig_slot(c) is None);
                    }
                    if !(a == locus.start && b == locus.stop) && before.contains_key((a, b)) {
                        let v = before[(a, b)];
                        if found is Some {
                            assert(v < old_self.artifacts@.len());
                        }
                        assert(self.artifacts@[v as int] == old_self.artifacts@[v as int]);
                    }
                } else {
                    match old_self.contig_slot(c2) {
                        Some(k) => {
                            assert(0 <= k < old_self.contigs@.len() && old_self.contigs@[k]@ == c2);
                            assert(self.contigs@[k] == old_self.contigs@[k]);
                            self.lemma_slot_is(c2, k);
                            assert(k != i);
                            assert(self.trees@[k] == old_self.trees@[k]);
                            if interval_contents(old_self.trees@[k]).contains_key((a, b)) {
                                let v = interval_contents(old_self.trees@[k])[(a, b)];
                                assert(self.artifacts@[v as int] == old_self.artifacts@[v as int]);
                            }
                        },
                        None => {
                            if self.contig_slot(c2) is Some {
                                let k = choose|k: int| 0 <= k < self.contigs@.len() && (#[trigger] self.contigs@[k])@ == c2;
                                if k < old_self.contigs@.len() {
                                    assert(old_self.contigs@[k] == self.contigs@[k]);
                                    assert(old_self.contigs@[k]@ == c2);
                                } else {
                                    assert(self.contigs@[k] == locus.contig);
                                }
                            }
                        },
                    }
                }
            }
        }
    }

    /// The artifact of the first stored interval of `contig` (by start, then
    /// by end) that fully contains `[start, stop)` and was computed for
    /// `fingerprint`; `None` where no stored interval does.
    pub fn find_covering(&self, contig: &String, start: u64, stop: u64, fingerprint: u64) -> (r: Option<
        CacheArtifact,
    >)
        requires
            self.wf(),
            start < stop,
        ensures
            r is Some <==> self.covers(contig@, start, stop, fingerprint),
            r matches Some(art) ==> exists|a: u64, b: u64|
                #![trigger self.stored(contig@, a, b)]
                {
                    &&& a <= start && stop <= b
                    &&& self.stored(contig@, a, b) == Some(art.view())
                    &&& art.fingerprint == fingerprint
                    &&& forall|a2: u64, b2: u64|
                        #![trigger self.stored(contig@, a2, b2)]
                        a2 <= start && stop <= b2 && has_fingerprint(self.stored(contig@, a2, b2), fingerprint)
                            ==> !range_before(a2, b2, a, b)
                },
    {
        let ghost c = contig@;
        let i = match self.find_contig(contig) {
            Some(i) => i,
            None => {
                return None;
            },
        };
        let ghost m = interval_contents(self.trees@[i as int]);
        let list = tree_overlapping(&self.trees[i], start, stop);
        let mut j: usize = 0;
        while j < list.len()
            invariant
                self.wf(),
                c == contig@,
                i < self.trees@.len(),
                self.contig_slot(c) == Some(i as int),
                m == interval_contents(self.trees@[i as int]),
                start < stop,
                j <= list@.len(),
                forall|x: int|
                    0 <= x < list@.len() ==> {
                        &&& m.contains_key(((#[trigger] list@[x]).0, list@[x].1))
                        &&& m[(list@[x].0, list@[x].1)] == list@[x].2
                        &&& list@[x].0 < stop && list@[x].1 > start
                    },
                forall|a: u64, b: u64|
                    #![trigger m.contains_key((a, b))]
                    m.contains_key((a, b)) && a < stop && b > start ==> exists|x: int|
                        0 <= x < list@.len() && (#[trigger] list@[x]).0 == a && list@[x].1 == b,
                forall|x: int, y: int|
                    0 <= x < y < list@.len() ==> range_before(list@[x].0, list@[x].1, list@[y].0, list@[y].1),
                forall|x: int|
                    0 <= x < j ==> !((#[trigger] list@[x]).0 <= start && stop <= list@[x].1
                        && self.artifacts@[list@[x].2 as int].fingerprint == fingerprint),
            decreases list@.len() - j,
        {
            let (a, b, v) = list[j];
            if a <= start && stop <= b && self.artifacts[v].fingerprint == fingerprint {
                let art = self.artifacts[v].duplicate();
                proof {
                    assert(list@[j as int] == (a, b, v));
                    assert(m.contains_key((a, b)) && m[(a, b)] == v);
                    assert(self.stored(c, a, b) == Some(self.artifacts@[v as int].view()));
                    assert(self.stored(c, a, b) == Some(art.view()));
                    assert(has_fingerprint(self.stored(c, a, b), fingerprint));
                    assert forall|a2: u64, b2: u64|
                        #![trigger self.stored(c, a2, b2)]
                        a2 <= start && stop <= b2 && has_fingerprint(self.stored(c, a2, b2), fingerprint)
                            implies !range_before(a2, b2, a, b) by {
                        assert(m.contains_key((a2, b2)));
                        let y = choose|y: int| 0 <= y < list@.len() && (#[trigger] list@[y]).0 == a2 && list@[y].1 == b2;
                        if y < j {
                            assert(self.artifacts@[list@[y].2 as int].fingerprint == fingerprint);
                        } else if y > j {
                            assert(range_before(list@[j as int].0, list@[j as int].1, list@[y].0, list@[y].1));
                        }
                    }
                }
                return Some(art);
            }
            j = j + 1;
        }
        proof {
            if self.covers(c, start, stop, fingerprint) {
                let (a, b) = choose|a: u64, b: u64|
                    #![trigger self.stored(c, a, b)]
                    a <= start && stop <= b && has_fingerprint(self.stored(c, a, b), fingerprint);
                assert(m.contains_key((a, b)));
                let y = choose|y: int| 0 <= y < list@.len() && (#[trigger] list@[y]).0 == a && list@[y].1 == b;
                assert(list@[y].2 == m[(a, b)]);
            }
        }
        None
    }
}

/// Staging is idempotent: once `[s, e)` of contig `c` has been staged with an
/// artifact of fingerprint `f`, the index covers that range for `f`, so a
/// second request for the same sources and locus is served without a fetch.
pub proof fn staging_is_idempotent(
    before: StagedIndex,
    after: StagedIndex,
    c: Seq<char>,
    s: u64,
    e: u64,
    art: (Seq<char>, u64),
)
    requires
        staged_with(before, after, c, s, e, art),
    ensures
        after.covers(c, s, e, art.1),
{
    assert(after.stored(c, s, e) == Some(art));
    assert(has_fingerprint(after.stored(c, s, e), art.1));
}

} // verus!
