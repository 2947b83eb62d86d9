use vstd::prelude::*;

verus! {

/// The kind of one output row of a decomposed alignment.
#[allow(non_camel_case_types)]
#[derive(Debug, Clone, Copy, PartialEq, Eq, Structural)]
pub enum ElementType {
    READ,
    DIFF,
    INSERTION,
    DELETION,
    SOFTCLIP,
}

/// Numeric code of each element kind in a serialized table.
pub open spec fn element_code(e: ElementType) -> u8 {
    match e {
        ElementType::READ => 0,
        ElementType::DIFF => 1,
        ElementType::INSERTION => 2,
        ElementType::DELETION => 3,
        ElementType::SOFTCLIP => 4,
    }
}

impl ElementType {
    pub fn to_u8(&self) -> (r: u8)
        ensures
            r == element_code(*self),
    {
        match self {
            ElementType::READ => 0,
            ElementType::DIFF => 1,
            ElementType::INSERTION => 2,
            ElementType::DELETION => 3,
            ElementType::SOFTCLIP => 4,
        }
    }

    /// Inverse of `to_u8`: `None` for a code that names no kind.
    pub fn from_u8(code: u8) -> (r: Option<ElementType>)
        ensures
            match r {
                Some(e) => element_code(e) == code,
                None => code > 4,
            },
    {
        match code {
            0 => Some(ElementType::READ),
            1 => Some(ElementType::DIFF),
            2 => Some(ElementType::INSERTION),
            3 => Some(ElementType::DELETION),
            4 => Some(ElementType::SOFTCLIP),
            _ => None,
        }
    }
}


/// One operation of an alignment's edit script, with its length.
#[derive(Debug, Clone, Copy, PartialEq, Eq, Structural)]
pub enum CigarOp {
    Match(u32),
    Ins(u32),
    Del(u32),
    RefSkip(u32),
    SoftClip(u32),
    HardClip(u32),
    Pad(u32),
    Equal(u32),
    Diff(u32),
}

/// One alignment record, as far as decomposition reads it.
pub struct ReadRecord {
    /// 0-based leftmost reference position of the first aligned base.
    pub reference_start: i64,
    pub cigar: Vec<CigarOp>,
    /// The read's bases, one byte each.
    pub seq: Vec<u8>,
    pub is_reverse: bool,
    pub query_name: String,
    /// The haplotype tag, 0 where the record carries none.
    pub haplotype: i32,
    /// The read-group tag, if the record carries one.
    pub read_group: Option<String>,
}

/// One output row.
pub struct AlignmentElement {
    pub reference_contig: String,
    /// 1-based first reference position.
    pub reference_start: u32,
    /// 1-based reference position one past the last.
    pub reference_end: u32,
    pub is_forward: bool,
    pub query_name: String,
    pub haplotype: i32,
    pub read_group: String,
    pub sample_name: String,
    pub element_type: ElementType,
    pub sequence: Vec<u8>,
    pub column_width: u32,
}

/// The mathematical value of an `AlignmentElement`.
pub struct ElementView {
    pub reference_contig: Seq<char>,
    pub reference_start: int,
    pub reference_end: int,
    pub is_forward: bool,
    pub query_name: Seq<char>,
    pub haplotype: i32,
    pub read_group: Seq<char>,
    pub sample_name: Seq<char>,
    pub element_type: ElementType,
    pub sequence: Seq<u8>,
    pub column_width: int,
}

impl View for AlignmentElement {
    type V = ElementView;

    open spec fn view(&self) -> ElementView {
        ElementView {
            reference_contig: self.reference_contig@,
            reference_start: self.reference_start as int,
            reference_end: self.reference_end as int,
            is_forward: self.is_forward,
            query_name: self.query_name@,
            haplotype: self.haplotype,
            read_group: self.read_group@,
            sample_name: self.sample_name@,
            element_type: self.element_type,
            sequence: self.sequence@,
            column_width: self.column_width as int,
        }
    }
}

/// What every row of one record shares.
pub struct RowMeta {
    pub contig: Seq<char>,
    pub is_forward: bool,
    pub query_name: Seq<char>,
    pub haplotype: i32,
    pub read_group: Seq<char>,
    pub sample_name: Seq<char>,
}

/// A row of one record, before column widths are known (width 1).
pub open spec fn row(m: RowMeta, kind: ElementType, start: int, end: int, s: Seq<u8>) -> ElementView {
    ElementView {
        reference_contig: m.contig,
        reference_start: start,
        reference_end: end,
        is_forward: m.is_forward,
        query_name: m.query_name,
        haplotype: m.haplotype,
        read_group: m.read_group,
        sample_name: m.sample_name,
        element_type: kind,
        sequence: s,
        column_width: 1,
    }
}

pub open spec fn op_len(op: CigarOp) -> int {
    match op {
        CigarOp::Match(l) => l as int,
        CigarOp::Ins(l) => l as int,
        CigarOp::Del(l) => l as int,
        CigarOp::RefSkip(l) => l as int,
        CigarOp::SoftClip(l) => l as int,
        CigarOp::HardClip(l) => l as int,
        CigarOp::Pad(l) => l as int,
        CigarOp::Equal(l) => l as int,
        CigarOp::Diff(l) => l as int,
    }
}

/// Whether the operation consumes reference bases.
pub open spec fn consumes_ref(op: CigarOp) -> bool {
    op is Match || op is Equal || op is Diff || op is Del || op is RefSkip
}

/// Whether the operation consumes read bases.
pub open spec fn consumes_read(op: CigarOp) -> bool {
    op is Match || op is Equal || op is Diff || op is Ins || op is SoftClip
}

pub open spec fn ref_advance(op: CigarOp) -> int {
    if consumes_ref(op) { op_len(op) } else { 0 }
}

pub open spec fn read_advance(op: CigarOp) -> int {
    if consumes_read(op) { op_len(op) } else { 0 }
}

/// Reference bases consumed by the first `n` operations.
pub open spec fn ref_prefix(ops: Seq<CigarOp>, n: int) -> int
    decreases n,
{
    if n <= 0 { 0 } else { ref_prefix(ops, n - 1) + ref_advance(ops[n - 1]) }
}

/// Whether no operation before index `i` consumes reference or read.
pub open spec fn is_leading(ops: Seq<CigarOp>, i: int) -> bool {
    forall|j: int| 0 <= j < i ==> !consumes_ref(#[trigger] ops[j]) && !consumes_read(ops[j])
}

/// Rows emitted by one operation with the reference cursor at `rp` and the
/// (1-based) read cursor at `qp`; `None` where the read is too short for it.
pub open spec fn op_rows(
    m: RowMeta,
    op: CigarOp,
    leading: bool,
    rp: int,
    qp: int,
    s: Seq<u8>,
) -> Option<Seq<ElementView>> {
    let l = op_len(op);
    match op {
        CigarOp::Ins(_) => {
            if l == 0 {
                Some(Seq::empty())
            } else if qp - 1 + l > s.len() {
                None
            } else {
                Some(seq![row(m, ElementType::INSERTION, rp - 1, rp, s.subrange(qp - 1, qp - 1 + l))])
            }
        },
        CigarOp::Del(_) => {
            if l == 0 {
                Some(Seq::empty())
            } else {
                Some(seq![row(m, ElementType::DELETION, rp, rp + l, Seq::empty())])
            }
        },
        CigarOp::Diff(_) => {
            if qp - 1 + l > s.len() {
                None
            } else {
                Some(Seq::new(l as nat, |k: int| row(m, ElementType::DIFF, rp + k, rp + k + 1, seq![s[qp - 1 + k]])))
            }
        },
        CigarOp::SoftClip(_) => {
            let a = if leading { rp - l } else { rp };
            if qp - 1 + l > s.len() || a < 0 || a + l > u32::MAX {
                None
            } else {
                Some(Seq::new(l as nat, |k: int| row(m, ElementType::SOFTCLIP, a + k, a + k + 1, seq![s[qp - 1 + k]])))
            }
        },
        _ => Some(Seq::empty()),
    }
}

/// Rows of the operations from index `i` on, with the cursors at `rp` and `qp`.
pub open spec fn walk(m: RowMeta, ops: Seq<CigarOp>, i: int, rp: int, qp: int, s: Seq<u8>) -> Option<Seq<ElementView>>
    decreases ops.len() - i,
{
    if i < 0 || i >= ops.len() {
        Some(Seq::empty())
    } else if qp + read_advance(ops[i]) > u64::MAX {
        None
    } else {
        match op_rows(m, ops[i], is_leading(ops, i), rp, qp, s) {
            None => None,
            Some(here) => match walk(m, ops, i + 1, rp + ref_advance(ops[i]), qp + read_advance(ops[i]), s) {
                None => None,
                Some(rest) => Some(here + rest),
            },
        }
    }
}

/// The 1-based reference position of a record's first aligned base.
pub open spec fn first_ref_pos(r: ReadRecord) -> int {
    r.reference_start + 1
}

/// Reference bases spanned by a record's whole alignment.
pub open spec fn ref_span(r: ReadRecord) -> int {
    ref_prefix(r.cigar@, r.cigar@.len() as int)
}

/// All rows of one record: its whole-read row, then the rows of its edit
/// script in order. `None` where the record cannot be decoded: a negative
/// position, a footprint beyond 32-bit coordinates, or a read shorter than
/// its edit script needs.
pub open spec fn record_rows(m: RowMeta, r: ReadRecord) -> Option<Seq<ElementView>> {
    let s1 = first_ref_pos(r);
    if r.reference_start < 0 || s1 + ref_span(r) > u32::MAX {
        None
    } else {
        match walk(m, r.cigar@, 0, s1, 1, r.seq@) {
            None => None,
            Some(rest) => Some(seq![row(m, ElementType::READ, s1, s1 + ref_span(r), Seq::empty())] + rest),
        }
    }
}

pub open spec fn prepend(a: Seq<ElementView>, o: Option<Seq<ElementView>>) -> Option<Seq<ElementView>> {
    match o {
        None => None,
        Some(b) => Some(a + b),
    }
}

pub open spec fn views(rows: Seq<AlignmentElement>) -> Seq<ElementView> {
    rows.map_values(|e: AlignmentElement| e@)
}

/// Whether every row's sequence is short enough for a 32-bit width.
pub open spec fn short_sequences(rows: Seq<ElementView>) -> bool {
    forall|i: int| 0 <= i < rows.len() ==> (#[trigger] rows[i]).sequence.len() <= u32::MAX
}

proof fn lemma_op_rows_short(m: RowMeta, op: CigarOp, leading: bool, rp: int, qp: int, s: Seq<u8>)
    requires
        1 <= qp,
    ensures
        op_rows(m, op, leading, rp, qp, s) matches Some(r) ==> short_sequences(r),
{
    if let Some(r) = op_rows(m, op, leading, rp, qp, s) {
        assert forall|j: int| 0 <= j < r.len() implies (#[trigger] r[j]).sequence.len() <= u32::MAX by {
            match op {
                CigarOp::Ins(l) => {
                    assert(r[j].sequence.len() == l);
                },
                CigarOp::Diff(_) => {
                    assert(r[j].sequence.len() == 1);
                },
                CigarOp::SoftClip(_) => {
                    assert(r[j].sequence.len() == 1);
                },
                _ => {},
            }
        }
    }
}

proof fn lemma_walk_short(m: RowMeta, ops: Seq<CigarOp>, i: int, rp: int, qp: int, s: Seq<u8>)
    requires
        1 <= qp,
    ensures
        walk(m, ops, i, rp, qp, s) matches Some(r) ==> short_sequences(r),
    decreases ops.len() - i,
{
    if 0 <= i < ops.len() {
        lemma_op_rows_short(m, ops[i], is_leading(ops, i), rp, qp, s);
        lemma_walk_short(m, ops, i + 1, rp + ref_advance(ops[i]), qp + read_advance(ops[i]), s);
        if let Some(r) = walk(m, ops, i, rp, qp, s) {
            let here = op_rows(m, ops[i], is_leading(ops, i), rp, qp, s)->0;
            let rest = walk(m, ops, i + 1, rp + ref_advance(ops[i]), qp + read_advance(ops[i]), s)->0;
            assert(r == here + rest);
            assert forall|j: int| 0 <= j < r.len() implies (#[trigger] r[j]).sequence.len() <= u32::MAX by {
                if j < here.len() {
                    assert(r[j] == here[j]);
                } else {
                    assert(r[j] == rest[j - here.len()]);
                }
            }
        }
    }
}

/// Decoded rows never carry a sequence longer than one operation's length.
pub proof fn lemma_record_rows_short(m: RowMeta, r: ReadRecord)
    ensures
        record_rows(m, r) matches Some(rows) ==> short_sequences(rows),
{
    lemma_walk_short(m, r.cigar@, 0, first_ref_pos(r), 1, r.seq@);
    if let Some(rows) = record_rows(m, r) {
        let rest = walk(m, r.cigar@, 0, first_ref_pos(r), 1, r.seq@)->0;
        assert forall|j: int| 0 <= j < rows.len() implies (#[trigger] rows[j]).sequence.len() <= u32::MAX by {
            if j > 0 {
                assert(rows[j] == rest[j - 1]);
            }
        }
    }
}

/// For every record that decodes, the first row is the whole-read row, and its
/// reference end minus its reference start is the sum of the lengths of the
/// reference-consuming operations (match, equal, mismatch, deletion, skip).
pub proof fn read_row_spans_consumed_reference(m: RowMeta, r: ReadRecord)
    requires
        record_rows(m, r) is Some,
    ensures
        ({
            let rows = record_rows(m, r)->0;
            &&& rows.len() >= 1
            &&& rows[0].element_type == ElementType::READ
            &&& rows[0].reference_end - rows[0].reference_start == ref_prefix(r.cigar@, r.cigar@.len() as int)
        }),
{
}

/// A soft clip that opens the edit script places its clipped bases just
/// before the first aligned base: the k-th at `reference_start - l + k`, where
/// `reference_start` is the whole-read row's start and `l` the clip length.
pub proof fn leading_soft_clip_precedes_alignment(m: RowMeta, r: ReadRecord, l: u32)
    requires
        r.cigar@.len() > 0,
        r.cigar@[0] == CigarOp::SoftClip(l),
        record_rows(m, r) is Some,
    ensures
        ({
            let rows = record_rows(m, r)->0;
            &&& rows.len() >= 1 + l
            &&& forall|k: int|
                0 <= k < l ==> {
                    &&& (#[trigger] rows[1 + k]).element_type == ElementType::SOFTCLIP
                    &&& rows[1 + k].reference_start == rows[0].reference_start - l + k
                    &&& rows[1 + k].reference_end == rows[0].reference_start - l + k + 1
                    &&& rows[1 + k].sequence == seq![r.seq@[k]]
                }
        }),
{
    let ops = r.cigar@;
    let s1 = first_ref_pos(r);
    assert(is_leading(ops, 0));
    let here = op_rows(m, ops[0], true, s1, 1, r.seq@)->0;
    let rest = walk(m, ops, 1, s1 + ref_advance(ops[0]), 1 + read_advance(ops[0]), r.seq@)->0;
    let rows = record_rows(m, r)->0;
    assert(walk(m, ops, 0, s1, 1, r.seq@)->0 == here + rest);
    assert forall|k: int| 0 <= k < l implies (#[trigger] rows[1 + k]) == here[k] by {}
}

/// Read bases consumed by the first `n` operations.
pub open spec fn read_prefix(ops: Seq<CigarOp>, n: int) -> int
    decreases n,
{
    if n <= 0 { 0 } else { read_prefix(ops, n - 1) + read_advance(ops[n - 1]) }
}

proof fn lemma_walk_prefix(m: RowMeta, ops: Seq<CigarOp>, s1: int, s: Seq<u8>, i: int) -> (a: Seq<ElementView>)
    requires
        0 <= i <= ops.len(),
        walk(m, ops, 0, s1, 1, s) is Some,
    ensures
        walk(m, ops, 0, s1, 1, s) == prepend(a, walk(m, ops, i, s1 + ref_prefix(ops, i), 1 + read_prefix(ops, i), s)),
        walk(m, ops, i, s1 + ref_prefix(ops, i), 1 + read_prefix(ops, i), s) is Some,
    decreases i,
{
    if i == 0 {
        assert(Seq::<ElementView>::empty() + walk(m, ops, 0, s1, 1, s)->0 =~= walk(m, ops, 0, s1, 1, s)->0);
        Seq::empty()
    } else {
        let b = lemma_walk_prefix(m, ops, s1, s, i - 1);
        let rp = s1 + ref_prefix(ops, i - 1);
        let qp = 1 + read_prefix(ops, i - 1);
        let here = op_rows(m, ops[i - 1], is_leading(ops, i - 1), rp, qp, s)->0;
        let rest = walk(m, ops, i, rp + ref_advance(ops[i - 1]), qp + read_advance(ops[i - 1]), s)->0;
        assert(b + (here + rest) =~= (b + here) + rest);
        b + here
    }
}

/// A soft clip that does not open the edit script (some earlier operation
/// consumes reference or read) places its k-th clipped base at the reference
/// cursor plus k: `reference_start + C + k`, where `reference_start` is the
/// whole-read row's start and `C` the reference consumed by the operations
/// before it; its base is read `Q + k`, `Q` being the read consumed before
/// it. The returned index is where those rows begin in the record's rows.
pub proof fn inner_soft_clip_at_reference_cursor(m: RowMeta, r: ReadRecord, i: int, n: u32) -> (p: int)
    requires
        record_rows(m, r) is Some,
        0 <= i < r.cigar@.len(),
        r.cigar@[i] == CigarOp::SoftClip(n),
        !is_leading(r.cigar@, i),
    ensures
        ({
            let rows = record_rows(m, r)->0;
            &&& 1 <= p && p + n <= rows.len()
            &&& forall|k: int|
                0 <= k < n ==> {
                    &&& (#[trigger] rows[p + k]).element_type == ElementType::SOFTCLIP
                    &&& rows[p + k].reference_start == rows[0].reference_start + ref_prefix(r.cigar@, i) + k
                    &&& rows[p + k].reference_end == rows[0].reference_start + ref_prefix(r.cigar@, i) + k + 1
                    &&& rows[p + k].sequence == seq![r.seq@[read_prefix(r.cigar@, i) + k]]
                }
        }),
{
    let ops = r.cigar@;
    let s1 = first_ref_pos(r);
    let a = lemma_walk_prefix(m, ops, s1, r.seq@, i);
    let rp = s1 + ref_prefix(ops, i);
    let qp = 1 + read_prefix(ops, i);
    let here = op_rows(m, ops[i], false, rp, qp, r.seq@)->0;
    let rest = walk(m, ops, i + 1, rp + ref_advance(ops[i]), qp + read_advance(ops[i]), r.seq@)->0;
    let rows = record_rows(m, r)->0;
    assert(walk(m, ops, i, rp, qp, r.seq@)->0 == here + rest);
    assert(rows == seq![rows[0]] + (a + (here + rest)));
    assert forall|k: int| 0 <= k < n implies (#[trigger] rows[1 + a.len() + k]) == here[k] by {
        assert((seq![rows[0]] + (a + (here + rest)))[1 + a.len() + k] == here[k]);
    }
    1 + a.len() as int
}

proof fn lemma_ref_prefix_monotone(ops: Seq<CigarOp>, i: int, j: int)
    requires
        0 <= i <= j,
    ensures
        ref_prefix(ops, i) <= ref_prefix(ops, j),
    decreases j - i,
{
    if i < j {
        lemma_ref_prefix_monotone(ops, i, j - 1);
    }
}

/// A copy of `v[from..to]`.
fn copy_range(v: &Vec<u8>, from: usize, to: usize) -> (r: Vec<u8>)
    requires
        from <= to <= v@.len(),
    ensures
        r@ == v@.subrange(from as int, to as int),
{
    let mut r: Vec<u8> = Vec::new();
    let mut i: usize = from;
    while i < to
        invariant
            from <= i <= to <= v@.len(),
            r@ == v@.subrange(from as int, i as int),
        decreases to - i,
    {
        r.push(v[i]);
        i = i + 1;
        assert(r@ =~= v@.subrange(from as int, i as int));
    }
    r
}

fn make_row(
    contig: &String,
    rec: &ReadRecord,
    read_group: &String,
    sample_name: &String,
    kind: ElementType,
    start: u32,
    end: u32,
    sequence: Vec<u8>,
) -> (e: AlignmentElement)
    ensures
        e@ == row(
            RowMeta {
                contig: contig@,
                is_forward: !rec.is_reverse,
                query_name: rec.query_name@,
                haplotype: rec.haplotype,
                read_group: read_group@,
                sample_name: sample_name@,
            },
            kind,
            start as int,
            end as int,
            sequence@,
        ),
{
    AlignmentElement {
        reference_contig: contig.clone(),
        reference_start: start,
        reference_end: end,
        is_forward: !rec.is_reverse,
        query_name: rec.query_name.clone(),
        haplotype: rec.haplotype,
        read_group: read_group.clone(),
        sample_name: sample_name.clone(),
        element_type: kind,
        sequence,
        column_width: 1,
    }
}


/// The shared fields of the rows of record `r`.
pub open spec fn meta_of(contig: Seq<char>, r: ReadRecord, read_group: Seq<char>, sample_name: Seq<char>) -> RowMeta {
    RowMeta {
        contig,
        is_forward: !r.is_reverse,
        query_name: r.query_name@,
        haplotype: r.haplotype,
        read_group,
        sample_name,
    }
}

proof fn lemma_views_push(rows: Seq<AlignmentElement>, e: AlignmentElement)
    ensures
        views(rows.push(e)) == views(rows).push(e@),
{
    assert(views(rows.push(e)) =~= views(rows).push(e@));
}

fn consumes(op: CigarOp) -> (r: bool)
    ensures
        r == (consumes_ref(op) || consumes_read(op)),
{
    match op {
        CigarOp::HardClip(_) => false,
        CigarOp::Pad(_) => false,
        _ => true,
    }
}

fn advances(op: CigarOp) -> (r: (u64, u64))
    ensures
        r.0 == ref_advance(op),
        r.1 == read_advance(op),
        r.0 <= u32::MAX,
        r.1 <= u32::MAX,
{
    match op {
        CigarOp::Match(l) => (l as u64, l as u64),
        CigarOp::Ins(l) => (0, l as u64),
        CigarOp::Del(l) => (l as u64, 0),
        CigarOp::RefSkip(l) => (l as u64, 0),
        CigarOp::SoftClip(l) => (0, l as u64),
        CigarOp::HardClip(_) => (0, 0),
        CigarOp::Pad(_) => (0, 0),
        CigarOp::Equal(l) => (l as u64, l as u64),
        CigarOp::Diff(l) => (l as u64, l as u64),
    }
}

/// The reference span of the record's edit script, or `None` where it would
/// carry the record, starting at `s1`, beyond 32-bit coordinates.
fn checked_span(rec: &ReadRecord, s1: u64) -> (r: Option<u64>)
    requires
        s1 <= u32::MAX,
    ensures
        match r {
            Some(t) => t == ref_span(*rec) && s1 + t <= u32::MAX,
            None => s1 + ref_span(*rec) > u32::MAX,
        },
{
    let ghost ops = rec.cigar@;
    let mut acc: u64 = 0;
    let mut i: usize = 0;
    while i < rec.cigar.len()
        invariant
            ops == rec.cigar@,
            i <= ops.len(),
            acc == ref_prefix(ops, i as int),
            s1 + acc <= u32::MAX,
        decreases ops.len() - i,
    {
        let (adv, _) = advances(rec.cigar[i]);
        if s1 + acc + adv > u32::MAX as u64 {
            proof {
                lemma_ref_prefix_monotone(ops, i + 1, ops.len() as int);
            }
            return None;
        }
        acc = acc + adv;
        i = i + 1;
    }
    Some(acc)
}

/// One row per base of `rec.seq[qp - 1 .. qp - 1 + l]`, the k-th anchored at `a + k`.
fn emit_bases(
    rec: &ReadRecord,
    contig: &String,
    read_group: &String,
    sample_name: &String,
    kind: ElementType,
    a: u64,
    qp: u64,
    l: u32,
) -> (v: Vec<AlignmentElement>)
    requires
        a + l <= u32::MAX,
        1 <= qp,
        qp - 1 + l <= rec.seq@.len(),
    ensures
        views(v@) == Seq::new(
            l as nat,
            |k: int|
                row(
                    meta_of(contig@, *rec, read_group@, sample_name@),
                    kind,
                    a + k,
                    a + k + 1,
                    seq![rec.seq@[qp - 1 + k]],
                ),
        ),
{
    let ghost m = meta_of(contig@, *rec, read_group@, sample_name@);
    let ghost target = Seq::new(
        l as nat,
        |k: int| row(m, kind, a + k, a + k + 1, seq![rec.seq@[qp - 1 + k]]),
    );
    let mut v: Vec<AlignmentElement> = Vec::new();
    let mut k: u32 = 0;
    while k < l
        invariant
            k <= l,
            a + l <= u32::MAX,
            1 <= qp,
            qp - 1 + l <= rec.seq@.len(),
            m == meta_of(contig@, *rec, read_group@, sample_name@),
            target == Seq::new(
                l as nat,
                |k: int| row(m, kind, a + k, a + k + 1, seq![rec.seq@[qp - 1 + k]]),
            ),
            views(v@) == target.take(k as int),
        decreases l - k,
    {
        let n = rec.seq.len();
        let idx = (qp - 1 + k as u64) as usize;
        let mut base: Vec<u8> = Vec::new();
        base.push(rec.seq[idx]);
        assert(base@ =~= seq![rec.seq@[qp - 1 + k]]);
        let pos = a + k as u64;
        let e = make_row(contig, rec, read_group, sample_name, kind, pos as u32, (pos + 1) as u32, base);
        proof {
            lemma_views_push(v@, e);
        }
        v.push(e);
        k = k + 1;
        assert(views(v@) =~= target.take(k as int));
    }
    assert(target.take(l as int) =~= target);
    v
}

/// The rows of one edit-script operation with the reference cursor at `rp`
/// and the read cursor at `qp`.
fn emit_op(
    rec: &ReadRecord,
    contig: &String,
    read_group: &String,
    sample_name: &String,
    op: CigarOp,
    leading: bool,
    rp: u64,
    qp: u64,
) -> (r: Option<Vec<AlignmentElement>>)
    requires
        1 <= rp,
        rp + ref_advance(op) <= u32::MAX,
        1 <= qp,
        qp + read_advance(op) <= u64::MAX,
    ensures
        match r {
            Some(v) => op_rows(
                meta_of(contig@, *rec, read_group@, sample_name@),
                op,
                leading,
                rp as int,
                qp as int,
                rec.seq@,
            ) == Some(views(v@)),
            None => op_rows(
                meta_of(contig@, *rec, read_group@, sample_name@),
                op,
                leading,
                rp as int,
                qp as int,
                rec.seq@,
            ) is None,
        },
{
    let ghost m = meta_of(contig@, *rec, read_group@, sample_name@);
    let mut v: Vec<AlignmentElement> = Vec::new();
    assert(views(v@) =~= Seq::<ElementView>::empty());
    match op {
        CigarOp::Ins(l) => {
            if l > 0 {
                if qp - 1 + l as u64 > rec.seq.len() as u64 {
                    return None;
                }
                let from = (qp - 1) as usize;
                let piece = copy_range(&rec.seq, from, from + l as usize);
                let e = make_row(contig, rec, read_group, sample_name, ElementType::INSERTION, (rp - 1) as u32, rp as u32, piece);
                proof {
                    lemma_views_push(v@, e);
                }
                v.push(e);
                assert(views(v@) =~= seq![e@]);
            }
        },
        CigarOp::Del(l) => {
            if l > 0 {
                let e = make_row(contig, rec, read_group, sample_name, ElementType::DELETION, rp as u32, (rp + l as u64) as u32, Vec::new());
                proof {
                    lemma_views_push(v@, e);
                }
                v.push(e);
                assert(views(v@) =~= seq![e@]);
            }
        },
        CigarOp::Diff(l) => {
            if qp - 1 + l as u64 > rec.seq.len() as u64 {
                return None;
            }
            v = emit_bases(rec, contig, read_group, sample_name, ElementType::DIFF, rp, qp, l);
        },
        CigarOp::SoftClip(l) => {
            if qp - 1 + l as u64 > rec.seq.len() as u64 {
                return None;
            }
            let a: u64 = if leading {
                if (l as u64) > rp {
                    return None;
                }
                rp - l as u64
            } else {
                rp
            };
            if a + l as u64 > u32::MAX as u64 {
                return None;
            }
            v = emit_bases(rec, contig, read_group, sample_name, ElementType::SOFTCLIP, a, qp, l);
        },
        _ => {},
    }
    Some(v)
}

/// Splits one record into its rows: a whole-read row spanning the alignment's
/// footprint, then the rows of each operation of its edit script, in order.
/// Every row carries `contig`, the record's strand, name and haplotype, and
/// the given read group and sample; its column width is left at 1.
pub fn decompose_record(
    rec: &ReadRecord,
    contig: &String,
    read_group: &String,
    sample_name: &String,
) -> (r: Option<Vec<AlignmentElement>>)
    ensures
        match r {
            Some(rows) => record_rows(meta_of(contig@, *rec, read_group@, sample_name@), *rec)
                == Some(views(rows@)),
            None => record_rows(meta_of(contig@, *rec, read_group@, sample_name@), *rec) is None,
        },
{
    let ghost m = meta_of(contig@, *rec, read_group@, sample_name@);
    let ghost ops = rec.cigar@;
    let ghost s = rec.seq@;
    proof {
        lemma_ref_prefix_monotone(ops, 0, ops.len() as int);
    }
    if rec.reference_start < 0 || rec.reference_start >= u32::MAX as i64 {
        return None;
    }
    let s1: u64 = rec.reference_start as u64 + 1;
    let span = match checked_span(rec, s1) {
        Some(t) => t,
        None => {
            return None;
        },
    };
    let mut rows: Vec<AlignmentElement> = Vec::new();
    let read_row = make_row(contig, rec, read_group, sample_name, ElementType::READ, s1 as u32, (s1 + span) as u32, Vec::new());
    proof {
        lemma_views_push(rows@, read_row);
    }
    rows.push(read_row);
    assert(views(rows@) =~= seq![read_row@]);
    let mut rp: u64 = s1;
    let mut qp: u64 = 1;
    let mut leading = true;
    let mut i: usize = 0;
    while i < rec.cigar.len()
        invariant
            ops == rec.cigar@,
            s == rec.seq@,
            m == meta_of(contig@, *rec, read_group@, sample_name@),
            i <= ops.len(),
            span == ref_span(*rec),
            s1 == first_ref_pos(*rec),
            1 <= s1,
            s1 + span <= u32::MAX,
            rp == s1 + ref_prefix(ops, i as int),
            1 <= qp,
            leading == is_leading(ops, i as int),
            record_rows(m, *rec) == prepend(views(rows@), walk(m, ops, i as int, rp as int, qp as int, s)),
        decreases ops.len() - i,
    {
        let op = rec.cigar[i];
        let (radv, qadv) = advances(op);
        proof {
            lemma_ref_prefix_monotone(ops, i + 1, ops.len() as int);
            lemma_ref_prefix_monotone(ops, 0, i as int);
        }
        if qp > u64::MAX - qadv {
            return None;
        }
        let ghost before = views(rows@);
        let ghost rest = walk(m, ops, i + 1, rp + radv, qp + qadv, s);
        let mut more = match emit_op(rec, contig, read_group, sample_name, op, leading, rp, qp) {
            Some(v) => v,
            None => {
                return None;
            },
        };
        let ghost added = views(more@);
        rows.append(&mut more);
        proof {
            assert(views(rows@) =~= before + added);
            match rest {
                Some(t) => {
                    assert(before + (added + t) =~= (before + added) + t);
                },
                None => {},
            }
        }
        proof {
            if leading && !consumes_ref(op) && !consumes_read(op) {
                assert forall|j: int| 0 <= j < i + 1 implies !consumes_ref(#[trigger] ops[j]) && !consumes_read(ops[j]) by {
                    if j < i {
                        assert(!consumes_ref(ops[j]));
                    }
                }
            }
            if !(leading && !consumes_ref(op) && !consumes_read(op)) {
                assert(!is_leading(ops, i + 1)) by {
                    if !leading {
                        let j = choose|j: int| 0 <= j < i && !(!consumes_ref(#[trigger] ops[j]) && !consumes_read(ops[j]));
                        assert(0 <= j < i + 1);
                    } else {
                        assert(ops[i as int] == op);
                    }
                }
            }
        }
        leading = leading && !consumes(op);
        rp = rp + radv;
        qp = qp + qadv;
        i = i + 1;
    }
    Some(rows)
}

} // verus!
