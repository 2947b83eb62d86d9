use vstd::prelude::*;
use vstd::string::*;

verus! {

/// A half-open genomic interval `[start, stop)` on one contig.
pub struct Locus {
    pub contig: String,
    pub start: u64,
    pub stop: u64,
}

impl Locus {
    /// Well-formed: the interval is not empty.
    pub open spec fn wf(&self) -> bool {
        self.start < self.stop
    }

    pub fn duplicate(&self) -> (r: Locus)
        ensures
            r.contig@ == self.contig@,
            r.start == self.start,
            r.stop == self.stop,
    {
        Locus { contig: self.contig.clone(), start: self.start, stop: self.stop }
    }
}

/// Why a locus text was refused.
#[derive(Debug, Clone, Copy, PartialEq, Eq, Structural)]
pub enum LocusError {
    /// Neither `contig:position` nor `contig:start-stop`.
    Format,
    /// The start (or single position) is not a usable unsigned 64-bit number.
    Start,
    /// The stop is not an unsigned 64-bit number.
    Stop,
    /// The stop does not lie after the start.
    Empty,
}

/// Half the width of the window opened around a single position.
pub const FLANK: u64 = 1000;

pub open spec fn is_sep(c: char) -> bool {
    c == ':' || c == '-'
}

/// Indices of the separators (`:` or `-`) of `s`, in order.
pub open spec fn sep_positions(s: Seq<char>) -> Seq<int>
    decreases s.len(),
{
    if s.len() == 0 {
        Seq::empty()
    } else {
        let p = sep_positions(s.drop_last());
        if is_sep(s.last()) {
            p.push(s.len() - 1)
        } else {
            p
        }
    }
}

/// `s` with every comma taken out.
pub open spec fn strip_commas(s: Seq<char>) -> Seq<char>
    decreases s.len(),
{
    if s.len() == 0 {
        Seq::empty()
    } else {
        let p = strip_commas(s.drop_last());
        if s.last() == ',' {
            p
        } else {
            p.push(s.last())
        }
    }
}

pub open spec fn is_digit(c: char) -> bool {
    '0' <= c && c <= '9'
}

pub open spec fn decimal_value(d: Seq<char>) -> int
    decreases d.len(),
{
    if d.len() == 0 {
        0
    } else {
        decimal_value(d.drop_last()) * 10 + (d.last() as int - '0' as int)
    }
}

/// `p` without its leading `+`, if it has one.
pub open spec fn unsigned_part(p: Seq<char>) -> Seq<char> {
    if p.len() > 0 && p[0] == '+' { p.drop_first() } else { p }
}

pub open spec fn all_digits(d: Seq<char>) -> bool {
    forall|i: int| 0 <= i < d.len() ==> is_digit(#[trigger] d[i])
}

/// The unsigned number that `p` spells: an optional `+`, then one or more
/// decimal digits, with a value that fits in 64 bits.
pub open spec fn parse_u64(p: Seq<char>) -> Option<u64> {
    let d = unsigned_part(p);
    if d.len() > 0 && all_digits(d) && decimal_value(d) <= u64::MAX {
        Some(decimal_value(d) as u64)
    } else {
        None
    }
}

/// The text of `s[a..b]` without commas.
pub open spec fn field(s: Seq<char>, a: int, b: int) -> Seq<char> {
    strip_commas(s.subrange(a, b))
}

/// What a locus text means, commas ignored: `contig:position` is the window
/// of `FLANK` bases on each side of the position (cut at 0), and
/// `contig:start-stop` is that interval.
pub open spec fn locus_of(s: Seq<char>) -> Result<(Seq<char>, u64, u64), LocusError> {
    let p = sep_positions(s);
    if p.len() == 1 {
        match parse_u64(field(s, p[0] + 1, s.len() as int)) {
            Some(x) => if x > u64::MAX - FLANK {
                Err(LocusError::Start)
            } else {
                Ok(
                    (
                        field(s, 0, p[0]),
                        if x >= FLANK { (x - FLANK) as u64 } else { 0 },
                        (x + FLANK) as u64,
                    ),
                )
            },
            None => Err(LocusError::Start),
        }
    } else if p.len() == 2 {
        match parse_u64(field(s, p[0] + 1, p[1])) {
            None => Err(LocusError::Start),
            Some(a) => match parse_u64(field(s, p[1] + 1, s.len() as int)) {
                None => Err(LocusError::Stop),
                Some(b) => if a < b {
                    Ok((field(s, 0, p[0]), a, b))
                } else {
                    Err(LocusError::Empty)
                },
            },
        }
    } else {
        Err(LocusError::Format)
    }
}

fn separators(s: &str) -> (r: Vec<usize>)
    ensures
        r@.len() == sep_positions(s@).len(),
        forall|i: int| 0 <= i < r@.len() ==> r@[i] as int == sep_positions(s@)[i],
        forall|i: int| 0 <= i < r@.len() ==> r@[i] < s@.len(),
{
    let n = s.unicode_len();
    let mut r: Vec<usize> = Vec::new();
    let mut i: usize = 0;
    while i < n
        invariant
            n == s@.len(),
            i <= n,
            r@.len() == sep_positions(s@.take(i as int)).len(),
            forall|j: int| 0 <= j < r@.len() ==> r@[j] as int == sep_positions(s@.take(i as int))[j],
            forall|j: int| 0 <= j < r@.len() ==> r@[j] < i,
        decreases n - i,
    {
        let c = s.get_char(i);
        assert(s@.take(i + 1).drop_last() =~= s@.take(i as int));
        if c == ':' || c == '-' {
            r.push(i);
        }
        i = i + 1;
    }
    assert(s@.take(n as int) =~= s@);
    r
}

/// The characters of `s[a..b]` other than commas.
fn field_chars(s: &str, a: usize, b: usize) -> (r: Vec<char>)
    requires
        a <= b <= s@.len(),
    ensures
        r@ == field(s@, a as int, b as int),
{
    let mut r: Vec<char> = Vec::new();
    let mut i: usize = a;
    assert(s@.subrange(a as int, a as int) =~= Seq::<char>::empty());
    while i < b
        invariant
            a <= i <= b <= s@.len(),
            r@ == field(s@, a as int, i as int),
        decreases b - i,
    {
        let c = s.get_char(i);
        assert(s@.subrange(a as int, i + 1).drop_last() =~= s@.subrange(a as int, i as int));
        if c != ',' {
            r.push(c);
        }
        i = i + 1;
    }
    r
}

/// The text of `s[a..b]` without commas, as a string.
fn field_string(s: &str, a: usize, b: usize) -> (r: String)
    requires
        a <= b <= s@.len(),
    ensures
        r@ == field(s@, a as int, b as int),
{
    let mut r = String::new();
    let mut i: usize = a;
    assert(s@.subrange(a as int, a as int) =~= Seq::<char>::empty());
    while i < b
        invariant
            a <= i <= b <= s@.len(),
            r@ == field(s@, a as int, i as int),
        decreases b - i,
    {
        let c = s.get_char(i);
        assert(s@.subrange(a as int, i + 1).drop_last() =~= s@.subrange(a as int, i as int));
        if c != ',' {
            let one = s.substring_char(i, i + 1);
            assert(one@ =~= seq![c]);
            r.append(one);
        }
        i = i + 1;
    }
    r
}

proof fn lemma_decimal_prefix_bound(d: Seq<char>, j: int)
    requires
        0 <= j <= d.len(),
        forall|i: int| 0 <= i < d.len() ==> is_digit(#[trigger] d[i]),
    ensures
        0 <= decimal_value(d.take(j)) <= decimal_value(d),
    decreases d.len() - j,
{
    if j == d.len() {
        assert(d.take(j) =~= d);
        lemma_decimal_nonneg(d);
    } else {
        lemma_decimal_prefix_bound(d, j + 1);
        assert(d.take(j + 1).drop_last() =~= d.take(j));
        lemma_decimal_nonneg(d.take(j));
    }
}

proof fn lemma_decimal_nonneg(d: Seq<char>)
    requires
        forall|i: int| 0 <= i < d.len() ==> is_digit(#[trigger] d[i]),
    ensures
        0 <= decimal_value(d),
    decreases d.len(),
{
    if d.len() > 0 {
        lemma_decimal_nonneg(d.drop_last());
    }
}

/// Reads `p` as `parse_u64` does.
fn parse_number(p: &Vec<char>) -> (r: Option<u64>)
    ensures
        r == parse_u64(p@),
{
    let ghost d = unsigned_part(p@);
    let from: usize = if p.len() > 0 && p[0] == '+' { 1 } else { 0 };
    assert(d =~= p@.subrange(from as int, p@.len() as int));
    if from == p.len() {
        return None;
    }
    let mut value: u64 = 0;
    let mut i: usize = from;
    assert(d.take(0) =~= Seq::<char>::empty());
    while i < p.len()
        invariant
            from <= i <= p@.len(),
            d == p@.subrange(from as int, p@.len() as int),
            d == unsigned_part(p@),
            forall|j: int| 0 <= j < i - from ==> is_digit(#[trigger] d[j]),
            value == decimal_value(d.take(i - from)),
        decreases p@.len() - i,
    {
        let c = p[i];
        assert(d[i - from] == c);
        if !('0' <= c && c <= '9') {
            assert(!is_digit(d[i - from]));
            assert(!all_digits(d));
            return None;
        }
        let digit = (c as u32 - '0' as u32) as u64;
        assert(d.take(i + 1 - from).drop_last() =~= d.take(i - from));
        if value > (u64::MAX - digit) / 10 {
            proof {
                assert forall|j: int| 0 <= j < i + 1 - from implies is_digit(#[trigger] d.take(i + 1 - from)[j]) by {
                    assert(d.take(i + 1 - from)[j] == d[j]);
                }
                assert(decimal_value(d.take(i + 1 - from)) > u64::MAX) by (nonlinear_arith)
                    requires
                        decimal_value(d.take(i + 1 - from)) == value * 10 + digit,
                        value > (u64::MAX - digit) / 10,
                        digit <= 9,
                ;
                if all_digits(d) {
                    lemma_decimal_prefix_bound(d, i + 1 - from);
                }
                assert(parse_u64(p@) is None);
            }
            return None;
        }
        assert(value * 10 + digit <= u64::MAX) by (nonlinear_arith)
            requires
                value <= (u64::MAX - digit) / 10,
                digit <= 9,
        ;
        value = value * 10 + digit;
        i = i + 1;
    }
    assert(d.take(d.len() as int) =~= d);
    Some(value)
}

/// Reads a locus text as `locus_of` says.
pub fn parse_locus(s: &str) -> (r: Result<Locus, LocusError>)
    ensures
        match r {
            Ok(l) => l.wf() && locus_of(s@) == Ok::<(Seq<char>, u64, u64), LocusError>((l.contig@, l.start, l.stop)),
            Err(e) => locus_of(s@) == Err::<(Seq<char>, u64, u64), LocusError>(e),
        },
{
    let n = s.unicode_len();
    let seps = separators(s);
    if seps.len() == 1 {
        let first_sep = seps[0];
        let x = match parse_number(&field_chars(s, first_sep + 1, n)) {
            Some(x) => x,
            None => {
                return Err(LocusError::Start);
            },
        };
        if x > u64::MAX - FLANK {
            return Err(LocusError::Start);
        }
        let start = if x >= FLANK { x - FLANK } else { 0 };
        Ok(Locus { contig: field_string(s, 0, first_sep), start, stop: x + FLANK })
    } else if seps.len() == 2 {
        let first_sep = seps[0];
        let second_sep = seps[1];
        proof {
            lemma_sep_positions_increasing(s@);
        }
        let a = match parse_number(&field_chars(s, first_sep + 1, second_sep)) {
            Some(a) => a,
            None => {
                return Err(LocusError::Start);
            },
        };
        let b = match parse_number(&field_chars(s, second_sep + 1, n)) {
            Some(b) => b,
            None => {
                return Err(LocusError::Stop);
            },
        };
        if a < b {
            Ok(Locus { contig: field_string(s, 0, first_sep), start: a, stop: b })
        } else {
            Err(LocusError::Empty)
        }
    } else {
        Err(LocusError::Format)
    }
}

proof fn lemma_sep_positions_increasing(s: Seq<char>)
    ensures
        forall|i: int, j: int|
            0 <= i < j < sep_positions(s).len() ==> sep_positions(s)[i] < sep_positions(s)[j],
        forall|i: int| 0 <= i < sep_positions(s).len() ==> 0 <= #[trigger] sep_positions(s)[i] < s.len(),
    decreases s.len(),
{
    if s.len() > 0 {
        let q = sep_positions(s.drop_last());
        lemma_sep_positions_increasing(s.drop_last());
        if is_sep(s.last()) {
            let p = q.push(s.len() - 1);
            assert forall|i: int, j: int| 0 <= i < j < p.len() implies p[i] < p[j] by {
                if j < q.len() {
                    assert(q[i] < q[j]);
                } else {
                    assert(q[i] < s.len() - 1);
                }
            }
            assert forall|i: int| 0 <= i < p.len() implies 0 <= #[trigger] p[i] < s.len() by {
                if i < q.len() {
                    assert(q[i] < s.len() - 1);
                }
            }
        }
    }
}

} // verus!
