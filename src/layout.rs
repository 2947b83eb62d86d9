use std::collections::HashMap;
use vstd::prelude::*;

use crate::alignment::{views, AlignmentElement, ElementType, ElementView};

verus! {

broadcast use vstd::std_specs::hash::group_hash_axioms;

/// Rendering width that one element asks for at its anchor: a deletion's
/// span, the length of anything else's sequence.
pub open spec fn element_width(e: ElementView) -> int {
    if e.element_type == ElementType::DELETION {
        if e.reference_end >= e.reference_start {
            e.reference_end - e.reference_start
        } else {
            0
        }
    } else {
        e.sequence.len() as int
    }
}

/// Whether one of the first `n` rows is a non-read element anchored at `p`.
pub open spec fn has_anchor(rows: Seq<ElementView>, n: int, p: int) -> bool {
    exists|i: int|
        0 <= i < n && #[trigger] rows[i].element_type != ElementType::READ && rows[i].reference_start
            == p
}

/// The largest width among the first `n` rows' non-read elements anchored at `p`.
pub open spec fn widest(rows: Seq<ElementView>, n: int, p: int) -> int
    decreases n,
{
    if n <= 0 {
        0
    } else {
        let w = widest(rows, n - 1, p);
        let e = rows[n - 1];
        if e.element_type != ElementType::READ && e.reference_start == p && element_width(e) > w {
            element_width(e)
        } else {
            w
        }
    }
}

/// The column width at position `p` over a whole table: the widest element
/// anchored there, 1 where none is.
pub open spec fn column_width_at(rows: Seq<ElementView>, p: int) -> int {
    if has_anchor(rows, rows.len() as int, p) {
        widest(rows, rows.len() as int, p)
    } else {
        1
    }
}

proof fn lemma_widest_unanchored(rows: Seq<ElementView>, n: int, p: int)
    requires
        !has_anchor(rows, n, p),
    ensures
        widest(rows, n, p) == 0,
    decreases n,
{
    if n > 0 {
        assert(!has_anchor(rows, n - 1, p)) by {
            if has_anchor(rows, n - 1, p) {
                let j = choose|j: int|
                    0 <= j < n - 1 && #[trigger] rows[j].element_type != ElementType::READ
                        && rows[j].reference_start == p;
                assert(0 <= j < n);
            }
        }
        lemma_widest_unanchored(rows, n - 1, p);
        assert(!(rows[n - 1].element_type != ElementType::READ && rows[n - 1].reference_start == p)) by {
            if rows[n - 1].element_type != ElementType::READ && rows[n - 1].reference_start == p {
                assert(0 <= n - 1 < n);
            }
        }
    }
}

fn width_of(e: &AlignmentElement) -> (w: usize)
    ensures
        w == element_width(e@),
{
    match e.element_type {
        ElementType::DELETION => {
            if e.reference_end >= e.reference_start {
                (e.reference_end - e.reference_start) as usize
            } else {
                0
            }
        },
        _ => e.sequence.len(),
    }
}

/// The column-width mask of a table: for each position at which a non-read
/// element is anchored, the largest width among those elements.
pub fn layout(rows: &Vec<AlignmentElement>) -> (mask: HashMap<u32, usize>)
    ensures
        forall|p: u32|
            #![trigger mask@.contains_key(p)]
            mask@.contains_key(p) == has_anchor(views(rows@), rows@.len() as int, p as int)
                && (mask@.contains_key(p) ==> mask@[p] == widest(
                views(rows@),
                rows@.len() as int,
                p as int,
            )),
{
    let ghost v = views(rows@);
    let mut mask: HashMap<u32, usize> = HashMap::new();
    let mut i: usize = 0;
    while i < rows.len()
        invariant
            v == views(rows@),
            i <= rows@.len(),
            forall|p: u32|
                #![trigger mask@.contains_key(p)]
                mask@.contains_key(p) == has_anchor(v, i as int, p as int) && (mask@.contains_key(p)
                    ==> mask@[p] == widest(v, i as int, p as int)),
        decreases rows@.len() - i,
    {
        let e = &rows[i];
        assert(v[i as int] == e@);
        let is_read = match e.element_type {
            ElementType::READ => true,
            _ => false,
        };
        let ghost old_mask = mask@;
        if !is_read {
            let w = width_of(e);
            let p = e.reference_start;
            match mask.get(&p) {
                Some(cur) => {
                    if w > *cur {
                        mask.insert(p, w);
                    }
                },
                None => {
                    mask.insert(p, w);
                },
            }
        }
        proof {
            assert forall|q: u32|
                #![trigger mask@.contains_key(q)]
                mask@.contains_key(q) == has_anchor(v, i + 1, q as int) && (mask@.contains_key(q)
                    ==> mask@[q] == widest(v, i + 1, q as int)) by {
                if has_anchor(v, i as int, q as int) {
                    let j = choose|j: int|
                        0 <= j < i && #[trigger] v[j].element_type != ElementType::READ
                            && v[j].reference_start == q as int;
                    assert(0 <= j < i + 1);
                }
                if has_anchor(v, i + 1, q as int) && !has_anchor(v, i as int, q as int) {
                    let j = choose|j: int|
                        0 <= j < i + 1 && #[trigger] v[j].element_type != ElementType::READ
                            && v[j].reference_start == q as int;
                    assert(j == i);
                }
                if !is_read && e.reference_start == q {
                    assert(0 <= i < i + 1 && v[i as int].element_type != ElementType::READ);
                    if !has_anchor(v, i as int, q as int) {
                        lemma_widest_unanchored(v, i as int, q as int);
                    }
                    assert(element_width(v[i as int]) >= 0);
                } else {
                    assert(mask@.contains_key(q) == old_mask.contains_key(q));
                    assert(mask@.contains_key(q) ==> mask@[q] == old_mask[q]);
                    assert(!(v[i as int].element_type != ElementType::READ && v[i as int].reference_start == q as int));
                }
            }
        }
        i = i + 1;
    }
    mask
}


/// `e` with its column width replaced by `w`.
pub open spec fn with_width(e: ElementView, w: int) -> ElementView {
    ElementView { column_width: w, ..e }
}

proof fn lemma_widest_bounded(rows: Seq<ElementView>, n: int, p: int, bound: int)
    requires
        0 <= bound,
        n <= rows.len(),
        forall|i: int| 0 <= i < n ==> element_width(#[trigger] rows[i]) <= bound,
    ensures
        0 <= widest(rows, n, p) <= bound,
    decreases n,
{
    if n > 0 {
        lemma_widest_bounded(rows, n - 1, p, bound);
        assert(element_width(rows[n - 1]) <= bound);
    }
}

pub(crate) fn copy_with_width(e: &AlignmentElement, w: u32) -> (r: AlignmentElement)
    ensures
        r@ == with_width(e@, w as int),
{
    AlignmentElement {
        reference_contig: e.reference_contig.clone(),
        reference_start: e.reference_start,
        reference_end: e.reference_end,
        is_forward: e.is_forward,
        query_name: e.query_name.clone(),
        haplotype: e.haplotype,
        read_group: e.read_group.clone(),
        sample_name: e.sample_name.clone(),
        element_type: e.element_type,
        sequence: e.sequence.clone(),
        column_width: w,
    }
}

/// Sets every row's column width from the mask of the whole table: the
/// largest width of the non-read elements anchored at the row's start, or 1
/// where none is anchored there. Nothing else changes.
pub fn annotate_column_widths(rows: &mut Vec<AlignmentElement>)
    requires
        forall|i: int| 0 <= i < old(rows)@.len() ==> (#[trigger] old(rows)@[i]).sequence@.len() <= u32::MAX,
    ensures
        final(rows)@.len() == old(rows)@.len(),
        forall|i: int|
            0 <= i < old(rows)@.len() ==> (#[trigger] final(rows)@[i])@ == with_width(
                old(rows)@[i]@,
                column_width_at(views(old(rows)@), old(rows)@[i].reference_start as int),
            ),
{
    let ghost v = views(rows@);
    let ghost orig = rows@;
    let mask = layout(rows);
    proof {
        assert forall|i: int| 0 <= i < v.len() implies element_width(#[trigger] v[i]) <= u32::MAX by {
            assert(v[i] == orig[i]@);
        }
    }
    let mut i: usize = 0;
    while i < rows.len()
        invariant
            v == views(orig),
            rows@.len() == orig.len(),
            i <= orig.len(),
            forall|p: u32|
                #![trigger mask@.contains_key(p)]
                mask@.contains_key(p) == has_anchor(v, v.len() as int, p as int) && (mask@.contains_key(p)
                    ==> mask@[p] == widest(v, v.len() as int, p as int)),
            forall|j: int| 0 <= j < v.len() ==> element_width(#[trigger] v[j]) <= u32::MAX,
            forall|j: int| i <= j < orig.len() ==> #[trigger] rows@[j] == orig[j],
            forall|j: int|
                0 <= j < i ==> (#[trigger] rows@[j])@ == with_width(
                    orig[j]@,
                    column_width_at(v, orig[j].reference_start as int),
                ),
        decreases orig.len() - i,
    {
        let p = rows[i].reference_start;
        let w: usize = match mask.get(&p) {
            Some(x) => *x,
            None => 1,
        };
        proof {
            lemma_widest_bounded(v, v.len() as int, p as int, u32::MAX as int);
            assert(mask@.contains_key(p) == has_anchor(v, v.len() as int, p as int));
        }
        let e = copy_with_width(&rows[i], w as u32);
        rows.set(i, e);
        i = i + 1;
    }
}

} // verus!
