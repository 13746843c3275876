//! Properties of the region allocator that hold across whole sequences of
//! operations: initialization establishes the advertised bounds, the byte
//! zone only grows while occupied, the collective free resets it exactly
//! when the live count returns to zero, a refused page request has no side
//! effects, and the two zones never collide.

use crate::region::{
    align_up, bytes_alloc_model, bytes_free_model, bytes_fit, init_model, is_pow2,
    lemma_align_down_props, lemma_align_up_props, pages_alloc_model, pages_fit, RegionModel,
};
use vstd::prelude::*;

verus! {

/// One request against the allocator, at the model level. Sizes are in
/// bytes; a page request of `n` pages at page size `p` has `size == n * p`.
pub ghost enum RegionOp {
    /// A byte allocation of `size` bytes at alignment `align`.
    Bytes { size: int, align: int },
    /// A free of one earlier byte allocation.
    FreeBytes,
    /// A page allocation of `size` bytes at alignment `align`.
    Pages { size: int, align: int },
}

/// The caller obligations of one request: sizes are non-negative,
/// alignments are powers of two, and a free never outruns the allocations
/// before it.
pub open spec fn op_enabled(m: RegionModel, op: RegionOp) -> bool {
    match op {
        RegionOp::Bytes { size, align } => 0 <= size && is_pow2(align),
        RegionOp::FreeBytes => m.count > 0,
        RegionOp::Pages { size, align } => 0 <= size && is_pow2(align),
    }
}

/// The model after one request.
pub open spec fn op_step(m: RegionModel, op: RegionOp) -> RegionModel {
    match op {
        RegionOp::Bytes { size, align } => bytes_alloc_model(m, size, align),
        RegionOp::FreeBytes => bytes_free_model(m),
        RegionOp::Pages { size, align } => pages_alloc_model(m, size, align),
    }
}

/// Every request of the sequence meets its caller obligations in the state
/// where it runs.
pub open spec fn ops_valid(m: RegionModel, ops: Seq<RegionOp>) -> bool
    decreases ops.len(),
{
    ops.len() == 0 || (op_enabled(m, ops.first()) && ops_valid(
        op_step(m, ops.first()),
        ops.drop_first(),
    ))
}

/// The model after a whole sequence of requests.
pub open spec fn run_ops(m: RegionModel, ops: Seq<RegionOp>) -> RegionModel
    decreases ops.len(),
{
    if ops.len() == 0 {
        m
    } else {
        run_ops(op_step(m, ops.first()), ops.drop_first())
    }
}

/// Number of byte allocations in the sequence.
pub open spec fn count_byte_allocs(ops: Seq<RegionOp>) -> int
    decreases ops.len(),
{
    if ops.len() == 0 {
        0
    } else {
        (if ops.first() is Bytes {
            1int
        } else {
            0int
        }) + count_byte_allocs(ops.drop_first())
    }
}

/// Number of byte frees in the sequence.
pub open spec fn count_byte_frees(ops: Seq<RegionOp>) -> int
    decreases ops.len(),
{
    if ops.len() == 0 {
        0
    } else {
        (if ops.first() is FreeBytes {
            1int
        } else {
            0int
        }) + count_byte_frees(ops.drop_first())
    }
}

/// Initialization establishes the advertised bounds: the whole region is
/// free, nothing is used, and the page counts follow from the page size.
pub proof fn lemma_init_establishes_bounds(base: int, len: int, page_size: int)
    requires
        0 <= base,
        0 < len,
        base + len <= usize::MAX,
        0 < page_size,
    ensures
        init_model(base, len).inv(),
        init_model(base, len).total_bytes() == len,
        init_model(base, len).used_bytes() == 0,
        init_model(base, len).available_bytes() == len,
        init_model(base, len).total_pages(page_size) == len / page_size,
        init_model(base, len).used_pages(page_size) == 0,
{
}

/// One request preserves the region invariant; the region bounds and the
/// byte count bookkeeping move as advertised.
pub proof fn lemma_op_step_preserves_inv(m: RegionModel, op: RegionOp)
    requires
        m.inv(),
        op_enabled(m, op),
    ensures
        op_step(m, op).inv(),
        op_step(m, op).start == m.start,
        op_step(m, op).end == m.end,
        op_step(m, op).b_pos >= m.b_pos || op is FreeBytes,
        op_step(m, op).p_pos <= m.p_pos,
        op_step(m, op).count == m.count + (if op is Bytes && bytes_fit(
            m,
            op->Bytes_size,
            op->Bytes_align,
        ) {
            1int
        } else if op is FreeBytes {
            -1int
        } else {
            0int
        }),
{
    match op {
        RegionOp::Bytes { size, align } => {
            if bytes_fit(m, size, align) {
                lemma_align_up_props(m.b_pos, align);
            }
        },
        RegionOp::FreeBytes => {},
        RegionOp::Pages { size, align } => {
            if pages_fit(m, size, align) {
                lemma_align_down_props(m.p_pos - size, align);
            }
        },
    }
}

/// A whole valid sequence of requests preserves the region invariant and
/// never moves the region bounds.
pub proof fn lemma_run_ops_inv(m: RegionModel, ops: Seq<RegionOp>)
    requires
        m.inv(),
        ops_valid(m, ops),
    ensures
        run_ops(m, ops).inv(),
        run_ops(m, ops).start == m.start,
        run_ops(m, ops).end == m.end,
        run_ops(m, ops).p_pos <= m.p_pos,
    decreases ops.len(),
{
    if ops.len() > 0 {
        lemma_op_step_preserves_inv(m, ops.first());
        lemma_run_ops_inv(op_step(m, ops.first()), ops.drop_first());
    }
}

/// A prefix of a valid sequence is valid.
pub proof fn lemma_ops_valid_prefix(m: RegionModel, ops: Seq<RegionOp>, i: int)
    requires
        ops_valid(m, ops),
        0 <= i <= ops.len(),
    ensures
        ops_valid(m, ops.take(i)),
    decreases i,
{
    if i > 0 {
        assert(ops.take(i).first() == ops.first());
        assert(ops.take(i).drop_first() =~= ops.drop_first().take(i - 1));
        lemma_ops_valid_prefix(op_step(m, ops.first()), ops.drop_first(), i - 1);
    } else {
        assert(ops.take(0).len() == 0);
    }
}

/// Zone disjointness: however byte and page requests are interleaved, after
/// every one of them `start <= b_pos <= p_pos <= end` still holds.
pub proof fn lemma_zone_disjointness(m: RegionModel, ops: Seq<RegionOp>, i: int)
    requires
        m.inv(),
        ops_valid(m, ops),
        0 <= i <= ops.len(),
    ensures
        run_ops(m, ops.take(i)).inv(),
        run_ops(m, ops.take(i)).start <= run_ops(m, ops.take(i)).b_pos,
        run_ops(m, ops.take(i)).b_pos <= run_ops(m, ops.take(i)).p_pos,
        run_ops(m, ops.take(i)).p_pos <= run_ops(m, ops.take(i)).end,
{
    lemma_ops_valid_prefix(m, ops, i);
    lemma_run_ops_inv(m, ops.take(i));
}

/// Byte allocation is monotonic while occupied: a sequence of allocations
/// without any free never decreases the used byte count.
pub proof fn lemma_bytes_monotonic(m: RegionModel, ops: Seq<RegionOp>)
    requires
        m.inv(),
        ops_valid(m, ops),
        forall|i: int| 0 <= i < ops.len() ==> !(ops[i] is FreeBytes),
    ensures
        run_ops(m, ops).used_bytes() >= m.used_bytes(),
    decreases ops.len(),
{
    if ops.len() > 0 {
        lemma_op_step_preserves_inv(m, ops.first());
        assert(forall|i: int|
            0 <= i < ops.drop_first().len() ==> ops.drop_first()[i] == ops[i + 1]);
        lemma_bytes_monotonic(op_step(m, ops.first()), ops.drop_first());
    }
}

/// Bookkeeping of the live count: after a valid sequence it equals the
/// starting count plus the byte allocations minus the byte frees.
pub proof fn lemma_run_ops_count(m: RegionModel, ops: Seq<RegionOp>)
    requires
        m.inv(),
        ops_valid(m, ops),
        forall|i: int|
            #![trigger ops[i]]
            0 <= i < ops.len() ==> (ops[i] matches RegionOp::Bytes { size, align } ==> bytes_fit(
                run_ops(m, ops.take(i)),
                size,
                align,
            )),
    ensures
        run_ops(m, ops).count == m.count + count_byte_allocs(ops) - count_byte_frees(ops),
    decreases ops.len(),
{
    if ops.len() > 0 {
        lemma_op_step_preserves_inv(m, ops.first());
        assert(ops.take(0).len() == 0);
        assert(forall|i: int|
            0 <= i < ops.drop_first().len() ==> ops.drop_first().take(i) =~= ops.take(
                i + 1,
            ).drop_first());
        lemma_run_ops_count(op_step(m, ops.first()), ops.drop_first());
    }
}

/// Collective free resets exactly at zero: starting from an empty byte zone,
/// after equally many byte allocations and frees (in any valid order, each
/// allocation fitting) the used byte count is zero again and the byte cursor
/// stands at the zone's original base, whatever the sizes were. The next
/// allocation therefore returns the same address as the very first one did.
pub proof fn lemma_collective_free_resets(m: RegionModel, ops: Seq<RegionOp>)
    requires
        m.inv(),
        m.count == 0,
        ops_valid(m, ops),
        count_byte_allocs(ops) == count_byte_frees(ops),
        forall|i: int|
            #![trigger ops[i]]
            0 <= i < ops.len() ==> (ops[i] matches RegionOp::Bytes { size, align } ==> bytes_fit(
                run_ops(m, ops.take(i)),
                size,
                align,
            )),
        forall|i: int| 0 <= i < ops.len() ==> !(ops[i] is Pages),
    ensures
        run_ops(m, ops).used_bytes() == 0,
        run_ops(m, ops).b_pos == m.start,
        run_ops(m, ops).b_pos == m.b_pos,
        forall|align: int|
            is_pow2(align) ==> #[trigger] align_up(run_ops(m, ops).b_pos, align) == align_up(
                m.b_pos,
                align,
            ),
{
    lemma_run_ops_count(m, ops);
    lemma_run_ops_inv(m, ops);
}

/// A page request that does not fit fails without side effects: the model
/// is unchanged, so any later request behaves exactly as if the failing
/// call had never been made.
pub proof fn lemma_pages_fail_no_side_effects(
    m: RegionModel,
    size: int,
    align: int,
    later: RegionOp,
)
    requires
        m.inv(),
        !pages_fit(m, size, align),
    ensures
        pages_alloc_model(m, size, align) == m,
        op_step(pages_alloc_model(m, size, align), later) == op_step(m, later),
{
}

} // verus!
