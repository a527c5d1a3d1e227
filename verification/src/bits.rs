//! Masks of cells: which cells a 64-bit mask holds, how the bit operations
//! act on the cells, and how many cells there are.

use vstd::prelude::*;

verus! {

/// Whether `mask` holds the cell with row-major index `cell`.
///
/// Cell 0 is the top-left corner and sits in the most significant bit;
/// cell 63 is the bottom-right corner and sits in the least significant bit.
pub open spec fn has_cell(mask: u64, cell: int) -> bool {
    0 <= cell < 64 && (mask >> ((63 - cell) as u64)) & 1 == 1
}

proof fn lemma_bit_and(a: u64, b: u64, i: u64)
    by (bit_vector)
    requires
        i < 64,
    ensures
        (((a & b) >> i) & 1 == 1) <==> (((a >> i) & 1 == 1) && ((b >> i) & 1 == 1)),
        (((a | b) >> i) & 1 == 1) <==> (((a >> i) & 1 == 1) || ((b >> i) & 1 == 1)),
        (((a ^ b) >> i) & 1 == 1) <==> (((a >> i) & 1 == 1) != ((b >> i) & 1 == 1)),
        (((!a) >> i) & 1 == 1) <==> !((a >> i) & 1 == 1),
{
}

proof fn lemma_bit_shl(a: u64, s: u64, i: u64)
    by (bit_vector)
    requires
        i < 64,
        s < 64,
    ensures
        (((a << s) >> i) & 1 == 1) <==> (i >= s && (a >> ((i - s) as u64)) & 1 == 1),
        (((a >> s) >> i) & 1 == 1) <==> (i + s < 64 && (a >> ((i + s) as u64)) & 1 == 1),
{
}

/// The cells of `a & b` are the cells of both.
pub broadcast proof fn lemma_cell_and(a: u64, b: u64, x: int)
    ensures
        #[trigger] has_cell(a & b, x) == (has_cell(a, x) && has_cell(b, x)),
{
    if 0 <= x < 64 {
        lemma_bit_and(a, b, (63 - x) as u64);
    }
}

/// The cells of `a | b` are the cells of either.
pub broadcast proof fn lemma_cell_or(a: u64, b: u64, x: int)
    ensures
        #[trigger] has_cell(a | b, x) == (has_cell(a, x) || has_cell(b, x)),
{
    if 0 <= x < 64 {
        lemma_bit_and(a, b, (63 - x) as u64);
    }
}

/// The cells of `a ^ b` are the cells of exactly one of the two.
pub broadcast proof fn lemma_cell_xor(a: u64, b: u64, x: int)
    ensures
        #[trigger] has_cell(a ^ b, x) == (0 <= x < 64 && has_cell(a, x) != has_cell(b, x)),
{
    if 0 <= x < 64 {
        lemma_bit_and(a, b, (63 - x) as u64);
    }
}

/// The cells of `!a` are the cells of the board that `a` does not hold.
pub broadcast proof fn lemma_cell_not(a: u64, x: int)
    ensures
        #[trigger] has_cell(!a, x) == (0 <= x < 64 && !has_cell(a, x)),
{
    if 0 <= x < 64 {
        lemma_bit_and(a, a, (63 - x) as u64);
    }
}

/// A shift to the left moves each cell `s` places down the row-major
/// order; what comes to lie before cell 0 is gone.
pub broadcast proof fn lemma_cell_shl(a: u64, s: u64, x: int)
    requires
        s < 64,
    ensures
        #[trigger] has_cell(a << s, x) == (0 <= x && has_cell(a, x + s)),
{
    if 0 <= x < 64 {
        lemma_bit_shl(a, s, (63 - x) as u64);
    }
}

/// A shift to the right moves each cell `s` places up the row-major
/// order; what comes to lie behind cell 63 is gone.
pub broadcast proof fn lemma_cell_shr(a: u64, s: u64, x: int)
    requires
        s < 64,
    ensures
        #[trigger] has_cell(a >> s, x) == (x < 64 && has_cell(a, x - s)),
{
    if 0 <= x < 64 {
        lemma_bit_shl(a, s, (63 - x) as u64);
    }
}

/// The mask that holds the single cell `cell`.
pub open spec fn cell_mask(cell: int) -> u64 {
    1u64 << ((63 - cell) as u64)
}

proof fn lemma_bit_single(b: u64, i: u64)
    by (bit_vector)
    requires
        i < 64,
        b < 64,
    ensures
        (((1u64 << b) >> i) & 1 == 1) <==> i == b,
        ((0u64 >> i) & 1 == 1) == false,
        ((0xFFFF_FFFF_FFFF_FFFFu64 >> i) & 1 == 1) == true,
        (1u64 << b) != 0,
{
}

/// The mask of a cell holds that cell and no other.
pub broadcast proof fn lemma_cell_single(c: int, x: int)
    requires
        0 <= c < 64,
    ensures
        #[trigger] has_cell(cell_mask(c), x) == (x == c),
{
    if 0 <= x < 64 {
        lemma_bit_single((63 - c) as u64, (63 - x) as u64);
    }
}

/// The mask 0 holds no cell.
pub broadcast proof fn lemma_cell_none(x: int)
    ensures
        !#[trigger] has_cell(0, x),
{
    if 0 <= x < 64 {
        lemma_bit_single(0, (63 - x) as u64);
    }
}

/// The mask of all ones holds every cell of the board.
pub broadcast proof fn lemma_cell_full(x: int)
    ensures
        #[trigger] has_cell(0xFFFF_FFFF_FFFF_FFFF, x) == (0 <= x < 64),
{
    if 0 <= x < 64 {
        lemma_bit_single(0, (63 - x) as u64);
    }
}

/// How the bit operations act on the cells of masks.
pub broadcast group group_cell_ops {
    lemma_cell_single,
    lemma_cell_none,
    lemma_cell_full,
    lemma_cell_and,
    lemma_cell_or,
    lemma_cell_xor,
    lemma_cell_not,
    lemma_cell_shl,
    lemma_cell_shr,
}

proof fn lemma_low_bits_step(a: u64, b: u64, n: u64)
    by (bit_vector)
    requires
        n < 64,
        a & !(0xFFFF_FFFF_FFFF_FFFFu64 << n) == b & !(0xFFFF_FFFF_FFFF_FFFFu64 << n),
        ((a >> n) & 1 == 1) == ((b >> n) & 1 == 1),
    ensures
        n < 63 ==> a & !(0xFFFF_FFFF_FFFF_FFFFu64 << ((n + 1) as u64)) == b & !(
        0xFFFF_FFFF_FFFF_FFFFu64 << ((n + 1) as u64)),
        n == 63 ==> a == b,
{
}

proof fn lemma_low_bits_start(a: u64, b: u64)
    by (bit_vector)
    ensures
        a & !(0xFFFF_FFFF_FFFF_FFFFu64 << 0u64) == b & !(0xFFFF_FFFF_FFFF_FFFFu64 << 0u64),
{
}

proof fn lemma_low_bits_equal(a: u64, b: u64, n: u64)
    requires
        n < 64,
        forall|i: u64| i < 64 ==> ((a >> i) & 1 == 1) == ((b >> i) & 1 == 1),
    ensures
        a & !(0xFFFF_FFFF_FFFF_FFFFu64 << n) == b & !(0xFFFF_FFFF_FFFF_FFFFu64 << n),
    decreases n,
{
    if n == 0 {
        lemma_low_bits_start(a, b);
    } else {
        let m = (n - 1) as u64;
        lemma_low_bits_equal(a, b, m);
        lemma_low_bits_step(a, b, m);
    }
}

/// Two masks that hold the same cells are the same mask.
pub proof fn lemma_masks_equal(a: u64, b: u64)
    requires
        forall|x: int| 0 <= x < 64 ==> has_cell(a, x) == has_cell(b, x),
    ensures
        a == b,
{
    assert forall|i: u64| i < 64 implies ((a >> i) & 1 == 1) == ((b >> i) & 1 == 1) by {
        let x = 63 - i;
        assert(has_cell(a, x) == has_cell(b, x));
    }
    lemma_low_bits_equal(a, b, 63);
    lemma_low_bits_step(a, b, 63);
}

/// Number of cells that `mask` holds among the cells `0..upto`.
pub open spec fn count_upto(mask: u64, upto: nat) -> nat
    decreases upto,
{
    if upto == 0 {
        0
    } else {
        count_upto(mask, (upto - 1) as nat) + if has_cell(mask, upto - 1) {
            1nat
        } else {
            0nat
        }
    }
}

/// Number of cells that `mask` holds.
pub open spec fn count_cells(mask: u64) -> nat {
    count_upto(mask, 64)
}

/// `u64::count_ones` gives the number of ones in the binary form of its
/// argument: the number of cells of the mask.
pub assume_specification[ u64::count_ones ](i: u64) -> (r: u32)
    ensures
        r == count_cells(i),
;

/// A mask is 0 exactly when it holds no cell.
pub proof fn lemma_mask_empty(a: u64)
    ensures
        (a == 0) == (forall|x: int| 0 <= x < 64 ==> !has_cell(a, x)),
{
    broadcast use group_cell_ops;

    if forall|x: int| 0 <= x < 64 ==> !has_cell(a, x) {
        lemma_masks_equal(a, 0);
    }
}

/// The mask of the cells among `0..upto` that satisfy `pred`.
pub open spec fn mask_upto(pred: spec_fn(int) -> bool, upto: nat) -> u64
    decreases upto,
{
    if upto == 0 {
        0
    } else if pred(upto - 1) {
        mask_upto(pred, (upto - 1) as nat) | cell_mask(upto - 1)
    } else {
        mask_upto(pred, (upto - 1) as nat)
    }
}

/// The mask of the cells of the board that satisfy `pred`.
pub open spec fn mask_where(pred: spec_fn(int) -> bool) -> u64 {
    mask_upto(pred, 64)
}

/// Which cells `mask_upto` holds.
pub proof fn lemma_mask_upto(pred: spec_fn(int) -> bool, upto: nat)
    requires
        upto <= 64,
    ensures
        forall|x: int| #[trigger] has_cell(mask_upto(pred, upto), x) == (0 <= x < upto && pred(x)),
    decreases upto,
{
    broadcast use group_cell_ops;

    let m = mask_upto(pred, upto);
    if upto > 0 {
        let prev = mask_upto(pred, (upto - 1) as nat);
        lemma_mask_upto(pred, (upto - 1) as nat);
        assert forall|x: int| #[trigger] has_cell(m, x) == (0 <= x < upto && pred(x)) by {
            assert(has_cell(cell_mask(upto - 1), x) == (x == upto - 1));
            assert(has_cell(prev | cell_mask(upto - 1), x) == (has_cell(prev, x) || has_cell(
                cell_mask(upto - 1),
                x,
            )));
        }
    } else {
        assert forall|x: int| #[trigger] has_cell(m, x) == (0 <= x < upto && pred(x)) by {
            assert(!has_cell(0, x));
        }
    }
}

/// `mask_where(pred)` holds exactly the cells of the board that satisfy `pred`.
pub proof fn lemma_mask_where(pred: spec_fn(int) -> bool)
    ensures
        forall|x: int| #[trigger] has_cell(mask_where(pred), x) == (0 <= x < 64 && pred(x)),
{
    lemma_mask_upto(pred, 64);
}

/// A mask whose cells are exactly those that satisfy `pred` is `mask_where(pred)`.
pub proof fn lemma_mask_where_unique(a: u64, pred: spec_fn(int) -> bool)
    requires
        forall|x: int| 0 <= x < 64 ==> has_cell(a, x) == pred(x),
    ensures
        a == mask_where(pred),
{
    lemma_mask_where(pred);
    lemma_masks_equal(a, mask_where(pred));
}

/// The mask of the single cell `cell`.
pub fn bit_of(cell: usize) -> (mask: u64)
    requires
        cell < 64,
    ensures
        mask == cell_mask(cell as int),
        mask != 0,
{
    proof {
        lemma_bit_single((63 - cell) as u64, 0);
    }
    1u64 << ((63 - cell) as u64)
}

/// A mask moved `s` places up the row-major order holds among its first
/// cells what the mask held among its first cells, `s` fewer of them.
pub proof fn lemma_count_shr(mask: u64, s: u64, upto: nat)
    requires
        s < 64,
        upto <= 64,
    ensures
        count_upto(mask >> s, upto) == (if upto <= s {
            0
        } else {
            count_upto(mask, (upto - s) as nat)
        }),
    decreases upto,
{
    if upto > 0 {
        lemma_count_shr(mask, s, (upto - 1) as nat);
        lemma_cell_shr(mask, s, upto - 1);
        if upto > s {
            assert(count_upto(mask, (upto - s) as nat) == count_upto(mask, (upto - s - 1) as nat)
                + if has_cell(mask, upto - s - 1) {
                1nat
            } else {
                0nat
            });
        }
    }
}

/// The number of cells that `mask` holds among the cells `0..upto`.
pub fn count_before(mask: u64, upto: usize) -> (count: usize)
    requires
        upto <= 64,
    ensures
        count == count_upto(mask, upto as nat),
{
    if upto == 0 {
        return 0;
    }
    proof {
        lemma_count_shr(mask, (64 - upto) as u64, 64);
    }
    (mask >> ((64 - upto) as u64)).count_ones() as usize
}

/// Among `upto` cells a mask holds at most `upto`.
pub proof fn lemma_count_bound(mask: u64, upto: nat)
    ensures
        count_upto(mask, upto) <= upto,
    decreases upto,
{
    if upto > 0 {
        lemma_count_bound(mask, (upto - 1) as nat);
    }
}

/// Different cells have different masks.
pub proof fn lemma_cell_mask_injective(a: int, b: int)
    requires
        0 <= a < 64,
        0 <= b < 64,
        cell_mask(a) == cell_mask(b),
    ensures
        a == b,
{
    lemma_cell_single(a, a);
    lemma_cell_single(b, a);
}

/// A mask meets the mask of a cell exactly when it holds the cell.
pub proof fn lemma_cell_test(mask: u64, cell: int)
    requires
        0 <= cell < 64,
    ensures
        (mask & cell_mask(cell) != 0) == has_cell(mask, cell),
{
    lemma_bit_test(mask, (63 - cell) as u64);
}

proof fn lemma_bit_test(m: u64, b: u64)
    by (bit_vector)
    requires
        b < 64,
    ensures
        (m & (1u64 << b) != 0) == ((m >> b) & 1 == 1),
{
}

/// The cells of `mask` among the cells `0..upto`, in ascending order.
pub open spec fn cells_upto(mask: u64, upto: nat) -> Seq<usize>
    decreases upto,
{
    if upto == 0 {
        Seq::empty()
    } else if has_cell(mask, upto - 1) {
        cells_upto(mask, (upto - 1) as nat).push((upto - 1) as usize)
    } else {
        cells_upto(mask, (upto - 1) as nat)
    }
}

/// The cells of `mask` in ascending order.
pub open spec fn cells_of(mask: u64) -> Seq<usize> {
    cells_upto(mask, 64)
}

/// `cells_upto` lists each cell of `mask` below `upto` once, in ascending
/// order, and nothing else.
pub proof fn lemma_cells_upto(mask: u64, upto: nat)
    requires
        upto <= 64,
    ensures
        cells_upto(mask, upto).len() == count_upto(mask, upto),
        cells_upto(mask, upto).len() <= upto,
        forall|i: int|
            0 <= i < cells_upto(mask, upto).len() ==> (#[trigger] cells_upto(mask, upto)[i]) < upto
                && has_cell(mask, cells_upto(mask, upto)[i] as int),
        forall|i: int, j: int|
            0 <= i < j < cells_upto(mask, upto).len() ==> (#[trigger] cells_upto(mask, upto)[i])
                < (#[trigger] cells_upto(mask, upto)[j]),
        forall|x: int|
            0 <= x < upto && has_cell(mask, x) ==> exists|i: int|
                0 <= i < cells_upto(mask, upto).len() && #[trigger] cells_upto(mask, upto)[i] == x,
    decreases upto,
{
    if upto > 0 {
        let prev = cells_upto(mask, (upto - 1) as nat);
        let all = cells_upto(mask, upto);
        lemma_cells_upto(mask, (upto - 1) as nat);
        lemma_count_bound(mask, (upto - 1) as nat);
        assert forall|x: int| 0 <= x < upto && has_cell(mask, x) implies exists|i: int|
            0 <= i < all.len() && #[trigger] all[i] == x by {
            if x < upto - 1 {
                let i = choose|i: int| 0 <= i < prev.len() && #[trigger] prev[i] == x;
                assert(all[i] == x);
            } else {
                assert(all[all.len() - 1] == x);
            }
        }
    }
}

/// What `cells_of` lists.
pub proof fn lemma_cells_of(mask: u64)
    ensures
        cells_of(mask).len() == count_cells(mask),
        cells_of(mask).len() <= 64,
        forall|i: int|
            0 <= i < cells_of(mask).len() ==> (#[trigger] cells_of(mask)[i]) < 64 && has_cell(
                mask,
                cells_of(mask)[i] as int,
            ),
        forall|i: int, j: int|
            0 <= i < j < cells_of(mask).len() ==> (#[trigger] cells_of(mask)[i]) < (
            #[trigger] cells_of(mask)[j]),
        forall|x: int|
            has_cell(mask, x) ==> exists|i: int|
                0 <= i < cells_of(mask).len() && #[trigger] cells_of(mask)[i] == x,
        (cells_of(mask).len() == 0) == (mask == 0),
{
    lemma_cells_upto(mask, 64);
    lemma_mask_empty(mask);
    if mask != 0 {
        let x = choose|x: int| 0 <= x < 64 && has_cell(mask, x);
        let i = choose|i: int| 0 <= i < cells_of(mask).len() && #[trigger] cells_of(mask)[i] == x;
    }
    if cells_of(mask).len() != 0 {
        assert(has_cell(mask, cells_of(mask)[0] as int));
    }
}

/// The cell at the place `place` of the cells of `mask` in ascending
/// order.
pub fn nth_cell(mask: u64, place: usize) -> (cell: usize)
    requires
        place < cells_of(mask).len(),
    ensures
        cell < 64,
        cell == cells_of(mask)[place as int],
        has_cell(mask, cell as int),
{
    let mut low: usize = 0;
    let mut high: usize = 64;
    proof {
        lemma_cells_upto(mask, 64);
    }
    while high - low > 1
        invariant
            low < high <= 64,
            count_upto(mask, low as nat) <= place < count_upto(mask, high as nat),
        decreases high - low,
    {
        let middle = low + (high - low) / 2;
        if count_before(mask, middle) > place {
            high = middle;
        } else {
            low = middle;
        }
    }
    proof {
        lemma_cells_upto(mask, low as nat);
        lemma_cells_upto(mask, (low + 1) as nat);
        lemma_cells_prefix(mask, (low + 1) as nat, 64);
    }
    low
}

/// A mask that holds one cell more than another counts one cell more.
pub proof fn lemma_count_one_more(more: u64, less: u64, cell: int, upto: nat)
    requires
        0 <= cell < 64,
        upto <= 64,
        !has_cell(less, cell),
        forall|x: int| 0 <= x < 64 ==> has_cell(more, x) == (has_cell(less, x) || x == cell),
    ensures
        count_upto(more, upto) == count_upto(less, upto) + if cell < upto {
            1int
        } else {
            0int
        },
    decreases upto,
{
    if upto > 0 {
        lemma_count_one_more(more, less, cell, (upto - 1) as nat);
    }
}

/// The cells below `upto` come first among the cells of a mask.
pub proof fn lemma_cells_prefix(mask: u64, upto: nat, all: nat)
    requires
        upto <= all <= 64,
    ensures
        cells_upto(mask, upto).len() <= cells_upto(mask, all).len(),
        forall|i: int|
            0 <= i < cells_upto(mask, upto).len() ==> cells_upto(mask, all)[i] == cells_upto(
                mask,
                upto,
            )[i],
    decreases all,
{
    if upto < all {
        lemma_cells_prefix(mask, upto, (all - 1) as nat);
    }
}

/// A mask that is made up of two masks without a common cell counts the
/// cells of both.
pub proof fn lemma_count_parts(whole: u64, one: u64, other: u64, upto: nat)
    requires
        upto <= 64,
        forall|x: int|
            0 <= x < 64 ==> has_cell(whole, x) == (has_cell(one, x) || has_cell(other, x)),
        forall|x: int| 0 <= x < 64 ==> !(has_cell(one, x) && has_cell(other, x)),
    ensures
        count_upto(whole, upto) == count_upto(one, upto) + count_upto(other, upto),
    decreases upto,
{
    if upto > 0 {
        lemma_count_parts(whole, one, other, (upto - 1) as nat);
    }
}

/// The mask of a cell counts one cell.
pub proof fn lemma_count_single(cell: int, upto: nat)
    requires
        0 <= cell < 64,
        upto <= 64,
    ensures
        count_upto(cell_mask(cell), upto) == if cell < upto {
            1nat
        } else {
            0nat
        },
    decreases upto,
{
    broadcast use group_cell_ops;

    if upto > 0 {
        lemma_count_single(cell, (upto - 1) as nat);
    }
}

} // verus!
