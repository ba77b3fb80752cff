use vstd::prelude::*;
use vstd::string::StringExecFns;

use super::error::GameError;
use vstd::std_specs::bits::{
    axiom_u32_leading_zeros, axiom_u32_trailing_zeros, u32_leading_zeros, u32_trailing_zeros,
};

verus! {

/// Bits that never name a cell: the padding column of each row and the
/// bits past the fifth row.
const SENTINEL: u32 = 0b11_100000_100000_100000_100000_100000;

/// Every cell of the grid.
const ALL_BITS: u32 = 0b00_011111_011111_011111_011111_011111;

/// A bit index names a cell of the grid: it lies in the first five rows of
/// six bits and not in the padding column.
pub open spec fn is_cell(i: int) -> bool {
    0 <= i < 30 && i % 6 != 5
}

pub open spec fn row_of(i: int) -> int {
    i / 6
}

pub open spec fn col_of(i: int) -> int {
    i % 6
}

pub open spec fn cell_at(row: int, col: int) -> int {
    row * 6 + col
}

/// Two cells touch by a side or a corner.
pub open spec fn adjacent(a: int, b: int) -> bool {
    &&& a != b
    &&& -1 <= row_of(a) - row_of(b) <= 1
    &&& -1 <= col_of(a) - col_of(b) <= 1
}

/// The cells adjacent to cell `p`.
pub open spec fn neighbor_cells(p: int) -> Set<int> {
    Set::new(|j: int| is_cell(j) && adjacent(p, j))
}

/// Adjacency goes both ways, and no cell is adjacent to itself.
pub proof fn lemma_adjacent_symmetric(a: int, b: int)
    ensures
        adjacent(a, b) == adjacent(b, a),
        !adjacent(a, a),
{
}

/// Every cell has between three neighbours (in a corner) and eight (inside
/// the grid); each lies on the grid, touches the cell and differs from it.
pub proof fn lemma_neighbor_count(p: int)
    requires
        is_cell(p),
    ensures
        neighbor_cells(p).finite(),
        3 <= neighbor_cells(p).len() <= 8,
        forall|j: int| #[trigger]
            neighbor_cells(p).contains(j) ==> is_cell(j) && j != p && adjacent(j, p),
{
    let n = neighbor_cells(p);
    let around = set![p + 1, p - 1, p + 5, p - 5, p + 6, p - 6, p + 7, p - 7];
    assert forall|j: int| n.contains(j) implies around.contains(j) by {
        lemma_adjacent_by_difference(p, j);
    }
    assert(around.len() <= 8);
    vstd::set_lib::lemma_len_subset(n, around);
    let r = row_of(p);
    let c = col_of(p);
    let r2 = if r == 0 { 1 } else { r - 1 };
    let c2 = if c == 0 { 1 } else { c - 1 };
    let three = set![cell_at(r2, c), cell_at(r, c2), cell_at(r2, c2)];
    assert(three.len() == 3);
    assert(three.subset_of(n));
    vstd::set_lib::lemma_len_subset(three, n);
}

/// Bit `i` of `x` is set.
pub open spec fn has_bit(x: u32, i: int) -> bool {
    0 <= i < 32 && (x >> (i as u32)) & 1u32 == 1u32
}

pub open spec fn bits_of(x: u32) -> Set<int> {
    Set::new(|i: int| has_bit(x, i))
}

/// Between two cells, adjacency is a difference of 1, 5, 6 or 7 in bit
/// index: the padding column keeps the last cell of a row from touching the
/// first cell of the next.
pub proof fn lemma_adjacent_by_difference(a: int, b: int)
    requires
        is_cell(a),
        is_cell(b),
    ensures
        adjacent(a, b) <==> {
            let d = if a > b { a - b } else { b - a };
            d == 1 || d == 5 || d == 6 || d == 7
        },
{
}

proof fn lemma_bv_single(k: u32, i: u32)
    by (bit_vector)
    requires
        k < 32,
        i < 32,
    ensures
        ((1u32 << k) >> i) & 1u32 == 1u32 <==> i == k,
        1u32 << k != 0,
{
}

/// The only bit of `1 << k` is bit `k`.
proof fn lemma_single_bits(k: int)
    requires
        0 <= k < 32,
    ensures
        bits_of(1u32 << (k as u32)) == set![k],
        u32_trailing_zeros(1u32 << (k as u32)) == k,
        1u32 << (k as u32) != 0,
{
    let x = 1u32 << (k as u32);
    assert forall|i: int| bits_of(x).contains(i) <==> i == k by {
        if 0 <= i < 32 {
            lemma_bv_single(k as u32, i as u32);
        }
    }
    assert(bits_of(x) =~= set![k]);
    lemma_bv_single(k as u32, k as u32);
    axiom_u32_trailing_zeros(x);
    let t = u32_trailing_zeros(x);
    if t < 32 {
        lemma_bv_single(k as u32, t);
    }
    if (k as u32) < t {
        assert((x >> (k as u32)) & 1u32 == 0u32);
    }
}

proof fn lemma_bv_ops(a: u32, b: u32, i: u32)
    by (bit_vector)
    requires
        i < 32,
    ensures
        ((a & b) >> i) & 1u32 == 1u32 <==> ((a >> i) & 1u32 == 1u32 && (b >> i) & 1u32 == 1u32),
        ((a | b) >> i) & 1u32 == 1u32 <==> ((a >> i) & 1u32 == 1u32 || (b >> i) & 1u32 == 1u32),
        (((a | b) ^ b) >> i) & 1u32 == 1u32 <==> ((a >> i) & 1u32 == 1u32 && (b >> i) & 1u32
            != 1u32),
        (0u32 >> i) & 1u32 != 1u32,
        (a >> i) & 1u32 != 0u32 <==> (a >> i) & 1u32 == 1u32,
{
}

proof fn lemma_bv_clear_decreases(x: u32, t: u32)
    by (bit_vector)
    requires
        t < 32,
        (x >> t) & 1u32 == 1u32,
    ensures
        ((x | (1u32 << t)) ^ (1u32 << t)) < x,
{
}

proof fn lemma_bv_shift(k: u32, d: u32)
    by (bit_vector)
    requires
        k < 32,
        d < 32,
    ensures
        k + d < 32 ==> (1u32 << k) << d == 1u32 << ((k + d) as u32),
        k + d >= 32 ==> (1u32 << k) << d == 0u32,
        k >= d ==> (1u32 << k) >> d == 1u32 << ((k - d) as u32),
        k < d ==> (1u32 << k) >> d == 0u32,
{
}

/// Shifting a single bit moves it, or drops it off either end of the word.
proof fn lemma_shift(k: int, d: int)
    requires
        0 <= k < 32,
        0 <= d < 32,
    ensures
        (1u32 << (k as u32)) << (d as u32) == if k + d < 32 {
            1u32 << ((k + d) as u32)
        } else {
            0u32
        },
        (1u32 << (k as u32)) >> (d as u32) == if k >= d {
            1u32 << ((k - d) as u32)
        } else {
            0u32
        },
{
    lemma_bv_shift(k as u32, d as u32);
}

/// Bitwise and, or and clearing act on the sets of bits as intersection,
/// union and difference.
proof fn lemma_set_ops(a: u32, b: u32)
    ensures
        bits_of(a & b) == bits_of(a).intersect(bits_of(b)),
        bits_of(a | b) == bits_of(a).union(bits_of(b)),
        bits_of((a | b) ^ b) == bits_of(a).difference(bits_of(b)),
        bits_of(0) == Set::<int>::empty(),
{
    assert forall|i: int| #[trigger] bits_of(a & b).contains(i) == bits_of(a).intersect(
        bits_of(b),
    ).contains(i) by {
        if 0 <= i < 32 {
            lemma_bv_ops(a, b, i as u32);
        }
    }
    assert forall|i: int| #[trigger] bits_of(a | b).contains(i) == bits_of(a).union(
        bits_of(b),
    ).contains(i) by {
        if 0 <= i < 32 {
            lemma_bv_ops(a, b, i as u32);
        }
    }
    assert forall|i: int| #[trigger]
        bits_of((a | b) ^ b).contains(i) == bits_of(a).difference(bits_of(b)).contains(i) by {
        if 0 <= i < 32 {
            lemma_bv_ops(a, b, i as u32);
        }
    }
    assert forall|i: int| !#[trigger] bits_of(0).contains(i) by {
        if 0 <= i < 32 {
            lemma_bv_ops(a, b, i as u32);
        }
    }
    assert(bits_of(a & b) =~= bits_of(a).intersect(bits_of(b)));
    assert(bits_of(a | b) =~= bits_of(a).union(bits_of(b)));
    assert(bits_of((a | b) ^ b) =~= bits_of(a).difference(bits_of(b)));
    assert(bits_of(0) =~= Set::<int>::empty());
}

/// The set of bits of a word is finite, and a word without bits is zero.
proof fn lemma_bits_finite(x: u32)
    ensures
        bits_of(x).finite(),
        bits_of(x).len() <= 32,
        x != 0 ==> bits_of(x).contains(u32_trailing_zeros(x) as int),
        x == 0 <==> bits_of(x).is_empty(),
{
    let r = Set::new(|i: int| 0 <= i < 32);
    assert(r =~= vstd::set_lib::set_int_range(0, 32));
    vstd::set_lib::lemma_int_range(0, 32);
    assert(bits_of(x).subset_of(r));
    vstd::set_lib::lemma_len_subset(bits_of(x), r);
    axiom_u32_trailing_zeros(x);
    lemma_set_ops(x, x);
    if x != 0 {
        assert(bits_of(x).contains(u32_trailing_zeros(x) as int));
    } else {
        assert(bits_of(x) =~= Set::<int>::empty());
    }
}

proof fn lemma_bv_all(j: u32)
    by (bit_vector)
    requires
        j < 32,
    ensures
        (0b00_011111_011111_011111_011111_011111u32 >> j) & 1u32 == 1u32 <==> (j < 29 && j != 5
            && j != 11 && j != 17 && j != 23),
{
}

proof fn lemma_all_bits()
    ensures
        bits_of(ALL_BITS) == Set::new(|i: int| is_cell(i)),
{
    assert forall|i: int| bits_of(ALL_BITS).contains(i) <==> is_cell(i) by {
        if 0 <= i < 32 {
            lemma_bv_all(i as u32);
        }
    }
    assert(bits_of(ALL_BITS) =~= Set::new(|i: int| is_cell(i)));
}

proof fn lemma_bv_sentinel(j: u32)
    by (bit_vector)
    requires
        j < 32,
    ensures
        (1u32 << j) & 0b11_100000_100000_100000_100000_100000u32 == 0u32 <==> (j < 29 && j != 5
            && j != 11 && j != 17 && j != 23),
{
}

/// A single bit lands on a cell exactly when it avoids the sentinel.
proof fn lemma_sentinel(j: int)
    requires
        0 <= j < 32,
    ensures
        (1u32 << (j as u32)) & SENTINEL == 0u32 <==> is_cell(j),
{
    lemma_bv_sentinel(j as u32);
}

/// The bit pattern `p` names no cell: it is empty or touches the sentinel.
fn bad_position(p: u32) -> (r: bool)
    ensures
        p == 0 ==> r,
        forall|j: int|
            0 <= j < 32 && p == 1u32 << (j as u32) ==> (r <==> !#[trigger] is_cell(j)),
{
    let r = p == 0 || p & SENTINEL != 0;
    proof {
        assert forall|j: int| 0 <= j < 32 && p == 1u32 << (j as u32) implies (r <==> !is_cell(
            j,
        )) by {
            lemma_sentinel(j);
            lemma_single_bits(j);
        }
    }
    r
}

/// One cell of the grid, held as the single bit `6 * row + col`.
#[derive(Clone, Copy, Debug, PartialEq, Eq, Structural, PartialOrd, Ord, Hash)]
pub struct Position(u32);

impl View for Position {
    type V = int;

    /// The bit index of the cell.
    closed spec fn view(&self) -> int {
        u32_trailing_zeros(self.0) as int
    }
}

impl Position {
    pub closed spec fn bits_match(self) -> bool {
        self.0 == 1u32 << (self@ as u32)
    }

    #[verifier::type_invariant]
    pub open spec fn inv(self) -> bool {
        is_cell(self@) && self.bits_match()
    }

    /// Two cells of the grid with the same bit index are the same value.
    pub proof fn lemma_view_injective(self, other: Position)
        requires
            self.inv(),
            other.inv(),
            self@ == other@,
        ensures
            self == other,
    {
    }

    pub fn new(row: usize, col: usize) -> (r: Self)
        requires
            row < 5,
            col < 5,
        ensures
            r@ == cell_at(row as int, col as int),
    {
        let k = (row * 6 + col) as u32;
        proof {
            lemma_single_bits(k as int);
        }
        Self(1u32 << k)
    }

    pub fn row(self) -> (r: usize)
        ensures
            r == row_of(self@),
    {
        (self.0.trailing_zeros() / 6) as usize
    }

    pub fn col(self) -> (r: usize)
        ensures
            r == col_of(self@),
    {
        (self.0.trailing_zeros() % 6) as usize
    }

    pub fn are_neighbors(p1: Position, p2: Position) -> (r: bool)
        ensures
            r == adjacent(p1@, p2@),
    {
        proof {
            use_type_invariant(&p1);
            use_type_invariant(&p2);
            lemma_adjacent_by_difference(p1@, p2@);
        }
        let a = p1.0.trailing_zeros();
        let b = p2.0.trailing_zeros();
        let diff = if a > b {
            a - b
        } else {
            b - a
        };
        diff == 1 || diff == 5 || diff == 6 || diff == 7
    }

    /// The cells adjacent to this one.
    pub fn get_neighbors(self) -> (r: PositionSet)
        ensures
            r@ == neighbor_cells(self@),
    {
        let ghost k = self@;
        proof {
            use_type_invariant(&self);
            lemma_shift(k, 1);
            lemma_shift(k, 5);
            lemma_shift(k, 6);
            lemma_shift(k, 7);
        }
        let mut set = PositionSet::new();
        add_if_cell(&mut set, self.0 << 1, Ghost(k + 1));
        add_if_cell(&mut set, self.0 >> 1, Ghost(k - 1));
        add_if_cell(&mut set, self.0 << 6, Ghost(k + 6));
        add_if_cell(&mut set, self.0 >> 6, Ghost(k - 6));
        add_if_cell(&mut set, self.0 << 5, Ghost(k + 5));
        add_if_cell(&mut set, self.0 << 7, Ghost(k + 7));
        add_if_cell(&mut set, self.0 >> 5, Ghost(k - 5));
        add_if_cell(&mut set, self.0 >> 7, Ghost(k - 7));
        proof {
            assert forall|j: int| #[trigger]
                set@.contains(j) <==> is_cell(j) && adjacent(k, j) by {
                if is_cell(j) {
                    lemma_adjacent_by_difference(k, j);
                }
            }
            assert(set@ =~= neighbor_cells(k));
        }
        set
    }

    /// Moves one row up, from the top row to the bottom one.
    pub fn up(&mut self)
        ensures
            final(self)@ == cell_at((row_of(old(self)@) + 4) % 5, col_of(old(self)@)),
    {
        let ghost k = self@;
        let ghost target = cell_at((row_of(k) + 4) % 5, col_of(k));
        proof {
            use_type_invariant(&*self);
            lemma_shift(k, 6);
            lemma_shift(k, 24);
            if k >= 6 {
                assert(is_cell(k - 6));
                assert(target == k - 6);
            } else {
                assert(!is_cell(k - 6));
                assert(target == k + 24);
            }
            lemma_single_bits(target);
        }
        let new = self.0 >> 6;
        let next = if bad_position(new) {
            self.0 << 24
        } else {
            new
        };
        *self = Position(next);
    }

    /// Moves one row down, from the bottom row to the top one.
    pub fn down(&mut self)
        ensures
            final(self)@ == cell_at((row_of(old(self)@) + 1) % 5, col_of(old(self)@)),
    {
        let ghost k = self@;
        let ghost target = cell_at((row_of(k) + 1) % 5, col_of(k));
        proof {
            use_type_invariant(&*self);
            lemma_shift(k, 6);
            lemma_shift(k, 24);
            if k < 24 {
                assert(is_cell(k + 6));
                assert(target == k + 6);
            } else {
                assert(!is_cell(k + 6));
                assert(target == k - 24);
            }
            lemma_single_bits(target);
        }
        let new = self.0 << 6;
        let next = if bad_position(new) {
            self.0 >> 24
        } else {
            new
        };
        *self = Position(next);
    }

    /// Moves one column left, from the first column to the last one.
    pub fn left(&mut self)
        ensures
            final(self)@ == cell_at(row_of(old(self)@), (col_of(old(self)@) + 4) % 5),
    {
        let ghost k = self@;
        let ghost target = cell_at(row_of(k), (col_of(k) + 4) % 5);
        proof {
            use_type_invariant(&*self);
            lemma_shift(k, 1);
            lemma_shift(k, 4);
            if col_of(k) > 0 {
                assert(is_cell(k - 1));
                assert(target == k - 1);
            } else {
                assert(!is_cell(k - 1));
                assert(target == k + 4);
            }
            lemma_single_bits(target);
        }
        let new = self.0 >> 1;
        let next = if bad_position(new) {
            self.0 << 4
        } else {
            new
        };
        *self = Position(next);
    }

    /// Moves one column right, from the last column to the first one.
    pub fn right(&mut self)
        ensures
            final(self)@ == cell_at(row_of(old(self)@), (col_of(old(self)@) + 1) % 5),
    {
        let ghost k = self@;
        let ghost target = cell_at(row_of(k), (col_of(k) + 1) % 5);
        proof {
            use_type_invariant(&*self);
            lemma_shift(k, 1);
            lemma_shift(k, 4);
            if col_of(k) < 4 {
                assert(is_cell(k + 1));
                assert(target == k + 1);
            } else {
                assert(!is_cell(k + 1));
                assert(target == k - 4);
            }
            lemma_single_bits(target);
        }
        let new = self.0 << 1;
        let next = if bad_position(new) {
            self.0 >> 4
        } else {
            new
        };
        *self = Position(next);
    }
}

/// Adds the cell `j` to `set`, where `bits` is the single bit of `j`, or no
/// bit when `j` lies off the word.
fn add_if_cell(set: &mut PositionSet, bits: u32, Ghost(j): Ghost<int>)
    requires
        (0 <= j < 32 && bits == 1u32 << (j as u32)) || (!(0 <= j < 32) && bits == 0),
    ensures
        final(set)@ == if is_cell(j) {
            old(set)@.insert(j)
        } else {
            old(set)@
        },
{
    if !bad_position(bits) {
        proof {
            lemma_single_bits(j);
        }
        set.add(Position(bits));
    }
}

/// A set of cells, held as the bits of one word.
#[derive(Clone, Copy, Debug, PartialEq, Eq, Structural)]
pub struct PositionSet(u32);

impl View for PositionSet {
    type V = Set<int>;

    /// The bit indices of the cells in the set.
    closed spec fn view(&self) -> Set<int> {
        bits_of(self.0)
    }
}

/// The bit indices of all the cells of the grid.
pub open spec fn all_cells() -> Set<int> {
    Set::new(|i: int| is_cell(i))
}

impl PositionSet {
    #[verifier::type_invariant]
    pub open spec fn inv(self) -> bool {
        self@.subset_of(all_cells())
    }

    /// The set holds finitely many cells, at most the whole grid.
    pub proof fn lemma_finite(self)
        ensures
            self@.finite(),
            self@.len() <= 32,
    {
        lemma_bits_finite(self.0);
    }

    pub fn new() -> (r: Self)
        ensures
            r@ == Set::<int>::empty(),
    {
        proof {
            lemma_set_ops(0, 0);
        }
        Self(0)
    }

    /// Every cell of the grid.
    pub fn all() -> (r: Self)
        ensures
            r@ == all_cells(),
    {
        proof {
            lemma_all_bits();
        }
        Self(ALL_BITS)
    }

    pub fn intersection(self, other: Self) -> (r: Self)
        ensures
            r@ == self@.intersect(other@),
    {
        proof {
            use_type_invariant(&self);
            lemma_set_ops(self.0, other.0);
        }
        Self(self.0 & other.0)
    }

    pub fn union(self, other: Self) -> (r: Self)
        ensures
            r@ == self@.union(other@),
    {
        proof {
            use_type_invariant(&self);
            use_type_invariant(&other);
            lemma_set_ops(self.0, other.0);
        }
        Self(self.0 | other.0)
    }

    pub fn difference(self, other: Self) -> (r: Self)
        ensures
            r@ == self@.difference(other@),
    {
        proof {
            use_type_invariant(&self);
            lemma_set_ops(self.0, other.0);
        }
        Self((self.0 | other.0) ^ other.0)
    }

    pub fn contains(self, position: Position) -> (r: bool)
        ensures
            r == self@.contains(position@),
    {
        proof {
            use_type_invariant(&position);
            lemma_set_ops(self.0, position.0);
            lemma_single_bits(position@);
            lemma_bits_finite(self.0 & position.0);
            if self@.contains(position@) {
                assert(bits_of(self.0 & position.0).contains(position@));
            } else {
                assert(bits_of(self.0 & position.0) =~= Set::<int>::empty());
            }
        }
        self.0 & position.0 != 0
    }

    pub fn len(self) -> (r: u32)
        ensures
            r == self@.len(),
    {
        let mut rest = self.0;
        let mut count: u32 = 0;
        proof {
            lemma_bits_finite(rest);
        }
        while rest != 0
            invariant
                bits_of(rest).finite(),
                bits_of(self.0).finite(),
                bits_of(self.0).len() <= 32,
                count + bits_of(rest).len() == bits_of(self.0).len(),
            decreases rest,
        {
            proof {
                lemma_bits_finite(rest);
                axiom_u32_trailing_zeros(rest);
            }
            let low = 1u32 << rest.trailing_zeros();
            proof {
                let t = u32_trailing_zeros(rest) as int;
                lemma_single_bits(t);
                lemma_set_ops(rest, low);
                lemma_bits_finite((rest | low) ^ low);
                lemma_bv_clear_decreases(rest, t as u32);
                assert(bits_of((rest | low) ^ low) =~= bits_of(rest).remove(t));
            }
            rest = (rest | low) ^ low;
            count = count + 1;
        }
        proof {
            lemma_bits_finite(rest);
        }
        count
    }

    pub fn is_empty(self) -> (r: bool)
        ensures
            r == self@.is_empty(),
    {
        proof {
            lemma_bits_finite(self.0);
        }
        self.0 == 0
    }

    pub fn add(&mut self, position: Position)
        ensures
            final(self)@ == old(self)@.insert(position@),
        no_unwind
    {
        proof {
            use_type_invariant(&*self);
            use_type_invariant(&position);
            lemma_set_ops(self.0, position.0);
            lemma_single_bits(position@);
        }
        self.0 = self.0 | position.0;
    }

    pub fn remove(&mut self, position: Position)
        ensures
            final(self)@ == old(self)@.remove(position@),
        no_unwind
    {
        proof {
            use_type_invariant(&*self);
            use_type_invariant(&position);
            lemma_set_ops(self.0, position.0);
            lemma_single_bits(position@);
        }
        self.0 = (self.0 | position.0) ^ position.0;
    }
}

/// The bits of the cells in `cells`.
pub closed spec fn bits_of_cells(cells: Seq<Position>) -> u32
    decreases cells.len(),
{
    if cells.len() == 0 {
        0
    } else {
        bits_of_cells(cells.drop_last()) | cells.last().0
    }
}

/// The indices of the cells in `cells`.
pub open spec fn indices_of(cells: Seq<Position>) -> Set<int> {
    Set::new(|i: int| exists|k: int| 0 <= k < cells.len() && cells[k]@ == i)
}

impl PositionSet {
    /// The set of the cells in `cells`.
    pub closed spec fn from_cells(cells: Seq<Position>) -> PositionSet {
        PositionSet(bits_of_cells(cells))
    }

    /// A set built from positions holds exactly their cells.
    pub proof fn lemma_from_cells(cells: Seq<Position>)
        requires
            forall|k: int| 0 <= k < cells.len() ==> (#[trigger] cells[k]).inv(),
        ensures
            PositionSet::from_cells(cells)@ == indices_of(cells),
        decreases cells.len(),
    {
        if cells.len() == 0 {
            lemma_set_ops(0, 0);
            assert(indices_of(cells) =~= Set::<int>::empty());
        } else {
            let init = cells.drop_last();
            PositionSet::lemma_from_cells(init);
            let last = cells.last();
            assert(cells[cells.len() - 1].inv());
            lemma_set_ops(bits_of_cells(init), last.0);
            lemma_single_bits(last@);
            assert forall|i: int| #[trigger] indices_of(cells).contains(i) <==> indices_of(
                init,
            ).contains(i) || i == last@ by {
                if indices_of(cells).contains(i) && i != last@ {
                    let k = choose|k: int| 0 <= k < cells.len() && cells[k]@ == i;
                    assert(init[k]@ == i);
                }
                if indices_of(init).contains(i) {
                    let k = choose|k: int| 0 <= k < init.len() && init[k]@ == i;
                    assert(cells[k]@ == i);
                }
            }
            assert(PositionSet(bits_of_cells(cells))@ =~= indices_of(cells));
        }
    }
}

impl<const N: usize> From<[Position; N]> for PositionSet {
    fn from(value: [Position; N]) -> (r: Self) {
        let mut bits: u32 = 0;
        let mut k: usize = 0;
        proof {
            assert(value@.take(0) =~= Seq::<Position>::empty());
            lemma_set_ops(0, 0);
        }
        while k < N
            invariant
                k <= N,
                N == value@.len(),
                bits == bits_of_cells(value@.take(k as int)),
                bits_of(bits).subset_of(all_cells()),
            decreases N - k,
        {
            let p = value[k];
            proof {
                use_type_invariant(&p);
                assert(value@.take(k as int + 1).drop_last() =~= value@.take(k as int));
                lemma_set_ops(bits, p.0);
                lemma_single_bits(p@);
            }
            bits = bits | p.0;
            k = k + 1;
        }
        proof {
            assert(value@.take(N as int) =~= value@);
        }
        PositionSet(bits)
    }
}

impl<const N: usize> vstd::std_specs::convert::FromSpecImpl<[Position; N]> for PositionSet {
    open spec fn obeys_from_spec() -> bool {
        true
    }

    open spec fn from_spec(v: [Position; N]) -> PositionSet {
        PositionSet::from_cells(v@)
    }
}

impl PositionSet {
    pub fn into_iter(self) -> (r: PositionIterator)
        ensures
            r@ == self@,
    {
        proof {
            use_type_invariant(&self);
        }
        PositionIterator(self.0)
    }
}

/// Walks a set of cells from both ends: forward from the highest bit index
/// down, backward from the lowest up.
#[derive(Clone, Copy, Debug)]
pub struct PositionIterator(u32);

impl View for PositionIterator {
    type V = Set<int>;

    /// The cells not yet handed out.
    closed spec fn view(&self) -> Set<int> {
        bits_of(self.0)
    }
}

impl PositionIterator {
    #[verifier::type_invariant]
    pub open spec fn inv(self) -> bool {
        self@.subset_of(all_cells())
    }

    /// The remaining cells are finitely many.
    pub proof fn lemma_finite(self)
        ensures
            self@.finite(),
    {
        lemma_bits_finite(self.0);
    }

    /// Hands out the remaining cell with the highest bit index.
    pub fn next(&mut self) -> (r: Option<Position>)
        ensures
            old(self)@.is_empty() ==> r is None && final(self)@ == old(self)@,
            !old(self)@.is_empty() ==> (r matches Some(p) && {
                &&& old(self)@.contains(p@)
                &&& forall|j: int| #[trigger] old(self)@.contains(j) ==> j <= p@
                &&& final(self)@ == old(self)@.remove(p@)
            }),
    {
        proof {
            use_type_invariant(&*self);
            lemma_bits_finite(self.0);
        }
        if self.0 == 0 {
            return None;
        }
        let x = self.0;
        proof {
            axiom_u32_leading_zeros(x);
        }
        let t = 31 - x.leading_zeros();
        let item = 1u32 << t;
        proof {
            lemma_bv_ops(x, x, t);
            lemma_single_bits(t as int);
            lemma_set_ops(x, item);
            assert forall|j: int| #[trigger] bits_of(x).contains(j) implies j <= t by {
                if j > t {
                    assert((x >> (j as u32)) & 1u32 == 0u32);
                }
            }
            assert(bits_of((x | item) ^ item) =~= bits_of(x).remove(t as int));
        }
        self.0 = (x | item) ^ item;
        Some(Position(item))
    }

    /// Hands out the remaining cell with the lowest bit index.
    pub fn next_back(&mut self) -> (r: Option<Position>)
        ensures
            old(self)@.is_empty() ==> r is None && final(self)@ == old(self)@,
            !old(self)@.is_empty() ==> (r matches Some(p) && {
                &&& old(self)@.contains(p@)
                &&& forall|j: int| #[trigger] old(self)@.contains(j) ==> p@ <= j
                &&& final(self)@ == old(self)@.remove(p@)
            }),
    {
        proof {
            use_type_invariant(&*self);
            lemma_bits_finite(self.0);
        }
        if self.0 == 0 {
            return None;
        }
        let x = self.0;
        proof {
            axiom_u32_trailing_zeros(x);
        }
        let t = x.trailing_zeros();
        let item = 1u32 << t;
        proof {
            lemma_single_bits(t as int);
            lemma_set_ops(x, item);
            assert forall|j: int| #[trigger] bits_of(x).contains(j) implies t <= j by {
                if j < t {
                    assert((x >> (j as u32)) & 1u32 == 0u32);
                }
            }
            assert(bits_of((x | item) ^ item) =~= bits_of(x).remove(t as int));
        }
        self.0 = (x | item) ^ item;
        Some(Position(item))
    }
}

/// What a cell holds: its construction and the player whose worker stands
/// there, if any.
#[derive(Clone, Copy, Debug)]
pub struct Tile {
    pub construction: Construction,
    pub player: Option<Player>,
}

impl Default for Tile {
    fn default() -> (r: Self)
        ensures
            r.construction == Construction::GroundLevel,
            r.player is None,
    {
        Self { construction: Construction::GroundLevel, player: None }
    }
}

/// The height of a cell, from bare ground up to a dome that caps it.
#[derive(Clone, Copy, Debug, PartialEq, Eq, Structural)]
pub enum Construction {
    GroundLevel,
    FirstLevel,
    SecondLevel,
    ThirdLevel,
    Dome,
}

impl Construction {
    /// Ground is 0, each floor one more, a dome 4.
    pub open spec fn height(self) -> int {
        match self {
            Construction::GroundLevel => 0,
            Construction::FirstLevel => 1,
            Construction::SecondLevel => 2,
            Construction::ThirdLevel => 3,
            Construction::Dome => 4,
        }
    }

    /// A worker may step from `self` onto `next`: never onto a dome, up at
    /// most one level, and down or sideways any way.
    pub open spec fn allows_step(self, next: Construction) -> bool {
        &&& next != Construction::Dome
        &&& next.height() <= self.height() + 1
    }

    /// Raises the construction by one level; a dome cannot be raised.
    pub fn build(self) -> (r: Result<Construction, GameError>)
        ensures
            self == Construction::Dome ==> r == Err::<Construction, GameError>(
                GameError::InvalidMove,
            ),
            self != Construction::Dome ==> (r matches Ok(c) && c.height() == self.height() + 1),
    {
        match self {
            Construction::GroundLevel => Ok(Construction::FirstLevel),
            Construction::FirstLevel => Ok(Construction::SecondLevel),
            Construction::SecondLevel => Ok(Construction::ThirdLevel),
            Construction::ThirdLevel => Ok(Construction::Dome),
            Construction::Dome => Err(GameError::InvalidMove),
        }
    }

    pub fn can_move(self, next: Construction) -> (r: bool)
        ensures
            r == self.allows_step(next),
    {
        match (self, next) {
            (_, Construction::Dome) => false,
            (Construction::GroundLevel, Construction::SecondLevel) => false,
            (Construction::GroundLevel, Construction::ThirdLevel) => false,
            (Construction::FirstLevel, Construction::ThirdLevel) => false,
            _ => true,
        }
    }
}

#[derive(Clone, Copy, Debug, PartialEq, Eq, Structural)]
pub enum Player {
    Player1,
    Player2,
}

impl Player {
    pub open spec fn other(self) -> Player {
        match self {
            Player::Player1 => Player::Player2,
            Player::Player2 => Player::Player1,
        }
    }

    pub open spec fn label(self) -> Seq<char> {
        match self {
            Player::Player1 => "Player 1"@,
            Player::Player2 => "Player 2"@,
        }
    }

    pub fn other_player(&self) -> (r: Player)
        ensures
            r == self.other(),
    {
        match self {
            Player::Player1 => Player::Player2,
            Player::Player2 => Player::Player1,
        }
    }

    /// The player's name as shown to people.
    pub fn name(&self) -> (r: String)
        ensures
            r@ == self.label(),
    {
        match self {
            Player::Player1 => String::from_str("Player 1"),
            Player::Player2 => String::from_str("Player 2"),
        }
    }
}

} // verus!
