//! One grid point: its vertex flag and its eight direction bits.

use vstd::prelude::*;
use crate::geometry::Direction;

verus! {

/// Whether bit `i` of `m` is set.
pub open spec fn bit_of(m: u8, i: u8) -> bool {
    (m >> i) & 1u8 == 1u8
}

proof fn lemma_set_bit(m: u8, i: u8, j: u8)
    requires
        i < 8,
        j < 8,
    ensures
        bit_of(m | (1u8 << i), j) == (bit_of(m, j) || i == j),
{
    assert(((m | (1u8 << i)) >> j) & 1u8 == 1u8 <==> ((m >> j) & 1u8 == 1u8 || i == j))
        by (bit_vector)
        requires
            i < 8,
            j < 8,
    ;
}

/// No bit of the empty mask is set.
pub proof fn lemma_empty_mask(i: u8)
    requires
        i < 8,
    ensures
        !bit_of(0u8, i),
{
    assert((0u8 >> i) & 1u8 != 1u8) by (bit_vector);
}

proof fn lemma_mask_from_bits(a: u8, b: u8)
    requires
        (a >> 0u8) & 1u8 == (b >> 0u8) & 1u8,
        (a >> 1u8) & 1u8 == (b >> 1u8) & 1u8,
        (a >> 2u8) & 1u8 == (b >> 2u8) & 1u8,
        (a >> 3u8) & 1u8 == (b >> 3u8) & 1u8,
        (a >> 4u8) & 1u8 == (b >> 4u8) & 1u8,
        (a >> 5u8) & 1u8 == (b >> 5u8) & 1u8,
        (a >> 6u8) & 1u8 == (b >> 6u8) & 1u8,
        (a >> 7u8) & 1u8 == (b >> 7u8) & 1u8,
    ensures
        a == b,
{
    assert(a == b) by (bit_vector)
        requires
            (a >> 0u8) & 1u8 == (b >> 0u8) & 1u8,
            (a >> 1u8) & 1u8 == (b >> 1u8) & 1u8,
            (a >> 2u8) & 1u8 == (b >> 2u8) & 1u8,
            (a >> 3u8) & 1u8 == (b >> 3u8) & 1u8,
            (a >> 4u8) & 1u8 == (b >> 4u8) & 1u8,
            (a >> 5u8) & 1u8 == (b >> 5u8) & 1u8,
            (a >> 6u8) & 1u8 == (b >> 6u8) & 1u8,
            (a >> 7u8) & 1u8 == (b >> 7u8) & 1u8,
    ;
}

proof fn lemma_bit_or_not(m: u8, i: u8)
    requires
        i < 8,
    ensures
        (m >> i) & 1u8 == 1u8 || (m >> i) & 1u8 == 0u8,
{
    assert((m >> i) & 1u8 == 1u8 || (m >> i) & 1u8 == 0u8) by (bit_vector);
}

/// A point is determined by its flag and which of the eight segments
/// leaving it are taken.
pub proof fn lemma_point_eq(a: DirectedPoint, b: DirectedPoint)
    requires
        a.is_point_used == b.is_point_used,
        forall|d: Direction| #[trigger] a.has(d) == b.has(d),
    ensures
        a == b,
{
    let (ma, mb) = (a.are_directions_used, b.are_directions_used);
    assert(a.has(Direction::D) == b.has(Direction::D));
    assert(a.has(Direction::DR) == b.has(Direction::DR));
    assert(a.has(Direction::R) == b.has(Direction::R));
    assert(a.has(Direction::UR) == b.has(Direction::UR));
    assert(a.has(Direction::U) == b.has(Direction::U));
    assert(a.has(Direction::UL) == b.has(Direction::UL));
    assert(a.has(Direction::L) == b.has(Direction::L));
    assert(a.has(Direction::DL) == b.has(Direction::DL));
    lemma_bit_or_not(ma, 0);
    lemma_bit_or_not(mb, 0);
    lemma_bit_or_not(ma, 1);
    lemma_bit_or_not(mb, 1);
    lemma_bit_or_not(ma, 2);
    lemma_bit_or_not(mb, 2);
    lemma_bit_or_not(ma, 3);
    lemma_bit_or_not(mb, 3);
    lemma_bit_or_not(ma, 4);
    lemma_bit_or_not(mb, 4);
    lemma_bit_or_not(ma, 5);
    lemma_bit_or_not(mb, 5);
    lemma_bit_or_not(ma, 6);
    lemma_bit_or_not(mb, 6);
    lemma_bit_or_not(ma, 7);
    lemma_bit_or_not(mb, 7);
    lemma_mask_from_bits(ma, mb);
}

/// One grid point: whether it is a vertex, and which of the eight segments
/// leaving it are taken by a rectangle side.
#[derive(Debug, Clone, Copy, PartialEq, Eq, Structural)]
pub struct DirectedPoint {
    pub is_point_used: bool,
    pub are_directions_used: u8,
}

impl DirectedPoint {
    /// Whether the segment leaving this point along `d` is taken.
    pub open spec fn has(self, d: Direction) -> bool {
        bit_of(self.are_directions_used, d.idx() as u8)
    }

    pub fn new() -> (r: DirectedPoint)
        ensures
            !r.is_point_used,
            r.are_directions_used == 0,
            forall|d: Direction| !(#[trigger] r.has(d)),
    {
        let r = DirectedPoint { is_point_used: false, are_directions_used: 0 };
        assert forall|d: Direction| !(#[trigger] r.has(d)) by {
            lemma_empty_mask(d.idx() as u8);
        }
        r
    }

    pub fn use_point(&mut self)
        ensures
            final(self).is_point_used,
            final(self).are_directions_used == old(self).are_directions_used,
    {
        self.is_point_used = true;
    }

    pub fn clear_point(&mut self)
        ensures
            !final(self).is_point_used,
            final(self).are_directions_used == old(self).are_directions_used,
    {
        self.is_point_used = false;
    }

    pub fn use_direction_at(&mut self, dir: Direction)
        ensures
            final(self).is_point_used == old(self).is_point_used,
            forall|e: Direction| #[trigger] final(self).has(e) == (old(self).has(e) || e == dir),
    {
        let i = dir.as_idx() as u8;
        let m = self.are_directions_used;
        self.are_directions_used = m | (1u8 << i);
        assert forall|e: Direction| #[trigger] self.has(e) == (old(self).has(e) || e == dir) by {
            lemma_set_bit(m, i, e.idx() as u8);
        }
    }

    pub fn is_direction_used_at(&self, dir: Direction) -> (r: bool)
        ensures
            r == self.has(dir),
    {
        let i = dir.as_idx() as u8;
        (self.are_directions_used >> i) & 1u8 == 1u8
    }
}

} // verus!
