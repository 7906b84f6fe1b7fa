//! Packed per-side state words and their canonical form.
//!
//! Each side of the board is described by two machine words: a position word
//! holding five 5-bit cells (values 0..31, where 30 and 31 stand for a piece
//! that is off the board) and a step word holding five 2-bit stack counters.
//! Bit 10 of White's step word, above the five counters, stores whose turn it
//! is. The `Code` trait is the field accessor shared by both word shapes.

use vstd::assert_multisets_equal;
use vstd::multiset::Multiset;
use vstd::prelude::*;
use vstd::relations::sorted_by;
use vstd::relations::total_ordering;
use vstd::seq_lib::lemma_sorted_unique;

verus! {

/// Value of field `i` of a position word `w` (five 5-bit fields).
pub open spec fn field5_of(w: int, i: int) -> int {
    if i == 0 {
        w % 32
    } else if i == 1 {
        (w / 32) % 32
    } else if i == 2 {
        (w / 1024) % 32
    } else if i == 3 {
        (w / 32768) % 32
    } else {
        (w / 1048576) % 32
    }
}

/// Value of field `i` of a step word `w` (five 2-bit fields).
pub open spec fn field2_of(w: int, i: int) -> int {
    if i == 0 {
        w % 4
    } else if i == 1 {
        (w / 4) % 4
    } else if i == 2 {
        (w / 16) % 4
    } else if i == 3 {
        (w / 64) % 4
    } else {
        (w / 256) % 4
    }
}

/// Decoding a sum of shifted 5-bit fields gives those fields back.
proof fn lemma_encode5(w: u32, v0: u32, v1: u32, v2: u32, v3: u32, v4: u32)
    by (bit_vector)
    requires
        v0 < 32,
        v1 < 32,
        v2 < 32,
        v3 < 32,
        v4 < 32,
        w == v0 + v1 * 32 + v2 * 1024 + v3 * 32768 + v4 * 1048576,
    ensures
        w < 0x2000000,
        w % 32 == v0,
        (w / 32) % 32 == v1,
        (w / 1024) % 32 == v2,
        (w / 32768) % 32 == v3,
        (w / 1048576) % 32 == v4,
{
}

/// A position word is the sum of its five shifted fields.
proof fn lemma_recompose5(w: u32)
    by (bit_vector)
    requires
        w < 0x2000000,
    ensures
        w == (w % 32) + ((w / 32) % 32) * 32 + ((w / 1024) % 32) * 1024 + ((w / 32768) % 32)
            * 32768 + ((w / 1048576) % 32) * 1048576,
{
}

/// Decoding a sum of shifted 2-bit fields and a turn bit gives them back.
proof fn lemma_encode2(w: u16, v0: u16, v1: u16, v2: u16, v3: u16, v4: u16, c: u16)
    by (bit_vector)
    requires
        v0 < 4,
        v1 < 4,
        v2 < 4,
        v3 < 4,
        v4 < 4,
        c < 2,
        w == v0 + v1 * 4 + v2 * 16 + v3 * 64 + v4 * 256 + c * 1024,
    ensures
        w < 2048,
        w % 4 == v0,
        (w / 4) % 4 == v1,
        (w / 16) % 4 == v2,
        (w / 64) % 4 == v3,
        (w / 256) % 4 == v4,
        w / 1024 == c,
{
}

/// A step word is the sum of its five shifted fields and its turn bit.
proof fn lemma_recompose2(w: u16)
    by (bit_vector)
    requires
        w < 2048,
    ensures
        w == (w % 4) + ((w / 4) % 4) * 4 + ((w / 16) % 4) * 16 + ((w / 64) % 4) * 64 + ((w / 256)
            % 4) * 256 + (w / 1024) * 1024,
        w / 1024 < 2,
{
}

/// A packed word made of five equal-width unsigned fields.
///
/// `field` is the mathematical value of one field, `carry` the content of the
/// word above the five fields (the turn bit on a step word, always zero on a
/// position word), and `field_bound` the exclusive upper bound of one field.
pub trait Code: Sized {
    spec fn wf(&self) -> bool;

    spec fn field(&self, i: int) -> int;

    spec fn carry(&self) -> int;

    spec fn field_bound() -> int;

    fn get_point(&self, id: usize) -> (r: i32)
        requires
            self.wf(),
            id < 5,
        ensures
            r as int == self.field(id as int),
            0 <= r < Self::field_bound(),
    ;

    fn to_slice(&self) -> (r: [i32; 5])
        requires
            self.wf(),
        ensures
            forall|i: int|
                0 <= i < 5 ==> r[i] as int == self.field(i) && 0 <= r[i] < Self::field_bound(),
    ;

    fn set_point(&mut self, point: i32, id: usize)
        requires
            old(self).wf(),
            id < 5,
            0 <= point < Self::field_bound(),
        ensures
            final(self).wf(),
            final(self).field(id as int) == point as int,
            forall|i: int| 0 <= i < 5 && i != id ==> final(self).field(i) == old(self).field(i),
            final(self).carry() == old(self).carry(),
    ;

    fn from_slice(&mut self, slice: &[i32; 5])
        requires
            old(self).wf(),
            forall|i: int| 0 <= i < 5 ==> 0 <= #[trigger] slice[i] < Self::field_bound(),
        ensures
            final(self).wf(),
            forall|i: int| 0 <= i < 5 ==> final(self).field(i) == #[trigger] slice[i] as int,
            final(self).carry() == old(self).carry(),
    {
        let mut i: usize = 0;
        while i < 5
            invariant
                i <= 5,
                self.wf(),
                forall|j: int| 0 <= j < 5 ==> 0 <= #[trigger] slice[j] < Self::field_bound(),
                forall|j: int| 0 <= j < i ==> self.field(j) == #[trigger] slice[j] as int,
                forall|j: int| i <= j < 5 ==> self.field(j) == old(self).field(j),
                self.carry() == old(self).carry(),
            decreases 5 - i,
        {
            self.set_point(slice[i], i);
            i += 1;
        }
    }
}

impl Code for i32 {
    open spec fn wf(&self) -> bool {
        0 <= *self < 0x2000000
    }

    open spec fn field(&self, i: int) -> int {
        field5_of(*self as int, i)
    }

    open spec fn carry(&self) -> int {
        (*self as int) / 0x2000000
    }

    open spec fn field_bound() -> int {
        32
    }

    fn get_point(&self, id: usize) -> (r: i32) {
        let w: u32 = *self as u32;
        let f: u32 = match id {
            0 => w % 32,
            1 => (w / 32) % 32,
            2 => (w / 1024) % 32,
            3 => (w / 32768) % 32,
            _ => (w / 1048576) % 32,
        };
        f as i32
    }

    fn to_slice(&self) -> (r: [i32; 5]) {
        [
            self.get_point(0),
            self.get_point(1),
            self.get_point(2),
            self.get_point(3),
            self.get_point(4),
        ]
    }

    fn set_point(&mut self, point: i32, id: usize) {
        let w: u32 = *self as u32;
        let v0: u32 = w % 32;
        let v1: u32 = (w / 32) % 32;
        let v2: u32 = (w / 1024) % 32;
        let v3: u32 = (w / 32768) % 32;
        let v4: u32 = (w / 1048576) % 32;
        proof {
            lemma_recompose5(w);
        }
        let p: u32 = point as u32;
        let nw: u32 = match id {
            0 => p + v1 * 32 + v2 * 1024 + v3 * 32768 + v4 * 1048576,
            1 => v0 + p * 32 + v2 * 1024 + v3 * 32768 + v4 * 1048576,
            2 => v0 + v1 * 32 + p * 1024 + v3 * 32768 + v4 * 1048576,
            3 => v0 + v1 * 32 + v2 * 1024 + p * 32768 + v4 * 1048576,
            _ => v0 + v1 * 32 + v2 * 1024 + v3 * 32768 + p * 1048576,
        };
        proof {
            match id {
                0 => lemma_encode5(nw, p, v1, v2, v3, v4),
                1 => lemma_encode5(nw, v0, p, v2, v3, v4),
                2 => lemma_encode5(nw, v0, v1, p, v3, v4),
                3 => lemma_encode5(nw, v0, v1, v2, p, v4),
                _ => lemma_encode5(nw, v0, v1, v2, v3, p),
            }
        }
        *self = nw as i32;
    }
}

impl Code for i16 {
    open spec fn wf(&self) -> bool {
        0 <= *self < 2048
    }

    open spec fn field(&self, i: int) -> int {
        field2_of(*self as int, i)
    }

    open spec fn carry(&self) -> int {
        (*self as int) / 1024
    }

    open spec fn field_bound() -> int {
        4
    }

    fn get_point(&self, id: usize) -> (r: i32) {
        let w: u16 = *self as u16;
        let f: u16 = match id {
            0 => w % 4,
            1 => (w / 4) % 4,
            2 => (w / 16) % 4,
            3 => (w / 64) % 4,
            _ => (w / 256) % 4,
        };
        f as i32
    }

    fn to_slice(&self) -> (r: [i32; 5]) {
        [
            self.get_point(0),
            self.get_point(1),
            self.get_point(2),
            self.get_point(3),
            self.get_point(4),
        ]
    }

    fn set_point(&mut self, point: i32, id: usize) {
        let w: u16 = *self as u16;
        let v0: u16 = w % 4;
        let v1: u16 = (w / 4) % 4;
        let v2: u16 = (w / 16) % 4;
        let v3: u16 = (w / 64) % 4;
        let v4: u16 = (w / 256) % 4;
        let c: u16 = w / 1024;
        proof {
            lemma_recompose2(w);
        }
        let p: u16 = point as u16;
        let nw: u16 = match id {
            0 => p + v1 * 4 + v2 * 16 + v3 * 64 + v4 * 256 + c * 1024,
            1 => v0 + p * 4 + v2 * 16 + v3 * 64 + v4 * 256 + c * 1024,
            2 => v0 + v1 * 4 + p * 16 + v3 * 64 + v4 * 256 + c * 1024,
            3 => v0 + v1 * 4 + v2 * 16 + p * 64 + v4 * 256 + c * 1024,
            _ => v0 + v1 * 4 + v2 * 16 + v3 * 64 + p * 256 + c * 1024,
        };
        proof {
            match id {
                0 => lemma_encode2(nw, p, v1, v2, v3, v4, c),
                1 => lemma_encode2(nw, v0, p, v2, v3, v4, c),
                2 => lemma_encode2(nw, v0, v1, p, v3, v4, c),
                3 => lemma_encode2(nw, v0, v1, v2, p, v4, c),
                _ => lemma_encode2(nw, v0, v1, v2, v3, p, c),
            }
        }
        *self = nw as i16;
    }
}

#[derive(Clone, Copy, PartialEq, Eq, Structural, Debug)]
pub enum Color {
    White,
    Black,
}

/// The side that a turn bit of value `c` gives the move to.
pub open spec fn turn_color(c: int) -> Color {
    if c == 0 {
        Color::White
    } else {
        Color::Black
    }
}

/// A step word whose bit above the five counters stores whose turn it is.
pub trait TurnCode: Code {
    /// Flip the turn bit, leaving the five counters alone.
    fn next_turn(&mut self)
        requires
            old(self).wf(),
        ensures
            final(self).wf(),
            forall|i: int| 0 <= i < 5 ==> final(self).field(i) == old(self).field(i),
            final(self).carry() == 1 - old(self).carry(),
    ;

    fn to_turn(&self) -> (r: Color)
        requires
            self.wf(),
        ensures
            r == turn_color(self.carry()),
    ;
}

impl TurnCode for i16 {
    fn next_turn(&mut self) {
        let w: u16 = *self as u16;
        proof {
            lemma_recompose2(w);
        }
        match self.to_turn() {
            Color::White => {
                *self += 1024;
                proof {
                    lemma_encode2(
                        (w + 1024) as u16,
                        w % 4,
                        (w / 4) % 4,
                        (w / 16) % 4,
                        (w / 64) % 4,
                        (w / 256) % 4,
                        1,
                    );
                }
            },
            Color::Black => {
                *self -= 1024;
                proof {
                    lemma_encode2(
                        (w - 1024) as u16,
                        w % 4,
                        (w / 4) % 4,
                        (w / 16) % 4,
                        (w / 64) % 4,
                        (w / 256) % 4,
                        0,
                    );
                }
            },
        }
    }

    fn to_turn(&self) -> (r: Color) {
        let w: u16 = *self as u16;
        if w / 1024 == 0 {
            Color::White
        } else {
            Color::Black
        }
    }
}

/// Both sides' packed words: the whole position of a game.
///
/// Equality of two values is equality of the four words; under `wf` that is
/// the same as equality of the decoded pieces and the turn, so a `Codes` in
/// canonical (sorted) form can serve as a repetition-map key.
#[derive(Clone, Copy, PartialEq, Eq, Hash, Structural, Debug)]
pub struct Codes {
    pub w_pos: i32,
    pub w_step: i16,
    pub b_pos: i32,
    pub b_step: i16,
}

impl Codes {
    pub open spec fn wf(&self) -> bool {
        &&& self.w_pos.wf()
        &&& self.w_step.wf()
        &&& self.b_pos.wf()
        &&& self.b_step.wf()
        &&& self.b_step.carry() == 0
    }

    pub open spec fn w_positions(&self) -> Seq<int> {
        Seq::new(5, |i: int| self.w_pos.field(i))
    }

    pub open spec fn w_steps(&self) -> Seq<int> {
        Seq::new(5, |i: int| self.w_step.field(i))
    }

    pub open spec fn b_positions(&self) -> Seq<int> {
        Seq::new(5, |i: int| self.b_pos.field(i))
    }

    pub open spec fn b_steps(&self) -> Seq<int> {
        Seq::new(5, |i: int| self.b_step.field(i))
    }

    pub open spec fn turn(&self) -> Color {
        turn_color(self.w_step.carry())
    }

    /// One side's five pieces as (cell, step counter) pairs, slot by slot.
    pub open spec fn side_pairs(&self, color: Color) -> Seq<(int, int)> {
        match color {
            Color::White => Seq::new(5, |i: int| (self.w_pos.field(i), self.w_step.field(i))),
            Color::Black => Seq::new(5, |i: int| (self.b_pos.field(i), self.b_step.field(i))),
        }
    }

    pub fn from_int(w_pos: i32, w_step: i16, b_pos: i32, b_step: i16) -> (r: Self)
        requires
            w_pos.wf(),
            w_step.wf(),
            b_pos.wf(),
            b_step.wf(),
            b_step.carry() == 0,
        ensures
            r == (Codes { w_pos, w_step, b_pos, b_step }),
            r.wf(),
    {
        Codes { w_pos, w_step, b_pos, b_step }
    }

    pub fn from_slices(
        w_pos_slice: &[i32; 5],
        w_step_slice: &[i32; 5],
        b_pos_slice: &[i32; 5],
        b_step_slice: &[i32; 5],
    ) -> (r: Self)
        requires
            forall|i: int| 0 <= i < 5 ==> 0 <= #[trigger] w_pos_slice[i] < 32,
            forall|i: int| 0 <= i < 5 ==> 0 <= #[trigger] w_step_slice[i] < 4,
            forall|i: int| 0 <= i < 5 ==> 0 <= #[trigger] b_pos_slice[i] < 32,
            forall|i: int| 0 <= i < 5 ==> 0 <= #[trigger] b_step_slice[i] < 4,
        ensures
            r.wf(),
            forall|i: int| 0 <= i < 5 ==> r.w_positions()[i] == #[trigger] w_pos_slice[i] as int,
            forall|i: int| 0 <= i < 5 ==> r.w_steps()[i] == #[trigger] w_step_slice[i] as int,
            forall|i: int| 0 <= i < 5 ==> r.b_positions()[i] == #[trigger] b_pos_slice[i] as int,
            forall|i: int| 0 <= i < 5 ==> r.b_steps()[i] == #[trigger] b_step_slice[i] as int,
            r.turn() == Color::White,
    {
        let mut w_pos: i32 = 0;
        let mut w_step: i16 = 0;
        let mut b_pos: i32 = 0;
        let mut b_step: i16 = 0;
        w_pos.from_slice(w_pos_slice);
        w_step.from_slice(w_step_slice);
        b_pos.from_slice(b_pos_slice);
        b_step.from_slice(b_step_slice);
        Codes { w_pos, w_step, b_pos, b_step }
    }

    pub fn to_slices(&self, color: Color) -> (r: ([i32; 5], [i32; 5]))
        requires
            self.wf(),
        ensures
            forall|i: int|
                0 <= i < 5 ==> (#[trigger] r.0[i] as int, #[trigger] r.1[i] as int)
                    == self.side_pairs(color)[i],
            forall|i: int| 0 <= i < 5 ==> 0 <= #[trigger] r.0[i] < 32 && 0 <= #[trigger] r.1[i] < 4,
    {
        match color {
            Color::White => (self.w_pos.to_slice(), self.w_step.to_slice()),
            Color::Black => (self.b_pos.to_slice(), self.b_step.to_slice()),
        }
    }

    pub fn next_turn(&mut self)
        requires
            old(self).wf(),
        ensures
            final(self).wf(),
            final(self).turn() == (match old(self).turn() {
                Color::White => Color::Black,
                Color::Black => Color::White,
            }),
            final(self).w_pos == old(self).w_pos,
            final(self).b_pos == old(self).b_pos,
            final(self).b_step == old(self).b_step,
            final(self).w_steps() == old(self).w_steps(),
            final(self).side_pairs(Color::White) == old(self).side_pairs(Color::White),
            final(self).side_pairs(Color::Black) == old(self).side_pairs(Color::Black),
    {
        proof {
            lemma_recompose2(self.w_step as u16);
        }
        self.w_step.next_turn();
        proof {
            assert(self.w_steps() =~= old(self).w_steps());
            assert(self.side_pairs(Color::White) =~= old(self).side_pairs(Color::White));
            assert(self.side_pairs(Color::Black) =~= old(self).side_pairs(Color::Black));
        }
    }

    pub fn to_turn(&self) -> (r: Color)
        requires
            self.wf(),
        ensures
            r == self.turn(),
    {
        self.w_step.to_turn()
    }

    /// The board as 30 signed cells: each on-board piece adds `4^step` for
    /// White or subtracts it for Black; pieces at cells 30 and 31 are off the
    /// board and contribute nothing.
    pub fn to_vec(&self) -> (v: Vec<i8>)
        requires
            self.wf(),
            forall|cell: int| 0 <= cell < 30 ==> white_sum(*self, cell) <= 127,
            forall|cell: int| 0 <= cell < 30 ==> cell_value(*self, cell) >= -128,
        ensures
            v@.len() == 30,
            forall|cell: int| 0 <= cell < 30 ==> #[trigger] v@[cell] as int == cell_value(*self, cell),
    {
        let mut v: Vec<i8> = Vec::new();
        let mut i: usize = 0;
        while i < 30
            invariant
                v@.len() == i,
                i <= 30,
                forall|k: int| 0 <= k < i ==> #[trigger] v@[k] == 0i8,
            decreases 30 - i,
        {
            v.push(0);
            i += 1;
        }
        let mut k: usize = 0;
        while k < 5
            invariant
                self.wf(),
                forall|cell: int| 0 <= cell < 30 ==> white_sum(*self, cell) <= 127,
                v@.len() == 30,
                k <= 5,
                forall|cell: int|
                    0 <= cell < 30 ==> #[trigger] v@[cell] as int == stack_sum(
                        self.w_positions(),
                        self.w_steps(),
                        cell,
                        k as int,
                    ),
            decreases 5 - k,
        {
            let p: i32 = self.w_pos.get_point(k);
            if p < 30 {
                let s: i32 = self.w_step.get_point(k);
                let weight: i8 = weight_of(s);
                let idx: usize = p as usize;
                let cur: i8 = v[idx];
                proof {
                    lemma_stack_sum_mono(
                        self.w_positions(),
                        self.w_steps(),
                        p as int,
                        k as int + 1,
                        5,
                    );
                    lemma_stack_sum_nonneg(self.w_positions(), self.w_steps(), p as int, k as int);
                    assert(white_sum(*self, p as int) <= 127);
                }
                v.set(idx, cur + weight);
            }
            k += 1;
        }
        let mut k: usize = 0;
        while k < 5
            invariant
                self.wf(),
                forall|cell: int| 0 <= cell < 30 ==> white_sum(*self, cell) <= 127,
                forall|cell: int| 0 <= cell < 30 ==> cell_value(*self, cell) >= -128,
                v@.len() == 30,
                k <= 5,
                forall|cell: int|
                    0 <= cell < 30 ==> #[trigger] v@[cell] as int == white_sum(*self, cell)
                        - stack_sum(self.b_positions(), self.b_steps(), cell, k as int),
            decreases 5 - k,
        {
            let p: i32 = self.b_pos.get_point(k);
            if p < 30 {
                let s: i32 = self.b_step.get_point(k);
                let weight: i8 = weight_of(s);
                let idx: usize = p as usize;
                let cur: i8 = v[idx];
                proof {
                    lemma_stack_sum_mono(
                        self.b_positions(),
                        self.b_steps(),
                        p as int,
                        k as int + 1,
                        5,
                    );
                    lemma_stack_sum_nonneg(self.b_positions(), self.b_steps(), p as int, k as int);
                    assert(white_sum(*self, p as int) <= 127);
                    assert(cell_value(*self, p as int) >= -128);
                }
                v.set(idx, cur - weight);
            }
            k += 1;
        }
        v
    }
}

/// The rendered weight of a stack counter: `4^s` for the counters 0..3 that a
/// 2-bit field can hold.
pub open spec fn stack_weight(s: int) -> int {
    if s <= 0 {
        1
    } else if s == 1 {
        4
    } else if s == 2 {
        16
    } else {
        64
    }
}

fn weight_of(s: i32) -> (r: i8)
    requires
        0 <= s < 4,
    ensures
        r as int == stack_weight(s as int),
{
    match s {
        0 => 1,
        1 => 4,
        2 => 16,
        _ => 64,
    }
}

/// Sum of the weights that the first `n` pieces of one side put on `cell`.
pub open spec fn stack_sum(ps: Seq<int>, ss: Seq<int>, cell: int, n: int) -> int
    decreases n,
{
    if n <= 0 {
        0
    } else {
        stack_sum(ps, ss, cell, n - 1) + if ps[n - 1] == cell {
            stack_weight(ss[n - 1])
        } else {
            0
        }
    }
}

/// What White's five pieces put on `cell`.
pub open spec fn white_sum(c: Codes, cell: int) -> int {
    stack_sum(c.w_positions(), c.w_steps(), cell, 5)
}

/// What Black's five pieces put on `cell`.
pub open spec fn black_sum(c: Codes, cell: int) -> int {
    stack_sum(c.b_positions(), c.b_steps(), cell, 5)
}

/// The rendered value of `cell`: White's weights minus Black's.
pub open spec fn cell_value(c: Codes, cell: int) -> int {
    white_sum(c, cell) - black_sum(c, cell)
}

proof fn lemma_stack_sum_nonneg(ps: Seq<int>, ss: Seq<int>, cell: int, n: int)
    ensures
        stack_sum(ps, ss, cell, n) >= 0,
    decreases n,
{
    if n > 0 {
        lemma_stack_sum_nonneg(ps, ss, cell, n - 1);
    }
}

proof fn lemma_stack_sum_mono(ps: Seq<int>, ss: Seq<int>, cell: int, n: int, m: int)
    requires
        n <= m,
    ensures
        stack_sum(ps, ss, cell, n) <= stack_sum(ps, ss, cell, m),
    decreases m - n,
{
    if n < m {
        lemma_stack_sum_mono(ps, ss, cell, n, m - 1);
    }
}

/// Ascending lexicographic order on (cell, step) pairs: the canonical order
/// of a side's anonymous pieces.
pub open spec fn pair_le(a: (int, int), b: (int, int)) -> bool {
    a.0 < b.0 || (a.0 == b.0 && a.1 <= b.1)
}

pub open spec fn pair_le_fn() -> spec_fn((int, int), (int, int)) -> bool {
    |a: (int, int), b: (int, int)| pair_le(a, b)
}

pub open spec fn pairs_sorted(s: Seq<(int, int)>) -> bool {
    sorted_by(s, pair_le_fn())
}

/// A sequence of machine-word pairs read as mathematical pairs.
pub open spec fn int_pairs(s: Seq<(i32, i32)>) -> Seq<(int, int)> {
    Seq::new(s.len(), |i: int| (s[i].0 as int, s[i].1 as int))
}

/// The canonical order of pieces is a total order.
pub proof fn lemma_pair_le_total()
    ensures
        total_ordering(pair_le_fn()),
{
    assert forall|a: (int, int)| #[trigger] pair_le_fn()(a, a) by {}
    assert forall|a: (int, int), b: (int, int)|
        !(#[trigger] pair_le_fn()(a, b)) implies pair_le_fn()(b, a) by {}
}

fn pair_below(a: (i32, i32), b: (i32, i32)) -> (r: bool)
    ensures
        r == pair_le((a.0 as int, a.1 as int), (b.0 as int, b.1 as int)),
{
    a.0 < b.0 || (a.0 == b.0 && a.1 <= b.1)
}

/// Index of a least pair among slots `i..5`.
fn min_from(v: &Vec<(i32, i32)>, i: usize) -> (m: usize)
    requires
        v@.len() == 5,
        i < 5,
    ensures
        i <= m < 5,
        forall|k: int| i <= k < 5 ==> pair_le(int_pairs(v@)[m as int], #[trigger] int_pairs(v@)[k]),
{
    let mut m: usize = i;
    let mut j: usize = i + 1;
    while j < 5
        invariant
            v@.len() == 5,
            i < 5,
            i <= m < j,
            j <= 5,
            forall|k: int| i <= k < j ==> pair_le(int_pairs(v@)[m as int], #[trigger] int_pairs(v@)[k]),
        decreases 5 - j,
    {
        if pair_below(v[j], v[m]) {
            m = j;
        }
        j += 1;
    }
    m
}

proof fn lemma_int_pairs_update(s: Seq<(i32, i32)>, i: int, x: (i32, i32))
    requires
        0 <= i < s.len(),
    ensures
        int_pairs(s.update(i, x)) =~= int_pairs(s).update(i, (x.0 as int, x.1 as int)),
{
}

/// Exchanging two slots of a sequence keeps its multiset of elements.
proof fn lemma_to_multiset_swap<A>(s: Seq<A>, i: int, j: int)
    requires
        0 <= i < s.len(),
        0 <= j < s.len(),
    ensures
        s.update(i, s[j]).update(j, s[i]).to_multiset() == s.to_multiset(),
{
    broadcast use vstd::multiset::group_multiset_axioms;
    broadcast use vstd::seq_lib::group_to_multiset_ensures;

    if i == j {
        assert(s.update(i, s[j]).update(j, s[i]) =~= s);
    } else {
        let u1 = s.update(i, s[j]);
        let u2 = u1.update(j, s[i]);
        vstd::seq_lib::to_multiset_update(s, i, s[j]);
        vstd::seq_lib::to_multiset_update(u1, j, s[i]);
        assert(u1[j] == s[j]);
        assert(s.contains(s[i]));
        assert(s.contains(s[j]));
        assert_multisets_equal!(u2.to_multiset(), s.to_multiset(), x => {
            let ms = s.to_multiset();
            let si = Multiset::<A>::singleton(s[i]);
            let sj = Multiset::<A>::singleton(s[j]);
            assert(ms.count(s[i]) > 0);
            assert(ms.count(s[j]) > 0);
            if x == s[i] {
                assert(si.count(x) == 1);
            } else {
                assert(si.count(x) == 0);
            }
            if x == s[j] {
                assert(sj.count(x) == 1);
            } else {
                assert(sj.count(x) == 0);
            }
        });
    }
}

/// Sort five pairs into ascending canonical order, keeping them as a multiset.
fn sort_five(v: &mut Vec<(i32, i32)>)
    requires
        old(v)@.len() == 5,
    ensures
        final(v)@.len() == 5,
        pairs_sorted(int_pairs(final(v)@)),
        int_pairs(final(v)@).to_multiset() == int_pairs(old(v)@).to_multiset(),
{
    broadcast use vstd::seq_lib::group_to_multiset_ensures;
    broadcast use vstd::multiset::group_multiset_axioms;

    let ghost orig: Seq<(i32, i32)> = v@;
    let mut i: usize = 0;
    while i < 5
        invariant
            v@.len() == 5,
            i <= 5,
            int_pairs(v@).to_multiset() == int_pairs(orig).to_multiset(),
            forall|a: int, b: int|
                0 <= a < b < i ==> pair_le(#[trigger] int_pairs(v@)[a], #[trigger] int_pairs(v@)[b]),
            forall|a: int, b: int|
                0 <= a < i <= b < 5 ==> pair_le(
                    #[trigger] int_pairs(v@)[a],
                    #[trigger] int_pairs(v@)[b],
                ),
        decreases 5 - i,
    {
        let m: usize = min_from(v, i);
        let ghost before: Seq<(i32, i32)> = v@;
        let ti: (i32, i32) = v[i];
        let tm: (i32, i32) = v[m];
        v.set(i, tm);
        v.set(m, ti);
        proof {
            lemma_int_pairs_update(before, i as int, tm);
            lemma_int_pairs_update(before.update(i as int, tm), m as int, ti);
            let ip0 = int_pairs(before);
            let ip1 = int_pairs(v@);
            assert(ip1 =~= ip0.update(i as int, ip0[m as int]).update(m as int, ip0[i as int]));
            lemma_to_multiset_swap(ip0, i as int, m as int);
        }
        i += 1;
    }
    proof {
        assert forall|a: int, b: int| 0 <= a < b < 5 implies pair_le_fn()(
            int_pairs(v@)[a],
            int_pairs(v@)[b],
        ) by {
            assert(pair_le(int_pairs(v@)[a], int_pairs(v@)[b]));
        }
    }
}

impl Codes {
    /// Reorder one side's five pieces into the canonical ascending order.
    ///
    /// Only that side's words change; the other side and the turn are kept.
    pub fn sort(&mut self, color: Color)
        requires
            old(self).wf(),
        ensures
            final(self).wf(),
            pairs_sorted(final(self).side_pairs(color)),
            final(self).side_pairs(color).to_multiset() == old(self).side_pairs(
                color,
            ).to_multiset(),
            final(self).turn() == old(self).turn(),
            (match color {
                Color::White => final(self).b_pos == old(self).b_pos && final(self).b_step == old(
                    self,
                ).b_step,
                Color::Black => final(self).w_pos == old(self).w_pos && final(self).w_step == old(
                    self,
                ).w_step,
            }),
    {
        let slices = self.to_slices(color);
        let mut pairs: Vec<(i32, i32)> = Vec::new();
        pairs.push((slices.0[0], slices.1[0]));
        pairs.push((slices.0[1], slices.1[1]));
        pairs.push((slices.0[2], slices.1[2]));
        pairs.push((slices.0[3], slices.1[3]));
        pairs.push((slices.0[4], slices.1[4]));
        proof {
            assert(int_pairs(pairs@) =~= self.side_pairs(color));
        }
        sort_five(&mut pairs);
        proof {
            broadcast use vstd::seq_lib::group_to_multiset_ensures;

            assert forall|k: int| 0 <= k < 5 implies 0 <= #[trigger] pairs@[k].0 < 32 && 0
                <= pairs@[k].1 < 4 by {
                let x = int_pairs(pairs@)[k];
                assert(int_pairs(pairs@).to_multiset().contains(x));
                assert(old(self).side_pairs(color).contains(x));
                let j = choose|j: int|
                    0 <= j < 5 && old(self).side_pairs(color)[j] == x;
                assert(old(self).side_pairs(color)[j] == x);
            }
        }
        let pos_arr: [i32; 5] = [pairs[0].0, pairs[1].0, pairs[2].0, pairs[3].0, pairs[4].0];
        let step_arr: [i32; 5] = [pairs[0].1, pairs[1].1, pairs[2].1, pairs[3].1, pairs[4].1];
        let mut pos: i32 = 0;
        let mut step: i16 = 0;
        pos.from_slice(&pos_arr);
        step.from_slice(&step_arr);
        match color {
            Color::White => {
                let t = self.to_turn();
                self.w_pos = pos;
                self.w_step = step;
                if matches!(t, Color::Black) {
                    // restore the turn bit that the fresh step word lacks
                    self.w_step.next_turn();
                }
                proof {
                    assert(self.side_pairs(Color::White) =~= int_pairs(pairs@));
                }
            },
            Color::Black => {
                self.b_pos = pos;
                self.b_step = step;
                proof {
                    assert(self.side_pairs(Color::Black) =~= int_pairs(pairs@));
                }
            },
        }
    }
}

/// Under well-formedness the packed words carry no information beyond the
/// decoded pieces and the turn: equal views mean equal values.
pub proof fn lemma_codes_determined(a: Codes, b: Codes)
    requires
        a.wf(),
        b.wf(),
        a.side_pairs(Color::White) == b.side_pairs(Color::White),
        a.side_pairs(Color::Black) == b.side_pairs(Color::Black),
        a.turn() == b.turn(),
    ensures
        a == b,
{
    assert forall|i: int| 0 <= i < 5 implies a.w_pos.field(i) == b.w_pos.field(i)
        && a.w_step.field(i) == b.w_step.field(i) && a.b_pos.field(i) == b.b_pos.field(i)
        && a.b_step.field(i) == b.b_step.field(i) by {
        assert(a.side_pairs(Color::White)[i] == b.side_pairs(Color::White)[i]);
        assert(a.side_pairs(Color::Black)[i] == b.side_pairs(Color::Black)[i]);
    }
    assert(a.w_step.carry() == b.w_step.carry());
    lemma_pos_word_determined(a.w_pos, b.w_pos);
    lemma_pos_word_determined(a.b_pos, b.b_pos);
    lemma_step_word_determined(a.w_step, b.w_step);
    lemma_step_word_determined(a.b_step, b.b_step);
}

/// A well-formed position word is determined by its five fields.
proof fn lemma_pos_word_determined(x: i32, y: i32)
    requires
        x.wf(),
        y.wf(),
        forall|i: int| 0 <= i < 5 ==> #[trigger] x.field(i) == y.field(i),
    ensures
        x == y,
{
    lemma_recompose5(x as u32);
    lemma_recompose5(y as u32);
    assert(x as u32 as int == x as int);
    assert(y as u32 as int == y as int);
    assert(x.field(0) == y.field(0));
    assert(x.field(1) == y.field(1));
    assert(x.field(2) == y.field(2));
    assert(x.field(3) == y.field(3));
    assert(x.field(4) == y.field(4));
}

/// A well-formed step word is determined by its five fields and its carry.
proof fn lemma_step_word_determined(x: i16, y: i16)
    requires
        x.wf(),
        y.wf(),
        forall|i: int| 0 <= i < 5 ==> #[trigger] x.field(i) == y.field(i),
        x.carry() == y.carry(),
    ensures
        x == y,
{
    lemma_recompose2(x as u16);
    lemma_recompose2(y as u16);
    assert(x as u16 as int == x as int);
    assert(y as u16 as int == y as int);
    assert(x.field(0) == y.field(0));
    assert(x.field(1) == y.field(1));
    assert(x.field(2) == y.field(2));
    assert(x.field(3) == y.field(3));
    assert(x.field(4) == y.field(4));
}

/// Law: canonicalizing a side that is already canonical changes nothing.
/// If `a` has `color`'s pieces sorted and `b` stands to `a` as the result of
/// canonicalizing `color`'s side (sorted, same pieces, rest untouched), then
/// `b` is `a` itself.
pub proof fn lemma_canonicalize_idempotent(a: Codes, b: Codes, color: Color)
    requires
        a.wf(),
        b.wf(),
        pairs_sorted(a.side_pairs(color)),
        pairs_sorted(b.side_pairs(color)),
        b.side_pairs(color).to_multiset() == a.side_pairs(color).to_multiset(),
        (match color {
            Color::White => b.b_pos == a.b_pos && b.b_step == a.b_step,
            Color::Black => b.w_pos == a.w_pos && b.w_step == a.w_step,
        }),
        b.turn() == a.turn(),
    ensures
        b == a,
{
    lemma_pair_le_total();
    lemma_sorted_unique(a.side_pairs(color), b.side_pairs(color), pair_le_fn());
    match color {
        Color::White => {
            assert(a.side_pairs(Color::Black) =~= b.side_pairs(Color::Black));
        },
        Color::Black => {
            assert(a.side_pairs(Color::White) =~= b.side_pairs(Color::White));
        },
    }
    lemma_codes_determined(a, b);
}

/// Law: piece identity never shows through the canonical form. Two
/// well-formed states whose sides each hold the same pieces as multisets, both
/// in canonical order and with the same turn, are the same value (and so hash
/// alike).
pub proof fn lemma_canonical_anonymity(a: Codes, b: Codes)
    requires
        a.wf(),
        b.wf(),
        pairs_sorted(a.side_pairs(Color::White)),
        pairs_sorted(a.side_pairs(Color::Black)),
        pairs_sorted(b.side_pairs(Color::White)),
        pairs_sorted(b.side_pairs(Color::Black)),
        a.side_pairs(Color::White).to_multiset() == b.side_pairs(Color::White).to_multiset(),
        a.side_pairs(Color::Black).to_multiset() == b.side_pairs(Color::Black).to_multiset(),
        a.turn() == b.turn(),
    ensures
        a == b,
{
    lemma_pair_le_total();
    lemma_sorted_unique(a.side_pairs(Color::White), b.side_pairs(Color::White), pair_le_fn());
    lemma_sorted_unique(a.side_pairs(Color::Black), b.side_pairs(Color::Black), pair_le_fn());
    lemma_codes_determined(a, b);
}

} // verus!
