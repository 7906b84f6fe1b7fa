//! The move validator and the game session.
//!
//! A move selector is a single number: `dir / 8` picks a piece by its rank in
//! the mover's canonical order, `dir % 8` one of the eight compass directions.
//! Validating a move either rejects it, declares a win, or yields the next
//! canonical state, with a draw when that state is about to occur a third
//! time.

use crate::code::Code;
use crate::code::Codes;
use crate::code::Color;
use crate::code::pairs_sorted;
use vstd::prelude::*;

verus! {

/// Row offset of direction `d` in the fixed enumeration of the eight
/// neighbours: up-left, up, up-right, left, right, down-left, down,
/// down-right.
pub open spec fn dir_dy(d: int) -> int {
    if d <= 2 {
        -1
    } else if d <= 4 {
        0
    } else {
        1
    }
}

/// Column offset of direction `d`.
pub open spec fn dir_dx(d: int) -> int {
    if d == 0 || d == 3 || d == 5 {
        -1
    } else if d == 1 || d == 6 {
        0
    } else {
        1
    }
}

fn dir_delta(d: usize) -> (r: (i32, i32))
    requires
        d < 8,
    ensures
        r.0 as int == dir_dy(d as int),
        r.1 as int == dir_dx(d as int),
{
    match d {
        0 => (-1, -1),
        1 => (-1, 0),
        2 => (-1, 1),
        3 => (0, -1),
        4 => (0, 1),
        5 => (1, -1),
        6 => (1, 0),
        _ => (1, 1),
    }
}

/// How many of the first `n` slots of `s` hold the cell `p`.
pub open spec fn count_at(s: Seq<int>, p: int, n: int) -> int
    decreases n,
{
    if n <= 0 {
        0
    } else {
        count_at(s, p, n - 1) + if s[n - 1] == p {
            1int
        } else {
            0int
        }
    }
}

/// How many pieces of either side stand at cell `p`.
pub open spec fn occupancy(c: Codes, p: int) -> int {
    count_at(c.w_positions(), p, 5) + count_at(c.b_positions(), p, 5)
}

/// The side to move, the other side, and the mover's pieces.
pub open spec fn opponent(t: Color) -> Color {
    match t {
        Color::White => Color::Black,
        Color::Black => Color::White,
    }
}

pub open spec fn mover_pairs(c: Codes) -> Seq<(int, int)> {
    c.side_pairs(c.turn())
}

pub open spec fn move_rank(dir: int) -> int {
    dir / 8
}

/// The cell the addressed piece stands on.
pub open spec fn move_origin(c: Codes, dir: int) -> int {
    mover_pairs(c)[move_rank(dir)].0
}

pub open spec fn dest_row(c: Codes, dir: int) -> int {
    move_origin(c, dir) / 5 + dir_dy(dir % 8)
}

pub open spec fn dest_col(c: Codes, dir: int) -> int {
    move_origin(c, dir) % 5 + dir_dx(dir % 8)
}

pub open spec fn dest_cell(c: Codes, dir: int) -> int {
    dest_row(c, dir) * 5 + dest_col(c, dir)
}

pub open spec fn rank_ok(dir: int) -> bool {
    0 <= dir && move_rank(dir) < 5
}

pub open spec fn col_ok(c: Codes, dir: int) -> bool {
    0 <= dest_col(c, dir) <= 4
}

/// The move steps over the far edge on the mover's own advancing side:
/// row 6 for White, row -1 for Black.
pub open spec fn move_wins(c: Codes, dir: int) -> bool {
    &&& rank_ok(dir)
    &&& col_ok(c, dir)
    &&& (match c.turn() {
        Color::White => dest_row(c, dir) == 6,
        Color::Black => dest_row(c, dir) == -1,
    })
}

/// The move lands on a regular board cell.
pub open spec fn normal_cell(c: Codes, dir: int) -> bool {
    &&& rank_ok(dir)
    &&& col_ok(c, dir)
    &&& 0 <= dest_row(c, dir) <= 5
}

/// The move lands on a regular cell but an occupancy rule forbids it: the
/// origin holds more pieces than the mover's recorded stack counter admits, or
/// the destination already holds two pieces.
pub open spec fn move_blocked(c: Codes, dir: int) -> bool {
    &&& normal_cell(c, dir)
    &&& (occupancy(c, move_origin(c, dir)) - 1 > mover_pairs(c)[move_rank(dir)].1 || occupancy(
        c,
        dest_cell(c, dir),
    ) - 1 > 0)
}

/// The move is legal and lands on a regular cell.
pub open spec fn move_advances(c: Codes, dir: int) -> bool {
    normal_cell(c, dir) && !move_blocked(c, dir)
}

/// Every way a move fails: it neither wins nor advances.
pub open spec fn move_rejected(c: Codes, dir: int) -> bool {
    !move_wins(c, dir) && !move_advances(c, dir)
}

/// The mover's pieces after the addressed piece lands: its slot now holds the
/// destination cell, and a stack counter equal to the number of pieces already
/// there.
pub open spec fn moved_pairs(c: Codes, dir: int) -> Seq<(int, int)> {
    mover_pairs(c).update(
        move_rank(dir),
        (dest_cell(c, dir), occupancy(c, dest_cell(c, dir))),
    )
}

/// `c2` is the canonical state that applying the move to `c` yields: the
/// mover's side holds exactly the moved pieces, re-sorted, the other side is
/// untouched, and the turn has flipped.
pub open spec fn applied_state(c: Codes, dir: int, c2: Codes) -> bool {
    &&& c2.wf()
    &&& c2.turn() == opponent(c.turn())
    &&& pairs_sorted(c2.side_pairs(c.turn()))
    &&& c2.side_pairs(c.turn()).to_multiset() == moved_pairs(c, dir).to_multiset()
    &&& (match c.turn() {
        Color::White => c2.b_pos == c.b_pos && c2.b_step == c.b_step,
        Color::Black => c2.w_pos == c.w_pos && c2.w_steps() == c.w_steps(),
    })
}

/// The count recorded for state `c`, zero when `c` was never recorded.
pub open spec fn hist_count(h: Seq<(Codes, usize)>, c: Codes) -> int
    decreases h.len(),
{
    if h.len() == 0 {
        0
    } else if h[0].0 == c {
        h[0].1 as int
    } else {
        hist_count(h.drop_first(), c)
    }
}

proof fn lemma_hist_count_skip_step(h: Seq<(Codes, usize)>, c: Codes, i: int)
    requires
        0 <= i < h.len(),
        h[i].0 != c,
    ensures
        hist_count(h.skip(i), c) == hist_count(h.skip(i + 1), c),
{
    assert(h.skip(i).len() > 0);
    assert(h.skip(i)[0] == h[i]);
    assert(h.skip(i).drop_first() =~= h.skip(i + 1));
}

proof fn lemma_hist_count_at(h: Seq<(Codes, usize)>, c: Codes, i: int)
    requires
        0 <= i < h.len(),
        h[i].0 == c,
        forall|j: int| 0 <= j < i ==> (#[trigger] h[j]).0 != c,
    ensures
        hist_count(h, c) == h[i].1 as int,
    decreases i,
{
    if i == 0 {
    } else {
        assert(h.drop_first() =~= h.skip(1));
        lemma_hist_count_at(h.drop_first(), c, i - 1);
        assert forall|j: int| 0 <= j < i - 1 implies (#[trigger] h.drop_first()[j]).0 != c by {
            assert(h.drop_first()[j] == h[j + 1]);
        }
    }
}

proof fn lemma_hist_count_update(h: Seq<(Codes, usize)>, c: Codes, i: int, n: usize)
    requires
        0 <= i < h.len(),
        h[i].0 == c,
        forall|j: int| 0 <= j < i ==> (#[trigger] h[j]).0 != c,
    ensures
        hist_count(h.update(i, (c, n)), c) == n as int,
        forall|d: Codes| d != c ==> hist_count(h.update(i, (c, n)), d) == hist_count(h, d),
    decreases i,
{
    let u = h.update(i, (c, n));
    if i == 0 {
        assert(u[0] == (c, n));
        assert forall|d: Codes| d != c implies hist_count(u, d) == hist_count(h, d) by {
            assert(u.drop_first() =~= h.drop_first());
            assert(hist_count(u, d) == hist_count(u.drop_first(), d));
            if h[0].0 == d {
                assert(hist_count(h, d) == h[0].1 as int);
            } else {
                assert(hist_count(h, d) == hist_count(h.drop_first(), d));
            }
        }
    } else {
        assert(u[0] == h[0]);
        assert(h[0].0 != c);
        let ht = h.drop_first();
        assert forall|j: int| 0 <= j < i - 1 implies (#[trigger] ht[j]).0 != c by {
            assert(ht[j] == h[j + 1]);
        }
        lemma_hist_count_update(ht, c, i - 1, n);
        assert(u.drop_first() =~= ht.update(i - 1, (c, n)));
        assert(hist_count(u, c) == hist_count(ht.update(i - 1, (c, n)), c));
        assert forall|d: Codes| d != c implies hist_count(u, d) == hist_count(h, d) by {
            if h[0].0 == d {
                assert(hist_count(u, d) == u[0].1 as int);
                assert(hist_count(h, d) == h[0].1 as int);
            } else {
                assert(hist_count(u, d) == hist_count(ht.update(i - 1, (c, n)), d));
                assert(hist_count(h, d) == hist_count(ht, d));
            }
        }
    }
}

proof fn lemma_hist_count_push(h: Seq<(Codes, usize)>, c: Codes, n: usize)
    requires
        forall|j: int| 0 <= j < h.len() ==> (#[trigger] h[j]).0 != c,
    ensures
        hist_count(h.push((c, n)), c) == n as int,
        forall|d: Codes| d != c ==> hist_count(h.push((c, n)), d) == hist_count(h, d),
    decreases h.len(),
{
    let u = h.push((c, n));
    if h.len() == 0 {
        assert(u[0] == (c, n));
        assert forall|d: Codes| d != c implies hist_count(u, d) == hist_count(h, d) by {
            assert(hist_count(u, d) == hist_count(u.drop_first(), d));
            assert(u.drop_first() =~= Seq::<(Codes, usize)>::empty());
            assert(hist_count(u.drop_first(), d) == 0);
        }
    } else {
        assert(u[0] == h[0]);
        assert(h[0].0 != c);
        let ht = h.drop_first();
        assert forall|j: int| 0 <= j < ht.len() implies (#[trigger] ht[j]).0 != c by {
            assert(ht[j] == h[j + 1]);
        }
        lemma_hist_count_push(ht, c, n);
        assert(u.drop_first() =~= ht.push((c, n)));
        assert(hist_count(u, c) == hist_count(ht.push((c, n)), c));
        assert forall|d: Codes| d != c implies hist_count(u, d) == hist_count(h, d) by {
            if h[0].0 == d {
                assert(hist_count(u, d) == u[0].1 as int);
                assert(hist_count(h, d) == h[0].1 as int);
            } else {
                assert(hist_count(u, d) == hist_count(ht.push((c, n)), d));
                assert(hist_count(h, d) == hist_count(ht, d));
            }
        }
    }
}

/// The count that the repetition history records for `*c`.
fn history_count(h: &Vec<(Codes, usize)>, c: &Codes) -> (n: usize)
    ensures
        n as int == hist_count(h@, *c),
{
    let mut i: usize = 0;
    proof {
        assert(h@.skip(0) =~= h@);
    }
    while i < h.len()
        invariant
            i <= h@.len(),
            hist_count(h@, *c) == hist_count(h@.skip(i as int), *c),
            forall|j: int| 0 <= j < i ==> (#[trigger] h@[j]).0 != *c,
        decreases h@.len() - i,
    {
        let entry = h[i];
        if entry.0 == *c {
            proof {
                lemma_hist_count_at(h@, *c, i as int);
            }
            return entry.1;
        }
        proof {
            lemma_hist_count_skip_step(h@, *c, i as int);
        }
        i += 1;
    }
    proof {
        assert(h@.skip(i as int) =~= Seq::<(Codes, usize)>::empty());
    }
    0
}

/// Record one more visit of state `c`.
fn record(h: &mut Vec<(Codes, usize)>, c: Codes)
    requires
        hist_count(old(h)@, c) < usize::MAX,
    ensures
        hist_count(final(h)@, c) == hist_count(old(h)@, c) + 1,
        forall|d: Codes| d != c ==> hist_count(final(h)@, d) == hist_count(old(h)@, d),
{
    let mut i: usize = 0;
    proof {
        assert(h@.skip(0) =~= h@);
    }
    while i < h.len()
        invariant
            i <= h@.len(),
            h@ == old(h)@,
            hist_count(h@, c) < usize::MAX,
            hist_count(h@, c) == hist_count(h@.skip(i as int), c),
            forall|j: int| 0 <= j < i ==> (#[trigger] h@[j]).0 != c,
        decreases h@.len() - i,
    {
        let entry = h[i];
        if entry.0 == c {
            proof {
                lemma_hist_count_at(h@, c, i as int);
            }
            let bumped: usize = entry.1 + 1;
            proof {
                lemma_hist_count_update(h@, c, i as int, bumped);
            }
            h.set(i, (c, bumped));
            return ;
        }
        proof {
            lemma_hist_count_skip_step(h@, c, i as int);
        }
        i += 1;
    }
    proof {
        assert(h@.skip(i as int) =~= Seq::<(Codes, usize)>::empty());
        lemma_hist_count_push(h@, c, 1);
    }
    h.push((c, 1));
}

#[derive(Clone, Copy, PartialEq, Eq, Structural, Debug)]
pub enum Status {
    WhiteWins,
    BlackWins,
    Draw,
    OnGoing,
}

/// The position every game starts from: White's five pieces on row 0, Black's
/// on row 5, all stack counters zero, White to move.
pub open spec fn initial_codes(c: Codes) -> bool {
    &&& c.wf()
    &&& c.turn() == Color::White
    &&& forall|i: int| 0 <= i < 5 ==> c.side_pairs(Color::White)[i] == (i, 0int)
    &&& forall|i: int| 0 <= i < 5 ==> c.side_pairs(Color::Black)[i] == (25 + i, 0int)
}

/// One game: the current canonical state and the repetition history.
pub struct Game {
    pub codes: Codes,
    pub history: Vec<(Codes, usize)>,
}

impl Game {
    pub open spec fn wf(&self) -> bool {
        self.codes.wf()
    }

    pub fn new() -> (g: Self)
        ensures
            g.wf(),
            initial_codes(g.codes),
            g.history@.len() == 0,
    {
        let codes = Codes::from_slices(
            &[0, 1, 2, 3, 4],
            &[0, 0, 0, 0, 0],
            &[25, 26, 27, 28, 29],
            &[0, 0, 0, 0, 0],
        );
        let history: Vec<(Codes, usize)> = Vec::new();
        Game { codes, history }
    }

    pub fn init(&mut self)
        ensures
            final(self).wf(),
            initial_codes(final(self).codes),
            final(self).history@.len() == 0,
    {
        self.codes = Codes::from_slices(
            &[0, 1, 2, 3, 4],
            &[0, 0, 0, 0, 0],
            &[25, 26, 27, 28, 29],
            &[0, 0, 0, 0, 0],
        );
        self.history = Vec::new();
    }

    /// Validate the move selector `dir` against `codes` without touching the
    /// session: either the distinguished rejection, a win for the mover over
    /// the far edge, or the canonical state after the move, marked `Draw`
    /// when the history already records it twice.
    #[verifier::loop_isolation(false)]
    pub fn is_valid(&self, codes: Codes, dir: usize) -> (r: Result<(Status, Codes), ()>)
        requires
            codes.wf(),
        ensures
            (r is Err) <==> move_rejected(codes, dir as int),
            move_wins(codes, dir as int) ==> r == Ok::<(Status, Codes), ()>(
                (
                    match codes.turn() {
                        Color::White => Status::WhiteWins,
                        Color::Black => Status::BlackWins,
                    },
                    codes,
                ),
            ),
            move_advances(codes, dir as int) ==> (match r {
                Ok((st, c2)) => {
                    &&& applied_state(codes, dir as int, c2)
                    &&& st == (if hist_count(self.history@, c2) >= 2 {
                        Status::Draw
                    } else {
                        Status::OnGoing
                    })
                },
                Err(_) => false,
            }),
    {
        let mut c = codes;
        let turn = c.to_turn();
        let obj: usize = dir / 8;
        if obj >= 5 {
            return Err(());
        }
        let delta = dir_delta(dir % 8);
        let dy: i32 = delta.0;
        let dx: i32 = delta.1;
        let (pos, step) = match turn {
            Color::White => (c.w_pos, c.w_step),
            Color::Black => (c.b_pos, c.b_step),
        };
        let p0: i32 = pos.get_point(obj);
        let p0u: u32 = p0 as u32;
        let y0: i32 = (p0u / 5) as i32;
        let x0: i32 = (p0u % 5) as i32;
        let y1: i32 = y0 + dy;
        let x1: i32 = x0 + dx;
        proof {
            assert(p0 as int == move_origin(codes, dir as int));
            assert(y1 as int == dest_row(codes, dir as int));
            assert(x1 as int == dest_col(codes, dir as int));
        }
        if x1 < 0 || x1 > 4 {
            return Err(());
        }
        if y1 == -1 {
            match turn {
                Color::Black => {
                    return Ok((Status::BlackWins, c));
                },
                Color::White => {
                    return Err(());
                },
            }
        }
        if y1 == 6 {
            match turn {
                Color::White => {
                    return Ok((Status::WhiteWins, c));
                },
                Color::Black => {
                    return Err(());
                },
            }
        }
        if y1 >= 7 {
            // the addressed piece already stands off the board
            return Err(());
        }
        let p1: i32 = y1 * 5 + x1;
        let mut s0: i32 = -1;
        let mut s1: i32 = -1;
        let mut i: usize = 0;
        while i < 5
            invariant
                i <= 5,
                -1 <= s0 <= 2 * i - 1,
                -1 <= s1 <= 2 * i - 1,
                s0 as int == count_at(codes.w_positions(), p0 as int, i as int) + count_at(
                    codes.b_positions(),
                    p0 as int,
                    i as int,
                ) - 1,
                s1 as int == count_at(codes.w_positions(), p1 as int, i as int) + count_at(
                    codes.b_positions(),
                    p1 as int,
                    i as int,
                ) - 1,
            decreases 5 - i,
        {
            if c.w_pos.get_point(i) == p0 {
                s0 += 1;
            }
            if c.b_pos.get_point(i) == p0 {
                s0 += 1;
            }
            if c.w_pos.get_point(i) == p1 {
                s1 += 1;
            }
            if c.b_pos.get_point(i) == p1 {
                s1 += 1;
            }
            i += 1;
        }
        proof {
            assert(s0 as int == occupancy(codes, p0 as int) - 1);
            assert(s1 as int == occupancy(codes, p1 as int) - 1);
        }
        let sobj: i32 = step.get_point(obj);
        if s0 > sobj || s1 > 0 {
            return Err(());
        }
        match turn {
            Color::White => {
                c.w_pos.set_point(p1, obj);
                c.w_step.set_point(s1 + 1, obj);
                proof {
                    assert(c.side_pairs(Color::White) =~= moved_pairs(codes, dir as int));
                }
                c.sort(Color::White);
            },
            Color::Black => {
                c.b_pos.set_point(p1, obj);
                c.b_step.set_point(s1 + 1, obj);
                proof {
                    assert(c.side_pairs(Color::Black) =~= moved_pairs(codes, dir as int));
                }
                c.sort(Color::Black);
            },
        }
        c.next_turn();
        let n: usize = history_count(&self.history, &c);
        if n >= 2 {
            return Ok((Status::Draw, c));
        }
        Ok((Status::OnGoing, c))
    }

    /// Play one move: validate it against the current state, commit the new
    /// state and record its visit when the game goes on, and hand the
    /// resulting status up. A win or a draw leaves the session untouched.
    pub fn next(&mut self, dir: usize) -> (r: Result<Status, ()>)
        requires
            old(self).wf(),
        ensures
            final(self).wf(),
            (r is Err) <==> move_rejected(old(self).codes, dir as int),
            (r is Err) ==> *final(self) == *old(self),
            move_wins(old(self).codes, dir as int) ==> *final(self) == *old(self) && r
                == Ok::<Status, ()>(
                match old(self).codes.turn() {
                    Color::White => Status::WhiteWins,
                    Color::Black => Status::BlackWins,
                },
            ),
            move_advances(old(self).codes, dir as int) ==> (match r {
                Ok(Status::OnGoing) => {
                    &&& applied_state(old(self).codes, dir as int, final(self).codes)
                    &&& hist_count(old(self).history@, final(self).codes) < 2
                    &&& hist_count(final(self).history@, final(self).codes) == hist_count(
                        old(self).history@,
                        final(self).codes,
                    ) + 1
                    &&& forall|d: Codes|
                        d != final(self).codes ==> hist_count(final(self).history@, d)
                            == hist_count(old(self).history@, d)
                },
                Ok(Status::Draw) => {
                    &&& *final(self) == *old(self)
                    &&& exists|c2: Codes|
                        applied_state(old(self).codes, dir as int, c2) && hist_count(
                            old(self).history@,
                            c2,
                        ) >= 2
                },
                _ => false,
            }),
    {
        match self.is_valid(self.codes, dir) {
            Ok((Status::OnGoing, codes)) => {
                self.move_unchecked(codes);
                record(&mut self.history, codes);
                Ok(Status::OnGoing)
            },
            Ok((s, _)) => Ok(s),
            Err(_) => Err(()),
        }
    }

    /// Replace the current state without any check.
    pub fn move_unchecked(&mut self, codes: Codes)
        requires
            codes.wf(),
        ensures
            final(self).wf(),
            final(self).codes == codes,
            final(self).history@ == old(self).history@,
    {
        self.codes = codes;
    }
}

/// Law: a move whose destination column leaves the board is rejected,
/// whatever the state, the turn, and the piece.
pub proof fn lemma_edge_column_invalid(c: Codes, dir: int)
    requires
        c.wf(),
        !(0 <= dest_col(c, dir) <= 4),
    ensures
        move_rejected(c, dir),
{
}

/// Law, White's half: on White's turn a move over row -1 is rejected, while
/// a move over row 6 that stays within the columns wins for White.
pub proof fn lemma_win_asymmetry_white(c: Codes, dir: int)
    requires
        c.wf(),
        c.turn() == Color::White,
        rank_ok(dir),
        col_ok(c, dir),
    ensures
        dest_row(c, dir) == -1 ==> move_rejected(c, dir),
        dest_row(c, dir) == 6 ==> move_wins(c, dir),
{
}

/// Law, Black's half: on Black's turn a move over row 6 is rejected, and a
/// move over row -1 wins for Black.
pub proof fn lemma_win_asymmetry_black(c: Codes, dir: int)
    requires
        c.wf(),
        c.turn() == Color::Black,
        rank_ok(dir),
        col_ok(c, dir),
    ensures
        dest_row(c, dir) == 6 ==> move_rejected(c, dir),
        dest_row(c, dir) == -1 ==> move_wins(c, dir),
{
}

/// Law: a move onto a cell that already holds two pieces is rejected, no
/// matter the mover's own stack counter.
pub proof fn lemma_stack_cap(c: Codes, dir: int)
    requires
        c.wf(),
        rank_ok(dir),
        col_ok(c, dir),
        0 <= dest_row(c, dir) <= 5,
        occupancy(c, dest_cell(c, dir)) >= 2,
    ensures
        move_rejected(c, dir),
{
}

/// The canonical state after a move is one single value: `applied_state`
/// pins it, so the draw decision in `next` depends on nothing but the move.
pub proof fn lemma_applied_state_unique(c: Codes, dir: int, c2: Codes, c3: Codes)
    requires
        applied_state(c, dir, c2),
        applied_state(c, dir, c3),
    ensures
        c2 == c3,
{
    crate::code::lemma_pair_le_total();
    vstd::seq_lib::lemma_sorted_unique(
        c2.side_pairs(c.turn()),
        c3.side_pairs(c.turn()),
        crate::code::pair_le_fn(),
    );
    match c.turn() {
        Color::White => {
            assert(c2.side_pairs(Color::Black) =~= c3.side_pairs(Color::Black));
        },
        Color::Black => {
            assert forall|i: int| 0 <= i < 5 implies c2.side_pairs(Color::White)[i]
                == c3.side_pairs(Color::White)[i] by {
                assert(c2.w_steps()[i] == c.w_steps()[i]);
                assert(c3.w_steps()[i] == c.w_steps()[i]);
            }
            assert(c2.side_pairs(Color::White) =~= c3.side_pairs(Color::White));
        },
    }
    crate::code::lemma_codes_determined(c2, c3);
}

} // verus!
