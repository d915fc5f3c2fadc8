//! Hex grid geometry shared by the Exquis, Lumatone and Wooting layouts.
//!
//! Every grid uses one doubled-y hex lattice: `x` is the row, `y` the lateral
//! position, and the six neighbours of a cell lie at `(0, ±2)` and `(±1, ±1)`.
use vstd::prelude::*;
use crate::text::{chars_of, eq_str, to_lowercase, unicode_lower};

verus! {

/// The six neighbour offsets of a cell in the doubled-y lattice.
pub const HEX_NEIGHBOR_DELTAS: [(i32, i32); 6] = [(0, -2), (0, 2), (-1, -1), (-1, 1), (1, -1), (1, 1)];

/// A pad of a board and its lattice position.
#[derive(Debug, Clone, Copy)]
pub struct GridKey {
    pub key: u8,
    pub x: i32,
    pub y: i32,
}

/// Board `n + 1` of a row of Exquis boards lies one row down ...
pub const EXQUIS_BOARD_STRIDE_X: i32 = -1;

/// ... and eleven lateral units to the right of board `n`.
pub const EXQUIS_BOARD_STRIDE_Y: i32 = 11;

/// Pads on one Exquis board: eleven rows alternating six and five pads.
pub const EXQUIS_PADS: usize = 61;

/// Row of Exquis pad `p` (0 is the bottom row): every eleven pads make a
/// pair of rows, six pads in the even row and five in the odd one.
pub open spec fn exquis_row(p: int) -> int {
    2 * (p / 11) + (if p % 11 >= 6 { 1int } else { 0int })
}

/// Lateral position of Exquis pad `p` on its board: even rows sit at
/// `0, 2, .., 10`, odd rows at `1, 3, .., 9`.
pub open spec fn exquis_lateral(p: int) -> int {
    if p % 11 >= 6 { 2 * (p % 11) - 11 } else { 2 * (p % 11) }
}

/// Lattice row of pad `p` on Exquis board `b`.
pub open spec fn exquis_x(b: int, p: int) -> int {
    exquis_row(p) + b * EXQUIS_BOARD_STRIDE_X
}

/// Lattice lateral position of pad `p` on Exquis board `b`.
pub open spec fn exquis_y(b: int, p: int) -> int {
    exquis_lateral(p) + b * EXQUIS_BOARD_STRIDE_Y
}

/// The pads of Exquis board `b` as `(pad, x, y)` triples, in pad order.
pub open spec fn exquis_board(b: int) -> Seq<(u8, i32, i32)> {
    Seq::new(61, |p: int| (p as u8, exquis_x(b, p) as i32, exquis_y(b, p) as i32))
}

/// The pads of Exquis board `board_idx` in pad order, each with its lattice
/// position.
pub fn exquis_board_tuples(board_idx: u8) -> (r: Vec<GridKey>)
    ensures
        r.len() == EXQUIS_PADS,
        forall|p: int|
            0 <= p < 61 ==> {
                &&& (#[trigger] r@[p]).key == p
                &&& r@[p].x == exquis_x(board_idx as int, p)
                &&& r@[p].y == exquis_y(board_idx as int, p)
            },
{
    let b: i32 = board_idx as i32;
    let x_offset: i32 = b * EXQUIS_BOARD_STRIDE_X;
    let y_offset: i32 = b * EXQUIS_BOARD_STRIDE_Y;
    let mut out: Vec<GridKey> = Vec::new();
    let mut pad: u8 = 0;
    while pad < 61
        invariant
            pad <= 61,
            out.len() == pad,
            x_offset == -b,
            y_offset == 11 * b,
            b == board_idx,
            0 <= b <= 255,
            forall|p: int|
                0 <= p < pad ==> {
                    &&& (#[trigger] out@[p]).key == p
                    &&& out@[p].x == exquis_x(b as int, p)
                    &&& out@[p].y == exquis_y(b as int, p)
                },
        decreases 61 - pad,
    {
        let pair: i32 = (pad / 11) as i32;
        let m: i32 = (pad % 11) as i32;
        assert(0 <= pair <= 5 && 0 <= m <= 10);
        let row: i32 = if m >= 6 { 2 * pair + 1 } else { 2 * pair };
        let lateral: i32 = if m >= 6 { 2 * m - 11 } else { 2 * m };
        out.push(GridKey { key: pad, x: row + x_offset, y: lateral + y_offset });
        pad = pad + 1;
    }
    out
}

/// Pads of Lumatone board 0 as `(pad, x, y)`; board `k` is this table moved
/// by `k * (2, 12)`.
pub const LTN_BOARD0_TUPLES: [(u8, i32, i32); 56] = [
    (0, 0, 0), (1, 0, 2), (2, 1, 1), (3, 1, 3), (4, 1, 5), (5, 1, 7),
    (6, 1, 9), (7, 2, 0), (8, 2, 2), (9, 2, 4), (10, 2, 6), (11, 2, 8),
    (12, 2, 10), (13, 3, 1), (14, 3, 3), (15, 3, 5), (16, 3, 7), (17, 3, 9),
    (18, 3, 11), (19, 4, 0), (20, 4, 2), (21, 4, 4), (22, 4, 6), (23, 4, 8),
    (24, 4, 10), (25, 5, 1), (26, 5, 3), (27, 5, 5), (28, 5, 7), (29, 5, 9),
    (30, 5, 11), (31, 6, 0), (32, 6, 2), (33, 6, 4), (34, 6, 6), (35, 6, 8),
    (36, 6, 10), (37, 7, 1), (38, 7, 3), (39, 7, 5), (40, 7, 7), (41, 7, 9),
    (42, 7, 11), (43, 8, 0), (44, 8, 2), (45, 8, 4), (46, 8, 6), (47, 8, 8),
    (48, 8, 10), (49, 9, 3), (50, 9, 5), (51, 9, 7), (52, 9, 9), (53, 9, 11),
    (54, 10, 8), (55, 10, 10),
];

/// Board-to-board shift of the Lumatone lattice.
pub const LTN_BOARD_SHIFT: (i32, i32) = (2, 12);

/// Pads of the upper Wooting board as `(cell, x, y)`.
pub const WTN_BOARD0_TUPLES: [(u8, i32, i32); 53] = [
    (0, 0, 1), (1, 0, 3), (2, 0, 5), (3, 0, 7), (4, 0, 9), (5, 0, 11),
    (6, 0, 13), (7, 0, 15), (8, 0, 17), (9, 0, 19), (10, 0, 21), (11, 0, 23),
    (12, 1, 0), (13, 1, 2), (14, 1, 4), (15, 1, 6), (16, 1, 8), (17, 1, 10),
    (18, 1, 12), (19, 1, 14), (20, 1, 16), (21, 1, 18), (22, 1, 20), (23, 1, 22),
    (24, 1, 24), (25, 2, -1), (26, 2, 1), (27, 2, 3), (28, 2, 5), (29, 2, 7),
    (30, 2, 9), (31, 2, 11), (32, 2, 13), (33, 2, 15), (34, 2, 17), (35, 2, 19),
    (36, 2, 21), (37, 2, 23), (38, 2, 25), (39, 3, 0), (40, 3, 2), (41, 3, 4),
    (42, 3, 6), (43, 3, 8), (44, 3, 10), (45, 3, 12), (46, 3, 14), (47, 3, 16),
    (48, 3, 18), (49, 3, 20), (50, 3, 22), (51, 3, 24), (52, 3, 26),
];

/// Pads of the lower Wooting board as `(cell, x, y)`.
pub const WTN_BOARD1_TUPLES: [(u8, i32, i32); 53] = [
    (0, 4, -5), (1, 4, -3), (2, 4, -1), (3, 4, 1), (4, 4, 3), (5, 4, 5),
    (6, 4, 7), (7, 4, 9), (8, 4, 11), (9, 4, 13), (10, 4, 15), (11, 4, 17),
    (12, 4, 19), (13, 4, 21), (14, 5, -4), (15, 5, -2), (16, 5, 0), (17, 5, 2),
    (18, 5, 4), (19, 5, 6), (20, 5, 8), (21, 5, 10), (22, 5, 12), (23, 5, 14),
    (24, 5, 16), (25, 5, 18), (26, 5, 20), (27, 5, 22), (28, 6, -3), (29, 6, -1),
    (30, 6, 1), (31, 6, 3), (32, 6, 5), (33, 6, 7), (34, 6, 9), (35, 6, 11),
    (36, 6, 13), (37, 6, 15), (38, 6, 17), (39, 6, 19), (40, 6, 21), (41, 7, -2),
    (42, 7, 0), (43, 7, 2), (44, 7, 4), (45, 7, 6), (46, 7, 8), (47, 7, 10),
    (48, 7, 12), (49, 7, 14), (50, 7, 16), (51, 7, 18), (52, 7, 20),
];

/// Board-to-board shift in the Wooting lattice: `(rows, doubled-y)`.
pub const WTN_BOARD_SHIFT: (i32, i32) = (4, -6);

/// `s` with every position moved by `(dx, dy)`.
pub open spec fn shifted(s: Seq<(u8, i32, i32)>, dx: int, dy: int) -> Seq<(u8, i32, i32)> {
    Seq::new(s.len(), |i: int| (s[i].0, (s[i].1 + dx) as i32, (s[i].2 + dy) as i32))
}

/// Lumatone board `k`: board 0 moved `k` times by `LTN_BOARD_SHIFT`.
pub open spec fn ltn_board(k: int) -> Seq<(u8, i32, i32)> {
    shifted(LTN_BOARD0_TUPLES@, 2 * k, 12 * k)
}

fn table_vec(t: &[(u8, i32, i32)]) -> (r: Vec<(u8, i32, i32)>)
    ensures
        r@ == t@,
{
    let mut r: Vec<(u8, i32, i32)> = Vec::new();
    let mut i: usize = 0;
    while i < t.len()
        invariant
            i <= t.len(),
            r@ == t@.subrange(0, i as int),
        decreases t.len() - i,
    {
        r.push(t[i]);
        i = i + 1;
        assert(r@ == t@.subrange(0, i as int));
    }
    r
}

fn shifted_vec(t: &[(u8, i32, i32)], dx: i32, dy: i32) -> (r: Vec<(u8, i32, i32)>)
    requires
        forall|i: int| 0 <= i < t@.len() ==> i32::MIN <= #[trigger] t@[i].1 + dx <= i32::MAX && i32::MIN <= t@[i].2 + dy <= i32::MAX,
    ensures
        r@ == shifted(t@, dx as int, dy as int),
{
    let mut r: Vec<(u8, i32, i32)> = Vec::new();
    let mut i: usize = 0;
    while i < t.len()
        invariant
            i <= t.len(),
            forall|j: int| 0 <= j < t@.len() ==> i32::MIN <= #[trigger] t@[j].1 + dx <= i32::MAX && i32::MIN <= t@[j].2 + dy <= i32::MAX,
            r@ == shifted(t@, dx as int, dy as int).subrange(0, i as int),
        decreases t.len() - i,
    {
        let (p, x, y) = t[i];
        r.push((p, x + dx, y + dy));
        i = i + 1;
        assert(r@ == shifted(t@, dx as int, dy as int).subrange(0, i as int));
    }
    assert(r@ == shifted(t@, dx as int, dy as int));
    r
}

/// The five Lumatone boards, board `k` being board 0 moved by
/// `k * LTN_BOARD_SHIFT`.
pub fn ltn_boards_tuples() -> (r: Vec<Vec<(u8, i32, i32)>>)
    ensures
        r.len() == 5,
        forall|k: int| 0 <= k < 5 ==> (#[trigger] r@[k])@ == ltn_board(k),
{
    let mut r: Vec<Vec<(u8, i32, i32)>> = Vec::new();
    let mut k: i32 = 0;
    while k < 5
        invariant
            0 <= k <= 5,
            r.len() == k,
            forall|j: int| 0 <= j < k ==> (#[trigger] r@[j])@ == ltn_board(j),
        decreases 5 - k,
    {
        assert forall|i: int| 0 <= i < 56 implies
            i32::MIN <= #[trigger] LTN_BOARD0_TUPLES@[i].1 + k * 2 <= i32::MAX
            && i32::MIN <= LTN_BOARD0_TUPLES@[i].2 + k * 12 <= i32::MAX by {
            assert(0 <= LTN_BOARD0_TUPLES@[i].1 <= 10 && 0 <= LTN_BOARD0_TUPLES@[i].2 <= 11);
        }
        let board = shifted_vec(&LTN_BOARD0_TUPLES, k * 2, k * 12);
        r.push(board);
        k = k + 1;
    }
    r
}

/// The two Wooting boards.
pub fn wtn_boards_tuples() -> (r: Vec<Vec<(u8, i32, i32)>>)
    ensures
        r.len() == 2,
        r@[0]@ == WTN_BOARD0_TUPLES@,
        r@[1]@ == WTN_BOARD1_TUPLES@,
{
    let mut r: Vec<Vec<(u8, i32, i32)>> = Vec::new();
    r.push(table_vec(&WTN_BOARD0_TUPLES));
    r.push(table_vec(&WTN_BOARD1_TUPLES));
    r
}

/// Whether `(x, y)` is a cell of the doubled-y lattice.
pub open spec fn on_lattice(x: int, y: int) -> bool {
    (x - y) % 2 == 0
}

/// Cube coordinates `(q, r, s)` of the doubled-y point `(x, y)`, rounding
/// `r` down where `(x, y)` is off the lattice.
pub open spec fn cube_of(x: int, y: int) -> (int, int, int) {
    (x, (y - x) / 2, -x - (y - x) / 2)
}

/// The doubled-y point of cube coordinates `c`.
pub open spec fn doubled_of(c: (int, int, int)) -> (int, int) {
    (c.0, 2 * c.1 + c.0)
}

/// One turn of 60 degrees in cube coordinates.
pub open spec fn turn(c: (int, int, int)) -> (int, int, int) {
    (-c.1, -c.2, -c.0)
}

/// `k` turns of 60 degrees.
pub open spec fn turns(c: (int, int, int), k: nat) -> (int, int, int)
    decreases k,
{
    if k == 0 {
        c
    } else {
        turn(turns(c, (k - 1) as nat))
    }
}

/// `(x, y)` turned by `steps` times 60 degrees around the origin.
pub open spec fn rotated(x: int, y: int, steps: int) -> (int, int) {
    doubled_of(turns(cube_of(x, y), (steps % 6) as nat))
}

pub open spec fn fits_i32(v: int) -> bool {
    i32::MIN <= v <= i32::MAX
}

/// Whether every intermediate value of the rotation of `(x, y)` by `steps`
/// fits in an `i32`.
pub open spec fn rotation_fits(x: int, y: int, steps: int) -> bool {
    let c = cube_of(x, y);
    let f = turns(c, (steps % 6) as nat);
    &&& fits_i32(y - x)
    &&& fits_i32(-x)
    &&& fits_i32(c.2)
    &&& (steps % 6 != 0 ==> c.0 != i32::MIN && c.1 != i32::MIN && c.2 != i32::MIN)
    &&& fits_i32(2 * f.1)
    &&& fits_i32(2 * f.1 + f.0)
}

fn doubled_y_to_cube(x: i32, y: i32) -> (c: (i32, i32, i32))
    requires
        fits_i32(y - x),
        fits_i32(-x),
        fits_i32(cube_of(x as int, y as int).2),
    ensures
        (c.0 as int, c.1 as int, c.2 as int) == cube_of(x as int, y as int),
{
    let q = x;
    let r = match (y - x).checked_div_euclid(2) {
        Some(v) => v,
        None => 0,
    };
    let s = -q - r;
    (q, r, s)
}

fn cube_to_doubled_y(q: i32, r: i32) -> (p: (i32, i32))
    requires
        fits_i32(2 * r),
        fits_i32(2 * r + q),
    ensures
        (p.0 as int, p.1 as int) == doubled_of((q as int, r as int, 0)),
{
    (q, 2 * r + q)
}

/// The signed values of `c` reachable by turning it.
pub open spec fn among(v: int, c: (int, int, int)) -> bool {
    v == c.0 || v == c.1 || v == c.2 || v == -c.0 || v == -c.1 || v == -c.2
}

proof fn lemma_turns_among(c: (int, int, int), k: nat)
    ensures
        among(turns(c, k).0, c),
        among(turns(c, k).1, c),
        among(turns(c, k).2, c),
    decreases k,
{
    if k > 0 {
        lemma_turns_among(c, (k - 1) as nat);
    }
}

/// Rotate the lattice point `(x, y)` by `steps` times 60 degrees around the
/// origin.
pub fn rotate_hex(x: i32, y: i32, steps: i32) -> (r: (i32, i32))
    requires
        rotation_fits(x as int, y as int, steps as int),
    ensures
        (r.0 as int, r.1 as int) == rotated(x as int, y as int, steps as int),
{
    let ghost c0 = cube_of(x as int, y as int);
    let (mut q, mut r, mut s) = doubled_y_to_cube(x, y);
    let k: i32 = match steps.checked_rem_euclid(6) {
        Some(v) => v,
        None => 0,
    };
    assert(k == steps % 6);
    let mut i: i32 = 0;
    while i < k
        invariant
            0 <= i <= k,
            k == steps % 6,
            0 <= k < 6,
            fits_i32(c0.0) && fits_i32(c0.1) && fits_i32(c0.2),
            k != 0 ==> c0.0 != i32::MIN && c0.1 != i32::MIN && c0.2 != i32::MIN,
            (q as int, r as int, s as int) == turns(c0, i as nat),
        decreases k - i,
    {
        proof {
            lemma_turns_among(c0, i as nat);
        }
        let nq = -r;
        let nr = -s;
        let ns = -q;
        q = nq;
        r = nr;
        s = ns;
        i = i + 1;
    }
    cube_to_doubled_y(q, r)
}

proof fn lemma_turns_add(c: (int, int, int), a: nat, b: nat)
    ensures
        turns(turns(c, a), b) == turns(c, a + b),
    decreases b,
{
    if b > 0 {
        lemma_turns_add(c, a, (b - 1) as nat);
    }
}

proof fn lemma_six_turns(c: (int, int, int))
    ensures
        turns(c, 6) == c,
{
    reveal_with_fuel(turns, 7);
}

proof fn lemma_turns_mod(c: (int, int, int), n: nat)
    ensures
        turns(c, n) == turns(c, n % 6),
    decreases n,
{
    if n >= 6 {
        lemma_turns_mod(c, (n - 6) as nat);
        lemma_turns_add(c, 6, (n - 6) as nat);
        lemma_six_turns(c);
        assert((n - 6) as nat % 6 == n % 6);
    }
}

proof fn lemma_turns_balanced(c: (int, int, int), k: nat)
    requires
        c.0 + c.1 + c.2 == 0,
    ensures
        turns(c, k).0 + turns(c, k).1 + turns(c, k).2 == 0,
    decreases k,
{
    if k > 0 {
        lemma_turns_balanced(c, (k - 1) as nat);
    }
}

proof fn lemma_turns_linear(c: (int, int, int), d: (int, int, int), k: nat)
    ensures
        turns((c.0 + d.0, c.1 + d.1, c.2 + d.2), k) == (
            turns(c, k).0 + turns(d, k).0,
            turns(c, k).1 + turns(d, k).1,
            turns(c, k).2 + turns(d, k).2,
        ),
    decreases k,
{
    if k > 0 {
        lemma_turns_linear(c, d, (k - 1) as nat);
    }
}

/// Going to cube coordinates and back gives every lattice point back.
pub proof fn lemma_cube_round_trip(x: int, y: int)
    requires
        on_lattice(x, y),
    ensures
        doubled_of(cube_of(x, y)) == (x, y),
{
}

/// Cube coordinates of a lattice point and back give those coordinates back.
proof fn lemma_doubled_round_trip(c: (int, int, int))
    requires
        c.0 + c.1 + c.2 == 0,
    ensures
        cube_of(doubled_of(c).0, doubled_of(c).1) == c,
        on_lattice(doubled_of(c).0, doubled_of(c).1),
{
    assert((2 * c.1 + c.0 - c.0) / 2 == c.1);
}

/// A rotation always lands on the lattice.
pub proof fn lemma_rotation_stays_on_lattice(x: int, y: int, steps: int)
    ensures
        on_lattice(rotated(x, y, steps).0, rotated(x, y, steps).1),
{
    let f = turns(cube_of(x, y), (steps % 6) as nat);
    assert(f.0 - (2 * f.1 + f.0) == -2 * f.1);
}

/// Turning by no step leaves a lattice point where it is.
pub proof fn lemma_rotate_zero_is_identity(x: int, y: int)
    requires
        on_lattice(x, y),
    ensures
        rotated(x, y, 0) == (x, y),
{
}

/// Turning by six more steps (a full circle) changes nothing.
pub proof fn lemma_rotate_full_circle(x: int, y: int, steps: int)
    ensures
        rotated(x, y, steps + 6) == rotated(x, y, steps),
{
    assert((steps + 6) % 6 == steps % 6);
}

/// Turning by `a` steps and then by `b` steps is turning by `a + b` steps.
pub proof fn lemma_rotate_compose(x: int, y: int, a: int, b: int)
    requires
        on_lattice(x, y),
    ensures
        rotated(rotated(x, y, a).0, rotated(x, y, a).1, b) == rotated(x, y, a + b),
{
    let c = cube_of(x, y);
    let ka = (a % 6) as nat;
    let kb = (b % 6) as nat;
    let fa = turns(c, ka);
    lemma_turns_balanced(c, ka);
    lemma_doubled_round_trip(fa);
    lemma_turns_add(c, ka, kb);
    lemma_turns_mod(c, ka + kb);
    assert((ka + kb) % 6 == (a + b) % 6) by {
        vstd::arithmetic::div_mod::lemma_add_mod_noop(a, b, 6);
    }
}

/// Rotation is linear on the lattice: the turn of a sum of lattice points is
/// the sum of their turns.
pub proof fn lemma_rotate_linear(x1: int, y1: int, x2: int, y2: int, steps: int)
    requires
        on_lattice(x1, y1),
        on_lattice(x2, y2),
    ensures
        rotated(x1 + x2, y1 + y2, steps) == (
            rotated(x1, y1, steps).0 + rotated(x2, y2, steps).0,
            rotated(x1, y1, steps).1 + rotated(x2, y2, steps).1,
        ),
{
    let c1 = cube_of(x1, y1);
    let c2 = cube_of(x2, y2);
    assert(cube_of(x1 + x2, y1 + y2) == (c1.0 + c2.0, c1.1 + c2.1, c1.2 + c2.2));
    lemma_turns_linear(c1, c2, (steps % 6) as nat);
}

/// The turn of a neighbour offset is again a neighbour offset.
pub proof fn lemma_neighbor_deltas_closed(i: int, steps: int)
    requires
        0 <= i < 6,
    ensures
        exists|j: int|
            0 <= j < 6 && rotated(HEX_NEIGHBOR_DELTAS@[i].0 as int, HEX_NEIGHBOR_DELTAS@[i].1 as int, steps)
                == (#[trigger] HEX_NEIGHBOR_DELTAS@[j].0 as int, HEX_NEIGHBOR_DELTAS@[j].1 as int),
{
    reveal_with_fuel(turns, 6);
    let k = steps % 6;
    let d = HEX_NEIGHBOR_DELTAS@;
    let r = rotated(d[i].0 as int, d[i].1 as int, steps);
    assert(d[0] == (0i32, -2i32) && d[1] == (0i32, 2i32) && d[2] == (-1i32, -1i32));
    assert(d[3] == (-1i32, 1i32) && d[4] == (1i32, -1i32) && d[5] == (1i32, 1i32));
    assert(r == (d[0].0 as int, d[0].1 as int) || r == (d[1].0 as int, d[1].1 as int)
        || r == (d[2].0 as int, d[2].1 as int) || r == (d[3].0 as int, d[3].1 as int)
        || r == (d[4].0 as int, d[4].1 as int) || r == (d[5].0 as int, d[5].1 as int));
}

/// Rotation keeps neighbours neighbours: the turn of a neighbour of a lattice
/// point is a neighbour of the turned point.
pub proof fn lemma_rotation_keeps_neighbours(x: int, y: int, i: int, steps: int)
    requires
        on_lattice(x, y),
        0 <= i < 6,
    ensures
        exists|j: int|
            0 <= j < 6 && rotated(x + HEX_NEIGHBOR_DELTAS@[i].0, y + HEX_NEIGHBOR_DELTAS@[i].1, steps) == (
                rotated(x, y, steps).0 + #[trigger] HEX_NEIGHBOR_DELTAS@[j].0,
                rotated(x, y, steps).1 + HEX_NEIGHBOR_DELTAS@[j].1,
            ),
{
    let d = HEX_NEIGHBOR_DELTAS@[i];
    assert(on_lattice(d.0 as int, d.1 as int));
    lemma_rotate_linear(x, y, d.0 as int, d.1 as int, steps);
    lemma_neighbor_deltas_closed(i, steps);
}

/// Turning by three steps (half a circle) takes a lattice point to its
/// mirror image through the origin.
pub proof fn lemma_rotate_half_turn(x: int, y: int)
    requires
        on_lattice(x, y),
    ensures
        rotated(x, y, 3) == (-x, -y),
{
    reveal_with_fuel(turns, 4);
    let c = cube_of(x, y);
    assert(turns(c, 3) == (-c.0, -c.1, -c.2));
}

pub open spec fn abs_int(v: int) -> int {
    if v < 0 { -v } else { v }
}

/// Hex distance of a lattice point from the origin: the largest absolute
/// cube coordinate.
pub open spec fn hex_distance(x: int, y: int) -> int {
    let c = cube_of(x, y);
    let a = abs_int(c.0);
    let b = abs_int(c.1);
    let d = abs_int(c.2);
    if a >= b && a >= d { a } else if b >= d { b } else { d }
}

spec fn cube_size(c: (int, int, int)) -> int {
    let a = abs_int(c.0);
    let b = abs_int(c.1);
    let d = abs_int(c.2);
    if a >= b && a >= d { a } else if b >= d { b } else { d }
}

proof fn lemma_turns_keep_size(c: (int, int, int), k: nat)
    ensures
        cube_size(turns(c, k)) == cube_size(c),
    decreases k,
{
    if k > 0 {
        lemma_turns_keep_size(c, (k - 1) as nat);
    }
}

/// A rotation keeps every lattice point at the same hex distance from the
/// origin.
pub proof fn lemma_rotation_keeps_distance(x: int, y: int, steps: int)
    requires
        on_lattice(x, y),
    ensures
        hex_distance(rotated(x, y, steps).0, rotated(x, y, steps).1) == hex_distance(x, y),
{
    let c = cube_of(x, y);
    let k = (steps % 6) as nat;
    let f = turns(c, k);
    lemma_turns_balanced(c, k);
    lemma_doubled_round_trip(f);
    lemma_turns_keep_size(c, k);
}

/// The cells of an Exquis board: rows 0..=10; even rows at lateral
/// positions 0, 2, .., 10 (six pads), odd rows at 1, 3, .., 9 (five pads).
pub open spec fn exquis_cell(x: int, y: int) -> bool {
    &&& 0 <= x <= 10
    &&& 0 <= y <= 10
    &&& (x - y) % 2 == 0
    &&& (x % 2 == 1 ==> 1 <= y <= 9)
}

/// The pad at cell `(x, y)` of an Exquis board.
pub open spec fn exquis_pad_at(x: int, y: int) -> int {
    11 * (x / 2) + if x % 2 == 0 { y / 2 } else { 6 + (y - 1) / 2 }
}

/// Every pad sits on a cell of the board, and is the pad of that cell.
pub proof fn lemma_exquis_pad_cell(p: int)
    requires
        0 <= p < 61,
    ensures
        exquis_cell(exquis_row(p), exquis_lateral(p)),
        exquis_pad_at(exquis_row(p), exquis_lateral(p)) == p,
{
    let q = p / 11;
    let m = p % 11;
    assert(p == 11 * q + m && 0 <= m < 11 && 0 <= q <= 5);
    if m >= 6 {
        assert(exquis_row(p) == 2 * q + 1);
        assert((2 * q + 1) / 2 == q && (2 * q + 1) % 2 == 1);
        assert(exquis_lateral(p) == 2 * m - 11);
        assert((2 * m - 11 - 1) / 2 == m - 6);
    } else {
        assert(exquis_row(p) == 2 * q);
        assert((2 * q) / 2 == q && (2 * q) % 2 == 0);
        assert((2 * m) / 2 == m);
    }
}

/// Every cell of the board holds a pad, and it is the pad there.
pub proof fn lemma_exquis_cell_pad(x: int, y: int)
    requires
        exquis_cell(x, y),
    ensures
        0 <= exquis_pad_at(x, y) < 61,
        exquis_row(exquis_pad_at(x, y)) == x,
        exquis_lateral(exquis_pad_at(x, y)) == y,
{
    let h = x / 2;
    let p = exquis_pad_at(x, y);
    if x % 2 == 0 {
        assert(x == 2 * h);
        assert(y % 2 == 0) by {
            assert((x - y) % 2 == 0);
        }
        let j = y / 2;
        assert(y == 2 * j && 0 <= j <= 5);
        assert(p == 11 * h + j);
        assert(p / 11 == h && p % 11 == j);
    } else {
        assert(x == 2 * h + 1);
        assert(y % 2 == 1) by {
            assert((x - y) % 2 == 0);
        }
        let j = (y - 1) / 2;
        assert(y == 2 * j + 1 && 0 <= j <= 4);
        assert(p == 11 * h + 6 + j);
        assert(p / 11 == h && p % 11 == 6 + j);
    }
}

/// Every pad of an Exquis board lies on the lattice.
pub proof fn lemma_exquis_on_lattice(b: int, p: int)
    requires
        0 <= p < 61,
    ensures
        on_lattice(exquis_x(b, p), exquis_y(b, p)),
{
}

/// An Exquis board spans eleven rows and eleven lateral units.
pub proof fn lemma_exquis_pad_within_board(p: int)
    requires
        0 <= p < 61,
    ensures
        0 <= exquis_row(p) <= 10,
        0 <= exquis_lateral(p) <= 10,
{
}

/// No two pads of one Exquis board share a cell.
pub proof fn lemma_exquis_pads_distinct(b: int, p1: int, p2: int)
    requires
        0 <= p1 < 61,
        0 <= p2 < 61,
        p1 != p2,
    ensures
        (exquis_x(b, p1), exquis_y(b, p1)) != (exquis_x(b, p2), exquis_y(b, p2)),
{
}

/// Two different Exquis boards never share a cell.
pub proof fn lemma_exquis_boards_disjoint(b1: int, b2: int, p1: int, p2: int)
    requires
        b1 != b2,
        0 <= p1 < 61,
        0 <= p2 < 61,
    ensures
        (exquis_x(b1, p1), exquis_y(b1, p1)) != (exquis_x(b2, p2), exquis_y(b2, p2)),
{
    lemma_exquis_pad_within_board(p1);
    lemma_exquis_pad_within_board(p2);
}

/// Each Exquis board sits one row below the previous one and eleven lateral
/// units to its right, so row 1 of board `b + 1` is level with row 0 of
/// board `b`.
pub proof fn lemma_exquis_next_board_one_row_down(b: int, p: int)
    ensures
        exquis_x(b + 1, p) == exquis_x(b, p) - 1,
        exquis_y(b + 1, p) == exquis_y(b, p) + 11,
{
}

spec fn ltn_cell_ok(t: (u8, i32, i32), i: int) -> bool {
    &&& 0 <= t.2 <= 11
    &&& 0 <= t.1 <= 10
    &&& on_lattice(t.1 as int, t.2 as int)
    &&& t.0 == i
}

spec fn ltn_cells_ok_upto(n: nat) -> bool
    decreases n,
{
    n == 0 || (ltn_cell_ok(LTN_BOARD0_TUPLES@[n - 1], n - 1) && ltn_cells_ok_upto((n - 1) as nat))
}

proof fn lemma_ltn_cells_upto(n: nat, i: int)
    requires
        ltn_cells_ok_upto(n),
        0 <= i < n,
    ensures
        ltn_cell_ok(LTN_BOARD0_TUPLES@[i], i),
    decreases n,
{
    if i < n - 1 {
        lemma_ltn_cells_upto((n - 1) as nat, i);
    }
}

pub(crate) proof fn lemma_ltn_board0_cells_pub(i: int)
    requires
        0 <= i < 56,
    ensures
        0 <= LTN_BOARD0_TUPLES@[i].2 <= 11,
        0 <= LTN_BOARD0_TUPLES@[i].1 <= 10,
        LTN_BOARD0_TUPLES@[i].0 == i,
{
    lemma_ltn_board0_cells(i);
}

proof fn lemma_ltn_board0_cells(i: int)
    requires
        0 <= i < 56,
    ensures
        ltn_cell_ok(LTN_BOARD0_TUPLES@[i], i),
{
    assert(ltn_cells_ok_upto(56)) by {
        reveal_with_fuel(ltn_cells_ok_upto, 57);
    }
    lemma_ltn_cells_upto(56, i);
}

/// Every pad of the five Lumatone boards lies on the lattice, and pad `i` of
/// each board is listed at index `i`.
pub proof fn lemma_ltn_on_lattice(k: int, i: int)
    requires
        0 <= k < 5,
        0 <= i < 56,
    ensures
        ltn_board(k)[i].0 == i,
        on_lattice(ltn_board(k)[i].1 as int, ltn_board(k)[i].2 as int),
{
    lemma_ltn_board0_cells(i);
    let t = LTN_BOARD0_TUPLES@[i];
    assert(ltn_board(k)[i] == (t.0, (t.1 + 2 * k) as i32, (t.2 + 12 * k) as i32));
}

/// Two different Lumatone boards never share a cell.
pub proof fn lemma_ltn_boards_disjoint(k1: int, k2: int, i1: int, i2: int)
    requires
        0 <= k1 < 5,
        0 <= k2 < 5,
        k1 != k2,
        0 <= i1 < 56,
        0 <= i2 < 56,
    ensures
        (ltn_board(k1)[i1].1, ltn_board(k1)[i1].2) != (ltn_board(k2)[i2].1, ltn_board(k2)[i2].2),
{
    lemma_ltn_board0_cells(i1);
    lemma_ltn_board0_cells(i2);
    let t1 = LTN_BOARD0_TUPLES@[i1];
    let t2 = LTN_BOARD0_TUPLES@[i2];
    assert(ltn_board(k1)[i1] == (t1.0, (t1.1 + 2 * k1) as i32, (t1.2 + 12 * k1) as i32));
    assert(ltn_board(k2)[i2] == (t2.0, (t2.1 + 2 * k2) as i32, (t2.2 + 12 * k2) as i32));
}

/// In the Exquis and Lumatone geometries the boards are translates of one
/// another: pad `i` of board `b + 1` is pad `i` of board `b` moved by the
/// geometry's `board_shift`.
pub proof fn lemma_boards_follow_shift(g: GeometryInfo, gi: int, count: int, b: int, i: int)
    requires
        0 <= count <= 255,
        gi == 0 || gi == 1,
        is_geometry(g, gi, count),
        0 <= b,
        b + 1 < g.boards@.len(),
        0 <= i < g.boards@[b]@.len(),
    ensures
        g.board_shift is Some,
        g.boards@[b + 1]@.len() == g.boards@[b]@.len(),
        g.boards@[b + 1]@[i] == (
            g.boards@[b]@[i].0,
            (g.boards@[b]@[i].1 + g.board_shift->Some_0.0) as i32,
            (g.boards@[b]@[i].2 + g.board_shift->Some_0.1) as i32,
        ),
{
    if gi == 0 {
        assert(g.boards@[b]@ == exquis_board(b));
        assert(g.boards@[b + 1]@ == exquis_board(b + 1));
        lemma_exquis_pad_within_board(i);
    } else {
        assert(g.boards@[b]@ == ltn_board(b));
        assert(g.boards@[b + 1]@ == ltn_board(b + 1));
        lemma_ltn_board0_cells(i);
    }
}

/// How a geometry's rows map to the screen; `y` is always horizontal.
#[derive(Debug, Clone, Copy, PartialEq, Eq)]
pub enum Orientation {
    /// Row 0 at the top.
    YRightXDown,
    /// Row 0 at the bottom.
    YRightXUp,
}

/// A geometry for listing and drawing: its names, its boards as
/// `(pad, x, y)` triples, the regular shift between boards and the way it is
/// drawn.
pub struct GeometryInfo {
    pub name: &'static str,
    pub aliases: Vec<&'static str>,
    pub description: &'static str,
    pub boards: Vec<Vec<(u8, i32, i32)>>,
    pub board_shift: Option<(i32, i32)>,
    pub orientation: Orientation,
}

/// Whether `g` is geometry number `i` of the list (Exquis with `count`
/// boards, Lumatone, Wooting).
pub open spec fn is_geometry(g: GeometryInfo, i: int, count: int) -> bool {
    if i == 0 {
        &&& g.name@ == "exquis"@
        &&& g.aliases@.len() == 1 && g.aliases@[0]@ == "xtn"@
        &&& g.description@ == "Intuitive Instruments Exquis — 11 rows alternating 6-5-6-5-…-6 pads = 61 per board"@
        &&& g.boards@.len() == count
        &&& forall|b: int| 0 <= b < count ==> (#[trigger] g.boards@[b])@ == exquis_board(b)
        &&& g.board_shift == Some((EXQUIS_BOARD_STRIDE_X, EXQUIS_BOARD_STRIDE_Y))
        &&& g.orientation == Orientation::YRightXUp
    } else if i == 1 {
        &&& g.name@ == "lumatone"@
        &&& g.aliases@.len() == 1 && g.aliases@[0]@ == "ltn"@
        &&& g.description@ == "Lumatone — 56 pads per board, 5 boards tile into one hexagonal instrument"@
        &&& g.boards@.len() == 5
        &&& forall|k: int| 0 <= k < 5 ==> (#[trigger] g.boards@[k])@ == ltn_board(k)
        &&& g.board_shift == Some(LTN_BOARD_SHIFT)
        &&& g.orientation == Orientation::YRightXDown
    } else {
        &&& g.name@ == "wooting"@
        &&& g.aliases@.len() == 1 && g.aliases@[0]@ == "wtn"@
        &&& g.description@ == "xenwooting — 56 logical cells per board (with holes), 2 boards"@
        &&& g.boards@.len() == 2
        &&& g.boards@[0]@ == WTN_BOARD0_TUPLES@
        &&& g.boards@[1]@ == WTN_BOARD1_TUPLES@
        &&& g.board_shift == Some(WTN_BOARD_SHIFT)
        &&& g.orientation == Orientation::YRightXDown
    }
}

/// The triples `(pad, x, y)` of a list of grid keys.
fn key_triples(keys: &Vec<GridKey>) -> (r: Vec<(u8, i32, i32)>)
    ensures
        r@.len() == keys@.len(),
        forall|i: int| 0 <= i < keys@.len() ==> #[trigger] r@[i] == (keys@[i].key, keys@[i].x, keys@[i].y),
{
    let mut r: Vec<(u8, i32, i32)> = Vec::new();
    let mut i: usize = 0;
    while i < keys.len()
        invariant
            i <= keys@.len(),
            r@.len() == i,
            forall|j: int| 0 <= j < i ==> #[trigger] r@[j] == (keys@[j].key, keys@[j].x, keys@[j].y),
        decreases keys@.len() - i,
    {
        let k = keys[i];
        r.push((k.key, k.x, k.y));
        i = i + 1;
    }
    r
}

/// The boards of `count` Exquis boards side by side.
fn exquis_boards(count: u8) -> (r: Vec<Vec<(u8, i32, i32)>>)
    ensures
        r@.len() == count,
        forall|b: int| 0 <= b < count ==> (#[trigger] r@[b])@ == exquis_board(b),
{
    let mut r: Vec<Vec<(u8, i32, i32)>> = Vec::new();
    let mut b: u8 = 0;
    while b < count
        invariant
            b <= count,
            r@.len() == b,
            forall|j: int| 0 <= j < b ==> (#[trigger] r@[j])@ == exquis_board(j),
        decreases count - b,
    {
        let keys = exquis_board_tuples(b);
        let board = key_triples(&keys);
        assert forall|p: int| 0 <= p < 61 implies #[trigger] board@[p] == exquis_board(b as int)[p] by {
            lemma_exquis_pad_within_board(p);
        }
        assert(board@ =~= exquis_board(b as int));
        r.push(board);
        b = b + 1;
    }
    r
}

/// The three geometries: Exquis (with `exquis_board_count` boards),
/// Lumatone and Wooting.
pub fn geometries(exquis_board_count: u8) -> (r: Vec<GeometryInfo>)
    ensures
        r@.len() == 3,
        forall|i: int| 0 <= i < 3 ==> is_geometry(#[trigger] r@[i], i, exquis_board_count as int),
{
    let mut r: Vec<GeometryInfo> = Vec::new();
    r.push(GeometryInfo {
        name: "exquis",
        aliases: vec!["xtn"],
        description: "Intuitive Instruments Exquis — 11 rows alternating 6-5-6-5-…-6 pads = 61 per board",
        boards: exquis_boards(exquis_board_count),
        board_shift: Some((EXQUIS_BOARD_STRIDE_X, EXQUIS_BOARD_STRIDE_Y)),
        orientation: Orientation::YRightXUp,
    });
    r.push(GeometryInfo {
        name: "lumatone",
        aliases: vec!["ltn"],
        description: "Lumatone — 56 pads per board, 5 boards tile into one hexagonal instrument",
        boards: ltn_boards_tuples(),
        board_shift: Some(LTN_BOARD_SHIFT),
        orientation: Orientation::YRightXDown,
    });
    r.push(GeometryInfo {
        name: "wooting",
        aliases: vec!["wtn"],
        description: "xenwooting — 56 logical cells per board (with holes), 2 boards",
        boards: wtn_boards_tuples(),
        board_shift: Some(WTN_BOARD_SHIFT),
        orientation: Orientation::YRightXDown,
    });
    r
}

/// The name and aliases of geometry number `i`.
pub open spec fn geometry_names(i: int) -> Seq<Seq<char>> {
    if i == 0 {
        seq!["exquis"@, "xtn"@]
    } else if i == 1 {
        seq!["lumatone"@, "ltn"@]
    } else {
        seq!["wooting"@, "wtn"@]
    }
}

/// Whether `l` names geometry number `i`.
pub open spec fn names_geometry(l: Seq<char>, i: int) -> bool {
    geometry_names(i).contains(l)
}

fn answers_to(g: &GeometryInfo, l: &Vec<char>) -> (r: bool)
    ensures
        r == (l@ == g.name@ || exists|j: int| 0 <= j < g.aliases@.len() && l@ == (#[trigger] g.aliases@[j])@),
{
    if eq_str(l.as_slice(), g.name) {
        return true;
    }
    let mut j: usize = 0;
    while j < g.aliases.len()
        invariant
            j <= g.aliases@.len(),
            l@ != g.name@,
            forall|a: int| 0 <= a < j ==> l@ != (#[trigger] g.aliases@[a])@,
        decreases g.aliases@.len() - j,
    {
        if eq_str(l.as_slice(), g.aliases[j]) {
            return true;
        }
        j = j + 1;
    }
    false
}

/// The geometry whose name or alias is `name` in lower case.
pub fn geometry_by_name(name: &str, exquis_board_count: u8) -> (r: Option<GeometryInfo>)
    ensures
        match r {
            None => forall|i: int| 0 <= i < 3 ==> !names_geometry(unicode_lower(name@), i),
            Some(g) => exists|i: int|
                0 <= i < 3 && names_geometry(unicode_lower(name@), i)
                    && (forall|j: int| 0 <= j < i ==> !names_geometry(unicode_lower(name@), j))
                    && #[trigger] is_geometry(g, i, exquis_board_count as int),
        },
{
    let lname = to_lowercase(name);
    let l = chars_of(lname.as_str());
    let mut all = geometries(exquis_board_count);
    let mut i: usize = 0;
    while i < all.len()
        invariant
            all@.len() == 3,
            i <= 3,
            l@ == unicode_lower(name@),
            forall|k: int| 0 <= k < 3 ==> is_geometry(#[trigger] all@[k], k, exquis_board_count as int),
            forall|k: int| 0 <= k < i ==> !names_geometry(l@, k),
        decreases 3 - i,
    {
        let found = answers_to(&all[i], &l);
        assert(found == names_geometry(l@, i as int)) by {
            let g = all@[i as int];
            assert(g.aliases@.len() == 1);
            assert(geometry_names(i as int) =~= seq![g.name@, g.aliases@[0]@]);
        }
        if found {
            let g = all.remove(i);
            assert(is_geometry(g, i as int, exquis_board_count as int));
            return Some(g);
        }
        i = i + 1;
    }
    None
}

/// A character as it stands in SVG text: `&`, `<` and `>` escaped.
pub open spec fn escape_char(c: char) -> Seq<char> {
    if c == '&' {
        seq!['&', 'a', 'm', 'p', ';']
    } else if c == '<' {
        seq!['&', 'l', 't', ';']
    } else if c == '>' {
        seq!['&', 'g', 't', ';']
    } else {
        seq![c]
    }
}

/// A text with every `&`, `<` and `>` escaped.
pub open spec fn html_escaped(s: Seq<char>) -> Seq<char>
    decreases s.len(),
{
    if s.len() == 0 {
        Seq::empty()
    } else {
        html_escaped(s.drop_last()) + escape_char(s.last())
    }
}

/// A name for SVG text: `&` becomes `&amp;`, `<` `&lt;` and `>` `&gt;`,
/// every other character is kept.
pub fn html_escape(s: &str) -> (r: String)
    ensures
        r@ == html_escaped(s@),
{
    let cs = chars_of(s);
    let mut out: Vec<char> = Vec::new();
    let mut i: usize = 0;
    while i < cs.len()
        invariant
            i <= cs@.len(),
            cs@ == s@,
            out@ == html_escaped(cs@.take(i as int)),
        decreases cs@.len() - i,
    {
        let c = cs[i];
        let ghost before = out@;
        if c == '&' {
            out.push('&');
            out.push('a');
            out.push('m');
            out.push('p');
            out.push(';');
        } else if c == '<' {
            out.push('&');
            out.push('l');
            out.push('t');
            out.push(';');
        } else if c == '>' {
            out.push('&');
            out.push('g');
            out.push('t');
            out.push(';');
        } else {
            out.push(c);
        }
        assert(out@ =~= before + escape_char(c));
        assert(cs@.take(i + 1).drop_last() =~= cs@.take(i as int));
        i = i + 1;
    }
    assert(cs@.take(cs@.len() as int) =~= cs@);
    crate::text::string_of(&out)
}

/// The boards of a geometry as sequences.
pub open spec fn boards_of(info: GeometryInfo) -> Seq<Seq<(u8, i32, i32)>> {
    info.boards@.map_values(|b: Vec<(u8, i32, i32)>| b@)
}

/// Every pad, as (board, pad, x, y), in board then pad order.
pub open spec fn flat_cells(boards: Seq<Seq<(u8, i32, i32)>>) -> Seq<(int, u8, i32, i32)>
    decreases boards.len(),
{
    if boards.len() == 0 {
        Seq::empty()
    } else {
        let last = boards.len() - 1;
        flat_cells(boards.drop_last()) + boards.last().map_values(|t: (u8, i32, i32)| (last, t.0, t.1, t.2))
    }
}

/// Board `b` has a pad at cell `c`.
pub open spec fn board_has(b: Seq<(u8, i32, i32)>, c: (i32, i32)) -> bool {
    exists|j: int| 0 <= j < b.len() && (#[trigger] b[j]).1 == c.0 && b[j].2 == c.1
}

/// The board a cell belongs to: the last board with a pad there.
pub open spec fn owner(boards: Seq<Seq<(u8, i32, i32)>>, c: (i32, i32)) -> Option<int>
    decreases boards.len(),
{
    if boards.len() == 0 {
        None
    } else if board_has(boards.last(), c) {
        Some(boards.len() - 1)
    } else {
        owner(boards.drop_last(), c)
    }
}

/// Every neighbour of every pad has coordinates within `i32`.
pub open spec fn neighbours_fit(boards: Seq<Seq<(u8, i32, i32)>>) -> bool {
    forall|b: int, j: int| 0 <= b < boards.len() && 0 <= j < boards[b].len() ==> {
        &&& i32::MIN < (#[trigger] boards[b][j]).1 < i32::MAX
        &&& i32::MIN + 1 < boards[b][j].2 < i32::MAX - 1
    }
}

/// A line of the drawing: from a pad's cell to a neighbouring cell, and
/// whether the neighbour belongs to the pad's own board.
#[derive(Debug, Clone, Copy, PartialEq, Eq)]
pub struct SvgEdge {
    pub from: (i32, i32),
    pub to: (i32, i32),
    pub same_board: bool,
}

/// `es` already has a line between `a` and `b`, either way round.
pub open spec fn has_line(es: Seq<SvgEdge>, a: (i32, i32), b: (i32, i32)) -> bool {
    exists|j: int| 0 <= j < es.len() && (((#[trigger] es[j]).from == a && es[j].to == b) || (es[j].from == b && es[j].to == a))
}

/// The neighbour of `c` in direction `k`.
pub open spec fn neighbour(c: (int, u8, i32, i32), k: int) -> (i32, i32) {
    ((c.2 + HEX_NEIGHBOR_DELTAS@[k].0) as i32, (c.3 + HEX_NEIGHBOR_DELTAS@[k].1) as i32)
}

/// The lines found after looking at the first `n` (pad, direction) steps:
/// pads in board then pad order, directions in `HEX_NEIGHBOR_DELTAS`
/// order; a neighbour held by some board gives a line unless that pair of
/// cells already has one.
pub open spec fn edges_upto(boards: Seq<Seq<(u8, i32, i32)>>, n: int) -> Seq<SvgEdge>
    decreases n,
{
    if n <= 0 {
        Seq::empty()
    } else {
        let prev = edges_upto(boards, n - 1);
        let c = flat_cells(boards)[(n - 1) / 6];
        let a = (c.2, c.3);
        let b = neighbour(c, (n - 1) % 6);
        match owner(boards, b) {
            None => prev,
            Some(nb) => if has_line(prev, a, b) {
                prev
            } else {
                prev.push(SvgEdge { from: a, to: b, same_board: c.0 == nb })
            },
        }
    }
}

/// The lines of a drawing of `boards`, each pair of neighbouring cells once,
/// in the order they are first found.
pub open spec fn svg_edges_spec(boards: Seq<Seq<(u8, i32, i32)>>) -> Seq<SvgEdge> {
    edges_upto(boards, 6 * (flat_cells(boards).len() as int))
}

/// The dots of a drawing, as (palette index, pad, x, y) in board then pad
/// order; board `b` takes palette entry `b % 7`.
pub open spec fn dots_spec(boards: Seq<Seq<(u8, i32, i32)>>) -> Seq<(usize, u8, i32, i32)> {
    flat_cells(boards).map_values(|c: (int, u8, i32, i32)| ((c.0 % 7) as usize, c.1, c.2, c.3))
}

proof fn lemma_flat_cells(boards: Seq<Seq<(u8, i32, i32)>>, b: int)
    requires
        0 <= b <= boards.len(),
    ensures
        flat_cells(boards.take(b)) == flat_cells(boards).take(flat_cells(boards.take(b)).len() as int),
        b < boards.len() ==> flat_cells(boards.take(b + 1)) == flat_cells(boards.take(b)) + boards[b].map_values(
            |t: (u8, i32, i32)| (b, t.0, t.1, t.2),
        ),
        flat_cells(boards.take(b)).len() <= flat_cells(boards).len(),
    decreases boards.len() - b,
{
    if b < boards.len() {
        lemma_flat_cells(boards, b + 1);
        assert(boards.take(b + 1).drop_last() =~= boards.take(b));
        assert(boards.take(b + 1).last() == boards[b]);
    } else {
        assert(boards.take(b) =~= boards);
    }
}

/// The owner of a cell, found by looking at the boards from the last one.
fn owner_exec(info: &GeometryInfo, c: (i32, i32)) -> (r: Option<usize>)
    ensures
        opt_int(r) == owner(boards_of(*info), c),
{
    let boards = &info.boards;
    let ghost bs = boards_of(*info);
    assert(bs.take(boards.len() as int) =~= bs);
    let mut b: usize = boards.len();
    while b > 0
        invariant
            b <= boards.len(),
            bs == boards_of(*info),
            boards == &info.boards,
            owner(bs, c) == owner(bs.take(b as int), c),
        decreases b,
    {
        let board = &boards[b - 1];
        let ghost t = bs.take(b as int);
        assert(t.last() == board@);
        assert(t.drop_last() =~= bs.take(b - 1));
        let mut j: usize = 0;
        while j < board.len()
            invariant
                0 < b <= boards.len(),
                j <= board@.len(),
                t.last() == board@,
                t.len() == b,
                bs == boards_of(*info),
                owner(bs, c) == owner(t, c),
                forall|q: int| 0 <= q < j ==> !((#[trigger] board@[q]).1 == c.0 && board@[q].2 == c.1),
            decreases board@.len() - j,
        {
            if board[j].1 == c.0 && board[j].2 == c.1 {
                assert(board_has(board@, c));
                assert(owner(t, c) == Some(b - 1));
                return Some(b - 1);
            }
            j = j + 1;
        }
        assert(!board_has(t.last(), c));
        b = b - 1;
    }
    assert(bs.take(0) =~= Seq::<Seq<(u8, i32, i32)>>::empty());
    None
}

pub open spec fn opt_int(o: Option<usize>) -> Option<int> {
    match o {
        Some(v) => Some(v as int),
        None => None,
    }
}

fn has_line_exec(es: &Vec<SvgEdge>, a: (i32, i32), b: (i32, i32)) -> (r: bool)
    ensures
        r == has_line(es@, a, b),
{
    let mut j: usize = 0;
    while j < es.len()
        invariant
            j <= es@.len(),
            forall|q: int| 0 <= q < j ==> !(((#[trigger] es@[q]).from == a && es@[q].to == b) || (es@[q].from == b
                && es@[q].to == a)),
        decreases es@.len() - j,
    {
        let e = es[j];
        if (e.from.0 == a.0 && e.from.1 == a.1 && e.to.0 == b.0 && e.to.1 == b.1) || (e.from.0 == b.0 && e.from.1 == b.1
            && e.to.0 == a.0 && e.to.1 == a.1) {
            return true;
        }
        j = j + 1;
    }
    false
}

/// The lines of the drawing of `info`: for every pad (board by board) and
/// every neighbour direction, a line to a neighbouring cell that some board
/// holds, each pair of cells once; a line is within one board when the
/// neighbour's owner (the last board with a pad there) is the pad's board.
pub fn svg_edges(info: &GeometryInfo) -> (r: Vec<SvgEdge>)
    requires
        neighbours_fit(boards_of(*info)),
    ensures
        r@ == svg_edges_spec(boards_of(*info)),
{
    let ghost bs = boards_of(*info);
    let mut out: Vec<SvgEdge> = Vec::new();
    let mut bi: usize = 0;
    let ghost mut base: int = 0;
    while bi < info.boards.len()
        invariant
            bi <= info.boards.len(),
            bs == boards_of(*info),
            neighbours_fit(bs),
            base == flat_cells(bs.take(bi as int)).len(),
            base <= flat_cells(bs).len(),
            out@ == edges_upto(bs, 6 * base),
        decreases info.boards.len() - bi,
    {
        proof {
            lemma_flat_cells(bs, bi as int);
            lemma_flat_cells(bs, bi + 1);
        }
        let board = &info.boards[bi];
        assert(bs[bi as int] == board@);
        let mut j: usize = 0;
        while j < board.len()
            invariant
                bi < info.boards.len(),
                j <= board@.len(),
                bs == boards_of(*info),
                bs[bi as int] == board@,
                neighbours_fit(bs),
                base == flat_cells(bs.take(bi as int)).len(),
                flat_cells(bs.take(bi + 1)) == flat_cells(bs.take(bi as int)) + board@.map_values(
                    |t: (u8, i32, i32)| (bi as int, t.0, t.1, t.2),
                ),
                flat_cells(bs.take(bi + 1)) == flat_cells(bs).take(flat_cells(bs.take(bi + 1)).len() as int),
                flat_cells(bs.take(bi + 1)).len() <= flat_cells(bs).len(),
                base + board@.len() <= flat_cells(bs).len(),
                out@ == edges_upto(bs, 6 * (base + j)),
            decreases board@.len() - j,
        {
            let (_p, x, y) = board[j];
            let ghost c = flat_cells(bs)[base + j];
            assert(c == flat_cells(bs.take(bi + 1))[base + j]);
            assert(c == (bi as int, board@[j as int].0, x, y));
            assert(i32::MIN < x < i32::MAX && i32::MIN + 1 < y < i32::MAX - 1);
            let mut k: usize = 0;
            while k < 6
                invariant
                    k <= 6,
                    i32::MIN < x < i32::MAX,
                    i32::MIN + 1 < y < i32::MAX - 1,
                    base >= 0,
                    base + j < flat_cells(bs).len(),
                    c == flat_cells(bs)[base + j],
                    c.0 == bi as int && c.2 == x && c.3 == y,
                    bs == boards_of(*info),
                    out@ == edges_upto(bs, 6 * (base + j) + k),
                decreases 6 - k,
            {
                let d = HEX_NEIGHBOR_DELTAS[k];
                assert(d == HEX_NEIGHBOR_DELTAS@[k as int]);
                let nb = (x + d.0, y + d.1);
                let ghost n = 6 * (base + j) + k + 1;
                assert((n - 1) / 6 == base + j && (n - 1) % 6 == k);
                assert(nb == neighbour(c, k as int));
                let ghost prev = out@;
                assert(prev == edges_upto(bs, n - 1));
                assert(flat_cells(bs)[(n - 1) / 6] == c);
                let a: (i32, i32) = (x, y);
                assert(a == (c.2, c.3));
                match owner_exec(info, nb) {
                    Some(o) => {
                        assert(owner(bs, nb) == Some(o as int));
                        if !has_line_exec(&out, a, nb) {
                            let e = SvgEdge { from: a, to: nb, same_board: bi == o };
                            out.push(e);
                            assert(edges_upto(bs, n) == prev.push(SvgEdge { from: a, to: nb, same_board: c.0 == o as int }));
                        } else {
                            assert(edges_upto(bs, n) == prev);
                        }
                    },
                    None => {
                        assert(owner(bs, nb) is None);
                        assert(edges_upto(bs, n) == prev);
                    },
                }
                assert(out@ == edges_upto(bs, n));
                k = k + 1;
            }
            j = j + 1;
        }
        proof {
            base = base + board@.len();
        }
        bi = bi + 1;
    }
    proof {
        lemma_flat_cells(bs, bs.len() as int);
        assert(bs.take(bs.len() as int) =~= bs);
    }
    out
}

/// The dots of the drawing of `info`: (palette index, pad, x, y) for every
/// pad, board by board; board `b` uses palette entry `b % 7`.
pub fn svg_dots(info: &GeometryInfo) -> (r: Vec<(usize, u8, i32, i32)>)
    ensures
        r@ == dots_spec(boards_of(*info)),
{
    let ghost bs = boards_of(*info);
    let mut out: Vec<(usize, u8, i32, i32)> = Vec::new();
    let mut bi: usize = 0;
    while bi < info.boards.len()
        invariant
            bi <= info.boards.len(),
            bs == boards_of(*info),
            out@ == dots_spec(bs.take(bi as int)),
        decreases info.boards.len() - bi,
    {
        proof {
            lemma_flat_cells(bs, bi as int);
        }
        let board = &info.boards[bi];
        assert(bs[bi as int] == board@);
        let ghost start = out@;
        let mut j: usize = 0;
        while j < board.len()
            invariant
                bi < info.boards.len(),
                j <= board@.len(),
                out@ == start + board@.take(j as int).map_values(|t: (u8, i32, i32)| ((bi % 7) as usize, t.0, t.1, t.2)),
            decreases board@.len() - j,
        {
            let (p, x, y) = board[j];
            out.push((bi % 7, p, x, y));
            assert(board@.take(j + 1) =~= board@.take(j as int).push(board@[j as int]));
            j = j + 1;
        }
        assert(board@.take(board@.len() as int) =~= board@);
        assert(out@ =~= dots_spec(bs.take(bi + 1))) by {
            assert(flat_cells(bs.take(bi + 1)) == flat_cells(bs.take(bi as int)) + board@.map_values(
                |t: (u8, i32, i32)| (bi as int, t.0, t.1, t.2),
            ));
        }
        bi = bi + 1;
    }
    assert(bs.take(bs.len() as int) =~= bs);
    out
}

/// The palette entry of each board, for the legend.
pub fn svg_legend(info: &GeometryInfo) -> (r: Vec<usize>)
    ensures
        r@ == Seq::new(info.boards@.len(), |b: int| (b % 7) as usize),
{
    let mut out: Vec<usize> = Vec::new();
    let mut b: usize = 0;
    while b < info.boards.len()
        invariant
            b <= info.boards.len(),
            out@ == Seq::new(b as nat, |q: int| (q % 7) as usize),
        decreases info.boards.len() - b,
    {
        out.push(b % 7);
        b = b + 1;
        assert(out@ =~= Seq::new(b as nat, |q: int| (q % 7) as usize));
    }
    out
}

} // verus!
