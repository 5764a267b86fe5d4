use vstd::prelude::*;

verus! {

/// A 3x3 board: nine 4-bit exponents packed row-major, the cell `(x, y)`
/// standing at bits `4 * (x + 3 * y)`. A cell of 0 is empty.
#[derive(PartialEq, Eq, Structural, PartialOrd, Ord, Clone, Copy, Debug, Hash)]
pub struct Board(pub u64);

/// A direction in which all tiles slide.
#[derive(PartialEq, Eq, Structural, Clone, Copy, Debug, Hash)]
pub enum Move {
    Left,
    Right,
    Up,
    Down,
}

/// Bound of a packed board: nine nibbles and nothing above them.
pub const BOARD_LIMIT: u64 = 0x10_0000_0000;

/// The exponent that the packed value `b` holds at `(x, y)`.
pub open spec fn cell(b: u64, x: int, y: int) -> u64 {
    (b >> ((4 * (x + 3 * y)) as u64)) & 15u64
}

pub open spec fn in_grid(x: int, y: int) -> bool {
    0 <= x < 3 && 0 <= y < 3
}

/// The packed value that holds `f(x, y)` at each cell.
pub open spec fn pack(f: spec_fn(int, int) -> u64) -> u64 {
    f(0, 0) | (f(1, 0) << 4u64) | (f(2, 0) << 8u64) | (f(0, 1) << 12u64) | (f(1, 1) << 16u64)
        | (f(2, 1) << 20u64) | (f(0, 2) << 24u64) | (f(1, 2) << 28u64) | (f(2, 2) << 32u64)
}

proof fn lemma_set_nibble(b: u64, v: u64, i: u64, j: u64)
    requires
        v < 16,
        i < 9,
        j < 16,
    ensures
        ((((b & !(15u64 << (4 * i))) | (v << (4 * i))) >> (4 * j)) & 15u64) == if i == j {
            v
        } else {
            (b >> (4 * j)) & 15u64
        },
        b < 0x10_0000_0000 ==> ((b & !(15u64 << (4 * i))) | (v << (4 * i))) < 0x10_0000_0000,
{
    assert(((((b & !(15u64 << (4 * i))) | (v << (4 * i))) >> (4 * j)) & 15u64) == if i == j {
        v
    } else {
        (b >> (4 * j)) & 15u64
    }) by (bit_vector)
        requires
            v < 16,
            i < 9,
            j < 16,
    ;
    assert(b < 0x10_0000_0000 ==> ((b & !(15u64 << (4 * i))) | (v << (4 * i))) < 0x10_0000_0000)
        by (bit_vector)
        requires
            v < 16,
            i < 9,
    ;
}

proof fn lemma_cell_bound(b: u64, x: int, y: int)
    requires
        in_grid(x, y),
    ensures
        cell(b, x, y) < 16,
{
    let s = (4 * (x + 3 * y)) as u64;
    assert((b >> s) & 15u64 < 16) by (bit_vector);
}

/// Each cell of a packed value reads back what was packed there.
proof fn lemma_pack_cells(f: spec_fn(int, int) -> u64)
    requires
        forall|x: int, y: int| in_grid(x, y) ==> f(x, y) < 16,
    ensures
        pack(f) < BOARD_LIMIT,
        forall|x: int, y: int| #![trigger cell(pack(f), x, y)] in_grid(x, y) ==> cell(pack(f), x, y) == f(x, y),
{
    let (a0, a1, a2, a3, a4, a5, a6, a7, a8) = (f(0, 0), f(1, 0), f(2, 0), f(0, 1), f(1, 1), f(2, 1), f(0, 2), f(1, 2), f(2, 2));
    assert(in_grid(0, 0) && in_grid(1, 0) && in_grid(2, 0) && in_grid(0, 1) && in_grid(1, 1) && in_grid(2, 1) && in_grid(0, 2) && in_grid(1, 2) && in_grid(2, 2));
    let p = pack(f);
    assert(p == a0 | (a1 << 4u64) | (a2 << 8u64) | (a3 << 12u64) | (a4 << 16u64) | (a5 << 20u64) | (a6 << 24u64) | (a7 << 28u64) | (a8 << 32u64));
    assert(p < 0x10_0000_0000 && (p >> 0u64) & 15 == a0 && (p >> 4u64) & 15 == a1 && (p >> 8u64) & 15 == a2
        && (p >> 12u64) & 15 == a3 && (p >> 16u64) & 15 == a4 && (p >> 20u64) & 15 == a5
        && (p >> 24u64) & 15 == a6 && (p >> 28u64) & 15 == a7 && (p >> 32u64) & 15 == a8) by (bit_vector)
        requires
            a0 < 16, a1 < 16, a2 < 16, a3 < 16, a4 < 16, a5 < 16, a6 < 16, a7 < 16, a8 < 16,
            p == a0 | (a1 << 4u64) | (a2 << 8u64) | (a3 << 12u64) | (a4 << 16u64) | (a5 << 20u64) | (a6 << 24u64) | (a7 << 28u64) | (a8 << 32u64),
    ;
    assert forall|x: int, y: int| #![trigger cell(pack(f), x, y)] in_grid(x, y) implies cell(pack(f), x, y) == f(x, y) by {
        if y == 0 { if x == 0 {} else if x == 1 {} else {} }
        else if y == 1 { if x == 0 {} else if x == 1 {} else {} }
        else { if x == 0 {} else if x == 1 {} else {} }
    }
}

/// A board within its nine cells is the packing of its own cells.
proof fn lemma_unpack(b: u64)
    requires
        b < BOARD_LIMIT,
    ensures
        b == pack(|x: int, y: int| cell(b, x, y)),
{
    let p = pack(|x: int, y: int| cell(b, x, y));
    assert(p == ((b >> 0u64) & 15) | (((b >> 4u64) & 15) << 4u64) | (((b >> 8u64) & 15) << 8u64)
        | (((b >> 12u64) & 15) << 12u64) | (((b >> 16u64) & 15) << 16u64) | (((b >> 20u64) & 15) << 20u64)
        | (((b >> 24u64) & 15) << 24u64) | (((b >> 28u64) & 15) << 28u64) | (((b >> 32u64) & 15) << 32u64));
    assert(b == ((b >> 0u64) & 15) | (((b >> 4u64) & 15) << 4u64) | (((b >> 8u64) & 15) << 8u64)
        | (((b >> 12u64) & 15) << 12u64) | (((b >> 16u64) & 15) << 16u64) | (((b >> 20u64) & 15) << 20u64)
        | (((b >> 24u64) & 15) << 24u64) | (((b >> 28u64) & 15) << 28u64) | (((b >> 32u64) & 15) << 32u64)) by (bit_vector)
        requires
            b < 0x10_0000_0000,
    ;
}

/// Packings that agree on the grid are equal.
proof fn lemma_pack_ext(f: spec_fn(int, int) -> u64, g: spec_fn(int, int) -> u64)
    requires
        forall|x: int, y: int| in_grid(x, y) ==> f(x, y) == g(x, y),
    ensures
        pack(f) == pack(g),
{
    assert(in_grid(0, 0) && in_grid(1, 0) && in_grid(2, 0) && in_grid(0, 1) && in_grid(1, 1) && in_grid(2, 1) && in_grid(0, 2) && in_grid(1, 2) && in_grid(2, 2));
}

/// A board within its nine cells that holds `f` on the grid is `pack(f)`.
proof fn lemma_cells_pack(b: u64, f: spec_fn(int, int) -> u64)
    requires
        b < BOARD_LIMIT,
        forall|x: int, y: int| in_grid(x, y) ==> cell(b, x, y) == f(x, y),
    ensures
        b == pack(f),
{
    lemma_unpack(b);
    lemma_pack_ext(|x: int, y: int| cell(b, x, y), f);
}

/// The cell that a clockwise quarter turn, taken `n` times, brings to `(x, y)`.
pub open spec fn rot_src(n: int, x: int, y: int) -> (int, int) {
    if n == 0 {
        (x, y)
    } else if n == 1 {
        (y, 2 - x)
    } else if n == 2 {
        (2 - x, 2 - y)
    } else {
        (2 - y, x)
    }
}

/// The cell that symmetry `g` (0 to 7) brings to `(x, y)`: `g % 4` quarter turns
/// clockwise, applied after a left-right mirror when `g >= 4`.
pub open spec fn sym_src(g: int, x: int, y: int) -> (int, int) {
    let p = rot_src(if g >= 4 { g - 4 } else { g }, x, y);
    if g >= 4 {
        (2 - p.0, p.1)
    } else {
        p
    }
}

/// The board under symmetry `g` of the square.
pub open spec fn sym(b: u64, g: int) -> u64 {
    pack(|x: int, y: int| cell(b, sym_src(g, x, y).0, sym_src(g, x, y).1))
}

/// Symmetry `g` applied after symmetry `h`.
pub open spec fn sym_compose(h: int, g: int) -> int {
    let fh = h >= 4;
    let fg = g >= 4;
    let nh = if fh { h - 4 } else { h };
    let ng = if fg { g - 4 } else { g };
    let m = if fg { ng - nh + 4 } else { nh + ng };
    let n = if m >= 4 { m - 4 } else { m };
    if fh != fg { n + 4 } else { n }
}

proof fn lemma_sym_cells(b: u64, g: int)
    requires
        0 <= g < 8,
    ensures
        sym(b, g) < BOARD_LIMIT,
        forall|x: int, y: int| #![trigger cell(sym(b, g), x, y)] in_grid(x, y) ==> cell(sym(b, g), x, y) == cell(b, sym_src(g, x, y).0, sym_src(g, x, y).1),
{
    let f = |x: int, y: int| cell(b, sym_src(g, x, y).0, sym_src(g, x, y).1);
    assert forall|x: int, y: int| in_grid(x, y) implies f(x, y) < 16 by {
        lemma_cell_bound(b, sym_src(g, x, y).0, sym_src(g, x, y).1);
    }
    lemma_pack_cells(f);
}

proof fn lemma_sym_sym(b: u64, h: int, g: int)
    requires
        0 <= h < 8,
        0 <= g < 8,
    ensures
        sym(sym(b, h), g) == sym(b, sym_compose(h, g)),
{
    let c = sym_compose(h, g);
    lemma_sym_cells(b, h);
    assert forall|x: int, y: int| in_grid(x, y) implies
        cell(sym(b, h), sym_src(g, x, y).0, sym_src(g, x, y).1) == cell(b, sym_src(c, x, y).0, sym_src(c, x, y).1) by {
        let p = sym_src(g, x, y);
        assert(in_grid(p.0, p.1));
        let q = sym_src(h, p.0, p.1);
        assert(q == sym_src(c, x, y));
    }
    lemma_pack_ext(
        |x: int, y: int| cell(sym(b, h), sym_src(g, x, y).0, sym_src(g, x, y).1),
        |x: int, y: int| cell(b, sym_src(c, x, y).0, sym_src(c, x, y).1),
    );
}

/// The cell reached by `k` single clockwise quarter turns, one step at a time.
pub open spec fn rot_steps(k: nat, x: int, y: int) -> (int, int)
    decreases k,
{
    if k == 0 {
        (x, y)
    } else {
        let p = rot_steps((k - 1) as nat, x, y);
        (p.1, 2 - p.0)
    }
}

proof fn lemma_rot_steps(k: nat, x: int, y: int)
    ensures
        rot_steps(k, x, y) == rot_src((k % 4) as int, x, y),
    decreases k,
{
    if k > 0 {
        lemma_rot_steps((k - 1) as nat, x, y);
    }
}

/// The smallest of the packed values of a board's eight symmetric images,
/// the board itself standing for the identity.
pub open spec fn min_sym(b: u64) -> u64 {
    let m1 = if sym(b, 1) < b { sym(b, 1) } else { b };
    let m2 = if sym(b, 2) < m1 { sym(b, 2) } else { m1 };
    let m3 = if sym(b, 3) < m2 { sym(b, 3) } else { m2 };
    let m4 = if sym(b, 4) < m3 { sym(b, 4) } else { m3 };
    let m5 = if sym(b, 5) < m4 { sym(b, 5) } else { m4 };
    let m6 = if sym(b, 6) < m5 { sym(b, 6) } else { m5 };
    if sym(b, 7) < m6 { sym(b, 7) } else { m6 }
}

/// The symmetry that, applied after `h`, gives `t`.
pub open spec fn sym_solve(h: int, t: int) -> int {
    let fh = h >= 4;
    let ft = t >= 4;
    let fg = fh != ft;
    let nh = if fh { h - 4 } else { h };
    let nt = if ft { t - 4 } else { t };
    let m = if fg { nt + nh } else { nt - nh + 4 };
    let n = if m >= 4 { m - 4 } else { m };
    if fg { n + 4 } else { n }
}

proof fn lemma_min_sym(b: u64)
    requires
        b < BOARD_LIMIT,
    ensures
        forall|k: int| 0 <= k < 8 ==> min_sym(b) <= #[trigger] sym(b, k),
        exists|k: int| 0 <= k < 8 && min_sym(b) == #[trigger] sym(b, k),
{
    lemma_unpack(b);
    assert(sym(b, 0) == b) by {
        lemma_pack_ext(|x: int, y: int| cell(b, x, y), |x: int, y: int| cell(b, sym_src(0, x, y).0, sym_src(0, x, y).1));
    }
    let m = min_sym(b);
    if m == b {
        assert(m == sym(b, 0));
    } else if m == sym(b, 1) {
    } else if m == sym(b, 2) {
    } else if m == sym(b, 3) {
    } else if m == sym(b, 4) {
    } else if m == sym(b, 5) {
    } else if m == sym(b, 6) {
    } else {
        assert(m == sym(b, 7));
    }
}

/// Every symmetric image of a board has the same canonical form as the board.
#[verifier::spinoff_prover]
#[verifier::rlimit(40)]
pub proof fn lemma_canonical_symmetric(b: Board, g: int)
    requires
        b.wf(),
        0 <= g < 8,
    ensures
        min_sym(sym(b.0, g)) == min_sym(b.0),
{
    let c = sym(b.0, g);
    lemma_sym_cells(b.0, g);
    lemma_min_sym(b.0);
    lemma_min_sym(c);
    let kc = choose|k: int| 0 <= k < 8 && min_sym(c) == #[trigger] sym(c, k);
    lemma_sym_sym(b.0, g, kc);
    let kb = choose|k: int| 0 <= k < 8 && min_sym(b.0) == #[trigger] sym(b.0, k);
    let k = sym_solve(g, kb);
    assert(sym_compose(g, k) == kb);
    lemma_sym_sym(b.0, g, k);
    assert(min_sym(c) <= sym(c, k));
}

/// Canonicalizing a canonical board leaves it unchanged.
pub proof fn lemma_canonical_idempotent(b: Board)
    requires
        b.wf(),
    ensures
        min_sym(min_sym(b.0)) == min_sym(b.0),
{
    lemma_min_sym(b.0);
    let k = choose|k: int| 0 <= k < 8 && min_sym(b.0) == #[trigger] sym(b.0, k);
    lemma_canonical_symmetric(b, k);
}

/// The tiles of a line slid toward its start: its non-empty cells in order,
/// then empty cells.
#[verifier::opaque]
pub open spec fn slid(a: int, b: int, c: int) -> Seq<int> {
    let t = seq![a, b, c].filter(|v: int| v != 0);
    t + Seq::new((3 - t.len()) as nat, |i: int| 0int)
}

/// A line after a move toward its start: slid, then the first pair of equal
/// tiles, looking from the start, merged into one tile of the next exponent.
pub open spec fn shifted(a: int, b: int, c: int) -> Seq<int> {
    let t = slid(a, b, c);
    if t[0] == t[1] && t[0] != 0 {
        seq![t[0] + 1, t[2], 0]
    } else if t[1] == t[2] && t[1] != 0 {
        seq![t[0], t[1] + 1, 0]
    } else {
        t
    }
}

/// The first `i` exponents of a line, slid as if the rest were empty.
pub open spec fn slid_prefix(a: int, b: int, c: int, i: int) -> Seq<int> {
    slid(if i > 0 { a } else { 0 }, if i > 1 { b } else { 0 }, if i > 2 { c } else { 0 })
}

/// At most one of three exponents is the largest that a cell holds.
pub open spec fn one_max(a: int, b: int, c: int) -> bool {
    !(a == 15 && b == 15) && !(a == 15 && c == 15) && !(b == 15 && c == 15)
}

proof fn lemma_slid(a: int, b: int, c: int)
    ensures
        slid(a, b, c).len() == 3,
        slid(a, b, c) == if a != 0 {
            if b != 0 {
                seq![a, b, c]
            } else if c != 0 {
                seq![a, c, 0]
            } else {
                seq![a, 0, 0]
            }
        } else if b != 0 {
            if c != 0 {
                seq![b, c, 0]
            } else {
                seq![b, 0, 0]
            }
        } else if c != 0 {
            seq![c, 0, 0]
        } else {
            seq![0, 0, 0]
        },
{
    let s = seq![a, b, c];
    let p = |v: int| v != 0;
    reveal_with_fuel(Seq::filter, 4);
    assert(s.drop_last() =~= seq![a, b]);
    assert(s.drop_last().drop_last() =~= seq![a]);
    assert(s.drop_last().drop_last().drop_last() =~= Seq::<int>::empty());
    let t = s.filter(p);
    reveal(slid);
    assert(slid(a, b, c) =~= t + Seq::new((3 - t.len()) as nat, |i: int| 0int));
    if a != 0 {
        if b != 0 {
            assert(slid(a, b, c) =~= seq![a, b, c]);
        } else if c != 0 {
            assert(slid(a, b, c) =~= seq![a, c, 0]);
        } else {
            assert(slid(a, b, c) =~= seq![a, 0, 0]);
        }
    } else if b != 0 {
        if c != 0 {
            assert(slid(a, b, c) =~= seq![b, c, 0]);
        } else {
            assert(slid(a, b, c) =~= seq![b, 0, 0]);
        }
    } else if c != 0 {
        assert(slid(a, b, c) =~= seq![c, 0, 0]);
    } else {
        assert(slid(a, b, c) =~= seq![0, 0, 0]);
    }
}

/// A line of exponents with at most one 15 stays within four bits when moved.
proof fn lemma_shifted_bound(a: int, b: int, c: int)
    requires
        0 <= a < 16,
        0 <= b < 16,
        0 <= c < 16,
        one_max(a, b, c),
    ensures
        shifted(a, b, c).len() == 3,
        forall|k: int| 0 <= k < 3 ==> 0 <= #[trigger] shifted(a, b, c)[k] < 16,
{
    lemma_slid(a, b, c);
    let t = slid(a, b, c);
    if a != 0 {
        if b != 0 {
            assert(t == seq![a, b, c]);
        } else if c != 0 {
            assert(t == seq![a, c, 0]);
        } else {
            assert(t == seq![a, 0, 0]);
        }
    } else if b != 0 {
        if c != 0 {
            assert(t == seq![b, c, 0]);
        } else {
            assert(t == seq![b, 0, 0]);
        }
    } else {
        assert(t == seq![c, 0, 0]);
    }
    assert(0 <= t[0] < 16 && 0 <= t[1] < 16 && 0 <= t[2] < 16);
    assert(!(t[0] == 15 && t[1] == 15) && !(t[1] == 15 && t[2] == 15));
    let r = shifted(a, b, c);
    if t[0] == t[1] && t[0] != 0 {
        assert(r == seq![t[0] + 1, t[2], 0]);
    } else if t[1] == t[2] && t[1] != 0 {
        assert(r == seq![t[0], t[1] + 1, 0]);
    } else {
        assert(r == t);
    }
    assert(0 <= r[0] < 16 && 0 <= r[1] < 16 && 0 <= r[2] < 16);
}

/// The exponent at `(x, y)` after all tiles of `b` slide in direction `dir`.
pub open spec fn moved_cell(b: u64, dir: Move, x: int, y: int) -> int {
    match dir {
        Move::Left => shifted(cell(b, 0, y) as int, cell(b, 1, y) as int, cell(b, 2, y) as int)[x],
        Move::Right => shifted(cell(b, 2, y) as int, cell(b, 1, y) as int, cell(b, 0, y) as int)[2 - x],
        Move::Up => shifted(cell(b, x, 0) as int, cell(b, x, 1) as int, cell(b, x, 2) as int)[y],
        Move::Down => shifted(cell(b, x, 2) as int, cell(b, x, 1) as int, cell(b, x, 0) as int)[2 - y],
    }
}

/// The packed board after all tiles of `b` slide in direction `dir`.
pub open spec fn moved(b: u64, dir: Move) -> u64 {
    pack(|x: int, y: int| moved_cell(b, dir, x, y) as u64)
}

/// What `do_move` gives: nothing where the move changes no cell.
pub open spec fn move_result(b: u64, dir: Move) -> Option<Board> {
    if moved(b, dir) == b {
        None
    } else {
        Some(Board(moved(b, dir)))
    }
}

/// Quarter turns that bring direction `dir` to the left.
pub open spec fn turns_of(dir: Move) -> int {
    match dir {
        Move::Left => 0,
        Move::Down => 1,
        Move::Right => 2,
        Move::Up => 3,
    }
}

/// The sum of the nine exponents of `b`.
pub open spec fn cell_sum(b: u64) -> int {
    cell(b, 0, 0) + cell(b, 1, 0) + cell(b, 2, 0) + cell(b, 0, 1) + cell(b, 1, 1) + cell(b, 2, 1)
        + cell(b, 0, 2) + cell(b, 1, 2) + cell(b, 2, 2)
}

/// The exponent sum that wins the game.
pub const WIN_SUM: usize = 45;

/// No direction changes `b`.
pub open spec fn stuck(b: u64) -> bool {
    moved(b, Move::Up) == b && moved(b, Move::Down) == b && moved(b, Move::Left) == b && moved(b, Move::Right) == b
}

/// The won boards: their exponents add up to the winning sum.
pub open spec fn won(b: u64) -> bool {
    cell_sum(b) == WIN_SUM
}

/// The lost boards: no direction changes them, and they are not won.
pub open spec fn lost(b: u64) -> bool {
    stuck(b) && !won(b)
}

/// The move in direction `dir` with the board it gives, where it changes the board.
pub open spec fn move_entry(b: u64, dir: Move) -> Seq<(Board, Move)> {
    match move_result(b, dir) {
        Some(n) => seq![(n, dir)],
        None => Seq::empty(),
    }
}

/// The moves that change `b`, in the order up, down, left, right.
pub open spec fn legal_moves(b: u64) -> Seq<(Board, Move)> {
    move_entry(b, Move::Up) + move_entry(b, Move::Down) + move_entry(b, Move::Left) + move_entry(b, Move::Right)
}

/// `b` with a tile of exponent 1 added at cell index `k` (`x + 3 * y`).
pub open spec fn with_tile(b: u64, k: int) -> Board {
    Board(b | (1u64 << ((4 * k) as u64)))
}

/// The boards made by one new tile of exponent 1 in each empty cell of index
/// below `k`, in the order of the cell index.
pub open spec fn new_tiles(b: u64, k: int) -> Seq<Board>
    decreases k,
{
    if k <= 0 {
        Seq::empty()
    } else {
        let prev = new_tiles(b, k - 1);
        if cell(b, (k - 1) % 3, (k - 1) / 3) == 0 {
            prev.push(with_tile(b, k - 1))
        } else {
            prev
        }
    }
}

/// A board from which no move changes anything is either won or lost,
/// and never both.
pub proof fn lemma_terminal_win_or_loss(b: Board)
    requires
        stuck(b.0),
    ensures
        won(b.0) != lost(b.0),
{
}

/// A move gives nothing exactly when the moved board equals the board.
pub proof fn lemma_no_op_move(b: Board, dir: Move)
    ensures
        move_result(b.0, dir) is None <==> moved(b.0, dir) == b.0,
        legal_moves(b.0).len() == 0 <==> stuck(b.0),
{
}

proof fn lemma_fill_empty(b: u64, k: u64)
    requires
        k < 9,
        (b >> (4 * k)) & 15u64 == 0,
    ensures
        (b & !(15u64 << (4 * k))) | (1u64 << (4 * k)) == b | (1u64 << (4 * k)),
{
    assert((b & !(15u64 << (4 * k))) | (1u64 << (4 * k)) == b | (1u64 << (4 * k))) by (bit_vector)
        requires
            k < 9,
            (b >> (4 * k)) & 15u64 == 0,
    ;
}

/// The value of a tile of exponent `e`: 2 to the `e`, and 0 for an empty cell.
pub open spec fn weight(e: int) -> int
    decreases e,
{
    if e <= 0 {
        0
    } else if e == 1 {
        2
    } else {
        2 * weight(e - 1)
    }
}

/// The total value of the tiles of `b`.
pub open spec fn total(b: u64) -> int {
    weight(cell(b, 0, 0) as int) + weight(cell(b, 1, 0) as int) + weight(cell(b, 2, 0) as int)
        + weight(cell(b, 0, 1) as int) + weight(cell(b, 1, 1) as int) + weight(cell(b, 2, 1) as int)
        + weight(cell(b, 0, 2) as int) + weight(cell(b, 1, 2) as int) + weight(cell(b, 2, 2) as int)
}

proof fn lemma_total_sym(b: u64, g: int)
    requires
        0 <= g < 8,
    ensures
        total(sym(b, g)) == total(b),
{
    lemma_sym_cells(b, g);
    let c = sym(b, g);
    assert(in_grid(0, 0) && in_grid(1, 0) && in_grid(2, 0) && in_grid(0, 1) && in_grid(1, 1) && in_grid(2, 1) && in_grid(0, 2) && in_grid(1, 2) && in_grid(2, 2));
    assert(cell(c, 0, 0) == cell(b, sym_src(g, 0, 0).0, sym_src(g, 0, 0).1));
    assert(cell(c, 1, 0) == cell(b, sym_src(g, 1, 0).0, sym_src(g, 1, 0).1));
    assert(cell(c, 2, 0) == cell(b, sym_src(g, 2, 0).0, sym_src(g, 2, 0).1));
    assert(cell(c, 0, 1) == cell(b, sym_src(g, 0, 1).0, sym_src(g, 0, 1).1));
    assert(cell(c, 1, 1) == cell(b, sym_src(g, 1, 1).0, sym_src(g, 1, 1).1));
    assert(cell(c, 2, 1) == cell(b, sym_src(g, 2, 1).0, sym_src(g, 2, 1).1));
    assert(cell(c, 0, 2) == cell(b, sym_src(g, 0, 2).0, sym_src(g, 0, 2).1));
    assert(cell(c, 1, 2) == cell(b, sym_src(g, 1, 2).0, sym_src(g, 1, 2).1));
    assert(cell(c, 2, 2) == cell(b, sym_src(g, 2, 2).0, sym_src(g, 2, 2).1));
    if g == 0 {
    } else if g == 1 {
    } else if g == 2 {
    } else if g == 3 {
    } else if g == 4 {
    } else if g == 5 {
    } else if g == 6 {
    } else {
    }
}

/// The canonical form of a board holds the same total value.
pub proof fn lemma_total_min_sym(b: u64)
    ensures
        total(min_sym(b)) == total(b),
{
    lemma_total_sym(b, 1);
    lemma_total_sym(b, 2);
    lemma_total_sym(b, 3);
    lemma_total_sym(b, 4);
    lemma_total_sym(b, 5);
    lemma_total_sym(b, 6);
    lemma_total_sym(b, 7);
}

/// A new tile adds 2 to the total value.
pub proof fn lemma_total_with_tile(b: u64, k: int)
    requires
        0 <= k < 9,
        cell(b, k % 3, k / 3) == 0,
    ensures
        total(with_tile(b, k).0) == total(b) + 2,
{
    let n = with_tile(b, k).0;
    assert(4 * (k % 3 + 3 * (k / 3)) == 4 * k);
    lemma_fill_empty(b, k as u64);
    assert forall|x: int, y: int| in_grid(x, y) implies #[trigger] cell(n, x, y) == if x + 3 * y == k {
        1u64
    } else {
        cell(b, x, y)
    } by {
        lemma_set_nibble(b, 1, k as u64, (x + 3 * y) as u64);
    }
    assert(in_grid(0, 0) && in_grid(1, 0) && in_grid(2, 0) && in_grid(0, 1) && in_grid(1, 1) && in_grid(2, 1) && in_grid(0, 2) && in_grid(1, 2) && in_grid(2, 2));
    assert(weight(1) == 2);
    assert(weight(0) == 0);
}

proof fn lemma_line_weight(a: int, b: int, c: int)
    requires
        0 <= a < 16,
        0 <= b < 16,
        0 <= c < 16,
    ensures
        weight(shifted(a, b, c)[0]) + weight(shifted(a, b, c)[1]) + weight(shifted(a, b, c)[2]) == weight(a) + weight(b) + weight(c),
{
    lemma_slid(a, b, c);
    let t = slid(a, b, c);
    assert(weight(0) == 0);
    assert(weight(t[0]) + weight(t[1]) + weight(t[2]) == weight(a) + weight(b) + weight(c));
    if t[0] == t[1] && t[0] != 0 {
        assert(weight(t[0] + 1) == 2 * weight(t[0]));
    } else if t[1] == t[2] && t[1] != 0 {
        assert(weight(t[1] + 1) == 2 * weight(t[1]));
    }
}

proof fn lemma_lines_fit(b: Board, r: int)
    requires
        b.lines_fit(),
        0 <= r < 3,
    ensures
        one_max(b.at(0, r) as int, b.at(1, r) as int, b.at(2, r) as int),
        one_max(b.at(r, 0) as int, b.at(r, 1) as int, b.at(r, 2) as int),
{
}

/// A move keeps the total value of the tiles.
pub proof fn lemma_total_moved(b: Board, dir: Move)
    requires
        b.lines_fit(),
    ensures
        total(moved(b.0, dir)) == total(b.0),
{
    let v = b.0;
    assert(in_grid(0, 0) && in_grid(1, 0) && in_grid(2, 0) && in_grid(0, 1) && in_grid(1, 1) && in_grid(2, 1) && in_grid(0, 2) && in_grid(1, 2) && in_grid(2, 2));
    assert forall|x: int, y: int| in_grid(x, y) implies cell(v, x, y) < 16 && b.at(x, y) == cell(v, x, y) by {
        lemma_cell_bound(v, x, y);
    }
    assert forall|r: int| 0 <= r < 3 implies one_max(cell(v, 0, r) as int, cell(v, 1, r) as int, cell(v, 2, r) as int)
        && one_max(cell(v, 2, r) as int, cell(v, 1, r) as int, cell(v, 0, r) as int)
        && one_max(cell(v, r, 0) as int, cell(v, r, 1) as int, cell(v, r, 2) as int)
        && one_max(cell(v, r, 2) as int, cell(v, r, 1) as int, cell(v, r, 0) as int) by {
        lemma_lines_fit(b, r);
        assert(b.at(0, r) == cell(v, 0, r) && b.at(1, r) == cell(v, 1, r) && b.at(2, r) == cell(v, 2, r));
        assert(b.at(r, 0) == cell(v, r, 0) && b.at(r, 1) == cell(v, r, 1) && b.at(r, 2) == cell(v, r, 2));
    }
    assert forall|r: int| 0 <= r < 3 implies {
        &&& weight(shifted(cell(v, 0, r) as int, cell(v, 1, r) as int, cell(v, 2, r) as int)[0]) + weight(shifted(cell(v, 0, r) as int, cell(v, 1, r) as int, cell(v, 2, r) as int)[1]) + weight(shifted(cell(v, 0, r) as int, cell(v, 1, r) as int, cell(v, 2, r) as int)[2])
            == weight(cell(v, 0, r) as int) + weight(cell(v, 1, r) as int) + weight(cell(v, 2, r) as int)
        &&& weight(shifted(cell(v, 2, r) as int, cell(v, 1, r) as int, cell(v, 0, r) as int)[0]) + weight(shifted(cell(v, 2, r) as int, cell(v, 1, r) as int, cell(v, 0, r) as int)[1]) + weight(shifted(cell(v, 2, r) as int, cell(v, 1, r) as int, cell(v, 0, r) as int)[2])
            == weight(cell(v, 2, r) as int) + weight(cell(v, 1, r) as int) + weight(cell(v, 0, r) as int)
        &&& weight(shifted(cell(v, r, 0) as int, cell(v, r, 1) as int, cell(v, r, 2) as int)[0]) + weight(shifted(cell(v, r, 0) as int, cell(v, r, 1) as int, cell(v, r, 2) as int)[1]) + weight(shifted(cell(v, r, 0) as int, cell(v, r, 1) as int, cell(v, r, 2) as int)[2])
            == weight(cell(v, r, 0) as int) + weight(cell(v, r, 1) as int) + weight(cell(v, r, 2) as int)
        &&& weight(shifted(cell(v, r, 2) as int, cell(v, r, 1) as int, cell(v, r, 0) as int)[0]) + weight(shifted(cell(v, r, 2) as int, cell(v, r, 1) as int, cell(v, r, 0) as int)[1]) + weight(shifted(cell(v, r, 2) as int, cell(v, r, 1) as int, cell(v, r, 0) as int)[2])
            == weight(cell(v, r, 2) as int) + weight(cell(v, r, 1) as int) + weight(cell(v, r, 0) as int)
        &&& forall|k: int| 0 <= k < 3 ==> 0 <= #[trigger] shifted(cell(v, 0, r) as int, cell(v, 1, r) as int, cell(v, 2, r) as int)[k] < 16
        &&& forall|k: int| 0 <= k < 3 ==> 0 <= #[trigger] shifted(cell(v, 2, r) as int, cell(v, 1, r) as int, cell(v, 0, r) as int)[k] < 16
        &&& forall|k: int| 0 <= k < 3 ==> 0 <= #[trigger] shifted(cell(v, r, 0) as int, cell(v, r, 1) as int, cell(v, r, 2) as int)[k] < 16
        &&& forall|k: int| 0 <= k < 3 ==> 0 <= #[trigger] shifted(cell(v, r, 2) as int, cell(v, r, 1) as int, cell(v, r, 0) as int)[k] < 16
    } by {
        lemma_line_weight(cell(v, 0, r) as int, cell(v, 1, r) as int, cell(v, 2, r) as int);
        lemma_line_weight(cell(v, 2, r) as int, cell(v, 1, r) as int, cell(v, 0, r) as int);
        lemma_line_weight(cell(v, r, 0) as int, cell(v, r, 1) as int, cell(v, r, 2) as int);
        lemma_line_weight(cell(v, r, 2) as int, cell(v, r, 1) as int, cell(v, r, 0) as int);
        lemma_shifted_bound(cell(v, 0, r) as int, cell(v, 1, r) as int, cell(v, 2, r) as int);
        lemma_shifted_bound(cell(v, 2, r) as int, cell(v, 1, r) as int, cell(v, 0, r) as int);
        lemma_shifted_bound(cell(v, r, 0) as int, cell(v, r, 1) as int, cell(v, r, 2) as int);
        lemma_shifted_bound(cell(v, r, 2) as int, cell(v, r, 1) as int, cell(v, r, 0) as int);
    }
    let f = |x: int, y: int| moved_cell(v, dir, x, y) as u64;
    assert forall|x: int, y: int| in_grid(x, y) implies f(x, y) < 16 && f(x, y) as int == moved_cell(v, dir, x, y) by {
        match dir {
            Move::Left => { assert(0 <= shifted(cell(v, 0, y) as int, cell(v, 1, y) as int, cell(v, 2, y) as int)[x] < 16); },
            Move::Right => { assert(0 <= shifted(cell(v, 2, y) as int, cell(v, 1, y) as int, cell(v, 0, y) as int)[2 - x] < 16); },
            Move::Up => { assert(0 <= shifted(cell(v, x, 0) as int, cell(v, x, 1) as int, cell(v, x, 2) as int)[y] < 16); },
            Move::Down => { assert(0 <= shifted(cell(v, x, 2) as int, cell(v, x, 1) as int, cell(v, x, 0) as int)[2 - y] < 16); },
        }
    }
    lemma_pack_cells(f);
    let m = moved(v, dir);
    assert(cell(m, 0, 0) as int == moved_cell(v, dir, 0, 0) && cell(m, 1, 0) as int == moved_cell(v, dir, 1, 0) && cell(m, 2, 0) as int == moved_cell(v, dir, 2, 0));
    assert(cell(m, 0, 1) as int == moved_cell(v, dir, 0, 1) && cell(m, 1, 1) as int == moved_cell(v, dir, 1, 1) && cell(m, 2, 1) as int == moved_cell(v, dir, 2, 1));
    assert(cell(m, 0, 2) as int == moved_cell(v, dir, 0, 2) && cell(m, 1, 2) as int == moved_cell(v, dir, 1, 2) && cell(m, 2, 2) as int == moved_cell(v, dir, 2, 2));
    assert(0 <= 0 < 3 && 0 <= 1 < 3 && 0 <= 2 < 3);
}

impl Board {
    /// The exponent at `(x, y)`.
    pub open spec fn at(self, x: int, y: int) -> u64 {
        cell(self.0, x, y)
    }

    /// No row and no column holds two cells of the largest exponent, 15, so
    /// that no move merges past four bits.
    pub open spec fn lines_fit(self) -> bool {
        forall|r: int|
            0 <= r < 3 ==> one_max(self.at(0, r) as int, self.at(1, r) as int, self.at(2, r) as int) && one_max(
                self.at(r, 0) as int,
                self.at(r, 1) as int,
                self.at(r, 2) as int,
            )
    }

    /// Holds nine cells and nothing above them.
    pub open spec fn wf(self) -> bool {
        self.0 < BOARD_LIMIT
    }

    /// The board with no tiles.
    pub fn empty() -> (r: Self)
        ensures
            r.0 == 0,
    {
        Board(0)
    }

    pub fn get(&self, x: usize, y: usize) -> (r: u8)
        requires
            x < 3,
            y < 3,
        ensures
            r as u64 == self.at(x as int, y as int),
            r < 16,
    {
        let raw = self.0 >> (4 * (x + y * 3)) as u64;
        let res = raw & 15;
        assert(raw & 15 < 16) by (bit_vector);
        res as u8
    }

    pub fn set(&mut self, x: usize, y: usize, val: u8)
        requires
            x < 3,
            y < 3,
            val < 16,
        ensures
            forall|i: int, j: int|
                #![trigger final(self).at(i, j)]
                in_grid(i, j) ==> final(self).at(i, j) == if i == x && j == y {
                    val as u64
                } else {
                    old(self).at(i, j)
                },
            old(self).wf() ==> final(self).wf(),
            final(self).0 == (old(self).0 & !(15u64 << ((4 * (x + 3 * y)) as u64))) | ((val as u64) << ((4 * (x + 3 * y)) as u64)),
    {
        let shift: u64 = 4 * (x + y * 3) as u64;
        let mask: u64 = !(15u64 << shift);
        let ghost b = self.0;
        self.0 = self.0 & mask;
        self.0 = self.0 | (val as u64) << shift;
        proof {
            let k = (x + y * 3) as u64;
            assert forall|i: int, j: int| #![trigger self.at(i, j)] in_grid(i, j) implies self.at(i, j)
                == if i == x && j == y {
                val as u64
            } else {
                cell(b, i, j)
            } by {
                lemma_set_nibble(b, val as u64, k, (i + 3 * j) as u64);
            }
            lemma_set_nibble(b, val as u64, k, 0);
        }
    }

    /// The board made from nine exponents in row-major order.
    pub fn create(vals: &[u8; 9]) -> (r: Self)
        requires
            forall|k: int| 0 <= k < 9 ==> vals[k] < 16,
        ensures
            r.wf(),
            forall|x: int, y: int| #![trigger r.at(x, y)] in_grid(x, y) ==> r.at(x, y) == vals[x + 3 * y] as u64,
    {
        let mut out = Board::empty();
        assert(out.wf());
        for i in 0..3
            invariant
                out.wf(),
                forall|k: int| 0 <= k < 9 ==> vals[k] < 16,
                forall|x: int, y: int| #![trigger out.at(x, y)] 0 <= x < i && 0 <= y < 3 ==> out.at(x, y) == vals[x + 3 * y] as u64,
        {
            for j in 0..3
                invariant
                    0 <= i < 3,
                    out.wf(),
                    forall|k: int| 0 <= k < 9 ==> vals[k] < 16,
                    forall|x: int, y: int| #![trigger out.at(x, y)] (0 <= x < i && 0 <= y < 3) || (x == i && 0 <= y < j) ==> out.at(x, y) == vals[x + 3 * y] as u64,
            {
                out.set(i, j, vals[i + j * 3]);
            }
        }
        out
    }

    /// The board turned clockwise by `N` quarter turns.
    pub fn rotate_clockwise<const N: u8>(self) -> (r: Self)
        ensures
            r.0 == sym(self.0, N as int % 4),
            r.wf(),
    {
        let ghost g = N as int % 4;
        let mut out = Board::empty();
        assert(out.wf());
        for i in 0..3
            invariant
                out.wf(),
                g == N as int % 4,
                forall|x: int, y: int| #![trigger out.at(x, y)] 0 <= x < i && 0 <= y < 3 ==> out.at(x, y) == cell(self.0, sym_src(g, x, y).0, sym_src(g, x, y).1),
        {
            for j in 0..3
                invariant
                    0 <= i < 3,
                    out.wf(),
                    g == N as int % 4,
                    forall|x: int, y: int| #![trigger out.at(x, y)] (0 <= x < i && 0 <= y < 3) || (x == i && 0 <= y < j) ==> out.at(x, y) == cell(self.0, sym_src(g, x, y).0, sym_src(g, x, y).1),
            {
                let mut ir: usize = i;
                let mut jr: usize = j;
                for k in 0..N
                    invariant
                        0 <= i < 3,
                        0 <= j < 3,
                        ir < 3,
                        jr < 3,
                        (ir as int, jr as int) == rot_steps(k as nat, i as int, j as int),
                {
                    let i2 = jr;
                    let j2 = 2 - ir;
                    ir = i2;
                    jr = j2;
                }
                proof {
                    lemma_rot_steps(N as nat, i as int, j as int);
                }
                let v = self.get(ir, jr);
                out.set(i, j, v);
            }
        }
        proof {
            let f = |x: int, y: int| cell(self.0, sym_src(g, x, y).0, sym_src(g, x, y).1);
            assert forall|x: int, y: int| in_grid(x, y) implies cell(out.0, x, y) == f(x, y) by {
                assert(out.at(x, y) == cell(out.0, x, y));
            }
            lemma_cells_pack(out.0, f);
        }
        out
    }

    /// The board mirrored left to right.
    pub fn reflect_horizontal(self) -> (r: Self)
        ensures
            r.0 == sym(self.0, 4),
            r.wf(),
    {
        let mut out = Board::empty();
        assert(out.wf());
        for i in 0..3
            invariant
                out.wf(),
                forall|x: int, y: int| #![trigger out.at(x, y)] 0 <= x < i && 0 <= y < 3 ==> out.at(x, y) == cell(self.0, 2 - x, y),
        {
            for j in 0..3
                invariant
                    0 <= i < 3,
                    out.wf(),
                    forall|x: int, y: int| #![trigger out.at(x, y)] (0 <= x < i && 0 <= y < 3) || (x == i && 0 <= y < j) ==> out.at(x, y) == cell(self.0, 2 - x, y),
            {
                let v = self.get(2 - i, j);
                out.set(i, j, v);
            }
        }
        proof {
            let f = |x: int, y: int| cell(self.0, sym_src(4, x, y).0, sym_src(4, x, y).1);
            assert forall|x: int, y: int| in_grid(x, y) implies cell(out.0, x, y) == f(x, y) by {
                assert(out.at(x, y) == cell(out.0, x, y));
            }
            lemma_cells_pack(out.0, f);
        }
        out
    }

    /// The smallest, by packed value, of the board's eight symmetric images.
    pub fn canonical_orientation(self) -> (r: Self)
        ensures
            r.0 == min_sym(self.0),
            r.wf(),
            self.wf() ==> min_sym(r.0) == r.0,
    {
        proof {
            lemma_sym_cells(self.0, 1);
            if self.wf() {
                lemma_canonical_idempotent(self);
            }
        }
        let mut res = self;
        let r1 = self.rotate_clockwise::<1>();
        if r1.0 < res.0 {
            res = r1;
        }
        let r2 = self.rotate_clockwise::<2>();
        if r2.0 < res.0 {
            res = r2;
        }
        let r3 = self.rotate_clockwise::<3>();
        if r3.0 < res.0 {
            res = r3;
        }
        let flip = self.reflect_horizontal();
        if flip.0 < res.0 {
            res = flip;
        }
        let f1 = flip.rotate_clockwise::<1>();
        proof {
            lemma_sym_sym(self.0, 4, 1);
        }
        if f1.0 < res.0 {
            res = f1;
        }
        let f2 = flip.rotate_clockwise::<2>();
        proof {
            lemma_sym_sym(self.0, 4, 2);
        }
        if f2.0 < res.0 {
            res = f2;
        }
        let f3 = flip.rotate_clockwise::<3>();
        proof {
            lemma_sym_sym(self.0, 4, 3);
        }
        if f3.0 < res.0 {
            res = f3;
        }
        res
    }

    /// Moves a line of three exponents toward its start, merging at most one pair.
    pub fn shift_line(vals: &[u8; 3]) -> (r: [u8; 3])
        requires
            forall|k: int| 0 <= k < 3 ==> vals[k] < 16,
        ensures
            forall|k: int| 0 <= k < 3 ==> r[k] as int == #[trigger] shifted(vals[0] as int, vals[1] as int, vals[2] as int)[k],
    {
        let mut out = [0u8; 3];
        let mut next_idx: usize = 0;
        let ghost (a, b, c) = (vals[0] as int, vals[1] as int, vals[2] as int);
        proof {
            lemma_slid(0, 0, 0);
        }
        for i in 0..3
            invariant
                a == vals[0] && b == vals[1] && c == vals[2],
                forall|k: int| 0 <= k < 3 ==> vals[k] < 16,
                next_idx == (if i > 0 && a != 0 { 1int } else { 0 }) + (if i > 1 && b != 0 { 1int } else { 0 }) + (if i > 2 && c != 0 { 1int } else { 0 }),
                out[0] as int == slid_prefix(a, b, c, i as int)[0],
                out[1] as int == slid_prefix(a, b, c, i as int)[1],
                out[2] as int == slid_prefix(a, b, c, i as int)[2],
        {
            let ghost n: int = i + 1;
            proof {
                lemma_slid(if i > 0 { a } else { 0 }, if i > 1 { b } else { 0 }, if i > 2 { c } else { 0 });
                lemma_slid(if n > 0 { a } else { 0 }, if n > 1 { b } else { 0 }, if n > 2 { c } else { 0 });
            }
            if vals[i] != 0 {
                out[next_idx] = vals[i];
                next_idx += 1;
            }
        }
        proof {
            lemma_slid(a, b, c);
        }
        if out[0] == out[1] && out[0] != 0 {
            out[0] += 1;
            out[1] = out[2];
            out[2] = 0;
        } else if out[1] == out[2] && out[1] != 0 {
            out[1] += 1;
            out[2] = 0;
        }
        out
    }

    /// The board after all tiles slide in direction `dir`, or `None` where
    /// nothing moves.
    pub fn do_move(&self, dir: Move) -> (r: Option<Board>)
        requires
            self.lines_fit(),
        ensures
            r == move_result(self.0, dir),
            r is None <==> moved(self.0, dir) == self.0,
            r matches Some(n) ==> n.wf(),
    {
        let mut out = match dir {
            Move::Right => self.rotate_clockwise::<2>(),
            Move::Left => self.rotate_clockwise::<0>(),
            Move::Down => self.rotate_clockwise::<1>(),
            Move::Up => self.rotate_clockwise::<3>(),
        };
        let ghost n = turns_of(dir);
        let ghost start = out.0;
        assert(start == sym(self.0, n));
        proof {
            lemma_sym_cells(self.0, n);
        }
        for i in 0..3
            invariant
                out.wf(),
                self.lines_fit(),
                start == sym(self.0, n),
                0 <= n < 4,
                forall|x: int, y: int| #![trigger cell(start, x, y)] in_grid(x, y) ==> cell(start, x, y) == cell(self.0, sym_src(n, x, y).0, sym_src(n, x, y).1),
                forall|x: int, y: int| #![trigger out.at(x, y)] in_grid(x, y) && y < i ==> out.at(x, y) as int == shifted(cell(start, 0, y) as int, cell(start, 1, y) as int, cell(start, 2, y) as int)[x],
                forall|x: int, y: int| #![trigger out.at(x, y)] in_grid(x, y) && y >= i ==> out.at(x, y) == cell(start, x, y),
        {
            let a = out.get(0, i);
            let b = out.get(1, i);
            let c = out.get(2, i);
            proof {
                let y = i as int;
                let s0 = sym_src(n, 0, y);
                let s1 = sym_src(n, 1, y);
                let s2 = sym_src(n, 2, y);
                assert(cell(start, 0, y) == cell(self.0, s0.0, s0.1));
                assert(cell(start, 1, y) == cell(self.0, s1.0, s1.1));
                assert(cell(start, 2, y) == cell(self.0, s2.0, s2.1));
                assert(self.at(s0.0, s0.1) == cell(self.0, s0.0, s0.1));
                assert(self.at(s1.0, s1.1) == cell(self.0, s1.0, s1.1));
                assert(self.at(s2.0, s2.1) == cell(self.0, s2.0, s2.1));
                lemma_lines_fit(*self, y);
                lemma_lines_fit(*self, 2 - y);
                assert(one_max(a as int, b as int, c as int));
                lemma_shifted_bound(a as int, b as int, c as int);
            }
            let row = Self::shift_line(&[a, b, c]);
            out.set(0, i, row[0]);
            out.set(1, i, row[1]);
            out.set(2, i, row[2]);
        }
        let ret = match dir {
            Move::Right => out.rotate_clockwise::<2>(),
            Move::Left => out.rotate_clockwise::<0>(),
            Move::Down => out.rotate_clockwise::<3>(),
            Move::Up => out.rotate_clockwise::<1>(),
        };
        proof {
            let m = if n == 0 { 0int } else { 4 - n };
            assert(ret.0 == sym(out.0, m));
            lemma_sym_cells(out.0, m);
            let f = |x: int, y: int| moved_cell(self.0, dir, x, y) as u64;
            assert forall|x: int, y: int| in_grid(x, y) implies cell(ret.0, x, y) == f(x, y) by {
                let p = sym_src(m, x, y);
                assert(out.at(p.0, p.1) == cell(out.0, p.0, p.1));
                assert(cell(start, 0, p.1) == cell(self.0, sym_src(n, 0, p.1).0, sym_src(n, 0, p.1).1));
                assert(cell(start, 1, p.1) == cell(self.0, sym_src(n, 1, p.1).0, sym_src(n, 1, p.1).1));
                assert(cell(start, 2, p.1) == cell(self.0, sym_src(n, 2, p.1).0, sym_src(n, 2, p.1).1));
            }
            lemma_cells_pack(ret.0, f);
        }
        if ret == *self {
            None
        } else {
            Some(ret)
        }
    }

    /// Whether the exponents add up to the winning sum.
    pub fn is_win(&self) -> (r: bool)
        ensures
            r == won(self.0),
    {
        let mut sum: usize = 0;
        for i in 0..3
            invariant
                sum == (if i > 0 { cell(self.0, 0, 0) + cell(self.0, 0, 1) + cell(self.0, 0, 2) } else { 0 })
                    + (if i > 1 { cell(self.0, 1, 0) + cell(self.0, 1, 1) + cell(self.0, 1, 2) } else { 0 })
                    + (if i > 2 { cell(self.0, 2, 0) + cell(self.0, 2, 1) + cell(self.0, 2, 2) } else { 0 }),
        {
            for j in 0..3
                invariant
                    0 <= i < 3,
                    sum == (if i > 0 { cell(self.0, 0, 0) + cell(self.0, 0, 1) + cell(self.0, 0, 2) } else { 0 })
                        + (if i > 1 { cell(self.0, 1, 0) + cell(self.0, 1, 1) + cell(self.0, 1, 2) } else { 0 })
                        + (if j > 0 { cell(self.0, i as int, 0) } else { 0 })
                        + (if j > 1 { cell(self.0, i as int, 1) } else { 0 })
                        + (if j > 2 { cell(self.0, i as int, 2) } else { 0 }),
            {
                proof {
                    lemma_cell_bound(self.0, 0, 0);
                    lemma_cell_bound(self.0, 0, 1);
                    lemma_cell_bound(self.0, 0, 2);
                    lemma_cell_bound(self.0, 1, 0);
                    lemma_cell_bound(self.0, 1, 1);
                    lemma_cell_bound(self.0, 1, 2);
                    lemma_cell_bound(self.0, 2, 0);
                    lemma_cell_bound(self.0, 2, 1);
                    lemma_cell_bound(self.0, 2, 2);
                }
                sum += self.get(i, j) as usize;
            }
        }
        sum == WIN_SUM
    }

    /// Whether no move changes the board and it is not won.
    pub fn is_loss(&self) -> (r: bool)
        requires
            self.lines_fit(),
        ensures
            r == lost(self.0),
    {
        let dirs = [Move::Up, Move::Down, Move::Left, Move::Right];
        for k in 0..4
            invariant
                self.lines_fit(),
                dirs@ == seq![Move::Up, Move::Down, Move::Left, Move::Right],
                forall|t: int| 0 <= t < k ==> moved(self.0, #[trigger] dirs@[t]) == self.0,
        {
            if self.do_move(dirs[k]).is_some() {
                return false;
            }
        }
        assert(moved(self.0, dirs@[0]) == self.0 && moved(self.0, dirs@[1]) == self.0);
        assert(moved(self.0, dirs@[2]) == self.0 && moved(self.0, dirs@[3]) == self.0);
        !self.is_win()
    }

    /// Each move that changes the board, with the board it gives, in the
    /// order up, down, left, right.
    pub fn possible_moves(&self) -> (r: Vec<(Board, Move)>)
        requires
            self.lines_fit(),
        ensures
            r@ == legal_moves(self.0),
            forall|i: int| 0 <= i < r@.len() ==> (#[trigger] r@[i]).0.wf(),
    {
        let s = *self;
        let dirs = [Move::Up, Move::Down, Move::Left, Move::Right];
        let mut out: Vec<(Board, Move)> = Vec::new();
        for k in 0..4
            invariant
                s == *self,
                self.lines_fit(),
                dirs@ == seq![Move::Up, Move::Down, Move::Left, Move::Right],
                forall|i: int| 0 <= i < out@.len() ==> (#[trigger] out@[i]).0.wf(),
                out@ == (if k > 0 { move_entry(self.0, Move::Up) } else { Seq::empty() })
                    + (if k > 1 { move_entry(self.0, Move::Down) } else { Seq::empty() })
                    + (if k > 2 { move_entry(self.0, Move::Left) } else { Seq::empty() })
                    + (if k > 3 { move_entry(self.0, Move::Right) } else { Seq::empty() }),
        {
            let m = dirs[k];
            match s.do_move(m) {
                Some(b) => {
                    out.push((b, m));
                },
                None => {},
            }
            assert(out@ =~= (if k + 1 > 0 { move_entry(self.0, Move::Up) } else { Seq::empty() })
                + (if k + 1 > 1 { move_entry(self.0, Move::Down) } else { Seq::empty() })
                + (if k + 1 > 2 { move_entry(self.0, Move::Left) } else { Seq::empty() })
                + (if k + 1 > 3 { move_entry(self.0, Move::Right) } else { Seq::empty() }));
        }
        out
    }

    /// Each board made by a new tile of exponent 1 in one empty cell, in the
    /// order of the cell index.
    pub fn possible_new_tiles(&self) -> (r: Vec<Board>)
        ensures
            r@ == new_tiles(self.0, 9),
            self.wf() ==> forall|i: int| 0 <= i < r@.len() ==> (#[trigger] r@[i]).wf(),
    {
        let b = *self;
        let mut out: Vec<Board> = Vec::new();
        for i in 0..9
            invariant
                b == *self,
                out@ == new_tiles(self.0, i as int),
                self.wf() ==> forall|t: int| 0 <= t < out@.len() ==> (#[trigger] out@[t]).wf(),
        {
            let x: usize = i % 3;
            let y: usize = i / 3;
            if b.get(x, y) == 0 {
                let mut n = b;
                n.set(x, y, 1);
                proof {
                    lemma_fill_empty(b.0, i as u64);
                    assert(4 * (x + 3 * y) == 4 * i);
                }
                out.push(n);
            }
        }
        out
    }

    /// Whether no row and no column holds two cells of exponent 15, so that
    /// no move overflows a cell.
    pub fn has_lines_fit(&self) -> (r: bool)
        ensures
            r == self.lines_fit(),
    {
        for r in 0..3
            invariant
                forall|k: int|
                    0 <= k < r ==> one_max(self.at(0, k) as int, self.at(1, k) as int, self.at(2, k) as int) && one_max(
                        self.at(k, 0) as int,
                        self.at(k, 1) as int,
                        self.at(k, 2) as int,
                    ),
        {
            let (a, b, c) = (self.get(0, r), self.get(1, r), self.get(2, r));
            if (a == 15 && b == 15) || (a == 15 && c == 15) || (b == 15 && c == 15) {
                return false;
            }
            let (d, e, f) = (self.get(r, 0), self.get(r, 1), self.get(r, 2));
            if (d == 15 && e == 15) || (d == 15 && f == 15) || (e == 15 && f == 15) {
                return false;
            }
        }
        true
    }
}

} // verus!
