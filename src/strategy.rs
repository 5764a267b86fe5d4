use vstd::prelude::*;

use crate::board::{legal_moves, min_sym, move_entry, move_result, new_tiles, Board, Move};
use boomphf::Mphf;

verus! {

#[verifier::external_type_specification]
#[verifier::external_body]
#[verifier::reject_recursive_types(T)]
pub struct ExMphf<T>(Mphf<T>);

/// The slot that a minimal perfect hash function gives each key of the set it
/// was built over.
pub uninterp spec fn mphf_slots(h: Mphf<u64>) -> Map<u64, u64>;

/// Relies on `boomphf::Mphf::try_hash`: for a key of the construction set it
/// returns that key's slot; for any other key, an arbitrary value or `None`.
#[verifier::external_body]
fn try_slot(h: &Mphf<u64>, key: u64) -> (r: Option<u64>)
    ensures
        mphf_slots(*h).contains_key(key) ==> r == Some(mphf_slots(*h)[key]),
{
    h.try_hash(&key)
}

/// A solved table: a minimal perfect hash over canonical boards, and for each
/// slot the win probability quantized to 0..=255.
pub struct Strategy {
    pub hash: Mphf<u64>,
    pub vals: Vec<u8>,
}

/// Whether a move with `sa` over `ca` beats one with `sb` over `cb`: a strictly
/// greater mean.
pub open spec fn beats(sa: int, ca: int, sb: int, cb: int) -> bool {
    sa * cb > sb * ca
}

impl Strategy {
    /// The table knows the canonical form of `b`, at a slot that it holds.
    pub open spec fn knows(self, b: u64) -> bool {
        mphf_slots(self.hash).contains_key(min_sym(b)) && mphf_slots(self.hash)[min_sym(b)] < self.vals@.len()
    }

    /// The quantized win rate stored for the canonical form of a known board.
    pub open spec fn rate(self, b: u64) -> int {
        self.vals@[mphf_slots(self.hash)[min_sym(b)] as int] as int
    }

    /// The sum of the quantized win rates of the first `k` boards of `s`.
    pub open spec fn rate_sum(self, s: Seq<Board>, k: int) -> int
        decreases k,
    {
        if k <= 0 {
            0
        } else {
            self.rate_sum(s, k - 1) + self.rate(s[k - 1].0)
        }
    }

    /// All boards of `s` are known.
    pub open spec fn knows_all(self, s: Seq<Board>) -> bool {
        forall|i: int| 0 <= i < s.len() ==> self.knows(#[trigger] s[i].0)
    }

    /// Sum and count of the win rates after move `e`, over each new tile.
    pub open spec fn outcome(self, e: (Board, Move)) -> (int, int) {
        let t = new_tiles(e.0.0, 9);
        (self.rate_sum(t, t.len() as int), t.len() as int)
    }

    /// The index, among the first `k` of `moves`, of the move with the greatest
    /// mean outcome, the earliest among equals; -1 where `k` is 0.
    pub open spec fn best_index(self, moves: Seq<(Board, Move)>, k: int) -> int
        decreases k,
    {
        if k <= 0 {
            -1
        } else {
            let p = self.best_index(moves, k - 1);
            let a = self.outcome(moves[k - 1]);
            if p < 0 || beats(a.0, a.1, self.outcome(moves[p]).0, self.outcome(moves[p]).1) {
                k - 1
            } else {
                p
            }
        }
    }

    /// The quantized win rate of `b`'s canonical form, where the table knows it.
    pub fn quantized_win_rate(&self, b: &Board) -> (r: Option<u8>)
        ensures
            self.knows(b.0) ==> r == Some(self.vals@[mphf_slots(self.hash)[min_sym(b.0)] as int]),
    {
        let c = b.canonical_orientation();
        match try_slot(&self.hash, c.0) {
            Some(i) => {
                if i < self.vals.len() as u64 {
                    Some(self.vals[i as usize])
                } else {
                    None
                }
            },
            None => None,
        }
    }

    /// Sum and count of the quantized win rates over each new tile on `b`.
    fn tile_outcome(&self, b: &Board) -> (r: (u64, u64))
        requires
            self.knows_all(new_tiles(b.0, 9)),
        ensures
            r.0 == self.outcome((*b, Move::Left)).0,
            r.1 == self.outcome((*b, Move::Left)).1,
    {
        let tiles = b.possible_new_tiles();
        let ghost t = new_tiles(b.0, 9);
        proof {
            lemma_new_tiles_len(b.0, 9);
        }
        let mut sum: u64 = 0;
        let mut count: u64 = 0;
        for i in 0..tiles.len()
            invariant
                tiles@ == t,
                t.len() <= 9,
                self.knows_all(t),
                count == i,
                sum == self.rate_sum(t, i as int),
                sum <= 255 * i,
        {
            assert(self.knows(t[i as int].0));
            let q = match self.quantized_win_rate(&tiles[i]) {
                Some(q) => q,
                None => 0,
            };
            sum = sum + q as u64;
            count = count + 1;
        }
        (sum, count)
    }

    /// The direction whose moved board has the greatest mean win rate over its
    /// new tiles, the first among equals in the order up, down, left, right;
    /// left where no direction changes the board.
    pub fn best_move(&self, b: &Board) -> (r: Move)
        requires
            b.lines_fit(),
            forall|i: int| 0 <= i < legal_moves(b.0).len() ==> self.knows_all(new_tiles((#[trigger] legal_moves(b.0)[i]).0.0, 9)),
        ensures
            legal_moves(b.0).len() == 0 ==> r == Move::Left,
            legal_moves(b.0).len() > 0 ==> r == legal_moves(b.0)[self.best_index(legal_moves(b.0), legal_moves(b.0).len() as int)].1,
            legal_moves(b.0).len() > 0 ==> move_result(b.0, r) is Some,
    {
        let moves = b.possible_moves();
        let ghost ms = legal_moves(b.0);
        let mut best: Option<(u64, u64, Move)> = None;
        let ghost mut bi: int = -1;
        for k in 0..moves.len()
            invariant
                moves@ == ms,
                ms == legal_moves(b.0),
                ms.len() <= 4,
                forall|i: int| 0 <= i < ms.len() ==> self.knows_all(new_tiles((#[trigger] ms[i]).0.0, 9)),
                bi == self.best_index(ms, k as int),
                k == 0 <==> best is None,
                k > 0 ==> 0 <= bi < k,
                best matches Some(bm) ==> bm.0 == self.outcome(ms[bi]).0 && bm.1 == self.outcome(ms[bi]).1 && bm.2 == ms[bi].1
                    && bm.0 <= 255 * 9 && bm.1 <= 9,
        {
            proof {
                lemma_legal_moves_len(b.0);
            }
            let (nb, m) = moves[k];
            assert(self.knows_all(new_tiles(ms[k as int].0.0, 9)));
            let (sum, count) = self.tile_outcome(&nb);
            proof {
                lemma_new_tiles_len(nb.0, 9);
                self.lemma_rate_sum_bound(new_tiles(nb.0, 9), new_tiles(nb.0, 9).len() as int);
            }
            assert(sum <= 255 * 9 && count <= 9);
            let take = match best {
                None => true,
                Some((bs, bc, _)) => {
                    assert(sum * bc <= 255 * 9 * 9) by (nonlinear_arith)
                        requires
                            sum <= 255 * 9,
                            bc <= 9,
                    ;
                    assert(bs * count <= 255 * 9 * 9) by (nonlinear_arith)
                        requires
                            bs <= 255 * 9,
                            count <= 9,
                    ;
                    sum * bc > bs * count
                },
            };
            if take {
                best = Some((sum, count, m));
                proof {
                    bi = k as int;
                }
            }
        }
        proof {
            lemma_legal_moves_len(b.0);
            if ms.len() > 0 {
                lemma_legal_move_changes(b.0, bi);
            }
        }
        match best {
            Some((_, _, m)) => m,
            None => Move::Left,
        }
    }

    proof fn lemma_rate_sum_bound(self, s: Seq<Board>, k: int)
        requires
            0 <= k <= s.len(),
            self.knows_all(s),
        ensures
            0 <= self.rate_sum(s, k) <= 255 * k,
        decreases k,
    {
        if k > 0 {
            self.lemma_rate_sum_bound(s, k - 1);
            assert(self.knows(s[k - 1].0));
        }
    }
}

proof fn lemma_new_tiles_len(b: u64, k: int)
    requires
        0 <= k,
    ensures
        new_tiles(b, k).len() <= k,
    decreases k,
{
    if k > 0 {
        lemma_new_tiles_len(b, k - 1);
    }
}

pub(crate) proof fn lemma_legal_move_changes(b: u64, i: int)
    requires
        0 <= i < legal_moves(b).len(),
    ensures
        move_result(b, legal_moves(b)[i].1) == Some(legal_moves(b)[i].0),
{
    let (u, d, l, r) = (move_entry(b, Move::Up), move_entry(b, Move::Down), move_entry(b, Move::Left), move_entry(b, Move::Right));
    assert(legal_moves(b) == u + d + l + r);
    if i < u.len() {
        assert(legal_moves(b)[i] == u[i]);
    } else if i < u.len() + d.len() {
        assert(legal_moves(b)[i] == d[i - u.len()]);
    } else if i < u.len() + d.len() + l.len() {
        assert(legal_moves(b)[i] == l[i - u.len() - d.len()]);
    } else {
        assert(legal_moves(b)[i] == r[i - u.len() - d.len() - l.len()]);
    }
}

proof fn lemma_legal_moves_len(b: u64)
    ensures
        legal_moves(b).len() <= 4,
{
}

} // verus!
