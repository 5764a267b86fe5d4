use boomphf::Mphf;
use puzzle512::{Board, Move, Strategy};

/// A table over `boards` (canonicalized) with the given quantized rates.
fn table(boards: &[Board], rates: &[u8]) -> Strategy {
    let keys: Vec<u64> = boards.iter().map(|b| b.canonical_orientation().0).collect();
    let hash = Mphf::new(2.0, &keys);
    let mut vals = vec![0u8; keys.len()];
    for i in 0..keys.len() {
        vals[hash.hash(&keys[i]) as usize] = rates[i];
    }
    Strategy { hash, vals }
}

/// Every board one turn away from `b`, with the rate given by `rate`.
fn children_with(b: Board, rate: impl Fn(Move) -> u8) -> (Vec<Board>, Vec<u8>) {
    let mut boards = Vec::new();
    let mut rates = Vec::new();
    for (m_board, m) in b.possible_moves() {
        for t in m_board.possible_new_tiles() {
            boards.push(t.canonical_orientation());
            rates.push(rate(m));
        }
    }
    let mut seen = Vec::new();
    let mut out_rates = Vec::new();
    for (i, c) in boards.iter().enumerate() {
        if !seen.contains(c) {
            seen.push(*c);
            out_rates.push(rates[i]);
        }
    }
    (seen, out_rates)
}

#[test]
fn quantized_win_rate_reads_the_canonical_slot() {
    let a = Board::create(&[1, 0, 0, 0, 0, 0, 0, 0, 0]);
    let b = Board::create(&[1, 1, 0, 0, 0, 0, 0, 0, 0]);
    let c = Board::create(&[2, 0, 1, 0, 0, 0, 0, 0, 0]);
    let s = table(&[a, b, c], &[10, 200, 255]);
    assert_eq!(s.quantized_win_rate(&a), Some(10));
    assert_eq!(s.quantized_win_rate(&b), Some(200));
    assert_eq!(s.quantized_win_rate(&c), Some(255));
    let a_turned = Board::create(&[0, 0, 0, 0, 0, 0, 0, 0, 1]);
    assert_eq!(s.quantized_win_rate(&a_turned), Some(10));
}

#[test]
fn best_move_picks_the_greatest_mean() {
    let b = Board::create(&[1, 2, 0, 0, 0, 0, 0, 0, 0]);
    let canon = |m: Board| -> Vec<Board> {
        m.possible_new_tiles().iter().map(|t| t.canonical_orientation()).collect()
    };
    let down = canon(b.do_move(Move::Down).unwrap());
    let right = canon(b.do_move(Move::Right).unwrap());
    assert!(down.iter().all(|c| !right.contains(c)));
    let (boards, rates) = children_with(b, |m| if m == Move::Right { 90 } else { 30 });
    let s = table(&boards, &rates);
    assert_eq!(s.best_move(&b), Move::Right);
    let (boards, rates) = children_with(b, |m| if m == Move::Right { 30 } else { 90 });
    let s = table(&boards, &rates);
    assert_eq!(s.best_move(&b), Move::Down);
}

#[test]
fn best_move_breaks_ties_by_first_direction() {
    let b = Board::create(&[0, 0, 0, 0, 1, 0, 0, 0, 0]);
    let (boards, rates) = children_with(b, |_| 77);
    let s = table(&boards, &rates);
    assert_eq!(s.best_move(&b), Move::Up);
}

#[test]
fn best_move_is_always_a_legal_direction() {
    let b = Board::create(&[1, 2, 3, 0, 0, 0, 0, 0, 0]);
    let (boards, rates) = children_with(b, |_| 0);
    let s = table(&boards, &rates);
    let m = s.best_move(&b);
    assert_eq!(m, Move::Down);
    assert!(b.do_move(m).is_some());
}

#[test]
fn best_move_without_moves_is_left() {
    let b = Board::create(&[1, 2, 1, 2, 1, 2, 1, 2, 1]);
    let s = table(&[b], &[0]);
    assert_eq!(s.best_move(&b), Move::Left);
}

#[test]
fn stored_table_answers_the_same_after_a_round_trip() {
    let boards = [
        Board::create(&[1, 0, 0, 0, 0, 0, 0, 0, 0]),
        Board::create(&[1, 1, 0, 0, 0, 0, 0, 0, 0]),
        Board::create(&[2, 0, 1, 0, 0, 0, 0, 0, 0]),
        Board::create(&[3, 2, 1, 0, 1, 0, 0, 0, 0]),
    ];
    let s = table(&boards, &[0, 64, 128, 255]);
    let bytes = bincode::serialize(&(s.hash.clone(), s.vals.clone())).unwrap();
    let (hash, vals): (Mphf<u64>, Vec<u8>) = bincode::deserialize(&bytes).unwrap();
    let t = Strategy { hash, vals };
    for b in boards.iter() {
        assert_eq!(t.quantized_win_rate(b), s.quantized_win_rate(b));
        assert!(t.quantized_win_rate(b).is_some());
    }
}
