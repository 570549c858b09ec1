use tokenviz::board::{highlight, snapshot, Coord, Input, Output};

fn c(y: usize, x: usize) -> Coord {
    Coord { y, x }
}

fn small_board() -> Input {
    Input { N: 2, C: 1, grid: vec![vec![1, 0], vec![0, 0]] }
}

fn two_moves() -> Output {
    Output { L: 2, actions: vec![(c(0, 0), c(0, 1)), (c(0, 1), c(1, 1))] }
}

#[test]
fn replay_two_turns() {
    let b = small_board();
    let o = two_moves();
    assert_eq!(snapshot(&b, &o, 2), vec![vec![0, 0], vec![0, 1]]);
    assert_eq!(highlight(&o, 2), vec![1, 0]);
}

#[test]
fn replay_one_turn() {
    let b = small_board();
    let o = two_moves();
    assert_eq!(snapshot(&b, &o, 1), vec![vec![0, 1], vec![0, 0]]);
    assert_eq!(highlight(&o, 1), vec![0]);
}

#[test]
fn replay_zero_turns_keeps_board() {
    let b = small_board();
    let o = two_moves();
    assert_eq!(snapshot(&b, &o, 0), b.grid);
    assert_eq!(highlight(&o, 0), Vec::<usize>::new());
}

#[test]
fn replay_step_by_step_matches_full() {
    let b = Input { N: 3, C: 2, grid: vec![vec![1, 0, 2], vec![0, -1, 0], vec![2, 0, 1]] };
    let o = Output {
        L: 3,
        actions: vec![(c(0, 0), c(1, 0)), (c(2, 2), c(2, 1)), (c(1, 0), c(0, 1))],
    };
    let mut g = b.grid.clone();
    for t in 0..3 {
        let (from, to) = o.actions[t];
        let v = g[from.y][from.x];
        g[from.y][from.x] = 0;
        g[to.y][to.x] = v;
        assert_eq!(snapshot(&b, &o, t + 1), g);
    }
    assert_eq!(snapshot(&b, &o, 3), vec![vec![0, 1, 2], vec![0, -1, 0], vec![2, 1, 0]]);
}

#[test]
fn pure_chain_highlights_every_move() {
    let o = Output {
        L: 4,
        actions: vec![
            (c(0, 0), c(0, 1)),
            (c(0, 1), c(1, 1)),
            (c(1, 1), c(1, 0)),
            (c(1, 0), c(2, 0)),
        ],
    };
    assert_eq!(highlight(&o, 4), vec![3, 2, 1, 0]);
}

#[test]
fn unrelated_moves_highlight_last_only() {
    let o = Output {
        L: 3,
        actions: vec![(c(0, 0), c(0, 1)), (c(2, 2), c(1, 1)), (c(0, 0), c(2, 0))],
    };
    assert_eq!(highlight(&o, 3), vec![2]);
    assert_eq!(highlight(&o, 2), vec![1]);
}

#[test]
fn chain_stops_at_first_break() {
    let o = Output {
        L: 4,
        actions: vec![
            (c(0, 0), c(0, 1)),
            (c(2, 2), c(1, 1)),
            (c(1, 1), c(1, 2)),
            (c(1, 2), c(0, 2)),
        ],
    };
    assert_eq!(highlight(&o, 4), vec![3, 2, 1]);
}

#[test]
fn move_onto_itself_keeps_token() {
    let b = small_board();
    let o = Output { L: 1, actions: vec![(c(0, 0), c(0, 0))] };
    assert_eq!(snapshot(&b, &o, 1), vec![vec![1, 0], vec![0, 0]]);
}
