use tokenviz::generator::gen;
use tokenviz::rnd::Rng;

fn check_board(seed: usize) {
    let b = gen(seed);
    assert!(8 <= b.N && b.N <= 30);
    assert!(1 <= b.C && b.C <= 6);
    assert_eq!(b.grid.len(), b.N);
    for row in &b.grid {
        assert_eq!(row.len(), b.N);
        for &v in row {
            assert!(v >= -1 && v <= b.C as isize);
        }
    }
    for k in 1..=b.C as isize {
        let count: usize = b.grid.iter().map(|r| r.iter().filter(|&&v| v == k).count()).sum();
        assert_eq!(count, b.N);
    }
    for y in 0..b.N {
        let blocked = b.grid[y].iter().filter(|&&v| v == -1).count();
        assert!(blocked <= b.N - b.C);
    }
    for x in 0..b.N {
        let blocked = (0..b.N).filter(|&y| b.grid[y][x] == -1).count();
        assert!(blocked <= b.N - b.C);
    }
}

#[test]
fn generated_boards_are_valid() {
    for seed in 1..40 {
        check_board(seed);
    }
    check_board(123456789);
}

#[test]
fn generation_is_deterministic() {
    for seed in [1usize, 2, 17, 99, 4242] {
        let a = gen(seed);
        let b = gen(seed);
        assert_eq!(a.N, b.N);
        assert_eq!(a.C, b.C);
        assert_eq!(a.grid, b.grid);
    }
}

#[test]
fn first_draws_follow_xorshift() {
    let mut r = Rng::init(1);
    assert_eq!(r.gen(), 129);
    assert_eq!(r.gen(), 16417);
}

#[test]
fn range_draws_stay_in_range() {
    let mut r = Rng::init(5);
    for _ in 0..200 {
        let v = r.gen_range(3, 10);
        assert!(3 <= v && v < 10);
    }
    let mut s = Rng::init(1);
    assert_eq!(s.gen_range(8, 31), 129 % 23 + 8);
}

#[test]
fn bool_and_milli_draws() {
    let mut r = Rng::init(1);
    assert!(r.gen_bool());
    let mut s = Rng::init(1);
    assert_eq!(s.gen_milli(), 129);
    assert_eq!(s.gen_milli(), 16417 % 1000);
}

#[test]
fn signed_range_draws() {
    let mut r = Rng::init(1);
    let v = r.gen_range_isize(100);
    assert_eq!(v, -29);
    let mut s = Rng::init(1);
    let w = s.gen_range_neg_wrapping(100);
    assert_eq!(w, 29usize.wrapping_neg());
    let mut t = Rng::init(9);
    for _ in 0..100 {
        let x = t.gen_range_isize(7);
        assert!(-7 < x && x < 7);
    }
}

#[test]
fn seed_zero_still_gives_a_board() {
    check_board(0);
}
