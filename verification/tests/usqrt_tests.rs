use next_prime::usqrt;

#[test]
fn small_perfect_squares() {
    let inputs = (1..11).collect::<Vec<u64>>();
    let squares = inputs.iter().map(|x| x * x).collect::<Vec<u64>>();
    let outputs = squares.into_iter().map(usqrt).collect::<Vec<u64>>();
    assert_eq!(inputs, outputs);
}

#[test]
fn large_perfect_squares() {
    let inputs = (1000..10000).step_by(37).collect::<Vec<u64>>();
    let squares = inputs.iter().map(|x| x * x).collect::<Vec<u64>>();
    let outputs = squares.into_iter().map(usqrt).collect::<Vec<u64>>();
    assert_eq!(inputs, outputs);
}

#[test]
fn edge_case_zero() {
    assert_eq!(usqrt(0), 0);
}

#[test]
fn edge_case_one() {
    assert_eq!(usqrt(1), 1);
}

#[test]
fn rounds_up_when_not_a_perfect_square() {
    assert_eq!(usqrt(2), 2);
}

#[test]
fn large_not_perfect_square() {
    let x: u64 = 12345;
    assert_eq!(usqrt(x * x + 1), x + 1)
}

#[test]
fn just_above_squares_round_up() {
    for k in 1u64..200 {
        assert_eq!(usqrt(k * k + 1), k + 1);
    }
}

#[test]
fn ceiling_property_holds_on_a_sweep() {
    for n in 0u64..2000 {
        let r: u64 = usqrt(n);
        assert!(r * r >= n);
        if r > 0 {
            assert!((r - 1) * (r - 1) < n);
        }
    }
}

#[test]
fn handles_the_largest_input() {
    assert_eq!(usqrt(u64::MAX), 1u64 << 32);
    assert_eq!(usqrt((1u64 << 32) * (1u64 << 31)), 3037000500);
}
