use operators::circuit::{Circuit, CircuitError};
use operators::{compute_lt_coefficients, convert_u64_to_i64, powers_of_x, univariate_less_than};

fn signed(value: i64, p: u64) -> u64 {
    if value < 0 {
        p - ((-value) as u64)
    } else {
        value as u64
    }
}

fn less_than_plain(p: u64, coefficients: &[u64], x: i64, y: i64) -> u64 {
    let mut circuit = Circuit::new(p).unwrap();
    let wx = circuit.input();
    let wy = circuit.input();
    let out = univariate_less_than(&mut circuit, wx, wy, coefficients).unwrap();
    assert!(circuit.is_disciplined());
    let regs = circuit.evaluate(&[signed(x, p), signed(y, p)]);
    regs[out]
}

#[test]
fn convert_centers_residues() {
    assert_eq!(convert_u64_to_i64(&[0, 1, 8, 9, 16], 17), vec![0, 1, -9, -8, -1]);
    assert_eq!(convert_u64_to_i64(&[], 17), Vec::<i64>::new());
}

#[test]
fn powers_hold_every_power() {
    let p = 257u64;
    for max in 1usize..40 {
        let mut circuit = Circuit::new(p).unwrap();
        let x = circuit.input();
        let table = powers_of_x(&mut circuit, x, max).unwrap();
        assert_eq!(table.len(), max);
        assert_eq!(circuit.len(), 1 + max);
        assert_eq!(circuit.count_multiplications(), max - 1);
        assert!(circuit.is_disciplined());
        let regs = circuit.evaluate(&[3]);
        let mut expected = 1u64;
        for k in 0..max {
            expected = expected * 3 % p;
            assert_eq!(regs[table[k]], expected);
        }
    }
}

#[test]
fn powers_of_nothing_is_refused() {
    let mut circuit = Circuit::new(17).unwrap();
    let x = circuit.input();
    assert_eq!(powers_of_x(&mut circuit, x, 0), Err(CircuitError::EmptyPowerTable));
    assert_eq!(circuit.len(), 1);
}

#[test]
fn less_than_on_small_primes() {
    for &p in &[3u64, 5, 7, 11, 13, 17, 19, 23, 29, 31, 37, 101] {
        let coefficients = compute_lt_coefficients(p).unwrap();
        assert_eq!(coefficients.len() as u64, (p - 1) / 2);
        let half = ((p - 1) / 2) as i64;
        for x in -half..=half {
            for y in -half..=half {
                if (x - y).abs() <= half {
                    let expected = if x < y { 1 } else { 0 };
                    assert_eq!(less_than_plain(p, &coefficients, x, y), expected, "p={p} x={x} y={y}");
                }
            }
        }
    }
}
