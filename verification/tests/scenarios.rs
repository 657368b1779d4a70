use operators::circuit::{Circuit, CircuitError, Step};
use operators::field::{add_residues, pow_residue};
use operators::less_than::baby_steps;
use operators::matching::transaction_volume;
use operators::{sort, univariate_less_than};
use rand::{thread_rng, Rng};

const T: u64 = 65537;
const SLOTS: usize = 1 << 4;

/// The coefficients for 65537, by a number-theoretic transform over the
/// multiplicative group, which 3 generates.
fn coefficients_65537() -> Vec<u64> {
    let n = (T - 1) as usize;
    let mut a = vec![0u64; n];
    let mut power = 1u64;
    for t in 0..n {
        if power <= (T - 1) / 2 {
            a[t] = 1;
        }
        power = power * 3 % T;
    }
    let mut j = 0usize;
    for i in 1..n {
        let mut bit = n >> 1;
        while j & bit != 0 {
            j ^= bit;
            bit >>= 1;
        }
        j ^= bit;
        if i < j {
            a.swap(i, j);
        }
    }
    let mut len = 2usize;
    while len <= n {
        let root = pow_residue(3, (n / len) as u64, T);
        let mut start = 0usize;
        while start < n {
            let mut w = 1u64;
            for k in 0..len / 2 {
                let u = a[start + k];
                let v = a[start + k + len / 2] * w % T;
                a[start + k] = (u + v) % T;
                a[start + k + len / 2] = (u + T - v) % T;
                w = w * root % T;
            }
            start += len;
        }
        len <<= 1;
    }
    let half = ((T - 1) / 2) as usize;
    (0..half).map(|j| a[(T as usize - 2 - 2 * j) % n]).collect()
}

fn slotwise(circuit: &Circuit, inputs: &[Vec<u64>], wire: usize) -> Vec<u64> {
    (0..SLOTS)
        .map(|slot| {
            let plain: Vec<u64> = inputs.iter().map(|v| v[slot]).collect();
            circuit.evaluate(&plain)[wire]
        })
        .collect()
}

#[test]
fn coefficients_65537_match_their_definition() {
    let coefficients = coefficients_65537();
    assert_eq!(coefficients.len(), 32768);
    for &j in &[0usize, 1, 2, 16383, 32766, 32767] {
        let exponent = T - 2 - 2 * j as u64;
        let mut alpha = 0u64;
        for a in 1..=(T - 1) / 2 {
            alpha = add_residues(alpha, pow_residue(a, exponent, T), T);
        }
        assert_eq!(coefficients[j], alpha, "j={j}");
    }
}

#[test]
fn less_than_works() {
    let mut rng = thread_rng();
    let mx: Vec<u64> = (0..SLOTS).map(|_| rng.gen_range(0..T / 2)).collect();
    let my: Vec<u64> = (0..SLOTS).map(|_| rng.gen_range(0..T / 2)).collect();

    println!("mx: {:?}", mx);
    println!("my: {:?}", my);

    let coefficients = coefficients_65537();
    let mut circuit = Circuit::new(T).unwrap();
    let x = circuit.input();
    let y = circuit.input();
    let mut res = univariate_less_than(&mut circuit, x, y, &coefficients).unwrap();
    res = univariate_less_than(&mut circuit, x, y, &coefficients).unwrap();
    res = univariate_less_than(&mut circuit, x, y, &coefficients).unwrap();

    let res_m = slotwise(&circuit, &[mx.clone(), my.clone()], res);
    println!("res_m: {:?}", res_m);
    let expected = mx
        .iter()
        .zip(my.iter())
        .map(|(x, y)| if x < y { 1 } else { 0 })
        .collect::<Vec<u64>>();
    assert_eq!(res_m, expected);
}

#[test]
fn comparison_scenario() {
    let coefficients = coefficients_65537();
    let mut circuit = Circuit::new(T).unwrap();
    let x = circuit.input();
    let y = circuit.input();
    let res = univariate_less_than(&mut circuit, x, y, &coefficients).unwrap();
    for &(a, b, expected) in &[(5u64, 10u64, 1u64), (10, 5, 0), (7, 7, 0)] {
        let out = slotwise(&circuit, &[vec![a; SLOTS], vec![b; SLOTS]], res);
        assert_eq!(out, vec![expected; SLOTS]);
    }
    // negative numbers of the signed range
    let regs = circuit.evaluate(&[T - 3, 2]);
    assert_eq!(regs[res], 1);
    let regs = circuit.evaluate(&[2, T - 3]);
    assert_eq!(regs[res], 0);
}

#[test]
fn comparison_needs_the_difference_in_range() {
    let coefficients = coefficients_65537();
    let mut circuit = Circuit::new(T).unwrap();
    let x = circuit.input();
    let y = circuit.input();
    let res = univariate_less_than(&mut circuit, x, y, &coefficients).unwrap();
    // -30000 < 30000, but their difference wraps around to 5537
    let regs = circuit.evaluate(&[T - 30000, 30000]);
    assert_eq!(regs[res], 0);
    // the largest difference that still fits
    let regs = circuit.evaluate(&[T - 16384, 16384]);
    assert_eq!(regs[res], 1);
}

#[test]
fn repeated_comparison_gives_the_same_outcome() {
    let coefficients = coefficients_65537();
    let mut circuit = Circuit::new(T).unwrap();
    let x = circuit.input();
    let y = circuit.input();
    let first = univariate_less_than(&mut circuit, x, y, &coefficients).unwrap();
    let second = univariate_less_than(&mut circuit, x, y, &coefficients).unwrap();
    assert_ne!(first, second);
    for &(a, b) in &[(1u64, 2u64), (2, 1), (30000, 30000), (0, 32767)] {
        let regs = circuit.evaluate(&[a, b]);
        assert_eq!(regs[first], regs[second]);
        assert_eq!(regs[first], if a < b { 1 } else { 0 });
    }
}

#[test]
fn comparison_schedule_for_65537() {
    let coefficients = coefficients_65537();
    assert_eq!(baby_steps((T - 1) / 2), 181);
    let mut circuit = Circuit::new(T).unwrap();
    let x = circuit.input();
    let y = circuit.input();
    univariate_less_than(&mut circuit, x, y, &coefficients).unwrap();
    let mut multiply = 0;
    let mut lazy = 0;
    let mut normalize = 0;
    let mut plain = 0;
    for index in 0..circuit.len() {
        match circuit.step(index) {
            Step::Multiply { .. } => multiply += 1,
            Step::MultiplyLazy { .. } => lazy += 1,
            Step::Normalize { .. } => normalize += 1,
            Step::MultiplyPlain { .. } => plain += 1,
            _ => {}
        }
    }
    assert_eq!(circuit.count_multiplications(), multiply + lazy);
    assert!(circuit.is_disciplined());
    // the square, 180 baby steps and 180 giant steps
    assert_eq!(multiply, 1 + 180 + 180);
    // the leading power, 181 blocks, and the product with z
    assert_eq!(lazy, 1 + 181 + 1);
    assert_eq!(normalize, 2);
    // one per coefficient of positive degree within its block
    assert_eq!(plain, 32768 - 182);
}

#[test]
fn sorting_scenario() {
    let coefficients = coefficients_65537();
    let mut circuit = Circuit::new(T).unwrap();
    let wires = vec![circuit.input(), circuit.input(), circuit.input()];
    let sorted = sort(&mut circuit, &wires, &coefficients).unwrap();
    assert_eq!(sorted.len(), 3);
    assert!(circuit.is_disciplined());
    let regs = circuit.evaluate(&[3, 1, 2]);
    let out: Vec<u64> = sorted.iter().map(|w| regs[*w]).collect();
    assert_eq!(out, vec![3, 2, 1]);
    let regs = circuit.evaluate(&[7, 7, 9]);
    let out: Vec<u64> = sorted.iter().map(|w| regs[*w]).collect();
    assert_eq!(out, vec![9, 7, 7]);
}

#[test]
fn transaction_volume_scenario() {
    let coefficients = coefficients_65537();
    let mut circuit = Circuit::new(T).unwrap();
    let buy = circuit.input();
    let sell = circuit.input();
    let less = univariate_less_than(&mut circuit, buy, sell, &coefficients).unwrap();
    let regs = circuit.evaluate(&[12, 9]);
    assert_eq!(regs[less], 0);
    assert_eq!(transaction_volume(regs[less], 12, 9), Some(9));
    let regs = circuit.evaluate(&[4, 9]);
    assert_eq!(regs[less], 1);
    assert_eq!(transaction_volume(regs[less], 4, 9), Some(4));
    assert_eq!(transaction_volume(2, 4, 9), None);
}

#[test]
fn mismatched_coefficients_are_refused() {
    let coefficients = coefficients_65537();
    let mut circuit = Circuit::new(257).unwrap();
    let x = circuit.input();
    let y = circuit.input();
    assert_eq!(
        univariate_less_than(&mut circuit, x, y, &coefficients),
        Err(CircuitError::ModulusMismatch)
    );
    assert_eq!(sort(&mut circuit, &[x, y], &coefficients), Err(CircuitError::ModulusMismatch));
    assert_eq!(circuit.len(), 2);
}
