use operators::circuit::Circuit;
use operators::{compute_lt_coefficients, powers_of_x, sort, sort_equality_subroutine};

fn sort_plain(p: u64, coefficients: &[u64], values: &[u64]) -> Vec<u64> {
    let mut circuit = Circuit::new(p).unwrap();
    let wires: Vec<usize> = values.iter().map(|_| circuit.input()).collect();
    let sorted = sort(&mut circuit, &wires, coefficients).unwrap();
    assert!(circuit.is_disciplined());
    let regs = circuit.evaluate(values);
    sorted.iter().map(|w| regs[*w]).collect()
}

#[test]
fn sort_small_primes_descending() {
    for &p in &[5u64, 7, 11, 13, 17] {
        let coefficients = compute_lt_coefficients(p).unwrap();
        let top = (p - 1) / 2;
        for a in 0..=top {
            for b in 0..=top {
                for c in 0..=top {
                    let mut expected = vec![a, b, c];
                    expected.sort_by(|x, y| y.cmp(x));
                    assert_eq!(sort_plain(p, &coefficients, &[a, b, c]), expected, "p={p}");
                }
            }
        }
    }
}

#[test]
fn sort_of_one_is_unchanged() {
    let coefficients = compute_lt_coefficients(13).unwrap();
    let mut circuit = Circuit::new(13).unwrap();
    let x = circuit.input();
    let sorted = sort(&mut circuit, &[x], &coefficients).unwrap();
    assert_eq!(sorted, vec![x]);
    assert_eq!(circuit.len(), 1);
    let none = sort(&mut circuit, &[], &coefficients).unwrap();
    assert!(none.is_empty());
    assert_eq!(circuit.len(), 1);
}

#[test]
fn selector_picks_matching_rank() {
    let p = 11u64;
    let ranks = [2u64, 0, 1, 3];
    let candidates = [40u64 % p, 7, 9, 5];
    for target in 0usize..5 {
        let mut circuit = Circuit::new(p).unwrap();
        let rank_wires: Vec<usize> = ranks.iter().map(|_| circuit.input()).collect();
        let value_wires: Vec<usize> = candidates.iter().map(|_| circuit.input()).collect();
        let mut tables = Vec::new();
        for w in &rank_wires {
            tables.push(powers_of_x(&mut circuit, *w, (p - 1) as usize).unwrap());
        }
        let out = sort_equality_subroutine(&mut circuit, target, &tables, &value_wires);
        let mut inputs = ranks.to_vec();
        inputs.extend_from_slice(&candidates);
        let regs = circuit.evaluate(&inputs);
        let expected = match ranks.iter().position(|r| *r == target as u64) {
            Some(j) => candidates[j],
            None => 0,
        };
        assert_eq!(regs[out], expected, "target={target}");
    }
}

#[test]
fn sorting_takes_the_stated_multiplications() {
    let p = 13u64;
    let coefficients = compute_lt_coefficients(p).unwrap();
    let mut circuit = Circuit::new(p).unwrap();
    let wires = vec![circuit.input(), circuit.input(), circuit.input()];
    sort(&mut circuit, &wires, &coefficients).unwrap();
    // three comparisons of 7, three tables of 11, nine products
    assert_eq!(circuit.count_multiplications(), 3 * 7 + 3 * 11 + 3 * 3);
}
