use operators::circuit::{Circuit, CircuitError, Representation, Step};
use operators::field::{
    add_residues, is_prime_modulus, mul_residues, negate_residue, pow_residue, sub_residues,
};
use operators::less_than::baby_steps;
use operators::matching::{decide, fill_orders, Decision};
use operators::{
    compute_lt_coefficients, convert_u64_to_i64, read_values, store_values, univariate_less_than,
};

#[test]
fn residue_arithmetic() {
    assert_eq!(add_residues(65536, 65536, 65537), 65535);
    assert_eq!(add_residues(u64::MAX, u64::MAX, u64::MAX - 1), 2);
    assert_eq!(sub_residues(3, 5, 17), 15);
    assert_eq!(sub_residues(5, 3, 17), 2);
    assert_eq!(negate_residue(0, 17), 0);
    assert_eq!(negate_residue(4, 17), 13);
    assert_eq!(mul_residues(65536, 65536, 65537), 1);
    assert_eq!(mul_residues(u64::MAX, u64::MAX, 1_000_000_007), 114_944_269);
    assert_eq!(pow_residue(3, 0, 17), 1);
    assert_eq!(pow_residue(3, 16, 17), 1);
    assert_eq!(pow_residue(3, 5, 17), 5);
    assert_eq!(pow_residue(2, 10, 1), 0);
    assert_eq!(pow_residue(3, 65536, 65537), 1);
}

#[test]
fn primality() {
    let primes = [2u64, 3, 5, 7, 11, 13, 257, 65537, 1_000_000_007];
    for p in primes {
        assert!(is_prime_modulus(p), "{p}");
    }
    let others = [0u64, 1, 4, 9, 15, 255, 65535, 65536, 4_295_098_369];
    for n in others {
        assert!(!is_prime_modulus(n), "{n}");
    }
}

#[test]
fn baby_step_counts() {
    assert_eq!(baby_steps(0), 0);
    assert_eq!(baby_steps(1), 1);
    assert_eq!(baby_steps(3), 1);
    assert_eq!(baby_steps(4), 2);
    assert_eq!(baby_steps(32768), 181);
    assert_eq!(baby_steps(u64::MAX), 4_294_967_295);
}

#[test]
fn coefficients_of_small_primes() {
    assert_eq!(compute_lt_coefficients(2), Ok(vec![]));
    assert_eq!(compute_lt_coefficients(3), Ok(vec![1]));
    assert_eq!(compute_lt_coefficients(5), Ok(vec![4, 3]));
    assert_eq!(compute_lt_coefficients(7), Ok(vec![3, 1, 6]));
    assert_eq!(compute_lt_coefficients(9), Err(CircuitError::ModulusNotPrime));
    assert_eq!(compute_lt_coefficients(1), Err(CircuitError::ModulusNotPrime));
}

#[test]
fn circuit_modulus_must_be_prime() {
    assert!(matches!(Circuit::new(15), Err(CircuitError::ModulusNotPrime)));
    assert!(matches!(Circuit::new(0), Err(CircuitError::ModulusNotPrime)));
    let circuit = Circuit::new(65537).unwrap();
    assert_eq!(circuit.modulus(), 65537);
    assert_eq!(circuit.wires(), 0);
    assert_eq!(circuit.inputs(), 0);
    assert_eq!(circuit.len(), 0);
}

#[test]
fn modulus_two_cannot_compare() {
    let mut circuit = Circuit::new(2).unwrap();
    let x = circuit.input();
    let y = circuit.input();
    assert_eq!(univariate_less_than(&mut circuit, x, y, &[]), Err(CircuitError::ModulusTooSmall));
    assert_eq!(circuit.len(), 2);
}

#[test]
fn every_step_does_what_it_says() {
    let p = 17u64;
    let mut circuit = Circuit::new(p).unwrap();
    let a = circuit.input();
    let b = circuit.input();
    let copy = circuit.duplicate(a);
    let difference = circuit.subtract(a, b);
    let negated = circuit.negate(a);
    let product = circuit.multiply(a, b);
    let lazy = circuit.multiply_lazy(a, b);
    let back = circuit.normalize(lazy);
    let scaled = circuit.multiply_plain(a, 5);
    circuit.add_assign(copy, b);
    circuit.add_plain_assign(difference, 20, Representation::Coefficient);
    circuit.multiply_plain_assign(lazy, 3);
    circuit.negate_assign(product);
    circuit.change_representation(scaled, Representation::Evaluation);
    assert_eq!(circuit.wires(), 9);
    assert_eq!(circuit.inputs(), 2);
    assert_eq!(circuit.len(), 14);
    assert_eq!(circuit.count_multiplications(), 2);
    // a plaintext was multiplied to a ciphertext in coefficient representation
    assert!(!circuit.is_disciplined());
    assert!(matches!(circuit.step(1), Step::Input { position: 1 }));
    assert!(matches!(
        circuit.step(13),
        Step::ChangeRepresentation { target, .. } if target == scaled
    ));
    let regs = circuit.evaluate(&[6, 40]);
    assert_eq!(regs.len(), 9);
    assert_eq!(regs[a], 6);
    assert_eq!(regs[b], 6);
    assert_eq!(regs[copy], 12);
    assert_eq!(regs[difference], 3);
    assert_eq!(regs[negated], 11);
    assert_eq!(regs[product], 15);
    assert_eq!(regs[lazy], 6);
    assert_eq!(regs[back], 2);
    assert_eq!(regs[scaled], 13);
    // an input that is not supplied counts as zero
    let regs = circuit.evaluate(&[6]);
    assert_eq!(regs[b], 0);
    assert_eq!(regs[difference], 9);
}

#[test]
fn stored_values_are_little_endian_words() {
    let bytes = store_values(&[1, 0x0102_0304_0506_0708]);
    assert_eq!(bytes, vec![1, 0, 0, 0, 0, 0, 0, 0, 8, 7, 6, 5, 4, 3, 2, 1]);
    assert_eq!(read_values(&bytes), Ok(vec![1, 0x0102_0304_0506_0708]));
    assert_eq!(store_values(&[]), Vec::<u8>::new());
    assert_eq!(read_values(&[]), Ok(vec![]));
    assert_eq!(read_values(&[0xff, 0, 0, 0, 0, 0, 0, 0x80]), Ok(vec![0x8000_0000_0000_00ff]));
    let coefficients = compute_lt_coefficients(257).unwrap();
    assert_eq!(read_values(&store_values(&coefficients)), Ok(coefficients));
}

#[test]
fn broken_store_is_refused() {
    assert_eq!(read_values(&[1, 2, 3, 4, 5, 6, 7]), Err(CircuitError::MalformedValues));
    assert_eq!(read_values(&[0; 9]), Err(CircuitError::MalformedValues));
}

#[test]
fn signed_readings() {
    assert_eq!(convert_u64_to_i64(&[0, 32767, 32768, 65536], 65537), vec![0, 32767, -32769, -1]);
    assert_eq!(convert_u64_to_i64(&[4, 5, 9, 10], 10), vec![4, -5, -1, 0]);
    assert_eq!(
        convert_u64_to_i64(&[u64::MAX / 2, u64::MAX / 2 - 1], u64::MAX),
        vec![i64::MIN, i64::MAX - 1]
    );
}

#[test]
fn matching_decisions() {
    assert_eq!(decide(1), Some(Decision::Fill));
    assert_eq!(decide(0), Some(Decision::Skip));
    assert_eq!(decide(2), None);
    assert_eq!(fill_orders(&[5, 4, 3, 2], 9), vec![5, 0, 3, 0]);
    assert_eq!(fill_orders(&[9, 8], 9), vec![0, 8]);
    assert_eq!(fill_orders(&[], 9), Vec::<u64>::new());
}

#[test]
fn forms_are_checked_step_by_step() {
    let mut circuit = Circuit::new(17).unwrap();
    let a = circuit.input();
    let b = circuit.input();
    let lazy = circuit.multiply_lazy(a, b);
    circuit.multiply_plain_assign(lazy, 9);
    let back = circuit.normalize(lazy);
    circuit.change_representation(a, Representation::Evaluation);
    let scaled = circuit.multiply_plain(a, 3);
    circuit.add_plain_assign(scaled, 1, Representation::Evaluation);
    circuit.change_representation(scaled, Representation::Coefficient);
    circuit.add_assign(back, scaled);
    assert!(circuit.is_disciplined());
    // an extended ciphertext cannot be added to one at base size
    circuit.add_assign(back, lazy);
    assert!(!circuit.is_disciplined());
}
