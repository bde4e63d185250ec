use quantum_sim::{
    apply_gate, can_be_factored, choose_with_draw, collapse, complement, decimal_text, extract,
    find_nonzero, identity_matrix, is_from_one, length, measure, norm, pass_gate, power_of_two,
    probabilities, can_read_qubit, qubit_span, tensor_factor, tensor_product_matrix,
    tensor_product_matrix_single, tensor_product_vector, tensor_product_vector_single, Amplitude,
    Real, SimulationError,
};
use rand::Rng;

#[derive(Clone, Copy, Debug, PartialEq)]
struct R(f64);

#[derive(Clone, Copy, Debug, PartialEq)]
struct C(f64, f64);

impl Real for R {
    fn zero() -> Self {
        R(0.0)
    }
    fn plus(&self, rhs: &Self) -> Self {
        R(self.0 + rhs.0)
    }
    fn minus(&self, rhs: &Self) -> Self {
        R(self.0 - rhs.0)
    }
    fn square(&self) -> Self {
        R(self.0.powf(2.0))
    }
    fn root(&self) -> Self {
        R(self.0.powf(0.5))
    }
    fn less_than(&self, rhs: &Self) -> bool {
        self.0 < rhs.0
    }
    fn ratio(count: usize, total: usize) -> Self {
        R(count as f64 / total as f64)
    }
    fn draw() -> Self {
        R(rand::thread_rng().gen::<f64>())
    }
    fn percent_text(&self) -> String {
        format!("{:.2}", 100.0 * self.0)
    }
    fn degrees_text(&self) -> String {
        format!("{:.0}", self.0 * 180.0 / std::f64::consts::PI)
    }
}

impl Amplitude for C {
    type Real = R;

    fn zero() -> Self {
        C(0.0, 0.0)
    }
    fn one() -> Self {
        C(1.0, 0.0)
    }
    fn plus(&self, rhs: &Self) -> Self {
        C(self.0 + rhs.0, self.1 + rhs.1)
    }
    fn times(&self, rhs: &Self) -> Self {
        C(self.0 * rhs.0 - self.1 * rhs.1, self.0 * rhs.1 + self.1 * rhs.0)
    }
    fn negated(&self) -> Self {
        C(-1.0 * self.0, -1.0 * self.1)
    }
    fn conjugate(&self) -> Self {
        C(self.0, -1.0 * self.1)
    }
    fn norm_sqr(&self) -> R {
        R(self.0.powf(2.0) + self.1.powf(2.0))
    }
    fn over(&self, divisor: &R) -> Self {
        C(self.0 / divisor.0, self.1 / divisor.0)
    }
    fn same(&self, rhs: &Self) -> bool {
        self.0 == rhs.0 && self.1 == rhs.1
    }
    fn spinor(angle: &R) -> (Self, Self) {
        (C((angle.0 / 2.0).sin(), 0.0), C((angle.0 / 2.0).cos(), 0.0))
    }
    fn parts_text(&self) -> (String, String) {
        (format!("{:.3}", self.0), format!("{:.3}", self.1))
    }
}

fn zero() -> Vec<C> {
    vec![C(1.0, 0.0), C(0.0, 0.0)]
}

fn one() -> Vec<C> {
    vec![C(0.0, 0.0), C(1.0, 0.0)]
}

fn identity() -> Vec<Vec<C>> {
    vec![vec![C(1.0, 0.0), C(0.0, 0.0)], vec![C(0.0, 0.0), C(1.0, 0.0)]]
}

fn hadamard() -> Vec<Vec<C>> {
    let h = 1.0 / 2.0_f64.powf(0.5);
    vec![vec![C(h, 0.0), C(h, 0.0)], vec![C(h, 0.0), C(-h, 0.0)]]
}

fn cnot() -> Vec<Vec<C>> {
    let o = C(1.0, 0.0);
    let z = C(0.0, 0.0);
    vec![vec![o, z, z, z], vec![z, o, z, z], vec![z, z, z, o], vec![z, z, o, z]]
}

fn close(a: C, b: C) -> bool {
    (a.0 - b.0).abs() < 1e-9 && (a.1 - b.1).abs() < 1e-9
}

fn squared_norm(v: &Vec<C>) -> f64 {
    v.iter().map(|z| z.0 * z.0 + z.1 * z.1).sum()
}

#[test]
fn reads_most_significant_bit_first() {
    assert!(!is_from_one(0, 0, 4));
    assert!(!is_from_one(0, 1, 4));
    assert!(is_from_one(0, 2, 4));
    assert!(is_from_one(0, 3, 4));
    assert!(!is_from_one(1, 0, 4));
    assert!(is_from_one(1, 1, 4));
    assert!(!is_from_one(1, 2, 4));
    assert!(is_from_one(1, 3, 4));
}

#[test]
fn reads_each_bit_of_a_three_qubit_index() {
    for k in 0..8usize {
        assert_eq!(is_from_one(0, k, 8), k & 4 != 0);
        assert_eq!(is_from_one(1, k, 8), k & 2 != 0);
        assert_eq!(is_from_one(2, k, 8), k & 1 != 0);
    }
}

#[test]
fn reading_needs_a_block_that_is_not_empty() {
    assert!(can_read_qubit(8, 0));
    assert!(can_read_qubit(8, 3));
    assert!(!can_read_qubit(8, 4));
    assert!(!can_read_qubit(0, 0));
    assert!(!can_read_qubit(1, 70));
}

#[test]
fn span_is_the_binary_logarithm() {
    assert_eq!(qubit_span(0), 0);
    assert_eq!(qubit_span(1), 0);
    assert_eq!(qubit_span(2), 1);
    assert_eq!(qubit_span(3), 1);
    assert_eq!(qubit_span(4), 2);
    assert_eq!(qubit_span(8), 3);
    assert_eq!(qubit_span(1024), 10);
}

#[test]
fn product_of_two_vectors_varies_the_second_index_faster() {
    let a = vec![C(1.0, 0.0), C(2.0, 0.0)];
    let b = vec![C(3.0, 0.0), C(4.0, 0.0), C(0.0, 1.0)];
    let p = tensor_product_vector_single(&a, &b);
    assert_eq!(
        p,
        vec![C(3.0, 0.0), C(4.0, 0.0), C(0.0, 1.0), C(6.0, 0.0), C(8.0, 0.0), C(0.0, 2.0)]
    );
}

#[test]
fn product_of_a_list_goes_from_left_to_right() {
    let a = vec![C(1.0, 0.0), C(2.0, 0.0)];
    let b = vec![C(3.0, 0.0), C(4.0, 0.0)];
    let c = vec![C(0.0, 1.0), C(1.0, 0.0)];
    let p = tensor_product_vector(vec![&a, &b, &c]);
    assert_eq!(
        p,
        vec![
            C(0.0, 3.0),
            C(3.0, 0.0),
            C(0.0, 4.0),
            C(4.0, 0.0),
            C(0.0, 6.0),
            C(6.0, 0.0),
            C(0.0, 8.0),
            C(8.0, 0.0)
        ]
    );
}

#[test]
fn product_of_one_vector_is_the_vector() {
    let a = vec![C(1.0, 5.0), C(2.0, 0.0)];
    assert_eq!(tensor_product_vector(vec![&a]), a);
}

#[test]
fn product_with_an_empty_vector_is_empty() {
    let a = vec![C(1.0, 5.0), C(2.0, 0.0)];
    let e: Vec<C> = vec![];
    assert_eq!(tensor_product_vector(vec![&a, &e]), e);
    assert_eq!(tensor_product_vector(vec![&e, &a]), e);
}

#[test]
fn product_of_two_matrices_is_the_kronecker_product() {
    let x = vec![vec![C(0.0, 0.0), C(1.0, 0.0)], vec![C(1.0, 0.0), C(0.0, 0.0)]];
    let p = tensor_product_matrix_single(&x, &identity());
    let o = C(1.0, 0.0);
    let z = C(0.0, 0.0);
    assert_eq!(
        p,
        vec![vec![z, z, o, z], vec![z, z, z, o], vec![o, z, z, z], vec![z, o, z, z]]
    );
}

#[test]
fn product_of_a_list_of_matrices_has_the_product_of_the_dimensions() {
    let p = tensor_product_matrix(vec![&cnot(), &identity(), &hadamard()]);
    assert_eq!(p.len(), 16);
    for row in p.iter() {
        assert_eq!(row.len(), 16);
    }
    let h = 1.0 / 2.0_f64.powf(0.5);
    assert!(close(p[0][0], C(h, 0.0)));
    assert!(close(p[1][1], C(-h, 0.0)));
    assert!(close(p[8][12], C(h, 0.0)));
    assert!(close(p[8][8], C(0.0, 0.0)));
}

#[test]
fn identity_matrix_has_ones_on_the_diagonal() {
    assert_eq!(identity_matrix::<C>(), identity());
}

#[test]
fn gate_multiplies_rows_with_the_state() {
    let mut state = vec![C(1.0, 0.0), C(0.0, 1.0)];
    let gate = vec![vec![C(1.0, 0.0), C(2.0, 0.0)], vec![C(0.0, 1.0), C(3.0, 0.0)]];
    assert_eq!(pass_gate(&mut state, &gate), Ok(()));
    assert_eq!(state, vec![C(1.0, 2.0), C(0.0, 4.0)]);
}

#[test]
fn hadamard_splits_a_basis_state_evenly() {
    let h = 1.0 / 2.0_f64.powf(0.5);
    let mut state = zero();
    assert_eq!(pass_gate(&mut state, &hadamard()), Ok(()));
    assert!(close(state[0], C(h, 0.0)));
    assert!(close(state[1], C(h, 0.0)));
    let mut state = one();
    assert_eq!(pass_gate(&mut state, &hadamard()), Ok(()));
    assert!(close(state[0], C(h, 0.0)));
    assert!(close(state[1], C(-h, 0.0)));
}

#[test]
fn gate_of_another_dimension_is_a_mismatch() {
    let mut state = zero();
    assert_eq!(pass_gate(&mut state, &cnot()), Err(SimulationError::DimensionMismatch));
    assert_eq!(state, zero());
    let short = vec![vec![C(1.0, 0.0)], vec![C(0.0, 0.0), C(1.0, 0.0)]];
    assert_eq!(pass_gate(&mut state, &short), Err(SimulationError::DimensionMismatch));
    assert_eq!(state, zero());
}

#[test]
fn gate_on_an_empty_state_does_nothing() {
    let mut state: Vec<C> = vec![];
    let gate: Vec<Vec<C>> = vec![];
    assert_eq!(pass_gate(&mut state, &gate), Ok(()));
    assert!(state.is_empty());
}

#[test]
fn length_is_the_euclidean_norm() {
    assert_eq!(length(&vec![C(3.0, 0.0), C(0.0, 4.0)]), R(5.0));
    assert_eq!(length(&Vec::<C>::new()), R(0.0));
}

#[test]
fn norm_divides_by_the_length() {
    let mut v = vec![C(3.0, 0.0), C(0.0, 4.0)];
    norm(&mut v);
    assert_eq!(v, vec![C(0.6, 0.0), C(0.0, 0.8)]);
}

#[test]
fn normalized_vectors_have_squared_norm_one() {
    let mut rng = rand::thread_rng();
    for _ in 0..200 {
        let mut v: Vec<C> = (0..8).map(|_| C(rng.gen::<f64>() - 0.5, rng.gen::<f64>() - 0.5)).collect();
        norm(&mut v);
        assert!((squared_norm(&v) - 1.0).abs() < 1e-9);
    }
}

#[test]
fn norm_of_a_zero_vector_is_not_a_number() {
    let mut v = vec![C(0.0, 0.0), C(0.0, 0.0)];
    norm(&mut v);
    assert!(v[0].0.is_nan());
}

#[test]
fn complement_negates_the_imaginary_part() {
    assert_eq!(complement(C(1.0, 2.0)), C(1.0, -2.0));
}

#[test]
fn probabilities_are_squared_magnitudes() {
    assert_eq!(
        probabilities(&vec![C(3.0, 4.0), C(0.0, 0.0), C(0.5, 0.0)]),
        vec![R(25.0), R(0.0), R(0.25)]
    );
}

#[test]
fn walk_stops_where_the_sum_exceeds_the_draw() {
    let probs = vec![R(0.25), R(0.25), R(0.5)];
    assert_eq!(choose_with_draw(&probs, R(0.0)), Some(0));
    assert_eq!(choose_with_draw(&probs, R(0.2)), Some(0));
    assert_eq!(choose_with_draw(&probs, R(0.25)), Some(1));
    assert_eq!(choose_with_draw(&probs, R(0.3)), Some(1));
    assert_eq!(choose_with_draw(&probs, R(0.5)), Some(2));
    assert_eq!(choose_with_draw(&probs, R(0.99)), Some(2));
}

#[test]
fn walk_runs_out_when_the_sum_falls_short() {
    let probs = vec![R(0.25), R(0.25), R(0.5)];
    assert_eq!(choose_with_draw(&probs, R(1.0)), None);
    assert_eq!(choose_with_draw(&Vec::<R>::new(), R(0.0)), None);
    assert_eq!(choose_with_draw(&vec![R(0.0), R(0.0)], R(0.0)), None);
}

#[test]
fn collapse_zeroes_what_disagrees() {
    let mut state = vec![C(1.0, 0.0), C(2.0, 0.0), C(3.0, 0.0), C(4.0, 0.0)];
    collapse(&mut state, 0, true);
    assert_eq!(state, vec![C(0.0, 0.0), C(0.0, 0.0), C(3.0, 0.0), C(4.0, 0.0)]);
    let mut state = vec![C(1.0, 0.0), C(2.0, 0.0), C(3.0, 0.0), C(4.0, 0.0)];
    collapse(&mut state, 1, false);
    assert_eq!(state, vec![C(1.0, 0.0), C(0.0, 0.0), C(3.0, 0.0), C(0.0, 0.0)]);
}

#[test]
fn measuring_a_basis_state_reads_it() {
    let mut state = one();
    assert_eq!(measure(&mut state, 0), Ok(true));
    assert_eq!(state, one());
    let mut state = zero();
    assert_eq!(measure(&mut state, 0), Ok(false));
    assert_eq!(state, zero());
}

#[test]
fn measuring_leaves_exact_zeros_and_norm_one() {
    for _ in 0..100 {
        let mut state = tensor_product_vector(vec![&zero(), &zero()]);
        pass_gate(&mut state, &tensor_product_matrix(vec![&hadamard(), &hadamard()])).unwrap();
        let outcome = measure(&mut state, 1).unwrap();
        for k in 0..4 {
            if is_from_one(1, k, 4) != outcome {
                assert_eq!(state[k], C(0.0, 0.0));
            }
        }
        assert!((squared_norm(&state) - 1.0).abs() < 1e-9);
    }
}

#[test]
fn measuring_a_state_without_amplitude_exhausts_the_distribution() {
    let mut state = vec![C(0.0, 0.0), C(0.0, 0.0)];
    assert_eq!(measure(&mut state, 0), Err(SimulationError::ExhaustedDistribution));
    assert_eq!(state, vec![C(0.0, 0.0), C(0.0, 0.0)]);
}

#[test]
fn measuring_a_qubit_that_is_not_there_is_a_mismatch() {
    let mut state = one();
    assert_eq!(measure(&mut state, 2), Err(SimulationError::DimensionMismatch));
    assert_eq!(state, one());
}

#[test]
fn gate_is_widened_by_identities() {
    let x = vec![vec![C(0.0, 0.0), C(1.0, 0.0)], vec![C(1.0, 0.0), C(0.0, 0.0)]];
    let mut state = tensor_product_vector(vec![&zero(), &zero(), &zero()]);
    assert_eq!(apply_gate(&mut state, &x, 1, 3), Ok(()));
    let mut expected = vec![C(0.0, 0.0); 8];
    expected[2] = C(1.0, 0.0);
    assert_eq!(state, expected);
    assert_eq!(apply_gate(&mut state, &cnot(), 1, 3), Ok(()));
    let mut expected = vec![C(0.0, 0.0); 8];
    expected[3] = C(1.0, 0.0);
    assert_eq!(state, expected);
}

#[test]
fn gate_that_does_not_fit_the_register_is_a_mismatch() {
    let mut state = tensor_product_vector(vec![&zero(), &zero()]);
    let before = state.clone();
    assert_eq!(apply_gate(&mut state, &cnot(), 1, 2), Err(SimulationError::DimensionMismatch));
    assert_eq!(apply_gate(&mut state, &hadamard(), 2, 2), Err(SimulationError::DimensionMismatch));
    assert_eq!(apply_gate(&mut state, &hadamard(), 7, 2), Err(SimulationError::DimensionMismatch));
    assert_eq!(
        apply_gate(&mut state, &vec![vec![C(1.0, 0.0)]], 0, 2),
        Err(SimulationError::DimensionMismatch)
    );
    assert_eq!(
        apply_gate(&mut state, &Vec::<Vec<C>>::new(), 0, 2),
        Err(SimulationError::DimensionMismatch)
    );
    assert_eq!(apply_gate(&mut state, &hadamard(), 0, 3), Err(SimulationError::DimensionMismatch));
    assert_eq!(state, before);
}

#[test]
fn rank_one_test_tells_product_states_from_entangled_ones() {
    let h = 1.0 / 2.0_f64.powf(0.5);
    let plus = vec![C(h, 0.0), C(h, 0.0)];
    let product = tensor_product_vector(vec![&zero(), &plus]);
    assert!(can_be_factored(&product, 2));
    let bell = vec![C(h, 0.0), C(0.0, 0.0), C(0.0, 0.0), C(h, 0.0)];
    assert!(!can_be_factored(&bell, 2));
}

#[test]
fn first_nonzero_is_found() {
    assert_eq!(find_nonzero(&vec![C(0.0, 0.0), C(-0.0, 0.0), C(0.0, 2.0), C(1.0, 0.0)]), Some(2));
    assert_eq!(find_nonzero(&vec![C(0.0, 0.0), C(0.0, 0.0)]), None);
    assert_eq!(find_nonzero(&Vec::<C>::new()), None);
}

#[test]
fn extraction_splits_a_product() {
    let h = 1.0 / 2.0_f64.powf(0.5);
    let plus = vec![C(h, 0.0), C(h, 0.0)];
    let product = tensor_product_vector(vec![&one(), &plus]);
    let (factor, rest) = extract(&product, 2, 2, 2);
    assert!(close(factor[0], C(0.0, 0.0)));
    assert!(close(factor[1], C(1.0, 0.0)));
    assert!(close(rest[0], C(h, 0.0)));
    assert!(close(rest[1], C(h, 0.0)));
}

#[test]
fn factors_of_a_product_state_multiply_back() {
    let h = 1.0 / 2.0_f64.powf(0.5);
    let plus = vec![C(h, 0.0), C(h, 0.0)];
    let product = tensor_product_vector(vec![&zero(), &plus]);
    let factors = tensor_factor(product.clone()).unwrap();
    assert_eq!(factors.len(), 2);
    let back = tensor_product_vector(factors.iter().collect());
    assert_eq!(back.len(), product.len());
    for k in 0..product.len() {
        assert!(close(back[k], product[k]));
    }
}

#[test]
fn factors_of_three_qubits_multiply_back() {
    let h = 1.0 / 2.0_f64.powf(0.5);
    let plus = vec![C(h, 0.0), C(h, 0.0)];
    let minus = vec![C(h, 0.0), C(-h, 0.0)];
    let product = tensor_product_vector(vec![&plus, &one(), &minus]);
    let factors = tensor_factor(product.clone()).unwrap();
    assert_eq!(factors.len(), 3);
    let back = tensor_product_vector(factors.iter().collect());
    for k in 0..product.len() {
        assert!(close(back[k], product[k]));
    }
}

#[test]
fn bell_state_is_not_taken_apart() {
    let h = 1.0 / 2.0_f64.powf(0.5);
    let bell = vec![C(h, 0.0), C(0.0, 0.0), C(0.0, 0.0), C(h, 0.0)];
    let factors = tensor_factor(bell.clone()).unwrap();
    assert_eq!(factors.len(), 1);
    assert_eq!(factors[0], bell);
    assert!(!can_be_factored(&factors[0], 2));
}

#[test]
fn one_amplitude_is_its_own_factor() {
    assert_eq!(tensor_factor(vec![C(1.0, 0.0)]), Ok(vec![vec![C(1.0, 0.0)]]));
}

#[test]
fn vector_of_zeros_has_no_reference_to_divide_by() {
    assert_eq!(
        tensor_factor(vec![C(0.0, 0.0); 4]),
        Err(SimulationError::FactorizationInconsistency)
    );
}

#[test]
fn factors_that_do_not_multiply_back_are_an_inconsistency() {
    let v = vec![C(2.0, 0.0), C(0.0, 0.0), C(0.0, 0.0), C(0.0, 0.0)];
    assert_eq!(tensor_factor(v), Err(SimulationError::FactorizationInconsistency));
}

#[test]
fn numbers_are_written_in_decimal() {
    assert_eq!(decimal_text(0), "0");
    assert_eq!(decimal_text(7), "7");
    assert_eq!(decimal_text(10), "10");
    assert_eq!(decimal_text(1234567890), "1234567890");
    assert_eq!(decimal_text(usize::MAX), usize::MAX.to_string());
}

#[test]
fn powers_of_two_are_told_apart() {
    assert!(!power_of_two(0));
    assert!(power_of_two(1));
    assert!(power_of_two(2));
    assert!(!power_of_two(3));
    assert!(power_of_two(4));
    assert!(!power_of_two(6));
    assert!(power_of_two(1 << 20));
    assert!(!power_of_two((1 << 20) + 2));
    assert!(!power_of_two(usize::MAX));
    assert!(power_of_two(usize::MAX / 2 + 1));
}
