use quantum_sim::{
    pass_gate, print_matrix, print_tensor, tensor_factor, tensor_product_matrix,
    tensor_product_vector, Amplitude, Real,
};
use rand::Rng;

#[derive(Clone, Copy, Debug, PartialEq)]
struct R(f64);

#[derive(Clone, Copy, Debug, PartialEq)]
struct C(f64, f64);

impl Real for R {
    fn zero() -> Self {
        R(0.0)
    }
    fn plus(&self, rhs: &Self) -> Self {
        R(self.0 + rhs.0)
    }
    fn minus(&self, rhs: &Self) -> Self {
        R(self.0 - rhs.0)
    }
    fn square(&self) -> Self {
        R(self.0.powf(2.0))
    }
    fn root(&self) -> Self {
        R(self.0.powf(0.5))
    }
    fn less_than(&self, rhs: &Self) -> bool {
        self.0 < rhs.0
    }
    fn ratio(count: usize, total: usize) -> Self {
        R(count as f64 / total as f64)
    }
    fn draw() -> Self {
        R(rand::thread_rng().gen::<f64>())
    }
    fn percent_text(&self) -> String {
        format!("{:.2}", 100.0 * self.0)
    }
    fn degrees_text(&self) -> String {
        format!("{:.0}", self.0 * 180.0 / std::f64::consts::PI)
    }
}

impl Amplitude for C {
    type Real = R;

    fn zero() -> Self {
        C(0.0, 0.0)
    }
    fn one() -> Self {
        C(1.0, 0.0)
    }
    fn plus(&self, rhs: &Self) -> Self {
        C(self.0 + rhs.0, self.1 + rhs.1)
    }
    fn times(&self, rhs: &Self) -> Self {
        C(self.0 * rhs.0 - self.1 * rhs.1, self.0 * rhs.1 + self.1 * rhs.0)
    }
    fn negated(&self) -> Self {
        C(-1.0 * self.0, -1.0 * self.1)
    }
    fn conjugate(&self) -> Self {
        C(self.0, -1.0 * self.1)
    }
    fn norm_sqr(&self) -> R {
        R(self.0.powf(2.0) + self.1.powf(2.0))
    }
    fn over(&self, divisor: &R) -> Self {
        C(self.0 / divisor.0, self.1 / divisor.0)
    }
    fn same(&self, rhs: &Self) -> bool {
        self.0 == rhs.0 && self.1 == rhs.1
    }
    fn spinor(angle: &R) -> (Self, Self) {
        (C((angle.0 / 2.0).sin(), 0.0), C((angle.0 / 2.0).cos(), 0.0))
    }
    fn parts_text(&self) -> (String, String) {
        (format!("{:.3}", self.0), format!("{:.3}", self.1))
    }
}

fn zero() -> Vec<C> {
    vec![C(1.0, 0.0), C(0.0, 0.0)]
}

fn one() -> Vec<C> {
    vec![C(0.0, 0.0), C(1.0, 0.0)]
}

fn identity() -> Vec<Vec<C>> {
    vec![vec![C(1.0, 0.0), C(0.0, 0.0)], vec![C(0.0, 0.0), C(1.0, 0.0)]]
}

fn hadamard() -> Vec<Vec<C>> {
    let h = 1.0 / 2.0_f64.powf(0.5);
    vec![vec![C(h, 0.0), C(h, 0.0)], vec![C(h, 0.0), C(-h, 0.0)]]
}

fn cnot() -> Vec<Vec<C>> {
    let o = C(1.0, 0.0);
    let z = C(0.0, 0.0);
    vec![vec![o, z, z, z], vec![z, o, z, z], vec![z, z, z, o], vec![z, z, o, z]]
}

#[test]
fn factor() {
    for i in 0..2 {
        for j in 0..2 {
            let mut v1 = if i == 0 { zero() } else { one() };
            let v2 = if j == 0 { zero() } else { one() };

            pass_gate(&mut v1, &hadamard()).expect("tensor and gate should be the same length");

            let p = tensor_product_vector(vec![&v1, &v2]);

            println!(
                "{} ⊗ {} = {} -> factored -> {}",
                print_tensor(&v1),
                print_tensor(&v2),
                print_tensor(&p),
                print_matrix(&tensor_factor(p.clone()).expect("tensor factor failed"))
            );
        }
    }
}

#[test]
fn factor2() {
    let qubit_tensor = vec![
        C(0.5, 0.0),
        C(0.0, 0.0),
        C(0.0, 0.0),
        C(0.5, 0.0),
        C(0.5, 0.0),
        C(0.0, 0.0),
        C(0.0, 0.0),
        C(0.5, 0.0),
    ];

    println!("{}", print_matrix(&tensor_factor(qubit_tensor).expect("tensor factor failed")));
}

#[test]
fn tests() {
    println!("{}", print_matrix(&tensor_product_matrix(vec![&cnot(), &identity()])))
}

#[test]
fn gate_test() {
    let mut x = zero();
    let before = print_tensor(&x);
    pass_gate(&mut x, &hadamard()).expect("tensor and gate should be the same length");
    println!("{} -> {}", before, print_tensor(&x));

    let mut x = one();
    let before = print_tensor(&x);
    pass_gate(&mut x, &hadamard()).expect("tensor and gate should be the same length");
    println!("{} -> {}", before, print_tensor(&x));
}
