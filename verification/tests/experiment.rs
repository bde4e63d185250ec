use quantum_sim::{pass_gate, print_tensor, Amplitude, Experiment, Instruction, Real};
use rand::Rng;

#[derive(Clone, Copy, Debug, PartialEq)]
struct R(f64);

#[derive(Clone, Copy, Debug, PartialEq)]
struct C(f64, f64);

impl Real for R {
    fn zero() -> Self {
        R(0.0)
    }
    fn plus(&self, rhs: &Self) -> Self {
        R(self.0 + rhs.0)
    }
    fn minus(&self, rhs: &Self) -> Self {
        R(self.0 - rhs.0)
    }
    fn square(&self) -> Self {
        R(self.0.powf(2.0))
    }
    fn root(&self) -> Self {
        R(self.0.powf(0.5))
    }
    fn less_than(&self, rhs: &Self) -> bool {
        self.0 < rhs.0
    }
    fn ratio(count: usize, total: usize) -> Self {
        R(count as f64 / total as f64)
    }
    fn draw() -> Self {
        R(rand::thread_rng().gen::<f64>())
    }
    fn percent_text(&self) -> String {
        format!("{:.2}", 100.0 * self.0)
    }
    fn degrees_text(&self) -> String {
        format!("{:.0}", self.0 * 180.0 / std::f64::consts::PI)
    }
}

impl Amplitude for C {
    type Real = R;

    fn zero() -> Self {
        C(0.0, 0.0)
    }
    fn one() -> Self {
        C(1.0, 0.0)
    }
    fn plus(&self, rhs: &Self) -> Self {
        C(self.0 + rhs.0, self.1 + rhs.1)
    }
    fn times(&self, rhs: &Self) -> Self {
        C(self.0 * rhs.0 - self.1 * rhs.1, self.0 * rhs.1 + self.1 * rhs.0)
    }
    fn negated(&self) -> Self {
        C(-1.0 * self.0, -1.0 * self.1)
    }
    fn conjugate(&self) -> Self {
        C(self.0, -1.0 * self.1)
    }
    fn norm_sqr(&self) -> R {
        R(self.0.powf(2.0) + self.1.powf(2.0))
    }
    fn over(&self, divisor: &R) -> Self {
        C(self.0 / divisor.0, self.1 / divisor.0)
    }
    fn same(&self, rhs: &Self) -> bool {
        self.0 == rhs.0 && self.1 == rhs.1
    }
    fn spinor(angle: &R) -> (Self, Self) {
        (C((angle.0 / 2.0).sin(), 0.0), C((angle.0 / 2.0).cos(), 0.0))
    }
    fn parts_text(&self) -> (String, String) {
        (format!("{:.3}", self.0), format!("{:.3}", self.1))
    }
}

fn zero() -> Vec<C> {
    vec![C(1.0, 0.0), C(0.0, 0.0)]
}

fn one() -> Vec<C> {
    vec![C(0.0, 0.0), C(1.0, 0.0)]
}

fn hadamard() -> Vec<Vec<C>> {
    let h = 1.0 / 2.0_f64.powf(0.5);
    vec![vec![C(h, 0.0), C(h, 0.0)], vec![C(h, 0.0), C(-h, 0.0)]]
}

fn cnot() -> Vec<Vec<C>> {
    let o = C(1.0, 0.0);
    let z = C(0.0, 0.0);
    vec![vec![o, z, z, z], vec![z, o, z, z], vec![z, z, z, o], vec![z, z, o, z]]
}

fn paulix() -> Vec<Vec<C>> {
    vec![vec![C(0.0, 0.0), C(1.0, 0.0)], vec![C(1.0, 0.0), C(0.0, 0.0)]]
}

fn pauliz() -> Vec<Vec<C>> {
    vec![vec![C(1.0, 0.0), C(0.0, 0.0)], vec![C(0.0, 0.0), C(-1.0, 0.0)]]
}

fn entangle() -> Vec<Instruction<C>> {
    vec![Instruction::Gate(hadamard(), 0), Instruction::Gate(cnot(), 0)]
}

fn teleport() -> Vec<Instruction<C>> {
    vec![
        Instruction::Circuit(entangle(), 1),
        Instruction::Gate(cnot(), 0),
        Instruction::Gate(hadamard(), 0),
        Instruction::Measure(1, false),
        Instruction::Measure(0, false),
        Instruction::Dependent(Box::new(Instruction::Gate(paulix(), 2)), 0),
        Instruction::Dependent(Box::new(Instruction::Gate(pauliz(), 2)), 1),
    ]
}

#[test]
fn entanglement() {
    let experiment = Experiment::new(
        vec![zero(), zero()],
        vec![
            Instruction::Gate(hadamard(), 0),
            Instruction::Gate(cnot(), 0),
            Instruction::Measure(0, true),
            Instruction::Measure(1, true),
        ],
    );

    println!("{}", &experiment.average_out_pretty(10000).expect("run failed"));
}

#[test]
fn independent_entanglement() {
    let experiment = Experiment::new(
        vec![zero(), zero(), zero(), zero()],
        vec![
            Instruction::Gate(hadamard(), 0),
            Instruction::Gate(cnot(), 0),
            Instruction::Gate(hadamard(), 2),
            Instruction::Gate(cnot(), 2),
            Instruction::Measure(0, true),
            Instruction::Measure(1, true),
            Instruction::Measure(2, true),
            Instruction::Measure(3, true),
        ],
    );

    println!("{}", &experiment.average_out_pretty(1000).expect("run failed"));
}

#[test]
fn deutsch_oracle() {
    let circuits = vec![
        ("Constant-0", Instruction::Circuit(vec![], 0)),
        ("Constant-1", Instruction::Circuit(vec![Instruction::Gate(paulix(), 1)], 0)),
        ("Identity", Instruction::Circuit(vec![Instruction::Gate(cnot(), 0)], 0)),
        (
            "Negation",
            Instruction::Circuit(
                vec![Instruction::Gate(cnot(), 0), Instruction::Gate(paulix(), 1)],
                0,
            ),
        ),
    ];

    for circuit in circuits.into_iter() {
        let title = circuit.0;

        let experiment = Experiment::new(
            vec![zero(), zero()],
            vec![
                Instruction::Gate(paulix(), 0),
                Instruction::Gate(paulix(), 1),
                Instruction::Gate(hadamard(), 0),
                Instruction::Gate(hadamard(), 1),
                circuit.1,
                Instruction::Gate(hadamard(), 0),
                Instruction::Gate(hadamard(), 1),
                Instruction::Measure(0, true),
                Instruction::Measure(1, true),
            ],
        );

        let measurements = experiment.run().expect("run failed").1;

        println!("{} is {}", title, if measurements[0].1 { "constant" } else { "variable" });
    }
}

#[test]
fn teleportation() {
    let qubit = one();

    println!("Initial qubit: {}", print_tensor(&qubit));

    let experiment = Experiment::new(
        vec![qubit, zero(), zero()],
        vec![
            Instruction::Gate(hadamard(), 1),
            Instruction::Gate(cnot(), 1),
            Instruction::Gate(cnot(), 0),
            Instruction::Gate(hadamard(), 0),
            Instruction::Measure(1, false),
            Instruction::Measure(0, false),
            Instruction::Dependent(Box::new(Instruction::Gate(paulix(), 2)), 0),
            Instruction::Dependent(Box::new(Instruction::Gate(pauliz(), 2)), 1),
            Instruction::Measure(2, true),
        ],
    );

    println!("{}", &experiment.average_out_pretty(100).expect("run failed"));
}

#[test]
fn teleport_with_circuit() {
    let mut qubit = one();

    pass_gate(&mut qubit, &hadamard()).expect("tensor and gate should be the same length");

    println!("Input: {}", print_tensor(&qubit));

    let experiment = Experiment::new(
        vec![qubit.clone(), zero(), zero()],
        vec![Instruction::Circuit(teleport(), 0), Instruction::Measure(2, true)],
    );

    println!("{}", experiment.average_out_pretty(1000).expect("run failed"));
}

#[test]
fn teleport_entangled() {
    let experiment = Experiment::new(
        vec![zero(), zero(), zero(), zero()],
        vec![
            Instruction::Circuit(entangle(), 0),
            Instruction::Circuit(teleport(), 1),
            Instruction::Measure(0, true),
            Instruction::Measure(3, true),
        ],
    );

    println!("{}", experiment.average_out_pretty(1000).expect("run failed"));
}

#[test]
fn teleport_angled() {
    let experiment = Experiment::new(
        vec![zero(), zero(), zero()],
        vec![
            Instruction::MeasureAtAngle(R((90.0 as f64).to_radians()), 0, false),
            Instruction::Circuit(teleport(), 0),
            Instruction::Measure(2, true),
        ],
    );

    println!("{}", experiment.average_out_pretty(10000).expect("run failed"));
}

#[test]
fn measure_at_angle() {
    let angle: f64 = 0.0;

    let experiment = Experiment::new(
        vec![zero()],
        vec![Instruction::MeasureAtAngle(R(angle.to_radians()), 0, true)],
    );

    println!("{}", experiment.average_out_pretty(10000).expect("run failed"));
}

#[test]
fn entangle_angle() {
    let angle1: f64 = 45.0;
    let angle2: f64 = 90.0;

    let experiment = Experiment::new(
        vec![zero(), zero()],
        vec![
            Instruction::Circuit(entangle(), 0),
            Instruction::MeasureAtAngle(R(angle1.to_radians()), 0, true),
            Instruction::MeasureAtAngle(R(angle2.to_radians()), 0, true),
        ],
    );

    println!("{}", experiment.average_out_pretty(10000).expect("run failed"));
}

#[test]
fn gamification_of_bells_theorem() {
    let mut rng = rand::thread_rng();
    let mut correct = 0.0;
    let total = 10000;

    for _ in 0..total {
        let a = rng.gen::<bool>();
        let b = rng.gen::<bool>();

        let angle1: f64 = if a { 90.0 } else { 0.0 };
        let angle2: f64 = if b { 135.0 } else { 215.0 };

        let measurements = Experiment::new(
            vec![one(), one()],
            vec![
                Instruction::Circuit(entangle(), 0),
                Instruction::MeasureAtAngle(R(angle1.to_radians()), 0, true),
                Instruction::MeasureAtAngle(R(angle2.to_radians()), 1, true),
            ],
        )
        .run()
        .expect("run failed")
        .1;

        match (a, b, measurements[0].1, measurements[1].1) {
            (true, true, x, y) => {
                if x != y {
                    correct += 1.0
                }
            }
            (_, _, x, y) => {
                if x == y {
                    correct += 1.0
                }
            }
        }
    }

    println!("win %: {:.2}%", 100.0 * correct / (total as f64));
}
