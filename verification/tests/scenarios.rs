use quantum_sim::{
    pretty, step, Amplitude, Experiment, Instruction, Measurement, Real, SimulationError,
};
use rand::Rng;

#[derive(Clone, Copy, Debug, PartialEq)]
struct R(f64);

#[derive(Clone, Copy, Debug, PartialEq)]
struct C(f64, f64);

impl Real for R {
    fn zero() -> Self {
        R(0.0)
    }
    fn plus(&self, rhs: &Self) -> Self {
        R(self.0 + rhs.0)
    }
    fn minus(&self, rhs: &Self) -> Self {
        R(self.0 - rhs.0)
    }
    fn square(&self) -> Self {
        R(self.0.powf(2.0))
    }
    fn root(&self) -> Self {
        R(self.0.powf(0.5))
    }
    fn less_than(&self, rhs: &Self) -> bool {
        self.0 < rhs.0
    }
    fn ratio(count: usize, total: usize) -> Self {
        R(count as f64 / total as f64)
    }
    fn draw() -> Self {
        R(rand::thread_rng().gen::<f64>())
    }
    fn percent_text(&self) -> String {
        format!("{:.2}", 100.0 * self.0)
    }
    fn degrees_text(&self) -> String {
        format!("{:.0}", self.0 * 180.0 / std::f64::consts::PI)
    }
}

impl Amplitude for C {
    type Real = R;

    fn zero() -> Self {
        C(0.0, 0.0)
    }
    fn one() -> Self {
        C(1.0, 0.0)
    }
    fn plus(&self, rhs: &Self) -> Self {
        C(self.0 + rhs.0, self.1 + rhs.1)
    }
    fn times(&self, rhs: &Self) -> Self {
        C(self.0 * rhs.0 - self.1 * rhs.1, self.0 * rhs.1 + self.1 * rhs.0)
    }
    fn negated(&self) -> Self {
        C(-1.0 * self.0, -1.0 * self.1)
    }
    fn conjugate(&self) -> Self {
        C(self.0, -1.0 * self.1)
    }
    fn norm_sqr(&self) -> R {
        R(self.0.powf(2.0) + self.1.powf(2.0))
    }
    fn over(&self, divisor: &R) -> Self {
        C(self.0 / divisor.0, self.1 / divisor.0)
    }
    fn same(&self, rhs: &Self) -> bool {
        self.0 == rhs.0 && self.1 == rhs.1
    }
    fn spinor(angle: &R) -> (Self, Self) {
        (C((angle.0 / 2.0).sin(), 0.0), C((angle.0 / 2.0).cos(), 0.0))
    }
    fn parts_text(&self) -> (String, String) {
        (format!("{:.3}", self.0), format!("{:.3}", self.1))
    }
}

fn zero() -> Vec<C> {
    vec![C(1.0, 0.0), C(0.0, 0.0)]
}

fn one() -> Vec<C> {
    vec![C(0.0, 0.0), C(1.0, 0.0)]
}

fn hadamard() -> Vec<Vec<C>> {
    let h = 1.0 / 2.0_f64.powf(0.5);
    vec![vec![C(h, 0.0), C(h, 0.0)], vec![C(h, 0.0), C(-h, 0.0)]]
}

fn cnot() -> Vec<Vec<C>> {
    let o = C(1.0, 0.0);
    let z = C(0.0, 0.0);
    vec![vec![o, z, z, z], vec![z, o, z, z], vec![z, z, z, o], vec![z, z, o, z]]
}

fn paulix() -> Vec<Vec<C>> {
    vec![vec![C(0.0, 0.0), C(1.0, 0.0)], vec![C(1.0, 0.0), C(0.0, 0.0)]]
}

fn plus() -> Vec<C> {
    let h = 1.0 / 2.0_f64.powf(0.5);
    vec![C(h, 0.0), C(h, 0.0)]
}

fn pairs(shown: &Vec<Measurement>) -> Vec<(usize, bool)> {
    shown.iter().map(|m| (m.0, m.1)).collect()
}

fn share_of_true(experiment: &Experiment<C>, sims: usize) -> f64 {
    let mut hits = 0;
    for _ in 0..sims {
        if experiment.run().unwrap().1[0].1 {
            hits += 1;
        }
    }
    hits as f64 / sims as f64
}

#[test]
fn run_without_instructions_returns_the_product_state() {
    let experiment = Experiment::new(vec![one(), zero()], vec![]);
    let (state, shown) = experiment.run().unwrap();
    assert_eq!(state, vec![C(0.0, 0.0), C(0.0, 0.0), C(1.0, 0.0), C(0.0, 0.0)]);
    assert!(shown.is_empty());
}

#[test]
fn run_without_qubits_is_a_mismatch() {
    let experiment: Experiment<C> = Experiment::new(vec![], vec![]);
    assert_eq!(experiment.run().err(), Some(SimulationError::DimensionMismatch));
    assert_eq!(experiment.average_out(3).err(), Some(SimulationError::DimensionMismatch));
    assert_eq!(experiment.average_out_pretty(3).err(), Some(SimulationError::DimensionMismatch));
}

#[test]
fn only_shown_measurements_are_returned_but_all_are_counted() {
    let experiment = Experiment::new(
        vec![one(), zero(), one()],
        vec![
            Instruction::Measure(0, false),
            Instruction::Measure(1, true),
            Instruction::Measure(2, false),
            Instruction::Dependent(Box::new(Instruction::Gate(paulix(), 1)), 2),
            Instruction::Measure(1, true),
            Instruction::Measure(0, true),
        ],
    );
    let (state, shown) = experiment.run().unwrap();
    assert_eq!(pairs(&shown), vec![(1, false), (1, true), (0, true)]);
    let mut expected = vec![C(0.0, 0.0); 8];
    expected[7] = C(1.0, 0.0);
    assert_eq!(state, expected);
}

#[test]
fn hadamard_then_measure_is_even() {
    let experiment = Experiment::new(
        vec![zero()],
        vec![Instruction::Gate(hadamard(), 0), Instruction::Measure(0, true)],
    );
    let share = share_of_true(&experiment, 10000);
    assert!((share - 0.5).abs() <= 0.05);
    let report = experiment.average_out(10000).unwrap();
    assert_eq!(report.len(), 2);
    for line in report.iter() {
        assert!((line.3 .0 - 0.5).abs() <= 0.05);
    }
    assert!((report[0].3 .0 + report[1].3 .0 - 1.0).abs() < 1e-9);
}

#[test]
fn entangled_qubits_agree() {
    let experiment = Experiment::new(
        vec![zero(), zero()],
        vec![
            Instruction::Gate(hadamard(), 0),
            Instruction::Gate(cnot(), 0),
            Instruction::Measure(0, true),
            Instruction::Measure(1, true),
        ],
    );
    let mut seen_true = false;
    let mut seen_false = false;
    for _ in 0..2000 {
        let (state, shown) = experiment.run().unwrap();
        assert_eq!(shown.len(), 2);
        assert_eq!((shown[0].0, shown[1].0), (0, 1));
        assert_eq!(shown[0].1, shown[1].1);
        let at = if shown[0].1 { 3 } else { 0 };
        for k in 0..4 {
            if k == at {
                assert!((state[k].0 - 1.0).abs() < 1e-9);
            } else {
                assert_eq!(state[k], C(0.0, 0.0));
            }
        }
        seen_true = seen_true || shown[0].1;
        seen_false = seen_false || !shown[0].1;
    }
    assert!(seen_true && seen_false);
    let report = experiment.average_out(2000).unwrap();
    assert_eq!(report.len(), 2);
    for line in report.iter() {
        assert!(line.0 == "[0: false, 1: false]" || line.0 == "[0:  true, 1:  true]");
    }
    assert_ne!(report[0].0, report[1].0);
}

#[test]
fn conditional_runs_once_when_the_outcome_is_true() {
    let experiment = Experiment::new(
        vec![one(), zero()],
        vec![
            Instruction::Measure(0, true),
            Instruction::Dependent(Box::new(Instruction::Gate(paulix(), 1)), 0),
            Instruction::Measure(1, true),
        ],
    );
    for _ in 0..20 {
        let (state, shown) = experiment.run().unwrap();
        assert_eq!(pairs(&shown), vec![(0, true), (1, true)]);
        assert_eq!(state, vec![C(0.0, 0.0), C(0.0, 0.0), C(0.0, 0.0), C(1.0, 0.0)]);
    }
}

#[test]
fn conditional_never_runs_when_the_outcome_is_false() {
    let experiment = Experiment::new(
        vec![zero(), zero()],
        vec![
            Instruction::Measure(0, true),
            Instruction::Dependent(
                Box::new(Instruction::Circuit(
                    vec![Instruction::Gate(paulix(), 1), Instruction::Measure(1, true)],
                    0,
                )),
                0,
            ),
            Instruction::Measure(1, true),
        ],
    );
    for _ in 0..20 {
        let (state, shown) = experiment.run().unwrap();
        assert_eq!(pairs(&shown), vec![(0, false), (1, false)]);
        assert_eq!(state, vec![C(1.0, 0.0), C(0.0, 0.0), C(0.0, 0.0), C(0.0, 0.0)]);
    }
}

#[test]
fn conditional_circuit_runs_in_order() {
    let experiment = Experiment::new(
        vec![one(), zero()],
        vec![
            Instruction::Measure(0, false),
            Instruction::Dependent(
                Box::new(Instruction::Circuit(
                    vec![Instruction::Gate(paulix(), 1), Instruction::Measure(1, true)],
                    0,
                )),
                0,
            ),
        ],
    );
    let (state, shown) = experiment.run().unwrap();
    assert_eq!(pairs(&shown), vec![(1, true)]);
    assert_eq!(state, vec![C(0.0, 0.0), C(0.0, 0.0), C(0.0, 0.0), C(1.0, 0.0)]);
}

#[test]
fn conditional_before_its_measurement_is_out_of_range() {
    let experiment = Experiment::new(
        vec![one()],
        vec![
            Instruction::Dependent(Box::new(Instruction::Gate(paulix(), 0)), 0),
            Instruction::Measure(0, true),
        ],
    );
    assert_eq!(experiment.run().err(), Some(SimulationError::OutOfRangeReference));
    assert_eq!(experiment.average_out(5).err(), Some(SimulationError::OutOfRangeReference));
}

#[test]
fn gate_that_does_not_fit_fails_the_run() {
    let experiment = Experiment::new(vec![zero()], vec![Instruction::Gate(cnot(), 0)]);
    assert_eq!(experiment.run().err(), Some(SimulationError::DimensionMismatch));
    let experiment = Experiment::new(
        vec![vec![C(1.0, 0.0), C(0.0, 0.0), C(0.0, 0.0)]],
        vec![Instruction::Gate(hadamard(), 0)],
    );
    assert_eq!(experiment.run().err(), Some(SimulationError::DimensionMismatch));
}

#[test]
fn state_without_amplitude_exhausts_the_distribution() {
    let experiment = Experiment::new(
        vec![vec![C(0.0, 0.0), C(0.0, 0.0)]],
        vec![Instruction::Measure(0, true)],
    );
    assert_eq!(experiment.run().err(), Some(SimulationError::ExhaustedDistribution));
}

#[test]
fn measurement_at_angle_zero_is_a_plain_measurement() {
    for start in [zero(), one()] {
        let angled = Experiment::new(
            vec![start.clone()],
            vec![Instruction::MeasureAtAngle(R(0.0), 0, true)],
        );
        let plain = Experiment::new(vec![start.clone()], vec![Instruction::Measure(0, true)]);
        for _ in 0..50 {
            let a = angled.run().unwrap();
            let p = plain.run().unwrap();
            assert_eq!(pairs(&a.1), pairs(&p.1));
            assert_eq!(a.0, p.0);
        }
    }
    let angled =
        Experiment::new(vec![plus()], vec![Instruction::MeasureAtAngle(R(0.0), 0, true)]);
    let plain = Experiment::new(vec![plus()], vec![Instruction::Measure(0, true)]);
    let a = share_of_true(&angled, 10000);
    let p = share_of_true(&plain, 10000);
    assert!((a - p).abs() <= 0.05);
}

#[test]
fn measurement_along_the_state_is_certain() {
    let angle = (90.0 as f64).to_radians();
    let experiment = Experiment::new(
        vec![zero()],
        vec![
            Instruction::Gate(hadamard(), 0),
            Instruction::MeasureAtAngle(R(angle), 0, true),
        ],
    );
    let first = experiment.run().unwrap().1[0].1;
    for _ in 0..200 {
        let (state, shown) = experiment.run().unwrap();
        assert_eq!(shown[0].1, first);
        let norm: f64 = state.iter().map(|z| z.0 * z.0 + z.1 * z.1).sum();
        assert!((norm - 1.0).abs() < 1e-9);
    }
}

#[test]
fn unlowered_sugar_does_nothing_at_run_time() {
    let list = vec![
        Instruction::MeasureAtAngle(R(1.0), 0, true),
        Instruction::MeasureAtSpinVector(vec![C(1.0, 0.0), C(0.0, 0.0)], 0, true),
        Instruction::Measure(0, true),
    ];
    let mut state = one();
    let mut history: Vec<(bool, Measurement)> = vec![];
    let mut stack: Vec<&Instruction<C>> = list.iter().rev().collect();
    assert_eq!(step(&mut state, &mut history, &mut stack, 1), Ok(()));
    assert_eq!(step(&mut state, &mut history, &mut stack, 1), Ok(()));
    assert_eq!(stack.len(), 1);
    assert!(history.is_empty());
    assert_eq!(state, one());
    assert_eq!(step(&mut state, &mut history, &mut stack, 1), Ok(()));
    assert!(stack.is_empty());
    assert_eq!(history.len(), 1);
    assert!(history[0].0);
    assert_eq!((history[0].1 .0, history[0].1 .1), (0, true));
}

#[test]
fn report_of_a_certain_outcome_has_one_line() {
    let experiment = Experiment::new(
        vec![one(), zero()],
        vec![Instruction::Measure(0, true), Instruction::Measure(1, false)],
    );
    let report = experiment.average_out(50).unwrap();
    assert_eq!(report.len(), 1);
    assert_eq!(report[0].0, "[0:  true]");
    assert_eq!(report[0].1, vec![C(0.0, 0.0), C(0.0, 0.0), C(1.0, 0.0), C(0.0, 0.0)]);
    assert_eq!(pairs(&report[0].2), vec![(0, true)]);
    assert_eq!(report[0].3, R(1.0));
    assert_eq!(experiment.average_out_pretty(50).unwrap(), "Measurements: [ 0:  true ] => 100.00%");
}

#[test]
fn report_of_no_runs_is_empty() {
    let experiment = Experiment::new(vec![one()], vec![Instruction::Measure(0, true)]);
    assert!(experiment.average_out(0).unwrap().is_empty());
    assert_eq!(experiment.average_out_pretty(0).unwrap(), "");
}

#[test]
fn report_is_written_one_line_for_each_outcome() {
    let report = vec![
        (String::from("a"), zero(), vec![Measurement(0, true), Measurement(1, false)], R(0.25)),
        (String::from("b"), one(), vec![], R(0.7512345)),
    ];
    assert_eq!(
        pretty(&report),
        "Measurements: [ 0:  true, 1: false ] => 25.00%\nMeasurements: [  ] => 75.12%"
    );
}

#[test]
fn shares_add_up_to_one() {
    let experiment = Experiment::new(
        vec![plus(), plus()],
        vec![Instruction::Measure(0, true), Instruction::Measure(1, true)],
    );
    let report = experiment.average_out(400).unwrap();
    let total: f64 = report.iter().map(|line| line.3 .0).sum();
    assert!((total - 1.0).abs() < 1e-9);
    for (i, a) in report.iter().enumerate() {
        for b in report.iter().skip(i + 1) {
            assert_ne!(a.0, b.0);
        }
    }
}
