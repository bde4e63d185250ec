//! Repeated runs of an experiment, tallied by the measurements shown.

use vstd::prelude::*;
use crate::error::SimulationError;
use crate::experiment::{is_run, Experiment};
use crate::instruction::{Instr, Measurement};
use crate::lowering::reversed;
use crate::numeric::{real_percent_text, real_ratio, Amplitude, Real};
use crate::text::{
    join, joined, key_text, measurement_strings, measurement_texts, outcome_key, push_str, texts,
};

verus! {

/// The runs that gave one list of shown measurements.
pub struct Bucket<A: Amplitude> {
    /// The final state of the latest of these runs.
    pub state: Seq<A>,
    /// The measurements shown.
    pub shown: Seq<Measurement>,
    /// How many runs there were.
    pub count: nat,
}

/// The buckets after one more run: the bucket whose measurements have the
/// text of the run's measurements takes the run's state and counts one more;
/// where there is no such bucket, a new one with count one is added at the
/// end.
pub open spec fn records<A: Amplitude>(
    before: Seq<Bucket<A>>,
    run: (Seq<A>, Seq<Measurement>),
    after: Seq<Bucket<A>>,
) -> bool {
    ||| exists|i: int|
        {
            &&& 0 <= i < before.len()
            &&& outcome_key(run.1) == outcome_key(#[trigger] before[i].shown)
            &&& after == before.update(
                i,
                Bucket { state: run.0, shown: run.1, count: before[i].count + 1 },
            )
        }
    ||| {
        &&& forall|i: int|
            0 <= i < before.len() ==> outcome_key(run.1) != outcome_key(#[trigger] before[i].shown)
        &&& after == before.push(Bucket { state: run.0, shown: run.1, count: 1 })
    }
}

/// `stages` are the buckets before the first run and after each run.
pub open spec fn tallies<A: Amplitude>(
    runs: Seq<(Seq<A>, Seq<Measurement>)>,
    stages: Seq<Seq<Bucket<A>>>,
) -> bool {
    &&& stages.len() == runs.len() + 1
    &&& stages[0].len() == 0
    &&& forall|k: int| 0 <= k < runs.len() ==> records(#[trigger] stages[k], runs[k], stages[k + 1])
}

/// The number of runs in all buckets together.
pub open spec fn total<A: Amplitude>(buckets: Seq<Bucket<A>>) -> nat
    decreases buckets.len(),
{
    if buckets.len() == 0 {
        0
    } else {
        total(buckets.drop_last()) + buckets.last().count
    }
}

/// No two buckets have measurements with the same text, and no bucket is
/// empty.
pub open spec fn well_kept<A: Amplitude>(buckets: Seq<Bucket<A>>) -> bool {
    &&& forall|i: int, j: int|
        0 <= i < j < buckets.len() ==> outcome_key(#[trigger] buckets[i].shown) != outcome_key(
            #[trigger] buckets[j].shown,
        )
    &&& forall|i: int| 0 <= i < buckets.len() ==> (#[trigger] buckets[i]).count >= 1
}

/// Replacing one bucket changes the total by the difference of the counts.
proof fn lemma_total_update<A: Amplitude>(buckets: Seq<Bucket<A>>, i: int, b: Bucket<A>)
    requires
        0 <= i < buckets.len(),
    ensures
        total(buckets.update(i, b)) + buckets[i].count == total(buckets) + b.count,
    decreases buckets.len(),
{
    let after = buckets.update(i, b);
    if i == buckets.len() - 1 {
        assert(after.drop_last() =~= buckets.drop_last());
    } else {
        assert(after.drop_last() =~= buckets.drop_last().update(i, b));
        lemma_total_update(buckets.drop_last(), i, b);
    }
}

/// One more run is one more in the total, and keeps the buckets well kept.
pub proof fn lemma_record_counts<A: Amplitude>(
    before: Seq<Bucket<A>>,
    run: (Seq<A>, Seq<Measurement>),
    after: Seq<Bucket<A>>,
)
    requires
        records(before, run, after),
        well_kept(before),
    ensures
        total(after) == total(before) + 1,
        well_kept(after),
{
    if forall|i: int|
        0 <= i < before.len() ==> outcome_key(run.1) != outcome_key(#[trigger] before[i].shown) {
        if after == before.push(Bucket { state: run.0, shown: run.1, count: 1 }) {
            assert(after.drop_last() =~= before);
        } else {
            let i = choose|i: int|
                {
                    &&& 0 <= i < before.len()
                    &&& outcome_key(run.1) == outcome_key(#[trigger] before[i].shown)
                    &&& after == before.update(
                        i,
                        Bucket { state: run.0, shown: run.1, count: before[i].count + 1 },
                    )
                };
            assert(false);
        }
    } else {
        if exists|i: int|
            {
                &&& 0 <= i < before.len()
                &&& outcome_key(run.1) == outcome_key(#[trigger] before[i].shown)
                &&& after == before.update(
                    i,
                    Bucket { state: run.0, shown: run.1, count: before[i].count + 1 },
                )
            } {
            let i = choose|i: int|
                {
                    &&& 0 <= i < before.len()
                    &&& outcome_key(run.1) == outcome_key(#[trigger] before[i].shown)
                    &&& after == before.update(
                        i,
                        Bucket { state: run.0, shown: run.1, count: before[i].count + 1 },
                    )
                };
            lemma_total_update(
                before,
                i,
                Bucket { state: run.0, shown: run.1, count: before[i].count + 1 },
            );
            assert forall|a: int, b: int| 0 <= a < b < after.len() implies outcome_key(
                #[trigger] after[a].shown,
            ) != outcome_key(#[trigger] after[b].shown) by {
                assert(outcome_key(before[a].shown) != outcome_key(before[b].shown));
            }
        }
    }
}

/// The buckets account for every run once: their counts add up to the
/// number of runs, no bucket is empty, and no two buckets have measurements
/// with the same text.
pub proof fn lemma_tally_counts<A: Amplitude>(
    runs: Seq<(Seq<A>, Seq<Measurement>)>,
    stages: Seq<Seq<Bucket<A>>>,
)
    requires
        tallies(runs, stages),
    ensures
        total(stages.last()) == runs.len(),
        well_kept(stages.last()),
{
    lemma_tally_prefix(runs, stages, runs.len() as int);
}

/// The buckets after `k` runs account for these runs.
proof fn lemma_tally_prefix<A: Amplitude>(
    runs: Seq<(Seq<A>, Seq<Measurement>)>,
    stages: Seq<Seq<Bucket<A>>>,
    k: int,
)
    requires
        tallies(runs, stages),
        0 <= k <= runs.len(),
    ensures
        total(stages[k]) == k,
        well_kept(stages[k]),
    decreases k,
{
    if k > 0 {
        lemma_tally_prefix(runs, stages, k - 1);
        assert(records(stages[k - 1], runs[k - 1], stages[k - 1 + 1]));
        lemma_record_counts(stages[k - 1], runs[k - 1], stages[k]);
    }
}

/// Each of `runs` is what one run of the program can return.
pub open spec fn all_runs<A: Amplitude>(
    vectors: Seq<Seq<A>>,
    program: Seq<Instr<A>>,
    runs: Seq<(Seq<A>, Seq<Measurement>)>,
) -> bool {
    forall|k: int| 0 <= k < runs.len() ==> is_run(vectors, program, Ok(#[trigger] runs[k]))
}

/// One line of a report: the text of the measurements shown, the final state
/// of one run that showed them, the measurements, and the share of the runs
/// that showed them.
pub type Line<A> = (Seq<char>, Seq<A>, Seq<Measurement>, <A as Amplitude>::Real);

/// `lines` reports `buckets`, in order: each line has the text, the state
/// and the measurements of its bucket, and the count of the bucket divided by
/// the number of runs.
pub open spec fn reports<A: Amplitude>(
    buckets: Seq<Bucket<A>>,
    sims: usize,
    lines: Seq<Line<A>>,
) -> bool {
    &&& lines.len() == buckets.len()
    &&& forall|i: int|
        0 <= i < buckets.len() ==> {
            &&& (#[trigger] lines[i]).0 == outcome_key(buckets[i].shown)
            &&& lines[i].1 == buckets[i].state
            &&& lines[i].2 == buckets[i].shown
            &&& buckets[i].count <= usize::MAX
            &&& real_ratio(buckets[i].count as usize, sims, lines[i].3)
        }
}

/// `result` is what `sims` runs of the program, tallied, can return: the
/// report of the buckets after the last run, or the error of the first run
/// that failed.
pub open spec fn is_average<A: Amplitude>(
    vectors: Seq<Seq<A>>,
    program: Seq<Instr<A>>,
    sims: usize,
    result: Result<Seq<Line<A>>, SimulationError>,
) -> bool {
    exists|runs: Seq<(Seq<A>, Seq<Measurement>)>, stages: Seq<Seq<Bucket<A>>>|
        {
            &&& #[trigger] tallies(runs, stages)
            &&& all_runs(vectors, program, runs)
            &&& match result {
                Ok(lines) => runs.len() == sims && reports(stages[sims as int], sims, lines),
                Err(e) => runs.len() < sims && is_run(vectors, program, Err(e)),
            }
        }
}

/// One line of a report as it is held.
pub open spec fn line_model<A: Amplitude>(
    line: (String, Vec<A>, Vec<Measurement>, A::Real),
) -> Line<A> {
    (line.0@, line.1@, line.2@, line.3)
}

/// A report as it is held.
pub open spec fn report_model<A: Amplitude>(
    list: Seq<(String, Vec<A>, Vec<Measurement>, A::Real)>,
) -> Seq<Line<A>> {
    Seq::new(list.len(), |i: int| line_model(list[i]))
}

/// What an aggregation returned, as a report.
pub open spec fn average_model<A: Amplitude>(
    r: Result<Vec<(String, Vec<A>, Vec<Measurement>, A::Real)>, SimulationError>,
) -> Result<Seq<Line<A>>, SimulationError> {
    match r {
        Ok(list) => Ok(report_model(list@)),
        Err(e) => Err(e),
    }
}

/// The buckets as they are held while runs are tallied.
pub open spec fn bucket_models<A: Amplitude>(
    held: Seq<(String, Vec<A>, Vec<Measurement>, usize)>,
) -> Seq<Bucket<A>> {
    Seq::new(
        held.len(),
        |i: int| Bucket { state: held[i].1@, shown: held[i].2@, count: held[i].3 as nat },
    )
}

/// The index of the bucket with the key, if there is one.
fn find_bucket<A: Amplitude>(
    held: &Vec<(String, Vec<A>, Vec<Measurement>, usize)>,
    key: &String,
) -> (r: Option<usize>)
    ensures
        match r {
            Some(i) => i < held.len() && held[i as int].0@ == key@,
            None => forall|i: int| 0 <= i < held.len() ==> (#[trigger] held[i]).0@ != key@,
        },
{
    let mut i: usize = 0;
    while i < held.len()
        invariant
            i <= held.len(),
            forall|k: int| 0 <= k < i ==> (#[trigger] held[k]).0@ != key@,
        decreases held.len() - i,
    {
        if held[i].0 == *key {
            return Some(i);
        }
        i += 1;
    }
    None
}

impl<A: Amplitude> Experiment<A> {
    /// Runs the program `sims` times and tallies the runs by the text of the
    /// measurements shown. For each text the result holds, in the order in
    /// which the texts first came up: the text, the final state of the latest
    /// run that gave it, the measurements, and the share of the runs that gave
    /// it. The first run that fails ends the aggregation with its error.
    pub fn average_out(&self, sims: usize) -> (r: Result<
        Vec<(String, Vec<A>, Vec<Measurement>, A::Real)>,
        SimulationError,
    >)
        ensures
            is_average(self.qubits(), self.program(), sims, average_model(r)),
    {
        let mut held: Vec<(String, Vec<A>, Vec<Measurement>, usize)> = Vec::new();
        let ghost mut runs: Seq<(Seq<A>, Seq<Measurement>)> = Seq::empty();
        let ghost mut stages: Seq<Seq<Bucket<A>>> = seq![bucket_models(held@)];
        let mut done: usize = 0;
        while done < sims
            invariant
                done <= sims,
                runs.len() == done,
                tallies(runs, stages),
                all_runs(self.qubits(), self.program(), runs),
                stages[done as int] == bucket_models(held@),
                forall|i: int|
                    0 <= i < held.len() ==> (#[trigger] held[i]).0@ == outcome_key(held[i].2@)
                        && held[i].3 <= done,
            decreases sims - done,
        {
            let ghost before = bucket_models(held@);
            match self.run() {
                Err(e) => {
                    return Err(e);
                },
                Ok((state, shown)) => {
                    let key = key_text(&shown);
                    let ghost run = (state@, shown@);
                    match find_bucket(&held, &key) {
                        Some(i) => {
                            let count = held[i].3;
                            held[i] = (key, state, shown, count + 1);
                            proof {
                                assert(bucket_models(held@) =~= before.update(
                                    i as int,
                                    Bucket {
                                        state: run.0,
                                        shown: run.1,
                                        count: before[i as int].count + 1,
                                    },
                                ));
                                assert(outcome_key(run.1) == outcome_key(before[i as int].shown));
                            }
                        },
                        None => {
                            held.push((key, state, shown, 1));
                            proof {
                                assert(bucket_models(held@) =~= before.push(
                                    Bucket { state: run.0, shown: run.1, count: 1 },
                                ));
                                assert forall|i: int| 0 <= i < before.len() implies outcome_key(
                                    run.1,
                                ) != outcome_key(#[trigger] before[i].shown) by {
                                    assert(held[i].0@ == outcome_key(held[i].2@));
                                }
                            }
                        },
                    }
                    proof {
                        let after = bucket_models(held@);
                        assert(records(before, run, after));
                        let more_runs = runs.push(run);
                        let more_stages = stages.push(after);
                        assert forall|k: int| 0 <= k < more_runs.len() implies records(
                            #[trigger] more_stages[k],
                            more_runs[k],
                            more_stages[k + 1],
                        ) by {
                            if k < runs.len() {
                                assert(more_stages[k] == stages[k]);
                                assert(more_stages[k + 1] == stages[k + 1]);
                                assert(more_runs[k] == runs[k]);
                            }
                        }
                        assert forall|k: int| 0 <= k < more_runs.len() implies is_run(
                            self.qubits(),
                            self.program(),
                            Ok(#[trigger] more_runs[k]),
                        ) by {
                            if k < runs.len() {
                                assert(more_runs[k] == runs[k]);
                            }
                        }
                        runs = more_runs;
                        stages = more_stages;
                    }
                    done += 1;
                },
            }
        }
        let ghost buckets = bucket_models(held@);
        let total = held.len();
        let mut stack = reversed(held);
        let mut list: Vec<(String, Vec<A>, Vec<Measurement>, A::Real)> = Vec::new();
        while stack.len() > 0
            invariant
                stack.len() + list.len() == total,
                total == buckets.len(),
                forall|k: int|
                    0 <= k < stack.len() ==> {
                        &&& (#[trigger] stack[k]).0@ == outcome_key(buckets[total - 1 - k].shown)
                        &&& stack[k].1@ == buckets[total - 1 - k].state
                        &&& stack[k].2@ == buckets[total - 1 - k].shown
                        &&& stack[k].3 == buckets[total - 1 - k].count
                    },
                forall|i: int|
                    0 <= i < list.len() ==> {
                        &&& (#[trigger] list[i]).0@ == outcome_key(buckets[i].shown)
                        &&& list[i].1@ == buckets[i].state
                        &&& list[i].2@ == buckets[i].shown
                        &&& buckets[i].count <= usize::MAX
                        &&& real_ratio(buckets[i].count as usize, sims, list[i].3)
                    },
            decreases stack.len(),
        {
            let ghost at = list.len() as int;
            let ghost before = list@;
            let ghost top = stack[stack.len() - 1];
            match stack.pop() {
                Some(bucket) => {
                    assert(bucket == top);
                    assert(total - 1 - (stack.len() as int) == at);
                    let share = <A::Real as Real>::ratio(bucket.3, sims);
                    let line = (bucket.0, bucket.1, bucket.2, share);
                    proof {
                        assert(line.0@ == outcome_key(buckets[at].shown));
                        assert(line.1@ == buckets[at].state);
                        assert(line.2@ == buckets[at].shown);
                        assert(buckets[at].count == bucket.3);
                        assert(real_ratio(buckets[at].count as usize, sims, line.3));
                    }
                    list.push(line);
                    proof {
                        assert forall|i: int| 0 <= i < list.len() implies {
                            &&& (#[trigger] list[i]).0@ == outcome_key(buckets[i].shown)
                            &&& list[i].1@ == buckets[i].state
                            &&& list[i].2@ == buckets[i].shown
                            &&& buckets[i].count <= usize::MAX
                            &&& real_ratio(buckets[i].count as usize, sims, list[i].3)
                        } by {
                            if i < at {
                                assert(list[i] == before[i]);
                            } else {
                                assert(list[i] == line);
                            }
                        }
                    }
                },
                None => {},
            }
        }
        proof {
            assert(reports(buckets, sims, report_model(list@)));
        }
        Ok(list)
    }
}

/// `text` is the line of a report in words: the measurements between square
/// brackets, an arrow, and the share as a percentage.
pub open spec fn is_pretty_line<A: Amplitude>(line: Line<A>, text: Seq<char>) -> bool {
    exists|percent: Seq<char>| #[trigger]
        real_percent_text(line.3, percent) && text == "Measurements: [ "@ + joined(
            measurement_texts(line.2),
            ", "@,
        ) + " ] => "@ + percent + "%"@
}

/// `rows` holds each line of a report in words.
pub open spec fn pretty_rows<A: Amplitude>(lines: Seq<Line<A>>, rows: Seq<Seq<char>>) -> bool {
    &&& rows.len() == lines.len()
    &&& forall|i: int| 0 <= i < lines.len() ==> is_pretty_line(lines[i], #[trigger] rows[i])
}

/// `text` is a report in words: its lines in order, one to a line.
pub open spec fn is_pretty<A: Amplitude>(lines: Seq<Line<A>>, text: Seq<char>) -> bool {
    exists|rows: Seq<Seq<char>>| #[trigger] pretty_rows(lines, rows) && text == joined(rows, "\n"@)
}

/// `result` is what `sims` runs of the program, tallied and written out, can
/// return.
pub open spec fn is_pretty_average<A: Amplitude>(
    vectors: Seq<Seq<A>>,
    program: Seq<Instr<A>>,
    sims: usize,
    result: Result<Seq<char>, SimulationError>,
) -> bool {
    match result {
        Ok(text) => exists|lines: Seq<Line<A>>| #[trigger]
            is_average(vectors, program, sims, Ok(lines)) && is_pretty(lines, text),
        Err(e) => is_average(vectors, program, sims, Err::<Seq<Line<A>>, SimulationError>(e)),
    }
}

/// What a written aggregation returned.
pub open spec fn pretty_model(r: Result<String, SimulationError>) -> Result<
    Seq<char>,
    SimulationError,
> {
    match r {
        Ok(text) => Ok(text@),
        Err(e) => Err(e),
    }
}

/// A report in words, one line for each text of measurements.
pub fn pretty<A: Amplitude>(list: &Vec<(String, Vec<A>, Vec<Measurement>, A::Real)>) -> (text:
    String)
    ensures
        is_pretty(report_model(list@), text@),
{
    let mut rows: Vec<String> = Vec::new();
    let mut i: usize = 0;
    while i < list.len()
        invariant
            i <= list.len(),
            rows.len() == i,
            forall|k: int|
                0 <= k < i ==> is_pretty_line(line_model(list[k]), (#[trigger] rows[k])@),
        decreases list.len() - i,
    {
        let items = measurement_strings(&list[i].2);
        let mut row = "Measurements: [ ".to_owned();
        let body = join(&items, ", ");
        push_str(&mut row, body.as_str());
        push_str(&mut row, " ] => ");
        let percent = list[i].3.percent_text();
        push_str(&mut row, percent.as_str());
        push_str(&mut row, "%");
        proof {
            let line = line_model(list[i as int]);
            assert(real_percent_text(line.3, percent@));
            assert(body@ == joined(measurement_texts(line.2), ", "@));
            assert(row@ == "Measurements: [ "@ + joined(measurement_texts(line.2), ", "@)
                + " ] => "@ + percent@ + "%"@);
            assert(is_pretty_line(line, row@));
        }
        rows.push(row);
        i += 1;
    }
    let text = join(&rows, "\n");
    proof {
        assert(pretty_rows(report_model(list@), texts(rows@)));
    }
    text
}

impl<A: Amplitude> Experiment<A> {
    /// Runs the program `sims` times, tallies the runs and writes the report
    /// out in words.
    pub fn average_out_pretty(&self, sims: usize) -> (r: Result<String, SimulationError>)
        ensures
            is_pretty_average(self.qubits(), self.program(), sims, pretty_model(r)),
    {
        match self.average_out(sims) {
            Ok(list) => {
                let text = pretty(&list);
                proof {
                    assert(is_average(
                        self.qubits(),
                        self.program(),
                        sims,
                        Ok(report_model(list@)),
                    ));
                }
                Ok(text)
            },
            Err(e) => Err(e),
        }
    }
}

} // verus!
