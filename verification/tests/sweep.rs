use spate_bench::double::Double;
use spate_bench::driver::load::check_corpus;
use spate_bench::driver::load::check_disk;
use spate_bench::driver::load::message_bytes;
use spate_bench::driver::load::run_count;
use spate_bench::driver::load::MIN_WINDOW_S;
use spate_bench::driver::protocol::Plan;
use spate_bench::driver::protocol::Repetition;
use spate_bench::driver::protocol::Step as Stage;
use spate_bench::driver::sweep::dry_run_notice;
use spate_bench::driver::sweep::environment_notice;
use spate_bench::driver::sweep::heading;
use spate_bench::driver::sweep::plan_line;
use spate_bench::driver::sweep::sustained_lines;
use spate_bench::driver::sweep::trigger_notice;
use spate_bench::driver::sweep::Sweep;
use spate_bench::driver::window::check_load;
use spate_bench::driver::window::dead_container;
use spate_bench::driver::window::first_batch_id;
use spate_bench::driver::window::rows_now;
use spate_bench::driver::window::Drain;
use spate_bench::driver::window::Held;
use spate_bench::driver::window::LoadReport;
use spate_bench::driver::window::Quiesce;
use spate_bench::driver::window::Quiesced;
use spate_bench::driver::window::Settling;
use spate_bench::driver::window::Step;
use spate_bench::driver::window::Warmup;
use spate_bench::driver::window::ROW_PROBE_MAX_FAILURES;
use spate_bench::driver::Mode;
use spate_bench::driver::RunOptions;
use spate_bench::environment::Broker;
use spate_bench::environment::CeilingRef;
use spate_bench::environment::Class;
use spate_bench::environment::ClickHouse;
use spate_bench::environment::Environment;
use spate_bench::environment::Host;
use spate_bench::environment::Noise;
use spate_bench::environment::Infra;
use spate_bench::environment::Profile;
use spate_bench::environment::Storage;
use spate_bench::report::Trigger;
use spate_bench::table::Table;

const SECOND: u128 = 1_000_000_000;

fn environment(class: Class) -> Environment {
    Environment {
        spec: Profile {
            id: "box".to_owned(),
            class,
            host: Host {
                description: String::new(),
                cpu: String::new(),
                cores: 18,
                core_layout: String::new(),
                memory: String::new(),
                os: String::new(),
                arch: String::new(),
                vm_cpus: 18,
                vm_memory: String::new(),
                caveats: String::new(),
            },
            infra: Infra {
                partitions: 8,
                broker: Broker {
                    kind: "redpanda".to_owned(),
                    image: "r".to_owned(),
                    cpus: "3".to_owned(),
                    memory: "8g".to_owned(),
                    registry: "builtin".to_owned(),
                },
                clickhouse: ClickHouse {
                    image: "c".to_owned(),
                    cpus: "16".to_owned(),
                    memory: "16g".to_owned(),
                },
                storage: Storage::default(),
            },
            ceiling: CeilingRef {
                file: "c.json".to_owned(),
            },
            noise: Noise::default(),
        },
        digest: "0".repeat(12),
        dir: ".".to_owned(),
    }
}

fn options() -> RunOptions {
    RunOptions {
        reps: 3,
        mode: Mode::Drain,
        env_id: "box".to_owned(),
        trigger: Trigger::Manual,
        dry_run: false,
        fresh_infra: false,
        fail_fast: false,
        topic: "events".to_owned(),
        batches: 10,
        knobs: Table::new(),
    }
}

#[test]
fn a_plan_says_what_will_be_run() {
    assert_eq!(
        plan_line(2, &options(), &environment(Class::Indicative)),
        "plan: 2 arm(s) x 3 rep(s) = 6 run(s), interleaved, in drain mode, on box [indicative]"
    );
    assert_eq!(heading(1, 3, "a:b"), "\n=== rep 1/3 — a:b ===");
}

#[test]
fn a_plan_shows_the_arithmetic_of_the_host() {
    let (offer, host) = sustained_lines(&environment(Class::Indicative), &[], 120_000, 30);
    assert_eq!(
        offer,
        "  sustained: 120000 msgs/s offered for 30s per run, from 2 producer thread(s)"
    );
    // Broker 3, ClickHouse 16, generator 2, driver 1.
    assert!(host.contains("~22 vCPU of a 18-vCPU box"), "{host}");
    assert!(host.contains("OVERSUBSCRIBED"), "{host}");
}

#[test]
fn an_unpublishable_run_says_so_before_it_starts() {
    let m = trigger_notice(Trigger::Tuning).expect("barred");
    assert!(m.contains("trigger=\"tuning\""), "{m}");
    assert!(trigger_notice(Trigger::Nightly).is_none());
    assert!(environment_notice(&environment(Class::Fixture)).is_some());
    assert!(environment_notice(&environment(Class::Indicative)).is_none());
}

#[test]
fn a_sweep_is_interleaved_and_runs_every_arm_once_per_repetition() {
    let mut sweep = Sweep::begin(2, 3);
    let mut turns = Vec::new();
    while let Some(turn) = sweep.next() {
        turns.push(turn);
        sweep.settle("a:b", true, &None, false).expect("no refusal");
    }
    assert_eq!(turns, vec![(1, 0), (1, 1), (2, 0), (2, 1), (3, 0), (3, 1)]);
    assert_eq!(sweep.tally(), "\n6 record(s) written, 0 refusal(s)");
    assert!(Sweep::begin(0, 3).next().is_none());
    assert!(Sweep::begin(3, 0).next().is_none());
}

#[test]
fn a_dry_run_starts_nothing() {
    let mut opts = options();
    assert_eq!(dry_run_notice(&opts), None);
    let sweep = Sweep::of(&[], &opts);
    assert_eq!((sweep.arms, sweep.reps), (0, opts.reps));
    opts.dry_run = true;
    assert_eq!(dry_run_notice(&opts), Some("dry run: nothing was started"));
    let sweep = Sweep::of(&[], &opts);
    assert_eq!(sweep.reps, 0);
    assert!(sweep.next().is_none());
}

#[test]
fn a_refusal_is_counted_whether_or_not_it_was_recorded() {
    let mut sweep = Sweep::begin(1, 2);
    let why = Some("lost rows".to_owned());
    assert!(sweep.settle("a:b", true, &why, false).is_ok());
    assert_eq!(
        sweep.settle("a:b", false, &why, true).expect_err("stops"),
        "stopping after the first refusal: lost rows"
    );
    assert_eq!(sweep.tally(), "\n1 record(s) written, 2 refusal(s)");
    assert_eq!(sweep.refusals[0], "a:b — lost rows");
}

fn walk(plan: Plan, outcome: impl Fn(Stage) -> bool) -> Vec<Stage> {
    let mut r = Repetition::begin();
    let mut stages = vec![r.at];
    while !matches!(r.at, Stage::Finished | Stage::Refused) {
        r = r.step(plan, outcome(r.at));
        stages.push(r.at);
        assert!(stages.len() < 20);
    }
    stages
}

fn place(stages: &[Stage], stage: Stage) -> Option<usize> {
    stages.iter().position(|s| *s == stage)
}

#[test]
fn a_repetition_takes_its_steps_in_order() {
    let whole = Plan {
        removes: true,
        creates: true,
        sustained: true,
    };
    let stages = walk(whole, |_| true);
    assert_eq!(stages.len(), 17);
    assert_eq!(stages.last(), Some(&Stage::Finished));
    // The objects come down before the target is emptied, and go up after it.
    assert!(place(&stages, Stage::Defend) < place(&stages, Stage::Truncate));
    assert!(place(&stages, Stage::Truncate) < place(&stages, Stage::Create));

    let bare = Plan {
        removes: false,
        creates: false,
        sustained: false,
    };
    let stages = walk(bare, |_| true);
    assert_eq!(place(&stages, Stage::Create), None);
    assert_eq!(place(&stages, Stage::Teardown), None);
    assert_eq!(place(&stages, Stage::Count), None);
}

#[test]
fn a_repetition_cleans_up_wherever_it_fails() {
    let whole = Plan {
        removes: true,
        creates: true,
        sustained: true,
    };
    for failing in walk(whole, |_| true) {
        if matches!(failing, Stage::Finished | Stage::Guard) {
            continue;
        }
        let stages = walk(whole, |s| s != failing);
        assert_eq!(stages.last(), Some(&Stage::Refused), "{failing:?}");
        let down = place(&stages, Stage::Teardown).expect("objects are removed");
        if let Some(start) = place(&stages, Stage::Start) {
            let stop = place(&stages, Stage::Stop).expect("containers are stopped");
            assert!(start < stop && stop < down, "{failing:?}");
        }
    }
}

#[test]
fn a_drain_closes_on_an_exhausted_corpus() {
    let d = Drain::begin();
    let (d, step) = d.step(None, Some(40), 0, 100, 1);
    assert_eq!(step, Step::Poll);
    let (_, step) = d.step(None, Some(100), 0, 100, 1);
    assert_eq!(step, Step::Close);
    let (_, step) = d.step(None, Some(99), 601 * SECOND, 100, 1);
    assert_eq!(
        step,
        Step::Refuse("the drain did not finish within 600s (99 of 100 rows)".to_owned())
    );
    let (_, step) = d.step(Some("dead".to_owned()), Some(100), 0, 100, 1);
    assert_eq!(step, Step::Refuse("dead".to_owned()));
}

#[test]
fn a_count_that_cannot_be_read_is_not_a_count_of_zero() {
    assert_eq!(rows_now(&Ok("42\n".to_owned())), Some(42));
    assert_eq!(rows_now(&Ok("Code: 1. DB::Exception".to_owned())), None);
    assert_eq!(rows_now(&Err("timeout".to_owned())), None);
    let mut d = Drain { rows: 7, failures: 0 };
    for _ in 1..ROW_PROBE_MAX_FAILURES {
        let (next, step) = d.step(None, None, 0, 100, 1);
        assert_eq!(step, Step::Poll);
        d = next;
    }
    match d.step(None, None, 0, 100, 1).1 {
        Step::Refuse(m) => assert!(m.contains("(7 rows at the last reading)"), "{m}"),
        other => panic!("{other:?}"),
    }
}

#[test]
fn a_window_opens_on_an_arm_that_keeps_advancing() {
    let mut w = Warmup::begin(Some(0));
    for rows in [1, 2] {
        let (next, step) = w.step(None, Some(rows), 0);
        assert_eq!(step, Step::Poll);
        w = next;
    }
    // A count that stands still begins the run anew.
    let (stalled, _) = w.step(None, Some(2), 0);
    assert_eq!(stalled.advancing, 0);
    assert_eq!(w.step(None, Some(3), 0).1, Step::Close);
    match w.step(None, None, 121 * SECOND).1 {
        Step::Refuse(m) => assert!(m.contains("(unreadable rows"), "{m}"),
        other => panic!("{other:?}"),
    }
}

#[test]
fn a_window_is_held_for_its_length() {
    assert!(Held::is_open(29 * SECOND, 30));
    assert!(!Held::is_open(30 * SECOND, 30));
    let h = Held::begin();
    assert_eq!(h.step(None, Some(1), 29 * SECOND, 30).1, Step::Poll);
    assert_eq!(h.step(None, Some(1), 30 * SECOND, 30).1, Step::Close);
    let tired = Held {
        failures: ROW_PROBE_MAX_FAILURES - 1,
    };
    assert!(matches!(tired.step(None, None, 0, 30).1, Step::Refuse(_)));
}

#[test]
fn three_equal_counts_settle_a_pipeline() {
    let mut q = Quiesce::begin();
    for rows in [Some(5), Some(5), None, Some(6), Some(5), Some(5)] {
        let (next, step) = q.step(rows, 0);
        assert_eq!(step, Settling::Poll);
        q = next;
    }
    assert_eq!(
        q.step(Some(5), 0).1,
        Settling::Done(Quiesced {
            rows: 5,
            settled: true
        })
    );
    // The third equal count ends the wait, from the first probe on.
    let mut q3 = Quiesce::begin();
    for _ in 0..2 {
        let (next, step) = q3.step(Some(5), 0);
        assert_eq!(step, Settling::Poll);
        q3 = next;
    }
    assert_eq!(
        q3.step(Some(5), 0).1,
        Settling::Done(Quiesced {
            rows: 5,
            settled: true
        })
    );
    // Past its time the wait ends with what was read last.
    assert_eq!(
        q.step(Some(9), 901 * SECOND).1,
        Settling::Done(Quiesced {
            rows: 9,
            settled: false
        })
    );
    assert!(matches!(
        Quiesce::begin().step(None, 901 * SECOND).1,
        Settling::Refuse(_)
    ));
}

#[test]
fn every_container_of_an_arm_has_to_live() {
    let names = vec!["jm".to_owned(), "tm".to_owned()];
    assert_eq!(dead_container(&names, &[true, true], Some("tm"), "the drain"), None);
    assert_eq!(
        dead_container(&names, &[true, false], Some("tm"), "the drain").as_deref(),
        Some("the arm's data-plane container tm exited during the drain")
    );
    assert_eq!(
        dead_container(&names, &[false, true], Some("tm"), "the drain").as_deref(),
        Some("the arm's control-plane container jm exited during the drain")
    );
}

fn double(x: f64) -> Double {
    Double::of_bits(x.to_bits())
}

fn load(sent: u64, failed: u64, achieved_share: f64) -> LoadReport {
    LoadReport {
        target_rate: 1000,
        sent,
        failed,
        achieved_share: double(achieved_share),
        max_schedule_lag_ms: double(12.5),
    }
}

#[test]
fn a_generator_that_fell_short_refuses_the_run() {
    assert!(check_load(&load(100, 0, 0.99), 1000, 1).is_ok());
    let m = check_load(&load(100, 1, 1.0), 1000, 1).expect_err("undelivered");
    assert!(m.contains("failed to deliver 1 of 100"), "{m}");
    let m = check_load(&load(100, 0, 0.981), 1000, 1).expect_err("too slow");
    assert!(m.contains("offered only 98.1% of the 1000 messages/s"), "{m}");
    assert!(m.contains(&format!("a worst schedule lag of {:.0}ms", 12.5)), "{m}");
    // A share that is no number is not below any.
    assert!(check_load(&load(0, 0, f64::NAN), 1000, 1).is_ok());
    assert_eq!(first_batch_id(10, 5), 15);
    assert_eq!(first_batch_id(u64::MAX, 5), u64::MAX);
}

#[test]
fn a_topic_that_does_not_hold_the_corpus_refuses_the_drain() {
    assert!(check_corpus("events", 10, 10).is_ok());
    let m = check_corpus("events", 9, 10).expect_err("short");
    assert!(m.starts_with("REFUSED: topic \"events\" holds 9 messages, expected 10"), "{m}");
}

#[test]
fn a_sweep_that_would_fill_the_disk_is_refused_with_its_arithmetic() {
    assert_eq!(message_bytes(1, 2, 3, 5), 2);
    assert_eq!(run_count(3, 4), 12);
    assert!(check_disk("events-sustained", 0, 40_000, 30, 3, 4_200).is_ok());
    let m = check_disk("events-sustained", 0, 40_000, 3_000, 3, 4_200).expect_err("too much");
    assert!(m.contains("over the 48.0 GiB budget"), "{m}");
    assert!(m.contains("x 4200 bytes/message"), "{m}");
}

#[test]
fn a_window_has_a_floor() {
    assert_eq!(MIN_WINDOW_S, 120);
}
