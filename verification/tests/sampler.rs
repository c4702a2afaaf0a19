use spate_bench::double::Double;
use spate_bench::sampler::container_id;
use spate_bench::sampler::sampler_name;
use spate_bench::sampler::simultaneous_peak_anon;
use spate_bench::sampler::start_arm;
use spate_bench::sampler::stop_sut;
use spate_bench::sampler::sut_alive;
use spate_bench::sampler::ArmLock;
use spate_bench::sampler::LockAction;
use spate_bench::sampler::LockAttempt;
use spate_bench::sampler::Sample;
use spate_bench::sampler::Samples;
use spate_bench::sampler::SutCost;
use spate_bench::sampler::SutSpec;
use spate_bench::sampler::start_named;

fn number(x: Double) -> f64 {
    f64::from_bits(x.to_bits())
}

fn double(x: f64) -> Double {
    Double::of_bits(x.to_bits())
}

fn per_row(cost: &SutCost, rows: u64) -> f64 {
    number(cost.cpu_us_per_row(rows))
}

/// A series from CSV rows, so a test reads as the sampler's own output.
fn series(rows: &[&str]) -> Samples {
    Samples {
        meta: String::new(),
        rows: rows
            .iter()
            .map(|r| Sample::parse(r).expect("row parses"))
            .collect(),
        wall_s: double(1.0),
    }
}

#[test]
fn parses_a_sampler_row() {
    let row = "1784979298378,129007508,129003510,3998,660,602643,659456,659456,\
               135168,0,399080,16384,0";
    let s = Sample::parse(row).expect("row parses");
    assert_eq!(s.t_ms, 1_784_979_298_378);
    assert_eq!(s.usage_usec, 129_007_508);
    assert_eq!(s.anon, 135_168);
    assert_eq!(s.sock, 0);
}

#[test]
fn rejects_a_row_of_the_wrong_width() {
    assert!(Sample::parse("1,2,3").is_none());
    assert!(Sample::parse("not,a,row").is_none());
}

/// A single sample cannot yield a CPU delta, and treating its lifetime counter
/// as the window's usage would charge the framework for its startup.
#[test]
fn a_single_sample_summarises_to_nothing() {
    let one = Sample::parse("1000,5,5,0,0,0,10,10,10,0,0,0,0").expect("row parses");
    let s = Samples {
        meta: String::new(),
        rows: vec![one],
        wall_s: double(1.0),
    };
    assert!(s.summarise().is_none());
}

#[test]
fn summarises_cpu_as_a_delta_over_the_window() {
    let rows = vec![
        Sample::parse("1000,1000000,900000,100000,0,0,100,100,80,20,0,0,0").expect("row parses"),
        // +2 CPU-seconds over 1 wall-second: two cores' worth.
        Sample::parse("2000,3000000,2700000,300000,3,500,300,400,250,50,0,0,0")
            .expect("row parses"),
    ];
    let cost = Samples {
        meta: String::new(),
        rows,
        wall_s: double(1.0),
    }
    .summarise()
    .expect("two samples summarise");

    assert!((cost.window_ms as f64 / 1000.0 - 1.0).abs() < 1e-9);
    assert!((cost.cpu_us as f64 - 2_000_000.0).abs() < 1e-9);
    assert!((number(cost.cores_used()) - 2.0).abs() < 1e-9);
    // Peak anon is the max over the series, not the last value.
    assert!((cost.peak_anon_bytes as f64 - 250.0).abs() < 1e-9);
    // Charged peak comes from the last row, which makes it a windowed figure.
    assert!((cost.peak_charged_bytes as f64 - 400.0).abs() < 1e-9);
    assert!(cost.was_throttled());
    assert!((per_row(&cost, 1_000_000) - 2.0).abs() < 1e-9);
    assert_eq!(cost.unreadable, 0);
}

#[test]
fn a_row_carrying_an_unreadable_counter_is_not_evidence() {
    let good = Sample::parse("1000,5,5,0,0,0,10,10,10,0,0,0,0").expect("row parses");
    assert!(good.readable());
    // `memory.peak` could not be reset.
    let no_peak = Sample::parse("1000,5,5,0,0,0,10,-1,10,0,0,0,0").expect("row parses");
    assert!(!no_peak.readable());
    // `cpu.stat` could not be read at this instant.
    let no_cpu = Sample::parse("1000,-1,-1,-1,-1,-1,10,10,10,0,0,0,0").expect("row parses");
    assert!(!no_cpu.readable());
}

#[test]
fn an_unreadable_last_sample_cannot_report_zero_cores() {
    let cost = series(&[
        "1000,1000000,900000,100000,0,0,100,100,80,20,0,0,0",
        "2000,3000000,2700000,300000,0,0,300,400,250,50,0,0,0",
        // `cpu.stat` vanished under the sampler on the way out.
        "3000,-1,-1,-1,-1,-1,300,400,250,50,0,0,0",
    ])
    .summarise()
    .expect("two readable samples summarise");

    assert!((number(cost.cores_used()) - 2.0).abs() < 1e-9, "{}", number(cost.cores_used()));
    assert_eq!(cost.samples, 2);
    assert_eq!(cost.unreadable, 1);
}

#[test]
fn a_series_that_is_never_readable_summarises_to_nothing() {
    let s = series(&[
        "1000,5,5,0,0,0,10,-1,10,0,0,0,0",
        "2000,9,9,0,0,0,10,-1,10,0,0,0,0",
        "3000,13,13,0,0,0,10,-1,10,0,0,0,0",
    ]);
    assert!(s.summarise().is_none());
}

/// The identity that makes a record internally consistent.
#[test]
fn throughput_and_cores_rest_on_the_same_window() {
    let cost = series(&[
        "1000,1000000,900000,100000,0,0,100,100,80,20,0,0,0",
        "5000,9000000,8100000,900000,0,0,300,400,250,50,0,0,0",
    ])
    .summarise()
    .expect("two samples summarise");

    let rows = 12_345_678;
    let derived = per_row(&cost, rows) * number(cost.rows_per_s(rows)) / 1e6;
    assert!(
        (number(cost.cores_used()) - derived).abs() < 1e-9,
        "cores_used {} but cpu_us_per_row x rows_per_s / 1e6 is {derived}",
        number(cost.cores_used())
    );
}

#[test]
fn an_arms_cores_are_its_summed_cpu_over_one_shared_window() {
    // A TaskManager over 4s, and a JobManager whose sampler saw 3.9s.
    let tm = series(&[
        "1000,0,0,0,0,0,100,100,80,20,0,0,0",
        "5000,8000000,8000000,0,0,0,300,400,250,50,0,0,0",
    ])
    .summarise()
    .expect("summarises");
    let jm = series(&[
        "1100,0,0,0,0,0,10,10,8,2,0,0,0",
        "5000,390000,390000,0,0,0,30,40,25,5,0,0,0",
    ])
    .summarise()
    .expect("summarises");

    let arm = SutCost::sum(&[Some(tm), Some(jm)]).expect("both parts present");
    assert!((arm.window_ms as f64 / 1000.0 - 4.0).abs() < 1e-9);
    assert!((arm.cpu_us as f64 - 8_390_000.0).abs() < 1e-9);
    let expected = 8_390_000.0 / (4.0 * 1e6);
    assert!(
        (number(arm.cores_used()) - expected).abs() < 1e-9,
        "{}",
        number(arm.cores_used())
    );

    let rows = 500_000;
    let derived = per_row(&arm, rows) * number(arm.rows_per_s(rows)) / 1e6;
    assert!((number(arm.cores_used()) - derived).abs() < 1e-9);
}

#[test]
fn an_arm_missing_one_containers_summary_has_no_cost_at_all() {
    let jm = series(&[
        "1000,0,0,0,0,0,10,10,8,2,0,0,0",
        "2000,67000,67000,0,0,0,30,40,25,5,0,0,0",
    ])
    .summarise()
    .expect("summarises");

    assert!(SutCost::sum(&[Some(jm), None]).is_none());
    assert!(SutCost::sum(&[None, Some(jm)]).is_none());
    assert!(SutCost::sum(&[]).is_none());
    assert!(SutCost::sum(&[Some(jm)]).is_some());
}

/// A 1 Hz series from `t0` carrying only the anon readings that matter here.
fn anon_at(t0: u64, anon: &[i64]) -> Vec<Sample> {
    anon.iter()
        .enumerate()
        .map(|(i, &a)| Sample {
            t_ms: t0 + (i as u64) * 1000,
            usage_usec: 0,
            user_usec: 0,
            system_usec: 0,
            nr_throttled: 0,
            throttled_usec: 0,
            mem_current: a.max(0),
            mem_peak: a.max(0),
            anon: a,
            file: 0,
            slab: 0,
            kernel_stack: 0,
            sock: 0,
        })
        .collect()
}

#[test]
fn an_arms_peak_is_what_it_held_at_once_not_the_sum_of_separate_peaks() {
    // Summing the maxima gives 300, which neither the arm nor the machine saw.
    let a = anon_at(1_000, &[100, 10, 10]);
    let b = anon_at(1_000, &[10, 10, 200]);
    assert_eq!(simultaneous_peak_anon(&[&a, &b]), Some(210));
}

#[test]
fn a_container_with_no_sample_in_a_bucket_holds_its_last_reading() {
    let dense = anon_at(1_000, &[10, 10, 10, 10]);
    let mut sparse = anon_at(1_000, &[500]);
    sparse.extend(anon_at(4_000, &[500]));
    assert_eq!(simultaneous_peak_anon(&[&dense, &sparse]), Some(510));
}

#[test]
fn a_container_contributes_nothing_before_it_has_started() {
    let early = anon_at(1_000, &[100, 100, 100, 100]);
    let late = anon_at(3_000, &[400, 400]);
    assert_eq!(simultaneous_peak_anon(&[&early, &late]), Some(500));
}

#[test]
fn a_single_container_arms_peak_is_unchanged_by_the_alignment() {
    let only = anon_at(1_000, &[10, 900, 400]);
    assert_eq!(simultaneous_peak_anon(&[&only]), Some(900));
}

#[test]
fn an_unreadable_sample_cannot_become_an_arms_peak() {
    let mut rows = anon_at(1_000, &[10, 20]);
    rows.extend(anon_at(3_000, &[-1]));
    assert_eq!(simultaneous_peak_anon(&[&rows]), Some(20));
}

#[test]
fn a_series_with_nothing_readable_has_no_peak() {
    assert_eq!(simultaneous_peak_anon(&[&Vec::<Sample>::new()]), None);
}

#[test]
fn a_footprint_depends_on_no_order_and_reaches_every_reading() {
    let a = anon_at(1_000, &[100, 10, -1, 10]);
    let b = anon_at(1_500, &[10, 10, 200]);
    let c = anon_at(900, &[7, 350]);
    let peak = simultaneous_peak_anon(&[&a, &b, &c]).expect("readable");
    for order in [[&c, &b, &a], [&b, &a, &c], [&a, &c, &b]] {
        assert_eq!(simultaneous_peak_anon(&order.map(|s| s.as_slice())), Some(peak));
    }
    assert!(peak >= 350);
    let read: Vec<Sample> = a.iter().copied().filter(|s| s.anon >= 0).collect();
    assert_eq!(simultaneous_peak_anon(&[&read, &b, &c]), Some(peak));
    assert_eq!(simultaneous_peak_anon(&[&anon_at(5, &[-1]), &Vec::new()]), None);
}

#[test]
fn a_footprint_never_exceeds_the_sum_of_the_peaks() {
    let a = anon_at(1_000, &[100, 10, 10]);
    let b = anon_at(1_500, &[10, 10, 200]);
    assert!(simultaneous_peak_anon(&[&a, &b]).expect("readable") <= 300);
}

#[test]
fn a_series_is_read_from_the_samplers_lines() {
    let lines: Vec<String> = [
        "# cgroup=/x cpu.max=400000/100000 memory.max=8589934592",
        "t_ms,usage_usec",
        "1000,1000000,900000,100000,0,0,100,100,80,20,0,0,0",
        "2000,3000000,2700000,300000,0,0,300,400,250,50,0,0,0",
        "",
    ]
    .iter()
    .map(|s| (*s).to_owned())
    .collect();
    let s = Samples::from_lines(&lines, double(1.5));
    assert!(s.meta.contains("cpu.max=400000/100000"), "{}", s.meta);
    assert_eq!(s.rows.len(), 2);
    assert_eq!(number(s.wall_s), 1.5);
}

#[test]
fn a_cost_without_rows_is_charged_to_no_row() {
    let cost = series(&[
        "1000,0,0,0,0,0,10,10,8,2,0,0,0",
        "2000,67000,67000,0,0,0,30,40,25,5,0,0,0",
    ])
    .summarise()
    .expect("summarises");
    assert!(number(cost.cpu_us_per_row(0)).is_nan());
    assert_eq!(number(cost.rows_per_s(0)), 0.0);
}

#[test]
fn one_arm_runs_on_a_host_at_a_time() {
    match ArmLock::next(&LockAttempt::Created, 7, "bench run") {
        LockAction::Hold(text) => assert_eq!(text, "7 bench run\n"),
        _ => panic!("a created lock is held"),
    }
    let alive = LockAttempt::Exists {
        held: "4242 bench run\n".to_owned(),
        holder_alive: true,
    };
    match ArmLock::next(&alive, 7, "bench run") {
        LockAction::Refuse(why) => assert!(why.contains("4242 bench run"), "{why}"),
        _ => panic!("a held lock is refused"),
    }
    // A holder that died left its file behind.
    let dead = LockAttempt::Exists {
        held: "4242 bench run\n".to_owned(),
        holder_alive: false,
    };
    assert!(matches!(ArmLock::next(&dead, 7, "bench run"), LockAction::Reclaim));
    // One that names nobody is not reclaimed on a guess.
    let nobody = LockAttempt::Exists {
        held: "nobody".to_owned(),
        holder_alive: false,
    };
    assert!(matches!(ArmLock::next(&nobody, 7, "bench run"), LockAction::Refuse(_)));
    let failed = LockAttempt::Failed("read-only".to_owned());
    assert!(matches!(ArmLock::next(&failed, 7, "bench run"), LockAction::Refuse(_)));
    assert_eq!(ArmLock::holder_pid("4242 bench run"), Some(4242));
    assert_eq!(ArmLock::holder_pid("nobody"), None);
}

fn spec(name: &str) -> SutSpec {
    SutSpec {
        name: name.to_owned(),
        image: "img".to_owned(),
        cpus: "4".to_owned(),
        memory: "8g".to_owned(),
        env: vec![("K".to_owned(), "v".to_owned())],
        args: vec!["serve".to_owned()],
        volumes: vec!["vol:/data".to_owned()],
    }
}

#[test]
fn an_arm_is_started_container_by_container() {
    let all = start_arm(&[spec("a"), spec("b")], "net");
    assert_eq!(all.len(), 2);
    let joined = all[0].join(" ");
    assert!(joined.contains("K=v"), "{joined}");
    assert!(joined.contains("vol:/data"), "{joined}");
    assert!(joined.ends_with("img serve"), "{joined}");
    assert!(all[1].join(" ").contains(" b "));
    assert!(stop_sut("a").contains(&"a".to_owned()));
}

#[test]
fn a_container_that_cannot_be_inspected_is_not_alive() {
    assert!(sut_alive(&Ok("true".to_owned())));
    assert!(!sut_alive(&Ok("false".to_owned())));
    assert!(!sut_alive(&Err("gone".to_owned())));
    assert!(container_id("a".repeat(12)).is_err());
    assert!(container_id("a".repeat(64)).is_ok());
    assert_ne!(sampler_name(0), sampler_name(1));
}

#[test]
fn a_sampler_is_handed_the_id_of_its_container() {
    let args = start_named("0abc", "0.1", "spate-bench-sampler-1", "net");
    assert_eq!(
        args.join(" "),
        "run --rm -i --name spate-bench-sampler-1 --network net --cgroupns=host -v /sys/fs/cgroup:/cg:rw python:3.12-alpine python3 - 0abc 0.1"
    );
}

#[test]
fn rates_are_rounded_where_doubles_are() {
    let cost = series(&[
        "1000,0,0,0,0,0,10,10,8,2,0,0,0",
        "1333,66667,66667,0,0,0,30,40,25,5,0,0,0",
    ])
    .summarise()
    .expect("summarises");
    let window_s = 333.0 / 1000.0;
    assert_eq!(number(cost.window_s()), window_s);
    assert_eq!(number(cost.cores_used()), 66_667.0 / (window_s * 1_000_000.0));
    assert_eq!(number(cost.rows_per_s(7)), 7.0 / window_s);
    assert_eq!(number(cost.cpu_us_per_row(7)), 66_667.0 / 7.0);
}
