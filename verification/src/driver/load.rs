//! How long a run may take, and how much it may offer and store.

use vstd::prelude::*;
use crate::about;
use crate::big;
use crate::double;
use crate::double::Double;
use crate::driver::Arm;
use crate::entrant::Container;
use crate::environment::Environment;
use crate::text;

verus! {

/// Seconds that a drain of the reference corpus may take.
pub const DRAIN_MAX_REFERENCE_S: u64 = 600;

/// Messages of the reference corpus.
pub const DRAIN_MAX_REFERENCE_BATCHES: u64 = 1_500_000;

/// Milliseconds between two row counts while a drain runs. The count decides
/// when the window closes, and is a query against the system under test.
pub const DRAIN_POLL_MS: u64 = 250;

/// Seconds that a window must reach for its reading to be treated as precise.
pub const MIN_WINDOW_S: u64 = 120;

/// Thousandths of the corpus that the correctness gate examines.
pub const GATE_SHARE: u64 = 67;

/// Bytes of ClickHouse's memory that one message costs the correctness gate.
pub const GATE_BYTES_PER_BATCH: u64 = 7_500;

/// The part of ClickHouse's memory that a gate may plan to occupy: one in
/// this many.
pub const GATE_MEMORY_SHARE: u64 = 4;

/// Seconds that a sustained window is held open, unless asked otherwise.
pub const SUSTAINED_WINDOW_S: u64 = 30;

/// Seconds that the arm may take to prove that it is consuming.
pub const SUSTAINED_WARMUP_MAX_S: u64 = 120;

/// Seconds of warm-up production that the projection of disk charges per run.
/// An allowance rather than the deadline: a guard that refuses what the host can
/// run is a guard that gets removed.
pub const SUSTAINED_WARMUP_BUDGET_S: u64 = 45;

/// Messages per second that one producer thread is budgeted to offer, below its
/// own ceiling: a thread that runs at it paces the run instead of the schedule.
pub const PRODUCER_THREAD_MSGS_PER_S: u64 = 60_000;

/// Bytes that the sustained topic may be projected to hold.
pub const SUSTAINED_TOPIC_BYTES_MAX: u64 = 51_539_607_552;

/// The larger of two numbers.
pub open spec fn larger(a: int, b: int) -> int {
    if a >= b {
        a
    } else {
        b
    }
}

/// The smaller of two numbers.
pub open spec fn smaller(a: int, b: int) -> int {
    if a <= b {
        a
    } else {
        b
    }
}

/// `n`, or the largest number that sixty-four bits hold.
pub open spec fn at_most_u64(n: int) -> int {
    smaller(n, u64::MAX as int)
}

/// The deadline of a drain, in seconds: it grows with the corpus, and is never
/// below that of the reference.
pub open spec fn drain_deadline(batches: int) -> int {
    larger(
        at_most_u64(DRAIN_MAX_REFERENCE_S * larger(batches, 1)) / (
        DRAIN_MAX_REFERENCE_BATCHES as int),
        DRAIN_MAX_REFERENCE_S as int,
    )
}

/// The deadline of a drain of `batches` messages, in seconds.
pub fn drain_max_s(batches: u64) -> (s: u64)
    ensures
        s == drain_deadline(batches as int),
{
    let n: u64 = if batches == 0 {
        1
    } else {
        batches
    };
    let product: u64 = match n.checked_mul(DRAIN_MAX_REFERENCE_S) {
        Some(p) => p,
        None => u64::MAX,
    };
    let scaled: u64 = product / DRAIN_MAX_REFERENCE_BATCHES;
    if scaled >= DRAIN_MAX_REFERENCE_S {
        scaled
    } else {
        DRAIN_MAX_REFERENCE_S
    }
}

/// How many messages the correctness gate examines: a share of the corpus, as
/// far as a share of ClickHouse's memory affords it, and at least one. A gate
/// over none would gate nothing while reporting a gate.
pub open spec fn gate_batches(batches: int, memory: int) -> int {
    larger(
        smaller(
            double::of(batches as nat).times(double::quotient(GATE_SHARE as nat, 1000)).floor()
                as int,
            (double::of(memory as nat).times(
                double::quotient(1, GATE_MEMORY_SHARE as nat),
            ).floor() / GATE_BYTES_PER_BATCH as nat) as int,
        ),
        1,
    )
}

/// How many messages the correctness gate examines in a corpus of `batches`,
/// against `memory` bytes of ClickHouse's.
pub fn gate_window_batches(batches: u64, memory: u64) -> (n: u64)
    ensures
        n == gate_batches(batches as int, memory as int),
{
    let want: u64 = Double::of(batches as u128).multiply(
        Double::quotient(GATE_SHARE as u128, 1000),
    ).whole();
    let affordable: u64 = Double::of(memory as u128).multiply(
        Double::quotient(1, GATE_MEMORY_SHARE),
    ).whole() / GATE_BYTES_PER_BATCH;
    let n: u64 = if want <= affordable {
        want
    } else {
        affordable
    };
    if n >= 1 {
        n
    } else {
        1
    }
}

/// The topic of a sustained run.
pub open spec fn live_topic(base: Seq<char>) -> Seq<char> {
    base + "-sustained"@
}

/// The topic that a sustained run produces to and consumes from. Not the
/// prefilled one: producing into it would grow it past the depth that the next
/// drain asserts.
pub fn sustained_topic(base: &str) -> (s: String)
    ensures
        s@ == live_topic(base@),
{
    let mut s = base.to_owned();
    s.append("-sustained");
    s
}

/// Bytes of one message: the mean of four that were framed, measured rather than
/// assumed.
pub fn message_bytes(a: u64, b: u64, c: u64, d: u64) -> (n: u64)
    ensures
        n == (a + b + c + d) / 4,
{
    ((a as u128 + b as u128 + c as u128 + d as u128) / 4) as u64
}

/// Bytes that the sustained topic is projected to hold: the messages already on
/// it once, and for every run those of its window and of its warm-up allowance.
/// What does not fit in sixty-four bits counts as the most that does.
pub open spec fn projected_bytes(
    existing: int,
    rate: int,
    window_s: int,
    runs: int,
    message: int,
) -> int {
    let per_run = at_most_u64(rate * at_most_u64(window_s + SUSTAINED_WARMUP_BUDGET_S));
    at_most_u64(at_most_u64(existing + at_most_u64(per_run * runs)) * message)
}

fn times(a: u64, b: u64) -> (r: u64)
    ensures
        r == at_most_u64(a * b),
{
    match a.checked_mul(b) {
        Some(p) => p,
        None => u64::MAX,
    }
}

fn plus(a: u64, b: u64) -> (r: u64)
    ensures
        r == at_most_u64(a + b),
{
    match a.checked_add(b) {
        Some(p) => p,
        None => u64::MAX,
    }
}

/// Bytes that the sustained topic is projected to hold once the sweep is done.
pub fn projected_topic_bytes(
    existing_msgs: u64,
    rate: u64,
    window_s: u64,
    runs: u64,
    message_bytes: u64,
) -> (n: u64)
    ensures
        n == projected_bytes(
            existing_msgs as int,
            rate as int,
            window_s as int,
            runs as int,
            message_bytes as int,
        ),
{
    let per_run: u64 = times(rate, plus(window_s, SUSTAINED_WARMUP_BUDGET_S));
    times(plus(existing_msgs, times(per_run, runs)), message_bytes)
}

/// A number of bytes in units of 2^30, with one digit after the point.
pub open spec fn gib_text(bytes: nat) -> Seq<char> {
    double::of(bytes).over(double::of(1_073_741_824)).fixed(1)
}

/// A number of bytes in units of 2^30, with one digit after the point.
pub fn bytes_gib(bytes: u64) -> (s: String)
    ensures
        s@ == gib_text(bytes as nat),
{
    Double::of(bytes as u128).divide(Double::of(1_073_741_824)).to_fixed(1)
}

/// How many threads it takes to offer a rate, each at its budget.
pub open spec fn threads_for(rate: int) -> int {
    larger(
        (rate + PRODUCER_THREAD_MSGS_PER_S - 1) / (PRODUCER_THREAD_MSGS_PER_S as int),
        1,
    )
}

/// Producer threads for an offered rate. There is no upper bound: a generator
/// that is too weak to saturate the arm measures nothing.
pub fn producer_threads(offered_msgs_per_s: u64) -> (n: u64)
    ensures
        n == threads_for(offered_msgs_per_s as int),
{
    let n: u64 = ((offered_msgs_per_s as u128 + PRODUCER_THREAD_MSGS_PER_S as u128 - 1)
        / PRODUCER_THREAD_MSGS_PER_S as u128) as u64;
    if n >= 1 {
        n
    } else {
        1
    }
}

// ---------------------------------------------------------------------------
// What the host is asked for
// ---------------------------------------------------------------------------

/// A processor count; zero for what is no number.
pub open spec fn cpu_count(s: Seq<char>) -> Double {
    match double::parse(s) {
        Some(n) => n,
        None => Double::zero(false),
    }
}

/// What the containers ask for together. A sum begins at minus zero, which every
/// number that is added takes the place of.
pub open spec fn containers_ask(cs: Seq<Container>) -> Double
    decreases cs.len(),
{
    if cs.len() == 0 {
        Double::zero(true)
    } else {
        containers_ask(cs.drop_last()).plus(cpu_count(cs.last().cpus@))
    }
}

/// What the widest of the arms asks for. Arms run one at a time.
pub open spec fn widest(arms: Seq<Arm>) -> Double
    decreases arms.len(),
{
    if arms.len() == 0 {
        Double::zero(false)
    } else {
        match arms.last().entrant.spec.envelope {
            Some(e) => widest(arms.drop_last()).larger(containers_ask(e.containers@)),
            None => widest(arms.drop_last()),
        }
    }
}

/// What a sustained sweep asks of the host in processors: the widest arm, the
/// broker, ClickHouse, the generator's threads and the driver.
pub open spec fn demand(env: Environment, arms: Seq<Arm>, rate: int) -> Double {
    widest(arms).plus(cpu_count(env.spec.infra.broker.cpus@)).plus(
        cpu_count(env.spec.infra.clickhouse.cpus@),
    ).plus(double::of(threads_for(rate) as nat)).plus(double::of(1))
}

fn cpus(s: &str) -> (n: Double)
    ensures
        n == cpu_count(s@),
{
    let v = text::chars_of(s);
    match double::read(v.as_slice()) {
        Some(n) => n,
        None => Double::nothing(),
    }
}

fn ask_of(cs: &[Container]) -> (n: Double)
    ensures
        n == containers_ask(cs@),
{
    let mut n: Double = Double::nothing().negate();
    let mut i: usize = 0;
    while i < cs.len()
        invariant
            i <= cs.len(),
            n == containers_ask(cs@.take(i as int)),
        decreases cs.len() - i,
    {
        assert(cs@.take(i + 1).drop_last() =~= cs@.take(i as int));
        n = n.add_to(cpus(cs[i].cpus.as_str()));
        i = i + 1;
    }
    assert(cs@.take(i as int) =~= cs@);
    n
}

/// What a sustained sweep asks of the host in processors, and how many the host
/// has. On a host of which more is asked than it has, contention shows up as the
/// arm's number.
pub fn oversubscription(env: &Environment, arms: &[Arm<'_>], offered_msgs_per_s: u64) -> (r: (
    Double,
    u32,
))
    ensures
        r.0 == demand(*env, arms@, offered_msgs_per_s as int),
        r.1 == env.spec.host.vm_cpus,
{
    let mut most: Double = Double::nothing();
    let mut i: usize = 0;
    while i < arms.len()
        invariant
            i <= arms.len(),
            most == widest(arms@.take(i as int)),
        decreases arms.len() - i,
    {
        assert(arms@.take(i + 1).drop_last() =~= arms@.take(i as int));
        assert(arms@.take(i + 1).last() == arms@[i as int]);
        if let Some(e) = &arms[i].entrant.spec.envelope {
            most = most.max_with(ask_of(e.containers.as_slice()));
        }
        i = i + 1;
    }
    assert(arms@.take(i as int) =~= arms@);
    let total: Double = most.add_to(cpus(env.spec.infra.broker.cpus.as_str())).add_to(
        cpus(env.spec.infra.clickhouse.cpus.as_str()),
    ).add_to(Double::of(producer_threads(offered_msgs_per_s) as u128)).add_to(Double::of(1));
    (total, env.spec.host.vm_cpus)
}

// ---------------------------------------------------------------------------
// Refusals before anything is started
// ---------------------------------------------------------------------------

/// The refusal of a topic that does not hold the corpus.
pub open spec fn corpus_refusal(topic: Seq<char>, depth: int, batches: int) -> Seq<char> {
    "REFUSED: topic "@ + text::debug_text(topic) + " holds "@ + text::decimal(depth as nat)
        + " messages, expected "@ + text::decimal(batches as nat)
        + ". Run `bench prefill` first.\n\nIf you just recreated the infrastructure, that is why: the corpus lives inside the broker, so `--fresh-infra` discards it and the prefill has to be repeated."@
}

/// Refuses a drain whose topic does not hold the corpus, which would otherwise
/// be discovered by one arm after another at its deadline.
pub fn check_corpus(topic: &str, depth: u64, batches: u64) -> (r: Result<(), String>)
    ensures
        match r {
            Ok(_) => depth == batches,
            Err(e) => depth != batches && e@ == corpus_refusal(
                topic@,
                depth as int,
                batches as int,
            ),
        },
{
    if depth == batches {
        return Ok(());
    }
    let mut m = "REFUSED: topic ".to_owned();
    m.append(text::quoted(topic).as_str());
    m.append(" holds ");
    text::push_decimal(&mut m, depth as u128);
    m.append(" messages, expected ");
    text::push_decimal(&mut m, batches as u128);
    m.append(
        ". Run `bench prefill` first.\n\nIf you just recreated the infrastructure, that is why: the corpus lives inside the broker, so `--fresh-infra` discards it and the prefill has to be repeated.",
    );
    Err(m)
}

/// How many runs a sweep is.
pub fn run_count(arms: usize, reps: u32) -> (n: u64)
    ensures
        n == at_most_u64(arms * reps),
{
    times(arms as u64, reps as u64)
}

/// The refusal of a sweep that would put too much on the sustained topic, with
/// its arithmetic.
pub open spec fn disk_refusal(
    topic: Seq<char>,
    depth: int,
    rate: int,
    window_s: int,
    runs: int,
    message: int,
) -> Seq<char> {
    "REFUSED: "@ + text::decimal(runs as nat) + " arm-run(s) at "@ + text::decimal(rate as nat)
        + " messages/s would put up to "@ + gib_text(
        projected_bytes(depth, rate, window_s, runs, message) as nat,
    ) + " GiB on topic "@ + text::debug_text(topic) + ", over the "@ + gib_text(
        SUSTAINED_TOPIC_BYTES_MAX as nat,
    ) + " GiB budget. The projection is (existing "@ + text::decimal(depth as nat)
        + " + runs x rate x (window "@ + text::decimal(window_s as nat) + "s + warm-up allowance "@
        + text::decimal(SUSTAINED_WARMUP_BUDGET_S as nat) + "s)) x "@ + text::decimal(message as nat)
        + " bytes/message.\n\nLower --rate, shorten --window, run fewer arms or --reps, or delete the topic. It is deliberately never trimmed under a running consumer: a saturated arm falls behind by design, and retention that deleted log it had not read would make the correctness gate report the skipped range as the framework losing rows."@
}

/// Refuses a sustained sweep that would put too much on its topic.
pub fn check_disk(topic: &str, depth: u64, rate: u64, window_s: u64, runs: u64, message: u64) -> (r:
    Result<(), String>)
    ensures
        ({
            let projected = projected_bytes(
                depth as int,
                rate as int,
                window_s as int,
                runs as int,
                message as int,
            );
            match r {
                Ok(_) => projected <= SUSTAINED_TOPIC_BYTES_MAX,
                Err(e) => projected > SUSTAINED_TOPIC_BYTES_MAX && e@ == disk_refusal(
                    topic@,
                    depth as int,
                    rate as int,
                    window_s as int,
                    runs as int,
                    message as int,
                ),
            }
        }),
{
    let projected: u64 = projected_topic_bytes(depth, rate, window_s, runs, message);
    if projected <= SUSTAINED_TOPIC_BYTES_MAX {
        return Ok(());
    }
    let mut m = "REFUSED: ".to_owned();
    text::push_decimal(&mut m, runs as u128);
    m.append(" arm-run(s) at ");
    text::push_decimal(&mut m, rate as u128);
    m.append(" messages/s would put up to ");
    m.append(bytes_gib(projected).as_str());
    m.append(" GiB on topic ");
    m.append(text::quoted(topic).as_str());
    m.append(", over the ");
    m.append(bytes_gib(SUSTAINED_TOPIC_BYTES_MAX).as_str());
    m.append(" GiB budget. The projection is (existing ");
    text::push_decimal(&mut m, depth as u128);
    m.append(" + runs x rate x (window ");
    text::push_decimal(&mut m, window_s as u128);
    m.append("s + warm-up allowance ");
    text::push_decimal(&mut m, SUSTAINED_WARMUP_BUDGET_S as u128);
    m.append("s)) x ");
    text::push_decimal(&mut m, message as u128);
    m.append(
        " bytes/message.\n\nLower --rate, shorten --window, run fewer arms or --reps, or delete the topic. It is deliberately never trimmed under a running consumer: a saturated arm falls behind by design, and retention that deleted log it had not read would make the correctness gate report the skipped range as the framework losing rows.",
    );
    Err(m)
}

// ---------------------------------------------------------------------------
// Laws
// ---------------------------------------------------------------------------

/// The deadline of a drain is never below that of the reference, and a longer
/// corpus never has a shorter deadline.
pub proof fn a_deadline_grows_with_the_corpus(a: u64, b: u64)
    requires
        a <= b,
    ensures
        DRAIN_MAX_REFERENCE_S <= drain_deadline(a as int) <= drain_deadline(b as int),
{
    let p = at_most_u64(DRAIN_MAX_REFERENCE_S * larger(a as int, 1));
    let q = at_most_u64(DRAIN_MAX_REFERENCE_S * larger(b as int, 1));
    assert(p <= q);
    assert(p / 1_500_000 <= q / 1_500_000);
}

/// The generator is wide enough and no wider: its threads carry the offered rate
/// at their budget, and one fewer would not, unless one is all there is.
pub proof fn the_generator_carries_the_offered_rate(rate: u64)
    ensures
        threads_for(rate as int) * PRODUCER_THREAD_MSGS_PER_S >= rate,
        threads_for(rate as int) > 1 ==> (threads_for(rate as int) - 1)
            * PRODUCER_THREAD_MSGS_PER_S < rate,
{
}

/// The projection never falls when there is more on the topic, a higher rate, a
/// longer window, another run or a larger message.
pub proof fn a_projection_never_falls(
    existing: u64,
    rate: u64,
    window_s: u64,
    runs: u64,
    message: u64,
    existing2: u64,
    rate2: u64,
    window2: u64,
    runs2: u64,
    message2: u64,
)
    requires
        existing <= existing2,
        rate <= rate2,
        window_s <= window2,
        runs <= runs2,
        message <= message2,
    ensures
        projected_bytes(
            existing as int,
            rate as int,
            window_s as int,
            runs as int,
            message as int,
        ) <= projected_bytes(
            existing2 as int,
            rate2 as int,
            window2 as int,
            runs2 as int,
            message2 as int,
        ),
{
    let w = at_most_u64(window_s + SUSTAINED_WARMUP_BUDGET_S);
    let w2 = at_most_u64(window2 + SUSTAINED_WARMUP_BUDGET_S);
    lemma_products(rate as int, w, rate2 as int, w2);
    let p = at_most_u64(rate * w);
    let p2 = at_most_u64(rate2 * w2);
    lemma_products(p, runs as int, p2, runs2 as int);
    let e = at_most_u64(existing + at_most_u64(p * runs));
    let e2 = at_most_u64(existing2 + at_most_u64(p2 * runs2));
    lemma_products(e, message as int, e2, message2 as int);
}

proof fn lemma_products(a: int, b: int, c: int, d: int)
    requires
        0 <= a <= c,
        0 <= b <= d,
    ensures
        0 <= a * b <= c * d,
{
    assert(0 <= a * b <= c * d) by (nonlinear_arith)
        requires
            0 <= a <= c,
            0 <= b <= d,
    ;
}

/// A quarter of a whole number is exact.
proof fn lemma_quarter(n: nat)
    requires
        n <= u64::MAX,
    ensures
        4 * double::of(n).times(double::quotient(1, 4)).floor() <= double::of(n).integer(),
{
    let o = double::one_in_units();
    let x = double::of(n);
    let y = double::quotient(1, 4);
    big::lemma_two_add(1072, 2);
    big::lemma_two_add(1072, 0);
    reveal_with_fuel(big::two, 3);
    assert(big::two(2) == 4);
    let t = big::two(1072);
    assert(o == 4 * t);
    assert(1 * o == 4 * (1 * t)) by (nonlinear_arith)
        requires
            o == 4 * t,
    ;
    double::an_exact_result_is_kept(false, 1 * o, 4, 1, 1072);
    assert(y.magnitude() == t);
    double::an_integer_is_finite(n);
    if n == 0 {
        double::a_small_integer_is_a_double(0);
        assert(0 * o == 0 && 0 * t == 0 && o * (0 * big::two(0)) == 0) by (nonlinear_arith);
        double::an_exact_result_is_kept(false, 0, o, 0, 0);
        assert(0 * big::two(0) == 0 && 0nat / o == 0) by (nonlinear_arith)
            requires
                o > 0,
        ;
    } else if let Double::Finite { negative, mantissa, shift } = x {
        let m = mantissa as nat;
        let s = shift as nat;
        double::what_is_rounded_is_a_double(false, n * o, 1);
        double::a_double_of_an_integer_is_doubled(n);
        big::lemma_two_add((s - 2) as nat, 2);
        let r = big::two((s - 2) as nat);
        assert((m * big::two(s)) * t == o * (m * r)) by (nonlinear_arith)
            requires
                big::two(s) == r * 4,
                o == 4 * t,
        ;
        double::an_exact_result_is_kept(false, x.magnitude() * t, o, m, (s - 2) as nat);
        let q = m * r;
        assert(x.magnitude() == 4 * q) by (nonlinear_arith)
            requires
                x.magnitude() == m * big::two(s),
                big::two(s) == r * 4,
                q == m * r,
        ;
        assert(4 * (q / o) <= (4 * q) / o) by (nonlinear_arith)
            requires
                o > 0,
                q >= 0,
        ;
    }
}

/// A gate examines at least one message and never plans to occupy more of
/// ClickHouse's memory than its share, beyond that one. The memory is what the
/// double that it is counted in holds, which is the memory itself below `2^53`
/// bytes.
pub proof fn the_gate_stays_within_its_memory(batches: u64, memory: u64)
    ensures
        gate_batches(batches as int, memory as int) >= 1,
        gate_batches(batches as int, memory as int) > 1 ==> gate_batches(
            batches as int,
            memory as int,
        ) * GATE_BYTES_PER_BATCH * GATE_MEMORY_SHARE <= double::of(memory as nat).integer(),
        memory < 0x20_0000_0000_0000 ==> double::of(memory as nat).integer() == memory,
{
    lemma_quarter(memory as nat);
    if memory < 0x20_0000_0000_0000 {
        double::a_small_integer_is_a_double(memory as nat);
    }
    let f = double::of(memory as nat).times(double::quotient(1, 4)).floor();
    assert((f / 7_500) * 7_500 <= f) by (nonlinear_arith)
        requires
            f >= 0,
    ;
}

/// A drain of the reference corpus, of one and a half million messages, or of a
/// shorter one is given ten minutes, and a corpus so many times as long is given so
/// many times as long.
pub proof fn a_drain_is_given_ten_minutes_per_reference(batches: u64, k: u64)
    requires
        k >= 1,
        900_000_000 * k <= u64::MAX,
    ensures
        batches <= 1_500_000 ==> drain_deadline(batches as int) == 600,
        drain_deadline(1_500_000 * k) == 600 * k,
{
    let n = 1_500_000 * k;
    assert((600 * n) / 1_500_000 == 600 * k) by (nonlinear_arith)
        requires
            n == 1_500_000 * k,
            k >= 1,
    ;
}

/// What a sustained sweep is projected to store, where sixty-four bits hold it: each
/// run's messages of its window and of forty-five seconds more, with those that are
/// there already, at the bytes of a message. Up to forty-eight gibibytes of it are
/// accepted.
pub proof fn a_projection_counts_every_message(
    existing: u64,
    rate: u64,
    window_s: u64,
    runs: u64,
    message: u64,
)
    requires
        (existing + runs * (rate * (window_s + 45))) * message <= u64::MAX,
        message > 0,
    ensures
        projected_bytes(
            existing as int,
            rate as int,
            window_s as int,
            runs as int,
            message as int,
        ) == (existing + runs * (rate * (window_s + 45))) * message,
        SUSTAINED_TOPIC_BYTES_MAX == 48 * 1_073_741_824,
{
    let (e, r, w, n, m) = (
        existing as int,
        rate as int,
        window_s as int,
        runs as int,
        message as int,
    );
    let p = r * (w + 45);
    let q = n * p;
    let t = (e + q) * m;
    let max: int = u64::MAX as int;
    assert(0 <= p && 0 <= q && e + q <= t && q <= t && e * m <= t) by (nonlinear_arith)
        requires
            p == r * (w + 45),
            q == n * p,
            t == (e + q) * m,
            e >= 0,
            r >= 0,
            w >= 0,
            n >= 0,
            m >= 1,
    {
        assert(p >= 0);
        assert(q >= 0);
        assert(e + q <= (e + q) * m);
        assert(e * m <= (e + q) * m);
    }
    if n == 0 || r == 0 {
        let a = at_most_u64(w + 45);
        assert(0 * a == 0) by (nonlinear_arith);
        let per_run = at_most_u64(r * a);
        assert(per_run * n == 0) by (nonlinear_arith)
            requires
                n == 0 || per_run == 0,
        ;
        assert(q == 0) by (nonlinear_arith)
            requires
                q == n * p,
                p == r * (w + 45),
                n == 0 || r == 0,
        ;
    } else {
        assert(p <= q && w + 45 <= p) by (nonlinear_arith)
            requires
                p == r * (w + 45),
                q == n * p,
                r >= 1,
                n >= 1,
                w >= 0,
        {
            assert((w + 45) * r >= w + 45);
            assert(p * n >= p);
        }
        assert(p * n == n * p) by (nonlinear_arith);
    }
}

/// A corpus is examined for correctness in sixty-seven of a thousand messages, to the
/// message, unless memory affords fewer: then one message more would take more than a
/// quarter of it, at seventy-five hundred bytes a message.
pub proof fn a_corpus_is_examined_in_its_share(batches: u64, memory: u64)
    requires
        batches < 0x100_0000_0000,
        memory < 0x20_0000_0000_0000,
    ensures
        ({
            let n = gate_batches(batches as int, memory as int);
            &&& n > 1 ==> 1000 * n <= 67 * batches + 1
            &&& 1000 * (n + 1) > 67 * batches - 1 || 30_000 * (n + 1) > memory
            &&& n > 1 ==> 30_000 * n <= memory
        }),
{
    let (b, m) = (batches as nat, memory as nat);
    about::lemma_ranges();
    let u = double::one_in_units();
    let (c, t) = (big::two(256), big::two(200));
    assert(u >= 0x1000_0000_0000_0000_0000 && c >= 0x100_0000_0000_0000) by (nonlinear_arith)
        requires
            u >= t * t * 0x1000_0000_0000_0000_0000,
            c == t * 0x100_0000_0000_0000,
            t >= 1,
    {
        assert(t * t >= 1);
    }
    // The share of the corpus.
    let q = double::quotient(67, 1000);
    assert(0x20_0000_0000_0000 * 1000 <= 67 * u && 67 * u <= 1000 * (u * c)) by (nonlinear_arith)
        requires
            u >= 0x1000_0000_0000_0000_0000,
            c >= 1,
    {
        assert(u * c >= u);
    }
    double::rounding_is_close(false, 67 * u, 1000);
    assert(67 * u == 67 * double::one_in_units());
    assert(about::within(q, 67, 1000, 1));
    about::a_count(b);
    if b > 0 {
        about::counts_are_moderate(b * 67, 1 * 1000);
    }
    let x = double::of(b).times(q);
    about::a_product_is_about(double::of(b), b, 1, 1, q, 67, 1000, 1);
    assert(1 * 1000 == 1000nat);
    let w = x.magnitude();
    let f = x.floor();
    vstd::arithmetic::div_mod::lemma_fundamental_div_mod(w as int, u as int);
    let g = w / u;
    let h = w % u;
    let e: int = 0x20_0000_0000_0000;
    let bb = b * 67;
    assert(1000 * g <= bb + 1 && bb < 1000 * (g + 1) + 1) by (nonlinear_arith)
        requires
            (e - 5) * (bb * u) <= e * (w * 1000) <= (e + 5) * (bb * u),
            w == u * g + h,
            0 <= h < u,
            bb <= 67 * 0x100_0000_0000,
            e == 0x20_0000_0000_0000,
            u > 0,
            bb >= 0,
    {
        assert(w * 1000 == 1000 * (u * g) + 1000 * h);
        assert(e * (1000 * (u * g)) <= (e + 5) * (bb * u));
        assert((e * (1000 * g)) * u <= ((e + 5) * bb) * u);
        assert(e * (1000 * g) <= (e + 5) * bb);
        assert(5 * bb < e);
        assert(1000 * g <= bb + 1);
        assert((e - 5) * (bb * u) <= e * (1000 * (u * g) + 1000 * h));
        assert(e * (1000 * (u * g) + 1000 * h) < e * (1000 * (u * (g + 1))));
        assert(((e - 5) * bb) * u < (e * (1000 * (g + 1))) * u);
        assert((e - 5) * bb < e * (1000 * (g + 1)));
    }
    assert(g <= u64::MAX);
    assert(f == g);
    // The share of the memory.
    the_gate_stays_within_its_memory(batches, memory);
    lemma_exact_quarter(m);
    let a = double::of(m).times(double::quotient(1, 4)).floor();
    assert(a == m / 4);
    let k = a / 7_500;
    assert(30_000 * (k + 1) > m);
}

/// A quarter of a number of bytes, to the byte below.
proof fn lemma_exact_quarter(n: nat)
    requires
        n < 0x20_0000_0000_0000,
    ensures
        double::of(n).times(double::quotient(1, 4)).floor() == n / 4,
{
    let o = double::one_in_units();
    big::lemma_two_add(1072, 2);
    big::lemma_two_add(1072, 0);
    reveal_with_fuel(big::two, 3);
    assert(big::two(2) == 4);
    let t = big::two(1072);
    assert(o == 4 * t);
    assert(1 * o == 4 * (1 * t)) by (nonlinear_arith)
        requires
            o == 4 * t,
    ;
    double::an_exact_result_is_kept(false, 1 * o, 4, 1, 1072);
    double::a_small_integer_is_a_double(n);
    assert((n * o) * (1 * t) == o * (n * t)) by (nonlinear_arith);
    double::an_exact_result_is_kept(false, (n * o) * (1 * t), o, n, 1072);
    let x = double::of(n).times(double::quotient(1, 4));
    assert(x.magnitude() == n * t);
    assert((n * t) / o == n / 4) by (nonlinear_arith)
        requires
            o == 4 * t,
            t > 0,
    {
        let (q, r) = (n / 4, n % 4);
        assert(n * t == q * (4 * t) + r * t);
        assert(0 <= r * t < 4 * t);
        vstd::arithmetic::div_mod::lemma_fundamental_div_mod_converse(
            (n * t) as int,
            (4 * t) as int,
            q as int,
            (r * t) as int,
        );
    }
}

/// A generator's thread is asked for sixty thousand messages a second at the most.
pub proof fn a_thread_offers_sixty_thousand(rate: u64)
    ensures
        threads_for(rate as int) >= 1,
        60_000 * threads_for(rate as int) >= rate,
        threads_for(rate as int) == 1 || 60_000 * (threads_for(rate as int) - 1) < rate,
{
}

/// Whether the containers declare whole numbers of processors, which add up to `n`.
pub open spec fn ask_for(cs: Seq<Container>, n: nat) -> bool
    decreases cs.len(),
{
    if cs.len() == 0 {
        n == 0
    } else {
        exists|k: nat|
            k <= n && cs.last().cpus@ == #[trigger] text::decimal(k) && ask_for(
                cs.drop_last(),
                (n - k) as nat,
            )
    }
}

proof fn lemma_ask(cs: Seq<Container>, n: nat)
    requires
        cs.len() > 0,
        ask_for(cs, n),
        n < 0x20_0000_0000_0000,
    ensures
        containers_ask(cs) == double::of(n),
    decreases cs.len(),
{
    let k = choose|k: nat|
        k <= n && cs.last().cpus@ == #[trigger] text::decimal(k) && ask_for(
            cs.drop_last(),
            (n - k) as nat,
        );
    double::a_decimal_reads_as_its_number(k);
    let less = cs.drop_last();
    if less.len() == 0 {
        let u = double::one_in_units();
        about::lemma_ranges();
        double::a_small_integer_is_a_double(k);
        assert(Double::zero(true).magnitude() == 0) by {
            assert(0 * big::two(0) == 0) by (nonlinear_arith);
        }
        assert((k * u == 0) == (k == 0)) by (nonlinear_arith)
            requires
                u > 0,
        ;
        if k == 0 {
            double::nothing_over_something(false, 1);
        }
        assert(containers_ask(less) == Double::zero(true));
    } else {
        lemma_ask(less, (n - k) as nat);
        double::small_counts_add_up_exactly((n - k) as nat, k);
    }
}

/// What a sustained sweep of one arm asks of the host, in whole processors: those of
/// its containers, the broker's, ClickHouse's, one for each of the generator's
/// threads, and one for the driver.
pub proof fn the_host_is_asked_for_everything_that_runs(
    env: Environment,
    arms: Seq<Arm>,
    rate: u64,
    arm: nat,
    broker: nat,
    clickhouse: nat,
)
    requires
        arms.len() == 1,
        arms[0].entrant.spec.envelope matches Some(e) && e.containers@.len() > 0 && ask_for(
            e.containers@,
            arm,
        ),
        env.spec.infra.broker.cpus@ == text::decimal(broker),
        env.spec.infra.clickhouse.cpus@ == text::decimal(clickhouse),
        arm + broker + clickhouse < 0x1000_0000_0000,
    ensures
        demand(env, arms, rate as int) == double::of(
            (arm + broker + clickhouse + threads_for(rate as int) + 1) as nat,
        ),
{
    let e = arms[0].entrant.spec.envelope->0;
    lemma_ask(e.containers@, arm);
    assert(arms.last() == arms[0]);
    assert(arms.drop_last() =~= Seq::empty());
    reveal_with_fuel(widest, 2);
    let z = Double::zero(false);
    double::a_small_integer_is_a_double(arm);
    about::lemma_ranges();
    assert(z.magnitude() == 0) by {
        assert(0 * big::two(0) == 0) by (nonlinear_arith);
    }
    let u = double::one_in_units();
    assert((arm * u == 0) == (arm == 0)) by (nonlinear_arith)
        requires
            u > 0,
    ;
    assert(widest(arms) == double::of(arm)) by {
        if arm == 0 {
            double::nothing_over_something(false, 1);
        }
    }
    double::a_decimal_reads_as_its_number(broker);
    double::a_decimal_reads_as_its_number(clickhouse);
    let t = threads_for(rate as int) as nat;
    assert(t <= 0x2_0000_0000_0000);
    double::small_counts_add_up_exactly(arm, broker);
    double::small_counts_add_up_exactly(arm + broker, clickhouse);
    double::small_counts_add_up_exactly(arm + broker + clickhouse, t);
    double::small_counts_add_up_exactly(arm + broker + clickhouse + t, 1);
}

} // verus!
