# spate_bench

The decisions of a benchmark that compares streaming systems on one fixed
pipeline, Kafka to Avro to ClickHouse, verified with Verus.

Every system runs inside a declared envelope of processors and memory. Its cost is
read from control-group counters by a sidecar, its rows are counted in ClickHouse,
and what cannot be shown to have been measured is refused rather than published.
The library holds those rules. It does no I/O: it says what to run, is handed what
came back, and decides what that amounts to.

## Layout

- `src/entrant.rs`, `src/environment.rs`: descriptors of systems and of machines,
  and everything that can be wrong with them.
- `src/infra.rs`: the shared broker and ClickHouse, and the caps they must run under.
- `src/sampler.rs`, `src/jvm.rs`, `src/serverside.rs`: the three instruments. Counters
  of control groups, logs of collectors, and the query log of the target.
- `src/driver.rs` and `src/driver/`: one repetition of one arm, from the containers
  that are started to the record that is written, and the sweep over all of them.
- `src/report.rs`: records, metrics and flags.
- `src/double.rs`, `src/big.rs`: double-precision numbers as integers, each operation
  proved to give the double nearest to the exact result, and the large natural numbers
  that this takes. Every published figure is one.
- `src/http.rs`, `src/text.rs`, `src/table.rs`: requests and responses, characters and
  ordered maps.
- `app/`: the containers, sockets and files around the library.
- `tests/`: the library run on concrete values.
