//! What `docker run` makes of its arguments.
//!
//! The options stand before the image and what the container is handed stands
//! behind it. An option either holds its value behind an equals sign or is
//! followed by it; what follows an option that takes a value is no option, however
//! it begins.

use vstd::prelude::*;
use crate::driver::arm;
use crate::driver::identity;
use crate::entrant;
use crate::entrant::Container;
use crate::environment;
use crate::environment::Storage;
use crate::infra;
use crate::sampler;
use crate::sampler::SutSpec;
use crate::text;

verus! {

/// Whether an argument is an option.
pub open spec fn is_option(a: Seq<char>) -> bool {
    a.len() > 0 && a[0] == '-'
}

/// Whether an option's value is the argument behind it.
pub open spec fn takes_value(a: Seq<char>) -> bool {
    a == "--name"@ || a == "--network"@ || a == "-e"@ || a == "-v"@ || a == "-p"@ || a
        == "--ulimit"@
}

/// Where the image stands, from `i` on: at the first argument that is neither an
/// option nor an option's value.
pub open spec fn image_at(args: Seq<Seq<char>>, i: int) -> int
    decreases args.len() + 2 - i,
{
    if i >= args.len() || !is_option(args[i]) {
        i
    } else if takes_value(args[i]) {
        image_at(args, i + 2)
    } else {
        image_at(args, i + 1)
    }
}

/// What each of the options that begin with `key` goes on with.
pub open spec fn settings(args: Seq<Seq<char>>, i: int, key: Seq<char>) -> Seq<Seq<char>>
    decreases args.len() + 2 - i,
{
    if i >= args.len() || !is_option(args[i]) {
        Seq::empty()
    } else if takes_value(args[i]) {
        settings(args, i + 2, key)
    } else if text::starts_with(args[i], key) {
        seq![args[i].skip(key.len() as int)] + settings(args, i + 1, key)
    } else {
        settings(args, i + 1, key)
    }
}

/// What each of the options `flag` is followed by.
pub open spec fn handed(args: Seq<Seq<char>>, i: int, flag: Seq<char>) -> Seq<Seq<char>>
    decreases args.len() + 2 - i,
{
    if i >= args.len() || !is_option(args[i]) {
        Seq::empty()
    } else if takes_value(args[i]) {
        if args[i] == flag && i + 1 < args.len() {
            seq![args[i + 1]] + handed(args, i + 2, flag)
        } else {
            handed(args, i + 2, flag)
        }
    } else {
        handed(args, i + 1, flag)
    }
}

/// The variables of an environment, as they are handed over.
pub open spec fn assignments(env: Seq<(String, String)>) -> Seq<Seq<char>> {
    env.map_values(|e: (String, String)| e.0@ + "="@ + e.1@)
}

// ---------------------------------------------------------------------------
// Reading
// ---------------------------------------------------------------------------

proof fn lemma_words()
    ensures
        "--name"@.len() == 6 && "--name"@[0] == '-' && "--name"@[2] == 'n' && "--name"@[3] == 'a',
        "--network"@.len() == 9 && "--network"@[0] == '-' && "--network"@[2] == 'n'
            && "--network"@[3] == 'e',
        "-e"@.len() == 2 && "-e"@[0] == '-' && "-e"@[1] == 'e',
        "-v"@.len() == 2 && "-v"@[0] == '-' && "-v"@[1] == 'v',
        "-p"@.len() == 2 && "-p"@[0] == '-' && "-p"@[1] == 'p',
        "-d"@.len() == 2 && "-d"@[0] == '-' && "-d"@[1] == 'd',
        "-i"@.len() == 2 && "-i"@[0] == '-' && "-i"@[1] == 'i',
        "--rm"@.len() == 4 && "--rm"@[0] == '-',
        "--ulimit"@.len() == 8 && "--ulimit"@[0] == '-' && "--ulimit"@[2] == 'u',
        "--cpus="@.len() == 7 && "--cpus="@[0] == '-' && "--cpus="@[2] == 'c' && "--cpus="@[3]
            == 'p' && "--cpus="@[1] == '-',
        "--memory="@.len() == 9 && "--memory="@[0] == '-' && "--memory="@[2] == 'm'
            && "--memory="@[8] == '=' && "--memory="@[1] == '-',
        "--memory-swap="@.len() == 14 && "--memory-swap="@[0] == '-' && "--memory-swap="@[2] == 'm'
            && "--memory-swap="@[8] == '-' && "--memory-swap="@[1] == '-',
        "--cgroupns=host"@.len() == 15 && "--cgroupns=host"@[0] == '-' && "--cgroupns=host"@[2]
            == 'c' && "--cgroupns=host"@[3] == 'g',
        "--cgroupns="@.len() == 11 && "--cgroupns="@[3] == 'g',
{
    reveal_strlit("--name");
    reveal_strlit("--network");
    reveal_strlit("-e");
    reveal_strlit("-v");
    reveal_strlit("-p");
    reveal_strlit("-d");
    reveal_strlit("-i");
    reveal_strlit("--rm");
    reveal_strlit("--ulimit");
    reveal_strlit("--cpus=");
    reveal_strlit("--memory=");
    reveal_strlit("--memory-swap=");
    reveal_strlit("--cgroupns=host");
    reveal_strlit("--cgroupns=");
}

proof fn lemma_does_not_start(s: Seq<char>, p: Seq<char>, i: int)
    requires
        0 <= i < p.len(),
        i < s.len(),
        s[i] != p[i],
    ensures
        !text::starts_with(s, p),
{
    if text::starts_with(s, p) {
        assert(s.take(p.len() as int)[i] == p[i]);
    }
}

/// The three caps are options of their own, and each begins with its own key alone.
proof fn lemma_caps(cpus: Seq<char>, memory: Seq<char>, swap: Seq<char>)
    ensures
        ({
            let (a, b, c) = (
                "--cpus="@ + cpus,
                "--memory="@ + memory,
                "--memory-swap="@ + swap,
            );
            &&& is_option(a) && !takes_value(a)
            &&& is_option(b) && !takes_value(b)
            &&& is_option(c) && !takes_value(c)
            &&& text::starts_with(a, "--cpus="@) && a.skip(7) == cpus
            &&& text::starts_with(b, "--memory="@) && b.skip(9) == memory
            &&& text::starts_with(c, "--memory-swap="@) && c.skip(14) == swap
            &&& !text::starts_with(a, "--memory="@) && !text::starts_with(a, "--memory-swap="@)
            &&& !text::starts_with(b, "--cpus="@) && !text::starts_with(b, "--memory-swap="@)
            &&& !text::starts_with(c, "--cpus="@) && !text::starts_with(c, "--memory="@)
        }),
{
    lemma_words();
    let a = "--cpus="@ + cpus;
    let b = "--memory="@ + memory;
    let c = "--memory-swap="@ + swap;
    assert(a[0] == '-' && a[2] == 'c' && a[3] == 'p');
    assert(b[0] == '-' && b[2] == 'm' && b[8] == '=');
    assert(c[0] == '-' && c[2] == 'm' && c[8] == '-');
    assert(a.take(7) =~= "--cpus="@);
    assert(b.take(9) =~= "--memory="@);
    assert(c.take(14) =~= "--memory-swap="@);
    assert(a.skip(7) =~= cpus);
    assert(b.skip(9) =~= memory);
    assert(c.skip(14) =~= swap);
    lemma_does_not_start(a, "--memory="@, 2);
    lemma_does_not_start(a, "--memory-swap="@, 2);
    lemma_does_not_start(b, "--cpus="@, 2);
    lemma_does_not_start(b, "--memory-swap="@, 8);
    lemma_does_not_start(c, "--cpus="@, 2);
    lemma_does_not_start(c, "--memory="@, 8);
}

/// Reading over `n` options that are each followed by a value.
proof fn lemma_pairs(args: Seq<Seq<char>>, i: int, n: nat, flag: Seq<char>)
    requires
        0 <= i,
        i + 2 * n <= args.len(),
        takes_value(flag),
        forall|k: int| 0 <= k < n ==> #[trigger] args[i + 2 * k] == flag,
    ensures
        image_at(args, i) == image_at(args, i + 2 * n),
        forall|key: Seq<char>| #[trigger]
            settings(args, i, key) == settings(args, i + 2 * n, key),
        forall|f: Seq<char>| #[trigger]
            handed(args, i, f) == (if f == flag {
                Seq::new(n, |k: int| args[i + 2 * k + 1])
            } else {
                Seq::empty()
            }) + handed(args, i + 2 * n, f),
    decreases n,
{
    lemma_words();
    if n == 0 {
        assert forall|f: Seq<char>| #[trigger]
            handed(args, i, f) == (if f == flag {
                Seq::new(n, |k: int| args[i + 2 * k + 1])
            } else {
                Seq::empty()
            }) + handed(args, i + 2 * n, f) by {
            assert(Seq::new(n, |k: int| args[i + 2 * k + 1]) =~= Seq::empty());
            assert(Seq::<Seq<char>>::empty() + handed(args, i, f) =~= handed(args, i, f));
        }
    } else {
        let less = (n - 1) as nat;
        assert(args[i + 2 * 0] == flag);
        assert forall|k: int| 0 <= k < less implies #[trigger] args[(i + 2) + 2 * k] == flag by {
            assert(args[i + 2 * (k + 1)] == flag);
        }
        lemma_pairs(args, i + 2, less, flag);
        assert(i + 2 + 2 * less == i + 2 * n);
        assert(is_option(args[i]));
        assert forall|key: Seq<char>| #[trigger]
            settings(args, i, key) == settings(args, i + 2 * n, key) by {
            assert(settings(args, i + 2, key) == settings(args, i + 2 + 2 * less, key));
        }
        assert forall|f: Seq<char>| #[trigger]
            handed(args, i, f) == (if f == flag {
                Seq::new(n, |k: int| args[i + 2 * k + 1])
            } else {
                Seq::empty()
            }) + handed(args, i + 2 * n, f) by {
            let rest = handed(args, i + 2 * n, f);
            assert(handed(args, i + 2, f) == (if f == flag {
                Seq::new(less, |k: int| args[i + 2 + 2 * k + 1])
            } else {
                Seq::empty()
            }) + rest);
            if f == flag {
                assert(seq![args[i + 1]] + (Seq::new(less, |k: int| args[i + 2 + 2 * k + 1])
                    + rest) =~= Seq::new(n, |k: int| args[i + 2 * k + 1]) + rest);
            }
        }
    }
}

proof fn lemma_env_args(env: Seq<(String, String)>)
    ensures
        sampler::env_args(env).len() == 2 * env.len(),
        forall|k: int| 0 <= k < env.len() ==> sampler::env_args(env)[#[trigger] (2 * k)] == "-e"@,
        forall|k: int|
            0 <= k < env.len() ==> sampler::env_args(env)[#[trigger] (2 * k) + 1] == assignments(
                env,
            )[k],
    decreases env.len(),
{
    if env.len() > 0 {
        let e = env.drop_last();
        lemma_env_args(e);
        let a = sampler::env_args(env);
        let b = sampler::env_args(e);
        assert forall|k: int| 0 <= k < env.len() implies a[#[trigger] (2 * k)] == "-e"@ && a[2 * k + 1]
            == assignments(env)[k] by {
            if k < e.len() {
                assert(a[2 * k] == b[2 * k] && a[2 * k + 1] == b[2 * k + 1]);
                assert(assignments(e)[k] == assignments(env)[k]);
            }
        }
    }
}

proof fn lemma_flagged(flag: Seq<char>, values: Seq<Seq<char>>)
    ensures
        sampler::flagged(flag, values).len() == 2 * values.len(),
        forall|k: int|
            0 <= k < values.len() ==> sampler::flagged(flag, values)[#[trigger] (2 * k)] == flag,
        forall|k: int|
            0 <= k < values.len() ==> sampler::flagged(flag, values)[#[trigger] (2 * k) + 1]
                == values[k],
    decreases values.len(),
{
    if values.len() > 0 {
        let v = values.drop_last();
        lemma_flagged(flag, v);
        let a = sampler::flagged(flag, values);
        let b = sampler::flagged(flag, v);
        assert forall|k: int| 0 <= k < values.len() implies a[#[trigger] (2 * k)] == flag && a[2 * k
            + 1] == values[k] by {
            if k < v.len() {
                assert(a[2 * k] == b[2 * k] && a[2 * k + 1] == b[2 * k + 1]);
            }
        }
    }
}

/// Reading an option that holds its own value, or none.
proof fn lemma_plain(args: Seq<Seq<char>>, i: int)
    requires
        0 <= i < args.len(),
        is_option(args[i]),
        !takes_value(args[i]),
    ensures
        image_at(args, i) == image_at(args, i + 1),
        forall|f: Seq<char>| #[trigger] handed(args, i, f) == handed(args, i + 1, f),
        forall|key: Seq<char>| #[trigger]
            settings(args, i, key) == (if text::starts_with(args[i], key) {
                seq![args[i].skip(key.len() as int)]
            } else {
                Seq::empty()
            }) + settings(args, i + 1, key),
{
    assert forall|key: Seq<char>| #[trigger]
        settings(args, i, key) == (if text::starts_with(args[i], key) {
            seq![args[i].skip(key.len() as int)]
        } else {
            Seq::empty()
        }) + settings(args, i + 1, key) by {
        assert(Seq::<Seq<char>>::empty() + settings(args, i + 1, key) =~= settings(
            args,
            i + 1,
            key,
        ));
    }
}

/// Reading an option and the value behind it.
proof fn lemma_valued(args: Seq<Seq<char>>, i: int)
    requires
        0 <= i,
        i + 1 < args.len(),
        takes_value(args[i]),
    ensures
        image_at(args, i) == image_at(args, i + 2),
        forall|key: Seq<char>| #[trigger] settings(args, i, key) == settings(args, i + 2, key),
        forall|f: Seq<char>| #[trigger]
            handed(args, i, f) == (if f == args[i] {
                seq![args[i + 1]]
            } else {
                Seq::empty()
            }) + handed(args, i + 2, f),
{
    lemma_words();
    assert forall|f: Seq<char>| #[trigger]
        handed(args, i, f) == (if f == args[i] {
            seq![args[i + 1]]
        } else {
            Seq::empty()
        }) + handed(args, i + 2, f) by {
        assert(Seq::<Seq<char>>::empty() + handed(args, i + 2, f) =~= handed(args, i + 2, f));
    }
}

// ---------------------------------------------------------------------------
// Laws
// ---------------------------------------------------------------------------

/// A container of an arm is started as it is declared, as its arguments are read:
/// before the image exactly one option begins with `--cpus=` and goes on with the
/// declared processors, exactly one each begins with `--memory=` and
/// `--memory-swap=` and goes on with the declared memory, its name and its network
/// are given once, its variables and its volumes are handed over in order and no
/// others, and behind the image stand its arguments.
pub proof fn a_container_is_started_as_declared(spec: SutSpec, network: Seq<char>)
    requires
        spec.image@.len() > 0,
        spec.image@[0] != '-',
    ensures
        ({
            let args = spec.run_args(network);
            let at = image_at(args, 1);
            &&& args.len() > 1 && args[0] == "run"@
            &&& settings(args, 1, "--cpus="@) == seq![spec.cpus@]
            &&& settings(args, 1, "--memory="@) == seq![spec.memory@]
            &&& settings(args, 1, "--memory-swap="@) == seq![spec.memory@]
            &&& settings(args, 1, "-d"@) == seq![Seq::<char>::empty()]
            &&& handed(args, 1, "--name"@) == seq![spec.name@]
            &&& handed(args, 1, "--network"@) == seq![network]
            &&& handed(args, 1, "-e"@) == assignments(spec.env@)
            &&& handed(args, 1, "-v"@) == text::strings(spec.volumes@)
            &&& 0 < at < args.len() && args[at] == spec.image@
            &&& args.skip(at + 1) == text::strings(spec.args@)
        }),
{
    let args = spec.run_args(network);
    let vols = text::strings(spec.volumes@);
    let (n, m) = (spec.env@.len(), vols.len());
    lemma_words();
    lemma_caps(spec.cpus@, spec.memory@, spec.memory@);
    lemma_env_args(spec.env@);
    lemma_flagged("-v"@, vols);
    let e = sampler::env_args(spec.env@);
    let v = sampler::flagged("-v"@, vols);
    let i: int = 9 + 2 * n as int;
    let j: int = i + 2 * m;
    assert(args[1] == "-d"@ && args[2] == "--name"@ && args[3] == spec.name@ && args[4]
        == "--network"@ && args[5] == network);
    assert(args[6] == "--cpus="@ + spec.cpus@ && args[7] == "--memory="@ + spec.memory@ && args[8]
        == "--memory-swap="@ + spec.memory@);
    assert(args[j] == spec.image@);
    assert forall|k: int| 0 <= k < n implies #[trigger] args[9 + 2 * k] == "-e"@ && args[9 + 2 * k + 1]
        == assignments(spec.env@)[k] by {
        assert(args[9 + 2 * k] == e[2 * k] && args[9 + 2 * k + 1] == e[2 * k + 1]);
    }
    assert forall|k: int| 0 <= k < m implies #[trigger] args[i + 2 * k] == "-v"@ && args[i + 2 * k + 1]
        == vols[k] by {
        assert(args[i + 2 * k] == v[2 * k] && args[i + 2 * k + 1] == v[2 * k + 1]);
    }
    lemma_plain(args, 1);
    lemma_valued(args, 2);
    lemma_valued(args, 4);
    lemma_plain(args, 6);
    lemma_plain(args, 7);
    lemma_plain(args, 8);
    lemma_pairs(args, 9, n, "-e"@);
    lemma_pairs(args, i, m, "-v"@);
    assert(image_at(args, j) == j);
    assert(args.skip(j + 1) =~= text::strings(spec.args@));
    lemma_run_settings(spec, network, args, j);
    lemma_run_handed(spec, network, args, i, j);
}

proof fn lemma_run_settings(spec: SutSpec, network: Seq<char>, args: Seq<Seq<char>>, j: int)
    requires
        args.len() > 9,
        args[1] == "-d"@,
        args[6] == "--cpus="@ + spec.cpus@,
        args[7] == "--memory="@ + spec.memory@,
        args[8] == "--memory-swap="@ + spec.memory@,
        0 <= j < args.len(),
        !is_option(args[j]),
        forall|key: Seq<char>| #[trigger]
            settings(args, 1, key) == (if text::starts_with(args[1], key) {
                seq![args[1].skip(key.len() as int)]
            } else {
                Seq::empty()
            }) + settings(args, 2, key),
        forall|key: Seq<char>| #[trigger] settings(args, 2, key) == settings(args, 4, key),
        forall|key: Seq<char>| #[trigger] settings(args, 4, key) == settings(args, 6, key),
        forall|key: Seq<char>| #[trigger]
            settings(args, 6, key) == (if text::starts_with(args[6], key) {
                seq![args[6].skip(key.len() as int)]
            } else {
                Seq::empty()
            }) + settings(args, 7, key),
        forall|key: Seq<char>| #[trigger]
            settings(args, 7, key) == (if text::starts_with(args[7], key) {
                seq![args[7].skip(key.len() as int)]
            } else {
                Seq::empty()
            }) + settings(args, 8, key),
        forall|key: Seq<char>| #[trigger]
            settings(args, 8, key) == (if text::starts_with(args[8], key) {
                seq![args[8].skip(key.len() as int)]
            } else {
                Seq::empty()
            }) + settings(args, 9, key),
        forall|key: Seq<char>| #[trigger] settings(args, 9, key) == settings(args, j, key),
    ensures
        settings(args, 1, "--cpus="@) == seq![spec.cpus@],
        settings(args, 1, "--memory="@) == seq![spec.memory@],
        settings(args, 1, "--memory-swap="@) == seq![spec.memory@],
        settings(args, 1, "-d"@) == seq![Seq::<char>::empty()],
{
    lemma_words();
    lemma_caps(spec.cpus@, spec.memory@, spec.memory@);
    let none = Seq::<Seq<char>>::empty();
    lemma_does_not_start("--cpus="@ + spec.cpus@, "-d"@, 1);
    lemma_does_not_start("--memory="@ + spec.memory@, "-d"@, 1);
    lemma_does_not_start("--memory-swap="@ + spec.memory@, "-d"@, 1);
    assert("-d"@.take(2) =~= "-d"@);
    assert("-d"@.skip(2) =~= Seq::<char>::empty());
    assert(settings(args, 1, "--cpus="@) =~= seq![spec.cpus@]);
    assert(settings(args, 1, "--memory="@) =~= seq![spec.memory@]);
    assert(settings(args, 1, "--memory-swap="@) =~= seq![spec.memory@]);
    assert(settings(args, 1, "-d"@) =~= seq![Seq::<char>::empty()]);
}

proof fn lemma_run_handed(
    spec: SutSpec,
    network: Seq<char>,
    args: Seq<Seq<char>>,
    i: int,
    j: int,
)
    requires
        args.len() > 9,
        args[2] == "--name"@,
        args[3] == spec.name@,
        args[4] == "--network"@,
        args[5] == network,
        i == 9 + 2 * spec.env@.len(),
        0 <= j < args.len(),
        !is_option(args[j]),
        forall|k: int|
            0 <= k < spec.env@.len() ==> #[trigger] args[9 + 2 * k] == "-e"@ && args[9 + 2 * k + 1]
                == assignments(spec.env@)[k],
        forall|k: int|
            0 <= k < spec.volumes@.len() ==> #[trigger] args[i + 2 * k] == "-v"@ && args[i + 2 * k + 1]
                == text::strings(spec.volumes@)[k],
        forall|f: Seq<char>| #[trigger] handed(args, 1, f) == handed(args, 2, f),
        forall|f: Seq<char>| #[trigger]
            handed(args, 2, f) == (if f == args[2] {
                seq![args[3]]
            } else {
                Seq::empty()
            }) + handed(args, 4, f),
        forall|f: Seq<char>| #[trigger]
            handed(args, 4, f) == (if f == args[4] {
                seq![args[5]]
            } else {
                Seq::empty()
            }) + handed(args, 6, f),
        forall|f: Seq<char>| #[trigger] handed(args, 6, f) == handed(args, 7, f),
        forall|f: Seq<char>| #[trigger] handed(args, 7, f) == handed(args, 8, f),
        forall|f: Seq<char>| #[trigger] handed(args, 8, f) == handed(args, 9, f),
        forall|f: Seq<char>| #[trigger]
            handed(args, 9, f) == (if f == "-e"@ {
                Seq::new(spec.env@.len(), |k: int| args[9 + 2 * k + 1])
            } else {
                Seq::empty()
            }) + handed(args, i, f),
        forall|f: Seq<char>| #[trigger]
            handed(args, i, f) == (if f == "-v"@ {
                Seq::new(spec.volumes@.len(), |k: int| args[i + 2 * k + 1])
            } else {
                Seq::empty()
            }) + handed(args, j, f),
    ensures
        handed(args, 1, "--name"@) == seq![spec.name@],
        handed(args, 1, "--network"@) == seq![network],
        handed(args, 1, "-e"@) == assignments(spec.env@),
        handed(args, 1, "-v"@) == text::strings(spec.volumes@),
{
    lemma_words();
    assert(Seq::new(spec.env@.len(), |k: int| args[9 + 2 * k + 1]) =~= assignments(spec.env@)) by {
        assert forall|k: int| 0 <= k < spec.env@.len() implies args[9 + 2 * k + 1] == assignments(
            spec.env@,
        )[k] by {
            assert(args[9 + 2 * k] == "-e"@);
        }
    }
    assert(Seq::new(spec.volumes@.len(), |k: int| args[i + 2 * k + 1]) =~= text::strings(
        spec.volumes@,
    )) by {
        assert forall|k: int| 0 <= k < spec.volumes@.len() implies args[i + 2 * k + 1]
            == text::strings(spec.volumes@)[k] by {
            assert(args[i + 2 * k] == "-v"@);
        }
    }
    assert(handed(args, 1, "--name"@) =~= seq![spec.name@]);
    assert(handed(args, 1, "--network"@) =~= seq![network]);
    assert(handed(args, 1, "-e"@) =~= assignments(spec.env@));
    assert(handed(args, 1, "-v"@) =~= text::strings(spec.volumes@));
}


/// What a container of an arm is started under, read back from its arguments, is
/// what its caps are held to: the sampler's description of its control group is
/// accepted where it reports the processors of `--cpus=` and the bytes of
/// `--memory=`, and refused where it reports any other number of bytes.
pub proof fn a_container_is_held_to_what_it_was_started_under(
    spec: SutSpec,
    network: Seq<char>,
    c: Container,
    image: Seq<char>,
    env: Seq<(Seq<char>, Seq<char>)>,
    volumes: Seq<Seq<char>>,
    name: Seq<char>,
    meta: Seq<char>,
    cpu: Seq<char>,
    mem: Seq<char>,
    bytes: nat,
)
    requires
        arm::starts(spec, c, image, env, volumes),
        image.len() > 0,
        image[0] != '-',
        identity::field(text::words(meta), "cpu.max="@) == Some(cpu),
        identity::field(text::words(meta), "memory.max="@) == Some(mem),
        text::parse_u64(mem) == Some(bytes),
    ensures
        ({
            let args = spec.run_args(network);
            let cpus = settings(args, 1, "--cpus="@);
            let memory = settings(args, 1, "--memory="@);
            let swap = settings(args, 1, "--memory-swap="@);
            &&& cpus.len() == 1 && memory.len() == 1 && swap == memory
            &&& identity::caps_refusal(name, c, meta) is None ==> entrant::memory_bytes(memory[0])
                == Some(bytes) && identity::cpus_hold(cpus[0], cpu)
            &&& entrant::memory_bytes(memory[0]) == Some(bytes) && identity::cpus_hold(cpus[0], cpu)
                ==> identity::caps_refusal(name, c, meta) is None
        }),
{
    a_container_is_started_as_declared(spec, network);
}

/// A sampler is started as its arguments are read: under its name and on its
/// network, in the host's control groups and with their tree mounted, and it is
/// handed the container's identifier and the interval.
pub proof fn a_sampler_is_started_as_asked(
    id: Seq<char>,
    interval: Seq<char>,
    name: Seq<char>,
    network: Seq<char>,
)
    ensures
        ({
            let args = sampler::sampler_args(id, interval, name, network);
            let at = image_at(args, 1);
            &&& args[0] == "run"@
            &&& handed(args, 1, "--name"@) == seq![name]
            &&& handed(args, 1, "--network"@) == seq![network]
            &&& handed(args, 1, "-v"@) == seq!["/sys/fs/cgroup:/cg:rw"@]
            &&& settings(args, 1, "--cgroupns="@) == seq!["host"@]
            &&& args[at] == "python:3.12-alpine"@
            &&& args.skip(at + 1) == seq!["python3"@, "-"@, id, interval]
        }),
{
    let args = sampler::sampler_args(id, interval, name, network);
    lemma_words();
    reveal_strlit("python:3.12-alpine");
    reveal_strlit("host");
    lemma_plain(args, 1);
    lemma_plain(args, 2);
    lemma_valued(args, 3);
    lemma_valued(args, 5);
    lemma_plain(args, 7);
    lemma_valued(args, 8);
    reveal_strlit("--cgroupns=host");
    reveal_strlit("--cgroupns=");
    reveal_strlit("--rm");
    let key = "--cgroupns="@;
    assert("--cgroupns=host"@.take(11) =~= key);
    assert("--cgroupns=host"@.skip(11) =~= "host"@);
    assert(settings(args, 10, key) =~= Seq::empty());
    assert(settings(args, 1, key) =~= seq!["host"@]);
    assert(handed(args, 10, "--name"@) =~= Seq::empty());
    assert(handed(args, 10, "--network"@) =~= Seq::empty());
    assert(handed(args, 10, "-v"@) =~= Seq::empty());
    assert(handed(args, 1, "--name"@) =~= seq![name]);
    assert(handed(args, 1, "--network"@) =~= seq![network]);
    assert(handed(args, 1, "-v"@) =~= seq!["/sys/fs/cgroup:/cg:rw"@]);
    assert(args.skip(11) =~= seq!["python3"@, "-"@, id, interval]);
}

/// Whether a container's arguments give it these caps, name and network, and
/// nothing more than its data path as a volume.
pub open spec fn is_capped(
    args: Seq<Seq<char>>,
    name: Seq<char>,
    network: Seq<char>,
    cpus: Seq<char>,
    memory: Seq<char>,
    volumes: Seq<Seq<char>>,
) -> bool {
    &&& args[0] == "run"@
    &&& handed(args, 1, "--name"@) == seq![name]
    &&& handed(args, 1, "--network"@) == seq![network]
    &&& settings(args, 1, "--cpus="@) == seq![cpus]
    &&& settings(args, 1, "--memory="@) == seq![memory]
    &&& settings(args, 1, "--memory-swap="@) == seq![memory]
    &&& handed(args, 1, "-v"@) == volumes
}

/// The volumes of a data path: the host's directory, where it is a measured one.
pub open spec fn data_volumes(storage: Storage, host: Seq<char>, inside: Seq<char>) -> Seq<
    Seq<char>,
> {
    if storage.kind is LocalNvme {
        seq![host + ":"@ + inside]
    } else {
        Seq::empty()
    }
}

/// Reading the three caps.
proof fn lemma_read_caps(args: Seq<Seq<char>>, i: int, cpus: Seq<char>, memory: Seq<char>)
    requires
        0 <= i,
        i + 3 <= args.len(),
        args[i] == "--cpus="@ + cpus,
        args[i + 1] == "--memory="@ + memory,
        args[i + 2] == "--memory-swap="@ + memory,
    ensures
        image_at(args, i) == image_at(args, i + 3),
        forall|f: Seq<char>| #[trigger] handed(args, i, f) == handed(args, i + 3, f),
        settings(args, i, "--cpus="@) == seq![cpus] + settings(args, i + 3, "--cpus="@),
        settings(args, i, "--memory="@) == seq![memory] + settings(args, i + 3, "--memory="@),
        settings(args, i, "--memory-swap="@) == seq![memory] + settings(
            args,
            i + 3,
            "--memory-swap="@,
        ),
{
    lemma_words();
    lemma_caps(cpus, memory, memory);
    lemma_plain(args, i);
    lemma_plain(args, i + 1);
    lemma_plain(args, i + 2);
    assert forall|f: Seq<char>| #[trigger] handed(args, i, f) == handed(args, i + 3, f) by {
        assert(handed(args, i, f) == handed(args, i + 1, f));
        assert(handed(args, i + 1, f) == handed(args, i + 2, f));
        assert(handed(args, i + 2, f) == handed(args, i + 3, f));
    }
    assert(settings(args, i, "--cpus="@) =~= seq![cpus] + settings(args, i + 3, "--cpus="@));
    assert(settings(args, i, "--memory="@) =~= seq![memory] + settings(
        args,
        i + 3,
        "--memory="@,
    ));
    assert(settings(args, i, "--memory-swap="@) =~= seq![memory] + settings(
        args,
        i + 3,
        "--memory-swap="@,
    ));
}

/// Reading a data path's volume, and the image behind it.
proof fn lemma_read_volume(
    args: Seq<Seq<char>>,
    i: int,
    storage: Storage,
    host: Seq<char>,
    inside: Seq<char>,
)
    requires
        0 <= i,
        ({
            let v = infra::volume_args(storage, host, inside);
            &&& i + v.len() < args.len()
            &&& args.subrange(i, i + v.len()) == v
            &&& !is_option(args[i + v.len()])
        }),
    ensures
        image_at(args, i) == i + infra::volume_args(storage, host, inside).len(),
        forall|key: Seq<char>| #[trigger] settings(args, i, key) == Seq::<Seq<char>>::empty(),
        handed(args, i, "-v"@) == data_volumes(storage, host, inside),
        forall|f: Seq<char>| f != "-v"@ ==> #[trigger] handed(args, i, f) == Seq::<Seq<char>>::empty(),
{
    lemma_words();
    let v = infra::volume_args(storage, host, inside);
    if storage.kind is LocalNvme {
        assert(args[i] == args.subrange(i, i + 2)[0]);
        assert(args[i + 1] == args.subrange(i, i + 2)[1]);
        lemma_valued(args, i);
        assert(handed(args, i, "-v"@) =~= data_volumes(storage, host, inside));
        assert forall|f: Seq<char>| f != "-v"@ implies #[trigger] handed(args, i, f)
            == Seq::<Seq<char>>::empty() by {
            assert(handed(args, i, f) =~= Seq::empty());
        }
    }
}

/// The broker is started under its declared caps, with swap capped as memory is,
/// on its network, with its two ports open and its data path mounted; behind the
/// image it is told the processors that it may use.
pub proof fn the_broker_is_started_as_declared(
    b: environment::Broker,
    storage: Storage,
    network: Seq<char>,
)
    requires
        b.image@.len() > 0,
        b.image@[0] != '-',
    ensures
        ({
            let args = infra::broker_args(b, storage, network);
            let at = image_at(args, 1);
            &&& is_capped(
                args,
                infra::BROKER@,
                network,
                b.cpus@,
                b.memory@,
                data_volumes(storage, storage.broker_data@, infra::BROKER_DATA@),
            )
            &&& handed(args, 1, "-p"@) == seq!["9092:9092"@, "18081:8081"@]
            &&& args[at] == b.image@
            &&& args[at + 11] == "--smp"@ && args[at + 12] == b.cpus@
        }),
{
    let args = infra::broker_args(b, storage, network);
    let v = infra::volume_args(storage, storage.broker_data@, infra::BROKER_DATA@);
    lemma_words();
    lemma_plain(args, 1);
    lemma_valued(args, 2);
    lemma_valued(args, 4);
    lemma_valued(args, 6);
    lemma_valued(args, 8);
    lemma_read_caps(args, 10, b.cpus@, b.memory@);
    assert(args.subrange(13, 13 + v.len() as int) =~= v);
    assert(args[13 + v.len() as int] == b.image@);
    lemma_read_volume(args, 13, storage, storage.broker_data@, infra::BROKER_DATA@);
    lemma_does_not_start("-d"@, "--cpus="@, 1);
    lemma_does_not_start("-d"@, "--memory="@, 1);
    lemma_does_not_start("-d"@, "--memory-swap="@, 1);
    assert(settings(args, 1, "--cpus="@) =~= seq![b.cpus@]);
    assert(settings(args, 1, "--memory="@) =~= seq![b.memory@]);
    assert(settings(args, 1, "--memory-swap="@) =~= seq![b.memory@]);
    assert(handed(args, 1, "--name"@) =~= seq![infra::BROKER@]);
    assert(handed(args, 1, "--network"@) =~= seq![network]);
    assert(handed(args, 1, "-p"@) =~= seq!["9092:9092"@, "18081:8081"@]);
    assert(handed(args, 1, "-v"@) =~= data_volumes(
        storage,
        storage.broker_data@,
        infra::BROKER_DATA@,
    ));
}

/// ClickHouse is started under its declared caps, with swap capped as memory is,
/// on its network, with its two ports open and its data path mounted.
pub proof fn clickhouse_is_started_as_declared(
    c: environment::ClickHouse,
    storage: Storage,
    network: Seq<char>,
)
    requires
        c.image@.len() > 0,
        c.image@[0] != '-',
    ensures
        ({
            let args = infra::clickhouse_args(c, storage, network);
            let at = image_at(args, 1);
            &&& is_capped(
                args,
                infra::CLICKHOUSE@,
                network,
                c.cpus@,
                c.memory@,
                data_volumes(storage, storage.clickhouse_data@, infra::CLICKHOUSE_DATA@),
            )
            &&& handed(args, 1, "-p"@) == seq!["18123:8123"@, "19000:9000"@]
            &&& handed(args, 1, "-e"@) == seq!["CLICKHOUSE_PASSWORD=bench"@]
            &&& handed(args, 1, "--ulimit"@) == seq!["nofile=262144:262144"@]
            &&& args[at] == c.image@ && args.len() == at + 1
        }),
{
    let args = infra::clickhouse_args(c, storage, network);
    let v = infra::volume_args(storage, storage.clickhouse_data@, infra::CLICKHOUSE_DATA@);
    lemma_words();
    lemma_plain(args, 1);
    lemma_valued(args, 2);
    lemma_valued(args, 4);
    lemma_valued(args, 6);
    lemma_valued(args, 8);
    lemma_valued(args, 10);
    lemma_valued(args, 12);
    lemma_read_caps(args, 14, c.cpus@, c.memory@);
    assert(args.subrange(17, 17 + v.len() as int) =~= v);
    assert(args[17 + v.len() as int] == c.image@);
    lemma_read_volume(args, 17, storage, storage.clickhouse_data@, infra::CLICKHOUSE_DATA@);
    lemma_does_not_start("-d"@, "--cpus="@, 1);
    lemma_does_not_start("-d"@, "--memory="@, 1);
    lemma_does_not_start("-d"@, "--memory-swap="@, 1);
    assert(settings(args, 1, "--cpus="@) =~= seq![c.cpus@]);
    assert(settings(args, 1, "--memory="@) =~= seq![c.memory@]);
    assert(settings(args, 1, "--memory-swap="@) =~= seq![c.memory@]);
    assert(handed(args, 1, "--name"@) =~= seq![infra::CLICKHOUSE@]);
    assert(handed(args, 1, "--network"@) =~= seq![network]);
    assert(handed(args, 1, "-p"@) =~= seq!["18123:8123"@, "19000:9000"@]);
    assert(handed(args, 1, "-e"@) =~= seq!["CLICKHOUSE_PASSWORD=bench"@]);
    assert(handed(args, 1, "--ulimit"@) =~= seq!["nofile=262144:262144"@]);
    assert(handed(args, 1, "-v"@) =~= data_volumes(
        storage,
        storage.clickhouse_data@,
        infra::CLICKHOUSE_DATA@,
    ));
}

} // verus!
