//! The partition router and the pool lifecycle decisions.
//!
//! An accepted order is routed to one of P partitions by reducing a random
//! byte modulo P: any uniform choice is acceptable, and the same logical
//! order may land on different partitions on different submissions. Subjects
//! are named `{prefix}:{stage}:{index}`, and all 3·P of them are planned up
//! front so every subscription can be established before ingress starts.

use vstd::prelude::*;

verus! {

/// Relies on `rand::random`: a value drawn from the thread-local generator.
/// Nothing is promised of the draw.
pub assume_specification<T>[ rand::random::<T> ]() -> (r: T)
    where
        rand::distributions::Standard: rand::distributions::Distribution<T>,
;

/// Picks the partition an order is dispatched to: a uniformly random index
/// below `p`. Nothing ties an order to a partition beyond this one draw.
pub fn route(p: usize) -> (r: usize)
    requires
        1 <= p,
    ensures
        r < p,
{
    let x: u8 = rand::random();
    (x as usize) % p
}

/// Relies on `num_cpus::get`: the host's logical-processor count, which is
/// documented to always be at least one.
#[verifier::external_body]
fn logical_processors() -> (r: usize)
    ensures
        r >= 1,
{
    num_cpus::get()
}

/// The partition count: the configured value when one is set and positive,
/// else the logical-processor count.
pub open spec fn spec_choose_partitions(cfg: Option<usize>, cpus: usize) -> usize {
    match cfg {
        Some(c) => if c >= 1 {
            c
        } else {
            cpus
        },
        None => cpus,
    }
}

/// Decides P for the life of the process: the configured count when one is
/// set and positive, else the host's logical-processor count. P is immutable
/// once decided; changing it requires a restart.
pub fn decide_partitions(cfg: Option<usize>) -> (r: usize)
    ensures
        r >= 1,
        match cfg {
            Some(c) => c >= 1 ==> r == c,
            None => true,
        },
{
    let cpus = logical_processors();
    choose_partitions(cfg, cpus)
}

/// Decides P for the life of the process from the configured count, falling
/// back to the logical-processor count.
pub fn choose_partitions(cfg: Option<usize>, cpus: usize) -> (r: usize)
    requires
        cpus >= 1,
    ensures
        r == spec_choose_partitions(cfg, cpus),
        r >= 1,
{
    match cfg {
        Some(c) => if c >= 1 {
            c
        } else {
            cpus
        },
        None => cpus,
    }
}

/// The three stages a partition owns a subject for.
#[derive(Debug, Clone, Copy, PartialEq, Eq, Structural)]
pub enum Stage {
    Enrichment,
    Persist,
    Query,
}

/// The name of a stage as it appears inside a subject.
pub open spec fn spec_stage_chars(stage: Stage) -> Seq<char> {
    match stage {
        Stage::Enrichment => ("enrichment")@,
        Stage::Persist => ("persist")@,
        Stage::Query => ("query")@,
    }
}

pub open spec fn spec_digit_char(d: int) -> char {
    if d == 0 {
        '0'
    } else if d == 1 {
        '1'
    } else if d == 2 {
        '2'
    } else if d == 3 {
        '3'
    } else if d == 4 {
        '4'
    } else if d == 5 {
        '5'
    } else if d == 6 {
        '6'
    } else if d == 7 {
        '7'
    } else if d == 8 {
        '8'
    } else {
        '9'
    }
}

/// Decimal digits of a non-negative number, as characters.
pub open spec fn spec_dec_chars(n: int) -> Seq<char>
    decreases n when n >= 0
{
    if n < 10 {
        seq![spec_digit_char(n)]
    } else {
        spec_dec_chars(n / 10) + seq![spec_digit_char(n % 10)]
    }
}

fn digit_str(d: usize) -> (r: &'static str)
    requires
        d < 10,
    ensures
        r@ == seq![spec_digit_char(d as int)],
{
    proof {
        reveal_strlit("0");
        reveal_strlit("1");
        reveal_strlit("2");
        reveal_strlit("3");
        reveal_strlit("4");
        reveal_strlit("5");
        reveal_strlit("6");
        reveal_strlit("7");
        reveal_strlit("8");
        reveal_strlit("9");
    }
    match d {
        0 => "0",
        1 => "1",
        2 => "2",
        3 => "3",
        4 => "4",
        5 => "5",
        6 => "6",
        7 => "7",
        8 => "8",
        _ => "9",
    }
}

fn append_decimal(out: &mut String, n: usize)
    ensures
        final(out)@ == old(out)@ + spec_dec_chars(n as int),
    decreases n,
{
    if n < 10 {
        out.append(digit_str(n));
        proof {
            assert(out@ =~= old(out)@ + spec_dec_chars(n as int));
        }
    } else {
        append_decimal(out, n / 10);
        out.append(digit_str(n % 10));
        proof {
            assert(out@ =~= old(out)@ + spec_dec_chars(n as int));
        }
    }
}

/// The subject a stage of one partition listens on:
/// `{prefix}:{stage}:{index}`.
pub open spec fn spec_subject(prefix: Seq<char>, stage: Stage, i: int) -> Seq<char> {
    prefix + (":")@ + spec_stage_chars(stage) + (":")@ + spec_dec_chars(i)
}

/// Renders the subject of one stage of one partition.
pub fn subject_for(prefix: &str, stage: Stage, index: usize) -> (r: String)
    ensures
        r@ == spec_subject(prefix@, stage, index as int),
{
    let mut s = prefix.to_owned();
    s.append(":");
    match stage {
        Stage::Enrichment => s.append("enrichment"),
        Stage::Persist => s.append("persist"),
        Stage::Query => s.append("query"),
    }
    s.append(":");
    append_decimal(&mut s, index);
    proof {
        assert(s@ =~= spec_subject(prefix@, stage, index as int));
    }
    s
}

/// All 3·P subjects that must be subscribed before ingress starts accepting
/// traffic: for each partition its enrichment, persist and query subject, in
/// that order.
pub fn startup_subjects(prefix: &str, p: usize) -> (r: Vec<String>)
    requires
        p <= 100_000_000,
    ensures
        r@.len() == 3 * p,
        forall|i: int|
            0 <= i < p ==> (#[trigger] r@[3 * i])@ == spec_subject(prefix@, Stage::Enrichment, i),
        forall|i: int|
            0 <= i < p ==> (#[trigger] r@[3 * i + 1])@ == spec_subject(prefix@, Stage::Persist, i),
        forall|i: int|
            0 <= i < p ==> (#[trigger] r@[3 * i + 2])@ == spec_subject(prefix@, Stage::Query, i),
{
    let mut out: Vec<String> = Vec::new();
    let mut i: usize = 0;
    while i < p
        invariant
            i <= p,
            p <= 100_000_000,
            out@.len() == 3 * i,
            forall|k: int|
                0 <= k < i ==> (#[trigger] out@[3 * k])@ == spec_subject(
                    prefix@,
                    Stage::Enrichment,
                    k,
                ),
            forall|k: int|
                0 <= k < i ==> (#[trigger] out@[3 * k + 1])@ == spec_subject(
                    prefix@,
                    Stage::Persist,
                    k,
                ),
            forall|k: int|
                0 <= k < i ==> (#[trigger] out@[3 * k + 2])@ == spec_subject(
                    prefix@,
                    Stage::Query,
                    k,
                ),
        decreases p - i,
    {
        let ghost before = out@;
        out.push(subject_for(prefix, Stage::Enrichment, i));
        out.push(subject_for(prefix, Stage::Persist, i));
        out.push(subject_for(prefix, Stage::Query, i));
        proof {
            assert(out@.len() == 3 * (i + 1));
            assert forall|k: int|
                0 <= k < i + 1 implies (#[trigger] out@[3 * k])@ == spec_subject(
                prefix@,
                Stage::Enrichment,
                k,
            ) by {
                if k < i {
                    assert(out@[3 * k] == before[3 * k]);
                } else {
                    assert(3 * k == before.len());
                }
            }
            assert forall|k: int|
                0 <= k < i + 1 implies (#[trigger] out@[3 * k + 1])@ == spec_subject(
                prefix@,
                Stage::Persist,
                k,
            ) by {
                if k < i {
                    assert(out@[3 * k + 1] == before[3 * k + 1]);
                } else {
                    assert(3 * k + 1 == before.len() + 1);
                }
            }
            assert forall|k: int|
                0 <= k < i + 1 implies (#[trigger] out@[3 * k + 2])@ == spec_subject(
                prefix@,
                Stage::Query,
                k,
            ) by {
                if k < i {
                    assert(out@[3 * k + 2] == before[3 * k + 2]);
                } else {
                    assert(3 * k + 2 == before.len() + 2);
                }
            }
        }
        i += 1;
    }
    out
}

} // verus!
