//! Which requests are made, and how progress is told.
use crate::extension::Overlay;
use crate::pmmr::{leaf_at, leaf_count};
use crate::program::{Call, Reply};
use crate::rangeproofs::{
    rangeproofs_check, rangeproofs_from, rangeproofs_next, rangeproofs_program, rangeproofs_read,
};
use crate::script::{script_program, Fault};
use crate::signatures::{signatures_check, signatures_from, signatures_next, signatures_program};
use crate::types::{Commitment, Error, Hash256, Sizes};
use crate::world::{keeps, lemma_keeps_less, World};
use vstd::prelude::*;

verus! {

/// Every request is logged.
proof fn lemma_logged(world: World, call: Call, reply: Reply, after: World)
    requires
        world.allows(call, reply, after),
    ensures
        after.log == world.log.push(call),
{
}

// ---- requests in a row

/// Requests that are made in a row are made in order, none is left out before the
/// last one made, and where all went well, all were made.
pub proof fn law_scripts_make_every_request(calls: Seq<Call>, fault: Fault, world: World)
    ensures
        keeps(
            script_program(calls, fault),
            world,
            |verdict: Result<(), Error>, after: World|
                {
                    let made = after.log.len() - world.log.len();
                    &&& 0 <= made <= calls.len()
                    &&& after.log == world.log + calls.take(made)
                    &&& verdict is Ok ==> made == calls.len()
                },
        ),
    decreases calls.len(),
{
    let post = |verdict: Result<(), Error>, after: World|
        {
            let made = after.log.len() - world.log.len();
            &&& 0 <= made <= calls.len()
            &&& after.log == world.log + calls.take(made)
            &&& verdict is Ok ==> made == calls.len()
        };
    if calls.len() == 0 {
        assert(world.log =~= world.log + calls.take(0));
    } else {
        let program = script_program(calls, fault);
        let later = calls.drop_first();
        assert forall|reply: Reply, after: World| #[trigger]
            world.allows(program->Ask_0, reply, after) && program->Ask_1.met_by(
                reply,
            ) implies keeps((program->Ask_2)(reply), after, post) by {
            lemma_logged(world, calls[0], reply, after);
            assert(after.log =~= world.log + calls.take(1));
            if fault.judge(reply) is Ok {
                let more = |verdict: Result<(), Error>, last: World|
                    {
                        let made = last.log.len() - after.log.len();
                        &&& 0 <= made <= later.len()
                        &&& last.log == after.log + later.take(made)
                        &&& verdict is Ok ==> made == later.len()
                    };
                law_scripts_make_every_request(later, fault, after);
                assert forall|verdict: Result<(), Error>, last: World| #[trigger]
                    more(verdict, last) implies post(verdict, last) by {
                    let made = last.log.len() - after.log.len();
                    assert(last.log =~= world.log + calls.take(made + 1));
                }
                lemma_keeps_less(script_program(later, fault), after, more, post);
            }
        }
    }
}

// ---- progress

/// How many requests of a sort there are.
pub open spec fn count_of(log: Seq<Call>, sort: spec_fn(Call) -> bool) -> nat
    decreases log.len(),
{
    if log.len() == 0 {
        0
    } else {
        count_of(log.drop_last(), sort) + if sort(log.last()) {
            1nat
        } else {
            0nat
        }
    }
}

/// Requests to report.
pub open spec fn reports() -> spec_fn(Call) -> bool {
    |call: Call| call is Report
}

/// Requests to verify a signature.
pub open spec fn verifies_kernel() -> spec_fn(Call) -> bool {
    |call: Call| call is VerifyKernel
}

/// Requests to verify a range proof.
pub open spec fn verifies_proof() -> spec_fn(Call) -> bool {
    |call: Call| call is VerifyProof
}

/// Every report since `start` tells how many requests of a sort were made before
/// it.
pub open spec fn reports_tell(
    log: Seq<Call>,
    start: nat,
    sort: spec_fn(Call) -> bool,
    report: spec_fn(nat) -> Call,
) -> bool {
    forall|i: int|
        start <= i < log.len() && (#[trigger] log[i]) is Report ==> log[i] == report(
            count_of(log.subrange(start as int, i), sort),
        )
}

/// Where a verification is: what was reported is true, and there was one report
/// for every twenty positions.
spec fn on_track(
    log: Seq<Call>,
    start: nat,
    sort: spec_fn(Call) -> bool,
    report: spec_fn(nat) -> Call,
    count: nat,
    positions: nat,
) -> bool {
    let since = log.subrange(start as int, log.len() as int);
    &&& start <= log.len()
    &&& reports_tell(log, start, sort, report)
    &&& count_of(since, sort) == count
    &&& count_of(since, reports()) == positions / 20
}

/// One request more.
proof fn lemma_track(
    log: Seq<Call>,
    start: nat,
    sort: spec_fn(Call) -> bool,
    report: spec_fn(nat) -> Call,
    call: Call,
)
    requires
        start <= log.len(),
        reports_tell(log, start, sort, report),
        call is Report ==> call == report(
            count_of(log.subrange(start as int, log.len() as int), sort),
        ),
    ensures
        reports_tell(log.push(call), start, sort, report),
        forall|any: spec_fn(Call) -> bool| #[trigger]
            count_of(
                log.push(call).subrange(start as int, log.push(call).len() as int),
                any,
            ) == count_of(log.subrange(start as int, log.len() as int), any) + if any(call) {
                1nat
            } else {
                0nat
            },
{
    let after = log.push(call);
    let since = log.subrange(start as int, log.len() as int);
    assert(after.subrange(start as int, after.len() as int) =~= since.push(call));
    assert(since.push(call).drop_last() =~= since);
    assert forall|i: int|
        start <= i < after.len() && (#[trigger] after[i]) is Report implies after[i] == report(
        count_of(after.subrange(start as int, i), sort),
    ) by {
        assert(after.subrange(start as int, i) =~= log.subrange(start as int, i));
        if i < log.len() {
            assert(after[i] == log[i]);
        }
    }
}

/// The reports of a verification: each tells how many were verified so far, and
/// if all went well there was one for every twenty positions.
pub open spec fn progress_told(
    first: World,
    sort: spec_fn(Call) -> bool,
    report: spec_fn(nat) -> Call,
    size: nat,
) -> spec_fn(Result<(), Error>, World) -> bool {
    |verdict: Result<(), Error>, after: World|
        {
            let start = first.log.len();
            &&& start <= after.log.len()
            &&& reports_tell(after.log, start, sort, report)
            &&& verdict is Ok ==> count_of(
                after.log.subrange(start as int, after.log.len() as int),
                reports(),
            ) == size / 20
        }
}

/// A report on signatures: how many were verified, and how many there are.
pub open spec fn kernels_report(total: nat) -> spec_fn(nat) -> Call {
    |count: nat| Call::Report(count as u64, total as u64, 0, 0)
}

/// A report on range proofs.
pub open spec fn proofs_report(total: nat) -> spec_fn(nat) -> Call {
    |count: nat| Call::Report(0, 0, count as u64, total as u64)
}

proof fn lemma_signatures_told(first: World, world: World, n: nat, size: u64, count: nat)
    requires
        n >= 1,
        n <= size + 1,
        on_track(
            world.log,
            first.log.len(),
            verifies_kernel(),
            kernels_report(leaf_count(size as nat)),
            count,
            (n - 1) as nat,
        ),
    ensures
        keeps(
            signatures_from(n, size, count),
            world,
            progress_told(
                first,
                verifies_kernel(),
                kernels_report(leaf_count(size as nat)),
                size as nat,
            ),
        ),
    decreases size + 1 - n, 1nat,
{
    let sort = verifies_kernel();
    let report = kernels_report(leaf_count(size as nat));
    let start = first.log.len();
    let post = progress_told(first, sort, report, size as nat);
    if n <= size {
        if leaf_at(n) {
            let program = signatures_from(n, size, count);
            assert forall|reply: Reply, after: World| #[trigger]
                world.allows(program->Ask_0, reply, after) && program->Ask_1.met_by(
                    reply,
                ) implies keeps((program->Ask_2)(reply), after, post) by {
                lemma_logged(world, program->Ask_0, reply, after);
                lemma_track(world.log, start, sort, report, program->Ask_0);
                match reply->MaybeKernel_0 {
                    Some(kernel) => {
                        let next = signatures_check(n, size, count, kernel);
                        assert forall|reply: Reply, last: World| #[trigger]
                            after.allows(next->Ask_0, reply, last) && next->Ask_1.met_by(
                                reply,
                            ) implies keeps((next->Ask_2)(reply), last, post) by {
                            lemma_logged(after, next->Ask_0, reply, last);
                            lemma_track(after.log, start, sort, report, next->Ask_0);
                            if reply->Done_0 is Ok {
                                lemma_signatures_next_told(first, last, n, size, count + 1);
                            }
                        }
                    },
                    None => lemma_signatures_next_told(first, after, n, size, count),
                }
            }
        } else {
            lemma_signatures_next_told(first, world, n, size, count);
        }
    }
}

proof fn lemma_signatures_next_told(first: World, world: World, n: nat, size: u64, count: nat)
    requires
        1 <= n <= size,
        on_track(
            world.log,
            first.log.len(),
            verifies_kernel(),
            kernels_report(leaf_count(size as nat)),
            count,
            (n - 1) as nat,
        ),
    ensures
        keeps(
            signatures_next(n, size, count),
            world,
            progress_told(
                first,
                verifies_kernel(),
                kernels_report(leaf_count(size as nat)),
                size as nat,
            ),
        ),
    decreases size + 1 - n, 0nat,
{
    let sort = verifies_kernel();
    let report = kernels_report(leaf_count(size as nat));
    let start = first.log.len();
    let post = progress_told(first, sort, report, size as nat);
    if n % 20 == 0 {
        let program = signatures_next(n, size, count);
        assert forall|reply: Reply, after: World| #[trigger]
            world.allows(program->Ask_0, reply, after) && program->Ask_1.met_by(
                reply,
            ) implies keeps((program->Ask_2)(reply), after, post) by {
            lemma_logged(world, program->Ask_0, reply, after);
            lemma_track(world.log, start, sort, report, program->Ask_0);
            lemma_signatures_told(first, after, n + 1, size, count);
        }
    } else {
        lemma_signatures_told(first, world, n + 1, size, count);
    }
}

/// While signatures are verified, every report tells how many were verified so
/// far and how many kernels there are, and there is one for every twenty
/// positions.
pub proof fn law_signature_progress_is_told(world: World)
    ensures
        keeps(
            signatures_program(),
            world,
            progress_told(
                world,
                verifies_kernel(),
                kernels_report(leaf_count(world.trees.kernel.size as nat)),
                world.trees.kernel.size as nat,
            ),
        ),
{
    let size = world.trees.kernel.size;
    let sort = verifies_kernel();
    let report = kernels_report(leaf_count(size as nat));
    let post = progress_told(world, sort, report, size as nat);
    let program = signatures_program();
    assert forall|reply: Reply, after: World| #[trigger]
        world.allows(program->Ask_0, reply, after) && program->Ask_1.met_by(reply) implies keeps(
        (program->Ask_2)(reply),
        after,
        post,
    ) by {
        lemma_logged(world, program->Ask_0, reply, after);
        lemma_track(world.log, world.log.len(), sort, report, program->Ask_0);
        lemma_signatures_told(world, after, 1, size, 0);
    }
}

proof fn lemma_proofs_told(first: World, world: World, n: nat, size: u64, count: nat)
    requires
        n >= 1,
        n <= size + 1,
        on_track(
            world.log,
            first.log.len(),
            verifies_proof(),
            proofs_report(leaf_count(size as nat)),
            count,
            (n - 1) as nat,
        ),
    ensures
        keeps(
            rangeproofs_from(n, size, count),
            world,
            progress_told(
                first,
                verifies_proof(),
                proofs_report(leaf_count(size as nat)),
                size as nat,
            ),
        ),
    decreases size + 1 - n, 1nat,
{
    let sort = verifies_proof();
    let report = proofs_report(leaf_count(size as nat));
    let start = first.log.len();
    let post = progress_told(first, sort, report, size as nat);
    if n <= size {
        if leaf_at(n) {
            let program = rangeproofs_from(n, size, count);
            assert forall|reply: Reply, one: World| #[trigger]
                world.allows(program->Ask_0, reply, one) && program->Ask_1.met_by(
                    reply,
                ) implies keeps((program->Ask_2)(reply), one, post) by {
                lemma_logged(world, program->Ask_0, reply, one);
                lemma_track(world.log, start, sort, report, program->Ask_0);
                match reply->MaybeOutput_0 {
                    Some(id) => {
                        let reading = rangeproofs_read(n, size, count, id);
                        assert forall|reply: Reply, two: World| #[trigger]
                            one.allows(reading->Ask_0, reply, two) && reading->Ask_1.met_by(
                                reply,
                            ) implies keeps((reading->Ask_2)(reply), two, post) by {
                            lemma_logged(one, reading->Ask_0, reply, two);
                            lemma_track(one.log, start, sort, report, reading->Ask_0);
                            if let Some(proof_) = reply->MaybeProof_0 {
                                let next = rangeproofs_check(n, size, count, id, proof_);
                                assert forall|reply: Reply, last: World| #[trigger]
                                    two.allows(next->Ask_0, reply, last) && next->Ask_1.met_by(
                                        reply,
                                    ) implies keeps((next->Ask_2)(reply), last, post) by {
                                    lemma_logged(two, next->Ask_0, reply, last);
                                    lemma_track(two.log, start, sort, report, next->Ask_0);
                                    if reply->Done_0 is Ok {
                                        lemma_proofs_next_told(first, last, n, size, count + 1);
                                    }
                                }
                            }
                        }
                    },
                    None => lemma_proofs_next_told(first, one, n, size, count),
                }
            }
        } else {
            lemma_proofs_next_told(first, world, n, size, count);
        }
    }
}

proof fn lemma_proofs_next_told(first: World, world: World, n: nat, size: u64, count: nat)
    requires
        1 <= n <= size,
        on_track(
            world.log,
            first.log.len(),
            verifies_proof(),
            proofs_report(leaf_count(size as nat)),
            count,
            (n - 1) as nat,
        ),
    ensures
        keeps(
            rangeproofs_next(n, size, count),
            world,
            progress_told(
                first,
                verifies_proof(),
                proofs_report(leaf_count(size as nat)),
                size as nat,
            ),
        ),
    decreases size + 1 - n, 0nat,
{
    let sort = verifies_proof();
    let report = proofs_report(leaf_count(size as nat));
    let start = first.log.len();
    let post = progress_told(first, sort, report, size as nat);
    if n % 20 == 0 {
        let program = rangeproofs_next(n, size, count);
        assert forall|reply: Reply, after: World| #[trigger]
            world.allows(program->Ask_0, reply, after) && program->Ask_1.met_by(
                reply,
            ) implies keeps((program->Ask_2)(reply), after, post) by {
            lemma_logged(world, program->Ask_0, reply, after);
            lemma_track(world.log, start, sort, report, program->Ask_0);
            lemma_proofs_told(first, after, n + 1, size, count);
        }
    } else {
        lemma_proofs_told(first, world, n + 1, size, count);
    }
}

/// While range proofs are verified, every report tells how many were verified so
/// far and how many leaves the output tree has, and there is one for every twenty
/// positions.
pub proof fn law_proof_progress_is_told(world: World)
    ensures
        keeps(
            rangeproofs_program(),
            world,
            progress_told(
                world,
                verifies_proof(),
                proofs_report(leaf_count(world.trees.output.size as nat)),
                world.trees.output.size as nat,
            ),
        ),
{
    let size = world.trees.output.size;
    let sort = verifies_proof();
    let report = proofs_report(leaf_count(size as nat));
    let post = progress_told(world, sort, report, size as nat);
    let program = rangeproofs_program();
    assert forall|reply: Reply, after: World| #[trigger]
        world.allows(program->Ask_0, reply, after) && program->Ask_1.met_by(reply) implies keeps(
        (program->Ask_2)(reply),
        after,
        post,
    ) by {
        lemma_logged(world, program->Ask_0, reply, after);
        lemma_track(world.log, world.log.len(), sort, report, program->Ask_0);
        lemma_proofs_told(world, after, 1, size, 0);
    }
}

// ---- units of work

/// A unit of work begins without anything of its own, and unless it is told to, it
/// will not be discarded.
pub proof fn law_work_begins_with_nothing(base: Sizes)
    ensures
        forall|commit: Commitment| !#[trigger] Overlay::fresh(base).commits.contains_key(commit),
        forall|block: Hash256| !#[trigger] Overlay::fresh(base).markers.contains_key(block),
        !Overlay::fresh(base).rollback,
        Overlay::fresh(base).base == base,
{
}

} // verus!
