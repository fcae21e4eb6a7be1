//! Promises about some of the courses that a dialogue may take, and what becomes
//! of replies that tell of a failure.
//!
//! [`keeps_when`] is [`crate::world::keeps`] for the courses in which every reply
//! is of a given sort, for instance those in which nothing fails, or those in
//! which it is settled which range proofs verify. [`heeds`] says, of every course
//! of replies, that a dialogue ends at the first reply that tells of a failure,
//! and what it may end with otherwise.
use crate::bitmap::bitmap_values;
use crate::program::{bind, Call, Program, Reply, Trail};
use crate::types::{
    BlindingFactor, BlockHeader, Commitment, Error, Hash256, Input, MerkleProof, Message,
    OutputIdentifier, RangeProof, StoreError, Tree, TxKernel,
};
use crate::world::{
    keeps, leads, lemma_leads_step, lemma_same_but_log, may_find, path_spent, same_but_log,
    TreeState, World,
};
use vstd::prelude::*;

verus! {

// ---- failures

/// The failure that a reply tells of. A failure of the chain store is one in
/// every reply but that to a look into the index, which may miss.
pub open spec fn failure(call: Call, reply: Reply) -> Option<Error> {
    match reply {
        Reply::Marker(Err(e)) => Some(Error::Store(e)),
        Reply::Header(Err(e)) => Some(Error::Store(e)),
        Reply::Bitmap(Err(e)) => Some(Error::Store(e)),
        Reply::Stored(Err(e)) => Some(Error::Store(e)),
        Reply::Pushed(Err(text)) => Some(Error::TxHashSetErr(Message::Text(text))),
        Reply::Pruned(Err(text)) => Some(Error::TxHashSetErr(Message::Text(text))),
        Reply::Proof(Err(text)) => Some(Error::TxHashSetErr(Message::Text(text))),
        Reply::Sums(Err(text)) => Some(Error::Rejected(text)),
        Reply::Opened(Err(text)) => Some(Error::Io(text)),
        Reply::Done(Err(text)) => match call {
            Call::Rewind(..) => Some(Error::TxHashSetErr(Message::Text(text))),
            Call::Validate(_) => Some(Error::InvalidTxHashSet(text)),
            Call::VerifyMaturity(..) => Some(Error::Rejected(text)),
            Call::VerifyKernel(_) => Some(Error::Rejected(text)),
            Call::VerifyProof(..) => Some(Error::Rejected(text)),
            Call::Sync(_) => Some(Error::Io(text)),
            Call::CreateDir(_) => Some(Error::Io(text)),
            Call::CheckCompact(..) => Some(Error::Io(text)),
            _ => Some(Error::Other(text)),
        },
        _ => None,
    }
}

/// The failures that matter to an operation.
pub type Blame = spec_fn(Call, Reply) -> Option<Error>;

/// Those that a reply tells of.
pub open spec fn failures() -> Blame {
    |call: Call, reply: Reply| failure(call, reply)
}

/// Those, and a miss of the index.
pub open spec fn failures_and_misses() -> Blame {
    |call: Call, reply: Reply|
        match reply {
            Reply::Pos(Err(e)) => Some(Error::Store(e)),
            _ => failure(call, reply),
        }
}

/// Those, a miss of the index, and an output that the output tree has no hash
/// for.
pub open spec fn failures_and_absent_outputs() -> Blame {
    |call: Call, reply: Reply|
        match reply {
            Reply::Pos(Err(e)) => Some(Error::Store(e)),
            Reply::MaybeHash(None) => Some(Error::OutputNotFound),
            _ => failure(call, reply),
        }
}

/// Those, and an output without a range proof.
pub open spec fn failures_and_absent_proofs() -> Blame {
    |call: Call, reply: Reply|
        match reply {
            Reply::MaybeProof(None) => Some(Error::OutputNotFound),
            _ => failure(call, reply),
        }
}

/// Whether a dialogue heeds failures, whatever the replies are: at the first
/// reply that tells of one it ends, as `ended` says, and without one it ends only
/// as `own` says.
pub open spec fn heeds<T>(
    program: Program<T>,
    blame: Blame,
    ended: spec_fn(Error, T) -> bool,
    own: spec_fn(T) -> bool,
) -> bool
    decreases program,
{
    match program {
        Program::Ret(result) => own(result),
        Program::Ask(call, need, rest) => forall|reply: Reply|
            #![trigger rest(reply)]
            reply.kind() == call.kind() && need.met_by(reply) ==> match blame(call, reply) {
                Some(e) => rest(reply) is Ret && ended(e, rest(reply)->Ret_0),
                None => heeds(rest(reply), blame, ended, own),
            },
        Program::Walk(trail, rest) => forall|found: Result<Set<u32>, Error>|
            #![trigger rest(found)]
            match found {
                Err(e) => rest(found) is Ret && ended(e, rest(found)->Ret_0),
                Ok(_) => heeds(rest(found), blame, ended, own),
            },
    }
}

/// Heeding failures carries over from one request to the next: a reply that
/// tells of a failure ends the dialogue, and after any other reply the dialogue
/// goes on to heed them. On a walk along the chain every failure of the chain
/// store is one.
pub proof fn law_failures_are_heeded<T>(
    program: Program<T>,
    blame: Blame,
    ended: spec_fn(Error, T) -> bool,
    own: spec_fn(T) -> bool,
    reply: Reply,
)
    requires
        heeds(program, blame, ended, own),
        program.admits(reply),
    ensures
        ({
            let next = program.next(reply);
            let told = if program is Walk {
                failure(program.call(), reply)
            } else {
                blame(program.call(), reply)
            };
            match told {
                Some(e) => next is Ret && ended(e, next->Ret_0),
                None => heeds(next, blame, ended, own),
            }
        }),
{
    if let Program::Walk(trail, rest) = program {
        if trail.previous is None {
            match reply->Header_0 {
                Ok(header) => {},
                Err(e) => {
                    assert(rest(Err(Error::Store(e))) is Ret);
                },
            }
        } else {
            match reply->Bitmap_0 {
                Ok(bitmap) => {
                    let spent = trail.spent.union(bitmap_values(bitmap));
                    let next = program.next(reply);
                    if trail.previous->0 == trail.target {
                        assert(next == rest(Ok(spent)));
                    } else {
                        assert(heeds(next, blame, ended, own));
                    }
                },
                Err(e) => {
                    assert(rest(Err(Error::Store(e))) is Ret);
                },
            }
        }
    } else if let Program::Ask(call, need, rest) = program {
        assert(program.next(reply) == rest(reply));
    }
}

/// A dialogue that heeds failures, and the ones that follow it.
pub proof fn lemma_heeds_bind<A, B>(
    first: Program<A>,
    rest: spec_fn(A) -> Program<B>,
    blame: Blame,
    ended: spec_fn(Error, A) -> bool,
    own: spec_fn(A) -> bool,
    all_ended: spec_fn(Error, B) -> bool,
    all_own: spec_fn(B) -> bool,
)
    requires
        heeds(first, blame, ended, own),
        forall|e: Error, a: A| #[trigger]
            ended(e, a) ==> rest(a) is Ret && all_ended(e, rest(a)->Ret_0),
        forall|a: A| #[trigger] own(a) ==> heeds(rest(a), blame, all_ended, all_own),
    ensures
        heeds(bind(first, rest), blame, all_ended, all_own),
    decreases first,
{
    let whole = bind(first, rest);
    match first {
        Program::Ret(_) => {},
        Program::Ask(call, need, later) => {
            let next = whole->Ask_2;
            assert forall|reply: Reply|
                #![trigger next(reply)]
                reply.kind() == call.kind() && need.met_by(reply) implies (match blame(
                call,
                reply,
            ) {
                Some(e) => next(reply) is Ret && all_ended(e, next(reply)->Ret_0),
                None => heeds(next(reply), blame, all_ended, all_own),
            }) by {
                let part = later(reply);
                assert(next(reply) == bind(part, rest));
                match blame(call, reply) {
                    Some(e) => {
                        assert(ended(e, part->Ret_0));
                        assert(bind(part, rest) == rest(part->Ret_0));
                    },
                    None => lemma_heeds_bind(part, rest, blame, ended, own, all_ended, all_own),
                }
            }
        },
        Program::Walk(trail, later) => {
            let next = whole->Walk_1;
            assert forall|found: Result<Set<u32>, Error>|
                #![trigger next(found)]
                match found {
                    Err(e) => next(found) is Ret && all_ended(e, next(found)->Ret_0),
                    Ok(_) => heeds(next(found), blame, all_ended, all_own),
                } by {
                let part = later(found);
                assert(next(found) == bind(part, rest));
                match found {
                    Err(e) => {
                        assert(ended(e, part->Ret_0));
                        assert(bind(part, rest) == rest(part->Ret_0));
                    },
                    Ok(_) => lemma_heeds_bind(part, rest, blame, ended, own, all_ended, all_own),
                }
            }
        },
    }
}

/// A dialogue that heeds failures, with less said of how it ends.
pub proof fn lemma_heeds_less<T>(
    program: Program<T>,
    blame: Blame,
    ended: spec_fn(Error, T) -> bool,
    own: spec_fn(T) -> bool,
    less_ended: spec_fn(Error, T) -> bool,
    less_own: spec_fn(T) -> bool,
)
    requires
        heeds(program, blame, ended, own),
        forall|e: Error, t: T| #[trigger] ended(e, t) ==> less_ended(e, t),
        forall|t: T| #[trigger] own(t) ==> less_own(t),
    ensures
        heeds(program, blame, less_ended, less_own),
    decreases program,
{
    match program {
        Program::Ret(_) => {},
        Program::Ask(call, need, rest) => {
            assert forall|reply: Reply|
                #![trigger rest(reply)]
                reply.kind() == call.kind() && need.met_by(reply) implies (match blame(
                call,
                reply,
            ) {
                Some(e) => rest(reply) is Ret && less_ended(e, rest(reply)->Ret_0),
                None => heeds(rest(reply), blame, less_ended, less_own),
            }) by {
                if blame(call, reply) is None {
                    lemma_heeds_less(rest(reply), blame, ended, own, less_ended, less_own);
                }
            }
        },
        Program::Walk(trail, rest) => {
            assert forall|found: Result<Set<u32>, Error>|
                #![trigger rest(found)]
                match found {
                    Err(e) => rest(found) is Ret && less_ended(e, rest(found)->Ret_0),
                    Ok(_) => heeds(rest(found), blame, less_ended, less_own),
                } by {
                if found is Ok {
                    lemma_heeds_less(rest(found), blame, ended, own, less_ended, less_own);
                }
            }
        },
    }
}

// ---- courses

/// A sort of courses: which replies a request may get in a world.
pub type Course = spec_fn(World, Call, Reply) -> bool;

/// Whether a walk may end so in such a course: it fails only as some reply does.
pub open spec fn may_end_walk(course: Course, found: Result<Set<u32>, Error>) -> bool {
    match found {
        Ok(_) => true,
        Err(e) => exists|world: World, call: Call, reply: Reply| #[trigger]
            course(world, call, reply) && failure(call, reply) == Some(e),
    }
}

/// Whether a dialogue keeps a promise in all courses of a sort.
pub open spec fn keeps_when<T>(
    program: Program<T>,
    world: World,
    course: Course,
    post: spec_fn(T, World) -> bool,
) -> bool
    decreases program,
{
    match program {
        Program::Ret(result) => post(result, world),
        Program::Ask(call, need, rest) => forall|reply: Reply, after: World| #[trigger]
            world.allows(call, reply, after) && need.met_by(reply) && course(world, call, reply)
                ==> keeps_when(rest(reply), after, course, post),
        Program::Walk(trail, rest) => forall|found: Result<Set<u32>, Error>, after: World|
            #![trigger may_find(world.chain, trail, found), rest(found), same_but_log(world, after)]
            may_find(world.chain, trail, found) && same_but_log(world, after) && may_end_walk(
                course,
                found,
            ) ==> keeps_when(rest(found), after, course, post),
    }
}

/// Keeping a promise in courses of a sort carries over from one request to the
/// next, as long as the replies are of that sort.
pub proof fn law_promises_last_on_course<T>(
    program: Program<T>,
    world: World,
    course: Course,
    post: spec_fn(T, World) -> bool,
    reply: Reply,
    after: World,
)
    requires
        keeps_when(program, world, course, post),
        program.admits(reply),
        world.allows(program.call(), reply, after),
        course(world, program.call(), reply),
    ensures
        keeps_when(program.next(reply), after, course, post),
{
    if let Program::Walk(trail, rest) = program {
        assert(world.log.push(trail.call()).take(world.log.len() as int) =~= world.log);
        assert(same_but_log(world, after));
        if trail.previous is None {
            match reply->Header_0 {
                Ok(header) => {
                    let further = Trail { previous: Some(header.previous), ..trail };
                    assert forall|found: Result<Set<u32>, Error>, last: World|
                        #![trigger may_find(after.chain, further, found), rest(found), same_but_log(after, last)]
                        may_find(after.chain, further, found) && same_but_log(after, last)
                            && may_end_walk(course, found) implies keeps_when(
                        rest(found),
                        last,
                        course,
                        post,
                    ) by {
                        lemma_same_but_log(world, after, last);
                        assert(may_find(world.chain, trail, found));
                    }
                },
                Err(e) => {
                    assert(failure(program.call(), reply) == Some(Error::Store(e)));
                    assert(may_find(world.chain, trail, Err(Error::Store(e))));
                },
            }
        } else {
            match reply->Bitmap_0 {
                Ok(bitmap) => {
                    let previous = trail.previous->0;
                    let spent = trail.spent.union(bitmap_values(bitmap));
                    if previous == trail.target {
                        assert(path_spent(world.chain, previous, trail.target, 0) == Some(
                            Set::<u32>::empty(),
                        ));
                        assert(leads(world.chain, previous, trail.target, Set::empty()));
                        assert(spent =~= spent.union(Set::empty()));
                        assert(may_find(world.chain, trail, Ok(spent)));
                    } else {
                        let further = Trail {
                            current: previous,
                            target: trail.target,
                            spent,
                            previous: None,
                        };
                        assert forall|found: Result<Set<u32>, Error>, last: World|
                            #![trigger may_find(after.chain, further, found), rest(found), same_but_log(after, last)]
                            may_find(after.chain, further, found) && same_but_log(after, last)
                                && may_end_walk(course, found) implies keeps_when(
                            rest(found),
                            last,
                            course,
                            post,
                        ) by {
                            lemma_same_but_log(world, after, last);
                            if let Ok(all) = found {
                                let beyond = choose|beyond: Set<u32>| #[trigger]
                                    leads(
                                        after.chain,
                                        after.chain[previous].previous,
                                        trail.target,
                                        beyond,
                                    ) && all == spent.union(after.chain[previous].spent).union(
                                        beyond,
                                    );
                                lemma_leads_step(after.chain, previous, trail.target, beyond);
                                assert(all =~= spent.union(
                                    after.chain[previous].spent.union(beyond),
                                ));
                            }
                            assert(may_find(world.chain, trail, found));
                        }
                    }
                },
                Err(e) => {
                    assert(failure(program.call(), reply) == Some(Error::Store(e)));
                    assert(may_find(world.chain, trail, Err(Error::Store(e))));
                },
            }
        }
    }
}

/// What is kept in all courses is kept in those of a sort.
pub proof fn lemma_keeps_when<T>(
    program: Program<T>,
    world: World,
    course: Course,
    post: spec_fn(T, World) -> bool,
)
    requires
        keeps(program, world, post),
    ensures
        keeps_when(program, world, course, post),
    decreases program,
{
    match program {
        Program::Ret(_) => {},
        Program::Ask(call, need, later) => {
            assert forall|reply: Reply, after: World| #[trigger]
                world.allows(call, reply, after) && need.met_by(reply) && course(
                    world,
                    call,
                    reply,
                ) implies keeps_when(later(reply), after, course, post) by {
                lemma_keeps_when(later(reply), after, course, post);
            }
        },
        Program::Walk(trail, later) => {
            assert forall|found: Result<Set<u32>, Error>, after: World|
                #![trigger may_find(world.chain, trail, found), later(found), same_but_log(world, after)]
                may_find(world.chain, trail, found) && same_but_log(world, after) && may_end_walk(
                    course,
                    found,
                ) implies keeps_when(later(found), after, course, post) by {
                lemma_keeps_when(later(found), after, course, post);
            }
        },
    }
}

/// What a dialogue promises in courses of a sort, the dialogues that follow it
/// may rely on.
pub proof fn lemma_when_bind<A, B>(
    first: Program<A>,
    rest: spec_fn(A) -> Program<B>,
    world: World,
    course: Course,
    middle: spec_fn(A, World) -> bool,
    post: spec_fn(B, World) -> bool,
)
    requires
        keeps_when(first, world, course, middle),
        forall|a: A, after: World| #[trigger]
            middle(a, after) ==> keeps_when(rest(a), after, course, post),
    ensures
        keeps_when(bind(first, rest), world, course, post),
    decreases first,
{
    match first {
        Program::Ret(_) => {},
        Program::Ask(call, need, later) => {
            assert forall|reply: Reply, after: World| #[trigger]
                world.allows(call, reply, after) && need.met_by(reply) && course(
                    world,
                    call,
                    reply,
                ) implies keeps_when(bind(later(reply), rest), after, course, post) by {
                lemma_when_bind(later(reply), rest, after, course, middle, post);
            }
        },
        Program::Walk(trail, later) => {
            let whole = bind(first, rest)->Walk_1;
            assert forall|found: Result<Set<u32>, Error>, after: World|
                #![trigger may_find(world.chain, trail, found), whole(found), same_but_log(world, after)]
                may_find(world.chain, trail, found) && same_but_log(world, after) && may_end_walk(
                    course,
                    found,
                ) implies keeps_when(whole(found), after, course, post) by {
                assert(keeps_when(later(found), after, course, middle));
                lemma_when_bind(later(found), rest, after, course, middle, post);
            }
        },
    }
}

/// Two promises may be joined, and weakened.
pub proof fn lemma_when_both<T>(
    program: Program<T>,
    world: World,
    course: Course,
    one: spec_fn(T, World) -> bool,
    other: spec_fn(T, World) -> bool,
    both: spec_fn(T, World) -> bool,
)
    requires
        keeps_when(program, world, course, one),
        keeps_when(program, world, course, other),
        forall|t: T, after: World| #[trigger] both(t, after) <== one(t, after) && other(t, after),
    ensures
        keeps_when(program, world, course, both),
    decreases program,
{
    match program {
        Program::Ret(_) => {},
        Program::Ask(call, need, later) => {
            assert forall|reply: Reply, after: World| #[trigger]
                world.allows(call, reply, after) && need.met_by(reply) && course(
                    world,
                    call,
                    reply,
                ) implies keeps_when(later(reply), after, course, both) by {
                lemma_when_both(later(reply), after, course, one, other, both);
            }
        },
        Program::Walk(trail, later) => {
            assert forall|found: Result<Set<u32>, Error>, after: World|
                #![trigger may_find(world.chain, trail, found), later(found), same_but_log(world, after)]
                may_find(world.chain, trail, found) && same_but_log(world, after) && may_end_walk(
                    course,
                    found,
                ) implies keeps_when(later(found), after, course, both) by {
                lemma_when_both(later(found), after, course, one, other, both);
            }
        },
    }
}

/// What is kept in courses of a sort is kept in those of a narrower sort.
pub proof fn lemma_narrower<T>(
    program: Program<T>,
    world: World,
    course: Course,
    narrower: Course,
    post: spec_fn(T, World) -> bool,
)
    requires
        keeps_when(program, world, course, post),
        forall|world: World, call: Call, reply: Reply| #[trigger]
            narrower(world, call, reply) ==> course(world, call, reply),
    ensures
        keeps_when(program, world, narrower, post),
    decreases program,
{
    match program {
        Program::Ret(_) => {},
        Program::Ask(call, need, later) => {
            assert forall|reply: Reply, after: World| #[trigger]
                world.allows(call, reply, after) && need.met_by(reply) && narrower(
                    world,
                    call,
                    reply,
                ) implies keeps_when(later(reply), after, narrower, post) by {
                lemma_narrower(later(reply), after, course, narrower, post);
            }
        },
        Program::Walk(trail, later) => {
            assert forall|found: Result<Set<u32>, Error>, after: World|
                #![trigger may_find(world.chain, trail, found), later(found), same_but_log(world, after)]
                may_find(world.chain, trail, found) && same_but_log(world, after) && may_end_walk(
                    narrower,
                    found,
                ) implies keeps_when(later(found), after, narrower, post) by {
                if let Err(e) = found {
                    let (world, call, reply) = choose|world: World, call: Call, reply: Reply|
                        #[trigger] narrower(world, call, reply) && failure(call, reply) == Some(e);
                    assert(course(world, call, reply));
                }
                lemma_narrower(later(found), after, course, narrower, post);
            }
        },
    }
}

// ---- courses without failures

/// No reply tells of a failure that matters.
pub open spec fn smooth(blame: Blame) -> Course {
    |world: World, call: Call, reply: Reply| blame(call, reply) is None && failure(call, reply)
        is None
}

/// A dialogue that heeds failures ends, where there are none, only as it may of
/// its own.
pub proof fn lemma_smooth<T>(
    program: Program<T>,
    world: World,
    blame: Blame,
    ended: spec_fn(Error, T) -> bool,
    own: spec_fn(T) -> bool,
)
    requires
        heeds(program, blame, ended, own),
    ensures
        keeps_when(program, world, smooth(blame), |t: T, after: World| own(t)),
    decreases program,
{
    let course = smooth(blame);
    let post = |t: T, after: World| own(t);
    match program {
        Program::Ret(_) => {},
        Program::Ask(call, need, later) => {
            assert forall|reply: Reply, after: World| #[trigger]
                world.allows(call, reply, after) && need.met_by(reply) && course(
                    world,
                    call,
                    reply,
                ) implies keeps_when(later(reply), after, course, post) by {
                assert(later(reply) == later(reply));
                lemma_smooth(later(reply), after, blame, ended, own);
            }
        },
        Program::Walk(trail, later) => {
            assert forall|found: Result<Set<u32>, Error>, after: World|
                #![trigger may_find(world.chain, trail, found), later(found), same_but_log(world, after)]
                may_find(world.chain, trail, found) && same_but_log(world, after) && may_end_walk(
                    course,
                    found,
                ) implies keeps_when(later(found), after, course, post) by {
                assert(found is Ok);
                lemma_smooth(later(found), after, blame, ended, own);
            }
        },
    }
}

/// Where nothing fails, nothing breaks.
pub proof fn lemma_unbroken<T>(program: Program<T>, world: World)
    ensures
        keeps_when(
            program,
            world,
            smooth(failures()),
            |t: T, after: World| after.broken == world.broken,
        ),
    decreases program,
{
    let course = smooth(failures());
    let post = |t: T, after: World| after.broken == world.broken;
    match program {
        Program::Ret(_) => {},
        Program::Ask(call, need, later) => {
            assert forall|reply: Reply, after: World| #[trigger]
                world.allows(call, reply, after) && need.met_by(reply) && course(
                    world,
                    call,
                    reply,
                ) implies keeps_when(later(reply), after, course, post) by {
                assert(after.broken == world.broken);
                let here = |t: T, last: World| last.broken == after.broken;
                lemma_unbroken(later(reply), after);
                lemma_when_both(later(reply), after, course, here, here, post);
            }
        },
        Program::Walk(trail, later) => {
            assert forall|found: Result<Set<u32>, Error>, after: World|
                #![trigger may_find(world.chain, trail, found), later(found), same_but_log(world, after)]
                may_find(world.chain, trail, found) && same_but_log(world, after) && may_end_walk(
                    course,
                    found,
                ) implies keeps_when(later(found), after, course, post) by {
                let here = |t: T, last: World| last.broken == after.broken;
                lemma_unbroken(later(found), after);
                lemma_when_both(later(found), after, course, here, here, post);
            }
        },
    }
}

// ---- settled answers

/// Answers that are settled: which range proofs, which signatures and which sums
/// verify, which outputs have matured, and so on.
pub ghost struct Answers {
    /// The verdict on a range proof of an output.
    pub rproof: spec_fn(OutputIdentifier, RangeProof) -> Result<(), String>,
    /// The verdict on the signature of a kernel.
    pub signature: spec_fn(TxKernel) -> Result<(), String>,
    /// The sums of outputs and excesses, if they agree, for an overage and an
    /// offset.
    pub sums: spec_fn(i64, BlindingFactor, Seq<Commitment>, Seq<Commitment>) -> Result<
        (Commitment, Commitment),
        String,
    >,
    /// The verdict on the hashes of a tree in a state.
    pub hashes: spec_fn(Tree, TreeState) -> Result<(), String>,
    /// The commitment to zero.
    pub zero: Commitment,
    /// The verdict on the maturity of what an input spends: the hash of the
    /// output, the header of its block, and the height at which it is spent.
    pub maturity: spec_fn(Input, Hash256, BlockHeader, u64) -> Result<(), String>,
    /// The header with a hash.
    pub header: spec_fn(Hash256) -> Result<BlockHeader, StoreError>,
    /// The Merkle proof of a position of an output tree in a state.
    pub merkle: spec_fn(TreeState, u64) -> Result<MerkleProof, String>,
    /// The hash of an output alone.
    pub plain: spec_fn(OutputIdentifier) -> Hash256,
    /// The size that a tree has when it is opened with a header.
    pub opened: spec_fn(Tree, Option<BlockHeader>) -> u64,
}

impl Answers {
    /// The replies are as settled.
    pub open spec fn given(self) -> Course {
        |world: World, call: Call, reply: Reply|
            match call {
                Call::VerifyProof(id, rproof) => reply->Done_0 == (self.rproof)(id, rproof),
                Call::VerifyKernel(kernel) => reply->Done_0 == (self.signature)(kernel),
                Call::KernelSums(overage, offset, outputs, kernels) => reply->Sums_0 == (
                self.sums)(overage, offset, outputs, kernels),
                Call::Validate(tree) => reply->Done_0 == (self.hashes)(
                    tree,
                    world.trees.get(tree),
                ),
                Call::ZeroCommit => reply->Commit_0 == self.zero,
                Call::VerifyMaturity(input, hash, header, height) => reply->Done_0 == (
                self.maturity)(input, hash, header, height),
                Call::BlockHeader(block) => reply->Header_0 == (self.header)(block),
                Call::MerkleProof(pos) => reply->Proof_0 == (self.merkle)(
                    world.trees.output,
                    pos,
                ),
                Call::MerkleProofAt(last, pos) => last == world.files.output.size
                    ==> reply->Proof_0 == (self.merkle)(world.files.output, pos),
                Call::PlainHash(id) => reply->Digest_0 == (self.plain)(id),
                Call::OpenBackend(tree, header) => reply->Opened_0 matches Ok(size) ==> size == (
                self.opened)(tree, header),
                _ => true,
            }
    }

    /// The replies are as settled, and none tells of a failure.
    pub open spec fn given_smoothly(self) -> Course {
        |world: World, call: Call, reply: Reply|
            (self.given())(world, call, reply) && failure(call, reply) is None
    }
}

} // verus!
