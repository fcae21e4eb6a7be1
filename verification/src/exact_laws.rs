//! What the application of an output, of an input or of a kernel comes to, and
//! that what is in order is applied.
use crate::apply::{
    input_claim, input_compare, input_element, input_lookup, input_program, input_prune,
    input_prune_proof, input_read, kernel_program, output_compare, output_existing, output_lookup,
    output_program, output_push, output_push_proof,
};
use crate::courses::{
    failures, keeps_when, lemma_keeps_when, lemma_narrower, lemma_smooth, lemma_when_both, smooth,
    Answers,
};
use crate::extension::Overlay;
use crate::heed_laws::{
    fails_as_it_was, input_end, law_inputs_heed_failures, law_outputs_heed_failures, output_end,
    work_ends_with,
};
use crate::paths::{known, Promise};
use crate::pmmr::leaf_at;
use crate::program::{Call, Program, Reply};
use crate::types::{Error, Hash256, Input, Message, Output, OutputIdentifier, Tree, TxKernel};
use crate::world::{keeps, lemma_keeps_less, Element, Trees, World};
use vstd::prelude::*;

verus! {

/// Nothing but the trees of the unit of work and the log changed.
pub open spec fn only_trees(first: World, after: World) -> bool {
    after == (World { trees: after.trees, log: after.log, ..first })
}

/// A tree said why it would not do something.
pub open spec fn tree_refused(e: Error) -> bool {
    match e {
        Error::TxHashSetErr(Message::Text(_)) => true,
        _ => false,
    }
}

// ---- inputs

/// The trees after the output at a position was spent.
pub open spec fn spent_at(trees: Trees, pos: u64) -> Trees {
    Trees { output: trees.output.without(pos), rproof: trees.rproof.without(pos), ..trees }
}

/// What becomes of an input. Where its output is not known, or is known at a
/// position that is spent, it is refused as spent. Where there is an output with
/// another hash than the one that it names, it is refused for that. Otherwise the
/// output is spent, and with it its range proof, unless a tree refuses.
pub open spec fn input_decided(o: Overlay, input: Input, first: World) -> Promise {
    |done: (Overlay, Result<(), Error>), after: World|
        {
            let named = OutputIdentifier { coinbase: input.coinbase, commit: input.commit };
            let spent = Err::<(), Error>(Error::AlreadySpent(input.commit));
            &&& done.0 == o
            &&& only_trees(first, after)
            &&& after.trees.sound()
            &&& match known(o, first.index, input.commit) {
                None => done.1 == spent && after.trees == first.trees,
                Some(pos) => match first.trees.output.element(pos) {
                    Some(Element::Output(id)) => if (first.hash_of)(id, (pos - 1) as u64) != (
                    first.hash_of)(named, (pos - 1) as u64) {
                        &&& done.1 == Err::<(), Error>(
                            Error::TxHashSetErr(Message::OutputHashMismatch),
                        )
                        &&& after.trees == first.trees
                    } else {
                        match done.1 {
                            Ok(_) => after.trees == spent_at(first.trees, pos),
                            Err(e) => tree_refused(e),
                        }
                    },
                    _ => done.1 == spent && after.trees == first.trees,
                },
            }
        }
}

proof fn lemma_prune_decided(o: Overlay, input: Input, pos: u64, first: World, world: World)
    requires
        only_trees(first, world),
        world.trees == first.trees,
        first.trees.sound(),
        leaf_at(pos as nat),
        pos >= 1,
        known(o, first.index, input.commit) == Some(pos),
        first.hash_in(first.trees.output, pos) matches Some(hash) ==> hash == (first.hash_of)(
            OutputIdentifier { coinbase: input.coinbase, commit: input.commit },
            (pos - 1) as u64,
        ),
    ensures
        keeps(input_prune(o, input, pos), world, input_decided(o, input, first)),
{
    let post = input_decided(o, input, first);
    let program = input_prune(o, input, pos);
    assert forall|reply: Reply, after: World| #[trigger]
        world.allows(program->Ask_0, reply, after) && program->Ask_1.met_by(reply) implies keeps(
        (program->Ask_2)(reply),
        after,
        post,
    ) by {
        match reply->Pruned_0 {
            Ok(true) => {
                let next = input_prune_proof(o, pos);
                assert forall|reply: Reply, last: World| #[trigger]
                    after.allows(next->Ask_0, reply, last) && next->Ask_1.met_by(
                        reply,
                    ) implies keeps((next->Ask_2)(reply), last, post) by {
                    assert(first.trees.output.elements.contains_key(pos));
                    match reply->Pruned_0 {
                        Ok(_) => {
                            assert(last.trees =~= spent_at(first.trees, pos));
                        },
                        Err(text) => {
                            assert(tree_refused(Error::TxHashSetErr(Message::Text(text))));
                        },
                    }
                }
            },
            Ok(false) => {
                assert(first.trees.output.without(pos) =~= first.trees.output);
                assert(after.trees =~= first.trees);
            },
            Err(text) => {
                assert(first.trees.output.elements.contains_key(pos));
                assert(tree_refused(Error::TxHashSetErr(Message::Text(text))));
            },
        }
    }
}

proof fn lemma_claim_decided(o: Overlay, input: Input, pos: u64, first: World, world: World)
    requires
        only_trees(first, world),
        world.trees == first.trees,
        first.trees.sound(),
        leaf_at(pos as nat),
        pos >= 1,
        known(o, first.index, input.commit) == Some(pos),
    ensures
        keeps(input_claim(o, input, pos), world, input_decided(o, input, first)),
{
    let post = input_decided(o, input, first);
    let named = OutputIdentifier { coinbase: input.coinbase, commit: input.commit };
    let claiming = input_claim(o, input, pos);
    assert forall|reply: Reply, after: World| #[trigger]
        world.allows(claiming->Ask_0, reply, after) && claiming->Ask_1.met_by(
            reply,
        ) implies keeps((claiming->Ask_2)(reply), after, post) by {
        let claim = reply->Digest_0;
        let reading = input_read(o, input, pos, claim);
        assert(claim == (first.hash_of)(named, (pos - 1) as u64));
        assert forall|reply: Reply, after2: World| #[trigger]
            after.allows(reading->Ask_0, reply, after2) && reading->Ask_1.met_by(
                reply,
            ) implies keeps((reading->Ask_2)(reply), after2, post) by {
            let found = reply->MaybeHash_0;
            assert(found == first.hash_in(first.trees.output, pos));
            match found {
                Some(hash) => {
                    let taking = input_element(o, input, pos, claim, hash);
                    assert forall|reply: Reply, after3: World| #[trigger]
                        after2.allows(taking->Ask_0, reply, after3) && taking->Ask_1.met_by(
                            reply,
                        ) implies keeps((taking->Ask_2)(reply), after3, post) by {
                        let element = reply->MaybeOutput_0->0;
                        let comparing = input_compare(o, input, pos, claim, hash, element);
                        assert forall|reply: Reply, last: World| #[trigger]
                            after3.allows(comparing->Ask_0, reply, last)
                                && comparing->Ask_1.met_by(reply) implies keeps(
                            (comparing->Ask_2)(reply),
                            last,
                            post,
                        ) by {
                            if claim == hash {
                                lemma_prune_decided(o, input, pos, first, last);
                            }
                        }
                    }
                },
                None => lemma_prune_decided(o, input, pos, first, after2),
            }
        }
    }
}

/// It is decided by what is at the position of its output what becomes of an
/// input.
pub proof fn law_inputs_are_decided(o: Overlay, input: Input, world: World)
    requires
        world.trees.sound(),
        world.reliable,
        known(o, world.index, input.commit) matches Some(pos) ==> pos >= 1 && leaf_at(pos as nat),
    ensures
        keeps(input_program(o, input), world, input_decided(o, input, world)),
{
    let post = input_decided(o, input, world);
    match o.commits.get(input.commit) {
        Some(pos) => lemma_claim_decided(o, input, pos, world, world),
        None => {
            let program = input_lookup(o, input);
            assert forall|reply: Reply, after: World| #[trigger]
                world.allows(program->Ask_0, reply, after) && program->Ask_1.met_by(
                    reply,
                ) implies keeps((program->Ask_2)(reply), after, post) by {
                if let Ok(pos) = reply->Pos_0 {
                    lemma_claim_decided(o, input, pos, world, after);
                }
            }
        },
    }
}

/// An input names the output that is unspent at the position known for it, its
/// commitment and whether it is a coinbase output.
pub open spec fn names(o: Overlay, world: World, input: Input) -> bool {
    match known(o, world.index, input.commit) {
        Some(pos) => {
            &&& pos >= 1 && leaf_at(pos as nat)
            &&& world.trees.output.element(pos) == Some(
                Element::Output(
                    OutputIdentifier { coinbase: input.coinbase, commit: input.commit },
                ),
            )
        },
        None => false,
    }
}

/// After an input was accepted, what it spends is gone from both trees.
pub open spec fn accepted(o: Overlay, input: Input, first: World) -> Promise {
    |done: (Overlay, Result<(), Error>), after: World|
        {
            let pos = known(o, first.index, input.commit)->0;
            &&& done == (o, Ok::<(), Error>(()))
            &&& only_trees(first, after)
            &&& after.trees.sound()
            &&& after.trees == spent_at(first.trees, pos)
        }
}

/// An input that names an unspent output, coinbase or not, is accepted, unless a
/// tree refuses: it never counts as a mismatch, nor as spent.
pub proof fn law_unspent_outputs_can_be_spent(o: Overlay, input: Input, world: World)
    requires
        world.trees.sound(),
        world.reliable,
        names(o, world, input),
    ensures
        keeps(
            input_program(o, input),
            world,
            |done: (Overlay, Result<(), Error>), after: World|
                done.1 matches Err(e) ==> tree_refused(e),
        ),
        keeps_when(
            input_program(o, input),
            world,
            smooth(failures()),
            accepted(o, input, world),
        ),
{
    let program = input_program(o, input);
    let decided = input_decided(o, input, world);
    let course = smooth(failures());
    let own = input_end(o, input);
    law_inputs_are_decided(o, input, world);
    lemma_keeps_less(
        program,
        world,
        decided,
        |done: (Overlay, Result<(), Error>), after: World|
            done.1 matches Err(e) ==> tree_refused(e),
    );
    lemma_keeps_when(program, world, course, decided);
    law_inputs_heed_failures(o, input);
    lemma_smooth(program, world, failures(), fails_as_it_was(o), own);
    let ended = |done: (Overlay, Result<(), Error>), after: World| own(done);
    assert forall|done: (Overlay, Result<(), Error>), after: World| decided(done, after) && ended(
        done,
        after,
    ) implies #[trigger] accepted(o, input, world)(done, after) by {
        if let Ok(unit) = done.1 {
            assert(unit == ());
        }
    }
    lemma_when_both(program, world, course, decided, ended, accepted(o, input, world));
}

/// The hash at a position tells outputs apart.
pub open spec fn hashes_tell_apart(world: World) -> bool {
    forall|one: OutputIdentifier, other: OutputIdentifier, at: u64|
        #[trigger] (world.hash_of)(one, at) == #[trigger] (world.hash_of)(other, at) ==> one
            == other
}

/// What an input that was accepted spends is exactly what it names.
pub proof fn law_accepted_inputs_name_what_they_spend(o: Overlay, input: Input, world: World)
    requires
        world.trees.sound(),
        world.reliable,
        hashes_tell_apart(world),
        known(o, world.index, input.commit) matches Some(pos) ==> pos >= 1 && leaf_at(pos as nat),
    ensures
        keeps(
            input_program(o, input),
            world,
            |done: (Overlay, Result<(), Error>), after: World|
                done.1 is Ok ==> names(o, world, input) && accepted(o, input, world)(done, after),
        ),
{
    let post = |done: (Overlay, Result<(), Error>), after: World|
        done.1 is Ok ==> names(o, world, input) && accepted(o, input, world)(done, after);
    let decided = input_decided(o, input, world);
    law_inputs_are_decided(o, input, world);
    assert forall|done: (Overlay, Result<(), Error>), after: World| #[trigger]
        decided(done, after) implies post(done, after) by {
        if let Ok(unit) = done.1 {
            assert(unit == ());
        }
    }
    lemma_keeps_less(input_program(o, input), world, decided, post);
}

/// Whatever the output tree replies for the position of an input, its hash and the
/// hash of its element there both have to be the hash of what the input names.
/// Otherwise nothing is pruned.
pub proof fn law_inputs_compare_both_hashes(
    o: Overlay,
    input: Input,
    pos: u64,
    claim: Hash256,
    hash: Hash256,
    id: OutputIdentifier,
    digest: Hash256,
)
    requires
        pos >= 1,
        o.commits.get(input.commit) is None || o.commits.get(input.commit) == Some(pos),
    ensures
        ({
            let named = OutputIdentifier { coinbase: input.coinbase, commit: input.commit };
            let start = input_program(o, input);
            let claiming = if o.commits.get(input.commit) is None {
                start.next(Reply::Pos(Ok(pos)))
            } else {
                start
            };
            let reading = claiming.next(Reply::Digest(claim));
            let taking = reading.next(Reply::MaybeHash(Some(hash)));
            let comparing = taking.next(Reply::MaybeOutput(Some(id)));
            let end = comparing.next(Reply::Digest(digest));
            &&& o.commits.get(input.commit) is None ==> start.call() == Call::OutputPos(
                input.commit,
            )
            &&& claiming.call() == Call::IdHash(named, (pos - 1) as u64)
            &&& reading.call() == Call::OutputHash(pos)
            &&& taking.call() == Call::OutputData(pos)
            &&& comparing.call() == Call::IdHash(id, (pos - 1) as u64)
            &&& if claim == hash && claim == digest {
                end.call() == Call::Prune(Tree::Output, pos)
            } else {
                end == Program::<(Overlay, Result<(), Error>)>::Ret(
                    (o, Err(Error::TxHashSetErr(Message::OutputHashMismatch))),
                )
            }
        }),
{
}

// ---- outputs

/// There is an output at the position known for a commitment, and its hash is
/// that of an output alone.
pub open spec fn is_duplicate(answers: Answers, o: Overlay, out: Output, world: World) -> bool {
    match known(o, world.index, out.commit) {
        Some(pos) => world.hash_in(world.trees.output, pos) == Some(
            (answers.plain)(OutputIdentifier { coinbase: out.coinbase, commit: out.commit }),
        ),
        None => false,
    }
}

/// After an output was added: it is at the end of the output tree, its proof is
/// at the end of the other, and the unit of work knows its position.
pub open spec fn added(o: Overlay, out: Output, first: World) -> Promise {
    |done: (Overlay, Result<(), Error>), after: World|
        {
            let pos = (first.trees.output.size + 1) as u64;
            let rproof_pos = (first.trees.rproof.size + 1) as u64;
            let id = OutputIdentifier { coinbase: out.coinbase, commit: out.commit };
            &&& done == (
                Overlay { commits: o.commits.insert(out.commit, pos), ..o },
                Ok::<(), Error>(()),
            )
            &&& only_trees(first, after)
            &&& after.trees.sound()
            &&& first.trees.output.pushed(pos, Element::Output(id), after.trees.output)
            &&& first.trees.rproof.pushed(
                rproof_pos,
                Element::Proof(out.proof),
                after.trees.rproof,
            )
            &&& after.trees.kernel == first.trees.kernel
        }
}

/// What becomes of an output: a duplicate is refused, and any other is added,
/// unless a tree refuses.
pub open spec fn output_decided(
    answers: Answers,
    o: Overlay,
    out: Output,
    first: World,
) -> Promise {
    |done: (Overlay, Result<(), Error>), after: World|
        if is_duplicate(answers, o, out, first) {
            &&& done == (o, Err::<(), Error>(Error::DuplicateCommitment(out.commit)))
            &&& only_trees(first, after)
            &&& after.trees == first.trees
        } else {
            match done.1 {
                Ok(_) => added(o, out, first)(done, after),
                Err(e) => tree_refused(e) && only_trees(first, after),
            }
        }
}

proof fn lemma_push_decided(answers: Answers, o: Overlay, out: Output, first: World, world: World)
    requires
        only_trees(first, world),
        world.trees == first.trees,
        !is_duplicate(answers, o, out, first),
    ensures
        keeps_when(
            output_push(o, out),
            world,
            answers.given(),
            output_decided(answers, o, out, first),
        ),
{
    let course = answers.given();
    let post = output_decided(answers, o, out, first);
    let program = output_push(o, out);
    assert forall|reply: Reply, after: World| #[trigger]
        world.allows(program->Ask_0, reply, after) && program->Ask_1.met_by(reply) && course(
            world,
            program->Ask_0,
            reply,
        ) implies keeps_when((program->Ask_2)(reply), after, course, post) by {
        match reply->Pushed_0 {
            Ok(pos) => {
                let later = o.with_output(out.commit, pos);
                let next = output_push_proof(later, out);
                assert forall|reply: Reply, last: World| #[trigger]
                    after.allows(next->Ask_0, reply, last) && next->Ask_1.met_by(reply) && course(
                        after,
                        next->Ask_0,
                        reply,
                    ) implies keeps_when((next->Ask_2)(reply), last, course, post) by {
                    if let Err(text) = reply->Pushed_0 {
                        assert(tree_refused(Error::TxHashSetErr(Message::Text(text))));
                    }
                }
            },
            Err(text) => {
                assert(tree_refused(Error::TxHashSetErr(Message::Text(text))));
            },
        }
    }
}

proof fn lemma_existing_decided(
    answers: Answers,
    o: Overlay,
    out: Output,
    pos: u64,
    first: World,
    world: World,
)
    requires
        only_trees(first, world),
        world.trees == first.trees,
        leaf_at(pos as nat),
        known(o, first.index, out.commit) == Some(pos),
    ensures
        keeps_when(
            output_existing(o, out, pos),
            world,
            answers.given(),
            output_decided(answers, o, out, first),
        ),
{
    let course = answers.given();
    let post = output_decided(answers, o, out, first);
    let program = output_existing(o, out, pos);
    assert forall|reply: Reply, after: World| #[trigger]
        world.allows(program->Ask_0, reply, after) && program->Ask_1.met_by(reply) && course(
            world,
            program->Ask_0,
            reply,
        ) implies keeps_when((program->Ask_2)(reply), after, course, post) by {
        let found = reply->MaybeHash_0;
        assert(found == first.hash_in(first.trees.output, pos));
        match found {
            Some(hash) => {
                let next = output_compare(o, out, hash);
                assert forall|reply: Reply, last: World| #[trigger]
                    after.allows(next->Ask_0, reply, last) && next->Ask_1.met_by(reply) && course(
                        after,
                        next->Ask_0,
                        reply,
                    ) implies keeps_when((next->Ask_2)(reply), last, course, post) by {
                    if reply->Digest_0 != hash {
                        lemma_push_decided(answers, o, out, first, last);
                    }
                }
            },
            None => lemma_push_decided(answers, o, out, first, after),
        }
    }
}

/// It is decided by what is at the position known for its commitment what becomes
/// of an output.
pub proof fn law_outputs_are_decided(answers: Answers, o: Overlay, out: Output, world: World)
    requires
        world.reliable,
        known(o, world.index, out.commit) matches Some(pos) ==> leaf_at(pos as nat),
    ensures
        keeps_when(
            output_program(o, out),
            world,
            answers.given(),
            output_decided(answers, o, out, world),
        ),
{
    let course = answers.given();
    let post = output_decided(answers, o, out, world);
    match o.commits.get(out.commit) {
        Some(pos) => lemma_existing_decided(answers, o, out, pos, world, world),
        None => {
            let program = output_lookup(o, out);
            assert forall|reply: Reply, after: World| #[trigger]
                world.allows(program->Ask_0, reply, after) && program->Ask_1.met_by(reply)
                    && course(world, program->Ask_0, reply) implies keeps_when(
                (program->Ask_2)(reply),
                after,
                course,
                post,
            ) by {
                match reply->Pos_0 {
                    Ok(pos) => lemma_existing_decided(answers, o, out, pos, world, after),
                    Err(_) => lemma_push_decided(answers, o, out, world, after),
                }
            }
        },
    }
}

/// An output that is no duplicate is added, unless a tree refuses.
pub proof fn law_new_outputs_are_added(answers: Answers, o: Overlay, out: Output, world: World)
    requires
        world.reliable,
        known(o, world.index, out.commit) matches Some(pos) ==> leaf_at(pos as nat),
        !is_duplicate(answers, o, out, world),
    ensures
        keeps_when(
            output_program(o, out),
            world,
            answers.given_smoothly(),
            added(o, out, world),
        ),
{
    let program = output_program(o, out);
    let course = answers.given_smoothly();
    let own = output_end(o, out);
    let decided = output_decided(answers, o, out, world);
    let ended = |done: (Overlay, Result<(), Error>), after: World| own(done);
    law_outputs_are_decided(answers, o, out, world);
    lemma_narrower(program, world, answers.given(), course, decided);
    law_outputs_heed_failures(o, out);
    lemma_smooth(program, world, failures(), work_ends_with(), own);
    lemma_narrower(program, world, smooth(failures()), course, ended);
    lemma_when_both(program, world, course, decided, ended, added(o, out, world));
}

/// Whatever the output tree replies for the position known for the commitment of
/// an output: it is a duplicate exactly if there is a hash, and it is the hash of
/// the output alone. Otherwise the output is pushed.
pub proof fn law_outputs_compare_the_hash(
    o: Overlay,
    out: Output,
    pos: u64,
    hash: Hash256,
    digest: Hash256,
)
    requires
        o.commits.get(out.commit) is None || o.commits.get(out.commit) == Some(pos),
    ensures
        ({
            let id = OutputIdentifier { coinbase: out.coinbase, commit: out.commit };
            let start = output_program(o, out);
            let reading = if o.commits.get(out.commit) is None {
                start.next(Reply::Pos(Ok(pos)))
            } else {
                start
            };
            let comparing = reading.next(Reply::MaybeHash(Some(hash)));
            let end = comparing.next(Reply::Digest(digest));
            &&& o.commits.get(out.commit) is None ==> start.call() == Call::OutputPos(out.commit)
            &&& reading.call() == Call::OutputHash(pos)
            &&& reading.next(Reply::MaybeHash(None)).call() == Call::PushOutput(id)
            &&& comparing.call() == Call::PlainHash(id)
            &&& if digest == hash {
                end == Program::<(Overlay, Result<(), Error>)>::Ret(
                    (o, Err(Error::DuplicateCommitment(out.commit))),
                )
            } else {
                end.call() == Call::PushOutput(id)
            }
        }),
{
}

// ---- kernels

/// After a kernel was added, at the end of its tree.
pub open spec fn kernel_added(o: Overlay, kernel: TxKernel, first: World) -> Promise {
    |done: (Overlay, Result<(), Error>), after: World|
        {
            let pos = (first.trees.kernel.size + 1) as u64;
            &&& done == (o, Ok::<(), Error>(()))
            &&& only_trees(first, after)
            &&& after.trees.sound()
            &&& first.trees.kernel.pushed(pos, Element::Kernel(kernel), after.trees.kernel)
            &&& after.trees.output == first.trees.output
            &&& after.trees.rproof == first.trees.rproof
        }
}

/// A kernel is added, unless its tree refuses.
pub proof fn law_kernels_are_added(o: Overlay, kernel: TxKernel, world: World)
    ensures
        keeps(
            kernel_program(o, kernel),
            world,
            |done: (Overlay, Result<(), Error>), after: World|
                kernel_added(o, kernel, world)(done, after) || (done.1 matches Err(e)
                    && tree_refused(e)),
        ),
        keeps_when(
            kernel_program(o, kernel),
            world,
            smooth(failures()),
            kernel_added(o, kernel, world),
        ),
{
    let program = kernel_program(o, kernel);
    let course = smooth(failures());
    let post = |done: (Overlay, Result<(), Error>), after: World|
        kernel_added(o, kernel, world)(done, after) || (done.1 matches Err(e) && tree_refused(e));
    assert forall|reply: Reply, after: World| #[trigger]
        world.allows(program->Ask_0, reply, after) && program->Ask_1.met_by(reply) implies keeps(
        (program->Ask_2)(reply),
        after,
        post,
    ) by {
        if reply->Pushed_0 is Ok {
            assert(kernel_added(o, kernel, world)((program->Ask_2)(reply)->Ret_0, after));
        }
    }
    assert forall|reply: Reply, after: World| #[trigger]
        world.allows(program->Ask_0, reply, after) && program->Ask_1.met_by(reply) && course(
            world,
            program->Ask_0,
            reply,
        ) implies keeps_when(
        (program->Ask_2)(reply),
        after,
        course,
        kernel_added(o, kernel, world),
    ) by {
        assert(reply->Pushed_0 is Ok);
    }
}

} // verus!
