//! Application of single outputs, inputs and kernels to the trees.
use crate::extension::{Extension, Outcome, Overlay};
use crate::program::{meets, Call, Need, Program, Reply, Request, Run, Step};
use crate::types::{
    Error, Hash256, Input, Key, Message, Output, OutputIdentifier, Tree, TxKernel,
};
use vstd::prelude::*;

verus! {

/// A dialogue that changes what a unit of work knows.
pub type Effect = Program<(Overlay, Result<(), Error>)>;

/// A tree refused an operation.
pub open spec fn refused(text: String) -> Error {
    Error::TxHashSetErr(Message::Text(text))
}

// ---- outputs

/// Adds an output. A commitment that is known already, in the unit of work or
/// in the index, is compared with what the output tree has at its position: if
/// that is the hash of this output, the output is a duplicate. Otherwise the
/// output goes to the output tree, its position is remembered, and its range
/// proof goes to the range proof tree.
pub open spec fn output_program(o: Overlay, out: Output) -> Effect {
    match o.commits.get(out.commit) {
        Some(pos) => output_existing(o, out, pos),
        None => output_lookup(o, out),
    }
}

pub open spec fn output_lookup(o: Overlay, out: Output) -> Effect {
    Program::Ask(
        Call::OutputPos(out.commit),
        Need::Any,
        |reply: Reply|
            match reply->Pos_0 {
                Ok(pos) => output_existing(o, out, pos),
                Err(_) => output_push(o, out),
            },
    )
}

pub open spec fn output_existing(o: Overlay, out: Output, pos: u64) -> Effect {
    Program::Ask(
        Call::OutputHash(pos),
        Need::Any,
        |reply: Reply|
            match reply->MaybeHash_0 {
                Some(hash) => output_compare(o, out, hash),
                None => output_push(o, out),
            },
    )
}

pub open spec fn output_compare(o: Overlay, out: Output, hash: Hash256) -> Effect {
    Program::Ask(
        Call::PlainHash(OutputIdentifier::of_output(out)),
        Need::Any,
        |reply: Reply|
            if reply->Digest_0 == hash {
                Program::Ret((o, Err(Error::DuplicateCommitment(out.commit))))
            } else {
                output_push(o, out)
            },
    )
}

pub open spec fn output_push(o: Overlay, out: Output) -> Effect {
    Program::Ask(
        Call::PushOutput(OutputIdentifier::of_output(out)),
        Need::Positive,
        |reply: Reply|
            match reply->Pushed_0 {
                Ok(pos) => output_push_proof(o.with_output(out.commit, pos), out),
                Err(text) => Program::Ret((o, Err(refused(text)))),
            },
    )
}

pub open spec fn output_push_proof(o: Overlay, out: Output) -> Effect {
    Program::Ask(
        Call::PushRproof(out.proof),
        Need::Any,
        |reply: Reply|
            match reply->Pushed_0 {
                Ok(_) => Program::Ret((o, Ok(()))),
                Err(text) => Program::Ret((o, Err(refused(text)))),
            },
    )
}

enum OutputStage {
    Lookup,
    Existing(u64),
    Compare(Hash256),
    Push,
    PushProof,
}

/// An output under way into the trees.
pub struct OutputRun<'a> {
    extension: Extension,
    out: &'a Output,
    stage: OutputStage,
}

impl<'a> Run for OutputRun<'a> {
    type Out = Outcome<()>;

    type Model = (Overlay, Result<(), Error>);

    open spec fn model(out: Outcome<()>) -> (Overlay, Result<(), Error>) {
        out@
    }

    open spec fn sound(out: Outcome<()>) -> bool {
        out.extension.valid()
    }

    closed spec fn program(&self) -> Effect {
        match self.stage {
            OutputStage::Lookup => output_lookup(self.extension@, *self.out),
            OutputStage::Existing(pos) => output_existing(self.extension@, *self.out, pos),
            OutputStage::Compare(hash) => output_compare(self.extension@, *self.out, hash),
            OutputStage::Push => output_push(self.extension@, *self.out),
            OutputStage::PushProof => output_push_proof(self.extension@, *self.out),
        }
    }

    closed spec fn valid(&self) -> bool {
        self.extension.valid()
    }

    proof fn lemma_waits(&self) {
    }

    fn request(&self) -> (request: Request<'_>) {
        match self.stage {
            OutputStage::Lookup => Request::OutputPos(self.out.commit),
            OutputStage::Existing(pos) => Request::OutputHash(pos),
            OutputStage::Compare(_) => Request::PlainHash(OutputIdentifier::from_output(self.out)),
            OutputStage::Push => Request::PushOutput(OutputIdentifier::from_output(self.out)),
            OutputStage::PushProof => Request::PushRproof(&self.out.proof),
        }
    }

    fn need(&self) -> (need: Need) {
        match self.stage {
            OutputStage::Push => Need::Positive,
            _ => Need::Any,
        }
    }

    fn resume(self, reply: Reply) -> (step: Step<Self, Outcome<()>>) {
        let mut extension = self.extension;
        let out = self.out;
        let stage = match self.stage {
            OutputStage::Lookup => match reply.into_pos() {
                Ok(pos) => OutputStage::Existing(pos),
                Err(_) => OutputStage::Push,
            },
            OutputStage::Existing(_) => match reply.into_maybe_hash() {
                Some(hash) => OutputStage::Compare(hash),
                None => OutputStage::Push,
            },
            OutputStage::Compare(hash) => if reply.into_digest().same(&hash) {
                let result = Err(Error::DuplicateCommitment(out.commit));
                return Step::Done(Outcome { extension, result });
            } else {
                OutputStage::Push
            },
            OutputStage::Push => match reply.into_pushed() {
                Ok(pos) => {
                    extension.note_output(out.commit, pos);
                    OutputStage::PushProof
                },
                Err(text) => {
                    let result = Err(Error::TxHashSetErr(Message::Text(text)));
                    return Step::Done(Outcome { extension, result });
                },
            },
            OutputStage::PushProof => {
                let result = match reply.into_pushed() {
                    Ok(_) => Ok(()),
                    Err(text) => Err(Error::TxHashSetErr(Message::Text(text))),
                };
                return Step::Done(Outcome { extension, result });
            },
        };
        Step::Running(OutputRun { extension, out, stage })
    }
}

impl Extension {
    /// Adds an output to the trees.
    pub fn apply_output<'a>(self, out: &'a Output) -> (step: Step<OutputRun<'a>, Outcome<()>>)
        requires
            self.valid(),
        ensures
            meets(step, output_program(self@, *out)),
    {
        let stage = match self.find(&out.commit) {
            Some(pos) => OutputStage::Existing(pos),
            None => OutputStage::Lookup,
        };
        Step::Running(OutputRun { extension: self, out, stage })
    }
}

// ---- inputs

/// Spends the output of an input. Its position is the one known to the unit of
/// work, or else to the index; without one the output counts as spent. If the
/// output tree has a hash at that position, it has to be the hash of what the
/// input claims to spend and of the element stored there. The position is then
/// pruned, first from the output tree, where it has to be unspent, and then
/// from the range proof tree.
pub open spec fn input_program(o: Overlay, input: Input) -> Effect {
    match o.commits.get(input.commit) {
        Some(pos) => input_claim(o, input, pos),
        None => input_lookup(o, input),
    }
}

pub open spec fn input_lookup(o: Overlay, input: Input) -> Effect {
    Program::Ask(
        Call::OutputPos(input.commit),
        Need::Positive,
        |reply: Reply|
            match reply->Pos_0 {
                Ok(pos) => input_claim(o, input, pos),
                Err(_) => Program::Ret((o, Err(Error::AlreadySpent(input.commit)))),
            },
    )
}

pub open spec fn input_claim(o: Overlay, input: Input, pos: u64) -> Effect {
    Program::Ask(
        Call::IdHash(OutputIdentifier::of_input(input), (pos - 1) as u64),
        Need::Any,
        |reply: Reply| input_read(o, input, pos, reply->Digest_0),
    )
}

pub open spec fn input_read(o: Overlay, input: Input, pos: u64, claim: Hash256) -> Effect {
    Program::Ask(
        Call::OutputHash(pos),
        Need::Any,
        |reply: Reply|
            match reply->MaybeHash_0 {
                Some(hash) => input_element(o, input, pos, claim, hash),
                None => input_prune(o, input, pos),
            },
    )
}

pub open spec fn input_element(
    o: Overlay,
    input: Input,
    pos: u64,
    claim: Hash256,
    hash: Hash256,
) -> Effect {
    Program::Ask(
        Call::OutputData(pos),
        Need::Present,
        |reply: Reply| input_compare(o, input, pos, claim, hash, reply->MaybeOutput_0->0),
    )
}

pub open spec fn input_compare(
    o: Overlay,
    input: Input,
    pos: u64,
    claim: Hash256,
    hash: Hash256,
    element: OutputIdentifier,
) -> Effect {
    Program::Ask(
        Call::IdHash(element, (pos - 1) as u64),
        Need::Any,
        |reply: Reply|
            if claim != hash || claim != reply->Digest_0 {
                Program::Ret((o, Err(Error::TxHashSetErr(Message::OutputHashMismatch))))
            } else {
                input_prune(o, input, pos)
            },
    )
}

pub open spec fn input_prune(o: Overlay, input: Input, pos: u64) -> Effect {
    Program::Ask(
        Call::Prune(Tree::Output, pos),
        Need::Any,
        |reply: Reply|
            match reply->Pruned_0 {
                Ok(true) => input_prune_proof(o, pos),
                Ok(false) => Program::Ret((o, Err(Error::AlreadySpent(input.commit)))),
                Err(text) => Program::Ret((o, Err(refused(text)))),
            },
    )
}

pub open spec fn input_prune_proof(o: Overlay, pos: u64) -> Effect {
    Program::Ask(
        Call::Prune(Tree::RangeProof, pos),
        Need::Any,
        |reply: Reply|
            match reply->Pruned_0 {
                Ok(_) => Program::Ret((o, Ok(()))),
                Err(text) => Program::Ret((o, Err(refused(text)))),
            },
    )
}

enum InputStage {
    Lookup,
    Claim(u64),
    Read(u64, Hash256),
    Element(u64, Hash256, Hash256),
    Compare(u64, Hash256, Hash256, OutputIdentifier),
    Prune(u64),
    PruneProof(u64),
}

/// An input under way.
pub struct InputRun<'a> {
    extension: Extension,
    input: &'a Input,
    stage: InputStage,
}

impl<'a> Run for InputRun<'a> {
    type Out = Outcome<()>;

    type Model = (Overlay, Result<(), Error>);

    open spec fn model(out: Outcome<()>) -> (Overlay, Result<(), Error>) {
        out@
    }

    open spec fn sound(out: Outcome<()>) -> bool {
        out.extension.valid()
    }

    closed spec fn program(&self) -> Effect {
        let o = self.extension@;
        match self.stage {
            InputStage::Lookup => input_lookup(o, *self.input),
            InputStage::Claim(pos) => input_claim(o, *self.input, pos),
            InputStage::Read(pos, claim) => input_read(o, *self.input, pos, claim),
            InputStage::Element(pos, claim, hash) => input_element(
                o,
                *self.input,
                pos,
                claim,
                hash,
            ),
            InputStage::Compare(pos, claim, hash, element) => input_compare(
                o,
                *self.input,
                pos,
                claim,
                hash,
                element,
            ),
            InputStage::Prune(pos) => input_prune(o, *self.input, pos),
            InputStage::PruneProof(pos) => input_prune_proof(o, pos),
        }
    }

    closed spec fn valid(&self) -> bool {
        &&& self.extension.valid()
        &&& match self.stage {
            InputStage::Claim(pos) => pos >= 1,
            InputStage::Read(pos, _) => pos >= 1,
            InputStage::Element(pos, _, _) => pos >= 1,
            InputStage::Compare(pos, _, _, _) => pos >= 1,
            _ => true,
        }
    }

    proof fn lemma_waits(&self) {
    }

    fn request(&self) -> (request: Request<'_>) {
        match self.stage {
            InputStage::Lookup => Request::OutputPos(self.input.commit),
            InputStage::Claim(pos) => Request::IdHash(
                OutputIdentifier::from_input(self.input),
                pos - 1,
            ),
            InputStage::Read(pos, _) => Request::OutputHash(pos),
            InputStage::Element(pos, _, _) => Request::OutputData(pos),
            InputStage::Compare(pos, _, _, element) => Request::IdHash(element, pos - 1),
            InputStage::Prune(pos) => Request::Prune(Tree::Output, pos),
            InputStage::PruneProof(pos) => Request::Prune(Tree::RangeProof, pos),
        }
    }

    fn need(&self) -> (need: Need) {
        match self.stage {
            InputStage::Lookup => Need::Positive,
            InputStage::Element(_, _, _) => Need::Present,
            _ => Need::Any,
        }
    }

    fn resume(self, reply: Reply) -> (step: Step<Self, Outcome<()>>) {
        let extension = self.extension;
        let input = self.input;
        let stage = match self.stage {
            InputStage::Lookup => match reply.into_pos() {
                Ok(pos) => InputStage::Claim(pos),
                Err(_) => {
                    let result = Err(Error::AlreadySpent(input.commit));
                    return Step::Done(Outcome { extension, result });
                },
            },
            InputStage::Claim(pos) => InputStage::Read(pos, reply.into_digest()),
            InputStage::Read(pos, claim) => match reply.into_maybe_hash() {
                Some(hash) => InputStage::Element(pos, claim, hash),
                None => InputStage::Prune(pos),
            },
            InputStage::Element(pos, claim, hash) => match reply.into_maybe_output() {
                Some(element) => InputStage::Compare(pos, claim, hash, element),
                None => unreached(),
            },
            InputStage::Compare(pos, claim, hash, _) => if !claim.same(&hash) || !claim.same(
                &reply.into_digest(),
            ) {
                let result = Err(Error::TxHashSetErr(Message::OutputHashMismatch));
                return Step::Done(Outcome { extension, result });
            } else {
                InputStage::Prune(pos)
            },
            InputStage::Prune(pos) => match reply.into_pruned() {
                Ok(true) => InputStage::PruneProof(pos),
                Ok(false) => {
                    let result = Err(Error::AlreadySpent(input.commit));
                    return Step::Done(Outcome { extension, result });
                },
                Err(text) => {
                    let result = Err(Error::TxHashSetErr(Message::Text(text)));
                    return Step::Done(Outcome { extension, result });
                },
            },
            InputStage::PruneProof(_) => {
                let result = match reply.into_pruned() {
                    Ok(_) => Ok(()),
                    Err(text) => Err(Error::TxHashSetErr(Message::Text(text))),
                };
                return Step::Done(Outcome { extension, result });
            },
        };
        Step::Running(InputRun { extension, input, stage })
    }
}

impl Extension {
    /// Spends the output that an input refers to.
    pub fn apply_input<'a>(self, input: &'a Input) -> (step: Step<InputRun<'a>, Outcome<()>>)
        requires
            self.valid(),
        ensures
            meets(step, input_program(self@, *input)),
    {
        let stage = match self.find(&input.commit) {
            Some(pos) => InputStage::Claim(pos),
            None => InputStage::Lookup,
        };
        Step::Running(InputRun { extension: self, input, stage })
    }
}

// ---- kernels

/// Adds a kernel to the kernel tree.
pub open spec fn kernel_program(o: Overlay, kernel: TxKernel) -> Effect {
    Program::Ask(
        Call::PushKernel(kernel),
        Need::Any,
        |reply: Reply|
            match reply->Pushed_0 {
                Ok(_) => Program::Ret((o, Ok(()))),
                Err(text) => Program::Ret((o, Err(refused(text)))),
            },
    )
}

/// A kernel under way into its tree.
pub struct KernelRun<'a> {
    extension: Extension,
    kernel: &'a TxKernel,
}

impl<'a> Run for KernelRun<'a> {
    type Out = Outcome<()>;

    type Model = (Overlay, Result<(), Error>);

    open spec fn model(out: Outcome<()>) -> (Overlay, Result<(), Error>) {
        out@
    }

    open spec fn sound(out: Outcome<()>) -> bool {
        out.extension.valid()
    }

    closed spec fn program(&self) -> Effect {
        kernel_program(self.extension@, *self.kernel)
    }

    closed spec fn valid(&self) -> bool {
        self.extension.valid()
    }

    proof fn lemma_waits(&self) {
    }

    fn request(&self) -> (request: Request<'_>) {
        Request::PushKernel(self.kernel)
    }

    fn need(&self) -> (need: Need) {
        Need::Any
    }

    fn resume(self, reply: Reply) -> (step: Step<Self, Outcome<()>>) {
        let result = match reply.into_pushed() {
            Ok(_) => Ok(()),
            Err(text) => Err(Error::TxHashSetErr(Message::Text(text))),
        };
        Step::Done(Outcome { extension: self.extension, result })
    }
}

impl Extension {
    /// Adds a kernel to the kernel tree.
    pub fn apply_kernel<'a>(self, kernel: &'a TxKernel) -> (step: Step<KernelRun<'a>, Outcome<()>>)
        requires
            self.valid(),
        ensures
            meets(step, kernel_program(self@, *kernel)),
    {
        Step::Running(KernelRun { extension: self, kernel })
    }
}

} // verus!
