//! Requests that are made one after the other, whatever comes back, up to the
//! first that fails.
use crate::extension::Extension;
use crate::program::{meets, Call, Need, Program, Reply, Request, Run, Step};
use crate::types::{
    BlockHeader, BlockMarker, BlockSums, Commitment, Error, Hash256, Tree,
};
use vstd::prelude::*;

verus! {

/// A dialogue that ends with success or with an error.
pub type Verdict = Program<Result<(), Error>>;

/// What a refusal of a tree means.
#[derive(Clone, Copy, Debug, PartialEq, Eq, Structural)]
pub enum Fault {
    /// The tree does not hold together.
    Invalid,
    /// Its files could not be read or written.
    Io,
    /// Something else.
    Other,
}

impl Fault {
    /// The error for a refusal.
    pub open spec fn error(self, text: String) -> Error {
        match self {
            Fault::Invalid => Error::InvalidTxHashSet(text),
            Fault::Io => Error::Io(text),
            Fault::Other => Error::Other(text),
        }
    }

    /// Whether a reply tells of a success.
    pub open spec fn judge(self, reply: Reply) -> Result<(), Error> {
        match reply {
            Reply::Done(Err(text)) => Err(self.error(text)),
            Reply::Stored(Err(e)) => Err(Error::Store(e)),
            _ => Ok(()),
        }
    }

    fn verdict(self, reply: Reply) -> (verdict: Result<(), Error>)
        ensures
            verdict == self.judge(reply),
    {
        match reply {
            Reply::Done(Err(text)) => match self {
                Fault::Invalid => Err(Error::InvalidTxHashSet(text)),
                Fault::Io => Err(Error::Io(text)),
                Fault::Other => Err(Error::Other(text)),
            },
            Reply::Stored(Err(e)) => Err(Error::Store(e)),
            _ => Ok(()),
        }
    }
}

/// Makes requests in order, up to the first that fails.
pub open spec fn script_program(calls: Seq<Call>, fault: Fault) -> Verdict
    decreases calls.len(),
{
    if calls.len() == 0 {
        Program::Ret(Ok(()))
    } else {
        Program::Ask(
            calls[0],
            Need::Any,
            |reply: Reply|
                match fault.judge(reply) {
                    Ok(_) => script_program(calls.drop_first(), fault),
                    Err(e) => Program::Ret(Err(e)),
                },
        )
    }
}

/// The mathematical forms of requests.
pub open spec fn calls_of(requests: Seq<Request<'_>>) -> Seq<Call> {
    requests.map_values(|request: Request| request.call())
}

/// A list of requests under way.
pub struct ScriptRun<'a> {
    requests: Vec<Request<'a>>,
    next: usize,
    fault: Fault,
}

impl<'a> ScriptRun<'a> {
    spec fn here(&self) -> Verdict {
        script_program(calls_of(self.requests@.skip(self.next as int)), self.fault)
    }
}

impl<'a> Run for ScriptRun<'a> {
    type Out = Result<(), Error>;

    type Model = Result<(), Error>;

    open spec fn model(out: Result<(), Error>) -> Result<(), Error> {
        out
    }

    open spec fn sound(out: Result<(), Error>) -> bool {
        true
    }

    closed spec fn program(&self) -> Verdict {
        self.here()
    }

    closed spec fn valid(&self) -> bool {
        self.next < self.requests@.len()
    }

    proof fn lemma_waits(&self) {
    }

    fn request(&self) -> (request: Request<'_>) {
        self.requests[self.next]
    }

    fn need(&self) -> (need: Need) {
        Need::Any
    }

    fn resume(self, reply: Reply) -> (step: Step<Self, Result<(), Error>>) {
        assert(self.next < self.requests.len());
        proof {
            let calls = calls_of(self.requests@.skip(self.next as int));
            assert(calls.len() > 0);
            assert(calls.drop_first() =~= calls_of(self.requests@.skip(self.next + 1)));
            assert(self.fault.judge(reply) is Ok ==> self.here().next(reply) == script_program(
                calls.drop_first(),
                self.fault,
            ));
        }
        match self.fault.verdict(reply) {
            Ok(_) => if self.next + 1 < self.requests.len() {
                Step::Running(ScriptRun { next: self.next + 1, ..self })
            } else {
                Step::Done(Ok(()))
            },
            Err(e) => Step::Done(Err(e)),
        }
    }
}

/// Makes requests in order, up to the first that fails.
pub(crate) fn run_script<'a>(requests: Vec<Request<'a>>, fault: Fault) -> (step: Step<
    ScriptRun<'a>,
    Result<(), Error>,
>)
    ensures
        meets(step, script_program(calls_of(requests@), fault)),
{
    assert(requests@.skip(0) =~= requests@);
    if requests.len() == 0 {
        Step::Done(Ok(()))
    } else {
        Step::Running(ScriptRun { requests, next: 0, fault })
    }
}

// ---- what is kept in the chain store

/// Keeping the positions of outputs, and then the markers of blocks.
pub open spec fn save_calls(
    commits: Seq<(Commitment, u64)>,
    markers: Seq<(Hash256, BlockMarker)>,
) -> Seq<Call> {
    commits.map_values(|entry: (Commitment, u64)| Call::SaveOutputPos(entry.0, entry.1))
        + markers.map_values(
        |entry: (Hash256, BlockMarker)| Call::SaveBlockMarker(entry.0, entry.1),
    )
}

impl Extension {
    /// Stores all new output positions in the index, and the new block markers.
    pub fn save_indexes<'a>(&self) -> (step: Step<ScriptRun<'a>, Result<(), Error>>)
        requires
            self.valid(),
        ensures
            meets(
                step,
                script_program(
                    save_calls(self.commit_entries(), self.marker_entries()),
                    Fault::Other,
                ),
            ),
    {
        let commits = self.commit_table();
        let markers = self.marker_table();
        let mut requests: Vec<Request<'a>> = Vec::new();
        let ghost calls = save_calls(self.commit_entries(), self.marker_entries());
        let mut i: usize = 0;
        while i < commits.len()
            invariant
                i <= commits.entries().len(),
                requests@.len() == i,
                calls == save_calls(commits.entries(), markers.entries()),
                forall|j: int| 0 <= j < i ==> (#[trigger] requests@[j]).call() == calls[j],
            decreases commits.entries().len() - i,
        {
            let (commit, pos) = commits.entry(i);
            requests.push(Request::SaveOutputPos(commit, pos));
            i = i + 1;
        }
        let mut k: usize = 0;
        while k < markers.len()
            invariant
                k <= markers.entries().len(),
                requests@.len() == commits.entries().len() + k,
                calls == save_calls(commits.entries(), markers.entries()),
                forall|j: int|
                    0 <= j < requests@.len() ==> (#[trigger] requests@[j]).call() == calls[j],
            decreases markers.entries().len() - k,
        {
            let (block, marker) = markers.entry(k);
            requests.push(Request::SaveBlockMarker(block, marker));
            k = k + 1;
        }
        assert(calls_of(requests@) =~= calls);
        run_script(requests, Fault::Other)
    }

    /// Saves the sums of the outputs and of the kernels for the given block
    /// header.
    pub fn save_latest_block_sums<'a>(
        &self,
        header: &BlockHeader,
        output_sum: Commitment,
        kernel_sum: Commitment,
    ) -> (step: Step<ScriptRun<'a>, Result<(), Error>>)
        ensures
            meets(
                step,
                script_program(
                    seq![Call::SaveBlockSums(header.hash, BlockSums { output_sum, kernel_sum })],
                    Fault::Other,
                ),
            ),
    {
        let mut requests: Vec<Request<'a>> = Vec::new();
        requests.push(Request::SaveBlockSums(header.hash, BlockSums { output_sum, kernel_sum }));
        assert(calls_of(requests@) =~= seq![
            Call::SaveBlockSums(header.hash, BlockSums { output_sum, kernel_sum }),
        ]);
        run_script(requests, Fault::Other)
    }

    /// Saves a snapshot of the output tree and of the range proof tree, tagged
    /// with the given block header.
    pub fn snapshot<'a>(&self, header: &'a BlockHeader) -> (step: Step<
        ScriptRun<'a>,
        Result<(), Error>,
    >)
        ensures
            meets(
                step,
                script_program(
                    seq![
                        Call::Snapshot(Tree::Output, *header),
                        Call::Snapshot(Tree::RangeProof, *header),
                    ],
                    Fault::Other,
                ),
            ),
    {
        let mut requests: Vec<Request<'a>> = Vec::new();
        requests.push(Request::Snapshot(Tree::Output, header));
        requests.push(Request::Snapshot(Tree::RangeProof, header));
        assert(calls_of(requests@) =~= seq![
            Call::Snapshot(Tree::Output, *header),
            Call::Snapshot(Tree::RangeProof, *header),
        ]);
        run_script(requests, Fault::Other)
    }

    /// Checks all hashes of the three trees.
    pub fn validate_mmrs<'a>(&self) -> (step: Step<ScriptRun<'a>, Result<(), Error>>)
        ensures
            meets(step, script_program(tree_calls(TreeCall::Validate), Fault::Invalid)),
    {
        run_script(tree_requests(TreeCall::Validate), Fault::Invalid)
    }

    /// Dumps the output tree, to confirm by sight that compacting it worked.
    pub fn dump_output_pmmr<'a>(&self) -> (step: Step<ScriptRun<'a>, Result<(), Error>>)
        ensures
            meets(
                step,
                script_program(seq![Call::DumpFromFile(false), Call::DumpStats], Fault::Other),
            ),
    {
        let mut requests: Vec<Request<'a>> = Vec::new();
        requests.push(Request::DumpFromFile(false));
        requests.push(Request::DumpStats);
        assert(calls_of(requests@) =~= seq![Call::DumpFromFile(false), Call::DumpStats]);
        run_script(requests, Fault::Other)
    }

    /// Dumps the state of the three trees for debugging. The short version only
    /// prints the output tree.
    pub fn dump<'a>(&self, short: bool) -> (step: Step<ScriptRun<'a>, Result<(), Error>>)
        ensures
            meets(
                step,
                script_program(
                    if short {
                        seq![Call::Dump(Tree::Output, true)]
                    } else {
                        seq![
                            Call::Dump(Tree::Output, false),
                            Call::Dump(Tree::RangeProof, false),
                            Call::Dump(Tree::Kernel, false),
                        ]
                    },
                    Fault::Other,
                ),
            ),
    {
        let mut requests: Vec<Request<'a>> = Vec::new();
        requests.push(Request::Dump(Tree::Output, short));
        if !short {
            requests.push(Request::Dump(Tree::RangeProof, short));
            requests.push(Request::Dump(Tree::Kernel, short));
            assert(calls_of(requests@) =~= seq![
                Call::Dump(Tree::Output, false),
                Call::Dump(Tree::RangeProof, false),
                Call::Dump(Tree::Kernel, false),
            ]);
        } else {
            assert(calls_of(requests@) =~= seq![Call::Dump(Tree::Output, true)]);
        }
        run_script(requests, Fault::Other)
    }
}

// ---- what is done to each tree in turn

/// What can be done to each tree in turn.
#[derive(Clone, Copy, Debug, PartialEq, Eq, Structural)]
pub enum TreeCall {
    Validate,
    Discard,
    Sync,
}

impl TreeCall {
    /// The request for one tree.
    pub open spec fn call(self, tree: Tree) -> Call {
        match self {
            TreeCall::Validate => Call::Validate(tree),
            TreeCall::Discard => Call::Discard(tree),
            TreeCall::Sync => Call::Sync(tree),
        }
    }

    fn request<'a>(self, tree: Tree) -> (request: Request<'a>)
        ensures
            request.call() == self.call(tree),
    {
        match self {
            TreeCall::Validate => Request::Validate(tree),
            TreeCall::Discard => Request::Discard(tree),
            TreeCall::Sync => Request::Sync(tree),
        }
    }
}

/// The same request for the output tree, the range proof tree and the kernel
/// tree.
pub open spec fn tree_calls(what: TreeCall) -> Seq<Call> {
    seq![what.call(Tree::Output), what.call(Tree::RangeProof), what.call(Tree::Kernel)]
}

pub(crate) fn tree_requests<'a>(what: TreeCall) -> (requests: Vec<Request<'a>>)
    ensures
        calls_of(requests@) == tree_calls(what),
{
    let mut requests: Vec<Request<'a>> = Vec::new();
    requests.push(what.request(Tree::Output));
    requests.push(what.request(Tree::RangeProof));
    requests.push(what.request(Tree::Kernel));
    assert(calls_of(requests@) =~= tree_calls(what));
    requests
}

} // verus!
