//! The operations of the library, driven against trees and a store in memory.
use croaring::Bitmap;
use std::collections::HashMap;
use txhashset::extending::{extending, extending_readonly};
use txhashset::extension::{Extension, Outcome};
use txhashset::pmmr::{bintree_postorder_height, is_leaf, n_leaves};
use txhashset::program::{admits, Kind, Need, Reply, Request, Run, Step};
use txhashset::rewind::{input_pos_to_rewind, output_pos_to_rewind};
use txhashset::txhashset::{
    TxHashSet, KERNEL_SUBDIR, OUTPUT_SUBDIR, RANGE_PROOF_SUBDIR, TXHASHSET_SUBDIR, TXHASHSET_ZIP,
};
use txhashset::types::{
    BlindingFactor, Block, BlockHeader, BlockMarker, BlockSums, Commitment, Error, Hash256, Input,
    MerkleProof, Message, Output, OutputIdentifier, RangeProof, Sizes, StoreError, Transaction,
    Tree, TxHashSetRoots, TxKernel,
};

#[derive(Clone, Debug, PartialEq)]
enum Elem {
    Output(OutputIdentifier),
    Proof(Vec<u8>),
    Kernel(Commitment, Vec<u8>),
}

#[derive(Clone, Debug, PartialEq, Default)]
struct Mmr {
    /// What was put at each position, with whether it is live; nothing for
    /// parents.
    nodes: Vec<Option<(Elem, bool)>>,
}

impl Mmr {
    fn size(&self) -> u64 {
        self.nodes.len() as u64
    }

    fn push(&mut self, elem: Elem) -> u64 {
        self.nodes.push(Some((elem, true)));
        let pos = self.size();
        while bintree_postorder_height(self.size() + 1) > 0 {
            self.nodes.push(None);
        }
        pos
    }

    fn get(&self, pos: u64) -> Option<&Elem> {
        if pos == 0 || pos > self.size() {
            return None;
        }
        match &self.nodes[pos as usize - 1] {
            Some((elem, true)) => Some(elem),
            _ => None,
        }
    }

    fn prune(&mut self, pos: u64) -> bool {
        if pos == 0 || pos > self.size() {
            return false;
        }
        match &mut self.nodes[pos as usize - 1] {
            Some((_, live)) if *live => {
                *live = false;
                true
            }
            _ => false,
        }
    }

    fn rewind(&mut self, pos: u64, added: &Bitmap, removed: &Bitmap) {
        self.nodes.truncate(pos as usize);
        for at in 1..self.nodes.len() + 1 {
            if let Some((_, live)) = &mut self.nodes[at - 1] {
                let x = at as u32;
                *live = (*live && !added.contains(x)) || removed.contains(x);
            }
        }
    }

    fn live(&self) -> Vec<u64> {
        (1..self.size() + 1).filter(|pos| self.get(*pos).is_some()).collect()
    }

    /// The elements from an index of insertion on, and the index of the last.
    fn page(&self, start: u64, max: u64) -> (u64, Vec<&Elem>) {
        let leaves: Vec<u64> = (1..self.size() + 1).filter(|pos| is_leaf(*pos)).collect();
        let mut last = 0;
        let mut found = vec![];
        for (at, pos) in leaves.into_iter().enumerate() {
            let index = at as u64 + 1;
            if index >= start && (found.len() as u64) < max {
                if let Some(elem) = self.get(pos) {
                    found.push(elem);
                    last = index;
                }
            }
        }
        (last, found)
    }
}

fn slot(tree: Tree) -> usize {
    match tree {
        Tree::Output => 0,
        Tree::RangeProof => 1,
        Tree::Kernel => 2,
    }
}

fn commit(n: u8) -> Commitment {
    Commitment { bytes: [n; 33] }
}

fn hash(n: u8) -> Hash256 {
    Hash256 { bytes: [n; 32] }
}

fn id_hash(id: &OutputIdentifier, index: u64) -> Hash256 {
    let mut bytes = [0u8; 32];
    bytes[0] = 1;
    bytes[1] = id.commit.bytes[0];
    bytes[2] = id.coinbase as u8;
    bytes[3..11].copy_from_slice(&index.to_le_bytes());
    Hash256 { bytes }
}

fn plain_hash(id: &OutputIdentifier) -> Hash256 {
    let mut bytes = [0u8; 32];
    bytes[0] = 2;
    bytes[1] = id.commit.bytes[0];
    Hash256 { bytes }
}

fn root(tree: Tree, mmr: &Mmr) -> Hash256 {
    let mut bytes = [0u8; 32];
    bytes[0] = 3 + slot(tree) as u8;
    bytes[1..9].copy_from_slice(&mmr.size().to_le_bytes());
    for (at, node) in mmr.nodes.iter().enumerate() {
        let byte = match node {
            Some((Elem::Output(id), _)) => id.commit.bytes[0],
            Some((Elem::Proof(body), _)) => body[0],
            Some((Elem::Kernel(excess, _), _)) => excess.bytes[0],
            None => 0,
        };
        bytes[9 + at % 16] = bytes[9 + at % 16].wrapping_mul(31).wrapping_add(byte);
    }
    Hash256 { bytes }
}

/// Everything outside the library.
#[derive(Default)]
struct Outside {
    trees: [Mmr; 3],
    files: [Mmr; 3],
    index: HashMap<[u8; 33], u64>,
    markers: HashMap<[u8; 32], BlockMarker>,
    headers: HashMap<[u8; 32], BlockHeader>,
    heights: HashMap<u64, BlockHeader>,
    bitmaps: HashMap<[u8; 32], Vec<u32>>,
    sums: HashMap<[u8; 32], BlockSums>,
    head: Option<BlockHeader>,
    /// The requests so far.
    log: Vec<String>,
    /// The hashes that the output tree has, where they are not the right ones.
    hashes: HashMap<u64, Hash256>,
    /// Names of requests that fail.
    failing: Vec<&'static str>,
    /// Names of requests that fail, by how many times they succeed before.
    later: HashMap<&'static str, u32>,
}

fn name(request: &Request) -> String {
    match request {
        Request::OutputPos(_) => "OutputPos".to_string(),
        Request::BlockMarker(_) => "BlockMarker".to_string(),
        Request::HeadHeader => "HeadHeader".to_string(),
        Request::HeaderByHeight(h) => format!("HeaderByHeight {}", h),
        Request::BlockHeader(_) => "BlockHeader".to_string(),
        Request::InputBitmap(_) => "InputBitmap".to_string(),
        Request::SaveOutputPos(c, p) => format!("SaveOutputPos {} {}", c.bytes[0], p),
        Request::SaveBlockMarker(h, m) => format!(
            "SaveBlockMarker {} {} {}",
            h.bytes[0], m.output_pos, m.kernel_pos
        ),
        Request::SaveBlockSums(h, _) => format!("SaveBlockSums {}", h.bytes[0]),
        Request::Size(t) => format!("Size {:?}", t),
        Request::OutputHash(p) => format!("OutputHash {}", p),
        Request::OutputData(p) => format!("OutputData {}", p),
        Request::RproofData(p) => format!("RproofData {}", p),
        Request::KernelData(p) => format!("KernelData {}", p),
        Request::PushOutput(id) => format!("PushOutput {}", id.commit.bytes[0]),
        Request::PushRproof(_) => "PushRproof".to_string(),
        Request::PushKernel(_) => "PushKernel".to_string(),
        Request::Prune(t, p) => format!("Prune {:?} {}", t, p),
        Request::Rewind(t, p, a, r) => {
            format!("Rewind {:?} {} {:?} {:?}", t, p, a.to_vec(), r.to_vec())
        }
        Request::Root(t) => format!("Root {:?}", t),
        Request::Validate(t) => format!("Validate {:?}", t),
        Request::MerkleProof(p) => format!("MerkleProof {}", p),
        Request::Snapshot(t, h) => format!("Snapshot {:?} {}", t, h.hash.bytes[0]),
        Request::Dump(t, s) => format!("Dump {:?} {}", t, s),
        Request::DumpFromFile(s) => format!("DumpFromFile {}", s),
        Request::DumpStats => "DumpStats".to_string(),
        Request::HashAt(l, p) => format!("HashAt {} {}", l, p),
        Request::MerkleProofAt(l, p) => format!("MerkleProofAt {} {}", l, p),
        Request::RootAt(t, l) => format!("RootAt {:?} {}", t, l),
        Request::LastOutputs(l, n) => format!("LastOutputs {} {}", l, n),
        Request::LastProofs(l, n) => format!("LastProofs {} {}", l, n),
        Request::LastKernels(l, n) => format!("LastKernels {} {}", l, n),
        Request::OutputsFrom(l, s, n) => format!("OutputsFrom {} {} {}", l, s, n),
        Request::ProofsFrom(l, s, n) => format!("ProofsFrom {} {} {}", l, s, n),
        Request::CheckCompact(t, p, a, r, c) => format!(
            "CheckCompact {:?} {} {:?} {:?} {}",
            t,
            p,
            a.to_vec(),
            r.to_vec(),
            c
        ),
        Request::Discard(t) => format!("Discard {:?}", t),
        Request::Sync(t) => format!("Sync {:?}", t),
        Request::CreateDir(t) => format!("CreateDir {:?}", t),
        Request::OpenBackend(t, h) => format!("OpenBackend {:?} {}", t, h.is_some()),
        Request::IdHash(id, i) => format!("IdHash {} {}", id.commit.bytes[0], i),
        Request::PlainHash(id) => format!("PlainHash {}", id.commit.bytes[0]),
        Request::VerifyMaturity(_, _, _, h) => format!("VerifyMaturity {}", h),
        Request::VerifyKernel(k) => format!("VerifyKernel {}", k.excess.bytes[0]),
        Request::VerifyProof(id, _) => format!("VerifyProof {}", id.commit.bytes[0]),
        Request::KernelSums(o, _, outputs, kernels) => {
            format!("KernelSums {} {} {}", o, outputs.len(), kernels.len())
        }
        Request::ZeroCommit => "ZeroCommit".to_string(),
        Request::Report(a, b, c, d) => format!("Report {} {} {} {}", a, b, c, d),
    }
}

impl Outside {
    fn fails(&mut self, name: &str) -> bool {
        if self.failing.iter().any(|f| name.starts_with(f)) {
            return true;
        }
        for (f, left) in self.later.iter_mut() {
            if name.starts_with(f) {
                if *left == 0 {
                    return true;
                }
                *left -= 1;
            }
        }
        false
    }

    fn answer(&mut self, request: Request) -> Reply {
        let name = name(&request);
        self.log.push(name.clone());
        let fails = self.fails(&name);
        let broken = || StoreError::Failed("broken".to_string());
        let no = || "no".to_string();
        let done = || {
            Reply::Done(if fails { Err("no".to_string()) } else { Ok(()) })
        };
        match request {
            Request::OutputPos(c) => Reply::Pos(if fails {
                Err(broken())
            } else {
                self.index.get(&c.bytes).copied().ok_or(StoreError::NotFound)
            }),
            Request::BlockMarker(h) => Reply::Marker(if fails {
                Err(broken())
            } else {
                self.markers.get(&h.bytes).copied().ok_or(StoreError::NotFound)
            }),
            Request::HeadHeader => Reply::Header(if fails {
                Err(broken())
            } else {
                self.head.ok_or(StoreError::NotFound)
            }),
            Request::HeaderByHeight(h) => {
                Reply::Header(self.heights.get(&h).copied().ok_or(StoreError::NotFound))
            }
            Request::BlockHeader(h) => {
                Reply::Header(self.headers.get(&h.bytes).copied().ok_or(StoreError::NotFound))
            }
            Request::InputBitmap(h) => Reply::Bitmap(
                self.bitmaps
                    .get(&h.bytes)
                    .map(|v| Bitmap::of(v))
                    .ok_or(StoreError::NotFound),
            ),
            Request::SaveOutputPos(c, p) => Reply::Stored(if fails {
                Err(broken())
            } else {
                self.index.insert(c.bytes, p);
                Ok(())
            }),
            Request::SaveBlockMarker(h, m) => Reply::Stored(if fails {
                Err(broken())
            } else {
                self.markers.insert(h.bytes, m);
                Ok(())
            }),
            Request::SaveBlockSums(h, s) => Reply::Stored(if fails {
                Err(broken())
            } else {
                self.sums.insert(h.bytes, s);
                Ok(())
            }),
            Request::Size(t) => Reply::Size(self.trees[slot(t)].size()),
            Request::OutputHash(p) => Reply::MaybeHash(self.hash_at(0, p)),
            Request::HashAt(last, p) => Reply::MaybeHash(if p > last {
                None
            } else {
                self.hash_at(1, p)
            }),
            Request::OutputData(p) => Reply::MaybeOutput(match self.trees[0].get(p) {
                Some(Elem::Output(id)) => Some(*id),
                _ => None,
            }),
            Request::RproofData(p) => Reply::MaybeProof(match self.trees[1].get(p) {
                Some(Elem::Proof(bytes)) if !fails => Some(RangeProof { bytes: bytes.clone() }),
                _ => None,
            }),
            Request::KernelData(p) => Reply::MaybeKernel(match self.trees[2].get(p) {
                Some(Elem::Kernel(excess, body)) => Some(TxKernel {
                    excess: *excess,
                    body: body.clone(),
                }),
                _ => None,
            }),
            Request::PushOutput(id) => Reply::Pushed(if fails {
                Err(no())
            } else {
                Ok(self.trees[0].push(Elem::Output(id)))
            }),
            Request::PushRproof(proof) => Reply::Pushed(if fails {
                Err(no())
            } else {
                Ok(self.trees[1].push(Elem::Proof(proof.bytes.clone())))
            }),
            Request::PushKernel(kernel) => Reply::Pushed(if fails {
                Err(no())
            } else {
                Ok(self.trees[2].push(Elem::Kernel(kernel.excess, kernel.body.clone())))
            }),
            Request::Prune(t, p) => Reply::Pruned(if fails {
                Err(no())
            } else {
                Ok(self.trees[slot(t)].prune(p))
            }),
            Request::Rewind(t, p, added, removed) => Reply::Done(if fails {
                Err(no())
            } else {
                self.trees[slot(t)].rewind(p, added, removed);
                Ok(())
            }),
            Request::Root(t) => Reply::Digest(root(t, &self.trees[slot(t)])),
            Request::RootAt(t, _) => Reply::Digest(root(t, &self.files[slot(t)])),
            Request::MerkleProof(p) => Reply::Proof(if fails {
                Err(no())
            } else {
                Ok(MerkleProof { bytes: vec![p as u8, self.trees[0].size() as u8] })
            }),
            Request::MerkleProofAt(last, p) => Reply::Proof(if fails {
                Err(no())
            } else {
                Ok(MerkleProof { bytes: vec![last as u8, p as u8] })
            }),
            Request::Validate(_)
            | Request::Snapshot(..)
            | Request::CreateDir(_)
            | Request::VerifyMaturity(..)
            | Request::VerifyKernel(_)
            | Request::VerifyProof(..) => done(),
            Request::CheckCompact(_, cutoff, _, removed, clean) => {
                if clean && !fails {
                    let outputs = &self.files[0];
                    self.index.retain(|_, pos| {
                        outputs.get(*pos).is_some()
                            || *pos > cutoff
                            || removed.contains(*pos as u32)
                    });
                }
                done()
            }
            Request::Discard(t) => {
                self.trees[slot(t)] = self.files[slot(t)].clone();
                Reply::Unit
            }
            Request::Sync(t) => Reply::Done(if fails {
                Err(no())
            } else {
                self.files[slot(t)] = self.trees[slot(t)].clone();
                Ok(())
            }),
            Request::OpenBackend(t, _) => Reply::Opened(if fails {
                Err(no())
            } else {
                Ok(self.files[slot(t)].size())
            }),
            Request::IdHash(id, index) => Reply::Digest(id_hash(&id, index)),
            Request::PlainHash(id) => Reply::Digest(plain_hash(&id)),
            Request::KernelSums(_, _, outputs, kernels) => Reply::Sums(if fails {
                Err(no())
            } else {
                Ok((commit(outputs.len() as u8), commit(kernels.len() as u8)))
            }),
            Request::ZeroCommit => Reply::Commit(commit(0)),
            Request::LastOutputs(_, n) => Reply::Outputs(
                self.files[0]
                    .live()
                    .into_iter()
                    .rev()
                    .take(n as usize)
                    .map(|p| match self.files[0].get(p) {
                        Some(Elem::Output(id)) => (id_hash(id, p - 1), *id),
                        _ => unreachable!(),
                    })
                    .collect(),
            ),
            Request::LastProofs(_, _) => {
                Reply::Proofs(vec![(hash(1), RangeProof { bytes: vec![1] })])
            }
            Request::LastKernels(_, _) => Reply::Kernels(vec![(hash(2), kernel(9))]),
            Request::OutputsFrom(_, start, max) => {
                let (last, found) = self.files[0].page(start, max);
                let ids = found
                    .into_iter()
                    .map(|elem| match elem {
                        Elem::Output(id) => *id,
                        _ => unreachable!(),
                    })
                    .collect();
                Reply::OutputPage((last, ids))
            }
            Request::ProofsFrom(_, start, max) => {
                let (last, found) = self.files[1].page(start, max);
                let proofs = found
                    .into_iter()
                    .map(|elem| match elem {
                        Elem::Proof(bytes) => RangeProof { bytes: bytes.clone() },
                        _ => unreachable!(),
                    })
                    .collect();
                Reply::ProofPage((last, proofs))
            }
            Request::Dump(..) | Request::DumpFromFile(_) | Request::DumpStats => Reply::Unit,
            Request::Report(..) => Reply::Unit,
        }
    }

    fn hash_at(&self, files: usize, pos: u64) -> Option<Hash256> {
        let mmr = if files == 1 { &self.files[0] } else { &self.trees[0] };
        match mmr.get(pos) {
            Some(Elem::Output(id)) => Some(match self.hashes.get(&pos) {
                Some(hash) => *hash,
                None => id_hash(id, pos - 1),
            }),
            _ => None,
        }
    }

    fn drive<R: Run>(&mut self, step: Step<R, R::Out>) -> R::Out {
        let mut step = step;
        loop {
            match step {
                Step::Done(out) => return out,
                Step::Running(run) => {
                    let reply = self.answer(run.request());
                    assert!(admits(&run, &reply));
                    step = run.resume(reply);
                }
            }
        }
    }

    fn asked(&self, what: &str) -> usize {
        self.log.iter().filter(|entry| entry.starts_with(what)).count()
    }

    fn opened(&mut self) -> TxHashSet {
        let trees = self.drive(TxHashSet::open(None)).unwrap();
        self.log.clear();
        trees
    }

    /// A unit of work on the trees as they are.
    fn extension(&mut self, rollback: bool) -> Extension {
        let trees = self.opened();
        let mut extension = Extension::new(&trees);
        if rollback {
            extension.force_rollback();
        }
        extension
    }

    /// Puts outputs into the trees, the files and the index.
    fn with_outputs(commits: &[u8]) -> Outside {
        let mut outside = Outside::default();
        for n in commits {
            let id = OutputIdentifier { coinbase: false, commit: commit(*n) };
            let pos = outside.trees[0].push(Elem::Output(id));
            outside.trees[1].push(Elem::Proof(vec![*n]));
            outside.index.insert(commit(*n).bytes, pos);
        }
        outside.files = outside.trees.clone();
        outside
    }

    fn store_header(&mut self, header: BlockHeader) {
        self.headers.insert(header.hash.bytes, header);
        self.heights.insert(header.height, header);
        self.head = Some(header);
    }
}

fn output(n: u8) -> Output {
    Output { coinbase: false, commit: commit(n), proof: RangeProof { bytes: vec![n] } }
}

fn coinbase(n: u8) -> Output {
    Output { coinbase: true, commit: commit(n), proof: RangeProof { bytes: vec![n] } }
}

fn input(n: u8) -> Input {
    Input { coinbase: false, commit: commit(n), block_hash: hash(0), merkle_proof: None }
}

fn kernel(n: u8) -> TxKernel {
    TxKernel { excess: commit(n), body: vec![n] }
}

fn tx(inputs: &[u8], outputs: &[u8], kernels: &[u8]) -> Transaction {
    Transaction {
        inputs: inputs.iter().map(|n| input(*n)).collect(),
        outputs: outputs.iter().map(|n| output(*n)).collect(),
        kernels: kernels.iter().map(|n| kernel(*n)).collect(),
    }
}

fn header(n: u8, previous: u8, height: u64) -> BlockHeader {
    BlockHeader {
        hash: hash(n),
        previous: hash(previous),
        height,
        output_root: hash(0),
        range_proof_root: hash(0),
        kernel_root: hash(0),
        total_overage: -60,
        total_kernel_offset: BlindingFactor { bytes: [9; 32] },
    }
}

fn header_matching(outside: &Outside, height: u64) -> BlockHeader {
    BlockHeader {
        output_root: root(Tree::Output, &outside.trees[0]),
        range_proof_root: root(Tree::RangeProof, &outside.trees[1]),
        kernel_root: root(Tree::Kernel, &outside.trees[2]),
        ..header(7, 6, height)
    }
}

fn refusal() -> Error {
    Error::TxHashSetErr(Message::Text("no".to_string()))
}

fn broken() -> StoreError {
    StoreError::Failed("broken".to_string())
}

// ---- positions

#[test]
fn heights_of_positions() {
    let heights: Vec<u64> = (1..17).map(bintree_postorder_height).collect();
    assert_eq!(heights, vec![0, 0, 1, 0, 0, 1, 2, 0, 0, 1, 0, 0, 1, 2, 3, 0]);
    assert!(is_leaf(1) && is_leaf(8) && !is_leaf(15));
    assert_eq!(bintree_postorder_height(u64::MAX), 63);
}

#[test]
fn leaves_of_sizes() {
    let leaves: Vec<u64> = [0, 1, 3, 4, 7, 8, 10, 11, 15, 16].iter().map(|n| n_leaves(*n)).collect();
    assert_eq!(leaves, vec![0, 1, 2, 3, 4, 5, 6, 7, 8, 9]);
}

// ---- outputs, inputs, kernels

#[test]
fn output_takes_the_next_position() {
    let mut outside = Outside::with_outputs(&[1, 2]);
    let extension = outside.extension(false);
    let out = outside.drive(extension.apply_output(&output(3)));
    assert_eq!(out.result, Ok(()));
    assert_eq!(outside.trees[0].live(), vec![1, 2, 4]);
    assert_eq!(outside.trees[1].live(), vec![1, 2, 4]);
    assert_eq!(outside.log, vec!["OutputPos", "PushOutput 3", "PushRproof"]);
    let saved = outside.drive(out.extension.save_indexes());
    assert_eq!(saved, Ok(()));
    assert_eq!(outside.index[&commit(3).bytes], 4);
}

#[test]
fn known_output_is_pushed_again_unless_its_plain_hash_is_there() {
    let mut outside = Outside::with_outputs(&[1, 2]);
    let extension = outside.extension(false);
    let out = outside.drive(extension.apply_output(&output(2)));
    assert_eq!(out.result, Ok(()));
    assert_eq!(outside.asked("PlainHash 2"), 1);
    assert_eq!(outside.trees[0].live(), vec![1, 2, 4]);

    let id = OutputIdentifier { coinbase: false, commit: commit(1) };
    outside.hashes.insert(1, plain_hash(&id));
    let out = outside.drive(out.extension.apply_output(&output(1)));
    assert_eq!(out.result, Err(Error::DuplicateCommitment(commit(1))));
    assert_eq!(outside.trees[0].size(), 4);
}

#[test]
fn spent_output_may_come_again() {
    let mut outside = Outside::with_outputs(&[1, 2]);
    outside.trees[0].prune(2);
    let extension = outside.extension(false);
    let out = outside.drive(extension.apply_output(&output(2)));
    assert_eq!(out.result, Ok(()));
    assert_eq!(outside.asked("PlainHash"), 0);
}

#[test]
fn refused_pushes() {
    let mut outside = Outside::default();
    outside.failing = vec!["PushOutput"];
    let extension = outside.extension(false);
    let out = outside.drive(extension.apply_output(&output(1)));
    assert_eq!(out.result, Err(refusal()));
    outside.failing = vec!["PushRproof"];
    let out = outside.drive(out.extension.apply_output(&output(1)));
    assert_eq!(out.result, Err(refusal()));
    outside.failing = vec!["PushKernel"];
    let out = outside.drive(out.extension.apply_kernel(&kernel(1)));
    assert_eq!(out.result, Err(refusal()));
    outside.failing = vec![];
    let out = outside.drive(out.extension.apply_kernel(&kernel(1)));
    assert_eq!(out.result, Ok(()));
    assert_eq!(outside.trees[2].live(), vec![1]);
}

#[test]
fn input_spends_once() {
    let mut outside = Outside::with_outputs(&[1, 2]);
    let extension = outside.extension(false);
    let out = outside.drive(extension.apply_input(&input(1)));
    assert_eq!(out.result, Ok(()));
    assert_eq!(outside.trees[0].live(), vec![2]);
    assert_eq!(outside.trees[1].live(), vec![2]);
    assert_eq!(
        outside.log,
        vec![
            "OutputPos",
            "IdHash 1 0",
            "OutputHash 1",
            "OutputData 1",
            "IdHash 1 0",
            "Prune Output 1",
            "Prune RangeProof 1",
        ]
    );
    let out = outside.drive(out.extension.apply_input(&input(1)));
    assert_eq!(out.result, Err(Error::AlreadySpent(commit(1))));
    let out = outside.drive(out.extension.apply_input(&input(5)));
    assert_eq!(out.result, Err(Error::AlreadySpent(commit(5))));
}

#[test]
fn input_spends_an_output_of_the_same_work() {
    let mut outside = Outside::default();
    let extension = outside.extension(false);
    let out = outside.drive(extension.apply_output(&output(4)));
    let out = outside.drive(out.extension.apply_input(&input(4)));
    assert_eq!(out.result, Ok(()));
    assert!(outside.trees[0].live().is_empty());
    assert!(outside.index.is_empty());
}

#[test]
fn dishonest_input() {
    let mut outside = Outside::with_outputs(&[1]);
    let extension = outside.extension(false);
    let claim = Input { coinbase: true, ..input(1) };
    let out = outside.drive(extension.apply_input(&claim));
    assert_eq!(out.result, Err(Error::TxHashSetErr(Message::OutputHashMismatch)));
    outside.hashes.insert(1, hash(99));
    let out = outside.drive(out.extension.apply_input(&input(1)));
    assert_eq!(out.result, Err(Error::TxHashSetErr(Message::OutputHashMismatch)));
    assert_eq!(outside.trees[0].live(), vec![1]);
    assert_eq!(Message::OutputHashMismatch.text(), "output pmmr hash mismatch");
}

#[test]
fn refused_prunes() {
    let mut outside = Outside::with_outputs(&[1]);
    outside.failing = vec!["Prune Output"];
    let extension = outside.extension(false);
    let out = outside.drive(extension.apply_input(&input(1)));
    assert_eq!(out.result, Err(refusal()));
    outside.failing = vec!["Prune RangeProof"];
    let out = outside.drive(out.extension.apply_input(&input(1)));
    assert_eq!(out.result, Err(refusal()));
}

// ---- blocks

#[test]
fn block_is_applied_in_order() {
    let mut outside = Outside::with_outputs(&[1, 2]);
    let extension = outside.extension(false);
    let block = Block {
        hash: hash(11),
        inputs: vec![input(1)],
        outputs: vec![output(3), coinbase(4)],
        kernels: vec![kernel(1), kernel(2)],
    };
    let out = outside.drive(extension.apply_block(&block));
    assert_eq!(out.result, Ok(()));
    let changes: Vec<&String> = outside
        .log
        .iter()
        .filter(|entry| entry.starts_with("Push") || entry.starts_with("Prune"))
        .collect();
    assert_eq!(
        changes,
        vec![
            "PushOutput 4",
            "PushRproof",
            "Prune Output 1",
            "Prune RangeProof 1",
            "PushOutput 3",
            "PushRproof",
            "PushKernel",
            "PushKernel",
        ]
    );
    outside.log.clear();
    assert_eq!(outside.drive(out.extension.save_indexes()), Ok(()));
    assert_eq!(
        outside.log,
        vec!["SaveOutputPos 4 4", "SaveOutputPos 3 5", "SaveBlockMarker 11 7 3"]
    );
    let marker = BlockMarker { output_pos: 7, kernel_pos: 3 };
    assert_eq!(outside.markers[&hash(11).bytes], marker);
}

#[test]
fn block_cannot_spend_its_own_output() {
    let mut outside = Outside::default();
    let extension = outside.extension(false);
    let block = Block {
        hash: hash(11),
        inputs: vec![input(3)],
        outputs: vec![output(3)],
        kernels: vec![],
    };
    let out = outside.drive(extension.apply_block(&block));
    assert_eq!(out.result, Err(Error::AlreadySpent(commit(3))));
    assert_eq!(outside.asked("PushOutput"), 0);
    assert_eq!(outside.drive(out.extension.save_indexes()), Ok(()));
    assert_eq!(outside.asked("Save"), 0);
}

/// Applies a block in a committed unit of work, and records it in the chain.
fn commit_block(outside: &mut Outside, block: &Block, previous: u8, height: u64) {
    let before = outside.trees[0].clone();
    let trees = outside.opened();
    let extended = {
        let step = extending(trees, |extension| outside.drive(extension.apply_block(block)));
        outside.drive(step)
    };
    assert_eq!(extended.result, Ok(()));
    let spent: Vec<u32> = before
        .live()
        .into_iter()
        .filter(|pos| outside.trees[0].get(*pos).is_none())
        .map(|pos| pos as u32)
        .collect();
    outside.bitmaps.insert(block.hash.bytes, spent);
    outside.store_header(header(block.hash.bytes[0], previous, height));
}

fn block(n: u8, inputs: &[u8], outputs: &[u8], kernels: &[u8]) -> Block {
    let tx = tx(inputs, outputs, kernels);
    Block { hash: hash(n), inputs: tx.inputs, outputs: tx.outputs, kernels: tx.kernels }
}

#[test]
fn rewind_takes_blocks_back() {
    let mut outside = Outside::default();
    commit_block(&mut outside, &block(1, &[], &[1, 2, 3], &[1]), 0, 1);
    let first = outside.trees.clone();
    commit_block(&mut outside, &block(2, &[1], &[4], &[2]), 1, 2);
    let second = outside.trees.clone();
    commit_block(&mut outside, &block(3, &[2, 4], &[5, 6], &[3, 4]), 2, 3);
    assert_eq!(outside.trees[0].live(), vec![4, 8, 9]);

    let extension = outside.extension(true);
    let out = outside.drive(extension.rewind(&header(2, 1, 2), &header(3, 2, 3)));
    assert_eq!(out.result, Ok(()));
    assert_eq!(outside.trees, second);
    assert_eq!(outside.asked("BlockHeader"), 1);

    outside.trees = outside.files.clone();
    let extension = outside.extension(true);
    let out = outside.drive(extension.rewind(&header(1, 0, 1), &header(3, 2, 3)));
    assert_eq!(out.result, Ok(()));
    assert_eq!(outside.trees, first);
    assert_eq!(outside.asked("InputBitmap"), 2);
    assert_eq!(outside.asked("Rewind Output 4 [5, 6, 7, 8, 9, 10] [1, 2, 5]"), 1);
    assert_eq!(outside.asked("Rewind Kernel 1 [] []"), 1);
}

#[test]
fn rewind_keeps_kernels_at_positions_of_outputs() {
    let mut outside = Outside::default();
    commit_block(&mut outside, &block(1, &[], &[1], &[1, 2, 3, 4]), 0, 1);
    let first = outside.trees.clone();
    commit_block(&mut outside, &block(2, &[1], &[2, 3, 4], &[5]), 1, 2);
    let extension = outside.extension(true);
    let out = outside.drive(extension.rewind(&header(1, 0, 1), &header(2, 1, 2)));
    assert_eq!(out.result, Ok(()));
    assert_eq!(outside.asked("Rewind Output 1 [2, 3, 4, 5, 6, 7] [1]"), 1);
    assert_eq!(outside.trees, first);
    let excesses: Vec<Commitment> = (1..5).map(commit).collect();
    assert_eq!(outside.drive(out.extension.kernels_committed()), excesses);
}

#[test]
fn rewind_forgets_what_the_work_added() {
    let mut outside = Outside::default();
    commit_block(&mut outside, &block(1, &[], &[1, 2], &[1]), 0, 1);
    let extension = outside.extension(false);
    let out = outside.drive(extension.apply_output(&output(9)));
    let out = outside.drive(out.extension.rewind(&header(1, 0, 1), &header(1, 0, 1)));
    assert_eq!(out.result, Ok(()));
    assert_eq!(outside.asked("Rewind Output 3 [] []"), 1);
    outside.log.clear();
    assert_eq!(outside.drive(out.extension.save_indexes()), Ok(()));
    assert!(outside.log.is_empty());
}

#[test]
fn rewind_errors() {
    let mut outside = Outside::default();
    let extension = outside.extension(false);
    let out = outside.drive(extension.rewind(&header(1, 0, 1), &header(2, 1, 2)));
    assert_eq!(out.result, Err(Error::Store(StoreError::NotFound)));
    commit_block(&mut outside, &block(1, &[], &[1], &[]), 0, 1);
    commit_block(&mut outside, &block(2, &[], &[2], &[]), 1, 2);
    for what in ["Rewind Output", "Rewind RangeProof", "Rewind Kernel"] {
        outside.failing = vec![what];
        let extension = outside.extension(false);
        let out = outside.drive(extension.rewind(&header(1, 0, 1), &header(2, 1, 2)));
        assert_eq!(out.result, Err(refusal()));
    }
    outside.failing = vec![];
    outside.bitmaps.remove(&hash(2).bytes);
    let extension = outside.extension(false);
    let out = outside.drive(extension.rewind(&header(1, 0, 1), &header(2, 1, 2)));
    assert_eq!(out.result, Err(Error::Store(StoreError::NotFound)));
    outside.headers.remove(&hash(2).bytes);
    let extension = outside.extension(false);
    let out = outside.drive(extension.rewind(&header(1, 0, 1), &header(2, 1, 2)));
    assert_eq!(out.result, Err(Error::Store(StoreError::NotFound)));
}

#[test]
fn positions_to_rewind() {
    let mut outside = Outside::default();
    outside.markers.insert(hash(1).bytes, BlockMarker { output_pos: 3, kernel_pos: 0 });
    outside.markers.insert(hash(3).bytes, BlockMarker { output_pos: 7, kernel_pos: 0 });
    outside.store_header(header(2, 1, 2));
    outside.store_header(header(3, 2, 3));
    outside.bitmaps.insert(hash(2).bytes, vec![1]);
    outside.bitmaps.insert(hash(3).bytes, vec![2, 5]);
    let from = header(1, 0, 1);
    let to = header(3, 2, 3);
    let added = outside.drive(output_pos_to_rewind(&from, &to)).unwrap();
    assert_eq!(added.to_vec(), vec![4, 5, 6, 7]);
    let removed = outside.drive(input_pos_to_rewind(&from, &to)).unwrap();
    assert_eq!(removed.to_vec(), vec![1, 2, 5]);
    let none = outside.drive(input_pos_to_rewind(&to, &to)).unwrap();
    assert!(none.is_empty());
    let middle = header(2, 1, 2);
    let lower = outside.drive(input_pos_to_rewind(&from, &middle)).unwrap();
    let upper = outside.drive(input_pos_to_rewind(&middle, &to)).unwrap();
    assert_eq!(lower.or(&upper).to_vec(), removed.to_vec());
    outside.log.clear();
    outside.drive(input_pos_to_rewind(&from, &from)).unwrap();
    assert!(outside.log.is_empty());
    let gone = outside.drive(output_pos_to_rewind(&header(9, 8, 9), &to));
    assert_eq!(gone.err(), Some(Error::Store(StoreError::NotFound)));
    let gone = outside.drive(output_pos_to_rewind(&to, &header(9, 8, 9)));
    assert_eq!(gone.err(), Some(Error::Store(StoreError::NotFound)));
}

// ---- transactions

#[test]
fn failed_transaction_leaves_no_trace() {
    let mut outside = Outside::with_outputs(&[1, 2, 3]);
    let before = outside.trees.clone();
    let extension = outside.extension(true);
    let out = outside.drive(extension.apply_raw_tx(&tx(&[1, 9], &[4, 5], &[1])));
    assert_eq!(out.result, Err(Error::AlreadySpent(commit(9))));
    assert_eq!(outside.trees, before);
    assert_eq!(outside.asked("Rewind Output 4 [5, 6, 7, 8] [1]"), 1);
    assert_eq!(outside.asked("Rewind Kernel 0 [] []"), 1);
    outside.log.clear();
    assert_eq!(outside.drive(out.extension.save_indexes()), Ok(()));
    assert!(outside.log.is_empty());
}

#[test]
fn failed_transaction_keeps_what_the_work_added() {
    let mut outside = Outside::with_outputs(&[1]);
    let extension = outside.extension(true);
    let out = outside.drive(extension.apply_raw_tx(&tx(&[], &[4], &[1])));
    assert_eq!(out.result, Ok(()));
    let before = outside.trees.clone();
    let out = outside.drive(out.extension.apply_raw_tx(&tx(&[9], &[4, 5], &[2])));
    assert_eq!(out.result, Err(Error::AlreadySpent(commit(9))));
    assert_eq!(outside.asked("PushOutput 4"), 2);
    assert_eq!(outside.trees, before);
    let out = outside.drive(out.extension.apply_raw_tx(&tx(&[4], &[], &[3])));
    assert_eq!(out.result, Ok(()));
    assert_eq!(outside.trees[0].live(), vec![1]);
    outside.log.clear();
    assert_eq!(outside.drive(out.extension.save_indexes()), Ok(()));
    assert_eq!(outside.log, vec!["SaveOutputPos 4 2"]);
}

#[test]
fn failed_transaction_keeps_kernels_at_positions_of_outputs() {
    let mut outside = Outside::with_outputs(&[1]);
    for n in 1..6 {
        outside.trees[2].push(Elem::Kernel(commit(n), vec![n]));
    }
    outside.files = outside.trees.clone();
    let before = outside.trees.clone();
    let extension = outside.extension(true);
    let out = outside.drive(extension.apply_raw_tx(&tx(&[1, 9], &[2, 3], &[7])));
    assert_eq!(out.result, Err(Error::AlreadySpent(commit(9))));
    assert_eq!(outside.asked("Rewind Output 1 [2, 3, 4] [1]"), 1);
    assert_eq!(outside.trees, before);
}

#[test]
fn failed_transaction_with_a_failing_rewind() {
    let mut outside = Outside::with_outputs(&[1]);
    outside.failing = vec!["Rewind Output"];
    let extension = outside.extension(true);
    let out = outside.drive(extension.apply_raw_tx(&tx(&[9], &[], &[])));
    assert_eq!(out.result, Err(refusal()));
}

#[test]
fn nothing_is_noted_at_position_zero() {
    let mut outside = Outside::with_outputs(&[1]);
    outside.index.insert(commit(1).bytes, 0);
    outside.failing = vec!["PushOutput"];
    let extension = outside.extension(true);
    let out = outside.drive(extension.apply_raw_tx(&tx(&[1], &[2], &[])));
    assert_eq!(out.result, Err(refusal()));
    assert_eq!(outside.asked("OutputData"), 0);
    assert_eq!(outside.asked("Rewind Output 1 [] []"), 1);
}

#[test]
fn transaction_is_applied() {
    let mut outside = Outside::with_outputs(&[1, 2]);
    let extension = outside.extension(true);
    let out = outside.drive(extension.apply_raw_tx(&tx(&[1], &[3], &[1])));
    assert_eq!(out.result, Ok(()));
    assert_eq!(outside.trees[0].live(), vec![2, 4]);
    assert_eq!(outside.trees[2].live(), vec![1]);
    assert!(out.extension.is_rollback());
    assert_eq!(outside.asked("Rewind"), 0);
}

#[test]
fn rewind_of_a_transaction() {
    let mut outside = Outside::with_outputs(&[1, 2, 3]);
    outside.trees[0].prune(2);
    let extension = outside.extension(true);
    let step = extension.rewind_raw_tx(3, 0, Bitmap::of(&[2]));
    let out = outside.drive(step);
    assert_eq!(out.result, Ok(()));
    assert_eq!(outside.trees[0].live(), vec![1, 2]);
    assert_eq!(outside.log[1], "Rewind Output 3 [4] [2]");
}

#[test]
fn rewind_to_positions() {
    let mut outside = Outside::with_outputs(&[1, 2, 3]);
    let extension = outside.extension(true);
    let step = extension.rewind_to_pos(1, 0, Bitmap::of(&[2, 3, 4]), Bitmap::of(&[]));
    let out = outside.drive(step);
    assert_eq!(out.result, Ok(()));
    assert_eq!(outside.trees[0].size(), 1);
    assert_eq!(outside.trees[1].size(), 1);
}

#[test]
fn transactions_are_selected() {
    let mut outside = Outside::with_outputs(&[1, 2, 3]);
    let extension = outside.extension(true);
    let txs = vec![tx(&[1], &[4], &[1]), tx(&[1], &[5], &[2]), tx(&[4], &[6], &[3])];
    let out = outside.drive(extension.validate_raw_txs(&txs, None));
    assert_eq!(out.result, Ok(vec![&txs[0], &txs[2]]));

    let mut outside = Outside::with_outputs(&[1, 2, 3]);
    let extension = outside.extension(true);
    let pre = tx(&[1, 2], &[7], &[9]);
    let more = vec![tx(&[7], &[5], &[2]), tx(&[4], &[6], &[3]), tx(&[3], &[8], &[4])];
    let out = outside.drive(extension.validate_raw_txs(&more, Some(&pre)));
    assert_eq!(out.result, Ok(vec![&more[0], &more[2]]));

    let mut outside = Outside::with_outputs(&[1, 2, 3]);
    let extension = outside.extension(true);
    let pre = tx(&[8], &[], &[]);
    let out = outside.drive(extension.validate_raw_txs(&txs, Some(&pre)));
    assert_eq!(out.result, Err(Error::AlreadySpent(commit(8))));
    let none = vec![];
    let out = outside.drive(out.extension.validate_raw_txs(&none, None));
    assert_eq!(out.result, Ok(vec![]));
}

#[test]
fn only_the_first_rival_is_selected() {
    let mut outside = Outside::with_outputs(&[1, 2]);
    let extension = outside.extension(true);
    let txs = vec![tx(&[1], &[4], &[1]), tx(&[1], &[5], &[2]), tx(&[1], &[6], &[3])];
    let out = outside.drive(extension.validate_raw_txs(&txs, None));
    assert_eq!(out.result, Ok(vec![&txs[0]]));
    assert_eq!(outside.trees[0].live(), vec![2, 4]);

    let mut other = Outside::with_outputs(&[1, 2]);
    let extension = other.extension(true);
    let one = other.drive(extension.apply_raw_tx(&txs[0]));
    assert_eq!(one.result, Ok(()));
    assert_eq!(outside.trees, other.trees);
    outside.log.clear();
    assert_eq!(outside.drive(out.extension.save_indexes()), Ok(()));
    assert_eq!(outside.log, vec!["SaveOutputPos 4 4"]);
}

#[test]
fn validation_can_be_repeated() {
    let txs = vec![
        tx(&[1], &[4], &[1]),
        tx(&[1, 2], &[5], &[2]),
        tx(&[4], &[6, 7], &[3]),
        tx(&[9], &[4], &[4]),
        tx(&[6, 3], &[8], &[5]),
        tx(&[3], &[9], &[6]),
    ];
    let pre = tx(&[2], &[], &[9]);
    let mut outside = Outside::with_outputs(&[1, 2, 3]);
    let extension = outside.extension(true);
    let out = outside.drive(extension.validate_raw_txs(&txs, Some(&pre)));
    let chosen = vec![tx(&[1], &[4], &[1]), tx(&[4], &[6, 7], &[3]), tx(&[6, 3], &[8], &[5])];
    assert_eq!(out.result, Ok(vec![&chosen[0], &chosen[1], &chosen[2]]));

    let mut other = Outside::with_outputs(&[1, 2, 3]);
    let extension = other.extension(true);
    let again = other.drive(extension.validate_raw_txs(&chosen, Some(&pre)));
    assert_eq!(again.result, out.result);
    assert_eq!(other.trees, outside.trees);
}

// ---- units of work

#[test]
fn successful_work_is_committed() {
    let mut outside = Outside::with_outputs(&[1]);
    let trees = outside.opened();
    let step = extending(trees, |extension| {
        let out = outside.drive(extension.apply_block(&block(1, &[1], &[2], &[1])));
        Outcome { extension: out.extension, result: out.result.map(|_| 17) }
    });
    let extended = outside.drive(step);
    assert_eq!(extended.result, Ok(17));
    let sizes = Sizes { output: 3, rproof: 3, kernel: 1 };
    assert_eq!(extended.trees.last_positions(), sizes);
    assert_eq!(outside.files, outside.trees);
    assert_eq!(outside.files[0].live(), vec![2]);
    assert_eq!(outside.index[&commit(2).bytes], 2);
    let end = outside.log.len();
    assert_eq!(
        outside.log[end - 8..],
        [
            "SaveOutputPos 2 2",
            "SaveBlockMarker 1 3 1",
            "Size Output",
            "Size RangeProof",
            "Size Kernel",
            "Sync Output",
            "Sync RangeProof",
            "Sync Kernel",
        ]
    );
}

#[test]
fn failed_work_is_abandoned() {
    let mut outside = Outside::with_outputs(&[1]);
    let before = outside.trees.clone();
    let trees = outside.opened();
    let step = extending(trees, |extension| {
        outside.drive(extension.apply_block(&block(1, &[9], &[2], &[1])))
    });
    let extended = outside.drive(step);
    assert_eq!(extended.result, Err(Error::AlreadySpent(commit(9))));
    assert_eq!(extended.trees.last_positions(), Sizes { output: 1, rproof: 1, kernel: 0 });
    assert_eq!(outside.trees, before);
    assert_eq!(outside.asked("Save"), 0);
    assert_eq!(outside.asked("Discard"), 3);
}

#[test]
fn forced_rollback() {
    let mut outside = Outside::with_outputs(&[1]);
    let before = outside.trees.clone();
    let trees = outside.opened();
    let step = extending(trees, |extension| {
        let mut extension = extension;
        assert_eq!(extension.base(), Sizes { output: 1, rproof: 1, kernel: 0 });
        extension.force_rollback();
        outside.drive(extension.apply_block(&block(1, &[1], &[2], &[1])))
    });
    let extended = outside.drive(step);
    assert_eq!(extended.result, Ok(()));
    assert_eq!(outside.trees, before);
    assert_eq!(outside.asked("Save"), 0);
    assert_eq!(outside.asked("Sync"), 0);
}

#[test]
fn readonly_work_is_discarded() {
    let mut outside = Outside::with_outputs(&[1]);
    let before = outside.trees.clone();
    let trees = outside.opened();
    let step = extending_readonly(trees, |extension| {
        assert!(extension.is_rollback());
        outside.drive(extension.apply_raw_tx(&tx(&[1], &[2], &[1])))
    });
    let extended = outside.drive(step);
    assert_eq!(extended.result, Ok(()));
    assert_eq!(outside.trees, before);
    assert_eq!(outside.files, before);
    let end = outside.log.len();
    assert_eq!(
        outside.log[end - 6..],
        [
            "Size Output",
            "Size RangeProof",
            "Size Kernel",
            "Discard Output",
            "Discard RangeProof",
            "Discard Kernel",
        ]
    );
}

#[test]
fn work_that_cannot_be_kept() {
    let mut outside = Outside::with_outputs(&[1]);
    outside.failing = vec!["SaveOutputPos"];
    let trees = outside.opened();
    let step = extending(trees, |extension| outside.drive(extension.apply_output(&output(2))));
    let extended = outside.drive(step);
    assert_eq!(extended.result, Err(Error::Store(broken())));
    assert_eq!(outside.asked("Size"), 0);
    assert_eq!(outside.asked("Discard"), 0);

    outside.trees = outside.files.clone();
    outside.failing = vec!["Sync RangeProof"];
    let trees = outside.opened();
    let step = extending(trees, |extension| outside.drive(extension.apply_output(&output(2))));
    let extended = outside.drive(step);
    assert_eq!(extended.result, Err(Error::Io("no".to_string())));
    assert_eq!(extended.trees.last_positions(), Sizes { output: 1, rproof: 1, kernel: 0 });
    assert_eq!(outside.asked("Sync"), 2);
}

#[test]
fn sizes_of_the_trees() {
    let mut outside = Outside::with_outputs(&[1, 2]);
    let extension = outside.extension(false);
    let sizes = outside.drive(extension.sizes());
    assert_eq!(sizes, Sizes { output: 3, rproof: 3, kernel: 0 });
}

// ---- the hash set

#[test]
fn trees_are_opened() {
    let mut outside = Outside::with_outputs(&[1, 2]);
    outside.files[2].push(Elem::Kernel(commit(1), vec![]));
    let tip = header(1, 0, 1);
    let trees = outside.drive(TxHashSet::open(Some(&tip))).unwrap();
    assert_eq!(trees.last_positions(), Sizes { output: 3, rproof: 3, kernel: 1 });
    assert_eq!(
        outside.log,
        vec![
            "CreateDir Output",
            "CreateDir RangeProof",
            "CreateDir Kernel",
            "CreateDir Output",
            "OpenBackend Output true",
            "CreateDir RangeProof",
            "OpenBackend RangeProof true",
            "CreateDir Kernel",
            "OpenBackend Kernel false",
        ]
    );
    assert_eq!(trees.highest_output_insertion_index(), 2);
}

#[test]
fn trees_that_cannot_be_opened() {
    for what in ["CreateDir Output", "CreateDir Kernel", "OpenBackend RangeProof"] {
        let mut outside = Outside::default();
        outside.failing = vec![what];
        let opened = outside.drive(TxHashSet::open(None));
        assert_eq!(opened.err(), Some(Error::Io("no".to_string())));
    }
    let mut outside = Outside::default();
    outside.later.insert("CreateDir Output", 1);
    let opened = outside.drive(TxHashSet::open(None));
    assert_eq!(opened.err(), Some(Error::Io("no".to_string())));
    assert_eq!(outside.log.len(), 4);
}

#[test]
fn directories() {
    assert_eq!(TXHASHSET_SUBDIR, "txhashset");
    assert_eq!(TXHASHSET_ZIP, "txhashset_snapshot.zip");
    assert_eq!(Tree::Output.subdir(), OUTPUT_SUBDIR);
    assert_eq!(Tree::RangeProof.subdir(), RANGE_PROOF_SUBDIR);
    assert_eq!(Tree::Kernel.subdir(), KERNEL_SUBDIR);
    assert_eq!(OUTPUT_SUBDIR, "output");
    assert_eq!(RANGE_PROOF_SUBDIR, "rangeproof");
    assert_eq!(KERNEL_SUBDIR, "kernel");
}

#[test]
fn unspent_outputs() {
    let mut outside = Outside::with_outputs(&[1, 2]);
    let trees = outside.opened();
    let id = OutputIdentifier { coinbase: false, commit: commit(2) };
    assert_eq!(outside.drive(trees.is_unspent(&id)), Ok(id_hash(&id, 1)));
    assert_eq!(outside.log, vec!["OutputPos", "HashAt 3 2", "IdHash 2 1"]);

    let other = OutputIdentifier { coinbase: true, commit: commit(2) };
    let mismatch = Error::TxHashSetErr(Message::HashMismatch);
    assert_eq!(outside.drive(trees.is_unspent(&other)), Err(mismatch));
    assert_eq!(Message::HashMismatch.text(), "txhashset hash mismatch");

    let unknown = OutputIdentifier { coinbase: false, commit: commit(3) };
    assert_eq!(outside.drive(trees.is_unspent(&unknown)), Err(Error::OutputNotFound));

    outside.index.insert(commit(3).bytes, 0);
    assert_eq!(outside.drive(trees.is_unspent(&unknown)), Err(Error::OutputNotFound));

    outside.files[0].prune(2);
    assert_eq!(outside.drive(trees.is_unspent(&id)), Err(Error::OutputNotFound));

    outside.failing = vec!["OutputPos"];
    let failure = Error::StoreErr(broken(), Message::UnspentCheck);
    assert_eq!(outside.drive(trees.is_unspent(&id)), Err(failure));
    assert_eq!(Message::UnspentCheck.text(), "txhashset unspent check");
}

#[test]
fn nothing_is_at_position_zero() {
    let mut outside = Outside::with_outputs(&[1]);
    outside.index.insert(commit(1).bytes, 0);
    let trees = outside.opened();
    let id = OutputIdentifier { coinbase: false, commit: commit(1) };
    let run = match trees.is_unspent(&id) {
        Step::Running(run) => run,
        Step::Done(_) => unreachable!(),
    };
    let run = match run.resume(Reply::Pos(Ok(0))) {
        Step::Running(run) => run,
        Step::Done(_) => unreachable!(),
    };
    assert_eq!(run.need(), Need::Absent);
    assert!(!admits(&run, &Reply::MaybeHash(Some(hash(1)))));
    assert!(!admits(&run, &Reply::Unit));
    assert!(admits(&run, &Reply::MaybeHash(None)));
}

#[test]
fn needs_of_replies() {
    assert!(!Need::Positive.is_met_by(&Reply::Pos(Ok(0))));
    assert!(!Need::Positive.is_met_by(&Reply::Pushed(Ok(0))));
    assert!(Need::Positive.is_met_by(&Reply::Pos(Err(StoreError::NotFound))));
    assert!(!Need::Found.is_met_by(&Reply::Pos(Err(StoreError::NotFound))));
    assert!(!Need::Present.is_met_by(&Reply::MaybeOutput(None)));
    assert!(!Need::BelowMax.is_met_by(&Reply::Size(u64::MAX)));
    let marker = BlockMarker { output_pos: u64::MAX, kernel_pos: 0 };
    assert!(!Need::BelowMax.is_met_by(&Reply::Marker(Ok(marker))));
    assert!(Need::Any.is_met_by(&Reply::Unit));
    assert_eq!(Reply::Unit.get_kind(), Kind::Unit);
    assert_eq!(Request::Size(Tree::Output).kind(), Kind::Size);
}

#[test]
fn questions() {
    let mut outside = Outside::with_outputs(&[1, 2, 3]);
    let trees = outside.opened();
    let last = outside.drive(trees.last_n_output(2));
    assert_eq!(last.len(), 2);
    assert_eq!(last[0].1.commit, commit(3));
    let proofs = outside.drive(trees.last_n_rangeproof(3));
    assert_eq!(proofs, vec![(hash(1), RangeProof { bytes: vec![1] })]);
    assert_eq!(outside.drive(trees.last_n_kernel(4)), vec![(hash(2), kernel(9))]);
    assert_eq!(outside.drive(trees.outputs_by_insertion_index(5, 6)), (0, vec![]));
    let page = outside.drive(trees.rangeproofs_by_insertion_index(3, 8));
    assert_eq!(page, (3, vec![RangeProof { bytes: vec![3] }]));
    assert_eq!(
        outside.log,
        vec![
            "LastOutputs 4 2",
            "LastProofs 4 3",
            "LastKernels 0 4",
            "OutputsFrom 4 5 6",
            "ProofsFrom 4 3 8",
        ]
    );
    let roots = outside.drive(trees.roots());
    assert_eq!(roots.0, root(Tree::Output, &outside.files[0]));
    assert_eq!(roots.1, root(Tree::RangeProof, &outside.files[1]));
    assert_eq!(roots.2, root(Tree::Kernel, &outside.files[2]));
    let marker = BlockMarker { output_pos: 3, kernel_pos: 1 };
    outside.markers.insert(hash(5).bytes, marker);
    assert_eq!(outside.drive(trees.indexes_at(&hash(5))), Ok(marker));
    let gone = outside.drive(trees.indexes_at(&hash(6)));
    assert_eq!(gone, Err(Error::Store(StoreError::NotFound)));
}

#[test]
fn merkle_proof_from_the_index() {
    let mut outside = Outside::with_outputs(&[1, 2]);
    let trees = outside.opened();
    let proof = outside.drive(trees.merkle_proof(commit(2)));
    assert_eq!(proof, Ok(MerkleProof { bytes: vec![3, 2] }));
    outside.failing = vec!["MerkleProofAt"];
    let proof = outside.drive(trees.merkle_proof(commit(2)));
    assert_eq!(proof, Err("no".to_string()));
    let run = match trees.merkle_proof(commit(8)) {
        Step::Running(run) => run,
        Step::Done(_) => unreachable!(),
    };
    assert!(!admits(&run, &Reply::Pos(Err(StoreError::NotFound))));
}

#[test]
fn compaction() {
    let mut outside = Outside::default();
    commit_block(&mut outside, &block(1, &[], &[1, 2, 3], &[1]), 0, 1);
    commit_block(&mut outside, &block(2, &[1], &[4], &[2]), 1, 2);
    commit_block(&mut outside, &block(3, &[2], &[5], &[3]), 2, 3);
    let trees = outside.opened();
    assert_eq!(outside.drive(trees.compact(2)), Ok(()));
    assert_eq!(outside.asked("HeaderByHeight 1"), 1);
    let end = outside.log.len();
    assert_eq!(
        outside.log[end - 2..],
        [
            "CheckCompact Output 4 [5, 6, 7, 8] [1, 2] true",
            "CheckCompact RangeProof 4 [5, 6, 7, 8] [1, 2] false",
        ]
    );
    let gone = outside.drive(trees.compact(70));
    assert_eq!(gone, Err(Error::Store(StoreError::NotFound)));
    assert_eq!(outside.asked("HeaderByHeight 0"), 1);
    for what in ["CheckCompact Output", "CheckCompact RangeProof"] {
        outside.failing = vec![what];
        assert_eq!(outside.drive(trees.compact(2)), Err(Error::Io("no".to_string())));
    }
    outside.failing = vec!["HeadHeader"];
    assert_eq!(outside.drive(trees.compact(2)), Err(Error::Store(broken())));
    outside.failing = vec!["BlockMarker"];
    assert_eq!(outside.drive(trees.compact(2)), Err(Error::Store(broken())));
}

#[test]
fn compaction_loses_nothing_unspent() {
    let mut outside = Outside::default();
    commit_block(&mut outside, &block(1, &[], &[1, 2, 3], &[1]), 0, 1);
    commit_block(&mut outside, &block(2, &[1], &[4], &[2]), 1, 2);
    commit_block(&mut outside, &block(3, &[2], &[5], &[3]), 2, 3);
    let trees = outside.opened();
    let roots = outside.drive(trees.roots());
    let last = trees.last_positions();
    assert_eq!(outside.drive(trees.compact(1)), Ok(()));
    assert!(!outside.index.contains_key(&commit(1).bytes));
    assert!(outside.index.contains_key(&commit(2).bytes));
    assert_eq!(outside.drive(trees.roots()), roots);
    assert_eq!(outside.opened().last_positions(), last);
    for n in [3, 4, 5] {
        let id = OutputIdentifier { coinbase: false, commit: commit(n) };
        assert!(outside.drive(trees.is_unspent(&id)).is_ok());
    }
}

#[test]
fn committed_blocks_show() {
    let mut outside = Outside::with_outputs(&[1, 2]);
    let mined = Block { outputs: vec![output(3), coinbase(4)], ..block(1, &[1], &[], &[1]) };
    let trees = outside.opened();
    let extended = {
        let step = extending(trees, |extension| {
            let out = outside.drive(extension.apply_block(&mined));
            assert_eq!(out.result, Ok(()));
            let roots = outside.drive(out.extension.roots());
            Outcome { extension: out.extension, result: Ok(roots) }
        });
        outside.drive(step)
    };
    let seen = extended.result.unwrap();
    let trees = extended.trees;
    for out in &mined.outputs {
        let id = OutputIdentifier { coinbase: out.coinbase, commit: out.commit };
        assert!(outside.drive(trees.is_unspent(&id)).is_ok());
    }
    let spent = OutputIdentifier { coinbase: false, commit: commit(1) };
    assert!(outside.index.contains_key(&commit(1).bytes));
    assert_eq!(outside.drive(trees.is_unspent(&spent)), Err(Error::OutputNotFound));

    let roots = (seen.output_root, seen.rproof_root, seen.kernel_root);
    assert_eq!(outside.drive(trees.roots()), roots);
    let reopened = outside.opened();
    assert_eq!(reopened.last_positions(), trees.last_positions());
    assert_eq!(outside.drive(reopened.roots()), roots);
}

#[test]
fn pages_pair_up() {
    let mut outside = Outside::with_outputs(&[1, 2, 3, 4, 5]);
    for tree in [0, 1] {
        outside.files[tree].prune(4);
    }
    let trees = outside.opened();
    let outputs = outside.drive(trees.outputs_by_insertion_index(2, 3));
    let proofs = outside.drive(trees.rangeproofs_by_insertion_index(2, 3));
    assert_eq!((outputs.0, proofs.0), (5, 5));
    let commits: Vec<u8> = outputs.1.iter().map(|id| id.commit.bytes[0]).collect();
    let bodies: Vec<u8> = proofs.1.iter().map(|proof| proof.bytes[0]).collect();
    assert_eq!(commits, vec![2, 4, 5]);
    assert_eq!(bodies, commits);
}

// ---- extensions

#[test]
fn merkle_proof_as_of_a_block() {
    let mut outside = Outside::default();
    commit_block(&mut outside, &block(1, &[], &[1, 2], &[1]), 0, 1);
    commit_block(&mut outside, &block(2, &[1], &[3], &[2]), 1, 2);
    let id = OutputIdentifier { coinbase: false, commit: commit(1) };
    let extension = outside.extension(true);
    let out = outside.drive(extension.merkle_proof(&id, &header(1, 0, 1)));
    assert_eq!(out.result, Ok(MerkleProof { bytes: vec![1, 3] }));
    assert_eq!(outside.trees[0].live(), vec![1, 2]);

    outside.trees = outside.files.clone();
    let unknown = OutputIdentifier { coinbase: false, commit: commit(9) };
    let out = outside.drive(out.extension.merkle_proof(&unknown, &header(1, 0, 1)));
    assert_eq!(out.result, Err(Error::Store(StoreError::NotFound)));
    outside.trees = outside.files.clone();
    outside.failing = vec!["MerkleProof"];
    let out = outside.drive(out.extension.merkle_proof(&id, &header(1, 0, 1)));
    assert_eq!(out.result, Err(refusal()));
    outside.failing = vec!["HeadHeader"];
    let out = outside.drive(out.extension.merkle_proof(&id, &header(1, 0, 1)));
    assert_eq!(out.result, Err(Error::Store(broken())));
    outside.failing = vec![];
    let out = outside.drive(out.extension.merkle_proof(&id, &header(8, 0, 1)));
    assert_eq!(out.result, Err(Error::Store(StoreError::NotFound)));
}

#[test]
fn merkle_proof_of_an_output_of_the_work() {
    let mut outside = Outside::default();
    commit_block(&mut outside, &block(1, &[], &[1], &[1]), 0, 1);
    let extension = outside.extension(false);
    let out = outside.drive(extension.apply_block(&block(2, &[], &[2], &[])));
    outside.markers.insert(hash(2).bytes, BlockMarker { output_pos: 3, kernel_pos: 1 });
    outside.bitmaps.insert(hash(2).bytes, vec![]);
    outside.store_header(header(2, 1, 2));
    let id = OutputIdentifier { coinbase: false, commit: commit(2) };
    let out = outside.drive(out.extension.merkle_proof(&id, &header(2, 1, 2)));
    assert_eq!(out.result, Ok(MerkleProof { bytes: vec![2, 3] }));
    assert_eq!(outside.asked("OutputPos"), 1);
}

#[test]
fn maturity_of_coinbase_outputs() {
    let mut outside = Outside::with_outputs(&[1, 2]);
    outside.store_header(header(4, 3, 4));
    let extension = outside.extension(false);
    let spend = |n: u8| Input { coinbase: true, block_hash: hash(4), ..input(n) };
    let inputs = vec![input(9), spend(1), input(8), spend(2)];
    let verdict = outside.drive(extension.verify_coinbase_maturity(&inputs, 77));
    assert_eq!(verdict, Ok(()));
    assert_eq!(outside.asked("VerifyMaturity 77"), 2);
    assert_eq!(outside.log.len(), 8);

    let inputs = vec![spend(3)];
    let verdict = outside.drive(extension.verify_coinbase_maturity(&inputs, 77));
    assert_eq!(verdict, Err(Error::Store(StoreError::NotFound)));
    outside.trees[0].prune(1);
    let inputs = vec![spend(1)];
    let verdict = outside.drive(extension.verify_coinbase_maturity(&inputs, 77));
    assert_eq!(verdict, Err(Error::OutputNotFound));
    outside.failing = vec!["VerifyMaturity"];
    let inputs = vec![spend(2)];
    let verdict = outside.drive(extension.verify_coinbase_maturity(&inputs, 77));
    assert_eq!(verdict, Err(Error::Rejected("no".to_string())));
    let inputs = vec![Input { coinbase: true, ..input(2) }];
    let verdict = outside.drive(extension.verify_coinbase_maturity(&inputs, 77));
    assert_eq!(verdict, Err(Error::Store(StoreError::NotFound)));
    let inputs = vec![input(2)];
    let verdict = outside.drive(extension.verify_coinbase_maturity(&inputs, 77));
    assert_eq!(verdict, Ok(()));
}

#[test]
fn maturity_of_an_output_of_the_work() {
    let mut outside = Outside::default();
    outside.store_header(header(4, 3, 4));
    let extension = outside.extension(false);
    let out = outside.drive(extension.apply_output(&coinbase(5)));
    outside.log.clear();
    let inputs = vec![Input { coinbase: true, block_hash: hash(4), ..input(5) }];
    let verdict = outside.drive(out.extension.verify_coinbase_maturity(&inputs, 9));
    assert_eq!(verdict, Ok(()));
    assert_eq!(outside.log, vec!["BlockHeader", "OutputHash 1", "VerifyMaturity 9"]);
}

#[test]
fn roots_against_a_header() {
    let mut outside = Outside::with_outputs(&[1, 2]);
    let extension = outside.extension(false);
    let good = header_matching(&outside, 5);
    let roots = outside.drive(extension.roots());
    assert_eq!(
        roots,
        TxHashSetRoots {
            output_root: good.output_root,
            rproof_root: good.range_proof_root,
            kernel_root: good.kernel_root,
        }
    );
    assert_eq!(outside.drive(extension.validate_roots(&good)), Ok(()));
    let bad = BlockHeader { output_root: hash(1), ..good };
    assert_eq!(outside.drive(extension.validate_roots(&bad)), Err(Error::InvalidRoot));
    let bad = BlockHeader { range_proof_root: hash(1), ..good };
    assert_eq!(outside.drive(extension.validate_roots(&bad)), Err(Error::InvalidRoot));
    let bad = BlockHeader { kernel_root: hash(1), ..good };
    assert_eq!(outside.drive(extension.validate_roots(&bad)), Err(Error::InvalidRoot));
    outside.log.clear();
    let genesis = BlockHeader { height: 0, ..bad };
    assert_eq!(outside.drive(extension.validate_roots(&genesis)), Ok(()));
    assert!(outside.log.is_empty());
}

/// Outputs with one pruned, and kernels.
fn validated() -> Outside {
    let mut outside = Outside::with_outputs(&[1, 2, 3]);
    outside.trees[0].prune(2);
    outside.trees[1].prune(2);
    for n in 1..13 {
        outside.trees[2].push(Elem::Kernel(commit(n), vec![n]));
    }
    outside.files = outside.trees.clone();
    outside
}

#[test]
fn state_is_validated() {
    let mut outside = validated();
    let good = header_matching(&outside, 5);
    let extension = outside.extension(false);
    let sums = outside.drive(extension.validate(&good, false));
    assert_eq!(sums, Ok((commit(2), commit(12))));
    assert_eq!(outside.log[..3], ["Validate Output", "Validate RangeProof", "Validate Kernel"]);
    assert_eq!(outside.asked("KernelSums -60 2 12"), 1);
    assert_eq!(outside.asked("VerifyKernel"), 12);
    assert_eq!(outside.asked("VerifyProof"), 2);
    assert_eq!(outside.asked("Report 12 12 0 0"), 1);
    assert_eq!(outside.asked("Report"), 1);

    outside.log.clear();
    let sums = outside.drive(extension.validate(&good, true));
    assert_eq!(sums, Ok((commit(2), commit(12))));
    assert_eq!(outside.asked("VerifyProof"), 0);
}

#[test]
fn genesis_is_validated() {
    let mut outside = Outside::default();
    let extension = outside.extension(false);
    let sums = outside.drive(extension.validate(&header(1, 0, 0), false));
    assert_eq!(sums, Ok((commit(0), commit(0))));
    assert_eq!(outside.log.len(), 4);
    outside.failing = vec!["Validate Kernel"];
    let sums = outside.drive(extension.validate(&header(1, 0, 0), false));
    assert_eq!(sums, Err(Error::InvalidTxHashSet("no".to_string())));
}

#[test]
fn invalid_states() {
    let mut outside = validated();
    let good = header_matching(&outside, 5);
    let extension = outside.extension(false);
    let rejected = Err(Error::Rejected("no".to_string()));
    let bad = BlockHeader { kernel_root: hash(1), ..good };
    assert_eq!(outside.drive(extension.validate(&bad, false)), Err(Error::InvalidRoot));
    outside.failing = vec!["KernelSums"];
    assert_eq!(outside.drive(extension.validate(&good, false)), rejected);
    outside.failing = vec!["VerifyKernel 12"];
    assert_eq!(outside.drive(extension.validate(&good, false)), rejected);
    outside.failing = vec!["VerifyProof 3"];
    assert_eq!(outside.drive(extension.validate(&good, false)), rejected);
    outside.failing = vec!["RproofData"];
    let sums = outside.drive(extension.validate(&good, false));
    assert_eq!(sums, Err(Error::OutputNotFound));
    outside.failing = vec!["Validate Output"];
    let sums = outside.drive(extension.validate(&good, false));
    assert_eq!(sums, Err(Error::InvalidTxHashSet("no".to_string())));
    assert_eq!(outside.drive(extension.validate_mmrs()).is_err(), true);
}

#[test]
fn range_proofs_are_reported() {
    let many: Vec<u8> = (1..24).collect();
    let mut outside = Outside::with_outputs(&many);
    let extension = outside.extension(false);
    assert_eq!(outside.drive(extension.verify_rangeproofs()), Ok(()));
    assert_eq!(outside.asked("VerifyProof"), 23);
    assert_eq!(outside.asked("Report 0 0 12 23"), 1);
    assert_eq!(outside.asked("Report 0 0 22 23"), 1);
    assert_eq!(outside.asked("Report"), 2);
    assert_eq!(outside.drive(extension.verify_kernel_signatures()), Ok(()));
}

#[test]
fn commitments_of_the_leaves() {
    let mut outside = validated();
    let extension = outside.extension(false);
    assert_eq!(extension.inputs_committed(), vec![]);
    assert_eq!(outside.drive(extension.outputs_committed()), vec![commit(1), commit(3)]);
    let excesses: Vec<Commitment> = (1..13).map(commit).collect();
    assert_eq!(outside.drive(extension.kernels_committed()), excesses);
}

/// The commitments of the unspent outputs, in no particular order.
fn unspent(outside: &mut Outside, extension: &Extension) -> Vec<u8> {
    let commits = outside.drive(extension.outputs_committed());
    let mut found: Vec<u8> = commits.iter().map(|commit| commit.bytes[0]).collect();
    found.sort();
    found
}

#[test]
fn block_changes_commitments() {
    let mut outside = validated();
    let extension = outside.extension(false);
    let mut excesses = outside.drive(extension.kernels_committed());
    assert_eq!(unspent(&mut outside, &extension), vec![1, 3]);
    let block = Block { outputs: vec![output(20), coinbase(21)], ..block(9, &[3], &[], &[31, 30]) };
    let out = outside.drive(extension.apply_block(&block));
    assert_eq!(out.result, Ok(()));
    assert_eq!(unspent(&mut outside, &out.extension), vec![1, 20, 21]);
    excesses.extend([commit(31), commit(30)]);
    assert_eq!(outside.drive(out.extension.kernels_committed()), excesses);
}

#[test]
fn transaction_changes_commitments() {
    let mut outside = validated();
    let extension = outside.extension(true);
    let mut excesses = outside.drive(extension.kernels_committed());
    let out = outside.drive(extension.apply_raw_tx(&tx(&[1, 20], &[20, 21, 3], &[31, 30])));
    assert_eq!(out.result, Ok(()));
    assert_eq!(unspent(&mut outside, &out.extension), vec![3, 3, 21]);
    excesses.extend([commit(31), commit(30)]);
    assert_eq!(outside.drive(out.extension.kernels_committed()), excesses);
}

#[test]
fn kernels_append_their_excess() {
    let mut outside = validated();
    let extension = outside.extension(false);
    let outputs = outside.drive(extension.outputs_committed());
    let mut excesses = outside.drive(extension.kernels_committed());
    let sizes = outside.drive(extension.sizes());
    let out = outside.drive(extension.apply_kernel(&kernel(77)));
    assert_eq!(out.result, Ok(()));
    excesses.push(commit(77));
    assert_eq!(outside.drive(out.extension.kernels_committed()), excesses);
    assert_eq!(outside.drive(out.extension.outputs_committed()), outputs);
    let now = outside.drive(out.extension.sizes());
    assert_eq!((now.output, now.rproof), (sizes.output, sizes.rproof));
}

#[test]
fn index_is_rebuilt() {
    let mut outside = validated();
    outside.index.clear();
    let extension = outside.extension(false);
    assert_eq!(outside.drive(extension.rebuild_index()), Ok(()));
    assert_eq!(outside.index.len(), 2);
    assert_eq!(outside.index[&commit(1).bytes], 1);
    assert_eq!(outside.index[&commit(3).bytes], 4);
    outside.failing = vec!["SaveOutputPos 3"];
    assert_eq!(outside.drive(extension.rebuild_index()), Err(Error::Store(broken())));
}

#[test]
fn sums_are_saved() {
    let mut outside = Outside::default();
    let extension = outside.extension(false);
    let step = extension.save_latest_block_sums(&header(3, 2, 1), commit(1), commit(2));
    assert_eq!(outside.drive(step), Ok(()));
    let sums = BlockSums { output_sum: commit(1), kernel_sum: commit(2) };
    assert_eq!(outside.sums[&hash(3).bytes], sums);
    outside.failing = vec!["SaveBlockSums"];
    let step = extension.save_latest_block_sums(&header(3, 2, 1), commit(1), commit(2));
    assert_eq!(outside.drive(step), Err(Error::Store(broken())));
}

#[test]
fn snapshots_and_dumps() {
    let mut outside = Outside::default();
    let extension = outside.extension(false);
    let at = header(3, 2, 1);
    assert_eq!(outside.drive(extension.snapshot(&at)), Ok(()));
    assert_eq!(outside.drive(extension.dump_output_pmmr()), Ok(()));
    assert_eq!(outside.drive(extension.dump(true)), Ok(()));
    assert_eq!(outside.drive(extension.dump(false)), Ok(()));
    assert_eq!(
        outside.log,
        vec![
            "Snapshot Output 3",
            "Snapshot RangeProof 3",
            "DumpFromFile false",
            "DumpStats",
            "Dump Output true",
            "Dump Output false",
            "Dump RangeProof false",
            "Dump Kernel false",
        ]
    );
    outside.failing = vec!["Snapshot RangeProof"];
    assert_eq!(outside.drive(extension.snapshot(&at)), Err(Error::Other("no".to_string())));
}
