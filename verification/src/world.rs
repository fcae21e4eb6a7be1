//! A model of what answers the requests, and what it means for a dialogue to
//! keep a promise in it.
//!
//! Nothing here is executed. The laws of the library are about dialogues in
//! which every reply is one that [`World::allows`]: the trees count positions
//! from one, append, prune and rewind, and the chain store gives back what it
//! has.
use crate::bitmap::{bitmap_values, low_bits};
use crate::pmmr::leaf_at;
use crate::program::{bind, Call, Program, Reply, Trail};
use crate::types::{
    BlockHeader, BlockMarker, Commitment, Error, Hash256, OutputIdentifier, RangeProof, Tree,
    TxKernel,
};
use vstd::prelude::*;

verus! {

/// An element of a tree.
pub ghost enum Element {
    Output(OutputIdentifier),
    Proof(RangeProof),
    Kernel(TxKernel),
}

/// Where a tree ends whose last leaf is at `pos` or before it: after the parents
/// that are complete then.
pub open spec fn completes(pos: u64, end: u64) -> bool {
    &&& pos <= end
    &&& forall|parent: u64| pos < parent <= end ==> !#[trigger] leaf_at(parent as nat)
    &&& leaf_at((end + 1) as nat)
}

/// A complete tree ends where it is.
pub proof fn lemma_complete(pos: u64, end: u64)
    requires
        completes(pos, end),
        leaf_at((pos + 1) as nat),
    ensures
        end == pos,
{
    if pos < end {
        let parent = (pos + 1) as u64;
        assert(!leaf_at(parent as nat));
    }
}

/// A tree: how many positions it has, what elements were put there, and which
/// of them were not pruned.
#[verifier::ext_equal]
pub ghost struct TreeState {
    pub size: u64,
    pub elements: Map<u64, Element>,
    pub live: Set<u64>,
}

impl TreeState {
    /// The tree is complete: the next position is that of a leaf. Elements are
    /// at leaves within the tree, only they can be unpruned, and every position
    /// has a form of its own in a bitmap.
    pub open spec fn sound(self) -> bool {
        &&& self.size <= u32::MAX
        &&& leaf_at((self.size + 1) as nat)
        &&& forall|pos: u64| #[trigger]
            self.elements.contains_key(pos) ==> 1 <= pos <= self.size && leaf_at(pos as nat)
        &&& forall|pos: u64| #[trigger]
            self.live.contains(pos) ==> self.elements.contains_key(pos)
    }

    /// The element at a position, unless it was pruned.
    pub open spec fn element(self, pos: u64) -> Option<Element> {
        if self.live.contains(pos) {
            self.elements.get(pos)
        } else {
            None
        }
    }

    /// After an element was appended, at the position after the last one. The
    /// positions of the parents that it completes follow it.
    pub open spec fn pushed(self, pos: u64, element: Element, after: TreeState) -> bool {
        &&& pos == self.size + 1
        &&& completes(pos, after.size)
        &&& after.elements == self.elements.insert(pos, element)
        &&& after.live == self.live.insert(pos)
    }

    /// After an append failed. Something may be left over, beyond what there
    /// was.
    pub open spec fn push_failed(self, after: TreeState) -> bool {
        &&& after.size >= self.size
        &&& forall|pos: u64|
            pos <= self.size ==> (#[trigger] after.live.contains(pos) <==> self.live.contains(pos))
        &&& forall|pos: u64|
            pos <= self.size ==> #[trigger] after.elements.get(pos) == self.elements.get(pos)
    }

    /// After the element at a position was pruned.
    pub open spec fn without(self, pos: u64) -> TreeState {
        TreeState { live: self.live.remove(pos), ..self }
    }

    /// After a rewind: the tree ends at `end`, the positions in `added` hold no
    /// element any more, and those in `removed` do.
    pub open spec fn rewound(self, end: u64, added: Set<u32>, removed: Set<u32>) -> TreeState {
        TreeState {
            size: end,
            elements: up_to_position(self.elements, end),
            live: Set::new(
                |pos: u64|
                    1 <= pos <= end && self.elements.contains_key(pos) && ((self.live.contains(pos)
                        && !added.contains(low_bits(pos))) || removed.contains(low_bits(pos))),
            ),
        }
    }
}

/// The elements at the positions up to `end`.
pub open spec fn up_to_position(elements: Map<u64, Element>, end: u64) -> Map<u64, Element> {
    Map::new(
        |pos: u64| elements.contains_key(pos) && pos <= end,
        |pos: u64| elements[pos],
    )
}

/// A tree came from another by appending elements.
pub open spec fn extends(before: TreeState, now: TreeState) -> bool {
    &&& before.sound()
    &&& before.size <= now.size
    &&& forall|pos: u64|
        pos <= before.size ==> #[trigger] now.elements.get(pos) == before.elements.get(pos)
}

/// A small position is its own form in a bitmap.
pub proof fn lemma_small(pos: u64)
    requires
        pos <= u32::MAX,
    ensures
        low_bits(pos) == pos,
{
}

/// The elements that were there come back with a rewind.
pub proof fn lemma_elements_back(before: TreeState, now: TreeState)
    requires
        extends(before, now),
    ensures
        up_to_position(now.elements, before.size) == before.elements,
{
    let after = up_to_position(now.elements, before.size);
    assert forall|pos: u64| #[trigger] after.contains_key(pos) <==> before.elements.contains_key(
        pos,
    ) by {
        assert(pos <= before.size ==> now.elements.get(pos) == before.elements.get(pos));
    }
    assert forall|pos: u64| #[trigger] before.elements.contains_key(pos) implies after[pos]
        == before.elements[pos] by {
        assert(now.elements.get(pos) == before.elements.get(pos));
    }
    assert(after =~= before.elements);
}

/// An append leaves what was there.
pub proof fn lemma_pushed(tree: TreeState, pos: u64, element: Element, after: TreeState)
    requires
        tree.pushed(pos, element, after),
    ensures
        tree.push_failed(after),
{
    assert forall|at: u64| at <= tree.size implies #[trigger] after.elements.get(at)
        == tree.elements.get(at) by {
        assert(at != pos);
    }
}

/// The three trees.
#[verifier::ext_equal]
pub ghost struct Trees {
    pub output: TreeState,
    pub rproof: TreeState,
    pub kernel: TreeState,
}

impl Trees {
    /// One of the trees.
    pub open spec fn get(self, tree: Tree) -> TreeState {
        match tree {
            Tree::Output => self.output,
            Tree::RangeProof => self.rproof,
            Tree::Kernel => self.kernel,
        }
    }

    /// With one of the trees replaced.
    pub open spec fn set(self, tree: Tree, state: TreeState) -> Trees {
        match tree {
            Tree::Output => Trees { output: state, ..self },
            Tree::RangeProof => Trees { rproof: state, ..self },
            Tree::Kernel => Trees { kernel: state, ..self },
        }
    }

    /// All three are sound, and each has elements of its own kind.
    pub open spec fn sound(self) -> bool {
        &&& self.output.sound() && self.rproof.sound() && self.kernel.sound()
        &&& forall|pos: u64| #[trigger]
            self.output.elements.contains_key(pos) ==> self.output.elements[pos] is Output
        &&& forall|pos: u64| #[trigger]
            self.rproof.elements.contains_key(pos) ==> self.rproof.elements[pos] is Proof
        &&& forall|pos: u64| #[trigger]
            self.kernel.elements.contains_key(pos) ==> self.kernel.elements[pos] is Kernel
    }
}

/// A block as the chain store has it: the block before it, and the positions of
/// the outputs that it spends.
pub ghost struct Link {
    pub previous: Hash256,
    pub spent: Set<u32>,
}

/// All that answers the requests.
#[verifier::ext_equal]
pub ghost struct World {
    /// The trees as the unit of work has left them.
    pub trees: Trees,
    /// The trees as they are in their files.
    pub files: Trees,
    /// The index of the chain store.
    pub index: Map<Commitment, u64>,
    /// Whether the index never fails to find what it has.
    pub reliable: bool,
    /// The block markers of the chain store.
    pub markers: Map<Hash256, BlockMarker>,
    /// The blocks of the chain store.
    pub chain: Map<Hash256, Link>,
    /// The blocks of the chain by height.
    pub heights: Map<u64, Hash256>,
    /// The header of the head of the chain.
    pub head: BlockHeader,
    /// The hash of an output together with an index.
    pub hash_of: spec_fn(OutputIdentifier, u64) -> Hash256,
    /// The positions that are read from an index of insertion on, up to a number
    /// of them, and the index of the last one, in a tree with a size and with
    /// elements at given positions.
    pub page_of: spec_fn(u64, Set<u64>, u64, u64) -> (u64, Seq<u64>),
    /// The root that a tree has in a state.
    pub root_of: spec_fn(Tree, TreeState) -> Hash256,
    /// Whether a tree failed to rewind or to write its files.
    pub broken: bool,
    /// The requests so far.
    pub log: Seq<Call>,
}

impl World {
    /// Everything but the log and the trees of the unit of work is as before,
    /// and the log has the request.
    pub open spec fn logs(self, call: Call, after: World) -> bool {
        after == (World { trees: after.trees, log: self.log.push(call), ..self })
    }

    /// Nothing but the log changed.
    pub open spec fn keeps(self, call: Call, after: World) -> bool {
        after == (World { log: self.log.push(call), ..self })
    }

    /// What may happen when an element is appended to a tree.
    pub open spec fn push(
        self,
        tree: Tree,
        element: Element,
        reply: Reply,
        after: World,
    ) -> bool {
        let now = self.trees.get(tree);
        let next = after.trees.get(tree);
        &&& after.trees == self.trees.set(tree, next)
        &&& match reply->Pushed_0 {
            Ok(pos) => now.pushed(pos, element, next),
            Err(_) => now.push_failed(next),
        }
    }

    /// What may happen when a position of a tree is pruned. A leaf that was
    /// pruned before is no failure.
    pub open spec fn prune(self, tree: Tree, pos: u64, reply: Reply, after: World) -> bool {
        let now = self.trees.get(tree);
        match reply->Pruned_0 {
            Ok(pruned) => pruned == now.live.contains(pos) && after.trees == self.trees.set(
                tree,
                now.without(pos),
            ),
            Err(_) => {
                &&& leaf_at(pos as nat) ==> now.live.contains(pos)
                &&& after.trees == self.trees || after.trees == self.trees.set(
                    tree,
                    now.without(pos),
                )
            },
        }
    }

    /// The hash of the output at a position of an output tree, unless it was
    /// pruned.
    pub open spec fn hash_in(self, tree: TreeState, pos: u64) -> Option<Hash256> {
        match tree.element(pos) {
            Some(Element::Output(id)) => Some((self.hash_of)(id, (pos - 1) as u64)),
            _ => None,
        }
    }

    /// What compacting the files may do to the index: it loses entries of
    /// outputs that are spent.
    pub open spec fn cleans_index(self, after: World) -> bool {
        &&& after.index.submap_of(self.index)
        &&& forall|commit: Commitment| #[trigger]
            self.index.contains_key(commit) && self.files.output.live.contains(self.index[commit])
                ==> after.index.contains_key(commit)
    }

    /// The elements at the positions of a page.
    pub open spec fn page(self, tree: TreeState, start: u64, max: u64) -> (u64, Seq<u64>) {
        (self.page_of)(tree.size, tree.live, start, max)
    }

    /// The replies that a request may get, and what the world is after each.
    pub open spec fn allows(self, call: Call, reply: Reply, after: World) -> bool {
        &&& reply.kind() == call.kind()
        &&& after.trees.sound()
        &&& match call {
            Call::OutputPos(commit) => {
                &&& self.keeps(call, after)
                &&& match reply->Pos_0 {
                    Ok(pos) => self.index.contains_key(commit) && self.index[commit] == pos,
                    Err(_) => self.reliable ==> !self.index.contains_key(commit),
                }
            },
            Call::BlockMarker(block) => {
                &&& self.keeps(call, after)
                &&& reply->Marker_0 matches Ok(marker) ==> self.markers.contains_key(block)
                    && self.markers[block] == marker
            },
            Call::HeadHeader => {
                &&& self.keeps(call, after)
                &&& reply->Header_0 matches Ok(header) ==> header == self.head
            },
            Call::HeaderByHeight(height) => {
                &&& self.keeps(call, after)
                &&& reply->Header_0 matches Ok(header) ==> self.heights.contains_key(height)
                    && self.heights[height] == header.hash
            },
            Call::BlockHeader(block) => {
                &&& self.keeps(call, after)
                &&& reply->Header_0 matches Ok(header) ==> self.chain.contains_key(block)
                    && self.chain[block].previous == header.previous
            },
            Call::InputBitmap(block) => {
                &&& self.keeps(call, after)
                &&& reply->Bitmap_0 matches Ok(bitmap) ==> self.chain.contains_key(block)
                    && self.chain[block].spent == bitmap_values(bitmap)
            },
            Call::SaveOutputPos(commit, pos) => match reply->Stored_0 {
                Ok(_) => after == (World {
                    index: self.index.insert(commit, pos),
                    log: self.log.push(call),
                    ..self
                }),
                Err(_) => self.keeps(call, after),
            },
            Call::SaveBlockMarker(block, marker) => match reply->Stored_0 {
                Ok(_) => after == (World {
                    markers: self.markers.insert(block, marker),
                    log: self.log.push(call),
                    ..self
                }),
                Err(_) => self.keeps(call, after),
            },
            Call::Size(tree) => self.keeps(call, after) && reply->Size_0 == self.trees.get(
                tree,
            ).size,
            Call::OutputData(pos) => self.keeps(call, after) && reply->MaybeOutput_0 == (
            match self.trees.output.element(pos) {
                Some(Element::Output(id)) => Some(id),
                _ => None,
            }),
            Call::RproofData(pos) => self.keeps(call, after) && reply->MaybeProof_0 == (
            match self.trees.rproof.element(pos) {
                Some(Element::Proof(proof)) => Some(proof),
                _ => None,
            }),
            Call::KernelData(pos) => self.keeps(call, after) && reply->MaybeKernel_0 == (
            match self.trees.kernel.element(pos) {
                Some(Element::Kernel(kernel)) => Some(kernel),
                _ => None,
            }),
            Call::OutputHash(pos) => self.keeps(call, after) && (leaf_at(pos as nat)
                ==> reply->MaybeHash_0 == self.hash_in(self.trees.output, pos)),
            Call::HashAt(last, pos) => self.keeps(call, after) && (leaf_at(pos as nat) && last
                == self.files.output.size ==> reply->MaybeHash_0 == self.hash_in(
                self.files.output,
                pos,
            )),
            Call::IdHash(id, index) => self.keeps(call, after) && reply->Digest_0 == (
            self.hash_of)(id, index),
            Call::RootAt(tree, last) => self.keeps(call, after) && (last == self.files.get(
                tree,
            ).size ==> reply->Digest_0 == (self.root_of)(tree, self.files.get(tree))),
            Call::OpenBackend(tree, header) => self.keeps(call, after) && (header is None ==> (
            reply->Opened_0 matches Ok(size) ==> size == self.files.get(tree).size)),
            Call::CheckCompact(_, _, _, _, clean) => {
                &&& after == (World { index: after.index, log: self.log.push(call), ..self })
                &&& if clean {
                    self.cleans_index(after)
                } else {
                    after.index == self.index
                }
            },
            Call::OutputsFrom(last, start, max) => self.keeps(call, after) && (last
                == self.files.output.size ==> {
                let page = self.page(self.files.output, start, max);
                let (index, ids) = reply->OutputPage_0;
                &&& index == page.0
                &&& ids@.len() == page.1.len()
                &&& forall|k: int|
                    0 <= k < ids@.len() ==> self.files.output.element(page.1[k]) == Some(
                        Element::Output(#[trigger] ids@[k]),
                    )
            }),
            Call::ProofsFrom(last, start, max) => self.keeps(call, after) && (last
                == self.files.rproof.size ==> {
                let page = self.page(self.files.rproof, start, max);
                let (index, proofs) = reply->ProofPage_0;
                &&& index == page.0
                &&& proofs@.len() == page.1.len()
                &&& forall|k: int|
                    0 <= k < proofs@.len() ==> self.files.rproof.element(page.1[k]) == Some(
                        Element::Proof(#[trigger] proofs@[k]),
                    )
            }),
            Call::Root(tree) => self.keeps(call, after) && reply->Digest_0 == (self.root_of)(
                tree,
                self.trees.get(tree),
            ),
            Call::PushOutput(id) => self.logs(call, after) && self.push(
                Tree::Output,
                Element::Output(id),
                reply,
                after,
            ),
            Call::PushRproof(proof) => self.logs(call, after) && self.push(
                Tree::RangeProof,
                Element::Proof(proof),
                reply,
                after,
            ),
            Call::PushKernel(kernel) => self.logs(call, after) && self.push(
                Tree::Kernel,
                Element::Kernel(kernel),
                reply,
                after,
            ),
            Call::Prune(tree, pos) => self.logs(call, after) && self.prune(tree, pos, reply, after),
            Call::Rewind(tree, pos, added, removed) => match reply->Done_0 {
                Ok(_) => {
                    let end = after.trees.get(tree).size;
                    &&& self.logs(call, after)
                    &&& completes(pos, end)
                    &&& after.trees == self.trees.set(
                        tree,
                        self.trees.get(tree).rewound(end, added, removed),
                    )
                },
                Err(_) => after == (World {
                    trees: after.trees,
                    log: self.log.push(call),
                    broken: true,
                    ..self
                }),
            },
            Call::Discard(tree) => {
                &&& self.logs(call, after)
                &&& after.trees == self.trees.set(tree, self.files.get(tree))
            },
            Call::Sync(tree) => match reply->Done_0 {
                Ok(_) => after == (World {
                    files: self.files.set(tree, self.trees.get(tree)),
                    log: self.log.push(call),
                    ..self
                }),
                Err(_) => after == (World {
                    files: after.files,
                    log: self.log.push(call),
                    broken: true,
                    ..self
                }),
            },
            _ => self.keeps(call, after),
        }
    }
}

/// The positions spent by the blocks from `current` back to `target`, which is
/// not among them and is reached after `steps` blocks.
pub open spec fn path_spent(
    chain: Map<Hash256, Link>,
    current: Hash256,
    target: Hash256,
    steps: nat,
) -> Option<Set<u32>>
    decreases steps,
{
    if current == target {
        Some(Set::empty())
    } else if steps == 0 || !chain.contains_key(current) {
        None
    } else {
        match path_spent(chain, chain[current].previous, target, (steps - 1) as nat) {
            Some(spent) => Some(chain[current].spent.union(spent)),
            None => None,
        }
    }
}

/// Whether a walk back from `current` to `target` finds the positions `spent`.
pub open spec fn leads(
    chain: Map<Hash256, Link>,
    current: Hash256,
    target: Hash256,
    spent: Set<u32>,
) -> bool {
    exists|steps: nat| #[trigger] path_spent(chain, current, target, steps) == Some(spent)
}

/// Whether a walk may find the positions `all` in the end, when `previous` is
/// the block before the one that it looks at.
pub open spec fn collects(
    chain: Map<Hash256, Link>,
    trail: Trail,
    previous: Hash256,
    all: Set<u32>,
) -> bool {
    &&& chain.contains_key(trail.current)
    &&& exists|rest: Set<u32>| #[trigger]
        leads(chain, previous, trail.target, rest) && all == trail.spent.union(
            chain[trail.current].spent,
        ).union(rest)
}

/// The results that a walk may have from where it is.
pub open spec fn may_find(
    chain: Map<Hash256, Link>,
    trail: Trail,
    found: Result<Set<u32>, Error>,
) -> bool {
    match found {
        Ok(all) => match trail.previous {
            None => collects(chain, trail, chain[trail.current].previous, all),
            Some(previous) => collects(chain, trail, previous, all),
        },
        Err(_) => true,
    }
}

/// Whether a dialogue keeps a promise: however the world replies, if the
/// dialogue ends, then `post` holds of its result and of the world.
pub open spec fn keeps<T>(
    program: Program<T>,
    world: World,
    post: spec_fn(T, World) -> bool,
) -> bool
    decreases program,
{
    match program {
        Program::Ret(result) => post(result, world),
        Program::Ask(call, need, rest) => forall|reply: Reply, after: World| #[trigger]
            world.allows(call, reply, after) && need.met_by(reply) ==> keeps(
                rest(reply),
                after,
                post,
            ),
        Program::Walk(trail, rest) => forall|found: Result<Set<u32>, Error>, after: World|
            #![trigger may_find(world.chain, trail, found), rest(found), same_but_log(world, after)]
            may_find(world.chain, trail, found) && same_but_log(world, after) ==> keeps(
                rest(found),
                after,
                post,
            ),
    }
}

/// Nothing but the log changed, which only grew.
pub open spec fn same_but_log(world: World, after: World) -> bool {
    &&& after == (World { log: after.log, ..world })
    &&& world.log.len() <= after.log.len()
    &&& after.log.take(world.log.len() as int) == world.log
}

/// One block more on a path.
pub proof fn lemma_leads_step(
    chain: Map<Hash256, Link>,
    current: Hash256,
    target: Hash256,
    rest: Set<u32>,
)
    requires
        current != target,
        chain.contains_key(current),
        leads(chain, chain[current].previous, target, rest),
    ensures
        leads(chain, current, target, chain[current].spent.union(rest)),
{
    let steps = choose|steps: nat| #[trigger]
        path_spent(chain, chain[current].previous, target, steps) == Some(rest);
    assert(path_spent(chain, current, target, steps + 1) == Some(chain[current].spent.union(rest)));
}

/// Keeping a promise carries over from one request to the next: as long as
/// every reply is one that the world allows, a dialogue that keeps a promise
/// goes on to keep it, and when it ends, the promise holds.
pub proof fn law_promises_last<T>(
    program: Program<T>,
    world: World,
    post: spec_fn(T, World) -> bool,
    reply: Reply,
    after: World,
)
    requires
        keeps(program, world, post),
        program.admits(reply),
        world.allows(program.call(), reply, after),
    ensures
        keeps(program.next(reply), after, post),
{
    if let Program::Walk(trail, rest) = program {
        assert(world.log.push(trail.call()).take(world.log.len() as int) =~= world.log);
        assert(same_but_log(world, after));
        if trail.previous is None {
            match reply->Header_0 {
                Ok(header) => {
                    let further = Trail { previous: Some(header.previous), ..trail };
                    assert forall|found: Result<Set<u32>, Error>, last: World|
                        #![trigger may_find(after.chain, further, found), rest(found), same_but_log(after, last)]
                        may_find(after.chain, further, found) && same_but_log(
                            after,
                            last,
                        ) implies keeps(rest(found), last, post) by {
                        lemma_same_but_log(world, after, last);
                        assert(may_find(world.chain, trail, found));
                    }
                },
                Err(e) => {
                    assert(may_find(world.chain, trail, Err(Error::Store(e))));
                },
            }
        } else {
            match reply->Bitmap_0 {
                Ok(bitmap) => {
                    let previous = trail.previous->0;
                    let spent = trail.spent.union(bitmap_values(bitmap));
                    if previous == trail.target {
                        assert(path_spent(world.chain, previous, trail.target, 0) == Some(
                            Set::<u32>::empty(),
                        ));
                        assert(leads(world.chain, previous, trail.target, Set::empty()));
                        assert(spent =~= spent.union(Set::empty()));
                        assert(may_find(world.chain, trail, Ok(spent)));
                    } else {
                        let further = Trail {
                            current: previous,
                            target: trail.target,
                            spent,
                            previous: None,
                        };
                        assert forall|found: Result<Set<u32>, Error>, last: World|
                            #![trigger may_find(after.chain, further, found), rest(found), same_but_log(after, last)]
                            may_find(after.chain, further, found) && same_but_log(
                                after,
                                last,
                            ) implies keeps(rest(found), last, post) by {
                            lemma_same_but_log(world, after, last);
                            if let Ok(all) = found {
                                let beyond = choose|beyond: Set<u32>| #[trigger]
                                    leads(
                                        after.chain,
                                        after.chain[previous].previous,
                                        trail.target,
                                        beyond,
                                    ) && all == spent.union(after.chain[previous].spent).union(
                                        beyond,
                                    );
                                lemma_leads_step(after.chain, previous, trail.target, beyond);
                                assert(all =~= spent.union(
                                    after.chain[previous].spent.union(beyond),
                                ));
                            }
                            assert(may_find(world.chain, trail, found));
                        }
                    }
                },
                Err(e) => {
                    assert(may_find(world.chain, trail, Err(Error::Store(e))));
                },
            }
        }
    }
}

pub proof fn lemma_same_but_log(first: World, second: World, third: World)
    requires
        same_but_log(first, second),
        same_but_log(second, third),
    ensures
        same_but_log(first, third),
{
    assert(third.log.take(first.log.len() as int) =~= second.log.take(first.log.len() as int));
}

/// What a dialogue promises, the dialogues that follow it may rely on.
pub proof fn lemma_keeps_bind<A, B>(
    first: Program<A>,
    rest: spec_fn(A) -> Program<B>,
    world: World,
    middle: spec_fn(A, World) -> bool,
    post: spec_fn(B, World) -> bool,
)
    requires
        keeps(first, world, middle),
        forall|a: A, after: World| #[trigger]
            middle(a, after) ==> keeps(rest(a), after, post),
    ensures
        keeps(bind(first, rest), world, post),
    decreases first,
{
    match first {
        Program::Ret(_) => {},
        Program::Ask(call, need, later) => {
            assert forall|reply: Reply, after: World| #[trigger]
                world.allows(call, reply, after) && need.met_by(reply) implies keeps(
                bind(later(reply), rest),
                after,
                post,
            ) by {
                lemma_keeps_bind(later(reply), rest, after, middle, post);
            }
        },
        Program::Walk(trail, later) => {
            let whole = bind(first, rest)->Walk_1;
            assert forall|found: Result<Set<u32>, Error>, after: World|
                #![trigger may_find(world.chain, trail, found), whole(found), same_but_log(world, after)]
                may_find(world.chain, trail, found) && same_but_log(world, after) implies keeps(
                whole(found),
                after,
                post,
            ) by {
                assert(keeps(later(found), after, middle));
                lemma_keeps_bind(later(found), rest, after, middle, post);
            }
        },
    }
}

/// Every dialogue keeps the empty promise.
pub proof fn lemma_keeps_anything<T>(
    program: Program<T>,
    world: World,
    post: spec_fn(T, World) -> bool,
)
    requires
        forall|t: T, after: World| #[trigger] post(t, after),
    ensures
        keeps(program, world, post),
    decreases program,
{
    match program {
        Program::Ret(_) => {},
        Program::Ask(call, need, later) => {
            assert forall|reply: Reply, after: World| #[trigger]
                world.allows(call, reply, after) && need.met_by(reply) implies keeps(
                later(reply),
                after,
                post,
            ) by {
                lemma_keeps_anything(later(reply), after, post);
            }
        },
        Program::Walk(trail, later) => {
            assert forall|found: Result<Set<u32>, Error>, after: World|
                #![trigger may_find(world.chain, trail, found), later(found), same_but_log(world, after)]
                may_find(world.chain, trail, found) && same_but_log(world, after) implies keeps(
                later(found),
                after,
                post,
            ) by {
                lemma_keeps_anything(later(found), after, post);
            }
        },
    }
}

/// Two promises may be joined.
pub proof fn lemma_keeps_both<T>(
    program: Program<T>,
    world: World,
    one: spec_fn(T, World) -> bool,
    other: spec_fn(T, World) -> bool,
    both: spec_fn(T, World) -> bool,
)
    requires
        keeps(program, world, one),
        keeps(program, world, other),
        forall|t: T, after: World| #[trigger] both(t, after) <== one(t, after) && other(t, after),
    ensures
        keeps(program, world, both),
    decreases program,
{
    match program {
        Program::Ret(_) => {},
        Program::Ask(call, need, later) => {
            assert forall|reply: Reply, after: World| #[trigger]
                world.allows(call, reply, after) && need.met_by(reply) implies keeps(
                later(reply),
                after,
                both,
            ) by {
                lemma_keeps_both(later(reply), after, one, other, both);
            }
        },
        Program::Walk(trail, later) => {
            assert forall|found: Result<Set<u32>, Error>, after: World|
                #![trigger may_find(world.chain, trail, found), later(found), same_but_log(world, after)]
                may_find(world.chain, trail, found) && same_but_log(world, after) implies keeps(
                later(found),
                after,
                both,
            ) by {
                lemma_keeps_both(later(found), after, one, other, both);
            }
        },
    }
}

/// What is broken stays broken.
pub proof fn lemma_keeps_broken<T>(
    program: Program<T>,
    world: World,
    post: spec_fn(T, World) -> bool,
)
    requires
        world.broken,
        forall|t: T, after: World| after.broken ==> #[trigger] post(t, after),
    ensures
        keeps(program, world, post),
    decreases program,
{
    match program {
        Program::Ret(_) => {},
        Program::Ask(call, need, later) => {
            assert forall|reply: Reply, after: World| #[trigger]
                world.allows(call, reply, after) && need.met_by(reply) implies keeps(
                later(reply),
                after,
                post,
            ) by {
                lemma_keeps_broken(later(reply), after, post);
            }
        },
        Program::Walk(trail, later) => {
            assert forall|found: Result<Set<u32>, Error>, after: World|
                #![trigger may_find(world.chain, trail, found), later(found), same_but_log(world, after)]
                may_find(world.chain, trail, found) && same_but_log(world, after) implies keeps(
                later(found),
                after,
                post,
            ) by {
                lemma_keeps_broken(later(found), after, post);
            }
        },
    }
}

/// Whether a dialogue may end with a result in a world: every promise that it
/// keeps holds of them.
pub open spec fn may_end<T>(program: Program<T>, world: World, result: T, after: World) -> bool {
    forall|post: spec_fn(T, World) -> bool| #[trigger]
        keeps(program, world, post) ==> post(result, after)
}

/// A dialogue ends as it may end.
pub proof fn lemma_may_end<T>(program: Program<T>, world: World)
    ensures
        keeps(
            program,
            world,
            |result: T, after: World| may_end(program, world, result, after),
        ),
    decreases program,
{
    let end = |result: T, after: World| may_end(program, world, result, after);
    match program {
        Program::Ret(_) => {},
        Program::Ask(call, need, later) => {
            assert forall|reply: Reply, after: World| #[trigger]
                world.allows(call, reply, after) && need.met_by(reply) implies keeps(
                later(reply),
                after,
                end,
            ) by {
                let here = |result: T, last: World| may_end(later(reply), after, result, last);
                lemma_may_end(later(reply), after);
                assert forall|result: T, last: World| #[trigger] here(result, last) implies end(
                    result,
                    last,
                ) by {
                    assert forall|post: spec_fn(T, World) -> bool| #[trigger]
                        keeps(program, world, post) implies post(result, last) by {
                        assert(keeps(later(reply), after, post));
                    }
                }
                lemma_keeps_less(later(reply), after, here, end);
            }
        },
        Program::Walk(trail, later) => {
            assert forall|found: Result<Set<u32>, Error>, after: World|
                #![trigger may_find(world.chain, trail, found), later(found), same_but_log(world, after)]
                may_find(world.chain, trail, found) && same_but_log(world, after) implies keeps(
                later(found),
                after,
                end,
            ) by {
                let here = |result: T, last: World| may_end(later(found), after, result, last);
                lemma_may_end(later(found), after);
                assert forall|result: T, last: World| #[trigger] here(result, last) implies end(
                    result,
                    last,
                ) by {
                    assert forall|post: spec_fn(T, World) -> bool| #[trigger]
                        keeps(program, world, post) implies post(result, last) by {
                        assert(keeps(later(found), after, post));
                    }
                }
                lemma_keeps_less(later(found), after, here, end);
            }
        },
    }
}

/// A promise may be weakened.
pub proof fn lemma_keeps_less<T>(
    program: Program<T>,
    world: World,
    more: spec_fn(T, World) -> bool,
    less: spec_fn(T, World) -> bool,
)
    requires
        keeps(program, world, more),
        forall|t: T, after: World| #[trigger] more(t, after) ==> less(t, after),
    ensures
        keeps(program, world, less),
    decreases program,
{
    match program {
        Program::Ret(_) => {},
        Program::Ask(call, need, later) => {
            assert forall|reply: Reply, after: World| #[trigger]
                world.allows(call, reply, after) && need.met_by(reply) implies keeps(
                later(reply),
                after,
                less,
            ) by {
                lemma_keeps_less(later(reply), after, more, less);
            }
        },
        Program::Walk(trail, later) => {
            assert forall|found: Result<Set<u32>, Error>, after: World|
                #![trigger may_find(world.chain, trail, found), later(found), same_but_log(world, after)]
                may_find(world.chain, trail, found) && same_but_log(world, after) implies keeps(
                later(found),
                after,
                less,
            ) by {
                lemma_keeps_less(later(found), after, more, less);
            }
        },
    }
}

} // verus!
