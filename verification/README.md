# txhashset

The transaction hash set of a chain, verified with Verus: the rules by which
blocks and transactions change the output tree, the range proof tree and the
kernel tree, and by which those changes are validated, committed or taken back.

The library in `src/` contains no tree, no store and no cryptography. Each of its
operations is a dialogue: `request()` tells what it needs next, `resume(reply)`
goes on with the answer, until the operation is done. What an operation requests,
and how it ends for every course of replies, is stated as a `Program` in its
contract.

`src/world.rs` models the other side: trees that append, prune and rewind, files,
and a chain store. The modules whose names end in `_laws` prove what holds of the
operations in that world, among other things that

- a transaction that cannot be applied leaves the trees, and what the unit of
  work knows, as they were, unless a tree fails to rewind;
- of the transactions under validation exactly the selected ones take effect, no
  two of them spend an output that none of them adds, and validating them again
  selects them all;
- a block or a transaction adds the commitments of its outputs, takes away those
  of its inputs and appends the excesses of its kernels;
- a block can be taken back, and a rewind that succeeds restores all three trees;
- an output that is spent is refused as spent, and the inputs of a block are
  applied before its outputs, coinbase outputs apart;
- a unit of work is committed as a whole or leaves no trace, and what was
  committed is what is read, also after opening anew and after a compaction;
- a state that validates had every kernel and every range proof verified.

Each law states the conditions under which it holds.

`app/` drives the operations for a host that supplies the store, the trees and
the cryptography. `tests/` drives them against trees and a store in memory.
