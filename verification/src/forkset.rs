//! Competing chain branches and their resolution. A `ForkSet` holds
//! candidate chains that all grew out of one seed block — the canonical tip
//! at the time the set was created. Branches are extended and forked at
//! random; the resolve step discards every branch strictly shorter than the
//! longest and, once a single branch remains, merges it into the canonical
//! chain and reseeds.

use vstd::prelude::*;

use crate::block::{Block, BlockView};
use crate::blockchain::Blockchain;
use crate::errors::ChainError;
use crate::hashing::{difficulty_ok, is_hex_digest};
use crate::host::{now_unix_seconds, random_below, random_index};
use crate::transaction::Transaction;

verus! {

#[derive(Debug)]
pub struct ForkSet {
    pub branches: Vec<Blockchain>,
}

/// Keeps the branches whose chain has exactly length `m`.
pub open spec fn keep_len_pred(m: nat) -> spec_fn(Blockchain) -> bool {
    |b: Blockchain| b.chain@.len() == m
}

/// The greatest chain length among the branches.
pub open spec fn max_chain_len(branches: Seq<Blockchain>) -> nat
    decreases branches.len(),
{
    if branches.len() == 0 {
        0
    } else {
        let rest = max_chain_len(branches.drop_last());
        if branches.last().chain@.len() > rest {
            branches.last().chain@.len()
        } else {
            rest
        }
    }
}

impl ForkSet {
    /// Every branch is a well-formed (linked, nonempty) chain, and there is
    /// at least one branch.
    pub open spec fn wf(self) -> bool {
        &&& self.branches@.len() >= 1
        &&& forall|i: int| 0 <= i < self.branches@.len() ==> (#[trigger] self.branches@[i]).wf()
    }

    /// All branches grew out of `seed`: each branch's first block is it.
    pub open spec fn rooted(self, seed: BlockView) -> bool {
        forall|i: int|
            0 <= i < self.branches@.len() ==> (#[trigger] self.branches@[i]).chain@[0]@ == seed
    }

    /// Every block above a branch's seed was mined here: sealed, satisfying
    /// the difficulty predicate, with a 64-character lowercase hex digest.
    pub open spec fn mined_above_seed(self) -> bool {
        forall|i: int, j: int|
            0 <= i < self.branches@.len() && 1 <= j < self.branches@[i].chain@.len() ==> (
            #[trigger] self.branches@[i].chain@[j]).sealed() && difficulty_ok(
                self.branches@[i].chain@[j].hash@,
            ) && is_hex_digest(self.branches@[i].chain@[j].hash@)
    }

    /// Seeds a fork set with a single one-block branch holding `tip`.
    pub fn new(tip: &Block) -> (r: ForkSet)
        ensures
            r.wf(),
            r.rooted(tip@),
            r.branches@.len() == 1,
            r.branches@[0].chain@.len() == 1,
            r.branches@[0].tr_queue@.len() == 0,
    {
        let mut chain: Vec<Block> = Vec::new();
        chain.push(tip.clone());
        let mut branches: Vec<Blockchain> = Vec::new();
        branches.push(Blockchain { chain, tr_queue: std::collections::VecDeque::new() });
        ForkSet { branches }
    }

    /// Mints one block onto the branch at `index`, feeding it the given
    /// transfer. On `MiningCancelled` the set is left unchanged.
    pub fn extend(&mut self, index: usize, from: String, to: String, amount: u64) -> (r: Result<
        (),
        ChainError,
    >)
        requires
            old(self).wf(),
            index < old(self).branches@.len(),
        ensures
            final(self).wf(),
            forall|s: BlockView| old(self).rooted(s) ==> final(self).rooted(s),
            final(self).branches@.len() == old(self).branches@.len(),
            r matches Ok(()) ==> {
                let ob = old(self).branches@[index as int];
                let nb = final(self).branches@[index as int];
                let queued = ob.tr_queue@.push((Transaction { from: from, to: to, amount: amount }));
                &&& forall|j: int|
                    0 <= j < old(self).branches@.len() && j != index ==> final(self).branches@[j]
                        == old(self).branches@[j]
                &&& nb.chain@.len() == ob.chain@.len() + 1
                &&& nb.chain@.take(ob.chain@.len() as int) == ob.chain@
                &&& nb.chain@.last().sealed()
                &&& difficulty_ok(nb.chain@.last().hash@)
                &&& is_hex_digest(nb.chain@.last().hash@)
                &&& nb.chain@.last().prev_hash@ == ob.chain@.last().hash@
                &&& nb.chain@.last().tr_data == queued[0]
                &&& nb.tr_queue@ == queued.subrange(1, queued.len() as int)
            },
            r matches Err(e) ==> *final(self) == *old(self) && e == ChainError::MiningCancelled,
            old(self).mined_above_seed() ==> final(self).mined_above_seed(),
    {
        let mut tmp = self.branches[index].clone();
        proof {
            assert(tmp.wf());
        }
        tmp.new_transaction(from, to, amount);
        match tmp.mint() {
            Ok(_b) => {
                let ghost ob = self.branches@[index as int];
                self.branches.set(index, tmp);
                proof {
                    assert(final(self).branches@[index as int].chain@.take(ob.chain@.len() as int)
                        =~= ob.chain@);
                    assert forall|s: BlockView| old(self).rooted(s) implies final(self).rooted(
                        s,
                    ) by {
                        assert forall|i: int|
                            0 <= i < final(self).branches@.len() implies (#[trigger] final(self).branches@[i]).chain@[0]@ == s by {
                            assert(old(self).branches@[i].chain@[0]@ == s);
                        }
                    }
                    if old(self).mined_above_seed() {
                        assert forall|i: int, j: int|
                            0 <= i < final(self).branches@.len() && 1 <= j < final(self)
                                .branches@[i].chain@.len() implies (#[trigger] final(self)
                            .branches@[i].chain@[j]).sealed() && difficulty_ok(
                            final(self).branches@[i].chain@[j].hash@,
                        ) && is_hex_digest(final(self).branches@[i].chain@[j].hash@) by {
                            if i == index {
                                let nb = final(self).branches@[index as int];
                                if j < ob.chain@.len() {
                                    assert(nb.chain@[j] == nb.chain@.take(
                                        ob.chain@.len() as int,
                                    )[j]);
                                    assert((ob.chain@[j]).sealed() && difficulty_ok(
                                        ob.chain@[j].hash@,
                                    ) && is_hex_digest(ob.chain@[j].hash@));
                                } else {
                                    assert(nb.chain@[j] == nb.chain@.last());
                                }
                            } else {
                                assert((old(self).branches@[i].chain@[j]).sealed()
                                    && difficulty_ok(old(self).branches@[i].chain@[j].hash@)
                                    && is_hex_digest(old(self).branches@[i].chain@[j].hash@));
                            }
                        }
                    }
                }
                Ok(())
            },
            Err(e) => {
                proof {
                    assert(e == ChainError::MiningCancelled);
                }
                Err(e)
            },
        }
    }

    /// Forks the branch at `index`: clones it, drops its tip, and mints a
    /// block with the given transfer onto the clone, which joins the set as
    /// a new branch. A one-block branch (the seed alone) is left alone: the
    /// call is a no-op that reports `Ok(false)`.
    pub fn diverge(&mut self, index: usize, from: String, to: String, amount: u64) -> (r: Result<
        bool,
        ChainError,
    >)
        requires
            old(self).wf(),
            index < old(self).branches@.len(),
        ensures
            final(self).wf(),
            forall|s: BlockView| old(self).rooted(s) ==> final(self).rooted(s),
            old(self).branches@[index as int].chain@.len() == 1 ==> r == Ok::<bool, ChainError>(
                false,
            ) && *final(self) == *old(self),
            r == Ok::<bool, ChainError>(false) ==> old(self).branches@[index as int].chain@.len()
                == 1 && *final(self) == *old(self),
            r == Ok::<bool, ChainError>(true) ==> {
                let ob = old(self).branches@[index as int];
                let stub = ob.chain@.drop_last();
                let nb = final(self).branches@[old(self).branches@.len() as int];
                let queued = ob.tr_queue@.push((Transaction { from: from, to: to, amount: amount }));
                &&& final(self).branches@.len() == old(self).branches@.len() + 1
                &&& final(self).branches@.take(old(self).branches@.len() as int) == old(self).branches@
                &&& nb.chain@.len() == stub.len() + 1
                &&& nb.chain@.take(stub.len() as int) == stub
                &&& nb.chain@.last().sealed()
                &&& difficulty_ok(nb.chain@.last().hash@)
                &&& is_hex_digest(nb.chain@.last().hash@)
                &&& nb.chain@.last().prev_hash@ == stub.last().hash@
                &&& nb.chain@.last().tr_data == queued[0]
                &&& nb.tr_queue@ == queued.subrange(1, queued.len() as int)
            },
            r matches Err(e) ==> *final(self) == *old(self) && e == ChainError::MiningCancelled,
            r is Ok ==> final(self).branches@.take(old(self).branches@.len() as int) == old(self).branches@ && final(self).branches@.len() <= old(self).branches@.len() + 1,
            old(self).mined_above_seed() ==> final(self).mined_above_seed(),
    {
        if self.branches[index].chain.len() == 1 {
            proof {
                assert(final(self).branches@.take(old(self).branches@.len() as int) =~= old(self).branches@);
            }
            return Ok(false);
        }
        let mut tmp = self.branches[index].clone();
        tmp.chain.pop();
        proof {
            let ob = self.branches@[index as int];
            assert(tmp.chain@ =~= ob.chain@.drop_last());
            assert forall|i: int|
                1 <= i < tmp.chain@.len() implies #[trigger] tmp.chain@[i].prev_hash@
                == tmp.chain@[i - 1].hash@ by {
                assert(ob.chain@[i].prev_hash@ == ob.chain@[i - 1].hash@);
            }
            assert(tmp.wf());
        }
        tmp.new_transaction(from, to, amount);
        match tmp.mint() {
            Ok(_b) => {
                self.branches.push(tmp);
                proof {
                    let ob = old(self).branches@[index as int];
                    let stub = ob.chain@.drop_last();
                    let nb = final(self).branches@[old(self).branches@.len() as int];
                    assert(final(self).branches@.take(old(self).branches@.len() as int) =~= old(self).branches@);
                    assert(nb.chain@.take(stub.len() as int) =~= stub);
                    assert forall|s: BlockView| old(self).rooted(s) implies final(self).rooted(
                        s,
                    ) by {
                        assert forall|i: int|
                            0 <= i < final(self).branches@.len() implies (#[trigger] final(self).branches@[i]).chain@[0]@ == s by {
                            if i < old(self).branches@.len() {
                                assert(old(self).branches@[i].chain@[0]@ == s);
                            } else {
                                assert(ob.chain@[0]@ == s);
                                assert(nb.chain@[0] == stub[0]);
                            }
                        }
                    }
                    assert forall|i: int|
                        0 <= i < final(self).branches@.len() implies (#[trigger] final(self).branches@[i]).wf() by {
                        if i < old(self).branches@.len() {
                            assert(old(self).branches@[i].wf());
                        }
                    }
                    if old(self).mined_above_seed() {
                        assert forall|i: int, j: int|
                            0 <= i < final(self).branches@.len() && 1 <= j < final(self)
                                .branches@[i].chain@.len() implies (#[trigger] final(self)
                            .branches@[i].chain@[j]).sealed() && difficulty_ok(
                            final(self).branches@[i].chain@[j].hash@,
                        ) && is_hex_digest(final(self).branches@[i].chain@[j].hash@) by {
                            if i < old(self).branches@.len() {
                                assert((old(self).branches@[i].chain@[j]).sealed()
                                    && difficulty_ok(old(self).branches@[i].chain@[j].hash@)
                                    && is_hex_digest(old(self).branches@[i].chain@[j].hash@));
                            } else {
                                if j < stub.len() {
                                    assert(nb.chain@[j] == nb.chain@.take(stub.len() as int)[j]);
                                    assert(stub[j] == ob.chain@[j]);
                                    assert((ob.chain@[j]).sealed() && difficulty_ok(
                                        ob.chain@[j].hash@,
                                    ) && is_hex_digest(ob.chain@[j].hash@));
                                } else {
                                    assert(nb.chain@[j] == nb.chain@.last());
                                }
                            }
                        }
                    }
                }
                Ok(true)
            },
            Err(e) => {
                proof {
                    assert(e == ChainError::MiningCancelled);
                }
                Err(e)
            },
        }
    }
}


/// Some branch attains the maximum length.
proof fn lemma_max_chain_len_attained(branches: Seq<Blockchain>)
    requires
        branches.len() > 0,
    ensures
        exists|i: int|
            0 <= i < branches.len() && (#[trigger] branches[i]).chain@.len() == max_chain_len(
                branches,
            ),
        forall|i: int|
            0 <= i < branches.len() ==> (#[trigger] branches[i]).chain@.len() <= max_chain_len(
                branches,
            ),
    decreases branches.len(),
{
    if branches.len() == 1 {
        assert(branches.drop_last().len() == 0);
        assert(max_chain_len(branches.drop_last()) == 0);
        assert(branches[0] == branches.last());
        assert(branches[0].chain@.len() == max_chain_len(branches));
    } else {
        let rest = branches.drop_last();
        lemma_max_chain_len_attained(rest);
        if branches.last().chain@.len() > max_chain_len(rest) {
            assert(branches[branches.len() - 1] == branches.last());
            assert(branches[branches.len() - 1].chain@.len() == max_chain_len(branches));
        } else {
            let i = choose|i: int|
                0 <= i < rest.len() && (#[trigger] rest[i]).chain@.len() == max_chain_len(rest);
            assert(branches[i] == rest[i]);
            assert(max_chain_len(branches) == max_chain_len(rest));
            assert(branches[i].chain@.len() == max_chain_len(branches));
        }
        assert forall|i: int|
            0 <= i < branches.len() implies (#[trigger] branches[i]).chain@.len()
            <= max_chain_len(branches) by {
            if i < rest.len() {
                assert(rest[i] == branches[i]);
            }
        }
    }
}

impl ForkSet {
    /// The resolve step: discards every branch strictly shorter than the
    /// longest (ties survive). If exactly one branch remains, it is merged:
    /// its seed block — the duplicate of the canonical tip — is dropped, the
    /// remainder is spliced onto the canonical chain together with the
    /// branch's pending transactions, and the set reseeds with a single
    /// one-block branch at the new tip.
    #[verifier::loop_isolation(false)]
    #[verifier::rlimit(60)]
    pub fn resolve(&mut self, canonical: &mut Blockchain) -> (merged: bool)
        requires
            old(self).wf(),
            old(canonical).wf(),
            old(self).rooted(old(canonical).spec_tip()@),
        ensures
            final(self).wf(),
            final(canonical).wf(),
            final(self).rooted(final(canonical).spec_tip()@),
            ({
                let survivors = old(self).branches@.filter(
                    keep_len_pred(max_chain_len(old(self).branches@)),
                );
                &&& (merged <==> survivors.len() == 1)
                &&& if survivors.len() == 1 {
                    &&& final(canonical).chain@ == old(canonical).chain@ + survivors[0].chain@.skip(
                        1,
                    )
                    &&& final(canonical).tr_queue@ == old(canonical).tr_queue@
                        + survivors[0].tr_queue@
                    &&& final(self).branches@.len() == 1
                    &&& final(self).branches@[0].chain@.len() == 1
                    &&& final(self).branches@[0].chain@[0] == final(canonical).chain@.last()
                    &&& final(self).branches@[0].tr_queue@.len() == 0
                } else {
                    &&& final(self).branches@ == survivors
                    &&& *final(canonical) == *old(canonical)
                }
                &&& forall|i: int|
                    0 <= i < survivors.len() ==> old(self).branches@.contains(
                        #[trigger] survivors[i],
                    )
            }),
            old(self).mined_above_seed() ==> final(self).mined_above_seed(),
            old(self).mined_above_seed() ==> forall|i: int|
                old(canonical).chain@.len() <= i < final(canonical).chain@.len() ==> (
                #[trigger] final(canonical).chain@[i]).sealed() && difficulty_ok(
                    final(canonical).chain@[i].hash@,
                ) && is_hex_digest(final(canonical).chain@[i].hash@),
    {
        let ghost orig = self.branches@;
        let ghost seed = old(canonical).spec_tip()@;
        // Find the greatest branch length.
        let mut longest: usize = 0;
        let mut i: usize = 0;
        while i < self.branches.len()
            invariant
                i <= orig.len(),
                self.branches@ == orig,
                longest == max_chain_len(orig.take(i as int)),
            decreases orig.len() - i,
        {
            proof {
                assert(orig.take(i + 1).drop_last() =~= orig.take(i as int));
                assert(orig.take(i + 1).last() == orig[i as int]);
            }
            if self.branches[i].chain.len() > longest {
                longest = self.branches[i].chain.len();
            }
            i = i + 1;
        }
        proof {
            assert(orig.take(orig.len() as int) =~= orig);
        }
        let ghost pred = keep_len_pred(longest as nat);
        // Discard every branch strictly shorter than the longest.
        let mut idx: usize = 0;
        let ghost mut p: int = 0;
        while idx < self.branches.len()
            invariant
                0 <= p <= orig.len(),
                self.branches@ == orig.take(p).filter(pred) + orig.skip(p),
                idx == orig.take(p).filter(pred).len(),
            decreases orig.len() - p,
        {
            proof {
                assert(self.branches@[idx as int] == orig.skip(p)[0]);
                assert(orig.skip(p)[0] == orig[p]);
                assert(orig.take(p + 1).drop_last() =~= orig.take(p));
                assert(orig.take(p + 1).last() == orig[p]);
                assert(orig.take(p + 1).filter(pred) == if pred(orig[p]) {
                    orig.take(p).filter(pred).push(orig[p])
                } else {
                    orig.take(p).filter(pred)
                }) by {
                    reveal(Seq::filter);
                }
            }
            if self.branches[idx].chain.len() == longest {
                proof {
                    assert(pred(orig[p]));
                    assert(orig.take(p).filter(pred) + orig.skip(p) =~= orig.take(p + 1).filter(
                        pred,
                    ) + orig.skip(p + 1));
                    p = p + 1;
                }
                idx = idx + 1;
            } else {
                self.branches.remove(idx);
                proof {
                    assert(!pred(orig[p]));
                    assert((orig.take(p).filter(pred) + orig.skip(p)).remove(idx as int)
                        =~= orig.take(p + 1).filter(pred) + orig.skip(p + 1));
                    p = p + 1;
                }
            }
        }
        proof {
            assert(p == orig.len());
            assert(orig.take(p) =~= orig);
            assert(orig.skip(p) =~= Seq::<Blockchain>::empty());
            assert(self.branches@ =~= orig.filter(pred));
            lemma_max_chain_len_attained(orig);
            let w = choose|w: int|
                0 <= w < orig.len() && (#[trigger] orig[w]).chain@.len() == max_chain_len(orig);
            orig.lemma_filter_contains(pred, w);
            assert(self.branches@.len() >= 1);
            assert forall|j: int| 0 <= j < self.branches@.len() implies (#[trigger] self
                .branches@[j]).wf() && self.branches@[j].chain@[0]@ == seed by {
                orig.lemma_filter_contains_rev(pred, self.branches@[j]);
                let k = choose|k: int| 0 <= k < orig.len() && orig[k] == self.branches@[j];
                assert(orig[k].wf());
                assert(orig[k].chain@[0]@ == seed);
            }
            assert forall|j: int|
                0 <= j < orig.filter(pred).len() implies orig.contains(
                #[trigger] orig.filter(pred)[j]) by {
                assert(orig.filter(pred).contains(orig.filter(pred)[j]));
                orig.lemma_filter_contains_rev(pred, orig.filter(pred)[j]);
            }
            if old(self).mined_above_seed() {
                assert forall|i: int, j: int|
                    0 <= i < self.branches@.len() && 1 <= j < self.branches@[i].chain@.len()
                        implies (#[trigger] self.branches@[i].chain@[j]).sealed()
                        && difficulty_ok(self.branches@[i].chain@[j].hash@) && is_hex_digest(
                    self.branches@[i].chain@[j].hash@) by {
                    assert(orig.contains(self.branches@[i]));
                    let k = choose|k: int| 0 <= k < orig.len() && orig[k] == self.branches@[i];
                    assert((orig[k].chain@[j]).sealed() && difficulty_ok(orig[k].chain@[j].hash@)
                        && is_hex_digest(orig[k].chain@[j].hash@));
                }
            }
        }
        if self.branches.len() != 1 {
            return false;
        }
        // Exactly one branch survives: merge it into the canonical chain.
        let ghost survivor = self.branches@[0];
        let br_opt = self.branches.pop();
        let mut br = match br_opt {
            Some(b) => b,
            None => {
                proof {
                    assert(false);
                }
                return false;
            },
        };
        let ghost canon0 = canonical.chain@;
        let nblocks = br.chain.len();
        let mut j: usize = 1;
        while j < nblocks
            invariant
                1 <= j <= nblocks,
                nblocks == br.chain@.len(),
                canonical.chain@ == canon0 + br.chain@.subrange(1, j as int),
                canonical.tr_queue@ == old(canonical).tr_queue@,
                canonical.chain@.last().hash@ == br.chain@[j - 1].hash@,
            decreases nblocks - j,
        {
            canonical.chain.push(br.chain[j].clone());
            proof {
                assert(canonical.chain@ =~= canon0 + br.chain@.subrange(1, j + 1));
            }
            j = j + 1;
        }
        proof {
            assert(br.chain@.subrange(1, nblocks as int) =~= br.chain@.skip(1));
            assert(canonical.chain@ =~= canon0 + survivor.chain@.skip(1));
            assert forall|x: int| 1 <= x < canonical.chain@.len() implies #[trigger] canonical
                .chain@[x].prev_hash@ == canonical.chain@[x - 1].hash@ by {
                if x < canon0.len() {
                    assert(old(canonical).chain@[x].prev_hash@ == old(canonical).chain@[x
                        - 1].hash@);
                } else {
                    assert(canonical.chain@[x] == survivor.chain@[x - canon0.len() + 1]);
                    assert(survivor.chain@[x - canon0.len() + 1].prev_hash@ == survivor.chain@[x
                        - canon0.len()].hash@);
                    if x == canon0.len() {
                        assert(survivor.chain@[0]@ == seed);
                    }
                }
            }
        }
        canonical.tr_queue.append(&mut br.tr_queue);
        let tip_index = canonical.chain.len() - 1;
        let tip = canonical.chain[tip_index].clone();
        let mut seed_chain: Vec<Block> = Vec::new();
        seed_chain.push(tip);
        self.branches.push(
            Blockchain { chain: seed_chain, tr_queue: std::collections::VecDeque::new() },
        );
        proof {
            if old(self).mined_above_seed() {
                assert(orig.contains(survivor));
                let k = choose|k: int| 0 <= k < orig.len() && orig[k] == survivor;
                assert forall|i: int|
                    canon0.len() <= i < canonical.chain@.len() implies (#[trigger] canonical
                    .chain@[i]).sealed() && difficulty_ok(canonical.chain@[i].hash@)
                    && is_hex_digest(canonical.chain@[i].hash@) by {
                    assert(canonical.chain@[i] == survivor.chain@[i - canon0.len() + 1]);
                    assert((orig[k].chain@[i - canon0.len() + 1]).sealed() && difficulty_ok(
                        orig[k].chain@[i - canon0.len() + 1].hash@,
                    ) && is_hex_digest(orig[k].chain@[i - canon0.len() + 1].hash@));
                }
            }
        }
        true
    }
}


/// The greatest index in `c` holding a block whose hash is `h`, or -1.
pub open spec fn rfind_hash(c: Seq<Block>, h: Seq<char>) -> int
    decreases c.len(),
{
    if c.len() == 0 {
        -1
    } else if c.last().hash@ == h {
        c.len() - 1
    } else {
        rfind_hash(c.drop_last(), h)
    }
}

/// The least branch index whose chain holds a block with hash `h`, or -1.
pub open spec fn find_branch(branches: Seq<Blockchain>, h: Seq<char>) -> int
    decreases branches.len(),
{
    if branches.len() == 0 {
        -1
    } else if rfind_hash(branches[0].chain@, h) >= 0 {
        0
    } else {
        let rest = find_branch(branches.drop_first(), h);
        if rest >= 0 {
            1 + rest
        } else {
            -1
        }
    }
}

proof fn lemma_rfind_hash(c: Seq<Block>, h: Seq<char>)
    ensures
        -1 <= rfind_hash(c, h) < c.len(),
        rfind_hash(c, h) >= 0 ==> c[rfind_hash(c, h)].hash@ == h,
        rfind_hash(c, h) >= 0 ==> forall|j: int|
            rfind_hash(c, h) < j < c.len() ==> (#[trigger] c[j]).hash@ != h,
        rfind_hash(c, h) == -1 ==> forall|j: int| 0 <= j < c.len() ==> (#[trigger] c[j]).hash@ != h,
    decreases c.len(),
{
    if c.len() > 0 {
        lemma_rfind_hash(c.drop_last(), h);
        assert forall|j: int| 0 <= j < c.len() - 1 implies c.drop_last()[j] == c[j] by {}
    }
}

proof fn lemma_find_branch(branches: Seq<Blockchain>, h: Seq<char>)
    ensures
        -1 <= find_branch(branches, h) < branches.len(),
        find_branch(branches, h) >= 0 ==> rfind_hash(
            branches[find_branch(branches, h)].chain@,
            h,
        ) >= 0,
        find_branch(branches, h) >= 0 ==> forall|i: int|
            0 <= i < find_branch(branches, h) ==> rfind_hash(
                (#[trigger] branches[i]).chain@,
                h,
            ) == -1,
        find_branch(branches, h) == -1 ==> forall|i: int|
            0 <= i < branches.len() ==> rfind_hash((#[trigger] branches[i]).chain@, h) == -1,
    decreases branches.len(),
{
    if branches.len() > 0 {
        let rest = branches.drop_first();
        lemma_find_branch(rest, h);
        lemma_rfind_hash(branches[0].chain@, h);
        assert forall|i: int| 1 <= i < branches.len() implies rest[i - 1] == branches[i] by {}
        if rfind_hash(branches[0].chain@, h) >= 0 {
        } else {
            let fr = find_branch(rest, h);
            if fr >= 0 {
                let f = 1 + fr;
                assert forall|i: int|
                    0 <= i < f implies rfind_hash((#[trigger] branches[i]).chain@, h) == -1 by {
                    if i > 0 {
                        assert(rest[i - 1] == branches[i]);
                        assert(rfind_hash(rest[i - 1].chain@, h) == -1);
                    }
                }
            } else {
                assert forall|i: int|
                    0 <= i < branches.len() implies rfind_hash(
                    (#[trigger] branches[i]).chain@,
                    h,
                ) == -1 by {
                    if i > 0 {
                        assert(rest[i - 1] == branches[i]);
                        assert(rfind_hash(rest[i - 1].chain@, h) == -1);
                    }
                }
            }
        }
    }
}

impl ForkSet {
    /// Takes in a block received from elsewhere. The branch histories are
    /// searched for the block's parent: the first branch holding it wins,
    /// at the latest position it occurs. A parent at a branch tip extends
    /// that branch in place; a parent deeper in a branch forks it — the
    /// branch is copied up to the parent and the block goes on top of the
    /// copy, which joins the set. A parent found nowhere fails with
    /// `OrphanBlock`; the search is bounded and never spins.
    #[verifier::loop_isolation(false)]
    #[verifier::rlimit(60)]
    pub fn receive_block(&mut self, block: Block) -> (r: Result<(), ChainError>)
        requires
            old(self).wf(),
        ensures
            final(self).wf(),
            forall|s: BlockView| old(self).rooted(s) ==> final(self).rooted(s),
            ({
                let fi = find_branch(old(self).branches@, block.prev_hash@);
                if fi < 0 {
                    &&& r == Err::<(), ChainError>(ChainError::OrphanBlock)
                    &&& *final(self) == *old(self)
                } else {
                    let ob = old(self).branches@[fi];
                    let fj = rfind_hash(ob.chain@, block.prev_hash@);
                    &&& r == Ok::<(), ChainError>(())
                    &&& if fj == ob.chain@.len() - 1 {
                        &&& final(self).branches@.len() == old(self).branches@.len()
                        &&& forall|x: int|
                            0 <= x < old(self).branches@.len() && x != fi ==> final(self).branches@[x] == old(self).branches@[x]
                        &&& final(self).branches@[fi].chain@ == ob.chain@.push(block)
                        &&& final(self).branches@[fi].tr_queue@ == ob.tr_queue@
                    } else {
                        &&& final(self).branches@.len() == old(self).branches@.len() + 1
                        &&& final(self).branches@.take(old(self).branches@.len() as int) == old(self).branches@
                        &&& final(self).branches@.last().chain@ == ob.chain@.take(fj + 1).push(
                            block,
                        )
                        &&& final(self).branches@.last().tr_queue@ == ob.tr_queue@
                    }
                }
            }),
    {
        proof {
            lemma_find_branch(old(self).branches@, block.prev_hash@);
        }
        let nb = self.branches.len();
        let mut i: usize = 0;
        while i < nb
            invariant
                i <= nb,
                *self == *old(self),
                forall|x: int|
                    0 <= x < i ==> rfind_hash(
                        (#[trigger] old(self).branches@[x]).chain@,
                        block.prev_hash@,
                    ) == -1,
            decreases nb - i,
        {
            let ghost chain_seq = self.branches@[i as int].chain@;
            proof {
                lemma_rfind_hash(chain_seq, block.prev_hash@);
            }
            let clen = self.branches[i].chain.len();
            proof {
                assert(chain_seq.take(clen as int) =~= chain_seq);
            }
            let mut j: usize = clen;
            let mut found = false;
            while j > 0 && !found
                invariant
                    0 <= j <= clen,
                    clen == chain_seq.len(),
                    *self == *old(self),
                    chain_seq == self.branches@[i as int].chain@,
                    !found ==> rfind_hash(chain_seq, block.prev_hash@) == rfind_hash(
                        chain_seq.take(j as int),
                        block.prev_hash@,
                    ),
                    found ==> j >= 1 && rfind_hash(chain_seq, block.prev_hash@) == j - 1,
                decreases j + (if found { 0int } else { 1int }),
            {
                proof {
                    assert(chain_seq.take(j as int).drop_last() =~= chain_seq.take(j - 1));
                    assert(chain_seq.take(j as int).last() == chain_seq[j - 1]);
                }
                if self.branches[i].chain[j - 1].hash == block.prev_hash {
                    found = true;
                } else {
                    j = j - 1;
                }
            }
            if found {
                proof {
                    assert(rfind_hash(chain_seq, block.prev_hash@) >= 0);
                    assert(find_branch(old(self).branches@, block.prev_hash@) == i) by {
                        lemma_find_branch_prefix(old(self).branches@, block.prev_hash@, i as int);
                    }
                }
                let ghost fi = i as int;
                let ghost fj = (j - 1) as int;
                if j == clen {
                    // The parent is this branch's tip: extend in place.
                    let mut tmp = self.branches[i].clone();
                    tmp.chain.push(block);
                    self.branches.set(i, tmp);
                    proof {
                        assert(final(self).branches@[fi].chain@ =~= old(self).branches@[fi].chain@
                            .push(block));
                        lemma_rfind_hash(old(self).branches@[fi].chain@, block.prev_hash@);
                        assert(block.prev_hash@ == old(self).branches@[fi].chain@[fj].hash@);
                        assert forall|x: int|
                            0 <= x < final(self).branches@.len() implies (#[trigger] final(self)
                            .branches@[x]).wf() by {
                            if x != fi {
                                assert(old(self).branches@[x].wf());
                            } else {
                                let oc = old(self).branches@[fi].chain@;
                                let nc = final(self).branches@[fi].chain@;
                                assert forall|y: int|
                                    1 <= y < nc.len() implies #[trigger] nc[y].prev_hash@ == nc[y
                                    - 1].hash@ by {
                                    if y < oc.len() {
                                        assert(oc[y].prev_hash@ == oc[y - 1].hash@);
                                    }
                                }
                            }
                        }
                        assert forall|s: BlockView| old(self).rooted(s) implies final(self).rooted(
                            s,
                        ) by {
                            assert forall|x: int|
                                0 <= x < final(self).branches@.len() implies (#[trigger] final(self).branches@[x]).chain@[0]@ == s by {
                                assert(old(self).branches@[x].chain@[0]@ == s);
                            }
                        }
                    }
                    return Ok(());
                } else {
                    // The parent sits deeper in this branch: fork it there.
                    let mut tmp = self.branches[i].clone();
                    tmp.chain.truncate(j);
                    tmp.chain.push(block);
                    self.branches.push(tmp);
                    proof {
                        let oc = old(self).branches@[fi].chain@;
                        let nc = final(self).branches@.last().chain@;
                        assert(nc =~= oc.take(fj + 1).push(block));
                        assert(final(self).branches@.take(old(self).branches@.len() as int)
                            =~= old(self).branches@);
                        lemma_rfind_hash(oc, block.prev_hash@);
                        assert(block.prev_hash@ == oc[fj].hash@);
                        assert forall|x: int|
                            0 <= x < final(self).branches@.len() implies (#[trigger] final(self)
                            .branches@[x]).wf() by {
                            if x < old(self).branches@.len() {
                                assert(old(self).branches@[x].wf());
                            } else {
                                assert forall|y: int|
                                    1 <= y < nc.len() implies #[trigger] nc[y].prev_hash@ == nc[y
                                    - 1].hash@ by {
                                    if y < fj + 1 {
                                        assert(nc[y] == oc[y]);
                                        assert(nc[y - 1] == oc[y - 1]);
                                        assert(oc[y].prev_hash@ == oc[y - 1].hash@);
                                    }
                                }
                            }
                        }
                        assert forall|s: BlockView| old(self).rooted(s) implies final(self).rooted(
                            s,
                        ) by {
                            assert forall|x: int|
                                0 <= x < final(self).branches@.len() implies (#[trigger] final(self).branches@[x]).chain@[0]@ == s by {
                                if x < old(self).branches@.len() {
                                    assert(old(self).branches@[x].chain@[0]@ == s);
                                } else {
                                    assert(old(self).branches@[fi].chain@[0]@ == s);
                                    assert(nc[0] == oc.take(fj + 1)[0]);
                                }
                            }
                        }
                    }
                    return Ok(());
                }
            }
            proof {
                assert(chain_seq.take(0) =~= Seq::<Block>::empty());
                assert(rfind_hash(old(self).branches@[i as int].chain@, block.prev_hash@) == -1);
            }
            i = i + 1;
        }
        proof {
            assert(find_branch(old(self).branches@, block.prev_hash@) == -1) by {
                if find_branch(old(self).branches@, block.prev_hash@) >= 0 {
                    let fi = find_branch(old(self).branches@, block.prev_hash@);
                    assert(rfind_hash(old(self).branches@[fi].chain@, block.prev_hash@) == -1);
                }
            }
        }
        Err(ChainError::OrphanBlock)
    }
}

/// If no branch before `i` holds the hash and branch `i` does, the search
/// lands on `i`.
proof fn lemma_find_branch_prefix(branches: Seq<Blockchain>, h: Seq<char>, i: int)
    requires
        0 <= i < branches.len(),
        rfind_hash(branches[i].chain@, h) >= 0,
        forall|x: int| 0 <= x < i ==> rfind_hash((#[trigger] branches[x]).chain@, h) == -1,
    ensures
        find_branch(branches, h) == i,
    decreases i,
{
    if i == 0 {
    } else {
        let rest = branches.drop_first();
        assert forall|x: int| 0 <= x < rest.len() implies rest[x] == branches[x + 1] by {}
        lemma_find_branch_prefix(rest, h, i - 1);
        assert(rfind_hash(branches[0].chain@, h) == -1);
    }
}


impl Blockchain {
    /// The standalone fork-and-consensus simulation: seeds a fork set at the
    /// current tip, then steps it — every step extends a random branch, and
    /// on fixed step cadences a random branch is forked and the set is
    /// resolved. It stops as soon as a resolve step merges a sole surviving
    /// branch into this chain, or when `fork_duration` wall-clock seconds
    /// have elapsed, whichever comes first. (Steps, not wall-clock timers,
    /// drive the three transitions, so the simulation converges quickly; the
    /// wall clock only bounds the whole run.) The chain only ever grows:
    /// what was there before stays.
    #[verifier::loop_isolation(false)]
    pub fn fork(&mut self, fork_duration: u64)
        requires
            old(self).wf(),
        ensures
            final(self).wf(),
            final(self).chain@.len() >= old(self).chain@.len(),
            final(self).chain@.take(old(self).chain@.len() as int) == old(self).chain@,
            final(self).tr_queue@.take(old(self).tr_queue@.len() as int) == old(self).tr_queue@,
            forall|i: int|
                old(self).chain@.len() <= i < final(self).chain@.len() ==> (#[trigger] final(
                self).chain@[i]).sealed() && difficulty_ok(final(self).chain@[i].hash@)
                    && is_hex_digest(final(self).chain@[i].hash@),
    {
        let start = now_unix_seconds();
        let tip_index = self.chain.len() - 1;
        let mut forks = ForkSet::new(&self.chain[tip_index]);
        let mut iters: u64 = 0;
        proof {
            assert(self.chain@.take(old(self).chain@.len() as int) =~= old(self).chain@);
            assert(self.tr_queue@.take(old(self).tr_queue@.len() as int) =~= old(self).tr_queue@);
            assert(forks.mined_above_seed());
        }
        while iters < 0xffff_ffff_ffff_ffff
            invariant
                self.wf(),
                forks.wf(),
                forks.rooted(self.spec_tip()@),
                forks.mined_above_seed(),
                forall|i: int|
                    old(self).chain@.len() <= i < self.chain@.len() ==> (#[trigger] self
                    .chain@[i]).sealed() && difficulty_ok(self.chain@[i].hash@)
                        && is_hex_digest(self.chain@[i].hash@),
                self.chain@.len() >= old(self).chain@.len(),
                self.chain@.take(old(self).chain@.len() as int) == old(self).chain@,
                self.tr_queue@.len() >= old(self).tr_queue@.len(),
                self.tr_queue@.take(old(self).tr_queue@.len() as int) == old(self).tr_queue@,
            decreases 0xffff_ffff_ffff_ffffu64 - iters,
        {
            let tick = iters % 185;
            let now = now_unix_seconds();
            let elapsed: i128 = (now as i128) - (start as i128);
            if elapsed >= (fork_duration as i128) {
                break ;
            }
            // Extend: mint one block onto a random branch.
            let idx = random_index(forks.branches.len());
            let amount = random_below(100_000_000);
            let _extended = forks.extend(idx, "sender".to_owned(), "receiver".to_owned(), amount);
            // Diverge: fork a random branch on its own schedule.
            if tick % 5 == 4 {
                let idx2 = random_index(forks.branches.len());
                let amount2 = random_below(100_000_000);
                let _forked = forks.diverge(
                    idx2,
                    "sender".to_owned(),
                    "receiver".to_owned(),
                    amount2,
                );
            }
            // Resolve: prune to the longest branches; merge a sole survivor.
            if tick % 37 == 36 {
                let ghost chain_before = self.chain@;
                let ghost queue_before = self.tr_queue@;
                let merged = forks.resolve(self);
                proof {
                    assert(chain_before.take(old(self).chain@.len() as int) == old(self).chain@);
                    assert(queue_before.take(old(self).tr_queue@.len() as int) == old(self).tr_queue@);
                    assert(self.chain@.take(chain_before.len() as int) =~= chain_before);
                    assert(self.tr_queue@.take(queue_before.len() as int) =~= queue_before);
                    assert(self.chain@.take(old(self).chain@.len() as int) =~= old(self).chain@);
                    assert(self.tr_queue@.take(queue_before.len() as int) =~= queue_before);
                    assert(self.tr_queue@.take(old(self).tr_queue@.len() as int) =~= old(self).tr_queue@);
                    assert forall|i: int|
                        old(self).chain@.len() <= i < self.chain@.len() implies (#[trigger] self
                        .chain@[i]).sealed() && difficulty_ok(self.chain@[i].hash@)
                            && is_hex_digest(self.chain@[i].hash@) by {
                        if i < chain_before.len() {
                            assert(self.chain@[i] == chain_before[i]);
                        }
                    }
                }
                if merged {
                    break ;
                }
            }
            iters = iters + 1;
        }
    }
}

} // verus!
