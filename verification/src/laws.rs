//! The laws of the chain: what holds of every well-formed chain, and what
//! one acceptance step preserves.

use vstd::prelude::*;
use crate::constants::{KEYSTORE_DIFFICULTY, LOCKER_BLOCK_START, LOCKER_BLOCK_SIGNS,
    LOCKER_BLOCK_INTERVAL, NEW_DOMAINS_INTERVAL, ZONE_DIFFICULTY, MAX_CLOCK_SKEW, MAX_TIMESTAMP};
use crate::hashing::spec_key_strong;
use crate::block::{BlockV, hash_ok, sig_ok, pow_ok, spec_is_genesis};
use crate::bytes::seq_is_zero;
use crate::chain::{ChainV, BlockQuality, chain_positioned, chain_secured, chain_wf,
    spec_classify, spec_extends, spec_tx_admissible, spec_next_allowed, spec_last_full,
    spec_last_full_for_key, spec_latest_commit, spec_id_available, spec_id_in_chain, commits_id,
    is_full, is_zone_class, is_domain_class, spec_signers, spec_signers_rec, walk_index,
    spec_height, spec_get_block, spec_required_difficulty, spec_zone_difficulty,
    lemma_last_full_props, lemma_last_full_key_props, block_secured, zone_row_named};

verus! {

/// Every block of a well-formed chain stands at its height, links to its
/// predecessor, carries its own content hash meeting its difficulty, a
/// verifying signature, and a strong key.
pub proof fn law_chain_invariants(c: ChainV)
    requires
        chain_wf(c),
    ensures
        forall|i: int| 0 <= i < c.blocks.len() ==> (#[trigger] c.blocks[i]).index == i + 1,
        forall|i: int|
            1 <= i < c.blocks.len() ==> (#[trigger] c.blocks[i]).prev_block_hash == c.blocks[i
                - 1].hash,
        c.blocks.len() > 0 ==> spec_is_genesis(c.blocks[0]),
        forall|i: int| 0 <= i < c.blocks.len() ==> hash_ok(#[trigger] c.blocks[i]),
        forall|i: int| 0 <= i < c.blocks.len() ==> sig_ok(#[trigger] c.blocks[i]),
        forall|i: int| 0 <= i < c.blocks.len() ==> pow_ok(#[trigger] c.blocks[i]),
        forall|i: int|
            0 <= i < c.blocks.len() ==> spec_key_strong(
                (#[trigger] c.blocks[i]).pub_key,
                KEYSTORE_DIFFICULTY,
            ),
{
    if c.blocks.len() > 0 {
        assert(c.blocks[0].index == 1);
    }
}

proof fn lemma_signers_rec_window(
    bs1: Seq<BlockV>,
    bs2: Seq<BlockV>,
    f: BlockV,
    count: u64,
    acc: Seq<Seq<u8>>,
)
    requires
        f.index >= LOCKER_BLOCK_INTERVAL,
        bs1.len() >= f.index,
        bs2.len() >= f.index,
        forall|i: int| 0 <= i < f.index ==> bs1[i] == bs2[i],
        1 <= count <= crate::constants::LOCKER_WALK_BOUND + 1,
    ensures
        spec_signers_rec(bs1, f, count, acc) == spec_signers_rec(bs2, f, count, acc),
    decreases crate::constants::LOCKER_WALK_BOUND + 1 - count,
{
    if !(count > crate::constants::LOCKER_WALK_BOUND || acc.len()
        >= crate::constants::LOCKER_BLOCK_LOCKERS) {
        let idx = walk_index(f, count);
        assert(1 <= idx <= f.index);
        assert(bs1[idx - 1] == bs2[idx - 1]);
        let b = bs1[idx - 1];
        let acc2 = if b.pub_key != f.pub_key && !acc.contains(b.pub_key) {
            acc.push(b.pub_key)
        } else {
            acc
        };
        lemma_signers_rec_window(bs1, bs2, f, (count + 1) as u64, acc2);
    }
}

/// The committee of a full block is a function of the block and the chain
/// below it alone: two chains that agree below the block agree on its
/// committee.  In particular two instances built from the same block
/// sequence select the same committee in the same order.
pub proof fn law_committee_deterministic(bs1: Seq<BlockV>, bs2: Seq<BlockV>, f: BlockV)
    requires
        f.index >= LOCKER_BLOCK_INTERVAL,
        bs1.len() >= f.index,
        bs2.len() >= f.index,
        forall|i: int| 0 <= i < f.index ==> bs1[i] == bs2[i],
    ensures
        spec_signers(bs1, f) == spec_signers(bs2, f),
{
    lemma_signers_rec_window(bs1, bs2, f, 1, Seq::<Seq<u8>>::empty());
}

/// What a valid genesis block is: every block-local rule holds, it stands
/// at height one with no predecessor, and it matches the configured origin
/// where one is set.
pub open spec fn valid_genesis(c: ChainV, b: BlockV, now: int) -> bool {
    &&& b.timestamp <= now + MAX_CLOCK_SKEW
    &&& block_secured(b)
    &&& b.difficulty >= spec_required_difficulty(c.blocks, b)
    &&& spec_is_genesis(b)
    &&& (seq_is_zero(c.origin) || b.hash == c.origin)
}

/// On the empty chain, the validator answers Good exactly for valid
/// genesis blocks.
pub proof fn law_genesis_classification(c: ChainV, b: BlockV, now: int)
    requires
        c.blocks.len() == 0,
    ensures
        spec_classify(c, b, now) == BlockQuality::Good <==> valid_genesis(c, b, now),
{
    assert(spec_latest_commit(c.blocks, b.transaction->Some_0.identity, true) is None);
    assert(spec_latest_commit(c.blocks, b.transaction->Some_0.identity, false) is None);
    assert(spec_last_full_for_key(c.blocks, b.pub_key) is None);
    assert(spec_tx_admissible(c.blocks, b));
}

/// The height a full block must wait for never goes down as the chain
/// grows by one accepted block.
pub proof fn law_next_allowed_monotone(c: ChainV, b: BlockV)
    requires
        chain_positioned(c),
        spec_extends(c, b),
    ensures
        spec_next_allowed(ChainV { blocks: c.blocks.push(b), ..c }) >= spec_next_allowed(c),
{
    let bs = c.blocks;
    let bs2 = bs.push(b);
    let c2 = ChainV { blocks: bs2, ..c };
    assert(bs2.drop_last() =~= bs);
    assert(bs2.last() == b);
    lemma_last_full_props(bs);
    assert(spec_height(bs2) == bs.len() + 1);
    if bs.len() > 0 {
        assert(spec_height(bs) == bs.len());
    }
    if is_full(b) {
        assert(spec_last_full(bs2) == Some(b));
    } else {
        assert(spec_last_full(bs2) == spec_last_full(bs));
    }
}

/// A block the chain just accepted is classified Twin or Bad when it is
/// presented again: acceptance is not repeatable.
#[verifier::rlimit(100)]
#[verifier::spinoff_prover]
pub proof fn law_accepted_block_reclassified(c: ChainV, b: BlockV, now: int)
    requires
        chain_positioned(c),
        spec_extends(c, b),
        spec_classify(c, b, now) == BlockQuality::Good,
    ensures
        spec_classify(ChainV { blocks: c.blocks.push(b), ..c }, b, now) == BlockQuality::Twin
            || spec_classify(ChainV { blocks: c.blocks.push(b), ..c }, b, now)
            == BlockQuality::Bad,
{
    let bs = c.blocks;
    let bs2 = bs.push(b);
    let c2 = ChainV { blocks: bs2, ..c };
    assert(bs2.drop_last() =~= bs);
    assert(bs2.last() == b);
    let verdict = spec_classify(c2, b, now);
    if verdict != BlockQuality::Bad {
        assert(bs2.len() > 0);
        assert(b.index == bs2.last().index);
        assert(!(b.timestamp < bs2.last().timestamp && b.index > bs2.last().index));
        assert(!(b.index > bs2.last().index + 1));
        assert(b.index <= bs2.last().index);
        assert(b.index == bs2.last().index && bs2.last().hash == b.hash);
        assert(verdict == BlockQuality::Twin);
    }
}

/// Timestamps never decrease along the chain.
pub open spec fn timestamps_monotone(bs: Seq<BlockV>) -> bool {
    forall|i: int|
        1 <= i < bs.len() ==> (#[trigger] bs[i]).timestamp >= bs[i - 1].timestamp
}

/// Two blocks committing the same identity in the zone registry.
pub open spec fn same_zone_commit(a: BlockV, b: BlockV) -> bool {
    match (a.transaction, b.transaction) {
        (Some(ta), Some(tb)) => is_zone_class(ta) && is_zone_class(tb) && ta.identity
            == tb.identity,
        _ => false,
    }
}

/// Two blocks committing the same identity in the domain registry.
pub open spec fn same_domain_commit(a: BlockV, b: BlockV) -> bool {
    match (a.transaction, b.transaction) {
        (Some(ta), Some(tb)) => is_domain_class(ta) && is_domain_class(tb) && ta.identity
            == tb.identity,
        _ => false,
    }
}

/// Identity uniqueness: all commitments of one identity carry the same
/// claiming key.
pub open spec fn identity_unique(bs: Seq<BlockV>) -> bool {
    &&& forall|i: int, j: int|
        0 <= i < j < bs.len() && #[trigger] same_zone_commit(bs[i], bs[j])
            ==> bs[i].transaction->Some_0.pub_key == bs[j].transaction->Some_0.pub_key
    &&& forall|i: int, j: int|
        0 <= i < j < bs.len() && #[trigger] same_domain_commit(bs[i], bs[j])
            ==> bs[i].transaction->Some_0.pub_key == bs[j].transaction->Some_0.pub_key
}

/// A block at position `j` committing an identity that no earlier block
/// commits in the same registry.
pub open spec fn first_time_commit(bs: Seq<BlockV>, j: int) -> bool {
    &&& 0 <= j < bs.len()
    &&& is_full(bs[j])
    &&& !spec_id_in_chain(
        bs.subrange(0, j),
        bs[j].transaction->Some_0.identity,
        is_zone_class(bs[j].transaction->Some_0),
    )
}

/// Cool-down: two first-time commitments by one key are separated by the
/// new-domains interval.
pub open spec fn cooldown_respected(bs: Seq<BlockV>) -> bool {
    forall|i: int, j: int|
        #![trigger first_time_commit(bs, i), first_time_commit(bs, j)]
        0 <= i < j < bs.len() && first_time_commit(bs, i) && first_time_commit(bs, j)
            && bs[i].pub_key == bs[j].pub_key ==> bs[j].timestamp >= bs[i].timestamp
            + NEW_DOMAINS_INTERVAL
}

/// Spacing of full blocks under the locker rule: above any full block at or
/// past the locker start, the next positions up to the required signature
/// count hold no full block.
pub open spec fn locker_spacing(bs: Seq<BlockV>) -> bool {
    forall|p: int, j: int|
        0 <= p < j < bs.len() && is_full(#[trigger] bs[p]) && bs[p].index >= LOCKER_BLOCK_START
            && j <= p + LOCKER_BLOCK_SIGNS ==> !is_full(#[trigger] bs[j])
}

/// Everything the chain's laws promise of a chain built from accepted
/// blocks.
pub open spec fn chain_strong(c: ChainV) -> bool {
    &&& chain_wf(c)
    &&& timestamps_monotone(c.blocks)
    &&& identity_unique(c.blocks)
    &&& cooldown_respected(c.blocks)
    &&& locker_spacing(c.blocks)
}

/// The empty chain satisfies every law.
pub proof fn law_strong_empty(c: ChainV)
    requires
        c.blocks.len() == 0,
    ensures
        chain_strong(c),
{
}

proof fn lemma_commit_implies_latest(bs: Seq<BlockV>, id: Seq<u8>, zone: bool, i: int)
    requires
        0 <= i < bs.len(),
        commits_id(bs[i], id, zone),
    ensures
        spec_latest_commit(bs, id, zone) is Some,
    decreases bs.len(),
{
    if !commits_id(bs.last(), id, zone) {
        assert(bs.drop_last()[i] == bs[i]);
        lemma_commit_implies_latest(bs.drop_last(), id, zone, i);
    }
}

proof fn lemma_latest_commit_member(bs: Seq<BlockV>, id: Seq<u8>, zone: bool)
    requires
        spec_latest_commit(bs, id, zone) is Some,
    ensures
        exists|k: int|
            0 <= k < bs.len() && bs[k] == spec_latest_commit(bs, id, zone)->Some_0
                && commits_id(#[trigger] bs[k], id, zone),
    decreases bs.len(),
{
    if commits_id(bs.last(), id, zone) {
        assert(bs[bs.len() - 1] == bs.last());
    } else {
        lemma_latest_commit_member(bs.drop_last(), id, zone);
        let k = choose|k: int|
            0 <= k < bs.drop_last().len() && bs.drop_last()[k] == spec_latest_commit(
                bs.drop_last(),
                id,
                zone,
            )->Some_0 && commits_id(#[trigger] bs.drop_last()[k], id, zone);
        assert(bs[k] == bs.drop_last()[k]);
        assert(commits_id(bs[k], id, zone));
    }
}

proof fn lemma_preserve_wf(c: ChainV, b: BlockV, now: int)
    requires
        chain_wf(c),
        spec_extends(c, b),
        spec_classify(c, b, now) == BlockQuality::Good,
    ensures
        chain_wf(ChainV { blocks: c.blocks.push(b), ..c }),
{
    let bs = c.blocks;
    let bs2 = bs.push(b);
    let c2 = ChainV { blocks: bs2, ..c };
    crate::chain::lemma_good_block_secured(c, b, now);
    assert forall|i: int| 0 <= i < bs2.len() implies (#[trigger] bs2[i]).index == i + 1 by {
        if i < bs.len() {
            assert(bs2[i] == bs[i]);
        }
    }
    assert forall|i: int|
        1 <= i < bs2.len() implies (#[trigger] bs2[i]).prev_block_hash == bs2[i - 1].hash by {
        if i < bs.len() {
            assert(bs2[i] == bs[i]);
        } else {
            assert(bs2[i - 1] == bs.last());
        }
    }
    assert forall|i: int|
        0 <= i < bs2.len() implies -(MAX_TIMESTAMP + MAX_CLOCK_SKEW) <= (
    #[trigger] bs2[i]).timestamp <= MAX_TIMESTAMP + MAX_CLOCK_SKEW && hash_ok(bs2[i]) && sig_ok(
        bs2[i],
    ) && pow_ok(bs2[i]) && spec_key_strong(bs2[i].pub_key, KEYSTORE_DIFFICULTY) by {
        if i < bs.len() {
            assert(bs2[i] == bs[i]);
        }
    }
}

proof fn lemma_preserve_monotone(c: ChainV, b: BlockV, now: int)
    requires
        chain_positioned(c),
        timestamps_monotone(c.blocks),
        spec_extends(c, b),
        spec_classify(c, b, now) == BlockQuality::Good,
    ensures
        timestamps_monotone(c.blocks.push(b)),
{
    let bs = c.blocks;
    let bs2 = bs.push(b);
    assert forall|i: int|
        1 <= i < bs2.len() implies (#[trigger] bs2[i]).timestamp >= bs2[i - 1].timestamp by {
        if i < bs.len() {
            assert(bs2[i] == bs[i]);
        } else {
            assert(bs2[i - 1] == bs.last());
            assert(b.index > bs.last().index);
            assert(!(b.timestamp < bs.last().timestamp && b.index > bs.last().index));
        }
    }
}

#[verifier::rlimit(100)]
#[verifier::spinoff_prover]
proof fn lemma_preserve_identity(c: ChainV, b: BlockV, now: int)
    requires
        chain_positioned(c),
        identity_unique(c.blocks),
        spec_extends(c, b),
        spec_classify(c, b, now) == BlockQuality::Good,
        b.transaction is Some ==> b.transaction->Some_0.pub_key == b.pub_key,
    ensures
        identity_unique(c.blocks.push(b)),
{
    let bs = c.blocks;
    let bs2 = bs.push(b);
    assert(spec_tx_admissible(bs, b));
    assert forall|i: int, j: int|
        0 <= i < j < bs2.len() && #[trigger] same_zone_commit(bs2[i], bs2[j])
            implies bs2[i].transaction->Some_0.pub_key
        == bs2[j].transaction->Some_0.pub_key by {
        if j < bs.len() {
            assert(bs2[i] == bs[i] && bs2[j] == bs[j]);
            assert(same_zone_commit(bs[i], bs[j]));
        } else {
            assert(bs2[i] == bs[i] && bs2[j] == b);
            let t = b.transaction->Some_0;
            let ti = bs[i].transaction->Some_0;
            reveal_strlit("zone");
            reveal_strlit("domain");
            assert(is_zone_class(t));
            assert(commits_id(bs[i], t.identity, true));
            lemma_commit_implies_latest(bs, t.identity, true, i);
            lemma_latest_commit_member(bs, t.identity, true);
            let m = choose|k: int|
                0 <= k < bs.len() && bs[k] == spec_latest_commit(bs, t.identity, true)->Some_0
                    && commits_id(#[trigger] bs[k], t.identity, true);
            assert(spec_id_available(bs, t.identity, b.pub_key, is_zone_class(t)));
            assert(bs[m].transaction->Some_0.pub_key == b.pub_key);
            if i != m {
                if i < m {
                    assert(same_zone_commit(bs[i], bs[m]));
                } else {
                    assert(same_zone_commit(bs[m], bs[i]));
                }
            }
            assert(ti.pub_key == b.pub_key);
        }
    }
    assert forall|i: int, j: int|
        0 <= i < j < bs2.len() && #[trigger] same_domain_commit(bs2[i], bs2[j])
            implies bs2[i].transaction->Some_0.pub_key
        == bs2[j].transaction->Some_0.pub_key by {
        if j < bs.len() {
            assert(bs2[i] == bs[i] && bs2[j] == bs[j]);
            assert(same_domain_commit(bs[i], bs[j]));
        } else {
            assert(bs2[i] == bs[i] && bs2[j] == b);
            let t = b.transaction->Some_0;
            let ti = bs[i].transaction->Some_0;
            reveal_strlit("zone");
            reveal_strlit("domain");
            assert(is_domain_class(t));
            assert(!is_zone_class(t)) by {
                assert("zone"@.len() == 4 && "domain"@.len() == 6);
            }
            assert(commits_id(bs[i], t.identity, false));
            lemma_commit_implies_latest(bs, t.identity, false, i);
            lemma_latest_commit_member(bs, t.identity, false);
            let m = choose|k: int|
                0 <= k < bs.len() && bs[k] == spec_latest_commit(bs, t.identity, false)->Some_0
                    && commits_id(#[trigger] bs[k], t.identity, false);
            assert(spec_id_available(bs, t.identity, b.pub_key, is_zone_class(t)));
            assert(bs[m].transaction->Some_0.pub_key == b.pub_key);
            if i != m {
                if i < m {
                    assert(same_domain_commit(bs[i], bs[m]));
                } else {
                    assert(same_domain_commit(bs[m], bs[i]));
                }
            }
            assert(ti.pub_key == b.pub_key);
        }
    }
}

#[verifier::rlimit(100)]
#[verifier::spinoff_prover]
proof fn lemma_preserve_cooldown(c: ChainV, b: BlockV, now: int)
    requires
        chain_positioned(c),
        timestamps_monotone(c.blocks),
        cooldown_respected(c.blocks),
        spec_extends(c, b),
        spec_classify(c, b, now) == BlockQuality::Good,
    ensures
        cooldown_respected(c.blocks.push(b)),
{
    let bs = c.blocks;
    let bs2 = bs.push(b);
    assert(spec_tx_admissible(bs, b));
    assert forall|i: int, j: int|
        #![trigger first_time_commit(bs2, i), first_time_commit(bs2, j)]
        0 <= i < j < bs2.len() && first_time_commit(bs2, i) && first_time_commit(bs2, j)
            && bs2[i].pub_key == bs2[j].pub_key implies bs2[j].timestamp >= bs2[i].timestamp
        + NEW_DOMAINS_INTERVAL by {
        if j < bs.len() {
            assert(bs2[i] == bs[i] && bs2[j] == bs[j]);
            assert(bs2.subrange(0, i) =~= bs.subrange(0, i));
            assert(bs2.subrange(0, j) =~= bs.subrange(0, j));
            assert(first_time_commit(bs, i) && first_time_commit(bs, j));
        } else {
            assert(bs2[i] == bs[i] && bs2[j] == b);
            assert(bs2.subrange(0, i) =~= bs.subrange(0, i));
            assert(bs2.subrange(0, j) =~= bs);
            let t = b.transaction->Some_0;
            lemma_last_full_key_props(bs, b.pub_key);
            match spec_last_full_for_key(bs, b.pub_key) {
                None => {
                    assert(is_full(bs[i]) && bs[i].pub_key == b.pub_key);
                    assert(false);
                },
                Some(last) => {
                    assert(!spec_id_in_chain(bs, t.identity, is_zone_class(t)));
                    assert(last.timestamp + NEW_DOMAINS_INTERVAL <= b.timestamp);
                    let p = last.index - 1;
                    assert(bs[p] == last);
                    assert(i <= p) by {
                        if i > p {
                            assert(is_full(bs[i]) && bs[i].pub_key == b.pub_key);
                            assert(false);
                        }
                    }
                    lemma_timestamp_ordered(bs, i, p);
                },
            }
        }
    }
}

#[verifier::rlimit(100)]
#[verifier::spinoff_prover]
proof fn lemma_preserve_spacing(c: ChainV, b: BlockV, now: int)
    requires
        chain_positioned(c),
        locker_spacing(c.blocks),
        spec_extends(c, b),
        spec_classify(c, b, now) == BlockQuality::Good,
    ensures
        locker_spacing(c.blocks.push(b)),
{
    let bs = c.blocks;
    let bs2 = bs.push(b);
    assert forall|p: int, j: int|
        0 <= p < j < bs2.len() && is_full(#[trigger] bs2[p]) && bs2[p].index
            >= LOCKER_BLOCK_START && j <= p + LOCKER_BLOCK_SIGNS implies !is_full(
        #[trigger] bs2[j],
    ) by {
        if j < bs.len() {
            assert(bs2[p] == bs[p] && bs2[j] == bs[j]);
        } else {
            assert(bs2[p] == bs[p] && bs2[j] == b);
            if is_full(b) {
                lemma_last_full_props(bs);
                match spec_last_full(bs) {
                    None => {
                        assert(!is_full(bs[p]));
                        assert(false);
                    },
                    Some(f) => {
                        let q = f.index - 1;
                        assert(b.index >= LOCKER_BLOCK_START) by {
                            assert(b.index == bs.len() + 1);
                            assert(bs[p].index == p + 1);
                        }
                        assert(spec_height(bs) == bs.len()) by {
                            assert(bs.last() == bs[bs.len() - 1]);
                        }
                        let k = spec_height(bs) as int - f.index as int;
                        assert(!spec_locker_violation_holds(c, b));
                        if q < p {
                            assert(!is_full(bs[p]));
                            assert(false);
                        } else if q == p {
                            assert(k >= LOCKER_BLOCK_SIGNS);
                            assert(j > p + LOCKER_BLOCK_SIGNS);
                            assert(false);
                        } else {
                            assert(q <= p + LOCKER_BLOCK_SIGNS) by {
                                assert(j == bs.len());
                                assert(q < bs.len());
                            }
                            assert(is_full(bs[q]));
                            assert(false);
                        }
                    },
                }
            }
        }
    }
}

/// The locker rule as the validator applies it to this candidate.
spec fn spec_locker_violation_holds(c: ChainV, b: BlockV) -> bool {
    crate::chain::spec_locker_violation(c.blocks, b)
}

/// One acceptance step preserves every law: a chain of accepted blocks
/// keeps timestamps monotone, identities uniquely owned, cool-downs
/// respected and full blocks spaced by the locker rule.  Transactions are
/// claimed by the key that mined the block; a block whose transaction names
/// another key is outside this law.
pub proof fn law_good_block_preserves_strong(c: ChainV, b: BlockV, now: int)
    requires
        chain_strong(c),
        spec_extends(c, b),
        spec_classify(c, b, now) == BlockQuality::Good,
        b.transaction is Some ==> b.transaction->Some_0.pub_key == b.pub_key,
    ensures
        chain_strong(ChainV { blocks: c.blocks.push(b), ..c }),
{
    lemma_preserve_wf(c, b, now);
    lemma_preserve_monotone(c, b, now);
    lemma_preserve_identity(c, b, now);
    lemma_preserve_cooldown(c, b, now);
    lemma_preserve_spacing(c, b, now);
}

/// Within a timestamp-monotone chain, earlier blocks carry timestamps no
/// later than later ones.
proof fn lemma_timestamp_ordered(bs: Seq<BlockV>, i: int, j: int)
    requires
        timestamps_monotone(bs),
        0 <= i <= j < bs.len(),
    ensures
        bs[i].timestamp <= bs[j].timestamp,
    decreases j - i,
{
    if i < j {
        lemma_timestamp_ordered(bs, i, j - 1);
    }
}

} // verus!
