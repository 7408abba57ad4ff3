use alfis_core::bytes::Bytes;
use alfis_core::chain::{Chain, BlockQuality, MineResult};
use alfis_core::block::Block;
use alfis_core::transaction::Transaction;
use alfis_core::keys::Keystore;
use alfis_core::hashing::hash_identity;
use alfis_core::miner::{Miner, scan_nonces, preflight_job, MineJob};
use alfis_core::event::Event;
use alfis_core::constants::{ZONE_DIFFICULTY, LOCKER_DIFFICULTY, NEW_DOMAINS_INTERVAL,
    LOCKER_BLOCK_LOCKERS};

const BASE: i64 = 1600000000;
const STEP: i64 = 200000;

fn keystore(tag: u8) -> Keystore {
    let mut seed = vec![0u8; 32];
    seed[0] = tag;
    Keystore::from_secret(Bytes::from_vec(seed)).unwrap()
}

fn mine(mut block: Block, ks: &Keystore, ts: i64) -> Block {
    block.timestamp = ts;
    block.pub_key = ks.get_public();
    block.hash = Bytes::default();
    block.signature = Bytes::default();
    let mut start: u64 = 0;
    loop {
        if let Some(mut won) = scan_nonces(&block, start, 100000) {
            let image = won.as_bytes();
            won.signature = ks.sign(&image);
            return won;
        }
        start += 100000;
    }
}

fn zone_tx_with_identity(identity: Bytes, name: &str, ks: &Keystore, difficulty: u32)
    -> Transaction {
    Transaction {
        identity,
        confirmation: Bytes::default(),
        class: String::from("zone"),
        data: format!("{{\"name\":\"{}\",\"difficulty\":{}}}", name, difficulty),
        pub_key: ks.get_public(),
    }
}

fn zone_tx(name: &str, ks: &Keystore, difficulty: u32) -> Transaction {
    zone_tx_with_identity(hash_identity(name), name, ks, difficulty)
}

fn domain_tx(name: &str, zone: &str, ks: &Keystore) -> Transaction {
    Transaction {
        identity: hash_identity(name),
        confirmation: Bytes::default(),
        class: String::from("domain"),
        data: format!("{{\"zone\":\"{}\"}}", zone),
        pub_key: ks.get_public(),
    }
}

fn mine_next(chain: &Chain, tx: Option<Transaction>, ks: &Keystore, difficulty: u32, ts: i64)
    -> Block {
    let mut block = Block::new(tx, ks.get_public(), chain.last_hash(), difficulty);
    block.index = chain.height() + 1;
    mine(block, ks, ts)
}

/// A block for a pre-built chain state; its hash is an arbitrary marker,
/// never recomputed by the store.
fn craft(chain: &mut Chain, tx: Option<Transaction>, key: &Bytes, ts: i64, salt: u8) {
    let index = chain.height() + 1;
    let mut hash = vec![salt; 32];
    hash[0] = index as u8;
    hash[31] = 1;
    let block = Block::from_all_params(index, ts, 1, 0, 0, 0, chain.last_hash(),
        Bytes::from_vec(hash), key.clone(), Bytes::from_bytes(&[0; 64]), tx);
    chain.add_block(block);
}

#[test]
fn genesis_bootstrap() {
    let mut chain = Chain::new(Bytes::default());
    let ks = keystore(10);
    let genesis = mine_next(&chain, Some(zone_tx("alfis", &ks, 1)), &ks, ZONE_DIFFICULTY, BASE);
    let q = chain.check_and_add_block(genesis.clone(), BASE);
    assert_eq!(q, BlockQuality::Good);
    assert_eq!(chain.height(), 1);
    assert!(chain.get_block(1).is_some());

    // The same block presented again is never accepted a second time.
    let again = chain.check_and_add_block(genesis.clone(), BASE);
    assert!(again == BlockQuality::Twin || again == BlockQuality::Bad);
    assert_eq!(chain.height(), 1);

    // A configured origin decides which genesis is welcome.
    let mut strict = Chain::new(Bytes::from_bytes(&[7; 32]));
    assert_eq!(strict.check_and_add_block(genesis.clone(), BASE), BlockQuality::Bad);
    let mut matching = Chain::new(genesis.hash.clone());
    assert_eq!(matching.check_and_add_block(genesis, BASE), BlockQuality::Good);
}

#[test]
fn zone_difficulty_gates_domains() {
    let mut chain = Chain::new(Bytes::default());
    let k1 = keystore(11);
    let k2 = keystore(12);
    craft(&mut chain, Some(zone_tx("alfis", &k1, 1)), &k1.get_public(), BASE, 0x21);
    assert_eq!(chain.get_zone_difficulty("alfis"), 1);
    assert_eq!(chain.get_zone_difficulty("nosuch"), u32::MAX);

    // A domain block whose difficulty is below the zone's requirement is
    // refused; one at exactly the requirement is accepted when its hash
    // meets it.
    let ts = BASE + STEP;
    let tx = domain_tx("bob.alfis", "alfis", &k2);
    let weak = mine_next(&chain, Some(tx.clone()), &k2, 0, ts);
    assert_eq!(chain.check_and_add_block(weak, ts), BlockQuality::Bad);
    let exact = mine_next(&chain, Some(tx), &k2, 1, ts);
    assert_eq!(chain.check_and_add_block(exact, ts), BlockQuality::Good);
    assert_eq!(chain.height(), 2);
    assert!(chain.get_domain_transaction("bob.alfis", ts).is_some());
    assert!(chain.get_domain_info("bob.alfis", ts).is_some());
}

#[test]
fn cooldown_rules() {
    let mut chain = Chain::new(Bytes::default());
    let k1 = keystore(13);
    let k2 = keystore(14);
    craft(&mut chain, Some(zone_tx("alfis", &k1, 1)), &k1.get_public(), BASE, 0x22);
    let t_bob = BASE + STEP;
    let bob_tx = domain_tx("bob.alfis", "alfis", &k2);
    craft(&mut chain, Some(bob_tx.clone()), &k2.get_public(), t_bob, 0x23);

    // A new identity by the same key inside the interval is refused.
    let early = t_bob + NEW_DOMAINS_INTERVAL - 1;
    let alice_tx = domain_tx("alice.alfis", "alfis", &k2);
    let alice_early = mine_next(&chain, Some(alice_tx.clone()), &k2, 1, early);
    assert_eq!(chain.check_new_block(&alice_early, early), BlockQuality::Bad);

    // Re-registering an identity the key already owns is free of the
    // cool-down even inside the interval.
    let rebob = mine_next(&chain, Some(bob_tx), &k2, 1, early);
    assert_eq!(chain.check_new_block(&rebob, early), BlockQuality::Good);

    // At the interval, the new identity is accepted.
    let due = t_bob + NEW_DOMAINS_INTERVAL;
    let alice = mine_next(&chain, Some(alice_tx), &k2, 1, due);
    assert_eq!(chain.check_and_add_block(alice, due), BlockQuality::Good);
    assert_eq!(chain.height(), 3);
}

#[test]
fn friendly_mining_verdicts() {
    let mut chain = Chain::new(Bytes::default());
    let k1 = keystore(15);
    let k2 = keystore(16);
    let k3 = keystore(17);
    craft(&mut chain, Some(zone_tx("alfis", &k1, 1)), &k1.get_public(), BASE, 0x24);
    let t_bob = BASE + STEP;
    craft(&mut chain, Some(domain_tx("bob.alfis", "alfis", &k2)), &k2.get_public(), t_bob,
        0x25);
    let now = t_bob + 10;
    assert!(matches!(chain.can_mine_domain("bad..name", &k2.get_public(), now),
        MineResult::WrongName));
    assert!(matches!(chain.can_mine_domain("x.nozone", &k2.get_public(), now),
        MineResult::WrongZone));
    assert!(matches!(chain.can_mine_domain("bob.alfis", &k3.get_public(), now),
        MineResult::NotOwned));
    assert!(matches!(chain.can_mine_domain("alice.alfis", &k2.get_public(), now),
        MineResult::Cooldown { .. }));
    assert!(matches!(chain.can_mine_domain("carol.alfis", &k3.get_public(), now),
        MineResult::Fine));
}

#[test]
fn fork_replacement() {
    let mut chain = Chain::new(Bytes::default());
    let k1 = keystore(18);
    let k2 = keystore(19);
    let k3 = keystore(20);
    craft(&mut chain, Some(zone_tx("alfis", &k1, 1)), &k1.get_public(), BASE, 0x26);
    let ts = BASE + STEP;
    craft(&mut chain, Some(domain_tx("bob.alfis", "alfis", &k2)), &k2.get_public(), ts, 0x27);

    // A competing block at the same height with another hash is a fork.
    let mut rival_template = Block::new(Some(domain_tx("carol.alfis", "alfis", &k3)),
        k3.get_public(), chain.get_block(1).unwrap().hash, 1);
    rival_template.index = 2;
    let rival = mine(rival_template, &k3, ts);
    assert_eq!(chain.check_new_block(&rival, ts), BlockQuality::Fork);

    // Replacing the losing block keeps the chain linked and drops the old
    // block's registry rows.
    assert!(chain.check_and_replace_block(2, rival.clone()));
    assert_eq!(chain.height(), 2);
    assert!(chain.get_block(2).unwrap().hash == rival.hash);
    assert!(chain.get_block(2).unwrap().prev_block_hash == chain.get_block(1).unwrap().hash);
    assert!(chain.get_domain_transaction("bob.alfis", ts).is_none());
    assert!(chain.get_domain_transaction("carol.alfis", ts).is_some());
}

#[test]
fn committee_determinism_and_termination() {
    let mut keys = Vec::new();
    for tag in 30..39u8 {
        keys.push(Bytes::from_bytes(&[tag; 32]));
    }
    let mut chain_a = Chain::new(Bytes::default());
    let mut chain_b = Chain::new(Bytes::default());
    for (i, key) in keys.iter().enumerate() {
        let ts = BASE + i as i64;
        craft(&mut chain_a, None, key, ts, 0x31);
        craft(&mut chain_b, None, key, ts, 0x31);
    }
    let full = chain_a.get_block(9).unwrap();
    let signers_a = chain_a.get_block_signers(&full);
    let signers_b = chain_b.get_block_signers(&full);
    assert_eq!(signers_a.len(), signers_b.len());
    for i in 0..signers_a.len() {
        assert!(signers_a[i] == signers_b[i]);
    }
    assert!(signers_a.len() as u64 <= LOCKER_BLOCK_LOCKERS);
    for i in 0..signers_a.len() {
        assert!(!(signers_a[i] == full.pub_key));
        for j in 0..signers_a.len() {
            if i != j {
                assert!(!(signers_a[i] == signers_a[j]));
            }
        }
    }

    // A window with no eligible signer still terminates, with an empty
    // committee.
    let mut pathological = Chain::new(Bytes::default());
    let same = Bytes::from_bytes(&[9; 32]);
    for i in 0..9usize {
        craft(&mut pathological, None, &same, BASE + i as i64, 0x32);
    }
    let f = pathological.get_block(9).unwrap();
    assert_eq!(pathological.get_block_signers(&f).len(), 0);
}

#[test]
fn locker_lifecycle() {
    let mut chain = Chain::new(Bytes::default());
    let mut keys = Vec::new();
    for tag in 40..44u8 {
        keys.push(keystore(tag));
    }
    let shared_identity = Bytes::from_bytes(&[0x55; 32]);
    let mut next_allowed_seen: Vec<u64> = Vec::new();
    for i in 0..3usize {
        let ts = BASE + (i as i64) * STEP;
        let name = format!("zone{}", i);
        let tx = zone_tx_with_identity(shared_identity.clone(), &name, &keys[i], 1);
        craft(&mut chain, Some(tx), &keys[i].get_public(), ts, 0x41);
        next_allowed_seen.push(chain.next_allowed_block());
    }
    assert_eq!(chain.height(), 3);

    // Above the locker start, a full block must wait for the signatures
    // over the previous full block.
    let ts4 = BASE + 3 * STEP;
    let premature = mine_next(&chain, Some(zone_tx("zone3", &keys[3], 1)), &keys[3],
        ZONE_DIFFICULTY, ts4);
    assert_eq!(chain.check_and_add_block(premature, ts4), BlockQuality::Bad);

    // Committee members sign, one signature per member, picked against the
    // committee as the chain stands.
    let full = chain.get_block(3).unwrap();
    let eligible = |chain: &Chain, signed: &Vec<Bytes>| -> Keystore {
        let signers = chain.get_block_signers(&full);
        for k in keys.iter() {
            let public = k.get_public();
            if signers.iter().any(|s| *s == public) && !signed.iter().any(|s| *s == public) {
                return k.clone();
            }
        }
        panic!("no eligible committee member");
    };
    let mut signed: Vec<Bytes> = Vec::new();
    let mut ts = ts4;

    let member1 = eligible(&chain, &signed);
    let locker1 = mine_next(&chain, None, &member1, LOCKER_DIFFICULTY, ts);
    assert_eq!(chain.check_and_add_block(locker1, ts), BlockQuality::Good);
    signed.push(member1.get_public());
    next_allowed_seen.push(chain.next_allowed_block());
    ts += STEP;

    let member2 = eligible(&chain, &signed);
    let locker2 = mine_next(&chain, None, &member2, LOCKER_DIFFICULTY, ts);
    assert_eq!(chain.check_and_add_block(locker2, ts), BlockQuality::Good);
    signed.push(member2.get_public());
    next_allowed_seen.push(chain.next_allowed_block());
    ts += STEP;

    // A member who already signed above this full block is refused while
    // the committee window is still open.
    let repeat = mine_next(&chain, None, &member1, LOCKER_DIFFICULTY, ts);
    assert_eq!(chain.check_and_add_block(repeat, ts), BlockQuality::Bad);

    // With the required signatures in place, the next full block passes.
    let ts_full = BASE + 20 * STEP;
    let accepted = mine_next(&chain, Some(zone_tx("zone9", &keys[0], 1)), &keys[0],
        ZONE_DIFFICULTY, ts_full);
    assert_eq!(chain.check_and_add_block(accepted, ts_full), BlockQuality::Good);
    next_allowed_seen.push(chain.next_allowed_block());

    // The height a full block must wait for never went down.
    for w in next_allowed_seen.windows(2) {
        assert!(w[0] <= w[1]);
    }
}

#[test]
fn future_blocks_and_clock_skew() {
    let mut chain = Chain::new(Bytes::default());
    let ks = keystore(45);
    let genesis = mine_next(&chain, Some(zone_tx("alfis", &ks, 1)), &ks, ZONE_DIFFICULTY, BASE);

    // A timestamp one second beyond the allowed skew is refused; at the
    // boundary it is accepted.
    assert_eq!(chain.check_new_block(&genesis, BASE - 61), BlockQuality::Bad);
    assert_eq!(chain.check_new_block(&genesis, BASE - 60), BlockQuality::Good);
    assert_eq!(chain.check_and_add_block(genesis, BASE), BlockQuality::Good);

    // A block two heights ahead arrives too early.
    let ts = BASE + STEP;
    let mut ahead = Block::new(None, ks.get_public(), Bytes::from_bytes(&[1; 32]),
        LOCKER_DIFFICULTY);
    ahead.index = 3;
    let ahead = mine(ahead, &ks, ts);
    assert_eq!(chain.check_and_add_block(ahead, ts), BlockQuality::Future);
    assert_eq!(chain.height(), 1);
}

#[test]
fn miner_queue_and_cancellation() {
    let mut miner = Miner::new();
    assert!(!miner.is_mining());
    miner.start();
    assert!(miner.is_mining());

    let ks = keystore(46);
    let template = Block::new(None, ks.get_public(), Bytes::default(), LOCKER_DIFFICULTY);
    miner.add_block(template, ks.clone());
    let job = miner.take_job();
    assert!(job.is_some());

    // While an attempt runs, nothing else is handed out, and a locker
    // request is ignored.
    assert!(miner.take_job().is_none());
    let keep = miner.handle_event(&Event::ActionMineLocker {
        index: 5,
        hash: Bytes::from_bytes(&[3; 32]),
        keystore: Box::new(ks.clone()),
    });
    assert!(keep);
    assert!(miner.take_job().is_none());

    // An operator stop cancels the attempt; afterwards a locker request is
    // queued and served.
    assert!(miner.handle_event(&Event::ActionStopMining));
    let keep2 = miner.handle_event(&Event::ActionMineLocker {
        index: 5,
        hash: Bytes::from_bytes(&[3; 32]),
        keystore: Box::new(ks.clone()),
    });
    assert!(keep2);
    let locker_job = miner.take_job().unwrap();
    assert_eq!(locker_job.block.index, 5);
    assert!(locker_job.block.transaction.is_none());

    miner.stop();
    assert!(!miner.is_mining());
}

#[test]
fn preflight_points_jobs_at_the_tip() {
    let mut chain = Chain::new(Bytes::default());
    let ks = keystore(47);
    craft(&mut chain, Some(zone_tx("alfis", &ks, 1)), &ks.get_public(), BASE, 0x51);

    // A full template is pointed at the tip.
    let job = MineJob {
        block: Block::new(Some(domain_tx("bob.alfis", "alfis", &ks)), ks.get_public(),
            Bytes::default(), 1),
        keystore: ks.clone(),
    };
    let prepared = preflight_job(&job, &chain).unwrap();
    assert_eq!(prepared.index, 2);
    assert!(prepared.prev_block_hash == chain.last_hash());

    // A locker template the chain has moved past is abandoned.
    let mut stale = Block::new(None, ks.get_public(), Bytes::from_bytes(&[8; 32]),
        LOCKER_DIFFICULTY);
    stale.index = 1;
    let stale_job = MineJob { block: stale, keystore: ks.clone() };
    assert!(preflight_job(&stale_job, &chain).is_none());
}

#[test]
fn domain_availability() {
    let mut chain = Chain::new(Bytes::default());
    let k1 = keystore(48);
    let k2 = keystore(49);
    craft(&mut chain, Some(zone_tx("alfis", &k1, 1)), &k1.get_public(), BASE, 0x52);
    let ts = BASE + STEP;
    craft(&mut chain, Some(domain_tx("bob.alfis", "alfis", &k2)), &k2.get_public(), ts, 0x53);

    assert!(chain.is_domain_available("carol.alfis", &k1));
    assert!(chain.is_domain_available("bob.alfis", &k2));
    assert!(!chain.is_domain_available("bob.alfis", &k1));
    assert!(!chain.is_domain_available("a.b.alfis", &k1));
    assert!(!chain.is_domain_available("", &k1));
    assert!(chain.is_zone_in_blockchain("alfis"));
    assert!(!chain.is_zone_in_blockchain("nosuch"));
}

#[test]
fn zone_listing_keeps_latest_per_name() {
    let mut chain = Chain::new(Bytes::default());
    let k1 = keystore(50);
    craft(&mut chain, Some(zone_tx("alfis", &k1, 1)), &k1.get_public(), BASE, 0x61);
    craft(&mut chain, Some(zone_tx("beta", &k1, 2)), &k1.get_public(), BASE + 1, 0x62);
    let updated = zone_tx_with_identity(Bytes::from_bytes(&[0x66; 32]), "alfis", &k1, 3);
    craft(&mut chain, Some(updated), &k1.get_public(), BASE + 2, 0x63);

    let zones = chain.get_zones();
    assert_eq!(zones.len(), 2);
    assert_eq!(zones[0].name, "alfis");
    assert_eq!(zones[0].difficulty, 3);
    assert_eq!(zones[1].name, "beta");
    assert_eq!(zones[1].difficulty, 2);
    assert_eq!(chain.get_zone_difficulty("alfis"), 3);
}
