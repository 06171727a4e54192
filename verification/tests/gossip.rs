use minichain::codec::{decode_message, Flag, Message};
use minichain::miner::{Miner, OutMsg};
use minichain::wallet::FetchSession;

fn addr(n: usize) -> String {
    format!("127.0.0.1:{}", 4000 + n)
}

fn msg(flag: Flag, sender_addr: &str, sender_id: &str, payload: &str) -> Message {
    Message {
        flag,
        sender_addr: String::from(sender_addr),
        sender_id: String::from(sender_id),
        payload: String::from(payload),
    }
}

/// Delivers every planned message through real frames until the mesh goes
/// quiet; returns how many messages of each tag were delivered, or panics
/// after the step bound (a non-terminating flood).
fn run_mesh(miners: &mut Vec<Miner>, queue: &mut Vec<(String, Vec<u8>)>, bound: usize) -> usize {
    let mut delivered = 0usize;
    while let Some((dest, frame)) = queue.pop() {
        assert!(delivered < bound, "flood did not settle within the bound");
        let Some(ix) = miners.iter().position(|m| m.sockip == dest) else {
            continue;
        };
        let m = decode_message(&frame).expect("mesh frames must decode");
        let outs = miners[ix].handle_message(&m, 0).expect("mesh payloads must parse");
        let frames: Vec<(String, Vec<u8>)> = outs
            .iter()
            .map(|o: &OutMsg| (o.dest.clone(), miners[ix].make_frame(o)))
            .collect();
        queue.extend(frames);
        delivered += 1;
    }
    delivered
}

#[test]
fn connect_handshake_builds_both_registries() {
    // node A created; node B joins via A
    let mut a = Miner::new(0, addr(0));
    a.add_to_network(0, addr(0));

    // B asks A for an id
    let outs = a
        .handle_message(&msg(Flag::RequireID, &addr(1), "", ""), 0)
        .unwrap();
    assert_eq!(outs.len(), 1);
    assert!(matches!(outs[0].flag, Flag::GiveID));
    assert_eq!(outs[0].dest, addr(1));
    assert_eq!(outs[0].body, "1");

    let mut b = Miner::new(1, addr(1));
    b.add_to_network(1, addr(1));

    // B connects to A; A answers with its registry snapshot
    let outs = a
        .handle_message(&msg(Flag::Connect, &addr(1), "1", ""), 0)
        .unwrap();
    assert!(matches!(outs[0].flag, Flag::Okay));
    assert_eq!(outs[0].dest, addr(1));
    let snapshot = outs[0].body.clone();
    assert_eq!(snapshot, format!("0,{}", addr(0)));

    // B merges the snapshot
    b.handle_message(&msg(Flag::Okay, &addr(0), "0", &snapshot), 0)
        .unwrap();

    let mut a_pairs = a.network.entries.clone();
    a_pairs.sort();
    let mut b_pairs = b.network.entries.clone();
    b_pairs.sort();
    assert_eq!(a_pairs, vec![(0, addr(0)), (1, addr(1))]);
    assert_eq!(b_pairs, a_pairs);
}

#[test]
fn broadcast_connect_floods_once_and_settles() {
    // a fully-connected mesh of 4 peers
    let n = 4usize;
    let mut miners: Vec<Miner> = (0..n).map(|i| Miner::new(i as u32, addr(i))).collect();
    for i in 0..n {
        for j in 0..n {
            let address = addr(j);
            miners[i].add_to_network(j as u32, address);
        }
    }
    // one new peer connects to miner 0, with no further churn
    let mut joiner = Miner::new(4, addr(4));
    joiner.add_to_network(4, addr(4));
    let outs = miners[0]
        .handle_message(&msg(Flag::Connect, &addr(4), "4", ""), 0)
        .unwrap();
    let mut queue: Vec<(String, Vec<u8>)> = Vec::new();
    for o in &outs {
        if o.dest == addr(4) {
            // the snapshot reply goes to the joiner
            joiner
                .handle_message(&msg(Flag::Okay, &addr(0), "0", &o.body), 0)
                .unwrap();
        } else {
            queue.push((o.dest.clone(), miners[0].make_frame(o)));
        }
    }
    miners.push(joiner);
    // the flood must settle: each of the 3 other mesh members records the
    // pair once and forwards once; repeats are dropped without forwarding
    let delivered = run_mesh(&mut miners, &mut queue, 1000);
    assert!(delivered <= 3 + 3 * 4, "more deliveries than a one-shot flood allows");
    // every peer's registry converges to the same 5-entry set
    let mut expect: Vec<(u32, String)> = (0..5).map(|i| (i as u32, addr(i as usize))).collect();
    expect.sort();
    for m in &miners {
        let mut got = m.network.entries.clone();
        got.sort();
        assert_eq!(got, expect, "registry of {} diverged", m.sockip);
    }
}

#[test]
fn known_broadcast_connect_is_not_reforwarded() {
    let mut a = Miner::new(0, addr(0));
    a.add_to_network(0, addr(0));
    a.add_to_network(7, addr(7));
    let payload = format!("{};7", addr(7));
    let outs = a
        .handle_message(&msg(Flag::BroadcastConnect, &addr(3), "3", &payload), 0)
        .unwrap();
    assert!(outs.is_empty());
    assert_eq!(a.network.len(), 2);
}

#[test]
fn transactions_pool_flood_and_mine_at_capacity() {
    let mut a = Miner::new(0, addr(0));
    a.add_to_network(0, addr(0));
    a.add_to_network(1, addr(1));
    let w = addr(9);

    for i in 0..4 {
        let tx = format!("t{}", i);
        let outs = a
            .handle_message(&msg(Flag::Transaction, &w, "1", &tx), 0)
            .unwrap();
        // flooded to both peers (the wallet is not in the registry)
        assert_eq!(outs.len(), 2);
        assert!(outs.iter().all(|o| matches!(o.flag, Flag::Transaction)));
    }
    assert_eq!(a.payload.len(), 4);
    assert_eq!(a.blocks.len(), 0);

    // a duplicate is dropped without flooding
    let outs = a
        .handle_message(&msg(Flag::Transaction, &w, "1", "t0"), 0)
        .unwrap();
    assert!(outs.is_empty());
    assert_eq!(a.payload.len(), 4);

    // the fifth distinct transaction seals a block
    let outs = a
        .handle_message(&msg(Flag::Transaction, &w, "1", "t4"), 7777)
        .unwrap();
    assert_eq!(a.blocks.len(), 1);
    assert!(a.payload.is_empty(), "pool is cleared exactly on append");
    assert_eq!(a.blocks[0].index, 0);
    assert_eq!(a.blocks[0].payload, "t0$t1$t2$t3$t4");
    assert_eq!(a.blocks[0].timestamp, 7777);
    let block_msgs: Vec<&OutMsg> =
        outs.iter().filter(|o| matches!(o.flag, Flag::Block)).collect();
    assert_eq!(block_msgs.len(), 2);
}

#[test]
fn foreign_block_with_wrong_index_is_rejected() {
    let mut a = Miner::new(0, addr(0));
    a.add_to_network(0, addr(0));
    let chain: Vec<minichain::block::Block> = Vec::new();
    let b = minichain::block::mine_block(&chain, String::from("p"), 1).unwrap();
    let mut wrong = b.duplicate();
    wrong.index = 5;
    let outs = a
        .handle_message(&msg(Flag::Block, &addr(2), "2", &wrong.to_wire_text()), 0)
        .unwrap();
    assert!(outs.is_empty());
    assert_eq!(a.blocks.len(), 0, "a mismatched index must not alter the chain");

    // the honest block is accepted and rebroadcast
    let outs = a
        .handle_message(&msg(Flag::Block, &addr(2), "2", &b.to_wire_text()), 0)
        .unwrap();
    assert_eq!(a.blocks.len(), 1);
    assert!(outs.is_empty() || outs.iter().all(|o| matches!(o.flag, Flag::Block)));
}

#[test]
fn disconnect_removes_and_announces() {
    let mut a = Miner::new(0, addr(0));
    a.add_to_network(0, addr(0));
    a.add_to_network(1, addr(1));
    a.add_to_network(2, addr(2));
    let outs = a
        .handle_message(&msg(Flag::Disconnect, &addr(1), "1", ""), 0)
        .unwrap();
    assert_eq!(a.network.len(), 2);
    assert!(!a.network.contains_entry(1, &addr(1)));
    // announced to the survivors other than self
    assert_eq!(outs.len(), 1);
    assert!(matches!(outs[0].flag, Flag::BroadcastDisconnect));
    assert_eq!(outs[0].dest, addr(2));
    assert_eq!(outs[0].body, format!("{};1", addr(1)));
}

#[test]
fn health_check_failure_drops_the_peer() {
    let mut a = Miner::new(0, addr(0));
    a.add_to_network(0, addr(0));
    a.add_to_network(1, addr(1));
    let targets = a.refresh_nodes_status();
    assert_eq!(targets, vec![(1, addr(1))]);
    a.health_check(&addr(1), 1, true);
    assert_eq!(a.network.len(), 2);
    a.health_check(&addr(1), 1, false);
    assert_eq!(a.network.len(), 1);
}

#[test]
fn wallet_id_assignment_records_the_wallet() {
    let mut a = Miner::new(0, addr(0));
    a.add_to_network(0, addr(0));
    let outs = a
        .handle_message(&msg(Flag::RequireWalletID, &addr(8), "", ""), 0)
        .unwrap();
    assert_eq!(outs.len(), 1);
    assert!(matches!(outs[0].flag, Flag::GiveID));
    assert_eq!(outs[0].body, "1");
    assert!(a.wallets.contains_entry(1, &addr(8)));
}

#[test]
fn end_to_end_two_nodes_and_a_block() {
    // node A created at 127.0.0.1:4000
    let mut a = Miner::new(0, String::from("127.0.0.1:4000"));
    a.add_to_network(0, String::from("127.0.0.1:4000"));

    // node B joins via A
    let outs = a
        .handle_message(&msg(Flag::RequireID, "127.0.0.1:4001", "", ""), 0)
        .unwrap();
    let id_text = outs[0].body.clone();
    assert_eq!(id_text, "1");
    let mut b = Miner::new(1, String::from("127.0.0.1:4001"));
    b.add_to_network(1, String::from("127.0.0.1:4001"));
    let outs = a
        .handle_message(&msg(Flag::Connect, "127.0.0.1:4001", "1", ""), 0)
        .unwrap();
    b.handle_message(&msg(Flag::Okay, "127.0.0.1:4000", "0", &outs[0].body), 0)
        .unwrap();

    let mut a_pairs = a.network.entries.clone();
    a_pairs.sort();
    let mut b_pairs = b.network.entries.clone();
    b_pairs.sort();
    let expect = vec![
        (0u32, String::from("127.0.0.1:4000")),
        (1u32, String::from("127.0.0.1:4001")),
    ];
    assert_eq!(a_pairs, expect);
    assert_eq!(b_pairs, expect);

    // five distinct transactions reach A; exactly one block at index 0
    let w = "127.0.0.1:4100";
    let mut block_broadcast: Option<String> = None;
    for i in 0..5 {
        let tx = format!("coin{}", i);
        let outs = a
            .handle_message(&msg(Flag::Transaction, w, "1", &tx), 1000 + i)
            .unwrap();
        for o in &outs {
            if matches!(o.flag, Flag::Block) {
                block_broadcast = Some(o.body.clone());
            }
        }
    }
    assert_eq!(a.blocks.len(), 1);
    assert_eq!(a.blocks[0].index, 0);
    assert_eq!(a.blocks[0].payload, "coin0$coin1$coin2$coin3$coin4");
    assert!(block_broadcast.is_some());

    // B fetches the ledger from A and ends up with the same block
    let outs = a
        .handle_message(&msg(Flag::RequireBlockchain, "127.0.0.1:4001", "1", ""), 0)
        .unwrap();
    assert_eq!(outs.len(), 1);
    assert!(matches!(outs[0].flag, Flag::SendBlockchain));
    let mut session = FetchSession::new();
    let wallet = minichain::wallet::Wallet::new(
        String::from("127.0.0.1:4001"),
        String::from("127.0.0.1:4000"),
        1,
    );
    for o in &outs {
        let blk = wallet.decode_block(o.body.clone()).expect("must parse");
        assert!(!session.on_stream_result(Some(blk)));
    }
    for _ in 0..4 {
        assert!(!session.on_stream_result(None));
    }
    assert!(session.on_stream_result(None));
    assert_eq!(session.blocks.len(), 1);
    assert_eq!(session.blocks[0].hash, a.blocks[0].hash);
    assert_eq!(session.blocks[0].payload, a.blocks[0].payload);
}

#[test]
fn miner_mines_and_checks_its_own_block() {
    let a = Miner::new(0, addr(0));
    let b = a
        .hash_block(String::from("x$y$z$u$v"), 12)
        .expect("difficulty 1 must be met");
    assert!(a.check_block(b.duplicate()));
    let mut wrong = b.duplicate();
    wrong.index = 9;
    assert!(!a.check_block(wrong));
}
