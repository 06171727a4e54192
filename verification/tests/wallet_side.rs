use minichain::block::{mine_block, Block};
use minichain::codec::Flag;
use minichain::wallet::{FetchSession, UserCommand, Wallet, WalletAction};

fn test_wallet() -> Wallet {
    Wallet::new(String::from("127.0.0.1:5000"), String::from("127.0.0.1:4000"), 3)
}

#[test]
fn wallet_new_keeps_its_parameters() {
    let w = test_wallet();
    assert_eq!(w.socket, "127.0.0.1:5000");
    assert_eq!(w.miner, "127.0.0.1:4000");
    assert_eq!(w.id, 3);
}

#[test]
fn user_commands_parse_with_surrounding_whitespace() {
    assert_eq!(UserCommand::from_string(String::from("Send")), Some(UserCommand::Send));
    assert_eq!(UserCommand::from_string(String::from("Check\n")), Some(UserCommand::Check));
    assert_eq!(UserCommand::from_string(String::from("  Verify \r\n")), Some(UserCommand::Verify));
    assert_eq!(UserCommand::from_string(String::from("Exit")), Some(UserCommand::Exit));
    assert_eq!(UserCommand::from_string(String::from("send")), None);
    assert_eq!(UserCommand::from_string(String::from("")), None);
}

#[test]
fn user_input_dispatch() {
    let w = test_wallet();
    match w.handle_user_input(UserCommand::Send, String::new(), String::from("pay me")) {
        WalletAction::SendTransaction(o) => {
            assert_eq!(o.dest, "127.0.0.1:4000");
            assert!(matches!(o.flag, Flag::Transaction));
            assert_eq!(o.body, "pay me");
        },
        _ => panic!("Send must produce a transaction message"),
    }
    match w.handle_user_input(UserCommand::Check, String::new(), String::new()) {
        WalletAction::Reply(s) => assert_eq!(s, "Check ok"),
        _ => panic!("Check must reply"),
    }
    match w.handle_user_input(UserCommand::Verify, String::new(), String::from("coin1")) {
        WalletAction::FetchAndVerify(s) => assert_eq!(s, "coin1"),
        _ => panic!("Verify must fetch"),
    }
    assert_eq!(w.verify_response(true), "Transaction is verified !");
    assert_eq!(w.verify_response(false), "Transaction is not correct !");
}

fn five_block_chain() -> Vec<Block> {
    let mut chain: Vec<Block> = Vec::new();
    for i in 0..5 {
        let b = mine_block(&chain, format!("tx{}", i), i as u128).unwrap();
        chain.push(b);
    }
    chain
}

#[test]
fn merkle_verification_finds_an_included_hash() {
    let w = test_wallet();
    let chain = five_block_chain();
    // a transaction whose bytes are one of the five known block hashes
    let included = chain[2].hash.clone();
    assert!(w.verify_transaction(&chain, included));
}

#[test]
fn merkle_verification_rejects_an_absent_hash() {
    let w = test_wallet();
    let chain = five_block_chain();
    let absent = b"never included anywhere".to_vec();
    assert!(!w.verify_transaction(&chain, absent));
}

#[test]
fn merkle_verification_on_empty_chain_is_negative() {
    let w = test_wallet();
    let chain: Vec<Block> = Vec::new();
    assert!(!w.verify_transaction(&chain, b"x".to_vec()));
}

#[test]
fn fetch_session_counts_consecutive_empty_reads() {
    let mut s = FetchSession::new();
    let chain = five_block_chain();
    assert!(!s.on_stream_result(None));
    assert!(!s.on_stream_result(None));
    // a block resets the run of empty reads
    assert!(!s.on_stream_result(Some(chain[0].duplicate())));
    for _ in 0..4 {
        assert!(!s.on_stream_result(None));
    }
    assert!(s.on_stream_result(None));
    assert_eq!(s.blocks.len(), 1);
}

#[test]
fn decode_block_round_trip() {
    let w = test_wallet();
    let chain = five_block_chain();
    let text = chain[3].to_wire_text();
    let back = w.decode_block(text).expect("must parse");
    assert_eq!(back.hash, chain[3].hash);
    assert_eq!(back.index, 3);
    assert!(w.decode_block(String::from("garbage")).is_err());
}
