use electrs::chain::{has_prevout, is_spendable, Network, OutPoint, TxIn, TxOut};

fn out(script: Vec<u8>) -> TxOut {
    TxOut { value: 5, script_pubkey: script, raw: vec![] }
}

#[test]
fn network_names_in_order() {
    assert_eq!(Network::names(), vec!["mainnet", "testnet", "regtest", "signet"]);
}

#[test]
fn network_from_name() {
    assert_eq!(Network::from_name("regtest"), Some(Network::Regtest));
    assert_eq!(Network::from_name("mainnet"), Some(Network::Bitcoin));
    assert_eq!(Network::from_name("liquid"), None);
    assert_eq!(Network::from("signet"), Network::Signet);
}

#[test]
fn network_magic_values() {
    assert_eq!(Network::Bitcoin.magic(), 0xD9B4BEF9);
    assert_eq!(Network::Testnet.magic(), 0x0709110B);
    assert_eq!(Network::Regtest.magic(), 0xDAB5BFFA);
    assert_eq!(Network::Signet.magic(), 0x40CF030A);
}

#[test]
fn op_return_output_is_not_spendable() {
    assert!(!is_spendable(&out(vec![0x6a, 0x01, 0x00])));
    assert!(is_spendable(&out(vec![0x76, 0xa9, 0x14])));
    assert!(is_spendable(&out(vec![])));
}

#[test]
fn coinbase_input_has_no_prevout() {
    let null = TxIn { previous_output: OutPoint { txid: [0u8; 32], vout: u32::MAX } };
    let real = TxIn { previous_output: OutPoint { txid: [0u8; 32], vout: 0 } };
    assert!(!has_prevout(&null));
    assert!(has_prevout(&real));
}

#[test]
fn genesis_header_hash() {
    let genesis = bitcoin::blockdata::constants::genesis_block(bitcoin::Network::Bitcoin);
    let raw = bitcoin::consensus::serialize(&genesis.header);
    let mut h = electrs::chain::header_hash(&raw);
    h.reverse();
    assert_eq!(hex::encode(h), "000000000019d6689c085ae165831e934ff763ae46a2a6c172b3f1b60a8ce26f");
}
