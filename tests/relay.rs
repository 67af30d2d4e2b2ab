use mev_auction::relay::{
    validate_bid_request, BidRequest, BlockCommitment, BlsPublicKey, BuilderBid, Context,
    ExecutionAddress, ExecutionPayload, ExecutionPayloadHeader, Fork, Hash32, HeaderFields,
    Relay, RelayError, ValidatorPreferences, U256,
};

fn tip() -> Hash32 {
    Hash32(1, 2, 3, 4)
}

fn context() -> Context {
    Context {
        bellatrix_fork_epoch: 0,
        capella_fork_epoch: 2,
        deneb_fork_epoch: 4,
        slots_per_epoch: 32,
        terminal_block_hash: tip(),
    }
}

fn relay_key() -> BlsPublicKey {
    BlsPublicKey(9, 9, 9, 9, 9, 9)
}

fn proposer() -> BlsPublicKey {
    BlsPublicKey(1, 1, 1, 1, 1, 1)
}

fn relay() -> Relay {
    Relay::new(Hash32(7, 7, 7, 7), relay_key(), context())
}

fn request(slot: u64) -> BidRequest {
    BidRequest { slot, parent_hash: tip(), public_key: proposer() }
}

fn prefs() -> ValidatorPreferences {
    ValidatorPreferences { fee_recipient: ExecutionAddress(5, 5, 5), gas_limit: 30_000_000 }
}

fn payload(fork: Fork, block_hash: Hash32, gas_limit: u64) -> ExecutionPayload {
    ExecutionPayload {
        fork,
        parent_hash: tip(),
        fee_recipient: ExecutionAddress(5, 5, 5),
        block_number: 10,
        gas_limit,
        gas_used: 21_000,
        timestamp: 1_700_000_000,
        block_hash,
        transactions: vec![vec![1, 2, 3]],
    }
}

fn value() -> U256 {
    U256 { high: 0, low: 1_000 }
}

fn commitment(slot: u64, block_hash: Hash32) -> BlockCommitment {
    BlockCommitment { slot, parent_hash: tip(), proposer_index: 3, block_hash }
}

#[test]
fn fetch_returns_header_bid() {
    let mut r = relay();
    let req = request(40);
    let p = r.prepare_bid(&req, Some(3), Some(prefs())).unwrap();
    let bid = r.fetch_best_bid(&req, &p, payload(Fork::Capella, Hash32(8, 0, 0, 0), 30_000_000), value());
    let fields = HeaderFields {
        parent_hash: tip(),
        fee_recipient: ExecutionAddress(5, 5, 5),
        block_number: 10,
        gas_limit: 30_000_000,
        gas_used: 21_000,
        timestamp: 1_700_000_000,
        block_hash: Hash32(8, 0, 0, 0),
    };
    assert_eq!(
        bid,
        Ok(BuilderBid { header: ExecutionPayloadHeader::Capella(fields), value: value(), public_key: relay_key() })
    );
}

#[test]
fn second_fetch_replaces_payload() {
    let mut r = relay();
    let req = request(40);
    assert!(r.fetch_best_bid(&req, &prefs(), payload(Fork::Bellatrix, Hash32(1, 0, 0, 0), 30_000_000), value()).is_ok());
    assert!(r.fetch_best_bid(&req, &prefs(), payload(Fork::Bellatrix, Hash32(2, 0, 0, 0), 30_000_000), value()).is_ok());
    let opened = r.open_bid(&commitment(40, Hash32(2, 0, 0, 0)), Some(proposer()), true).unwrap();
    assert_eq!(opened.block_hash, Hash32(2, 0, 0, 0));
    let again = r.open_bid(&commitment(40, Hash32(2, 0, 0, 0)), Some(proposer()), true);
    assert_eq!(again.unwrap_err(), RelayError::UnknownBid);
}

#[test]
fn open_once_then_unknown_bid() {
    let mut r = relay();
    let req = request(41);
    r.fetch_best_bid(&req, &prefs(), payload(Fork::Bellatrix, Hash32(3, 0, 0, 0), 30_000_000), value()).unwrap();
    let opened = r.open_bid(&commitment(41, Hash32(3, 0, 0, 0)), Some(proposer()), true).unwrap();
    assert_eq!(opened.block_hash, Hash32(3, 0, 0, 0));
    assert_eq!(opened.transactions, vec![vec![1u8, 2, 3]]);
    let again = r.open_bid(&commitment(41, Hash32(3, 0, 0, 0)), Some(proposer()), true);
    assert_eq!(again.unwrap_err(), RelayError::UnknownBid);
}

#[test]
fn open_wrong_block_hash_is_unknown_block_and_consumes() {
    let mut r = relay();
    r.fetch_best_bid(&request(41), &prefs(), payload(Fork::Bellatrix, Hash32(3, 0, 0, 0), 30_000_000), value()).unwrap();
    let res = r.open_bid(&commitment(41, Hash32(4, 0, 0, 0)), Some(proposer()), true);
    assert_eq!(res.unwrap_err(), RelayError::UnknownBlock);
    let res = r.open_bid(&commitment(41, Hash32(3, 0, 0, 0)), Some(proposer()), true);
    assert_eq!(res.unwrap_err(), RelayError::UnknownBid);
}

#[test]
fn open_bad_signature() {
    let mut r = relay();
    r.fetch_best_bid(&request(41), &prefs(), payload(Fork::Bellatrix, Hash32(3, 0, 0, 0), 30_000_000), value()).unwrap();
    let res = r.open_bid(&commitment(41, Hash32(3, 0, 0, 0)), Some(proposer()), false);
    assert_eq!(res.unwrap_err(), RelayError::InvalidSignature);
}

#[test]
fn open_unresolved_proposer() {
    let mut r = relay();
    r.fetch_best_bid(&request(41), &prefs(), payload(Fork::Bellatrix, Hash32(3, 0, 0, 0), 30_000_000), value()).unwrap();
    let res = r.open_bid(&commitment(41, Hash32(3, 0, 0, 0)), None, true);
    assert_eq!(res.unwrap_err(), RelayError::UnknownValidatorIndex(3));
    // the payload is still there
    assert!(r.open_bid(&commitment(41, Hash32(3, 0, 0, 0)), Some(proposer()), true).is_ok());
}

#[test]
fn open_never_offered() {
    let mut r = relay();
    let res = r.open_bid(&commitment(41, Hash32(3, 0, 0, 0)), Some(proposer()), true);
    assert_eq!(res.unwrap_err(), RelayError::UnknownBid);
}

#[test]
fn eviction_keeps_exact_boundary() {
    let mut r = relay();
    for (slot, h) in [(10u64, 10u64), (11, 11), (12, 12)] {
        r.fetch_best_bid(&request(slot), &prefs(), payload(Fork::Bellatrix, Hash32(h, 0, 0, 0), 30_000_000), value()).unwrap();
    }
    assert!(!r.on_slot(13, false));
    assert_eq!(r.open_bid(&commitment(10, Hash32(10, 0, 0, 0)), Some(proposer()), true).unwrap_err(), RelayError::UnknownBid);
    assert_eq!(r.open_bid(&commitment(11, Hash32(11, 0, 0, 0)), Some(proposer()), true).unwrap_err(), RelayError::UnknownBid);
    assert!(r.open_bid(&commitment(12, Hash32(12, 0, 0, 0)), Some(proposer()), true).is_ok());
}

#[test]
fn on_slot_asks_for_reload_at_epoch() {
    let mut r = relay();
    assert!(r.on_slot(64, true));
    assert!(!r.on_slot(65, false));
}

#[test]
fn late_request_rejected_before_building() {
    let r = relay();
    // the earliest slot for Bellatrix here is 32, less a tolerance of 1
    assert_eq!(r.prepare_bid(&request(30), Some(3), Some(prefs())), Err(RelayError::InvalidSlot));
    assert_eq!(r.prepare_bid(&request(31), Some(3), Some(prefs())), Ok(prefs()));
}

#[test]
fn bid_request_errors_in_order() {
    let ctx = context();
    let mut wrong_parent = request(40);
    wrong_parent.parent_hash = Hash32(0, 0, 0, 0);
    assert_eq!(validate_bid_request(&wrong_parent, Fork::Bellatrix, &ctx, Some(1)), Err(RelayError::InvalidParentHash));
    assert_eq!(
        validate_bid_request(&request(40), Fork::Bellatrix, &ctx, None),
        Err(RelayError::ValidatorNotRegistered(proposer()))
    );
    // Capella starts at epoch 2: slot 32 * 2 + 32 - 1 = 95 is the earliest timely one
    assert_eq!(validate_bid_request(&request(94), Fork::Capella, &ctx, Some(1)), Err(RelayError::InvalidSlot));
    assert_eq!(validate_bid_request(&request(95), Fork::Capella, &ctx, Some(1)), Ok(()));
    assert_eq!(validate_bid_request(&request(40), Fork::Deneb, &ctx, Some(1)), Err(RelayError::InvalidSlot));
}

#[test]
fn missing_preferences() {
    let r = relay();
    assert_eq!(r.prepare_bid(&request(40), Some(3), None), Err(RelayError::MissingPreferences(proposer())));
}

#[test]
fn gas_limit_must_match_exactly() {
    let mut r = relay();
    let res = r.fetch_best_bid(&request(40), &prefs(), payload(Fork::Bellatrix, Hash32(1, 0, 0, 0), 29_999_999), value());
    assert_eq!(res, Err(RelayError::InvalidGasLimit));
    let res = r.open_bid(&commitment(40, Hash32(1, 0, 0, 0)), Some(proposer()), true);
    assert_eq!(res.unwrap_err(), RelayError::UnknownBid);
}

#[test]
fn unsupported_fork_stores_nothing() {
    let mut r = relay();
    let res = r.fetch_best_bid(&request(40), &prefs(), payload(Fork::Deneb, Hash32(1, 0, 0, 0), 30_000_000), value());
    assert_eq!(res, Err(RelayError::UnsupportedFork));
    let res = r.open_bid(&commitment(40, Hash32(1, 0, 0, 0)), Some(proposer()), true);
    assert_eq!(res.unwrap_err(), RelayError::UnknownBid);
}
