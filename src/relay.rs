use vstd::prelude::*;

verus! {

/// How many slots past its target slot a withheld payload is kept: `1` allows
/// for latency at the slot boundary while still letting a proposal succeed.
pub const PROPOSAL_TOLERANCE_DELAY: u64 = 1;

/// Slots added to a fork's first slot to give the earliest slot served.
pub const SLOT_LEAD: u64 = 32;

/// A 32-byte hash, as four big-endian words.
#[derive(Clone, Copy, Debug, PartialEq, Eq, Hash, Structural)]
pub struct Hash32(pub u64, pub u64, pub u64, pub u64);

/// A 48-byte BLS public key, as six big-endian words.
#[derive(Clone, Copy, Debug, PartialEq, Eq, Hash, Structural)]
pub struct BlsPublicKey(pub u64, pub u64, pub u64, pub u64, pub u64, pub u64);

/// A 20-byte execution-layer address.
#[derive(Clone, Copy, Debug, PartialEq, Eq, Hash, Structural)]
pub struct ExecutionAddress(pub u64, pub u64, pub u32);

/// A 256-bit amount of wei, as its high and low halves.
#[derive(Clone, Copy, Debug, PartialEq, Eq, Hash, Structural)]
pub struct U256 {
    pub high: u128,
    pub low: u128,
}

/// The consensus forks a payload may belong to.
#[derive(Clone, Copy, Debug, PartialEq, Eq, Hash, Structural)]
pub enum Fork {
    Bellatrix,
    Capella,
    Deneb,
}

/// The chain parameters the relay validates against.
#[derive(Clone, Copy, Debug, PartialEq, Eq, Structural)]
pub struct Context {
    pub bellatrix_fork_epoch: u64,
    pub capella_fork_epoch: u64,
    pub deneb_fork_epoch: u64,
    pub slots_per_epoch: u64,
    pub terminal_block_hash: Hash32,
}

/// One auction round: the slot, the block to build on and the proposer.
#[derive(Clone, Copy, Debug, PartialEq, Eq, Hash, Structural)]
pub struct BidRequest {
    pub slot: u64,
    pub parent_hash: Hash32,
    pub public_key: BlsPublicKey,
}

/// What a registered validator asks of the blocks built for it.
#[derive(Clone, Copy, Debug, PartialEq, Eq, Structural)]
pub struct ValidatorPreferences {
    pub fee_recipient: ExecutionAddress,
    pub gas_limit: u64,
}

/// A candidate execution payload, withheld from the proposer until it commits.
#[derive(Debug)]
pub struct ExecutionPayload {
    pub fork: Fork,
    pub parent_hash: Hash32,
    pub fee_recipient: ExecutionAddress,
    pub block_number: u64,
    pub gas_limit: u64,
    pub gas_used: u64,
    pub timestamp: u64,
    pub block_hash: Hash32,
    pub transactions: Vec<Vec<u8>>,
}

/// The fields of a payload that its header carries, without the transactions.
#[derive(Clone, Copy, Debug, PartialEq, Eq, Structural)]
pub struct HeaderFields {
    pub parent_hash: Hash32,
    pub fee_recipient: ExecutionAddress,
    pub block_number: u64,
    pub gas_limit: u64,
    pub gas_used: u64,
    pub timestamp: u64,
    pub block_hash: Hash32,
}

/// A payload header, tagged with its fork.
#[derive(Clone, Copy, Debug, PartialEq, Eq, Structural)]
pub enum ExecutionPayloadHeader {
    Bellatrix(HeaderFields),
    Capella(HeaderFields),
}

/// The bid offered to a proposer, before the relay signs it.
#[derive(Clone, Copy, Debug, PartialEq, Eq, Structural)]
pub struct BuilderBid {
    pub header: ExecutionPayloadHeader,
    pub value: U256,
    pub public_key: BlsPublicKey,
}

/// What a proposer's signed blinded block commits to.
#[derive(Clone, Copy, Debug, PartialEq, Eq, Structural)]
pub struct BlockCommitment {
    pub slot: u64,
    pub parent_hash: Hash32,
    pub proposer_index: u64,
    pub block_hash: Hash32,
}

/// Why the relay turned a request down.
#[derive(Clone, Copy, Debug, PartialEq, Eq, Structural)]
pub enum RelayError {
    /// The requested slot is too far in the past.
    InvalidSlot,
    /// The parent hash is not the chain tip.
    InvalidParentHash,
    /// The public key belongs to no registered validator.
    ValidatorNotRegistered(BlsPublicKey),
    /// The validator registered no preferences.
    MissingPreferences(BlsPublicKey),
    /// The payload's gas limit is not the one the proposer asked for.
    InvalidGasLimit,
    /// The payload belongs to a fork the relay does not bid in.
    UnsupportedFork,
    /// The proposer index resolves to no public key.
    UnknownValidatorIndex(u64),
    /// No payload is held for the auction.
    UnknownBid,
    /// The block commits to another payload than the one held.
    UnknownBlock,
    /// The block's signature does not verify.
    InvalidSignature,
}

/// The slot that requests under `fork` must reach, within the tolerance.
pub open spec fn expected_slot(fork: Fork, context: Context) -> int {
    let epoch = match fork {
        Fork::Bellatrix => context.bellatrix_fork_epoch,
        Fork::Capella => context.capella_fork_epoch,
        Fork::Deneb => context.deneb_fork_epoch,
    };
    SLOT_LEAD + epoch * context.slots_per_epoch
}

/// Whether a request for `slot` under `fork` is still timely.
pub open spec fn timely(slot: u64, fork: Fork, context: Context) -> bool {
    slot + PROPOSAL_TOLERANCE_DELAY >= expected_slot(fork, context)
}

/// Whether an entry for `slot` survives the clock reaching `current`.
pub open spec fn survives(slot: u64, current: u64) -> bool {
    slot + PROPOSAL_TOLERANCE_DELAY >= current
}

/// The outcome of validating a bid request, given what the validator registry
/// reports of its public key.
pub open spec fn bid_request_check(
    req: BidRequest,
    fork: Fork,
    context: Context,
    validator_index: Option<u64>,
) -> Result<(), RelayError> {
    if !timely(req.slot, fork, context) {
        Err(RelayError::InvalidSlot)
    } else if req.parent_hash != context.terminal_block_hash {
        Err(RelayError::InvalidParentHash)
    } else if validator_index is None {
        Err(RelayError::ValidatorNotRegistered(req.public_key))
    } else {
        Ok(())
    }
}

/// The header of a payload, if the relay bids in its fork.
pub open spec fn header_of(p: ExecutionPayload) -> Option<ExecutionPayloadHeader> {
    let fields = HeaderFields {
        parent_hash: p.parent_hash,
        fee_recipient: p.fee_recipient,
        block_number: p.block_number,
        gas_limit: p.gas_limit,
        gas_used: p.gas_used,
        timestamp: p.timestamp,
        block_hash: p.block_hash,
    };
    match p.fork {
        Fork::Bellatrix => Some(ExecutionPayloadHeader::Bellatrix(fields)),
        Fork::Capella => Some(ExecutionPayloadHeader::Capella(fields)),
        Fork::Deneb => None,
    }
}

/// Whether a request for `slot` under `fork` is still timely.
fn is_slot_timely(slot: u64, fork: Fork, context: &Context) -> (r: bool)
    ensures
        r == timely(slot, fork, *context),
{
    let epoch = match fork {
        Fork::Bellatrix => context.bellatrix_fork_epoch,
        Fork::Capella => context.capella_fork_epoch,
        Fork::Deneb => context.deneb_fork_epoch,
    };
    let per = context.slots_per_epoch;
    proof {
        assert(epoch as int * per as int <= u64::MAX as int * u64::MAX as int) by (nonlinear_arith)
            requires epoch <= u64::MAX, per <= u64::MAX, epoch >= 0, per >= 0;
    }
    let current = SLOT_LEAD as u128 + (epoch as u128) * (per as u128);
    slot as u128 + PROPOSAL_TOLERANCE_DELAY as u128 >= current
}

/// Whether `parent_hash` is the chain tip.
fn is_parent_hash_on_chain_tip(parent_hash: &Hash32, context: &Context) -> (r: bool)
    ensures
        r == (*parent_hash == context.terminal_block_hash),
{
    *parent_hash == context.terminal_block_hash
}

/// Checks a bid request for `fork` against the chain and against the index
/// the validator registry holds for its public key.
pub fn validate_bid_request(
    bid_request: &BidRequest,
    fork: Fork,
    context: &Context,
    validator_index: Option<u64>,
) -> (r: Result<(), RelayError>)
    ensures
        r == bid_request_check(*bid_request, fork, *context, validator_index),
{
    if !is_slot_timely(bid_request.slot, fork, context) {
        return Err(RelayError::InvalidSlot);
    }
    if !is_parent_hash_on_chain_tip(&bid_request.parent_hash, context) {
        return Err(RelayError::InvalidParentHash);
    }
    if validator_index.is_none() {
        return Err(RelayError::ValidatorNotRegistered(bid_request.public_key));
    }
    Ok(())
}

/// Checks a built payload against the proposer's preferences: its gas limit
/// must be exactly the one asked for.
pub fn validate_execution_payload(
    execution_payload: &ExecutionPayload,
    value: &U256,
    preferences: &ValidatorPreferences,
) -> (r: Result<(), RelayError>)
    ensures
        r == if execution_payload.gas_limit == preferences.gas_limit {
            Ok(())
        } else {
            Err(RelayError::InvalidGasLimit)
        },
{
    if execution_payload.gas_limit != preferences.gas_limit {
        return Err(RelayError::InvalidGasLimit);
    }
    Ok(())
}

/// Checks a proposer's block against the payload held for it: the block must
/// commit to that payload's hash, and its signature, as checked against the
/// proposer's key, must hold.
pub fn validate_signed_block(
    block: &BlockCommitment,
    local_payload: &ExecutionPayload,
    signature_valid: bool,
) -> (r: Result<(), RelayError>)
    ensures
        r == if block.block_hash != local_payload.block_hash {
            Err(RelayError::UnknownBlock)
        } else if !signature_valid {
            Err(RelayError::InvalidSignature)
        } else {
            Ok(())
        },
{
    if block.block_hash != local_payload.block_hash {
        return Err(RelayError::UnknownBlock);
    }
    if !signature_valid {
        return Err(RelayError::InvalidSignature);
    }
    Ok(())
}

/// Derives the header of a payload; `None` for a fork the relay does not bid in.
fn header_from(p: &ExecutionPayload) -> (r: Option<ExecutionPayloadHeader>)
    ensures
        r == header_of(*p),
{
    let fields = HeaderFields {
        parent_hash: p.parent_hash,
        fee_recipient: p.fee_recipient,
        block_number: p.block_number,
        gas_limit: p.gas_limit,
        gas_used: p.gas_used,
        timestamp: p.timestamp,
        block_hash: p.block_hash,
    };
    match p.fork {
        Fork::Bellatrix => Some(ExecutionPayloadHeader::Bellatrix(fields)),
        Fork::Capella => Some(ExecutionPayloadHeader::Capella(fields)),
        Fork::Deneb => None,
    }
}

/// The entries of `s` whose identity is not `k`, in order.
pub open spec fn without_key(s: Seq<(BidRequest, ExecutionPayload)>, k: BidRequest) -> Seq<(BidRequest, ExecutionPayload)>
    decreases s.len(),
{
    if s.len() == 0 {
        s
    } else {
        let rest = without_key(s.drop_last(), k);
        if s.last().0 == k {
            rest
        } else {
            rest.push(s.last())
        }
    }
}

/// The entries of `s` that survive the clock reaching slot `current`, in order.
pub open spec fn surviving(s: Seq<(BidRequest, ExecutionPayload)>, current: u64) -> Seq<(BidRequest, ExecutionPayload)>
    decreases s.len(),
{
    if s.len() == 0 {
        s
    } else {
        let rest = surviving(s.drop_last(), current);
        if survives(s.last().0.slot, current) {
            rest.push(s.last())
        } else {
            rest
        }
    }
}

/// The payload held for identity `k` in `s`, if any (the latest, were there
/// several).
pub open spec fn lookup(s: Seq<(BidRequest, ExecutionPayload)>, k: BidRequest) -> Option<ExecutionPayload>
    decreases s.len(),
{
    if s.len() == 0 {
        None
    } else if s.last().0 == k {
        Some(s.last().1)
    } else {
        lookup(s.drop_last(), k)
    }
}

/// How many entries of `s` are held for identity `k`.
pub open spec fn key_count(s: Seq<(BidRequest, ExecutionPayload)>, k: BidRequest) -> nat
    decreases s.len(),
{
    if s.len() == 0 {
        0
    } else {
        key_count(s.drop_last(), k) + if s.last().0 == k {
            1nat
        } else {
            0nat
        }
    }
}

/// At most one entry per auction identity.
pub open spec fn entries_unique(s: Seq<(BidRequest, ExecutionPayload)>) -> bool {
    forall|k: BidRequest| #[trigger] key_count(s, k) <= 1
}

/// The cache after a payload for `k` has been stored: any earlier entry for
/// `k` gives way to the new one.
pub open spec fn stored(s: Seq<(BidRequest, ExecutionPayload)>, k: BidRequest, p: ExecutionPayload) -> Seq<(BidRequest, ExecutionPayload)> {
    without_key(s, k).push((k, p))
}

proof fn lemma_without_key_facts(s: Seq<(BidRequest, ExecutionPayload)>, k: BidRequest)
    ensures
        forall|k2: BidRequest| #[trigger] key_count(without_key(s, k), k2) == if k2 == k { 0 } else { key_count(s, k2) },
        forall|k2: BidRequest| #[trigger] lookup(without_key(s, k), k2) == if k2 == k { None } else { lookup(s, k2) },
        lookup(s, k) is None ==> without_key(s, k) == s,
    decreases s.len(),
{
    if s.len() > 0 {
        lemma_without_key_facts(s.drop_last(), k);
        let rest = without_key(s.drop_last(), k);
        if s.last().0 != k {
            lemma_push_facts(rest, s.last());
            if lookup(s, k) is None {
                assert(s.drop_last().push(s.last()) =~= s);
            }
        }
        assert forall|k2: BidRequest| #[trigger] key_count(without_key(s, k), k2) == if k2 == k { 0 } else { key_count(s, k2) } by {
            assert(key_count(s, k2) == key_count(s.drop_last(), k2) + if s.last().0 == k2 { 1nat } else { 0nat });
        }
        assert forall|k2: BidRequest| #[trigger] lookup(without_key(s, k), k2) == if k2 == k { None } else { lookup(s, k2) } by {
            assert(lookup(s, k2) == if s.last().0 == k2 { Some(s.last().1) } else { lookup(s.drop_last(), k2) });
        }
    }
}

proof fn lemma_push_facts(s: Seq<(BidRequest, ExecutionPayload)>, e: (BidRequest, ExecutionPayload))
    ensures
        forall|k2: BidRequest| #[trigger] key_count(s.push(e), k2) == key_count(s, k2) + if e.0 == k2 { 1nat } else { 0nat },
        forall|k2: BidRequest| #[trigger] lookup(s.push(e), k2) == if e.0 == k2 { Some(e.1) } else { lookup(s, k2) },
{
    assert(s.push(e).drop_last() =~= s);
}

/// Storing a payload for an identity leaves exactly one entry for it, holding
/// that payload, and keeps every other identity's entries; storing a second
/// payload for the same identity replaces the first rather than adding to it.
pub proof fn lemma_store_replaces(s: Seq<(BidRequest, ExecutionPayload)>, k: BidRequest, first: ExecutionPayload, second: ExecutionPayload)
    requires
        entries_unique(s),
    ensures
        entries_unique(stored(s, k, first)),
        key_count(stored(s, k, first), k) == 1,
        lookup(stored(s, k, first), k) == Some(first),
        forall|k2: BidRequest| k2 != k ==> #[trigger] lookup(stored(s, k, first), k2) == lookup(s, k2),
        key_count(stored(stored(s, k, first), k, second), k) == 1,
        lookup(stored(stored(s, k, first), k, second), k) == Some(second),
{
    lemma_without_key_facts(s, k);
    lemma_push_facts(without_key(s, k), (k, first));
    let s1 = stored(s, k, first);
    lemma_without_key_facts(s1, k);
    lemma_push_facts(without_key(s1, k), (k, second));
}

/// Opening the payload just stored for an identity finds that payload, and
/// once it is taken out nothing is left to open for that identity.
pub proof fn lemma_open_once(s: Seq<(BidRequest, ExecutionPayload)>, k: BidRequest, p: ExecutionPayload)
    ensures
        lookup(stored(s, k, p), k) == Some(p),
        lookup(without_key(stored(s, k, p), k), k) is None,
{
    lemma_without_key_facts(s, k);
    lemma_push_facts(without_key(s, k), (k, p));
    lemma_without_key_facts(stored(s, k, p), k);
}

/// Eviction at slot `current` keeps exactly the identities whose slot plus the
/// tolerance reaches `current`, with their payloads.
pub proof fn lemma_eviction(s: Seq<(BidRequest, ExecutionPayload)>, current: u64)
    ensures
        forall|k: BidRequest| #[trigger] lookup(surviving(s, current), k) == if survives(k.slot, current) {
            lookup(s, k)
        } else {
            None
        },
        forall|k: BidRequest| #[trigger] key_count(surviving(s, current), k) == if survives(k.slot, current) {
            key_count(s, k)
        } else {
            0
        },
    decreases s.len(),
{
    if s.len() > 0 {
        lemma_eviction(s.drop_last(), current);
        let rest = surviving(s.drop_last(), current);
        if survives(s.last().0.slot, current) {
            lemma_push_facts(rest, s.last());
        }
        assert forall|k: BidRequest| #[trigger] key_count(surviving(s, current), k) == if survives(k.slot, current) {
            key_count(s, k)
        } else {
            0
        } by {
            assert(key_count(s, k) == key_count(s.drop_last(), k) + if s.last().0 == k { 1nat } else { 0nat });
        }
        assert forall|k: BidRequest| #[trigger] lookup(surviving(s, current), k) == if survives(k.slot, current) {
            lookup(s, k)
        } else {
            None
        } by {
            assert(lookup(s, k) == if s.last().0 == k { Some(s.last().1) } else { lookup(s.drop_last(), k) });
        }
    }
}

/// A request whose slot plus the tolerance falls short of the fork's expected
/// slot is refused as untimely, whatever the chain tip and the registry say.
pub proof fn lemma_late_request_rejected(req: BidRequest, fork: Fork, context: Context, validator_index: Option<u64>)
    requires
        req.slot + PROPOSAL_TOLERANCE_DELAY < expected_slot(fork, context),
    ensures
        bid_request_check(req, fork, context, validator_index) == Err::<(), RelayError>(RelayError::InvalidSlot),
{
}

/// Takes the entry for `k` out of `entries`, returning its payload.
fn take_entry(entries: &mut Vec<(BidRequest, ExecutionPayload)>, k: &BidRequest) -> (found: Option<ExecutionPayload>)
    ensures
        final(entries)@ == without_key(old(entries)@, *k),
        found == lookup(old(entries)@, *k),
{
    let mut rest: Vec<(BidRequest, ExecutionPayload)> = Vec::new();
    std::mem::swap(entries, &mut rest);
    let ghost orig = rest@;
    let mut found: Option<ExecutionPayload> = None;
    let ghost mut j: int = 0;
    proof {
        assert(orig.take(0) =~= Seq::<(BidRequest, ExecutionPayload)>::empty());
        assert(orig.skip(0) =~= orig);
    }
    while rest.len() > 0
        invariant
            0 <= j <= orig.len(),
            rest@ == orig.skip(j),
            entries@ == without_key(orig.take(j), *k),
            found == lookup(orig.take(j), *k),
        decreases rest.len(),
    {
        let e = rest.remove(0);
        proof {
            assert(orig.take(j + 1).drop_last() =~= orig.take(j));
            assert(orig.take(j + 1).last() == e);
            assert(rest@ =~= orig.skip(j + 1));
        }
        let (key, payload) = e;
        if key == *k {
            found = Some(payload);
        } else {
            entries.push((key, payload));
        }
        proof {
            j = j + 1;
        }
    }
    proof {
        assert(orig.take(j) =~= orig);
    }
    found
}

/// Drops every entry that does not survive the clock reaching `slot`.
fn evict_entries(entries: &mut Vec<(BidRequest, ExecutionPayload)>, slot: u64)
    ensures
        final(entries)@ == surviving(old(entries)@, slot),
{
    let mut rest: Vec<(BidRequest, ExecutionPayload)> = Vec::new();
    std::mem::swap(entries, &mut rest);
    let ghost orig = rest@;
    let ghost mut j: int = 0;
    proof {
        assert(orig.take(0) =~= Seq::<(BidRequest, ExecutionPayload)>::empty());
        assert(orig.skip(0) =~= orig);
    }
    while rest.len() > 0
        invariant
            0 <= j <= orig.len(),
            rest@ == orig.skip(j),
            entries@ == surviving(orig.take(j), slot),
        decreases rest.len(),
    {
        let e = rest.remove(0);
        proof {
            assert(orig.take(j + 1).drop_last() =~= orig.take(j));
            assert(orig.take(j + 1).last() == e);
            assert(rest@ =~= orig.skip(j + 1));
        }
        if e.0.slot as u128 + PROPOSAL_TOLERANCE_DELAY as u128 >= slot as u128 {
            entries.push(e);
        }
        proof {
            j = j + 1;
        }
    }
    proof {
        assert(orig.take(j) =~= orig);
    }
}

/// The relay's fixed configuration.
#[derive(Clone, Copy, Debug, PartialEq, Eq, Structural)]
pub struct Inner {
    pub public_key: BlsPublicKey,
    pub genesis_validators_root: Hash32,
    pub context: Context,
}

/// A relay running the blind auction: it withholds each payload it bids with
/// until the proposer commits to it.
pub struct Relay {
    inner: Inner,
    execution_payloads: Vec<(BidRequest, ExecutionPayload)>,
}

impl Relay {
    /// The withheld payloads, each under the auction identity it was built for.
    pub closed spec fn payloads(&self) -> Seq<(BidRequest, ExecutionPayload)> {
        self.execution_payloads@
    }

    /// The relay's configuration.
    pub closed spec fn settings(&self) -> Inner {
        self.inner
    }

    /// At most one payload is held per auction identity.
    pub open spec fn wf(&self) -> bool {
        entries_unique(self.payloads())
    }

    /// A relay with the given identity and chain parameters, holding no payloads.
    pub fn new(genesis_validators_root: Hash32, public_key: BlsPublicKey, context: Context) -> (r: Relay)
        ensures
            r.settings() == (Inner { public_key, genesis_validators_root, context }),
            r.payloads() == Seq::<(BidRequest, ExecutionPayload)>::empty(),
            r.wf(),
    {
        let r = Relay {
            inner: Inner { public_key, genesis_validators_root, context },
            execution_payloads: Vec::new(),
        };
        proof {
            assert forall|k: BidRequest| #[trigger] key_count(r.payloads(), k) <= 1 by {}
        }
        r
    }

    /// The relay's configuration.
    pub fn inner(&self) -> (r: &Inner)
        ensures
            *r == self.settings(),
    {
        &self.inner
    }

    /// Advances the relay to `slot`: drops every payload whose slot plus the
    /// tolerance falls short of `slot`. Returns whether the validator set is to
    /// be reloaded, which is the case at an epoch boundary.
    pub fn on_slot(&mut self, slot: u64, next_epoch: bool) -> (reload: bool)
        requires
            old(self).wf(),
        ensures
            reload == next_epoch,
            final(self).settings() == old(self).settings(),
            final(self).payloads() == surviving(old(self).payloads(), slot),
            final(self).wf(),
    {
        proof {
            lemma_eviction(self.payloads(), slot);
        }
        evict_entries(&mut self.execution_payloads, slot);
        proof {
            assert forall|k: BidRequest| #[trigger] key_count(self.payloads(), k) <= 1 by {
                assert(key_count(old(self).payloads(), k) <= 1);
            }
        }
        next_epoch
    }

    /// Validates a bid request before anything is built for it: the request
    /// must be timely and on the chain tip, and the validator registry must
    /// know the public key (`validator_index`) and its preferences. Returns
    /// those preferences.
    pub fn prepare_bid(
        &self,
        bid_request: &BidRequest,
        validator_index: Option<u64>,
        preferences: Option<ValidatorPreferences>,
    ) -> (r: Result<ValidatorPreferences, RelayError>)
        ensures
            r == match bid_request_check(*bid_request, Fork::Bellatrix, self.settings().context, validator_index) {
                Err(e) => Err(e),
                Ok(_) => match preferences {
                    Some(p) => Ok(p),
                    None => Err(RelayError::MissingPreferences(bid_request.public_key)),
                },
            },
    {
        match validate_bid_request(bid_request, Fork::Bellatrix, &self.inner.context, validator_index) {
            Err(e) => Err(e),
            Ok(_) => match preferences {
                Some(p) => Ok(p),
                None => Err(RelayError::MissingPreferences(bid_request.public_key)),
            },
        }
    }

    /// Accepts the payload built for `bid_request`: checks it against the
    /// proposer's preferences, withholds it under the request's identity (in
    /// place of any earlier one) and returns the unsigned bid on its header.
    /// On failure nothing is stored.
    pub fn fetch_best_bid(
        &mut self,
        bid_request: &BidRequest,
        preferences: &ValidatorPreferences,
        payload: ExecutionPayload,
        value: U256,
    ) -> (r: Result<BuilderBid, RelayError>)
        requires
            old(self).wf(),
        ensures
            final(self).settings() == old(self).settings(),
            final(self).wf(),
            payload.gas_limit != preferences.gas_limit ==> r == Err::<BuilderBid, RelayError>(RelayError::InvalidGasLimit),
            payload.gas_limit == preferences.gas_limit && header_of(payload) is None ==> r == Err::<BuilderBid, RelayError>(RelayError::UnsupportedFork),
            r is Err ==> final(self).payloads() == old(self).payloads(),
            payload.gas_limit == preferences.gas_limit && header_of(payload) is Some ==> {
                &&& r == Ok::<BuilderBid, RelayError>(BuilderBid { header: header_of(payload)->0, value, public_key: old(self).settings().public_key })
                &&& final(self).payloads() == stored(old(self).payloads(), *bid_request, payload)
            },
    {
        if let Err(e) = validate_execution_payload(&payload, &value, preferences) {
            return Err(e);
        }
        let header = match header_from(&payload) {
            Some(h) => h,
            None => return Err(RelayError::UnsupportedFork),
        };
        proof {
            lemma_without_key_facts(self.payloads(), *bid_request);
            lemma_push_facts(without_key(self.payloads(), *bid_request), (*bid_request, payload));
        }
        let _ = take_entry(&mut self.execution_payloads, bid_request);
        self.execution_payloads.push((*bid_request, payload));
        proof {
            assert forall|k: BidRequest| #[trigger] key_count(self.payloads(), k) <= 1 by {
                assert(key_count(old(self).payloads(), k) <= 1);
            }
        }
        Ok(BuilderBid { header, value, public_key: self.inner.public_key })
    }

    /// Opens the bid a proposer committed to in `block`: resolves the proposer
    /// (`proposer_public_key`, as the validator registry gives it for the
    /// block's proposer index), takes the payload withheld for that auction out
    /// of the cache, and returns it if the block commits to its hash and its
    /// signature holds (`signature_valid`). A payload once taken out is gone,
    /// whether or not the block passes.
    pub fn open_bid(
        &mut self,
        block: &BlockCommitment,
        proposer_public_key: Option<BlsPublicKey>,
        signature_valid: bool,
    ) -> (r: Result<ExecutionPayload, RelayError>)
        requires
            old(self).wf(),
        ensures
            final(self).settings() == old(self).settings(),
            final(self).wf(),
            proposer_public_key is None ==> {
                &&& r == Err::<ExecutionPayload, RelayError>(RelayError::UnknownValidatorIndex(block.proposer_index))
                &&& final(self).payloads() == old(self).payloads()
            },
            proposer_public_key is Some ==> {
                let k = BidRequest { slot: block.slot, parent_hash: block.parent_hash, public_key: proposer_public_key->0 };
                &&& final(self).payloads() == without_key(old(self).payloads(), k)
                &&& r == match lookup(old(self).payloads(), k) {
                    None => Err(RelayError::UnknownBid),
                    Some(p) => if p.block_hash != block.block_hash {
                        Err(RelayError::UnknownBlock)
                    } else if !signature_valid {
                        Err(RelayError::InvalidSignature)
                    } else {
                        Ok(p)
                    },
                }
            },
            lookup(old(self).payloads(), BidRequest { slot: block.slot, parent_hash: block.parent_hash, public_key: proposer_public_key->0 }) is None
                ==> final(self).payloads() == old(self).payloads(),
    {
        let public_key = match proposer_public_key {
            Some(pk) => pk,
            None => return Err(RelayError::UnknownValidatorIndex(block.proposer_index)),
        };
        let bid_request = BidRequest { slot: block.slot, parent_hash: block.parent_hash, public_key };
        proof {
            lemma_without_key_facts(self.payloads(), bid_request);
        }
        let payload = match take_entry(&mut self.execution_payloads, &bid_request) {
            Some(p) => p,
            None => return Err(RelayError::UnknownBid),
        };
        proof {
            assert forall|k: BidRequest| #[trigger] key_count(self.payloads(), k) <= 1 by {
                assert(key_count(old(self).payloads(), k) <= 1);
            }
        }
        match validate_signed_block(block, &payload, signature_valid) {
            Err(e) => Err(e),
            Ok(()) => Ok(payload),
        }
    }
}

} // verus!
