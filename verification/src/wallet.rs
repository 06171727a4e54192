use vstd::prelude::*;
use vstd::string::StrSliceExecFns;
use vstd::string::StringExecFns;

use crate::block::{clone_bytes, spec_parse_block, Block};
use crate::codec::{valid_address, Flag, ProtocolError};
use crate::miner::OutMsg;
use crate::text::str_eq;

verus! {

// ---------------------------------------------------------------------------
// Merkle inclusion, through the outside crates
// ---------------------------------------------------------------------------

#[verifier::external_type_specification]
#[verifier::external_body]
#[verifier::reject_recursive_types(T)]
pub struct ExMerkleTree<T>(merkle::MerkleTree<T>);

#[verifier::external_type_specification]
#[verifier::external_body]
#[verifier::reject_recursive_types(T)]
pub struct ExMerkleProof<T>(merkle::Proof<T>);

/// The hash the tree computes for one leaf value: a function of the value's
/// bytes alone.
pub uninterp spec fn merkle_leaf_hash(v: Seq<u8>) -> Seq<u8>;

/// The leaf values a tree was built over, in order.
pub uninterp spec fn merkle_tree_values(t: merkle::MerkleTree<Vec<u8>>) -> Seq<Seq<u8>>;

/// The root hash of a tree.
pub uninterp spec fn merkle_tree_root(t: merkle::MerkleTree<Vec<u8>>) -> Seq<u8>;

/// The root hash a proof claims to reach.
pub uninterp spec fn merkle_proof_root(p: merkle::Proof<Vec<u8>>) -> Seq<u8>;

/// Whether a proof's internal hash chain is consistent.
pub uninterp spec fn merkle_proof_sound(p: merkle::Proof<Vec<u8>>) -> bool;

/// Relies on merkle::MerkleTree::from_vec with ring's SHA-256: the tree is
/// built over exactly the given leaf values.
#[verifier::external_body]
fn merkle_tree_from(values: Vec<Vec<u8>>) -> (t: merkle::MerkleTree<Vec<u8>>)
    ensures
        merkle_tree_values(t) == values.deep_view(),
{
    merkle::MerkleTree::from_vec(&ring::digest::SHA256, values)
}

/// Relies on merkle::MerkleTree::gen_proof: a proof comes back exactly when
/// the value's leaf hash equals some leaf's hash, and such a proof is
/// consistent and names the tree's root.
#[verifier::external_body]
fn merkle_gen_proof(t: &merkle::MerkleTree<Vec<u8>>, value: Vec<u8>) -> (r: Option<
    merkle::Proof<Vec<u8>>,
>)
    ensures
        r is Some <==> (exists|i: int|
            0 <= i < merkle_tree_values(*t).len() && merkle_leaf_hash(
                #[trigger] merkle_tree_values(*t)[i],
            ) == merkle_leaf_hash(value@)),
        r matches Some(p) ==> merkle_proof_root(p) == merkle_tree_root(*t) && merkle_proof_sound(
            p,
        ),
{
    t.gen_proof(value)
}

/// Relies on merkle::MerkleTree::root_hash.
#[verifier::external_body]
fn merkle_root(t: &merkle::MerkleTree<Vec<u8>>) -> (r: &Vec<u8>)
    ensures
        r@ == merkle_tree_root(*t),
{
    t.root_hash()
}

/// Relies on merkle::Proof::validate: true exactly for a consistent proof
/// whose claimed root equals the given one.
#[verifier::external_body]
fn merkle_validate(p: &merkle::Proof<Vec<u8>>, root: &Vec<u8>) -> (r: bool)
    ensures
        r == (merkle_proof_sound(*p) && merkle_proof_root(*p) == root@),
{
    p.validate(root.as_slice())
}

/// Inclusion as the Merkle check decides it: some leaf carries the same
/// leaf hash as the sought value.
pub open spec fn merkle_included(hashes: Seq<Seq<u8>>, tx: Seq<u8>) -> bool {
    exists|i: int|
        0 <= i < hashes.len() && merkle_leaf_hash(#[trigger] hashes[i]) == merkle_leaf_hash(tx)
}

// ---------------------------------------------------------------------------
// Wallet
// ---------------------------------------------------------------------------

/// A thin client bound to one miner.
pub struct Wallet {
    pub id: u32,
    pub miner: String,
    pub socket: String,
}

/// The commands the console driver hands to a wallet.
#[derive(Copy, Clone, Debug, PartialEq, Eq, Structural)]
pub enum UserCommand {
    Send,
    Check,
    Verify,
    Exit,
}

pub open spec fn is_ws_char(c: char) -> bool {
    c == ' ' || c == '\n' || c == '\t' || c == '\r'
}

pub open spec fn trim_front(s: Seq<char>) -> Seq<char>
    decreases s.len(),
{
    if s.len() > 0 && is_ws_char(s[0]) {
        trim_front(s.drop_first())
    } else {
        s
    }
}

pub open spec fn trim_back(s: Seq<char>) -> Seq<char>
    decreases s.len(),
{
    if s.len() > 0 && is_ws_char(s.last()) {
        trim_back(s.drop_last())
    } else {
        s
    }
}

/// The text with ASCII whitespace removed from both ends.
pub open spec fn spec_trim(s: Seq<char>) -> Seq<char> {
    trim_back(trim_front(s))
}

pub open spec fn spec_command_of(s: Seq<char>) -> Option<UserCommand> {
    let t = spec_trim(s);
    if t == ("Send")@ {
        Some(UserCommand::Send)
    } else if t == ("Check")@ {
        Some(UserCommand::Check)
    } else if t == ("Verify")@ {
        Some(UserCommand::Verify)
    } else if t == ("Exit")@ {
        Some(UserCommand::Exit)
    } else {
        None
    }
}

proof fn lemma_trim_front_at(s: Seq<char>, i: int)
    requires
        0 <= i <= s.len(),
        forall|j: int| 0 <= j < i ==> is_ws_char(s[j]),
        i == s.len() || !is_ws_char(s[i]),
    ensures
        trim_front(s) =~= s.subrange(i, s.len() as int),
    decreases i,
{
    if i == 0 {
        if s.len() > 0 {
            assert(!is_ws_char(s[0]));
        }
        assert(s.subrange(0, s.len() as int) =~= s);
    } else {
        assert(is_ws_char(s[0]));
        let t = s.drop_first();
        assert forall|j: int| 0 <= j < i - 1 implies is_ws_char(t[j]) by {
            assert(t[j] == s[j + 1]);
        }
        if i - 1 < t.len() {
            assert(t[i - 1] == s[i]);
        }
        lemma_trim_front_at(t, i - 1);
        assert(t.subrange(i - 1, t.len() as int) =~= s.subrange(i, s.len() as int));
    }
}

proof fn lemma_trim_back_at(s: Seq<char>, i: int)
    requires
        0 <= i <= s.len(),
        forall|j: int| i <= j < s.len() ==> is_ws_char(s[j]),
        i == 0 || !is_ws_char(s[i - 1]),
    ensures
        trim_back(s) =~= s.subrange(0, i),
    decreases s.len() - i,
{
    if i == s.len() {
        if s.len() > 0 {
            assert(!is_ws_char(s.last()));
        }
        assert(s.subrange(0, s.len() as int) =~= s);
    } else {
        assert(is_ws_char(s.last()));
        let t = s.drop_last();
        assert forall|j: int| i <= j < t.len() implies is_ws_char(t[j]) by {
            assert(t[j] == s[j]);
        }
        if i > 0 {
            assert(t[i - 1] == s[i - 1]);
        }
        lemma_trim_back_at(t, i);
        assert(t.subrange(0, i) =~= s.subrange(0, i));
    }
}

fn is_ws(c: char) -> (r: bool)
    ensures
        r == is_ws_char(c),
{
    c == ' ' || c == '\n' || c == '\t' || c == '\r'
}

/// The text with whitespace removed from both ends.
fn trim_str(s: &str) -> (r: &str)
    ensures
        r@ == spec_trim(s@),
{
    let n = s.unicode_len();
    let mut i: usize = 0;
    while i < n && is_ws(s.get_char(i))
        invariant
            i <= n == s@.len(),
            forall|j: int| 0 <= j < i ==> is_ws_char(s@[j]),
        decreases n - i,
    {
        i = i + 1;
    }
    proof {
        lemma_trim_front_at(s@, i as int);
    }
    let mut j: usize = n;
    while j > i && is_ws(s.get_char(j - 1))
        invariant
            i <= j <= n == s@.len(),
            forall|k: int| j <= k < s@.len() ==> is_ws_char(s@[k]),
        decreases j,
    {
        j = j - 1;
    }
    let r = s.substring_char(i, j);
    proof {
        let f = trim_front(s@);
        assert(f =~= s@.subrange(i as int, s@.len() as int));
        assert forall|k: int| (j - i) <= k < f.len() implies is_ws_char(f[k]) by {
            assert(f[k] == s@[k + i]);
        }
        if j > i {
            assert(f[j - i - 1] == s@[j as int - 1]);
            assert(!is_ws_char(f[j - i - 1]));
        }
        lemma_trim_back_at(f, j - i);
        assert(f.subrange(0, j - i) =~= s@.subrange(i as int, j as int));
        assert(r@ =~= spec_trim(s@));
    }
    r
}

impl UserCommand {
    /// Reads a console word; an unknown word is no command rather than a
    /// halt.
    pub fn from_string(value: String) -> (r: Option<UserCommand>)
        ensures
            r == spec_command_of(value@),
    {
        let t = trim_str(value.as_str());
        if str_eq(t, "Send") {
            Some(UserCommand::Send)
        } else if str_eq(t, "Check") {
            Some(UserCommand::Check)
        } else if str_eq(t, "Verify") {
            Some(UserCommand::Verify)
        } else if str_eq(t, "Exit") {
            Some(UserCommand::Exit)
        } else {
            None
        }
    }
}

/// What the console driver must do for one command: send a frame, print a
/// reply, or fetch the chain and run the inclusion check.
pub enum WalletAction {
    SendTransaction(OutMsg),
    Reply(String),
    FetchAndVerify(String),
}

impl Wallet {
    pub open spec fn wf(self) -> bool {
        &&& valid_address(self.socket@)
        &&& valid_address(self.miner@)
    }

    /// A wallet bound to one miner.
    pub fn new(socket: String, miner: String, id: u32) -> (r: Wallet)
        ensures
            r.socket@ == socket@,
            r.miner@ == miner@,
            r.id == id,
    {
        Wallet { socket, miner, id }
    }

    /// Decides what one user command means; the console driver performs the
    /// action.
    pub fn handle_user_input(&self, command: UserCommand, target: String, message: String) -> (r:
        WalletAction)
        ensures
            match command {
                UserCommand::Send => r matches WalletAction::SendTransaction(o) && o@.dest
                    == self.miner@ && o@.flag == Flag::Transaction && o@.body == message@,
                UserCommand::Check => r matches WalletAction::Reply(s) && s@ == ("Check ok")@,
                UserCommand::Verify => r matches WalletAction::FetchAndVerify(s) && s@
                    == message@,
                UserCommand::Exit => r matches WalletAction::Reply(s) && s@ == (
                "Unknown command")@,
            },
    {
        match command {
            UserCommand::Send => WalletAction::SendTransaction(
                OutMsg { dest: self.miner.clone(), flag: Flag::Transaction, body: message },
            ),
            UserCommand::Check => WalletAction::Reply(String::from_str("Check ok")),
            UserCommand::Verify => WalletAction::FetchAndVerify(message),
            UserCommand::Exit => WalletAction::Reply(String::from_str("Unknown command")),
        }
    }

    /// The reply the console prints for an inclusion check.
    pub fn verify_response(&self, verified: bool) -> (r: String)
        ensures
            verified ==> r@ == ("Transaction is verified !")@,
            !verified ==> r@ == ("Transaction is not correct !")@,
    {
        if verified {
            String::from_str("Transaction is verified !")
        } else {
            String::from_str("Transaction is not correct !")
        }
    }

    /// Reads one block out of its serialized text.
    pub fn decode_block(&self, encoded_block: String) -> (r: Result<Block, ProtocolError>)
        ensures
            r is Ok <==> spec_parse_block(encoded_block@) is Some,
            r matches Ok(b) ==> spec_parse_block(encoded_block@) == Some(b@),
            r matches Err(e) ==> e == ProtocolError::BadPayload,
    {
        Block::from_wire_text(encoded_block.as_str())
    }

    /// The Merkle inclusion check over a fetched chain: true exactly when
    /// some block's hash carries the leaf hash of the transaction bytes.
    pub fn verify_transaction(&self, blockchain: &Vec<Block>, transaction: Vec<u8>) -> (r: bool)
        ensures
            r == merkle_included(
                blockchain@.map_values(|b: Block| b@.hash),
                transaction@,
            ),
    {
        let ghost hv = blockchain@.map_values(|b: Block| b@.hash);
        let n = blockchain.len();
        let mut hashchain: Vec<Vec<u8>> = Vec::new();
        let mut i: usize = 0;
        while i < n
            invariant
                i <= n == blockchain@.len(),
                hv == blockchain@.map_values(|b: Block| b@.hash),
                hashchain.deep_view() =~~= hv.subrange(0, i as int),
            decreases n - i,
        {
            hashchain.push(clone_bytes(&blockchain[i].hash));
            i = i + 1;
            proof {
                assert(hashchain.deep_view() =~~= hv.subrange(0, i as int));
            }
        }
        proof {
            assert(hashchain.deep_view() =~~= hv);
        }
        let tree = merkle_tree_from(hashchain);
        match merkle_gen_proof(&tree, transaction) {
            Some(p) => {
                let rh = merkle_root(&tree);
                let ok = merkle_validate(&p, rh);
                proof {
                    assert(ok);
                    assert(merkle_included(hv, transaction@));
                }
                ok
            },
            None => {
                proof {
                    assert(!merkle_included(hv, transaction@));
                }
                false
            },
        }
    }
}

// ---------------------------------------------------------------------------
// Ledger replication (wallet side)
// ---------------------------------------------------------------------------

/// How many consecutive empty reads end a chain fetch.
pub const FETCH_EMPTY_LIMIT: u32 = 5;

/// The state of one chain fetch: blocks arrive one per `SendBlockchain`
/// message; the fetch ends after a run of empty reads.
pub struct FetchSession {
    pub blocks: Vec<Block>,
    pub empty_reads: u32,
}

pub struct FetchView {
    pub blocks: Seq<Block>,
    pub empty_reads: u32,
}

impl View for FetchSession {
    type V = FetchView;

    open spec fn view(&self) -> FetchView {
        FetchView { blocks: self.blocks@, empty_reads: self.empty_reads }
    }
}

/// One step of a chain fetch: a received block is appended and resets the
/// run of empty reads; an empty read lengthens the run (held at the type
/// bound), and the fetch is done once the run reaches the limit.
pub open spec fn fetch_step(
    pre: FetchView,
    input: Option<Block>,
    post: FetchView,
    done: bool,
) -> bool {
    match input {
        Some(blk) => {
            &&& post.blocks == pre.blocks.push(blk)
            &&& post.empty_reads == 0
            &&& !done
        },
        None => {
            &&& post.blocks == pre.blocks
            &&& post.empty_reads == (if pre.empty_reads < u32::MAX {
                pre.empty_reads + 1
            } else {
                pre.empty_reads as int
            })
            &&& done == (post.empty_reads >= FETCH_EMPTY_LIMIT)
        },
    }
}

impl FetchSession {
    pub fn new() -> (r: FetchSession)
        ensures
            r@.blocks =~= Seq::<Block>::empty(),
            r@.empty_reads == 0,
    {
        FetchSession { blocks: Vec::new(), empty_reads: 0 }
    }

    /// Feeds one read outcome into the session; true when the fetch is
    /// done.
    pub fn on_stream_result(&mut self, b: Option<Block>) -> (done: bool)
        ensures
            fetch_step(old(self)@, b, final(self)@, done),
    {
        match b {
            Some(blk) => {
                self.blocks.push(blk);
                self.empty_reads = 0;
                false
            },
            None => {
                if self.empty_reads < u32::MAX {
                    self.empty_reads = self.empty_reads + 1;
                }
                self.empty_reads >= FETCH_EMPTY_LIMIT
            },
        }
    }
}

/// Ledger replication, end to end over the session: a fresh session fed
/// the blocks of a chain, one per read, in order, ends up holding exactly
/// that chain.
pub proof fn lemma_fetch_replicates(states: Seq<FetchView>, chain: Seq<Block>)
    requires
        states.len() == chain.len() + 1,
        states[0].blocks =~= Seq::<Block>::empty(),
        forall|i: int|
            0 <= i < chain.len() ==> fetch_step(#[trigger] states[i], Some(chain[i]), states[i + 1], false),
    ensures
        states[chain.len() as int].blocks =~= chain,
{
    lemma_fetch_prefix(states, chain, chain.len() as int);
    assert(chain.subrange(0, chain.len() as int) =~= chain);
}

proof fn lemma_fetch_prefix(states: Seq<FetchView>, chain: Seq<Block>, k: int)
    requires
        states.len() == chain.len() + 1,
        states[0].blocks =~= Seq::<Block>::empty(),
        forall|i: int|
            0 <= i < chain.len() ==> fetch_step(#[trigger] states[i], Some(chain[i]), states[i + 1], false),
        0 <= k <= chain.len(),
    ensures
        states[k].blocks =~= chain.subrange(0, k),
    decreases k,
{
    if k == 0 {
        assert(chain.subrange(0, 0) =~= Seq::<Block>::empty());
    } else {
        lemma_fetch_prefix(states, chain, k - 1);
        assert(fetch_step(states[k - 1], Some(chain[k - 1]), states[k], false));
        assert(chain.subrange(0, k).drop_last() =~= chain.subrange(0, k - 1));
        assert(states[k].blocks =~= chain.subrange(0, k));
    }
}

/// The fetch ends exactly at the limit: from a clean run, the first four
/// empty reads keep it going and the fifth ends it, with the blocks kept.
pub proof fn lemma_fetch_ends(states: Seq<FetchView>, dones: Seq<bool>)
    requires
        states.len() == FETCH_EMPTY_LIMIT + 1,
        dones.len() == FETCH_EMPTY_LIMIT,
        states[0].empty_reads == 0,
        forall|i: int|
            0 <= i < dones.len() ==> fetch_step(#[trigger] states[i], None, states[i + 1], dones[i]),
    ensures
        forall|i: int| 0 <= i < dones.len() - 1 ==> !dones[i],
        dones[dones.len() - 1],
        states[states.len() - 1].blocks == states[0].blocks,
{
    assert forall|k: int| 0 <= k <= 5 implies states[k].empty_reads == k && states[k].blocks
        == states[0].blocks by {
        lemma_fetch_empty_run(states, dones, k);
    }
    assert forall|i: int| 0 <= i < dones.len() - 1 implies !dones[i] by {
        assert(fetch_step(states[i], None, states[i + 1], dones[i]));
        assert(states[i + 1].empty_reads == i + 1);
    }
    assert(fetch_step(states[4], None, states[5], dones[4]));
}

proof fn lemma_fetch_empty_run(states: Seq<FetchView>, dones: Seq<bool>, k: int)
    requires
        states.len() == FETCH_EMPTY_LIMIT + 1,
        dones.len() == FETCH_EMPTY_LIMIT,
        states[0].empty_reads == 0,
        forall|i: int|
            0 <= i < dones.len() ==> fetch_step(#[trigger] states[i], None, states[i + 1], dones[i]),
        0 <= k <= FETCH_EMPTY_LIMIT,
    ensures
        states[k].empty_reads == k,
        states[k].blocks == states[0].blocks,
    decreases k,
{
    if k > 0 {
        lemma_fetch_empty_run(states, dones, k - 1);
        assert(fetch_step(states[k - 1], None, states[k], dones[k - 1]));
    }
}

} // verus!
