use vstd::prelude::*;
use vstd::string::StrSliceExecFns;
use vstd::string::StringExecFns;

use crate::block::{
    candidate_ok, chain_view, chain_wf, mined_ok, spec_block_text, spec_parse_block,
    validate_candidate, Block, BlockView, BLOCK_PAYLOAD_SIZE,
};
use crate::codec::{
    address_ok, encode_message, spec_encode_message, valid_address, Flag, Message, MessageView,
    ProtocolError,
};
use crate::registry::{
    hashset_from_string, hashset_to_string, remove_pair, spec_max_id, spec_parse_registry,
    spec_registry_text, spec_union, Registry,
};
use crate::text::{
    find_char, find_char_in, lemma_decimal_len_u32, lemma_find_char, parse_u32, push_char,
    spec_decimal, spec_parse_decimal, str_eq, u32_to_string,
};

verus! {

// ---------------------------------------------------------------------------
// Outgoing messages
// ---------------------------------------------------------------------------

/// One message the engine asks the transport to deliver: destination
/// address, tag, and payload text. The frame itself is built by
/// `Miner::make_frame`.
pub struct OutMsg {
    pub dest: String,
    pub flag: Flag,
    pub body: String,
}

pub struct OutMsgView {
    pub dest: Seq<char>,
    pub flag: Flag,
    pub body: Seq<char>,
}

impl View for OutMsg {
    type V = OutMsgView;

    open spec fn view(&self) -> OutMsgView {
        OutMsgView { dest: self.dest@, flag: self.flag, body: self.body@ }
    }
}

pub open spec fn out_views(s: Seq<OutMsg>) -> Seq<OutMsgView> {
    s.map_values(|o: OutMsg| o@)
}

/// The messages of one flood round: one copy of the body to every peer
/// whose address is not the excluded one, in registry order.
pub open spec fn broadcast_plan(
    net: Seq<(u32, Seq<char>)>,
    exclude: Seq<char>,
    flag: Flag,
    body: Seq<char>,
) -> Seq<OutMsgView>
    decreases net.len(),
{
    if net.len() == 0 {
        Seq::empty()
    } else {
        let rest = broadcast_plan(net.drop_last(), exclude, flag, body);
        if net.last().1 != exclude {
            rest.push(OutMsgView { dest: net.last().1, flag, body })
        } else {
            rest
        }
    }
}

/// The peers a liveness sweep contacts: every entry whose id is not the
/// own one, in registry order.
pub open spec fn sweep_plan(net: Seq<(u32, Seq<char>)>, own: u32) -> Seq<(u32, Seq<char>)>
    decreases net.len(),
{
    if net.len() == 0 {
        Seq::empty()
    } else {
        let rest = sweep_plan(net.drop_last(), own);
        if net.last().0 != own {
            rest.push(net.last())
        } else {
            rest
        }
    }
}

// ---------------------------------------------------------------------------
// Miner state
// ---------------------------------------------------------------------------

/// A miner: its identity, the peers it knows, the wallets bound to it, its
/// chain and its pending-transaction pool.
pub struct Miner {
    pub id: u32,
    pub network: Registry,
    pub blocks: Vec<Block>,
    pub sockip: String,
    pub wallets: Registry,
    pub payload: Vec<String>,
    pub current_block_id: u32,
}

pub struct MinerView {
    pub id: u32,
    pub network: Seq<(u32, Seq<char>)>,
    pub blocks: Seq<BlockView>,
    pub sockip: Seq<char>,
    pub wallets: Seq<(u32, Seq<char>)>,
    pub payload: Seq<Seq<char>>,
    pub current_block_id: u32,
}

impl View for Miner {
    type V = MinerView;

    open spec fn view(&self) -> MinerView {
        MinerView {
            id: self.id,
            network: self.network@,
            blocks: chain_view(self.blocks@),
            sockip: self.sockip@,
            wallets: self.wallets@,
            payload: self.payload@.map_values(|s: String| s@),
            current_block_id: self.current_block_id,
        }
    }
}

impl Miner {
    /// The state every verified operation keeps: both registries are
    /// duplicate-free with legal addresses, the chain is well formed, the
    /// own address is legal, and the pool holds no duplicate transaction.
    pub open spec fn wf(self) -> bool {
        &&& self.network.wf()
        &&& self.wallets.wf()
        &&& chain_wf(self@.blocks)
        &&& valid_address(self.sockip@)
        &&& forall|i: int, j: int|
            0 <= i < j < self@.payload.len() ==> self@.payload[i] != self@.payload[j]
    }

    /// A fresh miner that knows nobody and holds nothing.
    pub fn new(id: u32, socket: String) -> (r: Miner)
        requires
            valid_address(socket@),
        ensures
            r.wf(),
            r@.id == id,
            r@.sockip == socket@,
            r@.network =~= Seq::<(u32, Seq<char>)>::empty(),
            r@.wallets =~= Seq::<(u32, Seq<char>)>::empty(),
            r@.blocks =~= Seq::<BlockView>::empty(),
            r@.payload =~= Seq::<Seq<char>>::empty(),
            r@.current_block_id == 0,
    {
        let r = Miner {
            id,
            network: Registry::new(),
            blocks: Vec::new(),
            sockip: socket,
            wallets: Registry::new(),
            payload: Vec::new(),
            current_block_id: 0,
        };
        proof {
            assert(r@.blocks =~= Seq::<BlockView>::empty());
            assert(r@.payload =~= Seq::<Seq<char>>::empty());
        }
        r
    }

    pub fn get_id(&self) -> (r: u32)
        ensures
            r == self@.id,
    {
        self.id
    }

    /// Adds a peer; true exactly when it was new.
    pub fn add_to_network(&mut self, peer_id: u32, peer_addr: String) -> (r: bool)
        requires
            old(self).wf(),
            valid_address(peer_addr@),
        ensures
            final(self).wf(),
            r == !old(self)@.network.contains((peer_id, peer_addr@)),
            r ==> final(self)@ == (MinerView {
                network: old(self)@.network.push((peer_id, peer_addr@)),
                ..old(self)@
            }),
            !r ==> final(self)@ == old(self)@,
    {
        self.network.insert(peer_id, peer_addr)
    }

    /// Removes a peer; true exactly when it was present.
    pub fn remove_from_network(&mut self, peer_id: u32, peer_addr: String) -> (r: bool)
        requires
            old(self).wf(),
        ensures
            final(self).wf(),
            r == old(self)@.network.contains((peer_id, peer_addr@)),
            r ==> final(self)@ == (MinerView {
                network: remove_pair(old(self)@.network, (peer_id, peer_addr@)),
                ..old(self)@
            }),
            !r ==> final(self)@ == old(self)@,
    {
        self.network.remove(peer_id, &peer_addr)
    }

    /// Records a wallet; true exactly when it was new.
    pub fn add_to_wallets(&mut self, peer_id: u32, peer_addr: String) -> (r: bool)
        requires
            old(self).wf(),
            valid_address(peer_addr@),
        ensures
            final(self).wf(),
            r == !old(self)@.wallets.contains((peer_id, peer_addr@)),
            r ==> final(self)@ == (MinerView {
                wallets: old(self)@.wallets.push((peer_id, peer_addr@)),
                ..old(self)@
            }),
            !r ==> final(self)@ == old(self)@,
    {
        self.wallets.insert(peer_id, peer_addr)
    }

    /// The id a joining miner is assigned: one above the greatest id known
    /// here (the own id counts), held at the type bound.
    pub fn retrieve_next_id(&self) -> (r: u32)
        ensures
            r == spec_next_id(self@.network, self@.id),
    {
        let m = self.network.max_id_from(self.id);
        if m < u32::MAX {
            m + 1
        } else {
            u32::MAX
        }
    }

    /// The id a new wallet is assigned: one above the greatest wallet id.
    pub fn retrieve_next_wallet_id(&self) -> (r: u32)
        ensures
            r == spec_next_id(self@.wallets, 0),
    {
        let m = self.wallets.max_id_from(0);
        if m < u32::MAX {
            m + 1
        } else {
            u32::MAX
        }
    }

    /// Plans one flood round: the message to every known peer except the
    /// named sender.
    pub fn broadcast_to_network(&self, message: &String, flag: Flag, sender: String) -> (r: Vec<
        OutMsg,
    >)
        ensures
            out_views(r@) =~= broadcast_plan(self@.network, sender@, flag, message@),
    {
        let n = self.network.entries.len();
        let mut out: Vec<OutMsg> = Vec::new();
        let mut i: usize = 0;
        while i < n
            invariant
                i <= n == self@.network.len(),
                out_views(out@) =~= broadcast_plan(
                    self@.network.subrange(0, i as int),
                    sender@,
                    flag,
                    message@,
                ),
            decreases n - i,
        {
            let ghost pre = out@;
            if !str_eq(self.network.entries[i].1.as_str(), sender.as_str()) {
                out.push(
                    OutMsg {
                        dest: self.network.entries[i].1.clone(),
                        flag,
                        body: message.clone(),
                    },
                );
            }
            i = i + 1;
            proof {
                let sub = self@.network.subrange(0, i as int);
                assert(sub.drop_last() =~= self@.network.subrange(0, i as int - 1));
                assert(sub.last() == self@.network[i - 1]);
                assert(out_views(out@) =~= broadcast_plan(sub, sender@, flag, message@));
            }
        }
        proof {
            assert(self@.network.subrange(0, n as int) =~= self@.network);
        }
        out
    }

    /// The peers a liveness sweep must contact: every entry whose id is not
    /// the own id.
    pub fn refresh_nodes_status(&self) -> (r: Vec<(u32, String)>)
        ensures
            r@.map_values(|e: (u32, String)| (e.0, e.1@)) =~= sweep_plan(self@.network, self@.id),
    {
        let n = self.network.entries.len();
        let mut out: Vec<(u32, String)> = Vec::new();
        let mut i: usize = 0;
        while i < n
            invariant
                i <= n == self@.network.len(),
                out@.map_values(|e: (u32, String)| (e.0, e.1@)) =~= sweep_plan(
                    self@.network.subrange(0, i as int),
                    self@.id,
                ),
            decreases n - i,
        {
            if self.network.entries[i].0 != self.id {
                out.push((self.network.entries[i].0, self.network.entries[i].1.clone()));
            }
            i = i + 1;
            proof {
                let sub = self@.network.subrange(0, i as int);
                assert(sub.drop_last() =~= self@.network.subrange(0, i as int - 1));
                assert(sub.last() == self@.network[i - 1]);
                assert(out@.map_values(|e: (u32, String)| (e.0, e.1@)) =~= sweep_plan(
                    sub,
                    self@.id,
                ));
            }
        }
        proof {
            assert(self@.network.subrange(0, n as int) =~= self@.network);
        }
        out
    }

    /// Records the outcome of one health check: an unreachable peer is
    /// dropped from the registry, a reachable one is kept.
    pub fn health_check(&mut self, destination: &String, id: u32, reachable: bool)
        requires
            old(self).wf(),
        ensures
            final(self).wf(),
            reachable ==> final(self)@ == old(self)@,
            !reachable ==> final(self)@ == (MinerView {
                network: remove_pair(old(self)@.network, (id, destination@)),
                ..old(self)@
            }),
            !reachable ==> final(self)@.network.to_set() == old(self)@.network.to_set().remove(
                (id, destination@),
            ),
    {
        if !reachable {
            let removed = self.network.remove(id, destination);
            proof {
                if !removed {
                    crate::registry::lemma_remove_pair_absent(
                        old(self)@.network,
                        (id, destination@),
                    );
                }
            }
        }
    }

    /// The message that asks a known peer to let this miner join.
    pub fn join(&self, destination: String) -> (r: OutMsg)
        ensures
            r@.dest == destination@,
            r@.flag == Flag::Connect,
            r@.body == spec_decimal(self@.id as nat),
    {
        OutMsg { dest: destination, flag: Flag::Connect, body: u32_to_string(self.id) }
    }

    /// Whether a candidate block seals this miner's chain as its next
    /// block: right index, right predecessor hash, right digest, enough
    /// leading zeros.
    pub fn check_block(&self, block: Block) -> (r: bool)
        requires
            self.wf(),
        ensures
            r == candidate_ok(self@.blocks, block@),
    {
        validate_candidate(&self.blocks, &block).is_ok()
    }

    /// The proof-of-work search over this miner's chain: seals the joined
    /// transactions at the given time with the least nonce that meets the
    /// difficulty.
    pub fn hash_block(&self, transactions: String, timestamp: u128) -> (r: Option<Block>)
        requires
            self.wf(),
            self@.blocks.len() <= u32::MAX,
        ensures
            r matches Some(b) ==> mined_ok(self@.blocks, transactions@, timestamp, b@),
            r is None ==> forall|k: u64|
                k < u64::MAX ==> !crate::block::spec_has_difficulty(
                    #[trigger] crate::block::spec_block_digest(
                        self@.blocks.len() as u32,
                        transactions@,
                        timestamp,
                        k,
                        crate::block::tip_prev_chars(self@.blocks),
                    ),
                    crate::block::MINING_DIFFICULTY as int,
                ),
    {
        crate::block::mine_block(&self.blocks, transactions, timestamp)
    }

    /// The wire frame for one planned message, stamped with this miner's
    /// own address and id.
    pub fn make_frame(&self, out: &OutMsg) -> (r: Vec<u8>)
        requires
            self.wf(),
        ensures
            r@ == spec_encode_message(
                out@.flag,
                self@.sockip,
                spec_decimal(self@.id as nat),
                out@.body,
            ),
    {
        let idt = u32_to_string(self.id);
        proof {
            lemma_decimal_len_u32(self@.id as nat);
            crate::text::lemma_decimal_value(self@.id as nat);
        }
        encode_message(out.flag, self.sockip.clone(), idt, out.body.clone())
    }
}

/// One above the given maximum, held at the type bound.
pub open spec fn spec_next_id(net: Seq<(u32, Seq<char>)>, start: u32) -> u32 {
    if spec_max_id(net, start) < u32::MAX {
        (spec_max_id(net, start) + 1) as u32
    } else {
        u32::MAX
    }
}

// ---------------------------------------------------------------------------
// The membership / gossip / mining state machine
// ---------------------------------------------------------------------------

/// The sender id field read as a number.
pub open spec fn parsed_sender_id(m: MessageView) -> Option<u32> {
    match spec_parse_decimal(m.sender_id) {
        None => None,
        Some(v) => if v <= u32::MAX {
            Some(v as u32)
        } else {
            None
        },
    }
}

/// The `address;id` payload of the two broadcast tags. Text after a second
/// separator is ignored.
pub open spec fn spec_bc_parse(payload: Seq<char>) -> Option<(u32, Seq<char>)> {
    let j = find_char(payload, ';');
    if !(0 <= j < payload.len()) {
        None
    } else {
        let addr = payload.subrange(0, j);
        let rest = payload.subrange(j + 1, payload.len() as int);
        let k = find_char(rest, ';');
        let idtxt = if 0 <= k < rest.len() {
            rest.subrange(0, k)
        } else {
            rest
        };
        match spec_parse_decimal(idtxt) {
            None => None,
            Some(v) => if v <= u32::MAX && valid_address(addr) {
                Some((v as u32, addr))
            } else {
                None
            },
        }
    }
}

/// Text fragments joined by a separator character.
pub open spec fn spec_join(parts: Seq<Seq<char>>, sep: char) -> Seq<char>
    decreases parts.len(),
{
    if parts.len() == 0 {
        Seq::empty()
    } else if parts.len() == 1 {
        parts[0]
    } else {
        spec_join(parts.drop_last(), sep) + seq![sep] + parts.last()
    }
}

/// The plan that answers `RequireBlockchain`: one `SendBlockchain` message
/// per block, in chain order.
pub open spec fn chain_send_plan(blocks: Seq<BlockView>, dest: Seq<char>) -> Seq<OutMsgView>
    decreases blocks.len(),
{
    if blocks.len() == 0 {
        Seq::empty()
    } else {
        chain_send_plan(blocks.drop_last(), dest).push(
            OutMsgView {
                dest,
                flag: Flag::SendBlockchain,
                body: spec_block_text(blocks.last()),
            },
        )
    }
}

/// On `Connect`: answer with a snapshot of the registry, tell every other
/// peer about the joiner, then record the joiner.
pub open spec fn connect_step(
    pre: MinerView,
    m: MessageView,
    post: MinerView,
    outs: Seq<OutMsgView>,
) -> bool {
    match parsed_sender_id(m) {
        None => false,
        Some(sid) => {
            let entry = (sid, m.sender_addr);
            let net2 = if pre.network.contains(entry) {
                pre.network
            } else {
                pre.network.push(entry)
            };
            &&& post == (MinerView { network: net2, ..pre })
            &&& outs =~= seq![
                OutMsgView {
                    dest: m.sender_addr,
                    flag: Flag::Okay,
                    body: spec_registry_text(pre.network),
                },
            ] + broadcast_plan(
                pre.network,
                pre.sockip,
                Flag::BroadcastConnect,
                m.sender_addr + seq![';'] + spec_decimal(sid as nat),
            )
        },
    }
}

/// On `Disconnect`: drop the sender, then tell the remaining peers.
pub open spec fn disconnect_step(
    pre: MinerView,
    m: MessageView,
    post: MinerView,
    outs: Seq<OutMsgView>,
) -> bool {
    match parsed_sender_id(m) {
        None => false,
        Some(sid) => {
            let entry = (sid, m.sender_addr);
            let net2 = if pre.network.contains(entry) {
                remove_pair(pre.network, entry)
            } else {
                pre.network
            };
            &&& post == (MinerView { network: net2, ..pre })
            &&& outs =~= broadcast_plan(
                net2,
                pre.sockip,
                Flag::BroadcastDisconnect,
                m.sender_addr + seq![';'] + spec_decimal(sid as nat),
            )
        },
    }
}

/// On `Okay` (the registry snapshot of the peer being joined): merge it,
/// appending the unseen pairs in the snapshot's order.
pub open spec fn okay_step(
    pre: MinerView,
    m: MessageView,
    post: MinerView,
    outs: Seq<OutMsgView>,
) -> bool {
    match spec_parse_registry(m.payload) {
        None => false,
        Some(entries) => {
            &&& post == (MinerView {
                network: spec_union(pre.network, spec_union(Seq::empty(), entries)),
                ..pre
            })
            &&& post.network.to_set() == pre.network.to_set().union(entries.to_set())
            &&& outs =~= Seq::<OutMsgView>::empty()
        },
    }
}

/// On `RequireID`: answer with the next free id; nothing changes.
pub open spec fn require_id_step(
    pre: MinerView,
    m: MessageView,
    post: MinerView,
    outs: Seq<OutMsgView>,
) -> bool {
    &&& post == pre
    &&& outs =~= seq![
        OutMsgView {
            dest: m.sender_addr,
            flag: Flag::GiveID,
            body: spec_decimal(spec_next_id(pre.network, pre.id) as nat),
        },
    ]
}

/// On `Check`: acknowledge; nothing changes.
pub open spec fn check_step(
    pre: MinerView,
    m: MessageView,
    post: MinerView,
    outs: Seq<OutMsgView>,
) -> bool {
    &&& post == pre
    &&& outs =~= seq![
        OutMsgView { dest: m.sender_addr, flag: Flag::Ack, body: Seq::empty() },
    ]
}

/// On `Block`: append the candidate exactly when it seals the chain as its
/// next block, clear the pool, and forward it to everyone but the sender;
/// any other candidate is discarded without a trace.
pub open spec fn block_step(
    pre: MinerView,
    m: MessageView,
    post: MinerView,
    outs: Seq<OutMsgView>,
) -> bool {
    match spec_parse_block(m.payload) {
        None => false,
        Some(bv) => {
            if candidate_ok(pre.blocks, bv) {
                &&& post == (MinerView {
                    blocks: pre.blocks.push(bv),
                    payload: Seq::empty(),
                    ..pre
                })
                &&& outs =~= broadcast_plan(pre.network, m.sender_addr, Flag::Block, m.payload)
            } else {
                &&& post == pre
                &&& outs =~= Seq::<OutMsgView>::empty()
            }
        },
    }
}

/// On `Transaction`: pool the text if it is new and flood it; when the pool
/// reaches its size, mine a block over the joined pool, append it and
/// announce it.
pub open spec fn transaction_step(
    pre: MinerView,
    m: MessageView,
    now: u128,
    post: MinerView,
    outs: Seq<OutMsgView>,
) -> bool {
    let tx = m.payload;
    if pre.payload.contains(tx) {
        &&& post == pre
        &&& outs =~= Seq::<OutMsgView>::empty()
    } else {
        let pool2 = pre.payload.push(tx);
        let outs1 = broadcast_plan(pre.network, m.sender_addr, Flag::Transaction, tx);
        if pool2.len() == BLOCK_PAYLOAD_SIZE && pre.blocks.len() <= u32::MAX {
            let joined = spec_join(pool2, '$');
            ||| (exists|b: BlockView|
                {
                    &&& #[trigger] mined_ok(pre.blocks, joined, now, b)
                    &&& post == (MinerView {
                        blocks: pre.blocks.push(b),
                        payload: Seq::empty(),
                        ..pre
                    })
                    &&& outs =~= outs1 + broadcast_plan(
                        pre.network,
                        m.sender_addr,
                        Flag::Block,
                        spec_block_text(b),
                    )
                })
            ||| {
                &&& (forall|k: u64|
                    k < u64::MAX ==> !crate::block::spec_has_difficulty(
                        #[trigger] crate::block::spec_block_digest(
                            pre.blocks.len() as u32,
                            joined,
                            now,
                            k,
                            crate::block::tip_prev_chars(pre.blocks),
                        ),
                        crate::block::MINING_DIFFICULTY as int,
                    ))
                &&& post == (MinerView { payload: pool2, ..pre })
                &&& outs =~= outs1
            }
        } else {
            &&& post == (MinerView { payload: pool2, ..pre })
            &&& outs =~= outs1
        }
    }
}

/// On `BroadcastConnect`: record the pair and forward the news exactly when
/// the pair was new; a pair already recorded is not forwarded again.
pub open spec fn bc_connect_step(
    pre: MinerView,
    m: MessageView,
    post: MinerView,
    outs: Seq<OutMsgView>,
) -> bool {
    match spec_bc_parse(m.payload) {
        None => false,
        Some((nid, naddr)) => {
            if pre.network.contains((nid, naddr)) {
                &&& post == pre
                &&& outs =~= Seq::<OutMsgView>::empty()
            } else {
                let net2 = pre.network.push((nid, naddr));
                &&& post == (MinerView { network: net2, ..pre })
                &&& outs =~= broadcast_plan(net2, m.sender_addr, Flag::BroadcastConnect, m.payload)
            }
        },
    }
}

/// On `BroadcastDisconnect`: drop the pair and forward the news exactly
/// when the pair was present.
pub open spec fn bc_disconnect_step(
    pre: MinerView,
    m: MessageView,
    post: MinerView,
    outs: Seq<OutMsgView>,
) -> bool {
    match spec_bc_parse(m.payload) {
        None => false,
        Some((nid, naddr)) => {
            if !pre.network.contains((nid, naddr)) {
                &&& post == pre
                &&& outs =~= Seq::<OutMsgView>::empty()
            } else {
                let net2 = remove_pair(pre.network, (nid, naddr));
                &&& post == (MinerView { network: net2, ..pre })
                &&& outs =~= broadcast_plan(
                    net2,
                    m.sender_addr,
                    Flag::BroadcastDisconnect,
                    m.payload,
                )
            }
        },
    }
}

/// On `RequireWalletID`: answer with the next free wallet id and record the
/// wallet.
pub open spec fn require_wallet_id_step(
    pre: MinerView,
    m: MessageView,
    post: MinerView,
    outs: Seq<OutMsgView>,
) -> bool {
    let nid = spec_next_id(pre.wallets, 0);
    let w2 = if pre.wallets.contains((nid, m.sender_addr)) {
        pre.wallets
    } else {
        pre.wallets.push((nid, m.sender_addr))
    };
    &&& post == (MinerView { wallets: w2, ..pre })
    &&& outs =~= seq![
        OutMsgView {
            dest: m.sender_addr,
            flag: Flag::GiveID,
            body: spec_decimal(nid as nat),
        },
    ]
}

/// On `RequireBlockchain`: stream every block to the requester in order.
pub open spec fn require_blockchain_step(
    pre: MinerView,
    m: MessageView,
    post: MinerView,
    outs: Seq<OutMsgView>,
) -> bool {
    &&& post == pre
    &&& outs =~= chain_send_plan(pre.blocks, m.sender_addr)
}

/// The whole reaction of a miner to one decoded message: how the state
/// changes and which messages go out, by tag. Tags with no handler
/// (`GiveID`, `Ack`, `SendBlockchain` and the reserved mining tags) change
/// nothing.
pub open spec fn miner_step(
    pre: MinerView,
    m: MessageView,
    now: u128,
    post: MinerView,
    outs: Seq<OutMsgView>,
) -> bool {
    match m.flag {
        Flag::Connect => connect_step(pre, m, post, outs),
        Flag::Disconnect => disconnect_step(pre, m, post, outs),
        Flag::Okay => okay_step(pre, m, post, outs),
        Flag::RequireID => require_id_step(pre, m, post, outs),
        Flag::Check => check_step(pre, m, post, outs),
        Flag::Block => block_step(pre, m, post, outs),
        Flag::Transaction => transaction_step(pre, m, now, post, outs),
        Flag::BroadcastConnect => bc_connect_step(pre, m, post, outs),
        Flag::BroadcastDisconnect => bc_disconnect_step(pre, m, post, outs),
        Flag::RequireWalletID => require_wallet_id_step(pre, m, post, outs),
        Flag::RequireBlockchain => require_blockchain_step(pre, m, post, outs),
        _ => post == pre && outs =~= Seq::<OutMsgView>::empty(),
    }
}

/// When a handler refuses a message: only for a payload or id field that
/// does not parse, and the state never changes.
pub open spec fn miner_step_err(pre: MinerView, m: MessageView, e: ProtocolError) -> bool {
    &&& e == ProtocolError::BadPayload
    &&& match m.flag {
        Flag::Connect => parsed_sender_id(m) is None,
        Flag::Disconnect => parsed_sender_id(m) is None,
        Flag::Okay => spec_parse_registry(m.payload) is None,
        Flag::Block => spec_parse_block(m.payload) is None,
        Flag::BroadcastConnect => spec_bc_parse(m.payload) is None,
        Flag::BroadcastDisconnect => spec_bc_parse(m.payload) is None,
        _ => false,
    }
}

/// Loop prevention of the gossip flood: a `BroadcastConnect` whose pair is
/// already recorded changes nothing and is not forwarded, so a flood
/// terminates once every peer has recorded the pair.
pub proof fn lemma_no_reforward(
    pre: MinerView,
    m: MessageView,
    now: u128,
    post: MinerView,
    outs: Seq<OutMsgView>,
    nid: u32,
    naddr: Seq<char>,
)
    requires
        m.flag == Flag::BroadcastConnect,
        spec_bc_parse(m.payload) == Some((nid, naddr)),
        pre.network.contains((nid, naddr)),
        miner_step(pre, m, now, post, outs),
    ensures
        post == pre,
        outs =~= Seq::<OutMsgView>::empty(),
{
}

/// Duplicate delivery is harmless: once a peer has reacted to a
/// `BroadcastConnect`, handling the same message again changes nothing and
/// forwards nothing.
pub proof fn lemma_duplicate_delivery_idempotent(
    pre: MinerView,
    m: MessageView,
    now1: u128,
    mid: MinerView,
    outs1: Seq<OutMsgView>,
    now2: u128,
    post: MinerView,
    outs2: Seq<OutMsgView>,
)
    requires
        m.flag == Flag::BroadcastConnect,
        miner_step(pre, m, now1, mid, outs1),
        miner_step(mid, m, now2, post, outs2),
    ensures
        post == mid,
        outs2 =~= Seq::<OutMsgView>::empty(),
{
    match spec_bc_parse(m.payload) {
        None => {
            assert(false);
        },
        Some((nid, naddr)) => {
            if !pre.network.contains((nid, naddr)) {
                assert(mid.network == pre.network.push((nid, naddr)));
                assert(mid.network[mid.network.len() - 1] == (nid, naddr));
                assert(mid.network.contains((nid, naddr)));
            }
        },
    }
}

/// The join handshake, end to end over the state machine: a creator that
/// knows exactly itself assigns id 1 to the first joiner; after the
/// joiner's `Connect` and the creator's snapshot reply, both registries
/// hold exactly the same two pairs.
pub proof fn lemma_join_handshake(
    a: MinerView,
    a1: MinerView,
    a2: MinerView,
    b: MinerView,
    b1: MinerView,
    m1: MessageView,
    m2: MessageView,
    m3: MessageView,
    outs1: Seq<OutMsgView>,
    outs2: Seq<OutMsgView>,
    outs3: Seq<OutMsgView>,
    t1: u128,
    t2: u128,
    t3: u128,
    a_addr: Seq<char>,
    b_addr: Seq<char>,
)
    requires
        valid_address(a_addr),
        valid_address(b_addr),
        a.id == 0 && a.sockip == a_addr && a.network == seq![(0u32, a_addr)],
        b.network == seq![(1u32, b_addr)],
        m1.flag == Flag::RequireID && m1.sender_addr == b_addr,
        miner_step(a, m1, t1, a1, outs1),
        m2.flag == Flag::Connect && m2.sender_addr == b_addr && m2.sender_id == spec_decimal(1),
        miner_step(a1, m2, t2, a2, outs2),
        m3.flag == Flag::Okay && outs2.len() >= 1 && m3.payload == outs2[0].body,
        miner_step(b, m3, t3, b1, outs3),
    ensures
        outs1 =~= seq![OutMsgView { dest: b_addr, flag: Flag::GiveID, body: spec_decimal(1) }],
        a2.network.to_set() =~= set![(0u32, a_addr), (1u32, b_addr)],
        b1.network.to_set() =~= set![(0u32, a_addr), (1u32, b_addr)],
{
    // the creator assigns id 1: its greatest known id is its own, 0
    assert(a.network.len() == 1);
    assert(a.network.last() == (0u32, a_addr));
    assert(a.network.drop_last() =~= Seq::<(u32, Seq<char>)>::empty());
    assert(spec_max_id(a.network.drop_last(), 0) == 0);
    assert(spec_max_id(a.network, 0) == 0);
    assert(spec_next_id(a.network, a.id) == 1);
    assert(a1 == a);
    // the Connect: the joiner is new, so it is recorded, and the reply
    // carries the snapshot of the creator's registry before the insertion
    assert(parsed_sender_id(m2) == Some(1u32)) by {
        crate::text::lemma_decimal_value(1);
    }
    assert(!a1.network.contains((1u32, b_addr))) by {
        if a1.network.contains((1u32, b_addr)) {
            let i = choose|i: int| 0 <= i < a1.network.len() && a1.network[i] == (1u32, b_addr);
            assert(a1.network[i].0 == 0);
        }
    }
    assert(a2.network == a.network.push((1u32, b_addr)));
    assert(a2.network.to_set() =~= set![(0u32, a_addr), (1u32, b_addr)]) by {
        crate::registry::lemma_to_set_push(a.network, (1u32, b_addr));
        assert(a.network.to_set() =~= set![(0u32, a_addr)]) by {
            assert(a.network[0] == (0u32, a_addr));
            assert forall|x: (u32, Seq<char>)| a.network.to_set().contains(x) implies x == (
                0u32,
                a_addr,
            ) by {
                let i = choose|i: int| 0 <= i < a.network.len() && a.network[i] == x;
            }
        }
    }
    // the snapshot reply is the first planned message
    let snapshot = spec_registry_text(a.network);
    assert(outs2[0] == OutMsgView { dest: b_addr, flag: Flag::Okay, body: snapshot });
    // the joiner parses the snapshot back and merges it
    assert(spec_parse_registry(snapshot) == Some(a.network)) by {
        assert forall|i: int| 0 <= i < a.network.len() implies valid_address(
            (#[trigger] a.network[i]).1,
        ) by {
            assert(a.network[i] == (0u32, a_addr));
        }
        crate::registry::lemma_registry_text_round_trip(a.network);
    }
    let merged = spec_union(Seq::empty(), a.network);
    assert(merged =~= a.network) by {
        assert(a.network.drop_last() =~= Seq::<(u32, Seq<char>)>::empty());
        assert(spec_union(Seq::empty(), a.network.drop_last()) =~= Seq::<(u32, Seq<char>)>::empty());
        assert(!Seq::<(u32, Seq<char>)>::empty().contains((0u32, a_addr)));
        assert(a.network.last() == (0u32, a_addr));
        assert(merged == spec_union(Seq::empty(), a.network.drop_last()).push((0u32, a_addr)));
    }
    assert(b1.network == spec_union(b.network, merged));
    assert(b1.network =~= seq![(1u32, b_addr), (0u32, a_addr)]) by {
        assert(merged.drop_last() =~= Seq::<(u32, Seq<char>)>::empty());
        assert(!b.network.contains((0u32, a_addr))) by {
            if b.network.contains((0u32, a_addr)) {
                let i = choose|i: int| 0 <= i < b.network.len() && b.network[i] == (0u32, a_addr);
                assert(b.network[i].0 == 1);
            }
        }
        assert(merged.last() == (0u32, a_addr));
        assert(merged.len() == 1);
        assert(merged.drop_last() =~= Seq::<(u32, Seq<char>)>::empty());
        assert(spec_union(b.network, merged.drop_last()) == b.network);
        assert(spec_union(b.network, merged) == b.network.push((0u32, a_addr)));
    }
    assert(b1.network.to_set() =~= set![(0u32, a_addr), (1u32, b_addr)]) by {
        assert(b1.network[0] == (1u32, b_addr));
        assert(b1.network[1] == (0u32, a_addr));
        assert forall|x: (u32, Seq<char>)| b1.network.to_set().contains(x) implies set![
            (0u32, a_addr),
            (1u32, b_addr),
        ].contains(x) by {
            let i = choose|i: int| 0 <= i < b1.network.len() && b1.network[i] == x;
        }
    }
}

proof fn lemma_tx_pool_step(
    pre: MinerView,
    m: MessageView,
    now: u128,
    post: MinerView,
    o: Seq<OutMsgView>,
    five: Seq<Seq<char>>,
    i: int,
)
    requires
        m.flag == Flag::Transaction,
        miner_step(pre, m, now, post, o),
        0 <= i < 4,
        five.len() == 5,
        m.payload == five[i],
        forall|a: int, b: int| 0 <= a < b < 5 ==> five[a] != five[b],
        pre.payload =~= five.subrange(0, i),
    ensures
        post.payload =~= five.subrange(0, i + 1),
        post.blocks == pre.blocks,
{
    assert(transaction_step(pre, m, now, post, o));
    assert(!pre.payload.contains(m.payload)) by {
        if pre.payload.contains(m.payload) {
            let j = choose|j: int| 0 <= j < pre.payload.len() && pre.payload[j] == m.payload;
            assert(pre.payload[j] == five.subrange(0, i)[j]);
            assert(five.subrange(0, i)[j] == five[j]);
        }
    }
    let pool2 = pre.payload.push(m.payload);
    assert(pool2.len() == i + 1);
    assert(pool2.len() != BLOCK_PAYLOAD_SIZE);
    assert(post == (MinerView { payload: pool2, ..pre }));
    assert(pool2 =~= five.subrange(0, i + 1));
}

/// Five distinct transactions, end to end over the state machine: starting
/// from an empty pool and an empty chain, the first four are pooled, and
/// the fifth fills the pool and triggers the proof-of-work search. Either
/// exactly one block is appended — at index 0, holding all five texts
/// joined in intake order, stamped with the fifth call's time — and the
/// pool is cleared exactly then, or no nonce below the search bound meets
/// the difficulty and the pool keeps the five texts. Which of the two
/// holds no contract can decide: the digest is uninterpreted.
pub proof fn lemma_five_transactions_mine(
    s: Seq<MinerView>,
    ms: Seq<MessageView>,
    outs: Seq<Seq<OutMsgView>>,
    nows: Seq<u128>,
)
    requires
        s.len() == 6 && ms.len() == 5 && outs.len() == 5 && nows.len() == 5,
        s[0].payload =~= Seq::<Seq<char>>::empty(),
        s[0].blocks =~= Seq::<BlockView>::empty(),
        forall|i: int| 0 <= i < 5 ==> (#[trigger] ms[i]).flag == Flag::Transaction,
        forall|i: int, j: int| 0 <= i < j < 5 ==> ms[i].payload != ms[j].payload,
        forall|i: int|
            0 <= i < 5 ==> miner_step(#[trigger] s[i], ms[i], nows[i], s[i + 1], outs[i]),
    ensures
        ({
            let five = seq![
                ms[0].payload,
                ms[1].payload,
                ms[2].payload,
                ms[3].payload,
                ms[4].payload,
            ];
            ||| {
                &&& s[5].blocks.len() == 1
                &&& s[5].blocks[0].index == 0
                &&& s[5].blocks[0].payload == spec_join(five, '$')
                &&& s[5].blocks[0].timestamp == nows[4]
                &&& s[5].payload =~= Seq::<Seq<char>>::empty()
            }
            ||| {
                &&& s[5].payload =~= five
                &&& s[5].blocks =~= Seq::<BlockView>::empty()
                &&& forall|k: u64|
                    k < u64::MAX ==> !crate::block::spec_has_difficulty(
                        #[trigger] crate::block::spec_block_digest(
                            0u32,
                            spec_join(five, '$'),
                            nows[4],
                            k,
                            crate::block::genesis_prev_chars(),
                        ),
                        crate::block::MINING_DIFFICULTY as int,
                    )
            }
        }),
{
    let five = seq![ms[0].payload, ms[1].payload, ms[2].payload, ms[3].payload, ms[4].payload];
    assert forall|a: int, b: int| 0 <= a < b < 5 implies five[a] != five[b] by {
        assert(five[a] == ms[a].payload && five[b] == ms[b].payload);
    }
    // the first four are new each time, so they are pooled and nothing mines
    assert(s[0].payload =~= five.subrange(0, 0));
    lemma_tx_pool_step(s[0], ms[0], nows[0], s[1], outs[0], five, 0);
    lemma_tx_pool_step(s[1], ms[1], nows[1], s[2], outs[1], five, 1);
    lemma_tx_pool_step(s[2], ms[2], nows[2], s[3], outs[2], five, 2);
    lemma_tx_pool_step(s[3], ms[3], nows[3], s[4], outs[3], five, 3);
    assert(s[4].payload =~= five.subrange(0, 4) && s[4].blocks == s[0].blocks);
    // the fifth fills the pool
    assert(transaction_step(s[4], ms[4], nows[4], s[5], outs[4]));
    assert(!s[4].payload.contains(ms[4].payload)) by {
        if s[4].payload.contains(ms[4].payload) {
            let j = choose|j: int| 0 <= j < s[4].payload.len() && s[4].payload[j] == ms[4].payload;
            assert(five.subrange(0, 4)[j] == ms[j].payload);
        }
    }
    let pool2 = s[4].payload.push(ms[4].payload);
    assert(pool2 =~= five);
    assert(pool2.len() == BLOCK_PAYLOAD_SIZE);
    assert(s[4].blocks.len() == 0);
    let joined = spec_join(pool2, '$');
    assert(joined == spec_join(five, '$'));
    if exists|b: BlockView|
        {
            &&& #[trigger] mined_ok(s[4].blocks, joined, nows[4], b)
            &&& s[5] == (MinerView { blocks: s[4].blocks.push(b), payload: Seq::empty(), ..s[4] })
            &&& outs[4] =~= broadcast_plan(s[4].network, ms[4].sender_addr, Flag::Transaction, ms[4].payload)
                + broadcast_plan(s[4].network, ms[4].sender_addr, Flag::Block, spec_block_text(b))
        } {
        let b = choose|b: BlockView|
            {
                &&& #[trigger] mined_ok(s[4].blocks, joined, nows[4], b)
                &&& s[5] == (MinerView {
                    blocks: s[4].blocks.push(b),
                    payload: Seq::empty(),
                    ..s[4]
                })
                &&& outs[4] =~= broadcast_plan(
                    s[4].network,
                    ms[4].sender_addr,
                    Flag::Transaction,
                    ms[4].payload,
                ) + broadcast_plan(s[4].network, ms[4].sender_addr, Flag::Block, spec_block_text(b))
            };
        assert(candidate_ok(s[4].blocks, b));
        assert(b.index == 0);
        assert(s[5].blocks.len() == 1 && s[5].blocks[0] == b);
    } else {
        assert({
            &&& (forall|k: u64|
                k < u64::MAX ==> !crate::block::spec_has_difficulty(
                    #[trigger] crate::block::spec_block_digest(
                        s[4].blocks.len() as u32,
                        joined,
                        nows[4],
                        k,
                        crate::block::tip_prev_chars(s[4].blocks),
                    ),
                    crate::block::MINING_DIFFICULTY as int,
                ))
            &&& s[5] == (MinerView { payload: pool2, ..s[4] })
        });
        assert(s[4].blocks =~= Seq::<BlockView>::empty());
        assert(crate::block::tip_prev_chars(s[4].blocks)
            == crate::block::genesis_prev_chars());
        assert(s[4].blocks.len() as u32 == 0u32);
        assert forall|k: u64| k < u64::MAX implies !crate::block::spec_has_difficulty(
            #[trigger] crate::block::spec_block_digest(
                0u32,
                spec_join(five, '$'),
                nows[4],
                k,
                crate::block::genesis_prev_chars(),
            ),
            crate::block::MINING_DIFFICULTY as int,
        ) by {
            assert(!crate::block::spec_has_difficulty(
                crate::block::spec_block_digest(
                    s[4].blocks.len() as u32,
                    joined,
                    nows[4],
                    k,
                    crate::block::tip_prev_chars(s[4].blocks),
                ),
                crate::block::MINING_DIFFICULTY as int,
            ));
        }
    }
}

/// Append rule: a candidate block whose index is not the current chain
/// length is rejected and alters neither the chain nor anything else.
pub proof fn lemma_append_rule(
    pre: MinerView,
    m: MessageView,
    now: u128,
    post: MinerView,
    outs: Seq<OutMsgView>,
    bv: BlockView,
)
    requires
        m.flag == Flag::Block,
        spec_parse_block(m.payload) == Some(bv),
        bv.index != pre.blocks.len(),
        miner_step(pre, m, now, post, outs),
    ensures
        post == pre,
        outs =~= Seq::<OutMsgView>::empty(),
{
}

fn contains_string(v: &Vec<String>, s: &String) -> (r: bool)
    ensures
        r == v@.map_values(|x: String| x@).contains(s@),
{
    let n = v.len();
    let ghost sv = v@.map_values(|x: String| x@);
    let mut i: usize = 0;
    while i < n
        invariant
            i <= n == sv.len(),
            sv == v@.map_values(|x: String| x@),
            forall|j: int| 0 <= j < i ==> #[trigger] sv[j] != s@,
        decreases n - i,
    {
        if str_eq(v[i].as_str(), s.as_str()) {
            proof {
                assert(sv[i as int] == s@);
            }
            return true;
        }
        proof {
            assert(sv[i as int] != s@);
        }
        i = i + 1;
    }
    proof {
        if sv.contains(s@) {
            let j = choose|j: int| 0 <= j < sv.len() && sv[j] == s@;
            assert(sv[j] != s@);
        }
    }
    false
}

fn join_strings(parts: &Vec<String>, sep: char) -> (r: String)
    ensures
        r@ == spec_join(parts@.map_values(|x: String| x@), sep),
{
    let n = parts.len();
    let ghost pv = parts@.map_values(|x: String| x@);
    let mut out = String::new();
    let mut i: usize = 0;
    while i < n
        invariant
            i <= n == pv.len(),
            pv == parts@.map_values(|x: String| x@),
            out@ =~= spec_join(pv.subrange(0, i as int), sep),
        decreases n - i,
    {
        if i > 0 {
            push_char(&mut out, sep);
        }
        out.append(parts[i].as_str());
        i = i + 1;
        proof {
            let sub = pv.subrange(0, i as int);
            assert(sub.last() == pv[i - 1]);
            if i > 1 {
                assert(sub.drop_last() =~= pv.subrange(0, i as int - 1));
            }
            assert(out@ =~= spec_join(sub, sep));
        }
    }
    proof {
        assert(pv.subrange(0, n as int) =~= pv);
    }
    out
}

impl Miner {
    /// The reaction to one decoded message: mutates the miner's state and
    /// returns the messages to send, exactly as `miner_step` describes; a
    /// malformed payload is refused with the state untouched.
    #[verifier::rlimit(100)]
    pub fn handle_message(&mut self, msg: &Message, now: u128) -> (r: Result<
        Vec<OutMsg>,
        ProtocolError,
    >)
        requires
            old(self).wf(),
            valid_address(msg@.sender_addr),
        ensures
            final(self).wf(),
            match r {
                Ok(outs) => miner_step(old(self)@, msg@, now, final(self)@, out_views(outs@)),
                Err(e) => final(self)@ == old(self)@ && miner_step_err(old(self)@, msg@, e),
            },
    {
        match msg.flag {
            Flag::Connect => {
                let sid = match parse_u32(msg.sender_id.as_str()) {
                    Some(v) => v,
                    None => {
                        return Err(ProtocolError::BadPayload);
                    },
                };
                let snapshot = hashset_to_string(&self.network);
                let mut outs: Vec<OutMsg> = Vec::new();
                outs.push(OutMsg { dest: msg.sender_addr.clone(), flag: Flag::Okay, body: snapshot });
                let mut body = msg.sender_addr.clone();
                push_char(&mut body, ';');
                let idt = u32_to_string(sid);
                body.append(idt.as_str());
                let mut plan = self.broadcast_to_network(&body, Flag::BroadcastConnect, self.sockip.clone());
                outs.append(&mut plan);
                self.add_to_network(sid, msg.sender_addr.clone());
                proof {
                    assert(connect_step(old(self)@, msg@, self@, out_views(outs@)));
                }
                Ok(outs)
            },
            Flag::Disconnect => {
                let sid = match parse_u32(msg.sender_id.as_str()) {
                    Some(v) => v,
                    None => {
                        return Err(ProtocolError::BadPayload);
                    },
                };
                self.remove_from_network(sid, msg.sender_addr.clone());
                let mut body = msg.sender_addr.clone();
                push_char(&mut body, ';');
                let idt = u32_to_string(sid);
                body.append(idt.as_str());
                let outs = self.broadcast_to_network(&body, Flag::BroadcastDisconnect, self.sockip.clone());
                proof {
                    assert(disconnect_step(old(self)@, msg@, self@, out_views(outs@)));
                }
                Ok(outs)
            },
            Flag::Okay => {
                match hashset_from_string(msg.payload.clone()) {
                    Err(_) => Err(ProtocolError::BadPayload),
                    Ok(other) => {
                        self.network.union_with(&other);
                        let outs: Vec<OutMsg> = Vec::new();
                        proof {
                            assert(out_views(outs@) =~= Seq::<OutMsgView>::empty());
                            assert(okay_step(old(self)@, msg@, self@, out_views(outs@)));
                        }
                        Ok(outs)
                    },
                }
            },
            Flag::RequireID => {
                let nid = self.retrieve_next_id();
                let mut outs: Vec<OutMsg> = Vec::new();
                outs.push(
                    OutMsg {
                        dest: msg.sender_addr.clone(),
                        flag: Flag::GiveID,
                        body: u32_to_string(nid),
                    },
                );
                proof {
                    assert(require_id_step(old(self)@, msg@, self@, out_views(outs@)));
                }
                Ok(outs)
            },
            Flag::Check => {
                let mut outs: Vec<OutMsg> = Vec::new();
                outs.push(
                    OutMsg { dest: msg.sender_addr.clone(), flag: Flag::Ack, body: String::new() },
                );
                proof {
                    assert(check_step(old(self)@, msg@, self@, out_views(outs@)));
                }
                Ok(outs)
            },
            Flag::Block => {
                let b = match Block::from_wire_text(msg.payload.as_str()) {
                    Ok(b) => b,
                    Err(_) => {
                        return Err(ProtocolError::BadPayload);
                    },
                };
                match validate_candidate(&self.blocks, &b) {
                    Ok(()) => {
                        let outs = self.broadcast_to_network(
                            &msg.payload,
                            Flag::Block,
                            msg.sender_addr.clone(),
                        );
                        let ghost bv = b@;
                        let ghost pre_blocks = self@.blocks;
                        self.blocks.push(b);
                        self.payload = Vec::new();
                        proof {
                            assert(chain_view(self.blocks@) =~= pre_blocks.push(bv));
                            crate::block::lemma_chain_append(pre_blocks, bv);
                            assert(self@.payload =~= Seq::<Seq<char>>::empty());
                            assert(block_step(old(self)@, msg@, self@, out_views(outs@)));
                        }
                        Ok(outs)
                    },
                    Err(_) => {
                        let outs: Vec<OutMsg> = Vec::new();
                        proof {
                            assert(out_views(outs@) =~= Seq::<OutMsgView>::empty());
                            assert(block_step(old(self)@, msg@, self@, out_views(outs@)));
                        }
                        Ok(outs)
                    },
                }
            },
            Flag::Transaction => {
                let tx = msg.payload.clone();
                if contains_string(&self.payload, &tx) {
                    let outs: Vec<OutMsg> = Vec::new();
                    proof {
                        assert(out_views(outs@) =~= Seq::<OutMsgView>::empty());
                        assert(transaction_step(old(self)@, msg@, now, self@, out_views(outs@)));
                    }
                    Ok(outs)
                } else {
                    let mut outs = self.broadcast_to_network(
                        &tx,
                        Flag::Transaction,
                        msg.sender_addr.clone(),
                    );
                    let ghost pre_pool = self@.payload;
                    self.payload.push(tx);
                    proof {
                        assert(self@.payload =~= pre_pool.push(msg@.payload));
                        assert forall|i: int, j: int|
                            0 <= i < j < self@.payload.len() implies self@.payload[i]
                            != self@.payload[j] by {
                            if j == self@.payload.len() - 1 {
                                assert(!pre_pool.contains(self@.payload[j]));
                                assert(self@.payload[i] == pre_pool[i]);
                            }
                        }
                    }
                    if self.payload.len() == BLOCK_PAYLOAD_SIZE && self.blocks.len()
                        <= 0xFFFF_FFFFusize {
                        let joined = join_strings(&self.payload, '$');
                        match crate::block::mine_block(&self.blocks, joined, now) {
                            Some(b) => {
                                proof {
                                    crate::block::lemma_tip_ascii(self@.blocks);
                                    crate::text::lemma_ascii_chars_bytes_id(
                                        crate::block::tip_prev_chars(self@.blocks),
                                    );
                                    crate::block::lemma_hex_props(
                                        crate::block::sha256_of(
                                            vstd::utf8::encode_utf8(
                                                crate::block::spec_hash_input(
                                                    b@.index,
                                                    b@.payload,
                                                    b@.timestamp,
                                                    b@.nonce,
                                                    crate::block::tip_prev_chars(self@.blocks),
                                                ),
                                            ),
                                        ),
                                    );
                                    crate::text::lemma_ascii_chars_bytes_id(
                                        crate::block::spec_block_digest(
                                            b@.index,
                                            b@.payload,
                                            b@.timestamp,
                                            b@.nonce,
                                            crate::block::tip_prev_chars(self@.blocks),
                                        ),
                                    );
                                }
                                let text = b.to_wire_text();
                                let mut plan2 = self.broadcast_to_network(
                                    &text,
                                    Flag::Block,
                                    msg.sender_addr.clone(),
                                );
                                let ghost bv = b@;
                                let ghost pre_blocks = self@.blocks;
                                self.blocks.push(b);
                                self.payload = Vec::new();
                                outs.append(&mut plan2);
                                proof {
                                    assert(chain_view(self.blocks@) =~= pre_blocks.push(bv));
                                    crate::block::lemma_chain_append(pre_blocks, bv);
                                    assert(self@.payload =~= Seq::<Seq<char>>::empty());
                                    assert(transaction_step(
                                        old(self)@,
                                        msg@,
                                        now,
                                        self@,
                                        out_views(outs@),
                                    ));
                                }
                                Ok(outs)
                            },
                            None => {
                                proof {
                                    assert(transaction_step(
                                        old(self)@,
                                        msg@,
                                        now,
                                        self@,
                                        out_views(outs@),
                                    ));
                                }
                                Ok(outs)
                            },
                        }
                    } else {
                        proof {
                            assert(transaction_step(old(self)@, msg@, now, self@, out_views(outs@)));
                        }
                        Ok(outs)
                    }
                }
            },
            Flag::BroadcastConnect => {
                let parsed = parse_bc_payload(&msg.payload);
                match parsed {
                    None => Err(ProtocolError::BadPayload),
                    Some((nid, naddr)) => {
                        if self.add_to_network(nid, naddr) {
                            let outs = self.broadcast_to_network(
                                &msg.payload,
                                Flag::BroadcastConnect,
                                msg.sender_addr.clone(),
                            );
                            proof {
                                assert(bc_connect_step(old(self)@, msg@, self@, out_views(outs@)));
                            }
                            Ok(outs)
                        } else {
                            let outs: Vec<OutMsg> = Vec::new();
                            proof {
                                assert(out_views(outs@) =~= Seq::<OutMsgView>::empty());
                                assert(bc_connect_step(old(self)@, msg@, self@, out_views(outs@)));
                            }
                            Ok(outs)
                        }
                    },
                }
            },
            Flag::BroadcastDisconnect => {
                let parsed = parse_bc_payload(&msg.payload);
                match parsed {
                    None => Err(ProtocolError::BadPayload),
                    Some((nid, naddr)) => {
                        if self.remove_from_network(nid, naddr) {
                            let outs = self.broadcast_to_network(
                                &msg.payload,
                                Flag::BroadcastDisconnect,
                                msg.sender_addr.clone(),
                            );
                            proof {
                                assert(bc_disconnect_step(
                                    old(self)@,
                                    msg@,
                                    self@,
                                    out_views(outs@),
                                ));
                            }
                            Ok(outs)
                        } else {
                            let outs: Vec<OutMsg> = Vec::new();
                            proof {
                                assert(out_views(outs@) =~= Seq::<OutMsgView>::empty());
                                assert(bc_disconnect_step(
                                    old(self)@,
                                    msg@,
                                    self@,
                                    out_views(outs@),
                                ));
                            }
                            Ok(outs)
                        }
                    },
                }
            },
            Flag::RequireWalletID => {
                let nid = self.retrieve_next_wallet_id();
                let mut outs: Vec<OutMsg> = Vec::new();
                outs.push(
                    OutMsg {
                        dest: msg.sender_addr.clone(),
                        flag: Flag::GiveID,
                        body: u32_to_string(nid),
                    },
                );
                self.add_to_wallets(nid, msg.sender_addr.clone());
                proof {
                    assert(require_wallet_id_step(old(self)@, msg@, self@, out_views(outs@)));
                }
                Ok(outs)
            },
            Flag::RequireBlockchain => {
                let n = self.blocks.len();
                let mut outs: Vec<OutMsg> = Vec::new();
                let mut i: usize = 0;
                while i < n
                    invariant
                        i <= n == self@.blocks.len(),
                        self.wf(),
                        self@ == old(self)@,
                        valid_address(msg@.sender_addr),
                        out_views(outs@) =~= chain_send_plan(
                            self@.blocks.subrange(0, i as int),
                            msg@.sender_addr,
                        ),
                    decreases n - i,
                {
                    proof {
                        crate::block::lemma_chain_block_ascii(self@.blocks, i as int);
                        assert(self@.blocks[i as int] == self.blocks@[i as int]@);
                    }
                    let text = self.blocks[i].to_wire_text();
                    outs.push(
                        OutMsg { dest: msg.sender_addr.clone(), flag: Flag::SendBlockchain, body: text },
                    );
                    i = i + 1;
                    proof {
                        let sub = self@.blocks.subrange(0, i as int);
                        assert(sub.drop_last() =~= self@.blocks.subrange(0, i as int - 1));
                        assert(sub.last() == self@.blocks[i - 1]);
                        assert(out_views(outs@) =~= chain_send_plan(sub, msg@.sender_addr));
                    }
                }
                proof {
                    assert(self@.blocks.subrange(0, n as int) =~= self@.blocks);
                    assert(require_blockchain_step(old(self)@, msg@, self@, out_views(outs@)));
                }
                Ok(outs)
            },
            _ => {
                let outs: Vec<OutMsg> = Vec::new();
                proof {
                    assert(out_views(outs@) =~= Seq::<OutMsgView>::empty());
                }
                Ok(outs)
            },
        }
    }
}

/// Reads an `address;id` payload; `None` exactly when `spec_bc_parse` has
/// no value for it.
fn parse_bc_payload(payload: &String) -> (r: Option<(u32, String)>)
    ensures
        match r {
            Some(e) => spec_bc_parse(payload@) == Some((e.0, e.1@)) && valid_address(e.1@),
            None => spec_bc_parse(payload@) is None,
        },
{
    let s = payload.as_str();
    let n = s.unicode_len();
    match find_char_in(s, ';') {
        None => {
            proof {
                lemma_find_char(s@, ';');
            }
            None
        },
        Some(j) => {
            proof {
                lemma_find_char(s@, ';');
            }
            let addr = s.substring_char(0, j);
            let rest = s.substring_char(j + 1, n);
            let rn = rest.unicode_len();
            let idseg = match find_char_in(rest, ';') {
                Some(k) => {
                    proof {
                        lemma_find_char(rest@, ';');
                    }
                    rest.substring_char(0, k)
                },
                None => rest,
            };
            match parse_u32(idseg) {
                None => {
                    proof {
                        if spec_parse_decimal(idseg@) is Some {
                            crate::text::lemma_digits_value_nonneg(idseg@);
                        }
                    }
                    None
                },
                Some(v) => {
                    if address_ok(addr) {
                        Some((v, String::from_str(addr)))
                    } else {
                        None
                    }
                },
            }
        },
    }
}

} // verus!
