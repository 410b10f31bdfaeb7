//! Building real rings: every channel of a ring is allocated before any
//! endpoint is handed out, and the endpoints are then wired into a single
//! closed cycle by moving each one into the node that owns it. A node ends
//! up owning exactly two endpoints: the receive side of the channel fed by
//! its counter-clockwise neighbor and the send side of the channel feeding
//! its clockwise neighbor.

use vstd::prelude::*;
use vstd::arithmetic::div_mod::lemma_small_mod;
use vstd::arithmetic::div_mod::lemma_mod_self_0;
use vstd::arithmetic::div_mod::lemma_mod_division_less_than_divisor;

verus! {

#[verifier::external_type_specification]
#[verifier::external_body]
#[verifier::reject_recursive_types(T)]
pub struct ExSender<T>(async_std::channel::Sender<T>);

#[verifier::external_type_specification]
#[verifier::external_body]
#[verifier::reject_recursive_types(T)]
pub struct ExReceiver<T>(async_std::channel::Receiver<T>);

/// The two endpoints of one freshly created bounded signaling channel.
pub struct ChannelPair {
    pub tx: async_std::channel::Sender<()>,
    pub rx: async_std::channel::Receiver<()>,
}

/// One position of a built ring: the endpoints its task exclusively owns. It
/// receives tokens on `rx` and sends them on `tx`.
pub struct RingNode {
    pub rx: async_std::channel::Receiver<()>,
    pub tx: async_std::channel::Sender<()>,
}

/// The channel a send endpoint feeds into.
pub uninterp spec fn sender_chan(tx: async_std::channel::Sender<()>) -> int;

/// The channel a receive endpoint drains.
pub uninterp spec fn receiver_chan(rx: async_std::channel::Receiver<()>) -> int;

/// Relies on async_std::channel::bounded: it returns the send and receive
/// sides of one same new bounded channel of the given capacity, and panics
/// when the capacity is zero, so zero is excluded here.
#[verifier::external_body]
fn new_channel(cap: usize) -> (c: ChannelPair)
    requires
        cap >= 1,
    ensures
        sender_chan(c.tx) == receiver_chan(c.rx),
{
    let (tx, rx) = async_std::channel::bounded::<()>(cap);
    ChannelPair { tx, rx }
}

/// Each pair holds the two sides of one same channel.
pub open spec fn paired(chans: Seq<ChannelPair>) -> bool {
    forall|j: int|
        0 <= j < chans.len() ==> sender_chan((#[trigger] chans[j]).tx) == receiver_chan(
            chans[j].rx,
        )
}

/// Allocate the `n` channels of one ring, all before any wiring happens.
pub fn alloc_channels(n: usize, cap: usize) -> (chans: Vec<ChannelPair>)
    requires
        n >= 1,
        cap >= 1,
    ensures
        chans@.len() == n,
        paired(chans@),
{
    let mut chans: Vec<ChannelPair> = Vec::new();
    let mut j: usize = 0;
    while j < n
        invariant
            j <= n,
            cap >= 1,
            chans@.len() == j,
            paired(chans@),
        decreases n - j,
    {
        chans.push(new_channel(cap));
        j = j + 1;
    }
    chans
}

/// The nodes form the single closed cycle the channels admit: node `j`
/// receives on channel `j`'s receive side and sends on channel
/// `(j + 1) % n`'s send side.
pub open spec fn ring_wired(nodes: Seq<RingNode>, chans: Seq<ChannelPair>) -> bool {
    &&& nodes.len() == chans.len()
    &&& forall|j: int| 0 <= j < nodes.len() ==> (#[trigger] nodes[j]).rx == chans[j].rx
    &&& forall|j: int|
        0 <= j < nodes.len() ==> (#[trigger] nodes[j]).tx == chans[(j + 1) % (nodes.len() as int)].tx
}

/// Wire the channels of one ring into its nodes by moving each endpoint into
/// the one node that owns it: node `j` takes channel `j`'s receive side and
/// channel `(j + 1) % n`'s send side.
pub fn wire_ring(chans: Vec<ChannelPair>) -> (nodes: Vec<RingNode>)
    requires
        chans@.len() >= 1,
    ensures
        ring_wired(nodes@, chans@),
{
    let ghost orig = chans@;
    let n = chans.len();
    let mut chans = chans;
    let mut rxs: Vec<async_std::channel::Receiver<()>> = Vec::new();
    let mut txs: Vec<async_std::channel::Sender<()>> = Vec::new();
    while chans.len() > 0
        invariant
            rxs@.len() == txs@.len(),
            rxs@.len() + chans@.len() == n == orig.len(),
            chans@ =~= orig.subrange(rxs@.len() as int, n as int),
            forall|i: int| 0 <= i < rxs@.len() ==> #[trigger] rxs@[i] == orig[i].rx,
            forall|i: int| 0 <= i < txs@.len() ==> #[trigger] txs@[i] == orig[i].tx,
        decreases chans@.len(),
    {
        let c = chans.remove(0);
        let ChannelPair { tx, rx } = c;
        rxs.push(rx);
        txs.push(tx);
        proof {
            assert(chans@ =~= orig.subrange(rxs@.len() as int, n as int));
        }
    }

    // Rotate the send sides one step counter-clockwise, so that position `j`
    // holds channel `(j + 1) % n`'s send side.
    let t0 = txs.remove(0);
    txs.push(t0);
    proof {
        assert forall|i: int| 0 <= i < n implies #[trigger] txs@[i] == orig[(i + 1) % (n as int)].tx by {
            if i + 1 < n {
                lemma_small_mod((i + 1) as nat, n as nat);
            } else {
                lemma_mod_self_0(n as int);
            }
        }
    }

    // Hand each node its two endpoints.
    let ghost rx_seq = rxs@;
    let ghost tx_seq = txs@;
    let mut nodes: Vec<RingNode> = Vec::new();
    while rxs.len() > 0
        invariant
            rxs@.len() == txs@.len(),
            nodes@.len() + rxs@.len() == n == rx_seq.len() == tx_seq.len(),
            rxs@ =~= rx_seq.subrange(nodes@.len() as int, n as int),
            txs@ =~= tx_seq.subrange(nodes@.len() as int, n as int),
            forall|i: int| 0 <= i < nodes@.len() ==> (#[trigger] nodes@[i]).rx == rx_seq[i],
            forall|i: int| 0 <= i < nodes@.len() ==> (#[trigger] nodes@[i]).tx == tx_seq[i],
        decreases rxs@.len(),
    {
        let rx = rxs.remove(0);
        let tx = txs.remove(0);
        nodes.push(RingNode { rx, tx });
        proof {
            assert(rxs@ =~= rx_seq.subrange(nodes@.len() as int, n as int));
            assert(txs@ =~= tx_seq.subrange(nodes@.len() as int, n as int));
        }
    }
    nodes
}

/// The nodes close into a cycle: the channel each node sends on is the very
/// channel its clockwise neighbor receives from, so every endpoint is
/// attached to a neighbor and none dangles.
pub open spec fn ring_closed(nodes: Seq<RingNode>) -> bool {
    forall|j: int|
        0 <= j < nodes.len() ==> sender_chan((#[trigger] nodes[j]).tx) == receiver_chan(
            nodes[(j + 1) % (nodes.len() as int)].rx,
        )
}

/// Build one complete ring of `n` nodes over fresh bounded channels of
/// capacity `cap`: all channels exist before any node is formed, and the
/// nodes close them into a single cycle.
pub fn build_ring(n: usize, cap: usize) -> (nodes: Vec<RingNode>)
    requires
        n >= 1,
        cap >= 1,
    ensures
        nodes@.len() == n,
        ring_closed(nodes@),
{
    let chans = alloc_channels(n, cap);
    let ghost cseq = chans@;
    let nodes = wire_ring(chans);
    proof {
        assert forall|j: int| 0 <= j < n implies sender_chan((#[trigger] nodes@[j]).tx)
            == receiver_chan(nodes@[(j + 1) % (n as int)].rx) by {
            lemma_mod_division_less_than_divisor(j + 1, n as int);
            let t = (j + 1) % (n as int);
            assert(nodes@[j].tx == cseq[t].tx);
            assert(nodes@[t].rx == cseq[t].rx);
            assert(sender_chan(cseq[t].tx) == receiver_chan(cseq[t].rx));
        }
    }
    nodes
}

/// Build `r` independent rings of `n` nodes each. Construction runs to full
/// completion before any task starts: no node of any ring is handed out
/// until every ring is closed. Each ring is built over its own freshly
/// created channels, and every endpoint is moved into exactly one node —
/// nothing here clones an endpoint — so no node, and no ring, ever holds a
/// channel side that another also holds.
pub fn build_rings(n: usize, r: usize, cap: usize) -> (rings: Vec<Vec<RingNode>>)
    requires
        n >= 1,
        cap >= 1,
    ensures
        rings@.len() == r,
        forall|i: int| 0 <= i < r ==> (#[trigger] rings@[i])@.len() == n,
        forall|i: int| 0 <= i < r ==> ring_closed((#[trigger] rings@[i])@),
{
    let mut rings: Vec<Vec<RingNode>> = Vec::new();
    let mut i: usize = 0;
    while i < r
        invariant
            i <= r,
            n >= 1,
            cap >= 1,
            rings@.len() == i,
            forall|k: int| 0 <= k < i ==> (#[trigger] rings@[k])@.len() == n,
            forall|k: int| 0 <= k < i ==> ring_closed((#[trigger] rings@[k])@),
        decreases r - i,
    {
        let ring = build_ring(n, cap);
        rings.push(ring);
        i = i + 1;
    }
    rings
}

} // verus!
