use vstd::prelude::*;
use std::collections::HashMap;
use std::collections::HashSet;
use crate::records::{Record, RecordView, records_view, copy_records, append_records};
use crate::state::{State, StateView, rows_view, apply_records};
use crate::chunks::{chunk_records, joined_records, as_positives, CHUNK_SIZE};

verus! {

broadcast use vstd::std_specs::hash::group_hash_axioms;

/// Identifier of a domain.
#[derive(PartialEq, Eq, Structural, PartialOrd, Ord, Hash, Clone, Copy, Debug)]
pub struct Index(pub usize);

impl From<usize> for Index {
    fn from(i: usize) -> (r: Index)
        ensures
            r.0 == i,
    {
        Index(i)
    }
}

impl vstd::std_specs::convert::FromSpecImpl<usize> for Index {
    open spec fn obeys_from_spec() -> bool {
        true
    }

    open spec fn from_spec(i: usize) -> Index {
        Index(i)
    }
}

impl Index {
    /// The number that names the domain.
    pub fn into_usize(self) -> (r: usize)
        ensures
            r == self.0,
    {
        self.0
    }
}

/// Identifier of a node within the domain that owns it.
pub type LocalNodeIndex = usize;

/// Index of a node in the global dataflow graph.
pub type GraphIndex = usize;

/// Where a node lives: its domain and its index there.
#[derive(PartialEq, Eq, Structural, Clone, Copy, Debug)]
pub struct NodeAddress {
    pub domain: Index,
    pub local: LocalNodeIndex,
}

impl NodeAddress {
    /// The index of the node within its domain.
    pub fn local_index(&self) -> (r: LocalNodeIndex)
        ensures
            r == self.local,
    {
        self.local
    }
}

/// The variant of operator a node runs.
#[derive(PartialEq, Eq, Structural, Clone, Copy, Debug)]
pub enum NodeKind {
    Ingress,
    Egress,
    /// The operator of a base table.
    Base,
    Reader,
    TimestampEgress,
    Internal,
}

/// A transaction timestamp and the base table the transaction started at.
pub type Stamp = (i64, GraphIndex);

/// A batch of records travelling along one edge.
#[derive(Debug)]
pub struct Message {
    pub from: NodeAddress,
    pub to: NodeAddress,
    pub data: Vec<Record>,
    /// `Some` for a transactional message, `None` for a streaming one.
    pub ts: Option<Stamp>,
}

/// What an operator hands on to its children.
#[derive(Debug)]
pub struct Update {
    pub data: Vec<Record>,
    pub ts: Option<Stamp>,
}

/// One operator node of the domain.
#[derive(Debug)]
pub struct Node {
    pub addr: NodeAddress,
    pub index: GraphIndex,
    pub kind: NodeKind,
    pub children: Vec<NodeAddress>,
}

/// Whether a node of this kind ends a path in the domain and is fed once
/// per transaction.
pub open spec fn kind_is_output(k: NodeKind) -> bool {
    k == NodeKind::Egress || k == NodeKind::Reader || k == NodeKind::TimestampEgress
}

impl Node {
    pub fn is_output(&self) -> (r: bool)
        ensures
            r == kind_is_output(self.kind),
    {
        match self.kind {
            NodeKind::Egress | NodeKind::Reader | NodeKind::TimestampEgress => true,
            _ => false,
        }
    }

    pub fn is_ingress(&self) -> (r: bool)
        ensures
            r == (self.kind == NodeKind::Ingress),
    {
        match self.kind {
            NodeKind::Ingress => true,
            _ => false,
        }
    }

    pub fn is_base(&self) -> (r: bool)
        ensures
            r == (self.kind == NodeKind::Base),
    {
        match self.kind {
            NodeKind::Base => true,
            _ => false,
        }
    }
}

/// Materialized state of the domain's nodes, by local index.
pub type StateMap = HashMap<LocalNodeIndex, State>;

/// The operator implementations of a domain's nodes.
pub trait Operators {
    /// Runs `node`'s operator on `m`; `None` when nothing is to be handed on.
    fn process(&mut self, node: &Node, m: Message, states: &mut StateMap, enable_output: bool) -> Option<Update>;

    /// Publishes what a reader node has gathered so far to its readers.
    fn swap_reader(&mut self, node: &Node);
}

/// Copies a list of addresses.
pub fn copy_addresses(v: &Vec<NodeAddress>) -> (c: Vec<NodeAddress>)
    ensures
        c@ == v@,
{
    let mut c: Vec<NodeAddress> = Vec::new();
    let mut i: usize = 0;
    while i < v.len()
        invariant
            i <= v.len(),
            c@ == v@.subrange(0, i as int),
        decreases v.len() - i,
    {
        c.push(v[i]);
        i = i + 1;
    }
    assert(v@ =~= v@.subrange(0, v.len() as int));
    c
}

/// No two nodes share a local index.
pub open spec fn unique_locals(nodes: Seq<Node>) -> bool {
    forall|i: int, j: int|
        0 <= i < nodes.len() && 0 <= j < nodes.len() && #[trigger] nodes[i].addr.local == #[trigger] nodes[j].addr.local
            ==> i == j
}

/// Finds the node with local index `local`.
pub fn find_node(nodes: &Vec<Node>, local: LocalNodeIndex) -> (r: Option<usize>)
    ensures
        match r {
            Some(i) => i < nodes.len() && nodes@[i as int].addr.local == local,
            None => forall|i: int| 0 <= i < nodes.len() ==> nodes@[i].addr.local != local,
        },
{
    let mut i: usize = 0;
    while i < nodes.len()
        invariant
            i <= nodes.len(),
            forall|j: int| 0 <= j < i ==> nodes@[j].addr.local != local,
        decreases nodes.len() - i,
    {
        if nodes[i].addr.local == local {
            return Some(i);
        }
        i = i + 1;
    }
    None
}


/// An entry of the transaction buffer, waiting for its timestamp.
#[derive(Debug)]
pub enum BufferedTransaction {
    /// A timestamp announced by another domain, carrying no data.
    RemoteTransaction,
    /// The fragments of a transaction started at a base table.
    Transaction(GraphIndex, Vec<Message>),
    /// The start of a migration.
    MigrationStart,
    /// The end of a migration, with the new ingress counts per base table.
    MigrationEnd(HashMap<GraphIndex, usize>),
}

/// What was consumed from the transaction buffer at one timestamp.
pub enum Released {
    Remote,
    /// A transaction: its base table, its fragments, and the number of
    /// ingress nodes fed by its base table at that time.
    Transaction { base: GraphIndex, messages: Seq<Message>, required: nat },
    MigrationStart,
    /// The end of a migration, with the ingress counts it installed.
    MigrationEnd { counts: Map<GraphIndex, usize> },
}

/// Mathematical form of a domain.
pub struct DomainView {
    pub nodes: Seq<Node>,
    pub states: Map<LocalNodeIndex, State>,
    pub buffer: Map<i64, BufferedTransaction>,
    pub ingress: Map<GraphIndex, usize>,
    pub ts: int,
    pub not_ready: Set<LocalNodeIndex>,
    /// The node being replayed into, and the updates held back for it.
    pub cursor: Option<(LocalNodeIndex, Seq<Message>)>,
    /// The nodes that dispatch has handed a message to, in order.
    pub dispatched: Seq<LocalNodeIndex>,
    /// The buffer entries consumed so far, with their timestamps, in order.
    pub released: Seq<(int, Released)>,
    /// Every call of an operator, in order.
    pub calls: Seq<Call>,
    /// Every dispatch of a message, logged as it ends, with what it returned.
    pub visits: Seq<Visit>,
    /// The messages of every transaction applied, in order.
    pub txns: Seq<Seq<Message>>,
    /// The reader nodes that published their state, in order.
    pub swaps: Seq<LocalNodeIndex>,
    /// Every run of a message along a replay path, with what came out of it.
    pub chains: Seq<ChainRun>,
}

/// One call of an operator: the node, the message and the flag it was given,
/// and what it returned.
pub struct Call {
    pub node: LocalNodeIndex,
    pub msg: Message,
    pub enable_output: bool,
    pub result: Option<Update>,
}

/// One dispatch of a message, and the batches for output nodes it returned.
pub struct Visit {
    pub msg: Message,
    pub enable_output: bool,
    pub out: Seq<(NodeAddress, Vec<Record>)>,
}

/// One run of a message along a replay path, and the message that left the
/// last node, if it got that far.
pub struct ChainRun {
    pub input: Message,
    pub output: Option<Message>,
}

/// The node that updates are held back for, if any.
pub open spec fn cursor_target(c: Option<(LocalNodeIndex, Seq<Message>)>) -> Option<LocalNodeIndex> {
    match c {
        Some((t, _)) => Some(t),
        None => None,
    }
}

/// What a dispatch may change and what it keeps: as `run_frame`, and the node
/// being replayed into gets no message.
pub open spec fn dispatch_frame(a: DomainView, b: DomainView) -> bool {
    &&& run_frame(a, b)
    &&& b.txns == a.txns
    &&& forall|i: int| a.dispatched.len() <= i < b.dispatched.len()
        ==> cursor_target(a.cursor) != Some(#[trigger] b.dispatched[i])
}

/// What running records through the graph may change and what it keeps:
/// the graph, readiness, the buffer and the clock stay; the replay target
/// stays; held-back updates are only added to; only ready nodes get messages.
pub open spec fn run_frame(a: DomainView, b: DomainView) -> bool {
    &&& a.calls.is_prefix_of(b.calls)
    &&& a.visits.is_prefix_of(b.visits)
    &&& a.txns.is_prefix_of(b.txns)
    &&& b.swaps == a.swaps
    &&& b.chains == a.chains
    &&& b.nodes == a.nodes
    &&& b.not_ready == a.not_ready
    &&& b.buffer == a.buffer
    &&& b.ingress == a.ingress
    &&& b.ts == a.ts
    &&& b.released == a.released
    &&& cursor_target(b.cursor) == cursor_target(a.cursor)
    &&& (a.cursor is Some ==> a.cursor.unwrap().1.is_prefix_of(b.cursor.unwrap().1))
    &&& a.dispatched.is_prefix_of(b.dispatched)
    &&& forall|i: int| a.dispatched.len() <= i < b.dispatched.len()
        ==> !a.not_ready.contains(#[trigger] b.dispatched[i])
}

/// Whether `a` is the address of an output node of `nodes`.
pub open spec fn is_output_address(nodes: Seq<Node>, a: NodeAddress) -> bool {
    exists|j: int| 0 <= j < nodes.len() && nodes[j].addr.local == a.local && kind_is_output(nodes[j].kind)
}

/// Every batch of `out` is addressed to an output node of `nodes`.
pub open spec fn outputs_only(nodes: Seq<Node>, out: Seq<(NodeAddress, Vec<Record>)>) -> bool {
    forall|i: int| 0 <= i < out.len() ==> is_output_address(nodes, (#[trigger] out[i]).0)
}

proof fn lemma_prefix_trans<T>(x: Seq<T>, y: Seq<T>, z: Seq<T>)
    requires
        x.is_prefix_of(y),
        y.is_prefix_of(z),
    ensures
        x.is_prefix_of(z),
{
    assert forall|i: int| 0 <= i < x.len() implies x[i] == z[i] by {
        assert(x[i] == y[i]);
    }
}

proof fn lemma_run_trans(a: DomainView, b: DomainView, c: DomainView)
    requires
        run_frame(a, b),
        run_frame(b, c),
    ensures
        run_frame(a, c),
{
    if a.cursor is Some {
        lemma_prefix_trans(a.cursor.unwrap().1, b.cursor.unwrap().1, c.cursor.unwrap().1);
    }
    lemma_prefix_trans(a.dispatched, b.dispatched, c.dispatched);
    lemma_prefix_trans(a.calls, b.calls, c.calls);
    lemma_prefix_trans(a.visits, b.visits, c.visits);
    lemma_prefix_trans(a.txns, b.txns, c.txns);
    assert forall|i: int| a.dispatched.len() <= i < c.dispatched.len() implies
        !a.not_ready.contains(#[trigger] c.dispatched[i]) by {
        if i < b.dispatched.len() {
            assert(c.dispatched[i] == b.dispatched[i]);
        }
    }
}

proof fn lemma_frame_trans(a: DomainView, b: DomainView, c: DomainView)
    requires
        dispatch_frame(a, b),
        dispatch_frame(b, c),
    ensures
        dispatch_frame(a, c),
{
    lemma_run_trans(a, b, c);
    assert forall|i: int| a.dispatched.len() <= i < c.dispatched.len() implies
        cursor_target(a.cursor) != Some(#[trigger] c.dispatched[i]) by {
        if i < b.dispatched.len() {
            assert(c.dispatched[i] == b.dispatched[i]);
        }
    }
}

/// The records of the batches in `out` addressed to local node `local`,
/// concatenated in order.
pub open spec fn batch_for(out: Seq<(NodeAddress, Vec<Record>)>, local: LocalNodeIndex) -> Seq<RecordView>
    decreases out.len(),
{
    if out.len() == 0 {
        Seq::empty()
    } else {
        let rest = batch_for(out.drop_last(), local);
        if out.last().0.local == local {
            rest + records_view(out.last().1@)
        } else {
            rest
        }
    }
}

/// Gathers the records of the batches addressed to `local`, in order.
pub fn collect_for(out: &Vec<(NodeAddress, Vec<Record>)>, local: LocalNodeIndex) -> (r: Vec<Record>)
    ensures
        records_view(r@) == batch_for(out@, local),
{
    let mut r: Vec<Record> = Vec::new();
    let mut i: usize = 0;
    while i < out.len()
        invariant
            i <= out.len(),
            records_view(r@) == batch_for(out@.subrange(0, i as int), local),
        decreases out.len() - i,
    {
        proof {
            assert(out@.subrange(0, i + 1).drop_last() =~= out@.subrange(0, i as int));
        }
        if out[i].0.local == local {
            append_records(&mut r, copy_records(&out[i].1));
        }
        i = i + 1;
    }
    proof {
        assert(out@.subrange(0, out.len() as int) =~= out@);
    }
    r
}

/// The addresses of the output nodes of `nodes` that are ready, in order.
pub open spec fn ready_output_addrs(nodes: Seq<Node>, not_ready: Set<LocalNodeIndex>) -> Seq<NodeAddress>
    decreases nodes.len(),
{
    if nodes.len() == 0 {
        Seq::empty()
    } else {
        let rest = ready_output_addrs(nodes.drop_last(), not_ready);
        let n = nodes.last();
        if kind_is_output(n.kind) && !not_ready.contains(n.addr.local) {
            rest.push(n.addr)
        } else {
            rest
        }
    }
}

/// Whether `c` fed output node `o` all the records of `batches` addressed to
/// it, from and to `o`, at timestamp `ts`.
pub open spec fn output_fed(c: Call, o: NodeAddress, batches: Seq<(NodeAddress, Vec<Record>)>, ts: Option<Stamp>) -> bool {
    &&& c.node == o.local
    &&& c.enable_output
    &&& c.msg.from == o
    &&& c.msg.to == o
    &&& c.msg.ts == ts
    &&& records_view(c.msg.data@) == batch_for(batches, o.local)
}

/// How a transaction with `msgs` went from `a` to `c`: it was logged, each
/// message was dispatched in order with output held back (the `k`-th logged
/// at `ps[k]`, returning `outs[k]`), ending in `mid`; then each ready output
/// node was fed, in order, what reached it.
pub open spec fn txn_witness(
    a: DomainView,
    mid: DomainView,
    c: DomainView,
    msgs: Seq<Message>,
    ps: Seq<int>,
    outs: Seq<Seq<(NodeAddress, Vec<Record>)>>,
) -> bool {
    let ro = ready_output_addrs(a.nodes, a.not_ready);
    &&& run_frame(a, mid)
    &&& run_frame(mid, c)
    &&& mid.txns == a.txns.push(msgs)
    &&& c.txns == mid.txns
    &&& ps.len() == msgs.len()
    &&& outs.len() == msgs.len()
    &&& forall|k: int| 0 <= k < ps.len() ==> a.visits.len() <= #[trigger] ps[k] < mid.visits.len()
        && mid.visits[ps[k]] == (Visit { msg: msgs[k], enable_output: false, out: outs[k] })
    &&& forall|k1: int, k2: int| 0 <= k1 < k2 < ps.len() ==> #[trigger] ps[k1] < #[trigger] ps[k2]
    &&& c.calls.len() == mid.calls.len() + ro.len()
    &&& forall|q: int| 0 <= q < ro.len() ==> output_fed(#[trigger] c.calls[mid.calls.len() + q], ro[q], joined_out(outs), msgs[0].ts)
}

/// Each message of `held` was dispatched, with output enabled, in order,
/// between `a` and `b`.
pub open spec fn drained(a: DomainView, b: DomainView, held: Seq<Message>) -> bool {
    exists|ps: Seq<int>| {
        &&& #[trigger] ps.len() == held.len()
        &&& forall|k: int| 0 <= k < ps.len() ==> a.visits.len() <= #[trigger] ps[k] < b.visits.len()
            && b.visits[ps[k]].msg == held[k] && b.visits[ps[k]].enable_output
        &&& forall|k1: int, k2: int| 0 <= k1 < k2 < ps.len() ==> #[trigger] ps[k1] < #[trigger] ps[k2]
    }
}

/// The operator calls `c` of one run of `m` along `path` from `start`: the
/// `k`-th is at `path[start + k]`, with output held back, and gets what the
/// one before handed on; all but the last handed something on.
pub open spec fn chain_calls(c: Seq<Call>, path: Seq<NodeAddress>, start: int, m: Message) -> bool {
    &&& start + c.len() <= path.len()
    &&& forall|k: int| 0 <= k < c.len() ==> (#[trigger] c[k]).node == path[start + k].local && !c[k].enable_output
    &&& forall|k: int| 0 <= k < c.len() - 1 ==> (#[trigger] c[k]).result is Some
    &&& c.len() > 0 ==> c[0].msg == m
    &&& forall|k: int| 0 < k < c.len() ==> carries(#[trigger] c[k].msg, path[start + k - 1], path[start + k],
        (records_view(c[k - 1].result.unwrap().data@), None))
}

/// What running `m` along `path` from `start` did, from `a` to `b`,
/// returning `r`: only the states, the operator calls and the log of runs
/// changed; with `Some`, every node handed on, and `r` carries what the last
/// one made; with `None`, a node handed nothing on or was missing.
pub open spec fn chain_post(a: DomainView, b: DomainView, path: Seq<NodeAddress>, start: int, m: Message, r: Option<Message>) -> bool {
    let c = b.calls.subrange(a.calls.len() as int, b.calls.len() as int);
    &&& b == DomainView { states: b.states, calls: b.calls, chains: a.chains.push(ChainRun { input: m, output: r }), ..a }
    &&& a.calls.is_prefix_of(b.calls)
    &&& chain_calls(c, path, start, m)
    &&& r matches Some(x) ==> c.len() == path.len() - start && c.last().result is Some
        && carries(x, path.last(), path.last(), (records_view(c.last().result.unwrap().data@), None))
    &&& r is None ==> (c.len() > 0 && c.last().result is None)
        || (start + c.len() < path.len() && !has_node(a.nodes, path[start + c.len()].local))
}

/// What came out of the runs `nc`, in order, leaving out those that stopped.
pub open spec fn outputs_of(nc: Seq<ChainRun>) -> Seq<Message>
    decreases nc.len(),
{
    if nc.len() == 0 {
        Seq::empty()
    } else {
        match nc.last().output {
            Some(x) => outputs_of(nc.drop_last()).push(x),
            None => outputs_of(nc.drop_last()),
        }
    }
}

/// `outputs_of(nc)`, each as a replay chunk.
pub open spec fn partials_of(nc: Seq<ChainRun>) -> Seq<ReplayBatch>
    decreases nc.len(),
{
    if nc.len() == 0 {
        Seq::empty()
    } else {
        match nc.last().output {
            Some(x) => partials_of(nc.drop_last()).push(ReplayBatch::Partial(x)),
            None => partials_of(nc.drop_last()),
        }
    }
}

/// `cs` holds `rows` as positive records, in order, in chunks of
/// `CHUNK_SIZE`, the last one possibly shorter.
pub open spec fn chunked(cs: Seq<Vec<Record>>, rows: Seq<Seq<i64>>) -> bool {
    &&& joined_records(cs) == rows.map_values(|x: Seq<i64>| RecordView::Positive(x))
    &&& forall|i: int| 0 <= i < cs.len() ==> 0 < (#[trigger] cs[i])@.len() <= CHUNK_SIZE
    &&& forall|i: int| 0 <= i < cs.len() - 1 ==> (#[trigger] cs[i])@.len() == CHUNK_SIZE
}

/// One message from `from` to `to` without timestamp for each chunk.
pub open spec fn chunk_messages(cs: Seq<Vec<Record>>, from: NodeAddress, to: NodeAddress) -> Seq<Message> {
    cs.map_values(|c: Vec<Record>| Message { from, to, data: c, ts: None })
}

/// The messages `ms` that batch `batch` stands for when addressed to `to`.
pub open spec fn batch_expansion(batch: ReplayBatch, to: NodeAddress, ms: Seq<Message>) -> bool {
    match batch {
        ReplayBatch::Partial(m) => ms == seq![m],
        ReplayBatch::Full(src, s) => exists|cs: Seq<Vec<Record>>| #[trigger] chunked(cs, s@.rows) && ms == chunk_messages(cs, src, to),
    }
}

/// The runs logged between `a` and `b`.
pub open spec fn new_chains(a: DomainView, b: DomainView) -> Seq<ChainRun> {
    b.chains.subrange(a.chains.len() as int, b.chains.len() as int)
}

/// The runs `nc` took the messages `ms`, one each, in order.
pub open spec fn ran_all(nc: Seq<ChainRun>, ms: Seq<Message>) -> bool {
    nc.len() == ms.len() && forall|k: int| 0 <= k < nc.len() ==> (#[trigger] nc[k]).input == ms[k]
}

/// Whether the buffer entry at `k` may be consumed: it is there, and if it
/// is a transaction, all the fragments its base table sends have come.
pub open spec fn complete(v: DomainView, k: i64) -> bool {
    &&& v.buffer.contains_key(k)
    &&& match v.buffer[k] {
        BufferedTransaction::Transaction(base, msgs) => v.ingress.contains_key(base) && msgs.len() >= v.ingress[base],
        _ => true,
    }
}

/// The timestamps after `from` up to and including `to`.
pub open spec fn stamps_between(from: int, to: int) -> Set<i64> {
    Set::new(|k: i64| from < k <= to)
}

/// The clock only moves by consuming the next buffer entry: every timestamp
/// that was passed had its entry, which is gone now and logged in order.
pub open spec fn consumed_in_order(a: DomainView, b: DomainView) -> bool {
    &&& a.ts <= b.ts
    &&& b.released.len() == a.released.len() + (b.ts - a.ts)
    &&& a.released.is_prefix_of(b.released)
    &&& forall|k: i64| a.ts < k <= b.ts ==> #[trigger] a.buffer.contains_key(k)
    &&& b.buffer == a.buffer.remove_keys(stamps_between(a.ts, b.ts))
}

/// The log of consumed entries holds the timestamps up to the clock, one
/// each, in order.
pub open spec fn well_formed(v: DomainView) -> bool {
    &&& unique_locals(v.nodes)
    &&& forall|i: int| 0 <= i < v.released.len() ==> (#[trigger] v.released[i]).0 == v.ts - v.released.len() + 1 + i
}

/// The timestamp that comes after the clock, if the clock can still move.
pub open spec fn is_next(v: DomainView, t: i64) -> bool {
    v.ts < i64::MAX && t == v.ts + 1
}

/// `b` is `a` with `m` added to the transaction buffered at `m`'s timestamp
/// (a new transaction of `m`'s base table where there was none).
pub open spec fn buffered(a: DomainView, m: Message, b: DomainView) -> bool {
    let t = m.ts.unwrap().0;
    &&& b == DomainView { buffer: b.buffer, ..a }
    &&& b.buffer.dom() == a.buffer.dom().insert(t)
    &&& forall|k: i64| k != t && a.buffer.contains_key(k) ==> b.buffer[k] == #[trigger] a.buffer[k]
    &&& match b.buffer[t] {
        BufferedTransaction::Transaction(base, msgs) => if a.buffer.contains_key(t) {
            &&& a.buffer[t] matches BufferedTransaction::Transaction(old_base, old_msgs)
            &&& base == old_base
            &&& msgs@ == old_msgs@.push(m)
        } else {
            base == m.ts.unwrap().1 && msgs@ == seq![m]
        },
        _ => false,
    }
}

/// Whether transactional message `m` may join the buffer: nothing but a
/// transaction waits at its timestamp.
pub open spec fn fits_buffer(a: DomainView, m: Message) -> bool {
    let t = m.ts.unwrap().0;
    !(a.buffer.contains_key(t) && !(a.buffer[t] is Transaction))
}

/// What buffering transactional message `m` does: it joins the buffer,
/// which is then consumed if `m` is for the next timestamp, the migration
/// starts reached being returned in `acks`.
pub open spec fn buffer_outcome(a: DomainView, m: Message, acks: Seq<i64>, b: DomainView) -> bool {
    let t = m.ts.unwrap().0;
    exists|mid: DomainView| {
        &&& #[trigger] buffered(a, m, mid)
        &&& is_next(a, t) ==> applied_with(mid, b, acks)
        &&& !is_next(a, t) ==> b == mid && acks.len() == 0
    }
}

/// `b` is `a` with `e` buffered at `t`, then the buffer consumed if `t` is
/// the next timestamp, with the migration starts reached in `acks`.
pub open spec fn enqueued(a: DomainView, t: i64, e: BufferedTransaction, acks: Seq<i64>, b: DomainView) -> bool {
    let mid = DomainView { buffer: a.buffer.insert(t, e), ..a };
    &&& is_next(a, t) ==> applied_with(mid, b, acks)
    &&& !is_next(a, t) ==> b == mid && acks.len() == 0
}

/// The entries consumed between `a` and `b`.
pub open spec fn new_released(a: DomainView, b: DomainView) -> Seq<(int, Released)> {
    b.released.subrange(a.released.len() as int, b.released.len() as int)
}

/// Whether `r` logs the consumption of buffer entry `e`.
pub open spec fn entry_released(e: BufferedTransaction, r: Released) -> bool {
    match e {
        BufferedTransaction::RemoteTransaction => r is Remote,
        BufferedTransaction::MigrationStart => r is MigrationStart,
        BufferedTransaction::MigrationEnd(c) => r == (Released::MigrationEnd { counts: c@ }),
        BufferedTransaction::Transaction(b, ms) => r matches Released::Transaction { base, messages, required }
            && base == b && messages == ms@,
    }
}

/// Whether a transaction logged in `r` had all its fragments under the
/// ingress counts `ing`.
pub open spec fn release_ok(ing: Map<GraphIndex, usize>, r: Released) -> bool {
    match r {
        Released::Transaction { base, messages, required } => ing.contains_key(base) && required == ing[base]
            && messages.len() >= required,
        _ => true,
    }
}

/// The ingress counts after the entries of `rel`: those of the last
/// migration end among them, else `init`.
pub open spec fn ingress_after(init: Map<GraphIndex, usize>, rel: Seq<(int, Released)>) -> Map<GraphIndex, usize>
    decreases rel.len(),
{
    if rel.len() == 0 {
        init
    } else {
        match rel.last().1 {
            Released::MigrationEnd { counts } => counts,
            _ => ingress_after(init, rel.drop_last()),
        }
    }
}

/// The timestamps of the migration starts among `rel`, in order.
pub open spec fn starts_of(rel: Seq<(int, Released)>) -> Seq<int>
    decreases rel.len(),
{
    if rel.len() == 0 {
        Seq::empty()
    } else if rel.last().1 is MigrationStart {
        starts_of(rel.drop_last()).push(rel.last().0)
    } else {
        starts_of(rel.drop_last())
    }
}

/// The messages of the transactions with fragments among `rel`, in order.
pub open spec fn txns_of(rel: Seq<(int, Released)>) -> Seq<Seq<Message>>
    decreases rel.len(),
{
    if rel.len() == 0 {
        Seq::empty()
    } else {
        match rel.last().1 {
            Released::Transaction { messages, .. } => if messages.len() > 0 {
                txns_of(rel.drop_last()).push(messages)
            } else {
                txns_of(rel.drop_last())
            },
            _ => txns_of(rel.drop_last()),
        }
    }
}

/// Consuming the buffer from `a` to `b` so far: entries went in timestamp
/// order, each logged as what it was; a transaction only with all its
/// fragments under the counts of that time, and then applied; the counts of
/// the last migration end installed.
pub open spec fn progress(a: DomainView, b: DomainView) -> bool {
    let new = new_released(a, b);
    &&& consumed_in_order(a, b)
    &&& b.nodes == a.nodes
    &&& b.not_ready == a.not_ready
    &&& a.dispatched.is_prefix_of(b.dispatched)
    &&& forall|i: int| a.dispatched.len() <= i < b.dispatched.len()
        ==> !a.not_ready.contains(#[trigger] b.dispatched[i])
    &&& forall|i: int| 0 <= i < new.len() ==> (#[trigger] new[i]).0 == a.ts + 1 + i
        && entry_released(a.buffer[(a.ts + 1 + i) as i64], new[i].1)
        && release_ok(ingress_after(a.ingress, new.subrange(0, i)), new[i].1)
    &&& b.ingress == ingress_after(a.ingress, new)
    &&& b.txns == a.txns + txns_of(new)
}

/// What consuming the buffer does: as `progress`, and it stops at the first
/// entry that cannot be consumed yet.
pub open spec fn applied(a: DomainView, b: DomainView) -> bool {
    &&& progress(a, b)
    &&& b.ts == i64::MAX || !complete(b, (b.ts + 1) as i64)
}

/// `applied`, returning in `acks` the timestamps of the migration starts
/// consumed, in order.
pub open spec fn applied_with(a: DomainView, b: DomainView, acks: Seq<i64>) -> bool {
    &&& applied(a, b)
    &&& acks.map_values(|t: i64| t as int) == starts_of(new_released(a, b))
}

/// The children lists after a node with address `a` is added under each
/// parent in `parents`, in order: the list of node `local` gets `a` once for
/// each time `local` is named.
pub open spec fn with_child(c: Seq<NodeAddress>, local: LocalNodeIndex, parents: Seq<LocalNodeIndex>, a: NodeAddress) -> Seq<NodeAddress>
    decreases parents.len(),
{
    if parents.len() == 0 {
        c
    } else {
        let r = with_child(c, local, parents.drop_last(), a);
        if parents.last() == local {
            r.push(a)
        } else {
            r
        }
    }
}

/// Whether `local` is a node of `nodes`.
pub open spec fn has_node(nodes: Seq<Node>, local: LocalNodeIndex) -> bool {
    exists|i: int| 0 <= i < nodes.len() && nodes[i].addr.local == local
}

/// Node `n` added to `a.nodes` under `parents`: each parent lists it as a
/// child, and it takes the place of a node with the same index, if any.
pub open spec fn node_added(a: Seq<Node>, n: Node, parents: Seq<LocalNodeIndex>, b: Seq<Node>) -> bool {
    &&& has_node(a, n.addr.local) ==> b.len() == a.len()
    &&& !has_node(a, n.addr.local) ==> b.len() == a.len() + 1 && b.last() == n
    &&& forall|i: int| 0 <= i < a.len() ==> if a[i].addr.local == n.addr.local {
        #[trigger] b[i] == n
    } else {
        &&& b[i].addr == a[i].addr
        &&& b[i].index == a[i].index
        &&& b[i].kind == a[i].kind
        &&& b[i].children@ == with_child(a[i].children@, a[i].addr.local, parents, n.addr)
    }
}

/// The materialized states after `local` gets a state with view `v`.
pub open spec fn state_installed(a: Map<LocalNodeIndex, State>, local: LocalNodeIndex, v: StateView, b: Map<LocalNodeIndex, State>) -> bool {
    &&& b.dom() == a.dom().insert(local)
    &&& b[local]@ == v
    &&& forall|k: LocalNodeIndex| k != local && a.contains_key(k) ==> b[k] == #[trigger] a[k]
}

/// What a replay sends on: a full snapshot of a node's state, or one chunk
/// of records that has gone through the path.
#[derive(Debug)]
pub enum ReplayBatch {
    Full(NodeAddress, State),
    Partial(Message),
}

/// What the receiving end of a replay does after a batch.
#[derive(Debug)]
pub enum ReplayStep {
    /// Wait for the next batch, after sending these messages on.
    Continue(Vec<Message>),
    /// The state is complete: no further batch is to be read.
    Done,
}

/// Whether `m` is a streaming message that left the node at `last`.
pub open spec fn left_from(m: Message, last: NodeAddress) -> bool {
    m.from == last && m.to == last && m.ts is None
}

/// Whether `b` is a chunk that left the node at `last`.
pub open spec fn chunk_out_of(b: ReplayBatch, last: NodeAddress) -> bool {
    match b {
        ReplayBatch::Partial(m) => left_from(m, last),
        _ => false,
    }
}

/// Whether `v` holds the items of `w` in reverse order.
pub open spec fn reverse_of<T>(v: Seq<T>, w: Seq<T>) -> bool {
    v.len() == w.len() && forall|i: int| 0 <= i < v.len() ==> v[i] == #[trigger] w[w.len() - 1 - i]
}

/// The items of `v` in reverse order.
pub fn reversed<T>(v: Vec<T>) -> (r: Vec<T>)
    ensures
        reverse_of(r@, v@),
{
    let ghost all = v@;
    let mut v = v;
    let mut r: Vec<T> = Vec::new();
    while v.len() > 0
        invariant
            v@ == all.subrange(0, v@.len() as int),
            v@.len() <= all.len(),
            r@.len() == all.len() - v@.len(),
            forall|k: int| 0 <= k < r@.len() ==> r@[k] == all[all.len() - 1 - k],
        decreases v.len(),
    {
        let x = v.pop().unwrap();
        r.push(x);
    }
    r
}

/// Messages from `from` to `to` without timestamp, one for each batch of
/// records, in order.
pub fn wrap_chunks(chunks: Vec<Vec<Record>>, from: NodeAddress, to: NodeAddress) -> (r: Vec<Message>)
    ensures
        r@.len() == chunks@.len(),
        forall|i: int| 0 <= i < r@.len() ==> (#[trigger] r@[i]) == (Message { from, to, data: chunks@[i], ts: None }),
{
    let ghost all = chunks@;
    let mut rev = reversed(chunks);
    let mut r: Vec<Message> = Vec::new();
    while rev.len() > 0
        invariant
            rev@.len() <= all.len(),
            r@.len() == all.len() - rev@.len(),
            forall|k: int| 0 <= k < rev@.len() ==> rev@[k] == all[all.len() - 1 - k],
            forall|i: int| 0 <= i < r@.len() ==> (#[trigger] r@[i]) == (Message { from, to, data: all[i], ts: None }),
        decreases rev.len(),
    {
        let data = rev.pop().unwrap();
        r.push(Message { from, to, data, ts: None });
    }
    r
}

/// The messages a replay batch stands for at the receiving end, addressed to
/// `to`, the first node of the path there: a chunk is passed on as it is; a
/// full snapshot becomes chunks of its rows, as positive records, sent from
/// the node it was taken at.
pub fn batch_messages(batch: ReplayBatch, to: NodeAddress) -> (r: Vec<Message>)
    ensures
        batch_expansion(batch, to, r@),
{
    match batch {
        ReplayBatch::Partial(m) => {
            let mut r: Vec<Message> = Vec::new();
            r.push(m);
            proof {
                assert(r@ =~= seq![m]);
            }
            r
        },
        ReplayBatch::Full(src, s) => {
            let ghost sv = s@;
            let rows = s.into_rows();
            let ghost rs = rows@;
            let chunks = chunk_records(rows);
            let ghost cs = chunks@;
            proof {
                assert(as_positives(rs) =~= sv.rows.map_values(|x: Seq<i64>| RecordView::Positive(x)));
                assert(chunked(cs, sv.rows));
            }
            let r = wrap_chunks(chunks, src, to);
            proof {
                assert(r@ =~= chunk_messages(cs, src, to));
            }
            r
        },
    }
}

/// What the checktable answered to a write that carried a token.
#[derive(PartialEq, Eq, Structural, Clone, Copy, Debug)]
pub enum TransactionResult {
    /// The write was given this timestamp.
    Committed(i64),
    Aborted,
}

/// A message whose write was claimed at the checktable for base table
/// `base`: a committed one becomes transactional at the timestamp it was
/// given; an aborted one is dropped.
pub fn claimed(m: Message, base: GraphIndex, result: TransactionResult) -> (r: Option<Message>)
    ensures
        match result {
            TransactionResult::Committed(t) => r == Some(Message { ts: Some((t, base)), ..m }),
            TransactionResult::Aborted => r is None,
        },
{
    match result {
        TransactionResult::Committed(t) => Some(Message { from: m.from, to: m.to, data: m.data, ts: Some((t, base)) }),
        TransactionResult::Aborted => None,
    }
}

proof fn lemma_prefix_push<T>(s: Seq<T>, x: T)
    ensures
        s.is_prefix_of(s.push(x)),
{
    assert forall|i: int| 0 <= i < s.len() implies s[i] == s.push(x)[i] by {}
}

proof fn lemma_wf_same(a: DomainView, b: DomainView)
    requires
        well_formed(a),
        b.nodes == a.nodes,
        b.released == a.released,
        b.ts == a.ts,
    ensures
        well_formed(b),
{
    assert forall|i: int| 0 <= i < b.released.len() implies (#[trigger] b.released[i]).0 == b.ts - b.released.len() + 1 + i by {
        assert(b.released[i] == a.released[i]);
    }
}

proof fn lemma_frame_refl(a: DomainView)
    ensures
        dispatch_frame(a, a),
{
    assert(a.calls.is_prefix_of(a.calls));
    assert(a.visits.is_prefix_of(a.visits));
    assert(a.txns.is_prefix_of(a.txns));
    assert(a.dispatched.is_prefix_of(a.dispatched));
    if a.cursor is Some {
        assert(a.cursor.unwrap().1.is_prefix_of(a.cursor.unwrap().1));
    }
}

proof fn lemma_node_choice(nodes: Seq<Node>, local: LocalNodeIndex, j: int)
    requires
        unique_locals(nodes),
        0 <= j < nodes.len(),
        nodes[j].addr.local == local,
    ensures
        has_node(nodes, local),
        children_of(nodes, local) == nodes[j].children@,
{
    let w = choose|i: int| 0 <= i < nodes.len() && nodes[i].addr.local == local;
    assert(nodes[w].addr.local == nodes[j].addr.local);
}

proof fn lemma_output_choice(nodes: Seq<Node>, c: NodeAddress, found: Option<usize>)
    requires
        unique_locals(nodes),
        match found {
            Some(i) => i < nodes.len() && nodes[i as int].addr.local == c.local,
            None => forall|i: int| 0 <= i < nodes.len() ==> nodes[i].addr.local != c.local,
        },
    ensures
        is_output_address(nodes, c) == match found {
            Some(i) => kind_is_output(nodes[i as int].kind),
            None => false,
        },
{
    if is_output_address(nodes, c) {
        let w = choose|i: int| 0 <= i < nodes.len() && nodes[i].addr.local == c.local && kind_is_output(nodes[i].kind);
        if let Some(i) = found {
            assert(nodes[w].addr.local == nodes[i as int].addr.local);
        }
    }
}

/// What the operator's result hands on: its batch, or, for a message with
/// a timestamp, an empty batch at that timestamp; `None` when nothing is.
pub open spec fn effective(r: Option<Update>, ts: Option<Stamp>) -> Option<(Seq<RecordView>, Option<Stamp>)> {
    match r {
        Some(u) => Some((records_view(u.data@), u.ts)),
        None => match ts {
            Some(t) => Some((Seq::empty(), Some(t))),
            None => None,
        },
    }
}

/// The result logged by the last operator call of `v`.
pub open spec fn before_call_result(v: DomainView) -> Option<Update> {
    v.calls.last().result
}

/// The children of node `local`, none if there is no such node.
pub open spec fn children_of(nodes: Seq<Node>, local: LocalNodeIndex) -> Seq<NodeAddress> {
    if has_node(nodes, local) {
        nodes[choose|j: int| 0 <= j < nodes.len() && nodes[j].addr.local == local].children@
    } else {
        Seq::empty()
    }
}

/// Whether a batch for `c` is returned rather than processed.
pub open spec fn collected(nodes: Seq<Node>, enable_output: bool, c: NodeAddress) -> bool {
    !enable_output && is_output_address(nodes, c)
}

/// The pieces, one after the other.
pub open spec fn joined_out(ps: Seq<Seq<(NodeAddress, Vec<Record>)>>) -> Seq<(NodeAddress, Vec<Record>)>
    decreases ps.len(),
{
    if ps.len() == 0 {
        Seq::empty()
    } else {
        joined_out(ps.drop_last()) + ps.last()
    }
}

/// Whether `msg` goes from `from` to `to` with the batch and timestamp `u`.
pub open spec fn carries(msg: Message, from: NodeAddress, to: NodeAddress, u: (Seq<RecordView>, Option<Stamp>)) -> bool {
    msg.from == from && msg.to == to && msg.ts == u.1 && records_view(msg.data@) == u.0
}

/// What child `c` of `me` got of `u`: a batch returned as `piece`, or the
/// dispatch logged at `p` in `b`, which returned `piece`.
pub open spec fn fan_step(
    a: DomainView,
    b: DomainView,
    me: NodeAddress,
    c: NodeAddress,
    u: (Seq<RecordView>, Option<Stamp>),
    enable_output: bool,
    p: int,
    piece: Seq<(NodeAddress, Vec<Record>)>,
) -> bool {
    if collected(a.nodes, enable_output, c) {
        piece.len() == 1 && piece[0].0 == c && records_view(piece[0].1@) == u.0
    } else {
        &&& a.visits.len() <= p < b.visits.len()
        &&& carries(b.visits[p].msg, me, c, u)
        &&& b.visits[p].enable_output == enable_output
        &&& piece == b.visits[p].out
    }
}

/// The children `kids` of `me` each got `u`, in order, and `out` is what
/// they gave back, in order.
pub open spec fn fan_witness(
    a: DomainView,
    b: DomainView,
    me: NodeAddress,
    kids: Seq<NodeAddress>,
    u: (Seq<RecordView>, Option<Stamp>),
    enable_output: bool,
    out: Seq<(NodeAddress, Vec<Record>)>,
    ps: Seq<int>,
    pieces: Seq<Seq<(NodeAddress, Vec<Record>)>>,
) -> bool {
    &&& ps.len() == kids.len()
    &&& pieces.len() == kids.len()
    &&& out == joined_out(pieces)
    &&& forall|k: int| 0 <= k < kids.len() ==> fan_step(a, b, me, #[trigger] kids[k], u, enable_output, ps[k], pieces[k])
    &&& forall|k1: int, k2: int| 0 <= k1 < k2 < kids.len() && !collected(a.nodes, enable_output, kids[k1])
        && !collected(a.nodes, enable_output, kids[k2]) ==> #[trigger] ps[k1] < #[trigger] ps[k2]
}

/// Some order of the children's dispatches fits `fan_witness`.
pub open spec fn fanned_out(
    a: DomainView,
    b: DomainView,
    me: NodeAddress,
    kids: Seq<NodeAddress>,
    u: (Seq<RecordView>, Option<Stamp>),
    enable_output: bool,
    out: Seq<(NodeAddress, Vec<Record>)>,
) -> bool {
    exists|ps: Seq<int>, pieces: Seq<Seq<(NodeAddress, Vec<Record>)>>| #[trigger] fan_witness(a, b, me, kids, u, enable_output, out, ps, pieces)
}

/// What dispatching `m` from `a` did, ending in `b` and returning `out`.
/// `deep` is false only where the depth bound was reached.
pub open spec fn dispatch_post(a: DomainView, m: Message, enable_output: bool, out: Seq<(NodeAddress, Vec<Record>)>, b: DomainView, deep: bool) -> bool {
    let held = cursor_target(a.cursor) == Some(m.to.local);
    let visit = Visit { msg: m, enable_output, out };
    &&& dispatch_frame(a, b)
    &&& b.visits.len() > a.visits.len()
    &&& b.visits.last() == visit
    &&& enable_output ==> out.len() == 0
    &&& !enable_output ==> outputs_only(a.nodes, out)
    &&& held ==> out.len() == 0 && b == DomainView {
        cursor: Some((m.to.local, a.cursor.unwrap().1.push(m))),
        visits: a.visits.push(visit),
        ..a
    }
    &&& !held && (a.not_ready.contains(m.to.local) || !has_node(a.nodes, m.to.local) || !deep) ==> out.len() == 0
        && b == DomainView { visits: a.visits.push(visit), ..a }
    &&& !held && !a.not_ready.contains(m.to.local) && has_node(a.nodes, m.to.local) && deep ==> {
        &&& b.calls.len() > a.calls.len()
        &&& b.calls[a.calls.len() as int].node == m.to.local
        &&& b.calls[a.calls.len() as int].msg == m
        &&& b.calls[a.calls.len() as int].enable_output
        &&& b.dispatched.len() > a.dispatched.len()
        &&& b.dispatched[a.dispatched.len() as int] == m.to.local
        &&& effective(b.calls[a.calls.len() as int].result, m.ts) is None ==> out.len() == 0
            && b.calls.len() == a.calls.len() + 1 && b.visits.len() == a.visits.len() + 1
        &&& effective(b.calls[a.calls.len() as int].result, m.ts) matches Some(u) ==> fanned_out(
            a, b, m.to, children_of(a.nodes, m.to.local), u, enable_output, out,
        )
    }
}

/// A single-threaded worker that owns a part of the dataflow graph.
pub struct Domain<O: Operators> {
    nodes: Vec<Node>,
    state: StateMap,
    buffered_transactions: HashMap<i64, BufferedTransaction>,
    ingress_from_base: HashMap<GraphIndex, usize>,
    ts: i64,
    not_ready: HashSet<LocalNodeIndex>,
    replaying_to: Option<(LocalNodeIndex, Vec<Message>)>,
    ops: O,
    dispatched: Ghost<Seq<LocalNodeIndex>>,
    released: Ghost<Seq<(int, Released)>>,
    calls: Ghost<Seq<Call>>,
    visits: Ghost<Seq<Visit>>,
    txns: Ghost<Seq<Seq<Message>>>,
    swaps: Ghost<Seq<LocalNodeIndex>>,
    chains: Ghost<Seq<ChainRun>>,
}

impl<O: Operators> View for Domain<O> {
    type V = DomainView;

    closed spec fn view(&self) -> DomainView {
        DomainView {
            nodes: self.nodes@,
            states: self.state@,
            buffer: self.buffered_transactions@,
            ingress: self.ingress_from_base@,
            ts: self.ts as int,
            not_ready: self.not_ready@,
            cursor: match self.replaying_to {
                Some((t, b)) => Some((t, b@)),
                None => None,
            },
            dispatched: self.dispatched@,
            released: self.released@,
            calls: self.calls@,
            visits: self.visits@,
            txns: self.txns@,
            swaps: self.swaps@,
            chains: self.chains@,
        }
    }
}

impl<O: Operators> Domain<O> {
    /// A domain over `nodes` at time `ts`; every node but the timestamp
    /// egress nodes starts out not ready.
    pub fn new(nodes: Vec<Node>, ops: O, ts: i64) -> (d: Domain<O>)
        requires
            unique_locals(nodes@),
        ensures
            d@.nodes == nodes@,
            d@.states == Map::<LocalNodeIndex, State>::empty(),
            d@.buffer == Map::<i64, BufferedTransaction>::empty(),
            d@.ingress == Map::<GraphIndex, usize>::empty(),
            d@.ts == ts,
            d@.not_ready == Set::new(|l: LocalNodeIndex| exists|i: int|
                0 <= i < nodes@.len() && nodes@[i].addr.local == l && nodes@[i].kind != NodeKind::TimestampEgress),
            d@.cursor is None,
            d@.dispatched.len() == 0,
            d@.calls.len() == 0,
            d@.visits.len() == 0,
            d@.txns.len() == 0,
            d@.swaps.len() == 0,
            d@.chains.len() == 0,
            d@.released.len() == 0,
            d.spec_ops() == ops,
            well_formed(d@),
    {
        let mut not_ready: HashSet<LocalNodeIndex> = HashSet::new();
        let mut i: usize = 0;
        while i < nodes.len()
            invariant
                i <= nodes.len(),
                not_ready@ == Set::new(|l: LocalNodeIndex| exists|j: int|
                    0 <= j < i && nodes@[j].addr.local == l && nodes@[j].kind != NodeKind::TimestampEgress),
            decreases nodes.len() - i,
        {
            let ghost prev = not_ready@;
            match nodes[i].kind {
                NodeKind::TimestampEgress => {},
                _ => {
                    not_ready.insert(nodes[i].addr.local);
                },
            }
            proof {
                assert(not_ready@ =~= Set::new(|l: LocalNodeIndex| exists|j: int|
                    0 <= j < i + 1 && nodes@[j].addr.local == l && nodes@[j].kind != NodeKind::TimestampEgress)) by {
                    assert forall|l: LocalNodeIndex| not_ready@.contains(l) implies exists|j: int|
                        0 <= j < i + 1 && nodes@[j].addr.local == l && nodes@[j].kind != NodeKind::TimestampEgress by {
                        if l != nodes@[i as int].addr.local {
                            assert(prev.contains(l));
                        }
                    }
                }
            }
            i = i + 1;
        }
        Domain {
            nodes,
            state: HashMap::new(),
            buffered_transactions: HashMap::new(),
            ingress_from_base: HashMap::new(),
            ts,
            not_ready,
            replaying_to: None,
            ops,
            dispatched: Ghost(Seq::empty()),
            released: Ghost(Seq::empty()),
            calls: Ghost(Seq::empty()),
            visits: Ghost(Seq::empty()),
            txns: Ghost(Seq::empty()),
            swaps: Ghost(Seq::empty()),
            chains: Ghost(Seq::empty()),
        }
    }

    /// Adds a transactional message to the buffer, and consumes the buffer
    /// if it is for the next timestamp; returns the migration starts reached.
    pub fn buffer_transaction(&mut self, m: Message) -> (acks: Vec<i64>)
        requires
            well_formed(old(self)@),
            m.ts is Some,
            fits_buffer(old(self)@, m),
        ensures
            well_formed(final(self)@),
            buffer_outcome(old(self)@, m, acks@, final(self)@),
    {
        let (t, base) = match m.ts {
            Some(s) => s,
            None => {
                return Vec::new();
            },
        };
        let ghost m_spec = m;
        let entry = self.buffered_transactions.remove(&t);
        let e = match entry {
            None => {
                let mut msgs: Vec<Message> = Vec::new();
                msgs.push(m);
                BufferedTransaction::Transaction(base, msgs)
            },
            Some(BufferedTransaction::Transaction(b, msgs)) => {
                let mut msgs = msgs;
                msgs.push(m);
                BufferedTransaction::Transaction(b, msgs)
            },
            Some(other) => {
                // ruled out by the precondition
                other
            },
        };
        self.buffered_transactions.insert(t, e);
        let ghost mid = self@;
        proof {
            assert(mid.buffer.dom() =~= old(self)@.buffer.dom().insert(t));
            assert(buffered(old(self)@, m_spec, mid));
        }
        if self.ts < i64::MAX && t == self.ts + 1 {
            self.apply_transactions()
        } else {
            Vec::new()
        }
    }

    /// Buffers an entry at `t`, where nothing waits yet, and consumes the
    /// buffer if `t` is the next timestamp.
    fn enqueue(&mut self, t: i64, e: BufferedTransaction) -> (acks: Vec<i64>)
        requires
            well_formed(old(self)@),
            !old(self)@.buffer.contains_key(t),
        ensures
            well_formed(final(self)@),
            enqueued(old(self)@, t, e, acks@, final(self)@),
    {
        self.buffered_transactions.insert(t, e);
        proof {
            assert(self@ == DomainView { buffer: self@.buffer, ..old(self)@ });
        }
        if self.ts < i64::MAX && t == self.ts + 1 {
            self.apply_transactions()
        } else {
            Vec::new()
        }
    }

    /// The kind of node `ni`, if the domain has it.
    pub fn kind_of(&self, ni: LocalNodeIndex) -> (r: Option<NodeKind>)
        requires
            well_formed(self@),
        ensures
            match r {
                Some(k) => exists|j: int| 0 <= j < self@.nodes.len() && self@.nodes[j].addr.local == ni && self@.nodes[j].kind == k,
                None => !has_node(self@.nodes, ni),
            },
    {
        match find_node(&self.nodes, ni) {
            Some(j) => Some(self.nodes[j].kind),
            None => None,
        }
    }

    /// Whether something waits in the buffer at timestamp `t`.
    pub fn has_entry(&self, t: i64) -> (r: bool)
        ensures
            r == self@.buffer.contains_key(t),
    {
        self.buffered_transactions.contains_key(&t)
    }

    /// Whether something other than a transaction waits at timestamp `t`, so
    /// that no transactional message can join the buffer there.
    pub fn slot_taken(&self, t: i64) -> (r: bool)
        ensures
            r == (self@.buffer.contains_key(t) && !(self@.buffer[t] is Transaction)),
    {
        match self.buffered_transactions.get(&t) {
            Some(BufferedTransaction::Transaction(..)) => false,
            Some(_) => true,
            None => false,
        }
    }

    /// Another domain announces timestamp `t`, which carries no data here;
    /// the buffer is then consumed as far as it can be.
    pub fn on_timestamp(&mut self, t: i64) -> (acks: Vec<i64>)
        requires
            well_formed(old(self)@),
            !old(self)@.buffer.contains_key(t),
        ensures
            well_formed(final(self)@),
            applied_with(
                DomainView { buffer: old(self)@.buffer.insert(t, BufferedTransaction::RemoteTransaction), ..old(self)@ },
                final(self)@,
                acks@,
            ),
    {
        self.buffered_transactions.insert(t, BufferedTransaction::RemoteTransaction);
        self.apply_transactions()
    }

    /// Places the start of a migration at `t` in the transaction timeline;
    /// it is acknowledged once every earlier timestamp has been applied.
    pub fn start_migration(&mut self, t: i64) -> (acks: Vec<i64>)
        requires
            well_formed(old(self)@),
            !old(self)@.buffer.contains_key(t),
        ensures
            well_formed(final(self)@),
            enqueued(old(self)@, t, BufferedTransaction::MigrationStart, acks@, final(self)@),
    {
        self.enqueue(t, BufferedTransaction::MigrationStart)
    }

    /// Places the end of a migration at `t` in the transaction timeline; when
    /// every earlier timestamp has been applied, it installs the new number
    /// of ingress nodes fed by each base table.
    pub fn complete_migration(&mut self, t: i64, ingress_from_base: HashMap<GraphIndex, usize>) -> (acks: Vec<i64>)
        requires
            well_formed(old(self)@),
            !old(self)@.buffer.contains_key(t),
        ensures
            well_formed(final(self)@),
            enqueued(old(self)@, t, BufferedTransaction::MigrationEnd(ingress_from_base), acks@, final(self)@),
    {
        self.enqueue(t, BufferedTransaction::MigrationEnd(ingress_from_base))
    }

    /// A live message: a streaming one goes through the graph at once, a
    /// transactional one to the buffer.
    pub fn handle_message(&mut self, m: Message) -> (acks: Vec<i64>)
        requires
            well_formed(old(self)@),
            m.ts is Some ==> fits_buffer(old(self)@, m),
        ensures
            well_formed(final(self)@),
            m.ts is None ==> acks@.len() == 0,
            m.ts is None ==> exists|out: Seq<(NodeAddress, Vec<Record>)>| #[trigger] dispatch_post(old(self)@, m, true, out, final(self)@, true),
            m.ts is Some ==> buffer_outcome(old(self)@, m, acks@, final(self)@),
    {
        match m.ts {
            None => {
                let _ = self.dispatch(m, true);
                Vec::new()
            },
            Some(_) => self.buffer_transaction(m),
        }
    }

    /// Marks `node` ready. If updates were held back for it during a replay,
    /// the hold ends and they are dispatched, in order.
    pub fn replay_done(&mut self, node: LocalNodeIndex)
        requires
            well_formed(old(self)@),
        ensures
            well_formed(final(self)@),
            cursor_target(old(self)@.cursor) != Some(node) ==> final(self)@ == (DomainView {
                not_ready: old(self)@.not_ready.remove(node),
                ..old(self)@
            }),
            cursor_target(old(self)@.cursor) == Some(node) ==> {
                let mid = DomainView { not_ready: old(self)@.not_ready.remove(node), cursor: None, ..old(self)@ };
                &&& final(self)@.cursor is None
                &&& run_frame(mid, final(self)@)
                &&& final(self)@.txns == old(self)@.txns
                &&& old(self)@.cursor.unwrap().1.len() == 0 ==> final(self)@ == mid
                &&& drained(mid, final(self)@, old(self)@.cursor.unwrap().1)
            },
    {
        self.not_ready.remove(&node);
        let cursor = self.replaying_to.take();
        match cursor {
            Some((target, held)) => {
                if target != node {
                    self.replaying_to = Some((target, held));
                    return;
                }
                let ghost mid = self@;
                let ghost all = held@;
                let mut pending = reversed(held);
                let ghost init = pending@;
                let ghost mut ps: Seq<int> = Seq::empty();
                proof {
                    lemma_frame_refl(mid);
                    lemma_wf_same(old(self)@, mid);
                }
                while pending.len() > 0
                    invariant
                        reverse_of(init, all),
                        pending@.len() <= init.len(),
                        pending@ == init.subrange(0, pending@.len() as int),
                        ps.len() == all.len() - pending@.len(),
                        dispatch_frame(mid, self@),
                        well_formed(self@),
                        mid.cursor is None,
                        all.len() == 0 ==> self@ == mid,
                        forall|k: int| 0 <= k < ps.len() ==> mid.visits.len() <= #[trigger] ps[k] < self@.visits.len()
                            && self@.visits[ps[k]].msg == all[k] && self@.visits[ps[k]].enable_output,
                        forall|k1: int, k2: int| 0 <= k1 < k2 < ps.len() ==> #[trigger] ps[k1] < #[trigger] ps[k2],
                    decreases pending.len(),
                {
                    let ghost k: int = ps.len() as int;
                    let ghost pl: int = pending@.len() as int;
                    proof {
                        assert(init[pl - 1] == all[all.len() - 1 - (pl - 1)]);
                    }
                    let m = pending.pop().unwrap();
                    let ghost before = self@;
                    let _ = self.dispatch(m, true);
                    proof {
                        assert(m == all[k]);
                        lemma_frame_trans(mid, before, self@);
                        ps = ps.push(self@.visits.len() - 1);
                        assert forall|q: int| 0 <= q < ps.len() implies mid.visits.len() <= #[trigger] ps[q] < self@.visits.len()
                            && self@.visits[ps[q]].msg == all[q] && self@.visits[ps[q]].enable_output by {
                            if q < k {
                                assert(self@.visits[ps[q]] == before.visits[ps[q]]);
                            }
                        }
                    }
                }
                proof {
                    assert(drained(mid, self@, all));
                }
            },
            None => {},
        }
    }

    /// Materializes node `ni` with an empty state indexed on column `col`.
    pub fn prepare_state(&mut self, ni: LocalNodeIndex, col: usize)
        requires
            well_formed(old(self)@),
        ensures
            well_formed(final(self)@),
            final(self)@ == (DomainView { states: final(self)@.states, ..old(self)@ }),
            state_installed(old(self)@.states, ni, StateView { pkey: Some(col), base: false, rows: Seq::empty() }, final(self)@.states),
    {
        let mut s = State::new();
        s.set_pkey(col);
        let ghost sv = s@;
        self.state.insert(ni, s);
        proof {
            assert(sv == (StateView { pkey: Some(col), base: false, rows: Seq::empty() })) by {
                assert(sv.rows =~= Seq::<Seq<i64>>::empty());
            }
            assert(self@.states.dom() =~= old(self)@.states.dom().insert(ni));
        }
    }

    /// Node `ni` is in place: it gets a state indexed on `index_on` if one is
    /// given (the state of a base table for a base node), a reader publishes
    /// what it holds, and the node is marked ready.
    pub fn ready(&mut self, ni: LocalNodeIndex, index_on: Option<usize>)
        requires
            well_formed(old(self)@),
            has_node(old(self)@.nodes, ni),
        ensures
            well_formed(final(self)@),
            has_node(old(self)@.nodes, ni) ==> {
                &&& !final(self)@.not_ready.contains(ni)
                &&& final(self)@.nodes == old(self)@.nodes
                &&& final(self)@.buffer == old(self)@.buffer
                &&& final(self)@.ts == old(self)@.ts
                &&& exists|j: int| 0 <= j < old(self)@.nodes.len() && old(self)@.nodes[j].addr.local == ni
                    && final(self)@.swaps == if old(self)@.nodes[j].kind == NodeKind::Reader {
                        old(self)@.swaps.push(ni)
                    } else {
                        old(self)@.swaps
                    }
                &&& cursor_target(old(self)@.cursor) == Some(ni) ==> final(self)@.cursor is None
                &&& cursor_target(old(self)@.cursor) != Some(ni) ==> final(self)@.cursor == old(self)@.cursor
                &&& index_on is None && cursor_target(old(self)@.cursor) != Some(ni) ==> final(self)@.states == old(self)@.states
                &&& index_on is Some && cursor_target(old(self)@.cursor) != Some(ni) ==> exists|j: int|
                    0 <= j < old(self)@.nodes.len() && old(self)@.nodes[j].addr.local == ni && state_installed(
                        old(self)@.states, ni,
                        StateView { pkey: index_on, base: old(self)@.nodes[j].kind == NodeKind::Base, rows: Seq::empty() },
                        final(self)@.states,
                    )
            },
    {
        let j = match find_node(&self.nodes, ni) {
            Some(j) => j,
            None => {
                return;
            },
        };
        let ghost v0 = self@;
        match index_on {
            Some(col) => {
                let mut s = if self.nodes[j].is_base() {
                    State::base()
                } else {
                    State::new()
                };
                s.set_pkey(col);
                let ghost sv = s@;
                self.state.insert(ni, s);
                proof {
                    assert(sv == (StateView { pkey: index_on, base: v0.nodes[j as int].kind == NodeKind::Base, rows: Seq::empty() })) by {
                        assert(sv.rows =~= Seq::<Seq<i64>>::empty());
                    }
                    assert(self@.states.dom() =~= v0.states.dom().insert(ni));
                }
            },
            None => {},
        }
        let ghost v1 = self@;
        // a reader that was replayed into exposes its new state
        match self.nodes[j].kind {
            NodeKind::Reader => {
                self.ops.swap_reader(&self.nodes[j]);
                proof {
                    self.swaps@ = self.swaps@.push(ni);
                }
            },
            _ => {},
        }
        proof {
            assert(self@ == DomainView { swaps: self@.swaps, ..v1 });
            assert(v1 == DomainView { states: v1.states, ..v0 });
        }
        self.replay_done(ni);
    }

    /// Adds node `n`, not yet ready, as a child of each of `parents`, which
    /// must already be in the domain.
    pub fn add_node(&mut self, n: Node, parents: Vec<LocalNodeIndex>)
        requires
            well_formed(old(self)@),
            forall|k: int| 0 <= k < parents@.len() ==> has_node(old(self)@.nodes, #[trigger] parents@[k]),
        ensures
            well_formed(final(self)@),
            final(self)@ == (DomainView {
                nodes: final(self)@.nodes,
                not_ready: old(self)@.not_ready.insert(n.addr.local),
                ..old(self)@
            }),
            node_added(old(self)@.nodes, n, parents@, final(self)@.nodes),
    {
        self.not_ready.insert(n.addr.local);
        let ghost orig = self.nodes@;
        let mut k: usize = 0;
        while k < parents.len()
            invariant
                k <= parents.len(),
                forall|q: int| 0 <= q < parents@.len() ==> has_node(orig, #[trigger] parents@[q]),
                self.nodes@.len() == orig.len(),
                forall|i: int| 0 <= i < orig.len() ==> {
                    &&& (#[trigger] self.nodes@[i]).addr == orig[i].addr
                    &&& self.nodes@[i].index == orig[i].index
                    &&& self.nodes@[i].kind == orig[i].kind
                    &&& self.nodes@[i].children@ == with_child(orig[i].children@, orig[i].addr.local, parents@.subrange(0, k as int), n.addr)
                },
                self@ == (DomainView { nodes: self@.nodes, not_ready: old(self)@.not_ready.insert(n.addr.local), ..old(self)@ }),
                unique_locals(orig),
                orig == old(self)@.nodes,
                well_formed(old(self)@),
            decreases parents.len() - k,
        {
            let p = parents[k];
            let j = match find_node(&self.nodes, p) {
                Some(j) => j,
                None => {
                    proof {
                        assert(has_node(orig, parents@[k as int]));
                        let w = choose|w: int| 0 <= w < orig.len() && orig[w].addr.local == p;
                        assert(self.nodes@[w].addr == orig[w].addr);
                    }
                    return;
                },
            };
            let ghost prev = self.nodes@;
            let mut node = self.nodes.remove(j);
            node.children.push(n.addr);
            self.nodes.insert(j, node);
            proof {
                assert forall|i: int| 0 <= i < orig.len() implies {
                    &&& (#[trigger] self.nodes@[i]).addr == orig[i].addr
                    &&& self.nodes@[i].index == orig[i].index
                    &&& self.nodes@[i].kind == orig[i].kind
                    &&& self.nodes@[i].children@ == with_child(orig[i].children@, orig[i].addr.local, parents@.subrange(0, k + 1), n.addr)
                } by {
                    assert(parents@.subrange(0, k + 1).drop_last() =~= parents@.subrange(0, k as int));
                    if i != j {
                        assert(self.nodes@[i] == prev[i]);
                        assert(orig[i].addr.local != p);
                    } else {
                        assert(self.nodes@[i].children@ == prev[i].children@.push(n.addr));
                    }
                }
            }
            k = k + 1;
        }
        proof {
            assert(parents@.subrange(0, parents@.len() as int) =~= parents@);
        }
        let ghost linked = self.nodes@;
        let ghost nn = n;
        let found = find_node(&self.nodes, n.addr.local);
        match found {
            Some(j) => {
                self.nodes.remove(j);
                self.nodes.insert(j, n);
                proof {
                    assert(self.nodes@ =~= linked.update(j as int, nn));
                    assert(orig[j as int].addr.local == nn.addr.local);
                }
            },
            None => {
                self.nodes.push(n);
                proof {
                    assert forall|i: int| 0 <= i < orig.len() implies orig[i].addr.local != nn.addr.local by {
                        assert(linked[i].addr == orig[i].addr);
                    }
                }
            },
        }
        proof {
            assert forall|i: int| 0 <= i < orig.len() implies if orig[i].addr.local == nn.addr.local {
                #[trigger] self.nodes@[i] == nn
            } else {
                &&& self.nodes@[i].addr == orig[i].addr
                &&& self.nodes@[i].index == orig[i].index
                &&& self.nodes@[i].kind == orig[i].kind
                &&& self.nodes@[i].children@ == with_child(orig[i].children@, orig[i].addr.local, parents@, nn.addr)
            } by {
                match found {
                    Some(j) => {
                        if i != j {
                            assert(linked[i].addr == orig[i].addr);
                            assert(orig[j as int].addr.local == nn.addr.local);
                        }
                    },
                    None => {
                        assert(linked[i].addr == orig[i].addr);
                    },
                }
            }
            if has_node(orig, nn.addr.local) {
                if found is None {
                    let w = choose|w: int| 0 <= w < orig.len() && orig[w].addr.local == nn.addr.local;
                    assert(linked[w].addr == orig[w].addr);
                }
            }
            if !has_node(orig, nn.addr.local) {
                if found is Some {
                    let j = found.unwrap() as int;
                    assert(linked[j].addr == orig[j].addr);
                }
            }
        }
        proof {
            assert(unique_locals(self.nodes@)) by {
                assert forall|a: int, b: int| 0 <= a < self.nodes@.len() && 0 <= b < self.nodes@.len()
                    && #[trigger] self.nodes@[a].addr.local == #[trigger] self.nodes@[b].addr.local implies a == b by {
                    if a < orig.len() && self.nodes@[a] != n {
                        assert(self.nodes@[a].addr == linked[a].addr);
                    }
                    if b < orig.len() && self.nodes@[b] != n {
                        assert(self.nodes@[b].addr == linked[b].addr);
                    }
                }
            }
        }
    }

    /// The base table that a transaction entering at ingress `to` started
    /// at: the graph index of the ingress node's first child.
    pub fn base_of(&self, to: NodeAddress) -> (r: Option<GraphIndex>)
        requires
            well_formed(self@),
        ensures
            match r {
                Some(g) => exists|i: int, j: int|
                    0 <= i < self@.nodes.len() && 0 <= j < self@.nodes.len()
                        && self@.nodes[i].addr.local == to.local
                        && self@.nodes[i].children@.len() > 0
                        && self@.nodes[j].addr.local == self@.nodes[i].children@[0].local
                        && self@.nodes[j].index == g,
                None => forall|i: int, j: int|
                    0 <= i < self@.nodes.len() && 0 <= j < self@.nodes.len()
                        && self@.nodes[i].addr.local == to.local
                        && self@.nodes[i].children@.len() > 0
                        ==> self@.nodes[j].addr.local != self@.nodes[i].children@[0].local,
            },
    {
        let i = match find_node(&self.nodes, to.local) {
            Some(i) => i,
            None => {
                return None;
            },
        };
        if self.nodes[i].children.len() == 0 {
            return None;
        }
        let c = self.nodes[i].children[0].local;
        match find_node(&self.nodes, c) {
            Some(j) => Some(self.nodes[j].index),
            None => None,
        }
    }

    /// Runs `m` through the nodes `path[start..]` in turn, each handing what
    /// it makes to the next, with output held back; `None` where a node hands
    /// nothing on, or is not in the domain.
    fn run_chain(&mut self, path: &Vec<NodeAddress>, start: usize, m: Message) -> (r: Option<Message>)
        requires
            start < path@.len(),
            well_formed(old(self)@),
        ensures
            well_formed(final(self)@),
            chain_post(old(self)@, final(self)@, path@, start as int, m, r),
    {
        let ghost m0 = m;
        let ghost c0 = self@.calls.len();
        let mut cur = m;
        let mut i: usize = start;
        proof {
            assert(self@.calls.is_prefix_of(self@.calls));
            assert(self@.calls.subrange(c0 as int, c0 as int) =~= Seq::<Call>::empty());
        }
        while i < path.len()
            invariant
                start <= i <= path@.len(),
                c0 == old(self)@.calls.len(),
                m0 == m,
                self@ == (DomainView { states: self@.states, calls: self@.calls, ..old(self)@ }),
                old(self)@.calls.is_prefix_of(self@.calls),
                self@.calls.len() == c0 + (i - start),
                chain_calls(self@.calls.subrange(c0 as int, self@.calls.len() as int), path@, start as int, m0),
                forall|k: int| c0 <= k < self@.calls.len() ==> (#[trigger] self@.calls[k]).result is Some,
                i == start ==> cur == m0,
                i > start ==> carries(cur, path@[i - 1], if i < path@.len() { path@[i as int] } else { path@[i - 1] },
                    (records_view(self@.calls.last().result.unwrap().data@), None)),
                well_formed(old(self)@),
                start < path@.len(),
            decreases path.len() - i,
        {
            let at = path[i];
            let j = match find_node(&self.nodes, at.local) {
                Some(j) => j,
                None => {
                    proof {
                        assert(!has_node(old(self)@.nodes, path@[i as int].local));
                        assert(self@.calls.subrange(c0 as int, self@.calls.len() as int).len() == i - start);
                        self.chains@ = self.chains@.push(ChainRun { input: m0, output: None });
                        lemma_wf_same(old(self)@, self@);
                        let a = old(self)@;
                        let b = self@;
                        let c = b.calls.subrange(a.calls.len() as int, b.calls.len() as int);
                        assert(b == DomainView { states: b.states, calls: b.calls, chains: a.chains.push(ChainRun { input: m0, output: None }), ..a });
                        assert(chain_calls(c, path@, start as int, m0));
                        assert(start + c.len() < path@.len());
                        assert(!has_node(a.nodes, path@[start + c.len()].local));

                    }
                    return None;
                },
            };
            let ghost cg = cur;
            let ghost before = self@;
            let u = self.ops.process(&self.nodes[j], cur, &mut self.state, false);
            proof {
                self.calls@ = self.calls@.push(Call { node: at.local, msg: cg, enable_output: false, result: u });
                lemma_prefix_push(before.calls, self@.calls.last());
                lemma_prefix_trans(old(self)@.calls, before.calls, self@.calls);
                let c = self@.calls.subrange(c0 as int, self@.calls.len() as int);
                let cb = before.calls.subrange(c0 as int, before.calls.len() as int);
                assert(c =~= cb.push(self@.calls.last()));
                assert forall|k: int| 0 < k < c.len() implies carries(#[trigger] c[k].msg, path@[start + k - 1], path@[start + k],
                    (records_view(c[k - 1].result.unwrap().data@), None)) by {
                    if k < cb.len() {
                        assert(c[k] == cb[k]);
                        assert(c[k - 1] == cb[k - 1]);
                    } else {
                        assert(c[k - 1] == before.calls.last());
                    }
                }
                assert(chain_calls(c, path@, start as int, m0));
            }
            let data = match u {
                Some(u) => u.data,
                None => {
                    proof {
                        let c = self@.calls.subrange(c0 as int, self@.calls.len() as int);
                        assert(c.last() == self@.calls.last());
                        self.chains@ = self.chains@.push(ChainRun { input: m0, output: None });
                        lemma_wf_same(old(self)@, self@);
                    }
                    return None;
                },
            };
            // after the last node the message stays addressed to it; the
            // receiving domain readdresses it
            let next = if i + 1 < path.len() {
                path[i + 1]
            } else {
                at
            };
            cur = Message { from: at, to: next, data, ts: None };
            i = i + 1;
        }
        proof {
            let c = self@.calls.subrange(c0 as int, self@.calls.len() as int);
            assert(c.last() == self@.calls.last());
            self.chains@ = self.chains@.push(ChainRun { input: m0, output: Some(cur) });
            lemma_wf_same(old(self)@, self@);
        }
        Some(cur)
    }

    /// Replays the state of `path[0]`, which must be materialized, along
    /// `path`. A single-node path sends the whole snapshot, which needs a
    /// destination. Otherwise the snapshot's rows go in chunks through the
    /// rest of the path; with a destination (`has_tx`) each chunk that comes
    /// out of it is returned to be sent on, without one the last node is the
    /// sink: updates for it are held back during the replay, and it is made
    /// ready at the end.
    pub fn replay(&mut self, path: Vec<NodeAddress>, has_tx: bool) -> (r: Vec<ReplayBatch>)
        requires
            well_formed(old(self)@),
            path@.len() > 0,
            old(self)@.states.contains_key(path@[0].local),
            path@.len() == 1 ==> has_tx,
            forall|i: int| 1 <= i < path@.len() ==> has_node(old(self)@.nodes, #[trigger] path@[i].local),
        ensures
            well_formed(final(self)@),
            path@.len() == 1 ==> {
                &&& r@.len() == 1
                &&& r@[0] matches ReplayBatch::Full(a, s) && a == path@[0] && s@ == old(self)@.states[path@[0].local]@
                &&& final(self)@ == old(self)@
            },
            path@.len() > 1 ==> {
                &&& final(self)@.nodes == old(self)@.nodes
                &&& final(self)@.buffer == old(self)@.buffer
                &&& final(self)@.ingress == old(self)@.ingress
                &&& final(self)@.ts == old(self)@.ts
                &&& has_tx ==> final(self)@.not_ready == old(self)@.not_ready
                &&& has_tx ==> final(self)@.cursor == old(self)@.cursor
                &&& has_tx ==> forall|i: int| 0 <= i < r@.len() ==> chunk_out_of(#[trigger] r@[i], path@.last())
                &&& !has_tx ==> r@.len() == 0
                &&& !has_tx ==> final(self)@.not_ready == old(self)@.not_ready.remove(path@.last().local)
                &&& !has_tx ==> final(self)@.cursor is None
                &&& exists|cs: Seq<Vec<Record>>| #[trigger] chunked(cs, old(self)@.states[path@[0].local]@.rows)
                    && ran_all(new_chains(old(self)@, final(self)@), chunk_messages(cs, path@[0], path@[1]))
                &&& has_tx ==> r@ == partials_of(new_chains(old(self)@, final(self)@))
            },
    {
        if path.len() == 0 {
            return Vec::new();
        }
        let n0 = path[0];
        let snapshot = match self.state.get(&n0.local) {
            Some(s) => s.snapshot(),
            None => {
                return Vec::new();
            },
        };
        if path.len() == 1 {
            if !has_tx {
                // a replay of one node has no purpose without a destination
                return Vec::new();
            }
            let mut v: Vec<ReplayBatch> = Vec::new();
            v.push(ReplayBatch::Full(n0, snapshot));
            return v;
        }
        let last = path[path.len() - 1];
        if !has_tx {
            // the sink is in this domain: updates that reach it during the
            // replay follow the snapshot, so they wait until it is done
            self.replaying_to = Some((last.local, Vec::new()));
        }
        let ghost start = self@;
        proof {
            assert(start.nodes == old(self)@.nodes);
            assert(start.released == old(self)@.released);
            assert(start.ts == old(self)@.ts);
        }
        let ghost snap = snapshot@.rows;
        let rows = snapshot.into_rows();
        let ghost rs = rows@;
        let chunks = chunk_records(rows);
        let ghost cs = chunks@;
        proof {
            assert(as_positives(rs) =~= snap.map_values(|x: Seq<i64>| RecordView::Positive(x)));
            assert(chunked(cs, snap));
        }
        let messages = wrap_chunks(chunks, n0, path[1]);
        let ghost msgs = messages@;
        proof {
            assert(msgs =~= chunk_messages(cs, n0, path@[1]));
        }
        let mut pending = reversed(messages);
        let ghost init = pending@;
        let mut batches: Vec<ReplayBatch> = Vec::new();
        proof {
            assert(new_chains(start, self@) =~= Seq::<ChainRun>::empty());
            assert(batches@ =~= partials_of(new_chains(start, self@)));
        }
        while pending.len() > 0
            invariant
                self@ == (DomainView { states: self@.states, calls: self@.calls, chains: self@.chains, ..start }),
                well_formed(self@),
                start.chains.is_prefix_of(self@.chains),
                reverse_of(init, msgs),
                pending@.len() <= init.len(),
                pending@ == init.subrange(0, pending@.len() as int),
                ran_all(new_chains(start, self@), msgs.subrange(0, msgs.len() - pending@.len())),
                path@.len() > 1,
                has_tx ==> batches@ == partials_of(new_chains(start, self@)),
                !has_tx ==> batches@.len() == 0,
                forall|i: int| 0 <= i < batches@.len() ==> chunk_out_of(#[trigger] batches@[i], path@.last()),
            decreases pending.len(),
        {
            let ghost pl: int = pending@.len() as int;
            let ghost k: int = msgs.len() - pl;
            proof {
                assert(init[pl - 1] == msgs[msgs.len() - 1 - (pl - 1)]);
            }
            let m = pending.pop().unwrap();
            let ghost before = self@;
            let ghost prev = batches@;
            let r = self.run_chain(&path, 1, m);
            let ghost rr = r;
            match r {
                Some(out) => {
                    if has_tx {
                        batches.push(ReplayBatch::Partial(out));
                    }
                },
                None => {},
            }
            proof {
                let nb = new_chains(start, before);
                let nn = new_chains(start, self@);
                assert(nn =~= nb.push(ChainRun { input: m, output: rr }));
                assert(nn.drop_last() =~= nb);
                assert(msgs.subrange(0, k + 1) =~= msgs.subrange(0, k).push(msgs[k]));
                lemma_prefix_push(before.chains, self@.chains.last());
                lemma_prefix_trans(start.chains, before.chains, self@.chains);
                assert forall|i: int| 0 <= i < batches@.len() implies chunk_out_of(#[trigger] batches@[i], path@.last()) by {
                    if i < prev.len() {
                        assert(batches@[i] == prev[i]);
                    }
                }
                if has_tx {
                    assert(batches@ =~= partials_of(nn));
                }
            }
        }
        proof {
            assert(msgs.subrange(0, msgs.len() as int) =~= msgs);
        }
        let ghost fin = self@;
        if !has_tx {
            self.replay_done(last.local);
        }
        proof {
            assert(new_chains(old(self)@, self@) == new_chains(start, fin));
        }
        batches
    }

    /// Prepares the receiving end of a replay along `path`, the nodes of
    /// this domain it goes through. A single node must be an ingress node
    /// whose state is rebuilt here, with nowhere to send on to. On a longer
    /// path without a destination the last node is the sink, and updates for
    /// it are held back from now on.
    pub fn replay_through_start(&mut self, path: &Vec<NodeAddress>, has_tx: bool)
        requires
            well_formed(old(self)@),
            path@.len() > 0,
            path@.len() == 1 ==> !has_tx && exists|j: int| 0 <= j < old(self)@.nodes.len()
                && old(self)@.nodes[j].addr.local == path@[0].local && old(self)@.nodes[j].kind == NodeKind::Ingress,
        ensures
            well_formed(final(self)@),
            path@.len() == 1 || has_tx ==> final(self)@ == old(self)@,
            path@.len() > 1 && !has_tx ==> final(self)@ == (DomainView {
                cursor: Some((path@.last().local, Seq::empty())),
                ..old(self)@
            }),
    {
        if path.len() == 0 {
            return;
        }
        if path.len() == 1 {
            let j = match find_node(&self.nodes, path[0].local) {
                Some(j) => j,
                None => {
                    return;
                },
            };
            proof {
                let c = choose|c: int| 0 <= c < old(self)@.nodes.len() && old(self)@.nodes[c].addr.local == path@[0].local;
                assert(c == j);
            }
            if !self.nodes[j].is_ingress() {
                return;
            }
            if has_tx {
                return;
            }
            return;
        }
        if !has_tx {
            let last = path[path.len() - 1];
            self.replaying_to = Some((last.local, Vec::new()));
            proof {
                assert(self@.cursor.unwrap().1 =~= Seq::<Message>::empty());
            }
        }
    }

    /// Takes in one batch at the receiving end of a replay along `path`.
    ///
    /// On a single-node path the batch goes straight into the node's state,
    /// which must exist: a full snapshot, indexed on the same column,
    /// replaces it, and ends the replay; a chunk is applied record by record.
    /// On a longer path the batch's messages go through the path in turn,
    /// and what comes out of it is returned to be sent on if there is a
    /// destination.
    pub fn replay_through_batch(&mut self, path: &Vec<NodeAddress>, batch: ReplayBatch, has_tx: bool) -> (r: ReplayStep)
        requires
            well_formed(old(self)@),
            path@.len() > 0,
            path@.len() == 1 ==> old(self)@.states.contains_key(path@[0].local),
            path@.len() == 1 ==> (batch matches ReplayBatch::Full(_, s) ==> s@.pkey == old(self)@.states[path@[0].local]@.pkey),
        ensures
            well_formed(final(self)@),
            final(self)@ == (DomainView { states: final(self)@.states, calls: final(self)@.calls, chains: final(self)@.chains, ..old(self)@ }),
            path@.len() == 1 ==> match batch {
                ReplayBatch::Full(_, s) => {
                    &&& r is Done
                    &&& final(self)@.states == old(self)@.states.insert(path@[0].local, s)
                },
                ReplayBatch::Partial(m) => {
                    &&& r matches ReplayStep::Continue(v) && v@.len() == 0
                    &&& state_installed(old(self)@.states, path@[0].local, StateView {
                        rows: apply_records(old(self)@.states[path@[0].local]@.rows, records_view(m.data@)),
                        ..old(self)@.states[path@[0].local]@
                    }, final(self)@.states)
                },
            },
            path@.len() > 1 ==> (r matches ReplayStep::Continue(v) && (!has_tx ==> v@.len() == 0)
                && (has_tx ==> v@ == outputs_of(new_chains(old(self)@, final(self)@)))
                && forall|i: int| 0 <= i < v@.len() ==> left_from(#[trigger] v@[i], path@.last())),
            path@.len() > 1 ==> exists|ms: Seq<Message>| #[trigger] batch_expansion(batch, path@[0], ms)
                && ran_all(new_chains(old(self)@, final(self)@), ms),
    {
        let n0 = path[0];
        if path.len() == 1 {
            let existing = match self.state.get(&n0.local) {
                Some(s) => s.get_pkey(),
                None => {
                    return ReplayStep::Done;
                },
            };
            match batch {
                ReplayBatch::Full(_, s) => {
                    if s.get_pkey() != existing {
                        return ReplayStep::Done;
                    }
                    self.state.insert(n0.local, s);
                    return ReplayStep::Done;
                },
                ReplayBatch::Partial(m) => {
                    let mut st = match self.state.remove(&n0.local) {
                        Some(st) => st,
                        None => {
                            return ReplayStep::Done;
                        },
                    };
                    st.apply(m.data);
                    self.state.insert(n0.local, st);
                    proof {
                        assert(self@.states.dom() =~= old(self)@.states.dom().insert(n0.local));
                    }
                    return ReplayStep::Continue(Vec::new());
                },
            }
        }
        let messages = batch_messages(batch, n0);
        let ghost msgs = messages@;
        let mut pending = reversed(messages);
        let ghost init = pending@;
        let mut forward: Vec<Message> = Vec::new();
        proof {
            assert(new_chains(old(self)@, self@) =~= Seq::<ChainRun>::empty());
            assert(forward@ =~= outputs_of(new_chains(old(self)@, self@)));
            assert(old(self)@.calls.is_prefix_of(self@.calls));
        }
        while pending.len() > 0
            invariant
                self@ == (DomainView { states: self@.states, calls: self@.calls, chains: self@.chains, ..old(self)@ }),
                well_formed(self@),
                old(self)@.chains.is_prefix_of(self@.chains),
                reverse_of(init, msgs),
                pending@.len() <= init.len(),
                pending@ == init.subrange(0, pending@.len() as int),
                ran_all(new_chains(old(self)@, self@), msgs.subrange(0, msgs.len() - pending@.len())),
                path@.len() > 1,
                has_tx ==> forward@ == outputs_of(new_chains(old(self)@, self@)),
                !has_tx ==> forward@.len() == 0,
                forall|i: int| 0 <= i < forward@.len() ==> left_from(#[trigger] forward@[i], path@.last()),
            decreases pending.len(),
        {
            let ghost pl: int = pending@.len() as int;
            let ghost k: int = msgs.len() - pl;
            proof {
                assert(init[pl - 1] == msgs[msgs.len() - 1 - (pl - 1)]);
            }
            let m = pending.pop().unwrap();
            let ghost before = self@;
            let ghost prev = forward@;
            let r = self.run_chain(path, 0, m);
            let ghost rr = r;
            match r {
                Some(out) => {
                    if has_tx {
                        forward.push(out);
                    }
                },
                None => {},
            }
            proof {
                let nb = new_chains(old(self)@, before);
                let nn = new_chains(old(self)@, self@);
                assert(nn =~= nb.push(ChainRun { input: m, output: rr }));
                assert(nn.drop_last() =~= nb);
                assert(msgs.subrange(0, k + 1) =~= msgs.subrange(0, k).push(msgs[k]));
                lemma_prefix_push(before.chains, self@.chains.last());
                lemma_prefix_trans(old(self)@.chains, before.chains, self@.chains);
                assert forall|i: int| 0 <= i < forward@.len() implies left_from(#[trigger] forward@[i], path@.last()) by {
                    if i < prev.len() {
                        assert(forward@[i] == prev[i]);
                    }
                }
                if has_tx {
                    assert(forward@ =~= outputs_of(nn));
                }
            }
        }
        proof {
            assert(msgs.subrange(0, msgs.len() as int) =~= msgs);
        }
        ReplayStep::Continue(forward)
    }

    /// Ends the receiving end of a replay along `path`: the node whose state
    /// was rebuilt, if it is here, is made ready.
    pub fn replay_through_finish(&mut self, path: &Vec<NodeAddress>, has_tx: bool)
        requires
            well_formed(old(self)@),
        ensures
            well_formed(final(self)@),
            path@.len() == 1 ==> final(self)@.not_ready == old(self)@.not_ready.remove(path@[0].local),
            path@.len() > 1 && !has_tx ==> final(self)@.not_ready == old(self)@.not_ready.remove(path@.last().local)
                && (cursor_target(old(self)@.cursor) == Some(path@.last().local) ==> final(self)@.cursor is None),
            (path@.len() == 0 || (path@.len() > 1 && has_tx)) ==> final(self)@ == old(self)@,
            path@.len() > 1 && !has_tx && cursor_target(old(self)@.cursor) == Some(path@.last().local) ==> drained(
                DomainView { not_ready: old(self)@.not_ready.remove(path@.last().local), cursor: None, ..old(self)@ },
                final(self)@,
                old(self)@.cursor.unwrap().1,
            ),
    {
        if path.len() == 1 {
            self.replay_done(path[0].local);
        } else if path.len() > 1 && !has_tx {
            self.replay_done(path[path.len() - 1].local);
        }
    }

    /// The operator implementations.
    pub closed spec fn spec_ops(&self) -> O {
        self.ops
    }

    /// The operator implementations.
    pub fn operators(&self) -> (r: &O)
        ensures
            *r == self.spec_ops(),
    {
        &self.ops
    }

    /// The materialized state of node `ni`, if it has one.
    pub fn state_of(&self, ni: LocalNodeIndex) -> (r: Option<&State>)
        ensures
            match r {
                Some(s) => self@.states.contains_key(ni) && *s == self@.states[ni],
                None => !self@.states.contains_key(ni),
            },
    {
        self.state.get(&ni)
    }

    /// The number of nodes.
    pub fn node_count(&self) -> (r: usize)
        ensures
            r == self@.nodes.len(),
    {
        self.nodes.len()
    }

    /// The time up to which every transaction has been applied.
    pub fn ts(&self) -> (r: i64)
        ensures
            r == self@.ts,
    {
        self.ts
    }

    /// Whether node `ni` still waits to be made ready.
    pub fn is_not_ready(&self, ni: LocalNodeIndex) -> (r: bool)
        ensures
            r == self@.not_ready.contains(ni),
    {
        self.not_ready.contains(&ni)
    }

    /// The number of updates held back for the node being replayed into.
    pub fn held_back(&self) -> (r: Option<usize>)
        ensures
            match self@.cursor {
                Some((_, b)) => r == Some(b.len() as usize),
                None => r is None,
            },
    {
        match &self.replaying_to {
            Some((_, b)) => Some(b.len()),
            None => None,
        }
    }

    /// Applies one transaction: its messages go through the graph in order
    /// with the output nodes held back, then every ready output node gets one
    /// message, from and to itself, with all that reached it (possibly
    /// nothing) at the transaction's timestamp.
    pub fn transactional_dispatch(&mut self, messages: Vec<Message>)
        requires
            messages@.len() > 0,
            well_formed(old(self)@),
        ensures
            well_formed(final(self)@),
            run_frame(old(self)@, final(self)@),
            final(self)@.txns == old(self)@.txns.push(messages@),
            exists|mid: DomainView, ps: Seq<int>, outs: Seq<Seq<(NodeAddress, Vec<Record>)>>|
                #[trigger] txn_witness(old(self)@, mid, final(self)@, messages@, ps, outs),
    {
        let ghost msgs = messages@;
        let ts = messages[0].ts;
        proof {
            self.txns@ = self.txns@.push(msgs);
            lemma_prefix_push(old(self)@.txns, msgs);
            lemma_frame_refl(old(self)@);
            lemma_wf_same(old(self)@, self@);
        }
        let ghost start = self@;
        // popping from the reversed list takes the messages in arrival order
        let mut pending = reversed(messages);
        let ghost init = pending@;
        let mut outs: Vec<(NodeAddress, Vec<Record>)> = Vec::new();
        let ghost mut ps: Seq<int> = Seq::empty();
        let ghost mut pieces: Seq<Seq<(NodeAddress, Vec<Record>)>> = Seq::empty();
        while pending.len() > 0
            invariant
                reverse_of(init, msgs),
                pending@.len() <= init.len(),
                pending@ == init.subrange(0, pending@.len() as int),
                ps.len() == msgs.len() - pending@.len(),
                pieces.len() == ps.len(),
                outs@ == joined_out(pieces),
                run_frame(old(self)@, start),
                start.txns == old(self)@.txns.push(msgs),
                run_frame(start, self@),
                well_formed(self@),
                forall|k: int| 0 <= k < ps.len() ==> start.visits.len() <= #[trigger] ps[k] < self@.visits.len()
                    && self@.visits[ps[k]] == (Visit { msg: msgs[k], enable_output: false, out: pieces[k] }),
                forall|k1: int, k2: int| 0 <= k1 < k2 < ps.len() ==> #[trigger] ps[k1] < #[trigger] ps[k2],
                self@.txns == start.txns,
            decreases pending.len(),
        {
            let ghost k: int = ps.len() as int;
            let ghost pl: int = pending@.len() as int;
            proof {
                assert(init[pl - 1] == msgs[msgs.len() - 1 - (pl - 1)]);
            }
            let m = pending.pop().unwrap();
            let ghost before = self@;
            let ghost prev = outs@;
            let got = self.dispatch(m, false);
            let ghost added = got@;
            let mut got = got;
            outs.append(&mut got);
            proof {
                assert(m == msgs[k]);
                lemma_run_trans(start, before, self@);
                let old_pieces = pieces;
                ps = ps.push(self@.visits.len() - 1);
                pieces = pieces.push(added);
                assert(pieces.drop_last() =~= old_pieces);
                assert(outs@ =~= prev + added);
                assert forall|q: int| 0 <= q < ps.len() implies start.visits.len() <= #[trigger] ps[q] < self@.visits.len()
                    && self@.visits[ps[q]] == (Visit { msg: msgs[q], enable_output: false, out: pieces[q] }) by {
                    if q < k {
                        assert(self@.visits[ps[q]] == before.visits[ps[q]]);
                    }
                }
            }
        }
        let ghost mid = self@;
        let ghost batches = outs@;
        let mut i: usize = 0;
        proof {
            assert(mid.calls =~= mid.calls + Seq::<Call>::empty());
            lemma_frame_refl(mid);
            lemma_run_trans(old(self)@, start, mid);
        }
        while i < self.nodes.len()
            invariant
                run_frame(old(self)@, mid),
                run_frame(mid, self@),
                well_formed(self@),
                i <= self@.nodes.len(),
                self@.nodes == mid.nodes,
                self@.not_ready == mid.not_ready,
                self@.txns == mid.txns,
                batches == outs@,
                self@.calls.len() == mid.calls.len() + ready_output_addrs(mid.nodes.subrange(0, i as int), mid.not_ready).len(),
                forall|q: int| 0 <= q < ready_output_addrs(mid.nodes.subrange(0, i as int), mid.not_ready).len()
                    ==> output_fed(#[trigger] self@.calls[mid.calls.len() + q], ready_output_addrs(mid.nodes.subrange(0, i as int), mid.not_ready)[q], batches, ts),
            decreases self.nodes.len() - i,
        {
            proof {
                assert(mid.nodes.subrange(0, i + 1).drop_last() =~= mid.nodes.subrange(0, i as int));
                assert(mid.nodes.subrange(0, i + 1).last() == mid.nodes[i as int]);
            }
            let ghost before = self@;
            let ghost ro = ready_output_addrs(mid.nodes.subrange(0, i as int), mid.not_ready);
            if self.nodes[i].is_output() && !self.not_ready.contains(&self.nodes[i].addr.local) {
                let addr = self.nodes[i].addr;
                let data = collect_for(&outs, addr.local);
                // the message comes from the output node itself: its operator
                // does not look at the sender
                let m = Message { from: addr, to: addr, data, ts };
                let ghost mg = m;
                proof {
                    self.dispatched@ = self.dispatched@.push(addr.local);
                    lemma_prefix_push(before.dispatched, addr.local);
                }
                let r = self.ops.process(&self.nodes[i], m, &mut self.state, true);
                proof {
                    self.calls@ = self.calls@.push(Call { node: addr.local, msg: mg, enable_output: true, result: r });
                    lemma_prefix_push(before.calls, self@.calls.last());
                    assert(before.visits.is_prefix_of(self@.visits));
                    assert(before.txns.is_prefix_of(self@.txns));
                    if before.cursor is Some {
                        assert(before.cursor.unwrap().1.is_prefix_of(self@.cursor.unwrap().1));
                    }
                    assert(run_frame(before, self@));
                    lemma_run_trans(mid, before, self@);
                    lemma_wf_same(before, self@);
                    let ro2 = ready_output_addrs(mid.nodes.subrange(0, i + 1), mid.not_ready);
                    assert(ro2 == ro.push(addr));
                    assert forall|q: int| 0 <= q < ro2.len() implies output_fed(#[trigger] self@.calls[mid.calls.len() + q], ro2[q], batches, ts) by {
                        if q < ro.len() {
                            assert(self@.calls[mid.calls.len() + q] == before.calls[mid.calls.len() + q]);
                        }
                    }
                }
            }
            i = i + 1;
        }
        proof {
            assert(mid.nodes.subrange(0, mid.nodes.len() as int) =~= mid.nodes);
            lemma_run_trans(old(self)@, mid, self@);
            assert(mid.nodes == old(self)@.nodes);
            assert(mid.not_ready == old(self)@.not_ready);
            assert(batches == joined_out(pieces));
            assert(msgs[0].ts == ts);
            assert(txn_witness(old(self)@, mid, self@, msgs, ps, pieces));
        }
    }

    /// Consumes the buffer entries from the next timestamp on, as long as
    /// they are complete; returns the timestamps at which a migration start
    /// was reached, to be acknowledged.
    #[verifier::rlimit(100)]
    #[verifier::spinoff_prover]
    fn apply_transactions(&mut self) -> (acks: Vec<i64>)
        requires
            well_formed(old(self)@),
        ensures
            well_formed(final(self)@),
            applied_with(old(self)@, final(self)@, acks@),
    {
        let mut acks: Vec<i64> = Vec::new();
        proof {
            assert(stamps_between(self@.ts, self@.ts) =~= Set::<i64>::empty());
            assert(self@.buffer.remove_keys(stamps_between(self@.ts, self@.ts)) =~= self@.buffer);
            assert(self@.released.is_prefix_of(self@.released));
            assert(self@.dispatched.is_prefix_of(self@.dispatched));
            assert(new_released(old(self)@, self@) =~= Seq::<(int, Released)>::empty());
            assert(self@.txns =~= self@.txns + Seq::<Seq<Message>>::empty());
            assert(acks@.map_values(|t: i64| t as int) =~= Seq::<int>::empty());
        }
        loop
            invariant
                well_formed(self@),
                well_formed(old(self)@),
                progress(old(self)@, self@),
                acks@.map_values(|t: i64| t as int) == starts_of(new_released(old(self)@, self@)),
            ensures
                well_formed(self@),
                applied(old(self)@, self@),
                acks@.map_values(|t: i64| t as int) == starts_of(new_released(old(self)@, self@)),
            decreases i64::MAX - self.ts,
        {
            if self.ts == i64::MAX {
                break;
            }
            let next = self.ts + 1;
            let ready = match self.buffered_transactions.get(&next) {
                None => false,
                Some(BufferedTransaction::Transaction(base, msgs)) => match self.ingress_from_base.get(base) {
                    Some(c) => msgs.len() >= *c,
                    None => false,
                },
                Some(_) => true,
            };
            if !ready {
                break;
            }
            let ghost before = self@;
            let ghost prev_acks = acks@;
            let ghost entry = self@.buffer[next];
            proof {
                assert(!stamps_between(old(self)@.ts, before.ts).contains(next));
                assert(entry == old(self)@.buffer[next]);
            }
            let e = self.buffered_transactions.remove(&next);
            let ghost mut kind = Released::Remote;
            match e {
                Some(BufferedTransaction::Transaction(base, msgs)) => {
                    proof {
                        kind = Released::Transaction { base, messages: msgs@, required: self.ingress_from_base@[base] as nat };
                    }
                    if msgs.len() > 0 {
                        self.transactional_dispatch(msgs);
                    }
                },
                Some(BufferedTransaction::MigrationStart) => {
                    proof {
                        kind = Released::MigrationStart;
                    }
                    acks.push(next);
                },
                Some(BufferedTransaction::MigrationEnd(counts)) => {
                    proof {
                        kind = Released::MigrationEnd { counts: counts@ };
                    }
                    self.ingress_from_base = counts;
                },
                _ => {},
            }
            self.ts = next;
            proof {
                self.released@ = self.released@.push((next as int, kind));
                let a = old(self)@;
                let b = self@;
                let nb = new_released(a, before);
                let nn = new_released(a, b);
                assert(nn =~= nb.push((next as int, kind)));
                assert(nn.drop_last() =~= nb);
                assert(b.buffer =~= a.buffer.remove_keys(stamps_between(a.ts, b.ts)));
                assert forall|i: int| 0 <= i < b.released.len() implies (#[trigger] b.released[i]).0 == b.ts - b.released.len() + 1 + i by {
                    if i < before.released.len() {
                        assert(b.released[i] == before.released[i]);
                    }
                }
                lemma_prefix_push(before.released, (next as int, kind));
                lemma_prefix_trans(a.released, before.released, b.released);
                lemma_prefix_trans(a.dispatched, before.dispatched, b.dispatched);
                assert forall|i: int| a.dispatched.len() <= i < b.dispatched.len()
                    implies !a.not_ready.contains(#[trigger] b.dispatched[i]) by {
                    if i < before.dispatched.len() {
                        assert(b.dispatched[i] == before.dispatched[i]);
                    }
                }
                assert forall|i: int| 0 <= i < nn.len() implies (#[trigger] nn[i]).0 == a.ts + 1 + i
                    && entry_released(a.buffer[(a.ts + 1 + i) as i64], nn[i].1)
                    && release_ok(ingress_after(a.ingress, nn.subrange(0, i)), nn[i].1) by {
                    if i < nb.len() {
                        assert(nn[i] == nb[i]);
                        assert(nn.subrange(0, i) =~= nb.subrange(0, i));
                    } else {
                        assert(nn.subrange(0, i) =~= nb);
                        assert((a.ts + 1 + i) as i64 == next);
                    }
                }
                assert(b.txns =~= a.txns + txns_of(nn));
                assert(acks@.map_values(|t: i64| t as int) =~= starts_of(nn)) by {
                    if kind is MigrationStart {
                        assert(acks@ =~= prev_acks.push(next));
                        assert(acks@.map_values(|t: i64| t as int) =~= prev_acks.map_values(|t: i64| t as int).push(next as int));
                    } else {
                        assert(acks@ == prev_acks);
                    }
                }
            }
        }
        acks
    }

    /// Pushes `m` through the local graph, depth first from `m.to`.
    ///
    /// A message for the node being replayed into is held back; one for a
    /// node that is not ready is dropped. Otherwise the node's operator runs
    /// on `m`, and what it hands on (for a transactional message, at least an
    /// empty batch at its timestamp) goes to each child in turn. With
    /// `enable_output` false, a batch for an output child is returned instead
    /// of being processed there.
    pub fn dispatch(&mut self, m: Message, enable_output: bool) -> (out: Vec<(NodeAddress, Vec<Record>)>)
        requires
            well_formed(old(self)@),
        ensures
            well_formed(final(self)@),
            dispatch_post(old(self)@, m, enable_output, out@, final(self)@, true),
    {
        let fuel = self.nodes.len();
        proof {
            if has_node(old(self)@.nodes, m.to.local) {
                let w = choose|i: int| 0 <= i < old(self)@.nodes.len() && old(self)@.nodes[i].addr.local == m.to.local;
                assert(fuel > w);
            }
        }
        self.dispatch_within(m, enable_output, fuel)
    }

    /// `dispatch`, going at most `fuel` nodes deep: in a graph without
    /// cycles no path is longer than the number of nodes.
    fn dispatch_within(&mut self, m: Message, enable_output: bool, fuel: usize) -> (out: Vec<(NodeAddress, Vec<Record>)>)
        requires
            well_formed(old(self)@),
        ensures
            well_formed(final(self)@),
            dispatch_post(old(self)@, m, enable_output, out@, final(self)@, fuel > 0),
        decreases fuel,
    {
        let ghost m0 = m;
        let me = m.to;
        let ts = m.ts;
        let mut out: Vec<(NodeAddress, Vec<Record>)> = Vec::new();

        let cursor = self.replaying_to.take();
        match cursor {
            Some((target, mut held)) => {
                if target == me.local {
                    held.push(m);
                    self.replaying_to = Some((target, held));
                    proof {
                        self.visits@ = self.visits@.push(Visit { msg: m0, enable_output, out: out@ });
                        assert(self@.cursor.unwrap().1 == old(self)@.cursor.unwrap().1.push(m0));
                        lemma_prefix_push(old(self)@.cursor.unwrap().1, m0);
                        lemma_prefix_push(old(self)@.visits, self@.visits.last());
                        lemma_wf_same(old(self)@, self@);
                    }
                    return out;
                }
                self.replaying_to = Some((target, held));
            },
            None => {},
        }
        if self.not_ready.contains(&me.local) || fuel == 0 {
            proof {
                self.visits@ = self.visits@.push(Visit { msg: m0, enable_output, out: out@ });
                lemma_prefix_push(old(self)@.visits, self@.visits.last());
                lemma_frame_refl(old(self)@);
                lemma_wf_same(old(self)@, self@);
            }
            return out;
        }
        let j = match find_node(&self.nodes, me.local) {
            Some(j) => j,
            None => {
                proof {
                    self.visits@ = self.visits@.push(Visit { msg: m0, enable_output, out: out@ });
                    lemma_prefix_push(old(self)@.visits, self@.visits.last());
                    lemma_frame_refl(old(self)@);
                    lemma_wf_same(old(self)@, self@);
                }
                return out;
            },
        };
        proof {
            lemma_node_choice(old(self)@.nodes, me.local, j as int);
        }

        proof {
            self.dispatched@ = self.dispatched@.push(me.local);
        }
        let ghost before_call = self@;
        let u = self.ops.process(&self.nodes[j], m, &mut self.state, true);
        proof {
            self.calls@ = self.calls@.push(Call { node: me.local, msg: m0, enable_output: true, result: u });
            lemma_prefix_push(old(self)@.calls, self@.calls.last());
            lemma_prefix_push(old(self)@.dispatched, me.local);
            lemma_frame_refl(old(self)@);
        }
        let ghost eff = effective(u, ts);
        let u = match u {
            Some(u) => Some(u),
            None => match ts {
                // a transactional message goes through the whole graph, even
                // with nothing to hand on
                Some(t) => Some(Update { data: Vec::new(), ts: Some(t) }),
                None => None,
            },
        };
        let u = match u {
            Some(u) => u,
            None => {
                proof {
                    self.visits@ = self.visits@.push(Visit { msg: m0, enable_output, out: out@ });
                    lemma_prefix_push(old(self)@.visits, self@.visits.last());
                    lemma_wf_same(old(self)@, self@);
                }
                return out;
            },
        };
        proof {
            assert(eff == Some((records_view(u.data@), u.ts))) by {
                assert(records_view(Seq::<Record>::empty()) =~= Seq::<RecordView>::empty());
            }
        }
        let ghost uv = eff.unwrap();
        assert(u.ts == uv.1);

        let children = copy_addresses(&self.nodes[j].children);
        let ghost start = self@;
        let mut data = u.data;
        let n = children.len();
        let mut i: usize = 0;
        let ghost mut ps: Seq<int> = Seq::empty();
        let ghost mut pieces: Seq<Seq<(NodeAddress, Vec<Record>)>> = Seq::empty();
        proof {
            lemma_frame_refl(start);
        }
        while i < n
            invariant
                n == children.len(),
                i <= n,
                fuel > 0,
                children@ == children_of(old(self)@.nodes, me.local),
                well_formed(old(self)@),
                dispatch_frame(old(self)@, start),
                dispatch_frame(start, self@),
                start.calls.len() == old(self)@.calls.len() + 1,
                start.calls.last() == (Call { node: me.local, msg: m0, enable_output: true, result: before_call_result(start) }),
                start.visits == old(self)@.visits,
                i < n ==> records_view(data@) == uv.0,
                u.ts == uv.1,
                ps.len() == i,
                pieces.len() == i,
                out@ == joined_out(pieces),
                !enable_output ==> outputs_only(old(self)@.nodes, out@),
                enable_output ==> out@.len() == 0,
                forall|k: int| 0 <= k < i ==> fan_step(old(self)@, self@, me, #[trigger] children@[k], uv, enable_output, ps[k], pieces[k]),
                forall|k: int| 0 <= k < i && !collected(old(self)@.nodes, enable_output, children@[k]) ==> #[trigger] ps[k] < self@.visits.len(),
                forall|k1: int, k2: int| 0 <= k1 < k2 < i && !collected(old(self)@.nodes, enable_output, children@[k1])
                    && !collected(old(self)@.nodes, enable_output, children@[k2]) ==> #[trigger] ps[k1] < #[trigger] ps[k2],
            decreases n - i,
        {
            let child = children[i];
            // the last child takes the records, the others a copy
            let mut d: Vec<Record> = Vec::new();
            if i + 1 < n {
                d = copy_records(&data);
            } else {
                std::mem::swap(&mut d, &mut data);
            }
            let found = find_node(&self.nodes, child.local);
            let child_is_output = match found {
                Some(k) => self.nodes[k].is_output(),
                None => false,
            };
            proof {
                lemma_output_choice(old(self)@.nodes, child, found);
                assert(child == children@[i as int]);
            }
            let ghost d_ghost = d;
            let ghost before = self@;
            let ghost prev = out@;
            if enable_output || !child_is_output {
                let sub = self.dispatch_within(Message { from: me, to: child, data: d, ts: u.ts }, enable_output, fuel - 1);
                let ghost added = sub@;
                let mut sub = sub;
                out.append(&mut sub);
                proof {
                    lemma_frame_trans(start, before, self@);
                    let p = self@.visits.len() - 1;
                    let old_pieces = pieces;
                    ps = ps.push(p);
                    pieces = pieces.push(added);
                    assert(pieces.drop_last() =~= old_pieces);
                    assert(out@ =~= prev + added);
                    assert(self@.visits.last() == (Visit {
                        msg: Message { from: me, to: child, data: d_ghost, ts: u.ts },
                        enable_output,
                        out: added,
                    }));
                    assert(before.visits.len() <= p);
                    assert(!collected(old(self)@.nodes, enable_output, child));
                    assert(records_view(d_ghost@) == uv.0);
                    assert(u.ts == uv.1);
                    assert(carries(self@.visits[p].msg, me, child, uv));
                    assert(fan_step(old(self)@, self@, me, child, uv, enable_output, p, added));
                    if !enable_output {
                        assert forall|k: int| 0 <= k < out@.len() implies is_output_address(old(self)@.nodes, (#[trigger] out@[k]).0) by {
                            if k < prev.len() {
                                assert(out@[k] == prev[k]);
                            } else {
                                assert(out@[k] == added[k - prev.len()]);
                            }
                        }
                    }
                }
            } else {
                out.push((child, d));
                proof {
                    let old_pieces = pieces;
                    ps = ps.push(0);
                    pieces = pieces.push(seq![(child, d_ghost)]);
                    assert(pieces.drop_last() =~= old_pieces);
                    assert(out@ =~= prev + seq![(child, d_ghost)]);
                    assert(collected(old(self)@.nodes, enable_output, child));
                    assert(records_view(d_ghost@) == uv.0);
                    assert(fan_step(old(self)@, self@, me, child, uv, enable_output, 0, seq![(child, d_ghost)]));
                    assert forall|k: int| 0 <= k < out@.len() implies is_output_address(old(self)@.nodes, (#[trigger] out@[k]).0) by {
                        if k < prev.len() {
                            assert(out@[k] == prev[k]);
                        }
                    }
                }
            }
            proof {
                lemma_wf_same(old(self)@, self@);
                assert forall|k: int| 0 <= k < i + 1 implies fan_step(old(self)@, self@, me, #[trigger] children@[k], uv, enable_output, ps[k], pieces[k]) by {
                    if k < i && !collected(old(self)@.nodes, enable_output, children@[k]) {
                        assert(before.visits.is_prefix_of(self@.visits));
                        assert(self@.visits[ps[k]] == before.visits[ps[k]]);
                    }
                    if k == i {
                        assert(children@[k] == child);
                        assert(pieces[k] == pieces.last());
                    }
                }
            }
            i = i + 1;
        }
        let ghost pre = self@;
        proof {
            self.visits@ = self.visits@.push(Visit { msg: m0, enable_output, out: out@ });
            let fin = self@;
            lemma_prefix_push(old(self)@.visits, fin.visits.last());
            lemma_frame_trans(old(self)@, start, fin);
            assert forall|k: int| 0 <= k < n implies fan_step(old(self)@, fin, me, #[trigger] children@[k], uv, enable_output, ps[k], pieces[k]) by {
                if !collected(old(self)@.nodes, enable_output, children@[k]) {
                    assert(fin.visits[ps[k]] == pre.visits[ps[k]]);
                }
            }
            assert(fan_witness(old(self)@, fin, me, children@, uv, enable_output, out@, ps, pieces));
            assert(fin.calls[old(self)@.calls.len() as int] == start.calls.last());
            assert(fin.dispatched[old(self)@.dispatched.len() as int] == start.dispatched[old(self)@.dispatched.len() as int]);
            assert(effective(fin.calls[old(self)@.calls.len() as int].result, m0.ts) == Some(uv));
            assert(fanned_out(old(self)@, fin, me, children_of(old(self)@.nodes, me.local), uv, enable_output, out@));
            lemma_wf_same(old(self)@, fin);
        }
        out
    }
}

} // verus!
