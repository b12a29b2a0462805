use std::collections::HashMap;

use domain_runtime::chunks::{chunk_records, positives, CHUNK_SIZE};
use domain_runtime::domain::{
    batch_messages, claimed, Domain, Index, Message, Node, NodeAddress, NodeKind,
    Operators, ReplayBatch, ReplayStep, StateMap, TransactionResult, Update,
};
use domain_runtime::records::Record;
use domain_runtime::state::State;

/// Operators that pass every batch on unchanged and remember which nodes
/// they ran at.
#[derive(Default)]
struct Recorder {
    seen: Vec<usize>,
    swapped: Vec<usize>,
    transactional: Vec<(usize, Option<(i64, usize)>, usize)>,
}

impl Operators for Recorder {
    fn process(&mut self, node: &Node, m: Message, _states: &mut StateMap, _enable_output: bool) -> Option<Update> {
        self.seen.push(node.addr.local);
        if m.ts.is_some() {
            self.transactional.push((node.addr.local, m.ts, m.data.len()));
        }
        Some(Update { data: m.data, ts: m.ts })
    }

    fn swap_reader(&mut self, node: &Node) {
        self.swapped.push(node.addr.local);
    }
}

fn addr(local: usize) -> NodeAddress {
    NodeAddress { domain: Index(0), local }
}

fn node(local: usize, kind: NodeKind, children: Vec<usize>) -> Node {
    Node { addr: addr(local), index: 100 + local, kind, children: children.into_iter().map(addr).collect() }
}

fn row(vals: &[i64]) -> Vec<i64> {
    vals.to_vec()
}

fn msg(to: usize, data: Vec<Record>, ts: Option<(i64, usize)>) -> Message {
    Message { from: addr(to), to: addr(to), data, ts }
}

/// ingress 0 -> internal 1 -> reader 2, all made ready.
fn chain_domain(ts: i64) -> Domain<Recorder> {
    let nodes = vec![
        node(0, NodeKind::Ingress, vec![1]),
        node(1, NodeKind::Internal, vec![2]),
        node(2, NodeKind::Reader, vec![]),
    ];
    let mut d = Domain::new(nodes, Recorder::default(), ts);
    for i in 0..3 {
        d.ready(i, None);
    }
    d
}

fn counts(pairs: &[(usize, usize)]) -> HashMap<usize, usize> {
    pairs.iter().cloned().collect()
}

#[test]
fn state_insert_then_remove_restores() {
    let mut s = State::new();
    s.set_pkey(0);
    s.insert(row(&[1, 2]));
    s.insert(row(&[3, 4]));
    let before = s.snapshot().into_rows();
    s.insert(row(&[1, 2]));
    s.remove(&row(&[1, 2]));
    assert_eq!(s.into_rows(), before);
}

#[test]
fn state_remove_missing_row_is_noop() {
    let mut s = State::new();
    s.insert(row(&[7]));
    s.remove(&row(&[8]));
    assert_eq!(s.len(), 1);
}

#[test]
fn state_apply_records() {
    let mut s = State::base();
    assert!(s.is_base());
    assert_eq!(s.get_pkey(), None);
    s.set_pkey(1);
    s.apply(vec![
        Record::Positive(row(&[1])),
        Record::Positive(row(&[2])),
        Record::Negative(row(&[1])),
    ]);
    assert_eq!(s.get_pkey(), Some(1));
    assert_eq!(s.into_rows(), vec![row(&[2])]);
}

#[test]
fn new_domain_marks_all_but_timestamp_egress_not_ready() {
    let nodes = vec![node(0, NodeKind::Ingress, vec![]), node(1, NodeKind::TimestampEgress, vec![])];
    let d = Domain::new(nodes, Recorder::default(), 3);
    assert!(d.is_not_ready(0));
    assert!(!d.is_not_ready(1));
    assert_eq!(d.ts(), 3);
}

#[test]
fn dispatch_reaches_whole_chain() {
    let mut d = chain_domain(0);
    let out = d.dispatch(msg(0, vec![Record::Positive(row(&[1]))], None), true);
    assert!(out.is_empty());
    assert_eq!(d.operators().seen, vec![0, 1, 2]);
}

#[test]
fn dispatch_skips_not_ready_node() {
    let nodes = vec![node(0, NodeKind::Ingress, vec![1]), node(1, NodeKind::Internal, vec![])];
    let mut d = Domain::new(nodes, Recorder::default(), 0);
    d.ready(0, None);
    d.dispatch(msg(0, vec![Record::Positive(row(&[1]))], None), true);
    assert_eq!(d.operators().seen, vec![0]);
}

#[test]
fn dispatch_collects_outputs_when_output_disabled() {
    let mut d = chain_domain(0);
    let out = d.dispatch(msg(0, vec![Record::Positive(row(&[5]))], None), false);
    assert_eq!(d.operators().seen, vec![0, 1]);
    assert_eq!(out.len(), 1);
    assert_eq!(out[0].0, addr(2));
    assert_eq!(out[0].1.len(), 1);
}

#[test]
fn transaction_completes_on_its_last_fragment() {
    let mut d = chain_domain(0);
    assert_eq!(d.complete_migration(1, counts(&[(10, 2), (11, 1)])), Vec::<i64>::new());
    assert_eq!(d.ts(), 1);
    let acks = d.buffer_transaction(msg(0, vec![], Some((2, 10))));
    assert!(acks.is_empty());
    assert_eq!(d.ts(), 1);
    assert!(d.operators().transactional.is_empty());
    d.buffer_transaction(msg(0, vec![Record::Positive(row(&[1]))], Some((2, 10))));
    assert_eq!(d.ts(), 2);
    // the reader is fed once for the transaction, with everything that reached it
    let reader_feeds: Vec<_> = d.operators().transactional.iter().filter(|t| t.0 == 2).cloned().collect();
    assert_eq!(reader_feeds, vec![(2, Some((2, 10)), 1)]);
}

#[test]
fn out_of_order_timestamps() {
    let mut d = chain_domain(4);
    d.complete_migration(5, counts(&[(10, 1)]));
    assert_eq!(d.ts(), 5);
    assert_eq!(d.start_migration(7), Vec::<i64>::new());
    assert_eq!(d.ts(), 5);
    let acks = d.buffer_transaction(msg(0, vec![Record::Positive(row(&[1]))], Some((6, 10))));
    assert_eq!(acks, vec![7]);
    assert_eq!(d.ts(), 7);
}

#[test]
fn empty_transaction_advances_clock() {
    let mut d = chain_domain(0);
    d.complete_migration(1, counts(&[(10, 1)]));
    d.buffer_transaction(msg(0, vec![], Some((2, 10))));
    assert_eq!(d.ts(), 2);
    assert!(d.operators().transactional.iter().any(|t| t.0 == 2 && t.2 == 0));
}

#[test]
fn remote_timestamp_advances_clock() {
    let mut d = chain_domain(0);
    assert_eq!(d.on_timestamp(2), Vec::<i64>::new());
    assert_eq!(d.ts(), 0);
    assert_eq!(d.on_timestamp(1), Vec::<i64>::new());
    assert_eq!(d.ts(), 2);
}

#[test]
fn migration_end_waits_for_its_timestamp() {
    let mut d = chain_domain(0);
    assert_eq!(d.complete_migration(2, counts(&[(10, 1)])), Vec::<i64>::new());
    assert_eq!(d.ts(), 0);
    assert_eq!(d.on_timestamp(1), Vec::<i64>::new());
    assert_eq!(d.ts(), 2);
    d.buffer_transaction(msg(0, vec![], Some((3, 10))));
    assert_eq!(d.ts(), 3);
}

#[test]
fn single_node_fast_replay() {
    let mut d = chain_domain(0);
    d.prepare_state(0, 0);
    let path = vec![addr(0)];
    d.replay_through_batch(&path, ReplayBatch::Partial(msg(0, vec![Record::Positive(row(&[1, 2])), Record::Positive(row(&[3, 4]))], None)), false);
    let batches = d.replay(vec![addr(0)], true);
    assert_eq!(batches.len(), 1);
    match &batches[0] {
        ReplayBatch::Full(a, s) => {
            assert_eq!(*a, addr(0));
            assert_eq!(s.get_pkey(), Some(0));
            assert_eq!(s.snapshot().into_rows(), vec![row(&[1, 2]), row(&[3, 4])]);
        }
        _ => panic!("expected a full snapshot"),
    }
    assert_eq!(d.state_of(0).unwrap().len(), 2);
}

#[test]
fn local_replay_makes_sink_ready() {
    let nodes = vec![
        node(0, NodeKind::Ingress, vec![1]),
        node(1, NodeKind::Internal, vec![2]),
        node(2, NodeKind::Internal, vec![]),
    ];
    let mut d = Domain::new(nodes, Recorder::default(), 0);
    d.ready(0, Some(0));
    d.ready(1, None);
    d.replay_through_batch(&vec![addr(0)], ReplayBatch::Partial(msg(0, vec![Record::Positive(row(&[1]))], None)), false);
    assert!(d.is_not_ready(2));
    let batches = d.replay(vec![addr(0), addr(1), addr(2)], false);
    assert!(batches.is_empty());
    assert!(!d.is_not_ready(2));
    assert_eq!(d.held_back(), None);
    assert_eq!(d.operators().seen, vec![1, 2]);
}

#[test]
fn held_back_updates_reach_sink_after_replay() {
    let nodes = vec![node(0, NodeKind::Ingress, vec![1]), node(1, NodeKind::Internal, vec![])];
    let mut d = Domain::new(nodes, Recorder::default(), 0);
    d.ready(0, None);
    let path = vec![addr(0), addr(1)];
    d.replay_through_start(&path, false);
    d.dispatch(msg(0, vec![Record::Positive(row(&[9]))], None), true);
    assert_eq!(d.held_back(), Some(1));
    assert_eq!(d.operators().seen, vec![0]);
    d.replay_through_finish(&path, false);
    assert_eq!(d.held_back(), None);
    assert!(!d.is_not_ready(1));
    assert_eq!(d.operators().seen, vec![0, 1]);
}

#[test]
fn replay_through_forwards_chunks() {
    let mut d = chain_domain(0);
    let path = vec![addr(0), addr(1)];
    d.replay_through_start(&path, true);
    let mut s = State::new();
    for i in 0..1500 {
        s.insert(row(&[i]));
    }
    match d.replay_through_batch(&path, ReplayBatch::Full(addr(7), s), true) {
        ReplayStep::Continue(v) => {
            assert_eq!(v.len(), 2);
            assert_eq!(v[0].data.len(), 1000);
            assert_eq!(v[1].data.len(), 500);
            assert_eq!(v[0].from, addr(1));
        }
        ReplayStep::Done => panic!("a longer path does not end on a snapshot"),
    }
}

#[test]
fn full_snapshot_replaces_sink_state() {
    let mut d = chain_domain(0);
    d.prepare_state(0, 1);
    let path = vec![addr(0)];
    d.replay_through_start(&path, false);
    let mut s = State::new();
    s.set_pkey(1);
    s.insert(row(&[4, 5]));
    let step = d.replay_through_batch(&path, ReplayBatch::Full(addr(3), s), false);
    assert!(matches!(step, ReplayStep::Done));
    assert_eq!(d.state_of(0).unwrap().snapshot().into_rows(), vec![row(&[4, 5])]);
}

#[test]
fn add_node_links_parents() {
    let mut d = chain_domain(0);
    d.add_node(node(3, NodeKind::Reader, vec![]), vec![1]);
    assert!(d.is_not_ready(3));
    assert_eq!(d.node_count(), 4);
    d.ready(3, Some(0));
    assert_eq!(d.operators().swapped, vec![2, 3]);
    d.dispatch(msg(0, vec![], None), true);
    assert_eq!(d.operators().seen, vec![0, 1, 2, 3]);
    assert_eq!(d.kind_of(8), None);
    assert_eq!(d.kind_of(3), Some(NodeKind::Reader));
}

#[test]
fn ready_with_index_on_base_makes_base_state() {
    let nodes = vec![node(0, NodeKind::Base, vec![])];
    let mut d = Domain::new(nodes, Recorder::default(), 0);
    d.ready(0, Some(2));
    let s = d.state_of(0).unwrap();
    assert!(s.is_base());
    assert_eq!(s.get_pkey(), Some(2));
}

#[test]
fn token_commit_rewrites_stamp() {
    let m = msg(0, vec![Record::Positive(row(&[1]))], None);
    let r = claimed(m, 101, TransactionResult::Committed(42)).unwrap();
    assert_eq!(r.ts, Some((42, 101)));
    let d = chain_domain(0);
    assert_eq!(d.base_of(addr(0)), Some(101));
}

#[test]
fn token_abort_drops_message() {
    let m = msg(0, vec![Record::Positive(row(&[1]))], None);
    assert!(claimed(m, 101, TransactionResult::Aborted).is_none());
}

#[test]
fn chunks_of_rows() {
    let rows: Vec<Vec<i64>> = (0..2500).map(|i| vec![i]).collect();
    let chunks = chunk_records(rows);
    let sizes: Vec<usize> = chunks.iter().map(|c| c.len()).collect();
    assert_eq!(sizes, vec![CHUNK_SIZE, CHUNK_SIZE, 500]);
    assert!(chunk_records(vec![]).is_empty());
    match &chunks[2][0] {
        Record::Positive(r) => assert_eq!(r, &vec![2000]),
        Record::Negative(_) => panic!("rows become positive records"),
    }
    assert_eq!(positives(vec![vec![1]]).len(), 1);
}

#[test]
fn partial_batch_passes_unchanged() {
    let m = msg(4, vec![], None);
    let out = batch_messages(ReplayBatch::Partial(m), addr(0));
    assert_eq!(out.len(), 1);
    assert_eq!(out[0].to, addr(4));
}

#[test]
fn held_updates_drained_in_order() {
    let nodes = vec![node(0, NodeKind::Ingress, vec![1]), node(1, NodeKind::Internal, vec![])];
    let mut d = Domain::new(nodes, Recorder::default(), 0);
    d.ready(0, None);
    let path = vec![addr(0), addr(1)];
    d.replay_through_start(&path, false);
    d.dispatch(msg(1, vec![Record::Positive(row(&[1]))], None), true);
    d.dispatch(msg(1, vec![], Some((5, 10))), true);
    assert_eq!(d.held_back(), Some(2));
    d.replay_through_finish(&path, false);
    assert_eq!(d.operators().seen, vec![1, 1]);
    assert_eq!(d.operators().transactional, vec![(1, Some((5, 10)), 0)]);
}

#[test]
fn buffer_slots_are_reported() {
    let mut d = chain_domain(0);
    d.on_timestamp(3);
    assert!(d.has_entry(3));
    assert!(d.slot_taken(3));
    assert!(!d.has_entry(4));
    d.buffer_transaction(msg(0, vec![], Some((4, 10))));
    assert!(d.has_entry(4));
    assert!(!d.slot_taken(4));
}
