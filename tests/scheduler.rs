use sched_core::cluster::Cluster;
use sched_core::idle::{IdleState, MAX_WORKERS};
use sched_core::node::{Node, ResumeResult, ThreadState, WorkerRef};

fn state_of(node: &Node) -> IdleState {
    IdleState::decode(node.idle_queue).0
}

fn head_of(node: &Node) -> u64 {
    IdleState::decode(node.idle_queue).1
}

fn tag_of(node: &Node) -> u8 {
    IdleState::decode(node.idle_queue).2
}

/// A cluster of `n` nodes with one slot each, every slot backing a Waking thread.
fn cluster_of_waking(n: usize) -> (Cluster, Vec<usize>) {
    let mut c = Cluster::from_node(Node::new(1));
    for _ in 1..n {
        let len = c.len();
        let node = Node::new(1);
        c.push_node(node);
        assert_eq!(c.len(), len + 1);
    }
    let mut threads = Vec::new();
    for i in 0..n {
        assert_eq!(c.try_resume_worker(i), Some(ResumeResult::Spawn(1)));
        threads.push(c.install_thread(i, 1, 100 + i as u64));
    }
    (c, threads)
}

#[test]
fn encode_decode_exact_values() {
    let w = IdleState::Waking.encode(3, 7);
    assert_eq!(w, (3 << 10) | (1 << 8) | 7);
    assert_eq!(IdleState::decode(w), (IdleState::Waking, 3, 7));
    let w = IdleState::Shutdown.encode(0, 0);
    assert_eq!(w, 0x300);
    assert_eq!(IdleState::decode(w), (IdleState::Shutdown, 0, 0));
    let w = IdleState::Notified.encode(MAX_WORKERS, 255);
    assert_eq!(IdleState::decode(w), (IdleState::Notified, MAX_WORKERS, 255));
    assert_eq!(IdleState::decode(IdleState::Ready.encode(1, 0)), (IdleState::Ready, 1, 0));
}

#[test]
fn new_node_threads_all_slots_into_idle_stack() {
    let node = Node::new(3);
    assert_eq!(node.workers.len(), 3);
    assert_eq!(node.workers[0], WorkerRef::Worker(2));
    assert_eq!(node.workers[1], WorkerRef::Worker(3));
    assert_eq!(node.workers[2], WorkerRef::Worker(0));
    assert_eq!(state_of(&node), IdleState::Ready);
    assert_eq!(head_of(&node), 1);
    assert_eq!(tag_of(&node), 0);
    assert_eq!(node.workers_active, 0);
    assert!(node.threads().is_empty());
    let empty = Node::new(0);
    assert_eq!(empty.workers.len(), 0);
    assert_eq!(head_of(&empty), 0);
}

#[test]
fn cluster_ring_and_iteration() {
    let c = Cluster::new();
    assert_eq!(c.len(), 0);
    assert!(c.iter().is_empty());
    let mut c = Cluster::from_node(Node::new(2));
    assert_eq!(c.len(), 1);
    assert_eq!(c.nodes[0].next, 0);
    c.push_node(Node::new(1));
    c.push_node(Node::new(1));
    assert_eq!(c.len(), 3);
    assert_eq!(c.iter(), vec![0, 1, 2]);
    assert_eq!(c.iter_nodes(1), vec![1, 2, 0]);
    assert_eq!(c.iter_nodes(2), vec![2, 0, 1]);
    assert_eq!(c.nodes[0].next, 1);
    assert_eq!(c.nodes[1].next, 2);
    assert_eq!(c.nodes[2].next, 0);
}

#[test]
fn single_worker_single_task() {
    let mut c = Cluster::from_node(Node::new(1));
    assert_eq!(state_of(&c.nodes[0]), IdleState::Ready);
    assert_eq!(head_of(&c.nodes[0]), 1);
    assert_eq!(c.nodes[0].workers[0], WorkerRef::Worker(0));
    c.nodes[0].push(&vec![7]);
    assert_eq!(c.try_resume_worker(0), Some(ResumeResult::Spawn(1)));
    assert_eq!(c.nodes[0].workers[0], WorkerRef::Node(0));
    assert_eq!(c.nodes[0].workers_active, 1);
    assert_eq!(c.nodes_active, 1);
    let t = c.install_thread(0, 1, 42);
    assert_eq!(c.nodes[0].workers[0], WorkerRef::Thread(t));
    assert_eq!(c.threads[t].state, ThreadState::Waking);
    assert_eq!(c.nodes[0].threads(), vec![t]);
    assert!(c.nodes[0].try_acquire_polling());
    assert_eq!(c.nodes[0].poll(), Some(7));
    assert_eq!(c.nodes[0].poll(), None);
    c.nodes[0].release_polling();
    let out = c.suspend_worker(t);
    assert_eq!(out, Some(vec![t]));
    assert_eq!(c.nodes[0].workers_active, 0);
    assert_eq!(c.nodes_active, 0);
    assert_eq!(c.threads[t].state, ThreadState::Shutdown);
    assert_eq!(c.nodes[0].workers[0], WorkerRef::ThreadId(42));
    assert_eq!(state_of(&c.nodes[0]), IdleState::Shutdown);
    let node = c.nodes.remove(0);
    node.deinit();
}

#[test]
fn notified_absorption() {
    let mut c = Cluster::from_node(Node::new(0));
    c.push_node(Node::new(1));
    assert_eq!(c.try_resume_worker(0), Some(ResumeResult::Notified));
    assert_eq!(state_of(&c.nodes[0]), IdleState::Notified);
    assert_eq!(c.nodes[0].workers_active, 0);
    assert_eq!(c.nodes_active, 0);
    assert_eq!(c.try_resume_worker(0), None);
    assert_eq!(state_of(&c.nodes[0]), IdleState::Notified);
    assert_eq!(state_of(&c.nodes[1]), IdleState::Ready);
}

#[test]
fn waking_baton() {
    let mut c = Cluster::from_node(Node::new(2));
    assert_eq!(c.try_resume_worker(0), Some(ResumeResult::Spawn(1)));
    assert_eq!(state_of(&c.nodes[0]), IdleState::Waking);
    assert_eq!(c.try_resume_worker(0), None);
    let _t = c.install_thread(0, 1, 1);
    c.nodes[0].push(&vec![5]);
    assert_eq!(c.stop_waking(0), Some((0, ResumeResult::Spawn(2))));
    assert_eq!(state_of(&c.nodes[0]), IdleState::Waking);
    assert_eq!(c.nodes[0].workers[1], WorkerRef::Node(0));
    assert_eq!(c.nodes[0].workers_active, 2);
    assert_eq!(c.nodes_active, 1);
}

#[test]
fn stop_waking_moves_to_the_next_node() {
    let mut c = Cluster::from_node(Node::new(1));
    c.push_node(Node::new(1));
    assert_eq!(c.try_resume_worker(0), Some(ResumeResult::Spawn(1)));
    let _t = c.install_thread(0, 1, 9);
    // node 0 has no idle worker left: the baton holder leaves it Notified
    assert_eq!(c.resume_worker(0, true), Some(ResumeResult::Notified));
    assert_eq!(c.stop_waking(0), Some((1, ResumeResult::Spawn(1))));
    assert_eq!(c.nodes_active, 2);
    let mut single = Cluster::from_node(Node::new(0));
    assert_eq!(single.try_resume_worker(0), Some(ResumeResult::Notified));
    assert_eq!(single.stop_waking(0), None);
}

#[test]
fn try_resume_some_worker_skips_declining_nodes() {
    let mut c = Cluster::from_node(Node::new(0));
    c.push_node(Node::new(1));
    assert_eq!(c.try_resume_worker(0), Some(ResumeResult::Notified));
    assert_eq!(c.try_resume_some_worker(0), Some((1, ResumeResult::Spawn(1))));
    assert_eq!(c.try_resume_some_worker(0), None);
    assert_eq!(c.try_resume_some_worker(1), None);
}

#[test]
fn run_queue_interleaving() {
    let mut node = Node::new(1);
    node.push(&vec![1, 2, 3]);
    node.push(&vec![10, 20, 30]);
    assert!(node.try_acquire_polling());
    assert!(!node.try_acquire_polling());
    let mut got = Vec::new();
    while let Some(task) = node.poll() {
        got.push(task);
    }
    assert_eq!(got.len(), 6);
    assert_eq!(got, vec![1, 2, 3, 10, 20, 30]);
    node.release_polling();
    assert!(node.try_acquire_polling());
}

#[test]
fn run_queue_round_trip() {
    let mut node = Node::new(0);
    let batch: Vec<u64> = (1..=5).collect();
    node.push(&batch);
    assert!(node.try_acquire_polling());
    for expected in &batch {
        assert_eq!(node.poll(), Some(*expected));
    }
    assert_eq!(node.poll(), None);
    node.push(&vec![99]);
    assert_eq!(node.poll(), Some(99));
    assert_eq!(node.poll(), None);
}

#[test]
fn empty_batch_push() {
    let mut node = Node::new(1);
    node.push(&vec![4]);
    let before = node.runq.clone();
    let tail = node.runq_tail;
    node.push(&Vec::new());
    assert_eq!(node.runq, before);
    assert_eq!(node.runq_tail, tail);
    assert!(node.try_acquire_polling());
    assert_eq!(node.poll(), Some(4));
    assert_eq!(node.poll(), None);
}

#[test]
fn cross_node_shutdown() {
    let (mut c, threads) = cluster_of_waking(3);
    assert_eq!(c.nodes_active, 3);
    assert_eq!(c.suspend_worker(threads[0]), None);
    assert_eq!(c.nodes_active, 2);
    assert_eq!(c.suspend_worker(threads[1]), None);
    assert_eq!(c.nodes_active, 1);
    let out = c.suspend_worker(threads[2]).expect("last suspension shuts down");
    assert_eq!(out, vec![threads[2], threads[0], threads[1]]);
    for i in 0..3 {
        assert_eq!(state_of(&c.nodes[i]), IdleState::Shutdown);
        assert_eq!(c.nodes[i].workers[0], WorkerRef::ThreadId(100 + i as u64));
        assert_eq!(c.threads[threads[i]].state, ThreadState::Shutdown);
    }
}

#[test]
fn suspend_then_resume_returns_the_thread() {
    let mut node = Node::new(1);
    let mut threads = Vec::new();
    assert_eq!(node.resume_worker(0, &mut threads, false), Some(ResumeResult::Spawn(1)));
    let t = node.install_thread(0, &mut threads, 1, 5);
    assert!(node.suspend_worker(0, &mut threads, t));
    assert_eq!(node.workers[0], WorkerRef::Thread(t));
    assert_eq!(head_of(&node), 1);
    assert_eq!(state_of(&node), IdleState::Ready);
    assert_eq!(threads[t].state, ThreadState::Suspended);
    assert_eq!(node.resume_worker(0, &mut threads, false), Some(ResumeResult::Resume(t)));
    assert_eq!(threads[t].state, ThreadState::Waking);
    assert_eq!(head_of(&node), 0);
    assert_eq!(node.workers_active, 1);
}

#[test]
fn suspend_while_notified_keeps_thread_awake() {
    let mut node = Node::new(1);
    let mut threads = Vec::new();
    assert_eq!(node.resume_worker(0, &mut threads, false), Some(ResumeResult::Spawn(1)));
    let t = node.install_thread(0, &mut threads, 1, 5);
    assert_eq!(node.resume_worker(0, &mut threads, true), Some(ResumeResult::Notified));
    let tag = tag_of(&node);
    assert!(node.suspend_worker(0, &mut threads, t));
    assert_eq!(threads[t].state, ThreadState::Waking);
    assert_eq!(head_of(&node), 0);
    assert_eq!(state_of(&node), IdleState::Ready);
    assert_eq!(tag_of(&node), tag.wrapping_add(1));
}

#[test]
fn aba_tag_changes_on_every_suspend() {
    let mut node = Node::new(1);
    let mut threads = Vec::new();
    assert_eq!(node.resume_worker(0, &mut threads, false), Some(ResumeResult::Spawn(1)));
    let t = node.install_thread(0, &mut threads, 1, 5);
    let mut seen = Vec::new();
    for _ in 0..256 {
        let before = tag_of(&node);
        node.suspend_worker(0, &mut threads, t);
        let after = tag_of(&node);
        assert_ne!(before, after);
        assert_eq!(after, before.wrapping_add(1));
        seen.push(after);
        assert_eq!(node.resume_worker(0, &mut threads, false), Some(ResumeResult::Resume(t)));
    }
    assert_eq!(tag_of(&node), 0);
    seen.sort();
    seen.dedup();
    assert_eq!(seen.len(), 256);
}

#[test]
fn counts_stay_within_bounds() {
    let mut c = Cluster::from_node(Node::new(2));
    c.push_node(Node::new(1));
    assert_eq!(c.try_resume_worker(0), Some(ResumeResult::Spawn(1)));
    let _a = c.install_thread(0, 1, 1);
    assert_eq!(c.stop_waking(0), Some((0, ResumeResult::Spawn(2))));
    assert_eq!(c.try_resume_worker(1), Some(ResumeResult::Spawn(1)));
    for i in 0..2 {
        assert!(c.nodes[i].workers_active <= c.nodes[i].workers.len());
    }
    assert_eq!(c.nodes[0].workers_active, 2);
    assert_eq!(c.nodes[1].workers_active, 1);
    assert_eq!(c.nodes_active, 2);
    assert!(c.nodes_active <= c.len());
}

#[test]
fn shutdown_leaves_unstarted_slots_idle() {
    let mut c = Cluster::from_node(Node::new(3));
    assert_eq!(c.try_resume_worker(0), Some(ResumeResult::Spawn(1)));
    let t = c.install_thread(0, 1, 77);
    let out = c.suspend_worker(t);
    assert_eq!(out, Some(vec![t]));
    assert_eq!(c.nodes[0].workers[0], WorkerRef::ThreadId(77));
    assert_eq!(c.nodes[0].workers[1], WorkerRef::Worker(3));
    assert_eq!(c.nodes[0].workers[2], WorkerRef::Worker(0));
    assert_eq!(head_of(&c.nodes[0]), 0);
}

#[test]
fn node_iter_follows_ring_links() {
    let mut c = Cluster::from_node(Node::new(1));
    c.push_node(Node::new(1));
    c.push_node(Node::new(1));
    c.push_node(Node::new(1));
    let node = &c.nodes[2];
    assert_eq!(node.iter(2, &c), vec![2, 3, 0, 1]);
    assert_eq!(c.nodes[0].iter(0, &c), vec![0, 1, 2, 3]);
    let single = Cluster::from_node(Node::new(0));
    assert_eq!(single.nodes[0].iter(0, &single), vec![0]);
}

#[test]
fn threads_lists_live_slots_in_order() {
    let mut c = Cluster::from_node(Node::new(3));
    assert_eq!(c.try_resume_worker(0), Some(ResumeResult::Spawn(1)));
    let a = c.install_thread(0, 1, 1);
    assert_eq!(c.stop_waking(0), Some((0, ResumeResult::Spawn(2))));
    let b = c.install_thread(0, 2, 2);
    assert_eq!(c.nodes[0].threads(), vec![a, b]);
    assert_eq!(c.nodes[0].workers[2], WorkerRef::Worker(0));
}

#[test]
fn init_empties_the_run_queue() {
    let mut node = Node::new(1);
    node.push(&vec![1, 2]);
    node.init();
    assert!(node.runq.is_empty());
    assert_eq!(node.runq_tail, 0);
    assert!(node.try_acquire_polling());
    assert_eq!(node.poll(), None);
}
