//! A ring of nodes with the scheduler's count of active nodes and the thread table.
use vstd::prelude::*;
use vstd::arithmetic::div_mod::{lemma_add_mod_noop, lemma_mod_add_multiples_vanish, lemma_small_mod};
use crate::idle::{pack, state_code, word_state, IdleState};
use crate::node::{
    declines, lemma_inv_frame, on_stack, resume_step, shut_slot, stack_threads, suspend_step,
    with_state, Node, ResumeResult, Thread, ThreadState, WorkerRef,
};

verus! {

pub struct Cluster {
    /// The ring: node `i` links to node `(i + 1) % len`.
    pub nodes: Vec<Node>,
    /// Every thread ever started in a slot of the ring, by handle.
    pub threads: Vec<Thread>,
    /// Number of nodes with an active worker.
    pub nodes_active: usize,
}

/// Position `k` of the ring walk that starts at `start`.
pub open spec fn ring(start: int, k: int, n: int) -> int {
    (start + k) % n
}

/// How far node `j` lies after `start` on the ring.
pub open spec fn dist(start: int, j: int, n: int) -> int {
    (j - start + n) % n
}

/// Number of nodes among the first `n` with an active worker.
pub open spec fn count_nodes_active(nodes: Seq<Node>, n: nat) -> nat
    decreases n,
{
    if n == 0 {
        0
    } else {
        count_nodes_active(nodes, (n - 1) as nat) + if nodes[n - 1].workers_active > 0 {
            1nat
        } else {
            0nat
        }
    }
}

proof fn lemma_nodes_count_frame(a: Seq<Node>, b: Seq<Node>, n: nat, i: int)
    requires
        forall|j: int| 0 <= j < n && j != i ==> (a[j].workers_active > 0) == (b[j].workers_active > 0),
    ensures
        0 <= i < n ==> count_nodes_active(b, n) + (if a[i].workers_active > 0 { 1int } else { 0int })
            == count_nodes_active(a, n) + (if b[i].workers_active > 0 { 1int } else { 0int }),
        !(0 <= i < n) ==> count_nodes_active(b, n) == count_nodes_active(a, n),
    decreases n,
{
    if n > 0 {
        lemma_nodes_count_frame(a, b, (n - 1) as nat, i);
    }
}

proof fn lemma_mod_bound(x: int, n: int)
    requires
        0 <= x,
        0 < n,
    ensures
        0 <= x % n < n,
{
}

/// At most `n` of the first `n` nodes are active.
pub proof fn lemma_nodes_count_bound(a: Seq<Node>, n: nat)
    ensures
        count_nodes_active(a, n) <= n,
    decreases n,
{
    if n > 0 {
        lemma_nodes_count_bound(a, (n - 1) as nat);
    }
}

/// The threads that a shutdown walk over the first `k` nodes of the ring from
/// `start` collects, in that order.
pub open spec fn cascade_threads(nodes: Seq<Node>, start: int, k: nat) -> Seq<usize>
    decreases k,
{
    if k == 0 {
        Seq::empty()
    } else {
        let j = ring(start, k - 1, nodes.len() as int);
        cascade_threads(nodes, start, (k - 1) as nat) + stack_threads(nodes[j].workers@, nodes[j].idle@)
    }
}

/// Node `b` is node `a` after its shutdown, against the thread table `th` of before.
pub open spec fn node_shut(a: Node, b: Node, th: Seq<Thread>) -> bool {
    &&& b.idle_queue == pack(0, state_code(IdleState::Shutdown), 0)
    &&& b.workers_active == a.workers_active
    &&& Node::same_runq(&a, &b)
    &&& b.workers@.len() == a.workers@.len()
    &&& forall|s: int| 0 <= s < a.workers@.len() ==> #[trigger] b.workers@[s] == shut_slot(
        a.workers@[s],
        th,
        a.idle@.contains((s + 1) as u64),
    )
}

/// Thread `t` of table `th` after a shutdown of every node of `nodes`.
pub open spec fn thread_shut(nodes: Seq<Node>, th: Seq<Thread>, t: int) -> Thread {
    let j = th[t].node as int;
    if 0 <= j < nodes.len() && on_stack(nodes[j].workers@, th, nodes[j].idle@, j as usize, t) {
        with_state(th[t], ThreadState::Shutdown)
    } else {
        th[t]
    }
}

/// The whole ring shut down, from `(a, ta)` to `(b, tb)`, collecting `r`.
pub open spec fn cascade_step(
    a: Seq<Node>,
    ta: Seq<Thread>,
    b: Seq<Node>,
    tb: Seq<Thread>,
    start: int,
    r: Seq<usize>,
) -> bool {
    &&& b.len() == a.len()
    &&& tb.len() == ta.len()
    &&& forall|j: int| 0 <= j < a.len() ==> node_shut(a[j], #[trigger] b[j], ta)
    &&& forall|t: int| 0 <= t < ta.len() ==> #[trigger] tb[t] == thread_shut(a, ta, t)
    &&& r == cascade_threads(a, start, a.len())
}

/// The outcome of a resume walk over the ring from `start`: the first node (in ring
/// order) that does not decline is resumed; with none, nothing changes.
pub open spec fn resume_some_step(
    a: Seq<Node>,
    ta: Seq<Thread>,
    b: Seq<Node>,
    tb: Seq<Thread>,
    start: int,
    r: Option<(usize, ResumeResult)>,
) -> bool {
    let n = a.len() as int;
    &&& b.len() == a.len()
    &&& match r {
        None => {
            &&& forall|j: int| 0 <= j < n ==> declines(#[trigger] a[j], false)
            &&& b == a
            &&& tb == ta
        },
        Some((j, res)) => {
            &&& 0 <= j < n
            &&& forall|m: int| 0 <= m < n && dist(start, m, n) < dist(start, j as int, n) ==> declines(#[trigger] a[m], false)
            &&& resume_step(a[j as int], b[j as int], ta, tb, j, false, Some(res))
            &&& forall|m: int| 0 <= m < n && m != j ==> #[trigger] b[m] == a[m]
        },
    }
}

impl Node {
    /// The nodes of the ring that this node (index `id`) belongs to, once each,
    /// found by following `next` links from it.
    pub fn iter(&self, id: usize, cluster: &Cluster) -> (r: Vec<usize>)
        requires
            cluster.inv(),
            id < cluster.nodes@.len(),
            self.next == cluster.nodes@[id as int].next,
        ensures
            r@.len() == cluster.nodes@.len(),
            forall|k: int| 0 <= k < r@.len() ==> r@[k] == ring(id as int, k, cluster.nodes@.len() as int),
    {
        let n = cluster.nodes.len();
        let mut r: Vec<usize> = Vec::new();
        let mut cur: usize = id;
        let mut k: usize = 0;
        proof {
            lemma_small_mod(id as nat, n as nat);
        }
        while k < n
            invariant
                cluster.inv(),
                n == cluster.nodes@.len(),
                self.next == cluster.nodes@[id as int].next,
                id < n,
                k <= n,
                cur < n,
                cur == ring(id as int, k as int, n as int),
                r@.len() == k,
                forall|m: int| 0 <= m < k ==> r@[m] == ring(id as int, m, n as int),
            decreases n - k,
        {
            r.push(cur);
            let next = if cur == id { self.next } else { cluster.nodes[cur].next };
            proof {
                assert(cluster.nodes@[cur as int].next == (cur + 1) % (n as int));
                lemma_add_mod_noop(id + k, 1, n as int);
                lemma_mod_bound(cur + 1, n as int);
                if n > 1 {
                    lemma_small_mod(1, n as nat);
                } else {
                    lemma_mod_bound(id + k + 1, 1);
                }
            }
            cur = next;
            k = k + 1;
        }
        r
    }
}

impl Cluster {
    /// Every node is well formed under its index, the ring links are in place and
    /// the count of active nodes is exact.
    pub open spec fn inv(&self) -> bool {
        let n = self.nodes@.len();
        &&& n <= usize::MAX
        &&& forall|i: int| 0 <= i < n ==> (#[trigger] self.nodes@[i]).inv(i as usize, self.threads@)
        &&& forall|i: int| 0 <= i < n ==> (#[trigger] self.nodes@[i]).next == (i + 1) % (n as int)
        &&& self.nodes_active == count_nodes_active(self.nodes@, n)
    }

    /// No node of the ring is shut down.
    pub open spec fn live(&self) -> bool {
        forall|i: int| 0 <= i < self.nodes@.len() ==> word_state((#[trigger] self.nodes@[i]).idle_queue)
            != IdleState::Shutdown
    }

    /// An empty ring.
    pub fn new() -> (r: Cluster)
        ensures
            r.inv(),
            r.nodes@.len() == 0,
            r.threads@.len() == 0,
            r.nodes_active == 0,
    {
        Cluster { nodes: Vec::new(), threads: Vec::new(), nodes_active: 0 }
    }

    /// A ring of one node, linked to itself.
    pub fn from_node(node: Node) -> (r: Cluster)
        requires
            node.inv(0, Seq::empty()),
        ensures
            r.inv(),
            r.nodes@.len() == 1,
            r.threads@.len() == 0,
            r.nodes@[0].workers@ == node.workers@,
            r.nodes@[0].idle_queue == node.idle_queue,
            r.nodes@[0].workers_active == node.workers_active,
            r.nodes_active == if node.workers_active > 0 { 1usize } else { 0usize },
    {
        let mut node = node;
        node.next = 0;
        let active: usize = if node.workers_active > 0 { 1 } else { 0 };
        let mut nodes: Vec<Node> = Vec::new();
        nodes.push(node);
        let r = Cluster { nodes, threads: Vec::new(), nodes_active: active };
        assert(count_nodes_active(r.nodes@, 0) == 0);
        r
    }

    /// Splices `node` into the ring after the last node.
    pub fn push_node(&mut self, node: Node)
        requires
            old(self).inv(),
            node.inv(old(self).nodes@.len() as usize, old(self).threads@),
            old(self).nodes@.len() < usize::MAX,
        ensures
            final(self).inv(),
            final(self).nodes@.len() == old(self).nodes@.len() + 1,
            final(self).threads@ == old(self).threads@,
            forall|j: int| 0 <= j < old(self).nodes@.len() ==> {
                &&& (#[trigger] final(self).nodes@[j]).workers@ == old(self).nodes@[j].workers@
                &&& final(self).nodes@[j].idle_queue == old(self).nodes@[j].idle_queue
                &&& final(self).nodes@[j].workers_active == old(self).nodes@[j].workers_active
            },
            final(self).nodes@.last().workers@ == node.workers@,
            final(self).nodes@.last().idle_queue == node.idle_queue,
            final(self).nodes@.last().workers_active == node.workers_active,
    {
        let ghost a = self.nodes@;
        let n = self.nodes.len();
        proof {
            lemma_nodes_count_bound(a, n as nat);
        }
        let mut node = node;
        node.next = 0;
        let active = node.workers_active > 0;
        if n > 0 {
            let mut last = Node::new(0);
            self.nodes.set_and_swap(n - 1, &mut last);
            last.next = n;
            self.nodes.set_and_swap(n - 1, &mut last);
        }
        self.nodes.push(node);
        proof {
            let b = self.nodes@;
            lemma_nodes_count_frame(a.push(node), b, (n + 1) as nat, n as int);
            assert(count_nodes_active(a.push(node), n as nat) == count_nodes_active(a, n as nat)) by {
                lemma_nodes_count_frame(a, a.push(node), n as nat, -1);
            }
            assert forall|i: int| 0 <= i < n + 1 implies (#[trigger] b[i]).next == (i + 1) % ((n + 1) as int) by {
                if i < n - 1 {
                    assert(a[i].next == (i + 1) % (n as int));
                    lemma_small_mod((i + 1) as nat, n as nat);
                    lemma_small_mod((i + 1) as nat, (n + 1) as nat);
                } else if i == n - 1 {
                    lemma_small_mod((i + 1) as nat, (n + 1) as nat);
                } else {
                    lemma_mod_add_multiples_vanish(0, (n + 1) as int);
                    lemma_small_mod(0, (n + 1) as nat);
                }
            }
        }
        if active {
            self.nodes_active = self.nodes_active + 1;
        }
    }

    /// Number of nodes in the ring.
    pub fn len(&self) -> (r: usize)
        ensures
            r == self.nodes@.len(),
    {
        self.nodes.len()
    }

    /// The nodes of the ring in ring order, from the first.
    pub fn iter(&self) -> (r: Vec<usize>)
        ensures
            r@.len() == self.nodes@.len(),
            forall|k: int| 0 <= k < r@.len() ==> r@[k] == k,
    {
        let r = self.iter_nodes(0);
        assert forall|k: int| 0 <= k < r@.len() implies r@[k] == k by {
            lemma_small_mod(k as nat, self.nodes@.len());
        }
        r
    }

    /// The nodes of the ring in ring order, once each, from `start`.
    pub fn iter_nodes(&self, start: usize) -> (r: Vec<usize>)
        requires
            self.nodes@.len() == 0 || start < self.nodes@.len(),
        ensures
            r@.len() == self.nodes@.len(),
            forall|k: int| 0 <= k < r@.len() ==> r@[k] == ring(start as int, k, self.nodes@.len() as int),
    {
        let n = self.nodes.len();
        let mut r: Vec<usize> = Vec::new();
        let mut k: usize = 0;
        while k < n
            invariant
                n == self.nodes@.len(),
                n == 0 || start < n,
                k <= n,
                r@.len() == k,
                forall|m: int| 0 <= m < k ==> r@[m] == ring(start as int, m, n as int),
            decreases n - k,
        {
            r.push(Self::ring_at(start, k, n));
            k = k + 1;
        }
        r
    }

    /// Resumes a worker of node `i` (see `Node::resume_worker`) and counts the node
    /// as active when it gains its first active worker.
    pub fn resume_worker(&mut self, i: usize, was_waking: bool) -> (r: Option<ResumeResult>)
        requires
            old(self).inv(),
            i < old(self).nodes@.len(),
            word_state(old(self).nodes@[i as int].idle_queue) != IdleState::Shutdown,
        ensures
            final(self).inv(),
            final(self).nodes@.len() == old(self).nodes@.len(),
            resume_step(
                old(self).nodes@[i as int],
                final(self).nodes@[i as int],
                old(self).threads@,
                final(self).threads@,
                i,
                was_waking,
                r,
            ),
            forall|j: int| 0 <= j < old(self).nodes@.len() && j != i ==> #[trigger] final(self).nodes@[j]
                == old(self).nodes@[j],
            final(self).nodes_active == old(self).nodes_active + if old(self).nodes@[i as int].workers_active
                == 0 && final(self).nodes@[i as int].workers_active > 0 {
                1int
            } else {
                0int
            },
    {
        let ghost a = self.nodes@;
        let ghost th1 = self.threads@;
        let n = self.nodes.len();
        let mut node = Node::new(0);
        self.nodes.set_and_swap(i, &mut node);
        let was_active = node.workers_active > 0;
        let r = node.resume_worker(i, &mut self.threads, was_waking);
        let now_active = node.workers_active > 0;
        self.nodes.set_and_swap(i, &mut node);
        proof {
            let b = self.nodes@;
            let th2 = self.threads@;
            assert forall|j: int| 0 <= j < n implies (#[trigger] b[j]).inv(j as usize, th2) by {
                if j != i {
                    assert(a[j].inv(j as usize, th1));
                    lemma_inv_frame(&a[j], j as usize, th1, th2);
                }
            }
            lemma_nodes_count_frame(a, b, n as nat, i as int);
            lemma_nodes_count_bound(b, n as nat);
        }
        if !was_active && now_active {
            self.nodes_active = self.nodes_active + 1;
        }
        r
    }

    /// Resumes a worker of node `i` unless another wake-up there is in flight.
    pub fn try_resume_worker(&mut self, i: usize) -> (r: Option<ResumeResult>)
        requires
            old(self).inv(),
            i < old(self).nodes@.len(),
            word_state(old(self).nodes@[i as int].idle_queue) != IdleState::Shutdown,
        ensures
            final(self).inv(),
            final(self).nodes@.len() == old(self).nodes@.len(),
            resume_step(
                old(self).nodes@[i as int],
                final(self).nodes@[i as int],
                old(self).threads@,
                final(self).threads@,
                i,
                false,
                r,
            ),
            forall|j: int| 0 <= j < old(self).nodes@.len() && j != i ==> #[trigger] final(self).nodes@[j]
                == old(self).nodes@[j],
            final(self).nodes_active == old(self).nodes_active + if old(self).nodes@[i as int].workers_active
                == 0 && final(self).nodes@[i as int].workers_active > 0 {
                1int
            } else {
                0int
            },
    {
        self.resume_worker(i, false)
    }

    /// Walks the ring from `start` and resumes a worker on the first node that does
    /// not decline; returns that node with the outcome.
    pub fn try_resume_some_worker(&mut self, start: usize) -> (r: Option<(usize, ResumeResult)>)
        requires
            old(self).inv(),
            old(self).live(),
            start < old(self).nodes@.len(),
        ensures
            final(self).inv(),
            resume_some_step(
                old(self).nodes@,
                old(self).threads@,
                final(self).nodes@,
                final(self).threads@,
                start as int,
                r,
            ),
    {
        let n = self.nodes.len();
        let mut k: usize = 0;
        while k < n
            invariant
                self.inv(),
                self.live(),
                self.nodes@ == old(self).nodes@,
                self.threads@ == old(self).threads@,
                n == self.nodes@.len(),
                start < n,
                k <= n,
                forall|m: int| 0 <= m < n && dist(start as int, m, n as int) < k ==> declines(
                    #[trigger] old(self).nodes@[m],
                    false,
                ),
            decreases n - k,
        {
            let j = Self::ring_at(start, k, n);
            let ghost a = self.nodes@;
            let r = self.resume_worker(j, false);
            match r {
                Some(res) => {
                    return Some((j, res));
                },
                None => {},
            }
            proof {
                assert(declines(a[j as int], false));
                assert(self.nodes@ =~= a);
                assert forall|m: int| 0 <= m < n && dist(start as int, m, n as int) < k + 1 implies declines(
                    #[trigger] old(self).nodes@[m],
                    false,
                ) by {
                    if dist(start as int, m, n as int) == k {
                        Self::lemma_dist_unique(start as int, m, j as int, n as int);
                    }
                }
            }
            k = k + 1;
        }
        proof {
            assert forall|m: int| 0 <= m < n implies declines(#[trigger] old(self).nodes@[m], false) by {
                assert(dist(start as int, m, n as int) < n) by {
                    lemma_mod_bound(m - start + n, n as int);
                }
            }
        }
        None
    }

    /// Called by the waking thread of node `i` once it has found work: hands the
    /// baton to another worker of node `i` if one can be resumed there, and
    /// otherwise walks the rest of the ring from the next node.
    pub fn stop_waking(&mut self, i: usize) -> (r: Option<(usize, ResumeResult)>)
        requires
            old(self).inv(),
            old(self).live(),
            i < old(self).nodes@.len(),
        ensures
            final(self).inv(),
            !declines(old(self).nodes@[i as int], true) ==> match r {
                Some((j, res)) => {
                    &&& j == i
                    &&& resume_step(
                        old(self).nodes@[i as int],
                        final(self).nodes@[i as int],
                        old(self).threads@,
                        final(self).threads@,
                        i,
                        true,
                        Some(res),
                    )
                    &&& final(self).nodes@.len() == old(self).nodes@.len()
                    &&& forall|m: int| 0 <= m < old(self).nodes@.len() && m != i ==> #[trigger] final(self).nodes@[m]
                        == old(self).nodes@[m]
                },
                None => false,
            },
            declines(old(self).nodes@[i as int], true) && old(self).nodes@.len() > 1 ==> resume_some_step(
                old(self).nodes@,
                old(self).threads@,
                final(self).nodes@,
                final(self).threads@,
                (i + 1) % (old(self).nodes@.len() as int),
                r,
            ),
            declines(old(self).nodes@[i as int], true) && old(self).nodes@.len() == 1 ==> {
                &&& r is None
                &&& final(self).nodes@ == old(self).nodes@
                &&& final(self).threads@ == old(self).threads@
            },
    {
        let n = self.nodes.len();
        let ghost a = self.nodes@;
        match self.resume_worker(i, true) {
            Some(res) => Some((i, res)),
            None => {
                assert(self.nodes@ =~= a);
                if n > 1 {
                    let next = Self::ring_at(i, 1, n);
                    self.try_resume_some_worker(next)
                } else {
                    None
                }
            },
        }
    }

    /// A thread with id `thread_id` starts in slot `slot` of node `i`, which a
    /// `Spawn` claimed; returns its handle (see `Node::install_thread`).
    pub fn install_thread(&mut self, i: usize, slot: u64, thread_id: u64) -> (t: usize)
        requires
            old(self).inv(),
            i < old(self).nodes@.len(),
            1 <= slot <= old(self).nodes@[i as int].workers@.len(),
            old(self).nodes@[i as int].workers@[slot - 1] == WorkerRef::Node(i),
            old(self).threads@.len() < usize::MAX,
        ensures
            final(self).inv(),
            t == old(self).threads@.len(),
            final(self).threads@ == old(self).threads@.push(
                Thread { state: ThreadState::Waking, next_index: 0, worker: slot, node: i, id: thread_id },
            ),
            final(self).nodes@.len() == old(self).nodes@.len(),
            final(self).nodes@[i as int].workers@ == old(self).nodes@[i as int].workers@.update(
                slot - 1,
                WorkerRef::Thread(t),
            ),
            final(self).nodes@[i as int].idle_queue == old(self).nodes@[i as int].idle_queue,
            final(self).nodes@[i as int].workers_active == old(self).nodes@[i as int].workers_active,
            final(self).nodes_active == old(self).nodes_active,
            forall|j: int| 0 <= j < old(self).nodes@.len() && j != i ==> #[trigger] final(self).nodes@[j]
                == old(self).nodes@[j],
    {
        let ghost a = self.nodes@;
        let ghost th1 = self.threads@;
        let n = self.nodes.len();
        let mut node = Node::new(0);
        self.nodes.set_and_swap(i, &mut node);
        let t = node.install_thread(i, &mut self.threads, slot, thread_id);
        self.nodes.set_and_swap(i, &mut node);
        proof {
            let b = self.nodes@;
            let th2 = self.threads@;
            assert forall|j: int| 0 <= j < n implies (#[trigger] b[j]).inv(j as usize, th2) by {
                if j != i {
                    assert(a[j].inv(j as usize, th1));
                    lemma_inv_frame(&a[j], j as usize, th1, th2);
                }
            }
            lemma_nodes_count_frame(a, b, n as nat, -1);
        }
        t
    }

    /// Shuts every node of the ring down, walking it once from `start`, and returns
    /// the threads shut down in walk order (see `Node::shutdown`).
    pub fn shutdown_all(&mut self, start: usize) -> (r: Vec<usize>)
        requires
            old(self).inv(),
            old(self).live(),
            start < old(self).nodes@.len(),
        ensures
            final(self).inv(),
            final(self).nodes_active == old(self).nodes_active,
            cascade_step(
                old(self).nodes@,
                old(self).threads@,
                final(self).nodes@,
                final(self).threads@,
                start as int,
                r@,
            ),
    {
        let ghost a = self.nodes@;
        let ghost ta = self.threads@;
        let n = self.nodes.len();
        let mut r: Vec<usize> = Vec::new();
        let mut k: usize = 0;
        while k < n
            invariant
                n == self.nodes@.len(),
                n == a.len(),
                start < n,
                k <= n,
                a == old(self).nodes@,
                ta == old(self).threads@,
                old(self).inv(),
                old(self).live(),
                self.threads@.len() == ta.len(),
                self.nodes_active == old(self).nodes_active,
                forall|m: int| 0 <= m < n ==> (#[trigger] self.nodes@[m]).inv(m as usize, self.threads@),
                forall|m: int| 0 <= m < n ==> (#[trigger] self.nodes@[m]).workers_active == a[m].workers_active
                    && self.nodes@[m].next == a[m].next,
                forall|m: int| 0 <= m < n ==> if dist(start as int, m, n as int) < k {
                    node_shut(a[m], #[trigger] self.nodes@[m], ta)
                } else {
                    self.nodes@[m] == a[m]
                },
                forall|t: int| 0 <= t < ta.len() ==> #[trigger] self.threads@[t] == if 0 <= ta[t].node < n && dist(
                    start as int,
                    ta[t].node as int,
                    n as int,
                ) < k {
                    thread_shut(a, ta, t)
                } else {
                    ta[t]
                },
                r@ == cascade_threads(a, start as int, k as nat),
            decreases n - k,
        {
            let j = Self::ring_at(start, k, n);
            let ghost th1 = self.threads@;
            let ghost nodes1 = self.nodes@;
            assert(nodes1[j as int] == a[j as int]);
            let mut node = Node::new(0);
            self.nodes.set_and_swap(j, &mut node);
            let mut got = node.shutdown(j, &mut self.threads);
            self.nodes.set_and_swap(j, &mut node);
            r.append(&mut got);
            proof {
                let b = self.nodes@;
                let th2 = self.threads@;
                let aw = a[j as int].workers@;
                assert forall|m: int| 0 <= m < n implies (#[trigger] b[m]).inv(m as usize, th2) by {
                    if m != j {
                        assert(nodes1[m].inv(m as usize, th1));
                        lemma_inv_frame(&nodes1[m], m as usize, th1, th2);
                    }
                }
                assert forall|s: int| 0 <= s < aw.len() implies shut_slot(aw[s], th1, a[j as int].idle@.contains((s + 1) as u64))
                    == shut_slot(aw[s], ta, a[j as int].idle@.contains((s + 1) as u64)) by {
                    assert(a[j as int].inv(j, ta));
                    assert(crate::node::slot_ok(aw[s], (s + 1) as u64, j, aw.len(), ta));
                    if aw[s] is Thread {
                        let tt = aw[s]->Thread_0 as int;
                        assert(ta[tt].node == j);
                        Self::lemma_dist_value(start as int, j as int, n as int);
                        assert(th1[tt] == ta[tt]);
                    }
                }
                assert forall|m: int| 0 <= m < n implies if dist(start as int, m, n as int) < k + 1 {
                    node_shut(a[m], #[trigger] b[m], ta)
                } else {
                    b[m] == a[m]
                } by {
                    if m != j {
                        if dist(start as int, m, n as int) == k {
                            Self::lemma_dist_unique(start as int, m, j as int, n as int);
                        }
                    }
                }
                assert forall|t: int| 0 <= t < ta.len() implies #[trigger] th2[t] == if 0 <= ta[t].node < n && dist(
                    start as int,
                    ta[t].node as int,
                    n as int,
                ) < k + 1 {
                    thread_shut(a, ta, t)
                } else {
                    ta[t]
                } by {
                    let nd = ta[t].node as int;
                    if nd == j {
                        assert(th1[t] == ta[t]);
                    } else {
                        assert(th1[t].node != j);
                        if 0 <= nd < n && dist(start as int, nd, n as int) == k {
                            Self::lemma_dist_unique(start as int, nd, j as int, n as int);
                        }
                    }
                }
            }
            k = k + 1;
        }
        proof {
            let b = self.nodes@;
            assert forall|m: int| 0 <= m < n implies dist(start as int, m, n as int) < n by {
                lemma_mod_bound(m - start + n, n as int);
            }
            lemma_nodes_count_frame(a, b, n as nat, -1);
            assert forall|t: int| 0 <= t < ta.len() implies #[trigger] self.threads@[t] == thread_shut(a, ta, t) by {
                let nd = ta[t].node as int;
                if 0 <= nd < n {
                    lemma_mod_bound(nd - start + n, n as int);
                }
            }
        }
        r
    }

    /// Suspends thread `t` on its node (see `Node::suspend_worker`). When that was
    /// the last active worker of the last active node, the whole ring is shut down
    /// from that node and the shut-down threads are returned; otherwise `None`.
    pub fn suspend_worker(&mut self, t: usize) -> (r: Option<Vec<usize>>)
        requires
            old(self).inv(),
            old(self).live(),
            t < old(self).threads@.len(),
            old(self).threads@[t as int].node < old(self).nodes@.len(),
            ({
                let th = old(self).threads@[t as int];
                let nd = old(self).nodes@[th.node as int];
                &&& 1 <= th.worker <= nd.workers@.len()
                &&& nd.workers@[th.worker - 1] == WorkerRef::Thread(t)
                &&& th.state == ThreadState::Running || th.state == ThreadState::Waking
                &&& nd.workers_active > 0
            }),
        ensures
            final(self).inv(),
            final(self).nodes@.len() == old(self).nodes@.len(),
            ({
                let i = old(self).threads@[t as int].node as int;
                let last = old(self).nodes@[i].workers_active == 1 && old(self).nodes_active == 1;
                &&& r is Some <==> last
                &&& final(self).nodes_active == old(self).nodes_active - if old(self).nodes@[i].workers_active == 1 {
                    1int
                } else {
                    0int
                }
                &&& !last ==> {
                    &&& suspend_step(old(self).nodes@[i], final(self).nodes@[i], old(self).threads@, final(self).threads@, t)
                    &&& forall|j: int| 0 <= j < old(self).nodes@.len() && j != i ==> #[trigger] final(self).nodes@[j]
                        == old(self).nodes@[j]
                }
                &&& r matches Some(v) ==> exists|mn: Seq<Node>, mt: Seq<Thread>| {
                    &&& #[trigger] suspend_step(old(self).nodes@[i], mn[i], old(self).threads@, mt, t)
                    &&& mn.len() == old(self).nodes@.len()
                    &&& forall|j: int| 0 <= j < mn.len() && j != i ==> #[trigger] mn[j] == old(self).nodes@[j]
                    &&& cascade_step(mn, mt, final(self).nodes@, final(self).threads@, i, v@)
                }
            }),
    {
        let ghost a = self.nodes@;
        let ghost th1 = self.threads@;
        let n = self.nodes.len();
        let i = self.threads[t].node;
        let mut node = Node::new(0);
        self.nodes.set_and_swap(i, &mut node);
        let last = node.suspend_worker(i, &mut self.threads, t);
        self.nodes.set_and_swap(i, &mut node);
        proof {
            let b = self.nodes@;
            let th2 = self.threads@;
            assert(a[i as int].inv(i, th1));
            assert forall|j: int| 0 <= j < n implies (#[trigger] b[j]).inv(j as usize, th2) by {
                if j != i {
                    assert(a[j].inv(j as usize, th1));
                    lemma_inv_frame(&a[j], j as usize, th1, th2);
                }
            }
            lemma_nodes_count_frame(a, b, n as nat, i as int);
            assert(a[i as int].workers_active > 0);
        }
        if last {
            self.nodes_active = self.nodes_active - 1;
            if self.nodes_active == 0 {
                let ghost mn = self.nodes@;
                let ghost mt = self.threads@;
                assert forall|m: int| 0 <= m < n implies word_state((#[trigger] mn[m]).idle_queue) != IdleState::Shutdown by {
                    if m != i {
                        assert(mn[m] == a[m]);
                    }
                }
                let v = self.shutdown_all(i);
                assert(suspend_step(a[i as int], mn[i as int], th1, mt, t));
                return Some(v);
            }
        }
        None
    }

    proof fn lemma_dist_unique(start: int, m: int, j: int, n: int)
        requires
            0 <= start < n,
            0 <= m < n,
            0 <= j < n,
            dist(start, m, n) == dist(start, j, n),
        ensures
            m == j,
    {
        Self::lemma_dist_value(start, m, n);
        Self::lemma_dist_value(start, j, n);
    }

    proof fn lemma_dist_value(start: int, m: int, n: int)
        requires
            0 <= start < n,
            0 <= m < n,
        ensures
            m >= start ==> dist(start, m, n) == m - start,
            m < start ==> dist(start, m, n) == m - start + n,
    {
        if m >= start {
            lemma_mod_add_multiples_vanish(m - start, n);
            lemma_small_mod((m - start) as nat, n as nat);
        } else {
            lemma_small_mod((m - start + n) as nat, n as nat);
        }
    }

    fn ring_at(start: usize, k: usize, n: usize) -> (j: usize)
        requires
            start < n,
            k < n,
        ensures
            j == ring(start as int, k as int, n as int),
            j < n,
            dist(start as int, j as int, n as int) == k,
    {
        proof {
            lemma_small_mod(k as nat, n as nat);
            lemma_mod_add_multiples_vanish(k as int, n as int);
        }
        if k < n - start {
            assert((start + k) % (n as int) == start + k) by (nonlinear_arith)
                requires
                    0 <= start + k < n,
            ;
            start + k
        } else {
            assert((start + k) % (n as int) == start + k - n) by (nonlinear_arith)
                requires
                    n <= start + k < 2 * n,
            ;
            k - (n - start)
        }
    }
}

} // verus!
