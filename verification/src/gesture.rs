//! Gesture recognition decisions: first-resolved-wins arbitration between
//! the tap, long-press and drag recognizers of a touch's target chain,
//! and `DragMove` delivery throttling.
//!
//! Distances are measured by the caller, which reports for every move
//! whether each node's drag may start and whether its tap stays within
//! slop. Times are nanoseconds since the touch started.

use vstd::prelude::*;

verus! {

/// Which axes a measurement is restricted to.
#[derive(Debug, Clone, Copy, PartialEq, Eq, Structural)]
pub enum Axes {
    Both,
    Y,
    X,
}

/// The required dominant direction before a drag can start.
#[derive(Debug, Clone, Copy, PartialEq, Eq, Structural)]
pub enum Direction {
    Any,
    Vertical,
    Horizontal,
}

/// Configuration of a tap recognizer.
#[derive(Debug, Clone, Copy)]
pub struct TapCfg {
    /// Axes the slop travel is measured on.
    pub axes: Axes,
}

/// Configuration of a long-press recognizer.
#[derive(Debug, Clone, Copy, Default)]
pub struct LongPressCfg {}

/// What a recognizer resolved. `V` is the release velocity type.
#[derive(Debug, Clone, Copy, PartialEq)]
pub enum Recognition<V> {
    Tap,
    LongPress,
    DragStart,
    DragMove,
    DragEnd { vel: V },
}

/// The gestures one chain node accepts.
#[derive(Debug, Clone, Copy)]
pub struct NodeGestures {
    pub tap: bool,
    pub long_press: bool,
    pub drag: bool,
}

/// What a move means for one chain node, measured by the caller.
#[derive(Debug, Clone, Copy)]
pub struct NodeMove {
    /// The node's drag threshold is exceeded in its required direction.
    pub drag_ready: bool,
    /// The travel on the node's tap axes is within the touch slop.
    pub tap_within_slop: bool,
}

/// Per-node recognizer state for one touch.
#[derive(Debug, Clone, Copy)]
pub struct NodeRec {
    pub has_drag: bool,
    pub tap_alive: bool,
    pub drag_alive: bool,
    pub drag_started: bool,
    pub long_press_alive: bool,
    pub long_press_fired: bool,
}

/// The recognition arena for one touch: every recognizer configured by
/// the target chain (root first) observes the stream; the first to
/// resolve claims the gesture and the rest are cancelled.
pub struct Arena {
    /// Maximum tap duration, in nanoseconds
    tap_max_duration: u128,
    /// Recognizer state per chain node, chain order (root first)
    nodes: Vec<NodeRec>,
    /// Index of the node whose drag recognizer claimed the touch
    drag_claimant: Option<usize>,
}

/// A fresh node record for a gesture set.
pub open spec fn initial_rec(set: NodeGestures) -> NodeRec {
    NodeRec {
        has_drag: set.drag,
        tap_alive: set.tap,
        drag_alive: set.drag,
        drag_started: false,
        long_press_alive: set.long_press,
        long_press_fired: false,
    }
}

/// A node record with every pending recognizer cancelled.
pub open spec fn cancelled(r: NodeRec) -> NodeRec {
    NodeRec { tap_alive: false, long_press_alive: false, drag_alive: false, ..r }
}

/// The deepest node whose drag can start on this move, if any.
pub open spec fn drag_start_node(nodes: Seq<NodeRec>, moves: Seq<NodeMove>, below: int) -> Option<int>
    decreases below,
{
    if below <= 0 {
        None
    } else if nodes[below - 1].has_drag && nodes[below - 1].drag_alive && moves[below - 1].drag_ready {
        Some(below - 1)
    } else {
        drag_start_node(nodes, moves, below - 1)
    }
}

/// The deepest node below index `below` whose tap may still resolve.
pub open spec fn deepest_tap(nodes: Seq<NodeRec>, below: int) -> Option<int>
    decreases below,
{
    if below <= 0 {
        None
    } else if tap_pending(nodes[below - 1]) {
        Some(below - 1)
    } else {
        deepest_tap(nodes, below - 1)
    }
}

/// The deepest node below index `below` whose long press may still fire.
pub open spec fn deepest_long_press(nodes: Seq<NodeRec>, below: int) -> Option<int>
    decreases below,
{
    if below <= 0 {
        None
    } else if long_press_pending(nodes[below - 1]) {
        Some(below - 1)
    } else {
        deepest_long_press(nodes, below - 1)
    }
}

/// A node whose tap may still resolve.
pub open spec fn tap_pending(r: NodeRec) -> bool {
    r.tap_alive
}

/// A node whose long press may still fire.
pub open spec fn long_press_pending(r: NodeRec) -> bool {
    r.long_press_alive && !r.long_press_fired
}

impl Arena {
    pub closed spec fn spec_nodes(&self) -> Seq<NodeRec> {
        self.nodes@
    }

    pub closed spec fn claimant(&self) -> Option<usize> {
        self.drag_claimant
    }

    pub closed spec fn tap_max(&self) -> u128 {
        self.tap_max_duration
    }

    /// A claimed drag has cancelled every other recognizer.
    pub open spec fn wf(&self) -> bool {
        match self.claimant() {
            Some(c) => {
                &&& c < self.spec_nodes().len()
                &&& self.spec_nodes()[c as int].drag_started
                &&& forall|i: int| 0 <= i < self.spec_nodes().len() ==> {
                    &&& !(#[trigger] self.spec_nodes()[i]).tap_alive
                    &&& !self.spec_nodes()[i].long_press_alive
                    &&& !self.spec_nodes()[i].drag_alive
                }
            },
            None => true,
        }
    }

    /// Build the arena from the chain's gesture sets (root first).
    pub fn new(tap_max_duration: u128, sets: &[NodeGestures]) -> (r: Self)
        ensures
            r.wf(),
            r.claimant() is None,
            r.tap_max() == tap_max_duration,
            r.spec_nodes().len() == sets@.len(),
            forall|i: int| 0 <= i < sets@.len() ==> r.spec_nodes()[i] == initial_rec(#[trigger] sets@[i]),
    {
        let mut nodes: Vec<NodeRec> = Vec::new();
        let mut i: usize = 0;
        while i < sets.len()
            invariant
                0 <= i <= sets@.len(),
                nodes@.len() == i,
                forall|j: int| 0 <= j < i ==> nodes@[j] == initial_rec(#[trigger] sets@[j]),
            decreases sets@.len() - i,
        {
            let set = sets[i];
            nodes.push(NodeRec {
                has_drag: set.drag,
                tap_alive: set.tap,
                drag_alive: set.drag,
                drag_started: false,
                long_press_alive: set.long_press,
                long_press_fired: false,
            });
            i = i + 1;
        }
        Self { tap_max_duration, nodes, drag_claimant: None }
    }

    /// Whether any chain node accepts a long-press, i.e. whether a
    /// long-press timer is needed for this touch.
    pub fn wants_long_press(&self) -> (r: bool)
        ensures
            r == exists|i: int| 0 <= i < self.spec_nodes().len() && #[trigger] self.spec_nodes()[i].long_press_alive,
    {
        let mut i: usize = 0;
        while i < self.nodes.len()
            invariant
                0 <= i <= self.nodes@.len(),
                forall|j: int| 0 <= j < i ==> !(#[trigger] self.nodes@[j]).long_press_alive,
            decreases self.nodes@.len() - i,
        {
            if self.nodes[i].long_press_alive {
                assert(self.spec_nodes()[i as int].long_press_alive);
                return true;
            }
            i = i + 1;
        }
        false
    }

    /// The number of chain nodes the arena arbitrates between.
    pub fn node_count(&self) -> (n: usize)
        ensures
            n == self.spec_nodes().len(),
    {
        self.nodes.len()
    }

    /// Whether a drag has claimed the touch.
    pub fn drag_started(&self) -> (r: bool)
        ensures
            r == self.claimant() is Some,
    {
        self.drag_claimant.is_some()
    }

    fn claim_drag(&mut self, claimant: usize)
        requires
            claimant < old(self).nodes@.len(),
        ensures
            final(self).wf(),
            final(self).claimant() == Some(claimant),
            final(self).tap_max() == old(self).tap_max(),
            final(self).spec_nodes().len() == old(self).spec_nodes().len(),
            forall|i: int| 0 <= i < old(self).spec_nodes().len() && i != claimant ==> #[trigger] final(self).spec_nodes()[i]
                == cancelled(old(self).spec_nodes()[i]),
            final(self).spec_nodes()[claimant as int] == (NodeRec {
                drag_started: true,
                ..cancelled(old(self).spec_nodes()[claimant as int])
            }),
    {
        let n = self.nodes.len();
        let mut i: usize = 0;
        while i < n
            invariant
                n == self.nodes@.len(),
                n == old(self).nodes@.len(),
                0 <= i <= n,
                claimant < n,
                self.tap_max_duration == old(self).tap_max_duration,
                forall|j: int| 0 <= j < i ==> #[trigger] self.nodes@[j] == cancelled(old(self).nodes@[j]),
                forall|j: int| i <= j < n ==> #[trigger] self.nodes@[j] == old(self).nodes@[j],
            decreases n - i,
        {
            let mut r = self.nodes[i];
            r.tap_alive = false;
            r.long_press_alive = false;
            r.drag_alive = false;
            self.nodes.set(i, r);
            i = i + 1;
        }
        let mut c = self.nodes[claimant];
        c.drag_started = true;
        self.nodes.set(claimant, c);
        self.drag_claimant = Some(claimant);
    }
}

/// Skipping nodes without a pending tap does not change the deepest one.
proof fn lemma_tap_skip(nodes: Seq<NodeRec>, lo: int, hi: int)
    requires
        0 <= lo <= hi <= nodes.len(),
        forall|j: int| lo <= j < hi ==> !tap_pending(#[trigger] nodes[j]),
    ensures
        deepest_tap(nodes, hi) == deepest_tap(nodes, lo),
    decreases hi - lo,
{
    if lo < hi {
        lemma_tap_skip(nodes, lo, hi - 1);
    }
}

/// Skipping nodes without a pending long press does not change the deepest one.
proof fn lemma_long_press_skip(nodes: Seq<NodeRec>, lo: int, hi: int)
    requires
        0 <= lo <= hi <= nodes.len(),
        forall|j: int| lo <= j < hi ==> !long_press_pending(#[trigger] nodes[j]),
    ensures
        deepest_long_press(nodes, hi) == deepest_long_press(nodes, lo),
    decreases hi - lo,
{
    if lo < hi {
        lemma_long_press_skip(nodes, lo, hi - 1);
    }
}

proof fn lemma_drag_start_skip(nodes: Seq<NodeRec>, moves: Seq<NodeMove>, lo: int, hi: int)
    requires
        0 <= lo <= hi <= nodes.len(),
        nodes.len() == moves.len(),
        forall|j: int| lo <= j < hi ==> !(#[trigger] nodes[j].has_drag && nodes[j].drag_alive && moves[j].drag_ready),
    ensures
        drag_start_node(nodes, moves, hi) == drag_start_node(nodes, moves, lo),
    decreases hi - lo,
{
    if lo < hi {
        lemma_drag_start_skip(nodes, moves, lo, hi - 1);
    }
}

/// The deepest pending long press is a pending one.
proof fn lemma_deepest_long_press_pending(nodes: Seq<NodeRec>, below: int)
    requires
        below <= nodes.len(),
    ensures
        deepest_long_press(nodes, below) matches Some(k) ==> 0 <= k < below && long_press_pending(nodes[k]),
    decreases below,
{
    if below > 0 && !long_press_pending(nodes[below - 1]) {
        lemma_deepest_long_press_pending(nodes, below - 1);
    }
}

/// A node's long press fires at most once per touch: once it fired (and
/// the pending taps were cancelled, as the timeout does), the next
/// timeout never picks that node again.
pub proof fn lemma_long_press_once(nodes: Seq<NodeRec>, i: int)
    requires
        deepest_long_press(nodes, nodes.len() as int) == Some(i),
    ensures
        ({
            let after = Seq::new(
                nodes.len(),
                |j: int| NodeRec { tap_alive: false, long_press_fired: nodes[j].long_press_fired || j == i, ..nodes[j] },
            );
            deepest_long_press(after, after.len() as int) != Some(i)
        }),
{
    let after = Seq::new(
        nodes.len(),
        |j: int| NodeRec { tap_alive: false, long_press_fired: nodes[j].long_press_fired || j == i, ..nodes[j] },
    );
    lemma_deepest_long_press_pending(nodes, nodes.len() as int);
    lemma_deepest_long_press_pending(after, after.len() as int);
}

/// A node's state after a move that starts no drag: its tap survives only
/// within slop, and so does its long press.
pub open spec fn after_still_move(r: NodeRec, m: NodeMove, long_press_within_slop: bool) -> NodeRec {
    NodeRec {
        tap_alive: r.tap_alive && m.tap_within_slop,
        long_press_alive: r.long_press_alive && long_press_within_slop,
        ..r
    }
}

/// Moving beyond the slop cancels a pending tap or long press for good,
/// and a move within the slop keeps it: a node's tap survives a move that
/// starts no drag exactly when it was pending and the move stays within
/// its tap slop, and likewise its long press within the long-press slop.
pub proof fn lemma_still_move_slop(r: NodeRec, m: NodeMove, long_press_within_slop: bool)
    ensures
        after_still_move(r, m, long_press_within_slop).tap_alive <==> r.tap_alive && m.tap_within_slop,
        after_still_move(r, m, long_press_within_slop).long_press_alive <==> r.long_press_alive
            && long_press_within_slop,
        long_press_pending(after_still_move(r, m, long_press_within_slop)) ==> long_press_within_slop,
        after_still_move(r, m, long_press_within_slop).long_press_fired == r.long_press_fired,
        after_still_move(r, m, long_press_within_slop).drag_alive == r.drag_alive,
{
}

impl Arena {
    /// Observe a move. Returns recognitions in delivery order (at most
    /// one): the claimant's `DragMove` while dragging, else the deepest
    /// ready drag starts, else movement beyond slop cancels pending taps
    /// and long-presses.
    pub fn on_move<V>(&mut self, t: u128, moves: &[NodeMove], long_press_within_slop: bool) -> (r: Vec<
        (usize, Recognition<V>),
    >)
        requires
            old(self).wf(),
            moves@.len() == old(self).spec_nodes().len(),
        ensures
            final(self).wf(),
            final(self).tap_max() == old(self).tap_max(),
            final(self).spec_nodes().len() == old(self).spec_nodes().len(),
            old(self).claimant() matches Some(c) ==> r@ == seq![(c, Recognition::<V>::DragMove)]
                && final(self).spec_nodes() == old(self).spec_nodes() && final(self).claimant()
                == old(self).claimant(),
            old(self).claimant() is None ==> match drag_start_node(
                old(self).spec_nodes(),
                moves@,
                old(self).spec_nodes().len() as int,
            ) {
                Some(i) => r@ == seq![(i as usize, Recognition::<V>::DragStart)] && final(self).claimant()
                    == Some(i as usize),
                None => r@ == Seq::<(usize, Recognition<V>)>::empty() && final(self).claimant() is None
                    && forall|j: int| 0 <= j < old(self).spec_nodes().len() ==> #[trigger] final(self).spec_nodes()[j]
                    == after_still_move(old(self).spec_nodes()[j], moves@[j], long_press_within_slop),
            },
            old(self).claimant() is None && r@.len() == 0 ==> {
                &&& !long_press_within_slop ==> forall|j: int|
                    0 <= j < final(self).spec_nodes().len() ==> !(#[trigger] final(self).spec_nodes()[j]).long_press_alive
                &&& !long_press_within_slop ==> deepest_long_press(
                    final(self).spec_nodes(),
                    final(self).spec_nodes().len() as int,
                ) is None
                &&& forall|j: int|
                    0 <= j < final(self).spec_nodes().len() && !moves@[j].tap_within_slop ==> !(
                    #[trigger] final(self).spec_nodes()[j]).tap_alive
                &&& forall|j: int|
                    0 <= j < final(self).spec_nodes().len() ==> (#[trigger] final(self).spec_nodes()[j]).long_press_fired
                        == old(self).spec_nodes()[j].long_press_fired && (final(self).spec_nodes()[j].long_press_alive
                        ==> old(self).spec_nodes()[j].long_press_alive) && (long_press_within_slop
                        ==> final(self).spec_nodes()[j].long_press_alive == old(self).spec_nodes()[j].long_press_alive)
            },
    {
        let _ = t;
        if let Some(claimant) = self.drag_claimant {
            let mut r = Vec::new();
            r.push((claimant, Recognition::DragMove));
            return r;
        }
        let n = self.nodes.len();
        let ghost nodes0 = self.nodes@;
        let mut i = n;
        while i > 0
            invariant
                self.nodes@ == nodes0,
                nodes0 == old(self).nodes@,
                self.tap_max_duration == old(self).tap_max_duration,
                self.drag_claimant is None,
                old(self).drag_claimant is None,
                n == nodes0.len(),
                moves@.len() == n,
                0 <= i <= n,
                drag_start_node(nodes0, moves@, n as int) == drag_start_node(nodes0, moves@, i as int),
                self.wf(),
            decreases i,
        {
            let node = self.nodes[i - 1];
            if node.has_drag && node.drag_alive && moves[i - 1].drag_ready {
                self.claim_drag(i - 1);
                let mut r = Vec::new();
                r.push((i - 1, Recognition::DragStart));
                return r;
            }
            proof {
                lemma_drag_start_skip(nodes0, moves@, i - 1, i as int);
            }
            i = i - 1;
        }
        let mut j: usize = 0;
        while j < n
            invariant
                n == nodes0.len(),
                moves@.len() == n,
                self.nodes@.len() == n,
                self.drag_claimant is None,
                self.tap_max_duration == old(self).tap_max_duration,
                nodes0 == old(self).nodes@,
                0 <= j <= n,
                forall|k: int| 0 <= k < j ==> #[trigger] self.nodes@[k] == after_still_move(
                    nodes0[k],
                    moves@[k],
                    long_press_within_slop,
                ),
                forall|k: int| j <= k < n ==> #[trigger] self.nodes@[k] == nodes0[k],
            decreases n - j,
        {
            let mut node = self.nodes[j];
            if node.tap_alive {
                node.tap_alive = moves[j].tap_within_slop;
            }
            if node.long_press_alive {
                node.long_press_alive = long_press_within_slop;
            }
            self.nodes.set(j, node);
            j = j + 1;
        }
        proof {
            if !long_press_within_slop {
                lemma_long_press_skip(self.nodes@, 0, n as int);
            }
        }
        Vec::new()
    }

    /// Observe the touch ending at `t` with release velocity `vel`: the
    /// claimant's `DragEnd` while dragging, else the deepest pending tap
    /// if the touch was short enough.
    pub fn on_up<V>(&mut self, t: u128, vel: V) -> (r: Vec<(usize, Recognition<V>)>)
        requires
            old(self).wf(),
        ensures
            *final(self) == *old(self),
            match old(self).claimant() {
                Some(c) => r@ == seq![(c, Recognition::DragEnd { vel })],
                None => if t > old(self).tap_max() {
                    r@ == Seq::<(usize, Recognition<V>)>::empty()
                } else {
                    match deepest_tap(old(self).spec_nodes(), old(self).spec_nodes().len() as int) {
                        Some(i) => r@ == seq![(i as usize, Recognition::<V>::Tap)],
                        None => r@ == Seq::<(usize, Recognition<V>)>::empty(),
                    }
                },
            },
    {
        if let Some(claimant) = self.drag_claimant {
            let mut r = Vec::new();
            r.push((claimant, Recognition::DragEnd { vel }));
            return r;
        }
        if t > self.tap_max_duration {
            return Vec::new();
        }
        let mut i = self.nodes.len();
        while i > 0
            invariant
                0 <= i <= self.nodes@.len(),
                *self == *old(self),
                self.drag_claimant is None,
                t <= self.tap_max_duration,
                deepest_tap(self.nodes@, self.nodes@.len() as int) == deepest_tap(self.nodes@, i as int),
            decreases i,
        {
            if self.nodes[i - 1].tap_alive {
                assert(tap_pending(self.nodes@[i - 1]));
                let mut r = Vec::new();
                r.push((i - 1, Recognition::Tap));
                return r;
            }
            proof {
                lemma_tap_skip(self.nodes@, i - 1, i as int);
            }
            i = i - 1;
        }
        Vec::new()
    }

    /// The long-press timer's timeout: the deepest node with a pending
    /// long press fires it, once, cancelling every pending tap. Nothing
    /// fires while dragging.
    pub fn long_press_due<V>(&mut self) -> (r: Option<(usize, Recognition<V>)>)
        requires
            old(self).wf(),
        ensures
            final(self).wf(),
            final(self).tap_max() == old(self).tap_max(),
            final(self).claimant() == old(self).claimant(),
            final(self).spec_nodes().len() == old(self).spec_nodes().len(),
            old(self).claimant() is Some ==> r is None && final(self).spec_nodes() == old(self).spec_nodes(),
            old(self).claimant() is None ==> match deepest_long_press(old(self).spec_nodes(), old(self).spec_nodes().len() as int) {
                Some(i) => r == Some((i as usize, Recognition::<V>::LongPress)) && (forall|j: int|
                    0 <= j < old(self).spec_nodes().len() ==> #[trigger] final(self).spec_nodes()[j] == (
                NodeRec {
                    tap_alive: false,
                    long_press_fired: old(self).spec_nodes()[j].long_press_fired || j == i,
                    ..old(self).spec_nodes()[j]
                })),
                None => r is None && final(self).spec_nodes() == old(self).spec_nodes(),
            },
    {
        if self.drag_claimant.is_some() {
            return None;
        }
        let ghost nodes0 = self.nodes@;
        let n = self.nodes.len();
        let mut i = n;
        while i > 0
            invariant
                self.nodes@ == nodes0,
                n == nodes0.len(),
                self.drag_claimant is None,
                old(self).drag_claimant is None,
                self.tap_max_duration == old(self).tap_max_duration,
                nodes0 == old(self).nodes@,
                0 <= i <= n,
                deepest_long_press(nodes0, n as int) == deepest_long_press(nodes0, i as int),
            decreases i,
        {
            let node = self.nodes[i - 1];
            if node.long_press_alive && !node.long_press_fired {
                let k = i - 1;
                assert(long_press_pending(nodes0[k as int]));
                let mut j: usize = 0;
                while j < n
                    invariant
                        n == nodes0.len(),
                        self.nodes@.len() == n,
                        self.drag_claimant is None,
                        old(self).drag_claimant is None,
                        self.tap_max_duration == old(self).tap_max_duration,
                        nodes0 == old(self).nodes@,
                        k < n,
                        0 <= j <= n,
                        forall|m: int| 0 <= m < j ==> #[trigger] self.nodes@[m] == (NodeRec {
                            tap_alive: false,
                            long_press_fired: nodes0[m].long_press_fired || m == k,
                            ..nodes0[m]
                        }),
                        forall|m: int| j <= m < n ==> #[trigger] self.nodes@[m] == nodes0[m],
                    decreases n - j,
                {
                    let mut r = self.nodes[j];
                    r.tap_alive = false;
                    if j == k {
                        r.long_press_fired = true;
                    }
                    self.nodes.set(j, r);
                    j = j + 1;
                }
                return Some((k, Recognition::LongPress));
            }
            proof {
                lemma_long_press_skip(nodes0, i - 1, i as int);
            }
            i = i - 1;
        }
        None
    }
}

/// The samples left once every one older than `cutoff` is dropped from
/// the front (samples are pushed in time order).
pub open spec fn drop_stale<P>(s: Seq<(u128, P)>, cutoff: u128) -> Seq<(u128, P)>
    decreases s.len(),
{
    if s.len() > 0 && s[0].0 < cutoff {
        drop_stale(s.drop_first(), cutoff)
    } else {
        s
    }
}

/// With samples pushed in time order, what stays after dropping the stale
/// ones is the newest run of them, all within the window.
pub proof fn lemma_drop_stale_window<P>(s: Seq<(u128, P)>, cutoff: u128)
    requires
        forall|i: int, j: int| 0 <= i < j < s.len() ==> (#[trigger] s[i]).0 <= (#[trigger] s[j]).0,
    ensures
        drop_stale(s, cutoff).len() <= s.len(),
        drop_stale(s, cutoff) == s.skip(s.len() - drop_stale(s, cutoff).len()),
        forall|i: int| 0 <= i < drop_stale(s, cutoff).len() ==> (#[trigger] drop_stale(s, cutoff)[i]).0 >= cutoff,
        forall|i: int| 0 <= i < s.len() - drop_stale(s, cutoff).len() ==> (#[trigger] s[i]).0 < cutoff,
    decreases s.len(),
{
    if s.len() > 0 && s[0].0 < cutoff {
        let t = s.drop_first();
        assert forall|i: int, j: int| 0 <= i < j < t.len() implies (#[trigger] t[i]).0 <= (#[trigger] t[j]).0 by {
            assert(t[i] == s[i + 1] && t[j] == s[j + 1]);
        }
        lemma_drop_stale_window(t, cutoff);
        assert(t.skip(t.len() - drop_stale(t, cutoff).len()) =~= s.skip(s.len() - drop_stale(t, cutoff).len()));
        assert forall|i: int| 0 <= i < s.len() - drop_stale(s, cutoff).len() implies (#[trigger] s[i]).0 < cutoff by {
            if i > 0 {
                assert(s[i] == t[i - 1]);
            }
        }
    } else {
        assert(s.skip(0) =~= s);
        if s.len() > 0 {
            assert forall|i: int| 0 <= i < s.len() implies (#[trigger] s[i]).0 >= cutoff by {
                if i > 0 {
                    assert(s[0].0 <= s[i].0);
                }
            }
        }
    }
}

/// The oldest sample time a window keeps after a push at `t`.
pub open spec fn window_cutoff(t: u128, window: u128) -> u128 {
    if t >= window {
        (t - window) as u128
    } else {
        0
    }
}

/// The samples a fresh tracker keeps after pushing the history `h` in
/// order.
pub open spec fn pushed<P>(h: Seq<(u128, P)>, window: u128) -> Seq<(u128, P)>
    decreases h.len(),
{
    if h.len() == 0 {
        Seq::empty()
    } else {
        drop_stale(pushed(h.drop_last(), window).push(h.last()), window_cutoff(h.last().0, window))
    }
}

/// Over a history pushed in time order, the tracker keeps exactly the
/// samples no older than the window before the last push, oldest first:
/// a suffix of the history, and every earlier sample is older.
pub proof fn lemma_velocity_window<P>(h: Seq<(u128, P)>, window: u128)
    requires
        h.len() > 0,
        forall|i: int, j: int| 0 <= i < j < h.len() ==> (#[trigger] h[i]).0 <= (#[trigger] h[j]).0,
    ensures
        pushed(h, window).len() <= h.len(),
        pushed(h, window) == h.skip(h.len() - pushed(h, window).len()),
        forall|i: int|
            0 <= i < h.len() ==> ((#[trigger] h[i]).0 >= window_cutoff(h.last().0, window) <==> i >= h.len()
                - pushed(h, window).len()),
    decreases h.len(),
{
    let g = h.drop_last();
    let c = window_cutoff(h.last().0, window);
    let p = pushed(g, window);
    if g.len() > 0 {
        assert forall|i: int, j: int| 0 <= i < j < g.len() implies (#[trigger] g[i]).0 <= (#[trigger] g[j]).0 by {
            assert(g[i] == h[i] && g[j] == h[j]);
        }
        lemma_velocity_window(g, window);
        assert(g.last().0 <= h.last().0);
    } else {
        assert(p =~= Seq::<(u128, P)>::empty());
    }
    let m = p.len();
    let q = p.push(h.last());
    assert(q =~= h.skip(h.len() - 1 - m)) by {
        if g.len() > 0 {
            assert forall|k: int| 0 <= k < q.len() implies q[k] == h.skip(h.len() - 1 - m)[k] by {
                if k < m {
                    assert(q[k] == p[k]);
                    assert(p[k] == g.skip(g.len() - m)[k]);
                }
            }
        }
    }
    assert forall|i: int, j: int| 0 <= i < j < q.len() implies (#[trigger] q[i]).0 <= (#[trigger] q[j]).0 by {
        assert(q[i] == h[h.len() - 1 - m + i] && q[j] == h[h.len() - 1 - m + j]);
    }
    lemma_drop_stale_window(q, c);
    let n = drop_stale(q, c).len();
    assert(pushed(h, window) == drop_stale(q, c));
    assert(h.skip(h.len() - n) =~= q.skip(q.len() - n));
    assert forall|i: int| 0 <= i < h.len() implies ((#[trigger] h[i]).0 >= c <==> i >= h.len() - n) by {
        if i >= h.len() - 1 - m {
            let j = i - (h.len() - 1 - m);
            assert(h[i] == q[j]);
            if j >= q.len() - n {
                assert(drop_stale(q, c)[j - (q.len() - n)] == q[j]);
            }
        } else {
            assert(g[i] == h[i]);
            assert(window_cutoff(g.last().0, window) <= c);
        }
    }
}

/// Tracks recent touch samples to derive a release velocity. Every move
/// is observed, but samples older than the window are dropped so the
/// velocity reflects the recent movement only. Times are nanoseconds
/// since the touch started; positions are the caller's.
pub struct VelocityTracker<P> {
    /// Sample window, in nanoseconds
    window: u128,
    /// Samples inside the window, oldest first
    samples: Vec<(u128, P)>,
    /// Every sample pushed so far, in order
    history: Ghost<Seq<(u128, P)>>,
}

impl<P: Copy> VelocityTracker<P> {
    pub closed spec fn spec_window(&self) -> u128 {
        self.window
    }

    pub closed spec fn spec_samples(&self) -> Seq<(u128, P)> {
        self.samples@
    }

    /// Every sample pushed since the tracker was made, in order.
    pub closed spec fn spec_history(&self) -> Seq<(u128, P)> {
        self.history@
    }

    /// The kept samples are what pushing the history keeps.
    pub closed spec fn wf(&self) -> bool {
        self.samples@ == pushed(self.history@, self.window)
    }

    pub fn new(sample_window_ms: u32) -> (r: Self)
        ensures
            r.spec_window() == sample_window_ms as u128 * 1_000_000,
            r.spec_samples() == Seq::<(u128, P)>::empty(),
            r.spec_history() == Seq::<(u128, P)>::empty(),
            r.wf(),
    {
        Self { window: sample_window_ms as u128 * 1_000_000, samples: Vec::new(), history: Ghost(Seq::empty()) }
    }

    /// Over a history pushed in time order, the tracker keeps exactly the
    /// pushed samples no older than the window before the last push,
    /// oldest first (see [`lemma_velocity_window`]).
    pub proof fn lemma_kept_window(&self)
        requires
            self.wf(),
            self.spec_history().len() > 0,
            forall|i: int, j: int|
                0 <= i < j < self.spec_history().len() ==> (#[trigger] self.spec_history()[i]).0
                    <= (#[trigger] self.spec_history()[j]).0,
        ensures
            ({
                let h = self.spec_history();
                let k = self.spec_samples();
                &&& k == h.skip(h.len() - k.len())
                &&& forall|i: int|
                    0 <= i < h.len() ==> ((#[trigger] h[i]).0 >= window_cutoff(h.last().0, self.spec_window()) <==> i
                        >= h.len() - k.len())
            }),
    {
        lemma_velocity_window(self.history@, self.window);
    }

    /// Record a sample at `t`, then drop the samples older than the
    /// window before `t`.
    pub fn push(&mut self, t: u128, pos: P)
        ensures
            final(self).spec_window() == old(self).spec_window(),
            final(self).spec_samples() == drop_stale(
                old(self).spec_samples().push((t, pos)),
                window_cutoff(t, old(self).spec_window()),
            ),
            final(self).spec_history() == old(self).spec_history().push((t, pos)),
            old(self).wf() ==> final(self).wf(),
    {
        let ghost h1 = self.history@.push((t, pos));
        proof {
            assert(h1.drop_last() =~= self.history@);
        }
        self.history = Ghost(h1);
        self.samples.push((t, pos));
        let cutoff = t.saturating_sub(self.window);
        let ghost all = self.samples@;
        let mut k: usize = 0;
        let n = self.samples.len();
        assert(all.skip(0) =~= all);
        while k < n && self.samples[k].0 < cutoff
            invariant
                n == self.samples@.len(),
                self.samples@ == all,
                0 <= k <= n,
                drop_stale(all, cutoff) == drop_stale(all.skip(k as int), cutoff),
            decreases n - k,
        {
            proof {
                assert(all.skip(k as int).drop_first() =~= all.skip(k + 1));
            }
            k = k + 1;
        }
        proof {
            if k < n {
                assert(all.skip(k as int)[0] == all[k as int]);
            } else {
                assert(all.skip(k as int) =~= Seq::<(u128, P)>::empty());
            }
        }
        let mut kept: Vec<(u128, P)> = Vec::new();
        let mut j: usize = k;
        while j < n
            invariant
                n == self.samples@.len(),
                self.samples@ == all,
                k <= j <= n,
                kept@ == all.subrange(k as int, j as int),
            decreases n - j,
        {
            kept.push(self.samples[j]);
            j = j + 1;
        }
        proof {
            assert(kept@ =~= all.skip(k as int));
        }
        self.samples = kept;
    }

    /// The span the velocity is measured over: the time between the
    /// oldest and newest sample in the window, with their positions.
    /// None when there are no samples or less than a millisecond lies
    /// between them, which gives no measurable velocity.
    pub fn velocity_span(&self) -> (r: Option<(u128, P, P)>)
        ensures
            self.spec_samples().len() == 0 ==> r is None,
            self.spec_samples().len() > 0 ==> {
                let first = self.spec_samples()[0];
                let last = self.spec_samples().last();
                let dt = if last.0 >= first.0 { last.0 - first.0 } else { 0 };
                if dt < 1_000_000 {
                    r is None
                } else {
                    r == Some((dt as u128, first.1, last.1))
                }
            },
    {
        let n = self.samples.len();
        if n == 0 {
            return None;
        }
        let (t0, p0) = self.samples[0];
        let (t1, p1) = self.samples[n - 1];
        let dt = t1.saturating_sub(t0);
        if dt < 1_000_000 {
            return None;
        }
        Some((dt, p0, p1))
    }
}

/// Gates `DragMove` delivery to at most one event per period.
pub struct MoveThrottle {
    /// Delivery period, in nanoseconds
    period: u128,
    /// Time of the last delivered move, in nanoseconds
    last: Option<u128>,
}

impl MoveThrottle {
    pub closed spec fn spec_period(&self) -> u128 {
        self.period
    }

    pub closed spec fn spec_last(&self) -> Option<u128> {
        self.last
    }

    pub fn new(period_ms: u32) -> (r: Self)
        ensures
            r.spec_period() == period_ms as u128 * 1_000_000,
            r.spec_last() is None,
    {
        Self { period: period_ms as u128 * 1_000_000, last: None }
    }

    /// Whether a move at `t` may be delivered: the first one may, later
    /// ones once a full period has passed since the last delivered one.
    /// Records the delivery when it returns true.
    pub fn should_deliver(&mut self, t: u128) -> (due: bool)
        ensures
            due == match old(self).spec_last() {
                Some(last) => (if t >= last { t - last } else { 0 }) >= old(self).spec_period(),
                None => true,
            },
            final(self).spec_period() == old(self).spec_period(),
            final(self).spec_last() == if due { Some(t) } else { old(self).spec_last() },
    {
        let due = match self.last {
            Some(last) => t.saturating_sub(last) >= self.period,
            None => true,
        };
        if due {
            self.last = Some(t);
        }
        due
    }
}

/// The phase of a touch event.
#[derive(Debug, Clone, Copy, PartialEq, Eq, Structural)]
pub enum TouchPhase {
    Started,
    Moved,
    Ended,
    Cancelled,
}

/// Which touch owns the gesture session. `gen` is bumped whenever the
/// owner changes, so that a long-press timer armed for an earlier touch
/// can tell it is stale.
#[derive(Debug, Clone, Copy, PartialEq, Eq, Structural)]
pub struct TouchOwner {
    pub gen: u64,
    /// The id of the active touch; secondary touches are not tracked.
    pub active: Option<u64>,
}

/// What the session does with a touch event.
#[derive(Debug, Clone, Copy, PartialEq, Eq, Structural)]
pub enum TouchStep {
    /// Nothing: a secondary or stale touch, or nothing under a new one.
    Ignore,
    /// A new primary touch: recognition starts on its target chain and
    /// `Down` goes to the deepest target; with `timer_gen`, a long-press
    /// timer is armed that fires only while the owner still has that
    /// generation.
    Start { timer_gen: Option<u64> },
    /// The active touch moved: feed recognition.
    Move,
    /// The active touch lifted: finish recognition, then deliver `Up`.
    End,
    /// The active touch was cancelled: no gesture is recognized, only
    /// `Up` at its last position goes to the deepest target.
    Cancel,
}

impl TouchOwner {
    pub fn new() -> (r: Self)
        ensures
            r == (TouchOwner { gen: 0, active: None }),
    {
        TouchOwner { gen: 0, active: None }
    }
}

/// The session's answer to a touch event of `phase` for touch `id`.
/// `chain_found` says whether anything takes gestures under a starting
/// touch, and `wants_long_press` whether its recognizers want a long
/// press. A touch starts only while no other is active; moves, lifts and
/// cancels count only for the active touch; the owner changes, and its
/// generation is bumped, exactly when a touch starts, ends or is
/// cancelled.
pub open spec fn spec_touch_step(
    s: TouchOwner,
    phase: TouchPhase,
    id: u64,
    chain_found: bool,
    wants_long_press: bool,
) -> (TouchOwner, TouchStep) {
    match phase {
        TouchPhase::Started => if s.active is Some || !chain_found {
            (s, TouchStep::Ignore)
        } else {
            (
                TouchOwner { gen: (s.gen + 1) as u64, active: Some(id) },
                TouchStep::Start { timer_gen: if wants_long_press { Some((s.gen + 1) as u64) } else { None } },
            )
        },
        TouchPhase::Moved => if s.active == Some(id) {
            (s, TouchStep::Move)
        } else {
            (s, TouchStep::Ignore)
        },
        TouchPhase::Ended => if s.active == Some(id) {
            (TouchOwner { gen: (s.gen + 1) as u64, active: None }, TouchStep::End)
        } else {
            (s, TouchStep::Ignore)
        },
        TouchPhase::Cancelled => if s.active == Some(id) {
            (TouchOwner { gen: (s.gen + 1) as u64, active: None }, TouchStep::Cancel)
        } else {
            (s, TouchStep::Ignore)
        },
    }
}

/// The next owner and what to do for a touch event (see
/// [`spec_touch_step`]).
pub fn touch_step(s: TouchOwner, phase: TouchPhase, id: u64, chain_found: bool, wants_long_press: bool) -> (r: (
    TouchOwner,
    TouchStep,
))
    requires
        s.gen < u64::MAX,
    ensures
        r == spec_touch_step(s, phase, id, chain_found, wants_long_press),
{
    let owns = match s.active {
        Some(a) => a == id,
        None => false,
    };
    match phase {
        TouchPhase::Started => {
            if s.active.is_some() || !chain_found {
                (s, TouchStep::Ignore)
            } else {
                let gen = s.gen + 1;
                let timer_gen = if wants_long_press { Some(gen) } else { None };
                (TouchOwner { gen, active: Some(id) }, TouchStep::Start { timer_gen })
            }
        },
        TouchPhase::Moved => if owns {
            (s, TouchStep::Move)
        } else {
            (s, TouchStep::Ignore)
        },
        TouchPhase::Ended => if owns {
            (TouchOwner { gen: s.gen + 1, active: None }, TouchStep::End)
        } else {
            (s, TouchStep::Ignore)
        },
        TouchPhase::Cancelled => if owns {
            (TouchOwner { gen: s.gen + 1, active: None }, TouchStep::Cancel)
        } else {
            (s, TouchStep::Ignore)
        },
    }
}

/// Whether a long-press timer armed with `timer_gen` may still fire: the
/// touch it was armed for is still the active one.
pub open spec fn spec_long_press_live(s: TouchOwner, timer_gen: u64) -> bool {
    s.gen == timer_gen && s.active is Some
}

/// Whether a long-press timer armed with `timer_gen` may still fire
/// (see [`spec_long_press_live`]).
pub fn long_press_live(s: TouchOwner, timer_gen: u64) -> (r: bool)
    ensures
        r == spec_long_press_live(s, timer_gen),
{
    s.gen == timer_gen && s.active.is_some()
}

/// A secondary touch never disturbs the primary: while a touch is
/// active, an event of any other touch leaves the owner as it is and
/// does nothing.
pub proof fn lemma_secondary_touch_inert(
    s: TouchOwner,
    phase: TouchPhase,
    id: u64,
    chain_found: bool,
    wants_long_press: bool,
)
    requires
        s.active is Some,
        s.active != Some(id),
    ensures
        spec_touch_step(s, phase, id, chain_found, wants_long_press) == (s, TouchStep::Ignore),
{
}

/// A long-press timer fires only for the touch it was armed for: the
/// timer armed at a touch's start stays live until an event changes the
/// owner, and from then on it is stale for good, since generations only
/// grow.
pub proof fn lemma_long_press_timer_generation(
    s: TouchOwner,
    phase: TouchPhase,
    id: u64,
    chain_found: bool,
    wants_long_press: bool,
    timer_gen: u64,
)
    requires
        s.gen < u64::MAX,
        timer_gen <= s.gen,
    ensures
        ({
            let (t, step) = spec_touch_step(s, phase, id, chain_found, wants_long_press);
            &&& s.gen <= t.gen
            &&& (t.gen == s.gen <==> t == s)
            &&& step matches TouchStep::Start { timer_gen: Some(g) } ==> spec_long_press_live(t, g)
            &&& t != s ==> !spec_long_press_live(t, timer_gen)
            &&& t == s ==> spec_long_press_live(t, timer_gen) == spec_long_press_live(s, timer_gen)
        }),
{
}

} // verus!
