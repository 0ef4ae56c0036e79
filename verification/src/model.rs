//! The scan as a transition system over mathematical values: what the scanner
//! holds between two answers of the host, and how each answer moves it on.

use vstd::prelude::*;
use crate::node::{lemma_total_size_push, total_size, NodeView};
use crate::throttle::Throttle;

verus! {

/// What a metadata read told the host about one path.
#[derive(Clone, Copy, Debug, PartialEq, Eq, Structural)]
pub enum Metadata {
    /// The read failed.
    Unreadable,
    /// A regular file of `len` bytes.
    File { len: u64 },
    /// A directory.
    Directory,
    /// Anything that is neither a regular file nor a directory.
    Other,
}

/// Why a step did not go through.
#[derive(Clone, Copy, Debug, PartialEq, Eq, Structural)]
pub enum StepError {
    /// The event does not answer the pending request.
    Unexpected,
    /// The completed node would take its parent's total beyond a `u64`.
    Overflow,
}

/// Value of an answer of the host.
pub enum EventView {
    /// Answer to a metadata request.
    Metadata(Metadata),
    /// Answer to a listing request: the paths of the entries, or `None` if listing failed.
    Listing(Option<Seq<Seq<char>>>),
    /// Answer to a clock request.
    Time(u64),
}

/// Value of what the scanner asks of the host next.
pub enum RequestView {
    /// Read the metadata of this path.
    Stat(Seq<char>),
    /// List the entries of this directory.
    List(Seq<char>),
    /// Read the clock.
    Clock,
    /// Nothing: the scan is over.
    Done,
}

/// Value of what one step hands to the host.
pub struct OutputView {
    /// Children to report to the observer, if a report is due.
    pub emit: Option<Seq<NodeView>>,
    /// What to do next.
    pub request: RequestView,
}

/// A directory whose entries are being scanned.
pub struct FrameView {
    /// Path of the directory.
    pub name: Seq<char>,
    /// Sum of the sizes of the children kept so far.
    pub total: nat,
    /// Children kept so far, in listing order.
    pub kept: Seq<NodeView>,
    /// Entries not yet asked about, in listing order.
    pub rest: Seq<Seq<char>>,
}

/// What the scanner is waiting for.
pub enum PhaseView {
    /// The metadata of this path.
    Stat(Seq<char>),
    /// The listing of this directory.
    List(Seq<char>),
    /// The time at which the innermost open directory was completed.
    Clock,
    /// Nothing: the scan produced this tree.
    Done(NodeView),
}

/// State of a scan between two answers.
pub struct ScanState {
    /// Smallest size at which a child is kept.
    pub threshold: nat,
    /// Rate limiter of the progress reports.
    pub throttle: Throttle,
    /// Open directories, outermost first.
    pub stack: Seq<FrameView>,
    /// What is awaited.
    pub phase: PhaseView,
}

impl FrameView {
    /// A directory that was just listed.
    pub open spec fn opened(name: Seq<char>, entries: Seq<Seq<char>>) -> FrameView {
        FrameView { name, total: 0, kept: Seq::empty(), rest: entries }
    }

    /// Whether a node of this size is kept.
    pub open spec fn keeps(size: nat, threshold: nat) -> bool {
        size >= threshold
    }

    /// The directory after one of its entries was scanned to `node`: the node is
    /// listed and counted if it reaches the threshold, and dropped otherwise.
    pub open spec fn absorb(self, node: NodeView, threshold: nat) -> FrameView {
        if FrameView::keeps(node.size, threshold) {
            FrameView { total: self.total + node.size, kept: self.kept.push(node), ..self }
        } else {
            self
        }
    }

    /// The directory without its first open entry.
    pub open spec fn advanced(self) -> FrameView {
        FrameView { rest: self.rest.drop_first(), ..self }
    }

    /// The node of the completed directory.
    pub open spec fn node(self) -> NodeView {
        NodeView { name: self.name, size: self.total, children: self.kept }
    }

    /// The total is the sum over the kept children, fits the machine, and every
    /// kept child reaches the threshold and is itself a sound tree.
    pub open spec fn sound(self, threshold: nat) -> bool {
        &&& self.total == total_size(self.kept)
        &&& self.total <= u64::MAX
        &&& forall|i: int|
            0 <= i < self.kept.len() ==> {
                &&& (#[trigger] self.kept[i]).size >= threshold
                &&& self.kept[i].aggregated()
                &&& self.kept[i].retained(threshold)
            }
    }
}

impl ScanState {
    /// The state in which a scan of `root` begins.
    pub open spec fn start(root: Seq<char>, threshold: nat, throttle: Throttle) -> ScanState {
        ScanState { threshold, throttle, stack: Seq::empty(), phase: PhaseView::Stat(root) }
    }

    /// What the host is to do in this state.
    pub open spec fn request(self) -> RequestView {
        match self.phase {
            PhaseView::Stat(path) => RequestView::Stat(path),
            PhaseView::List(path) => RequestView::List(path),
            PhaseView::Clock => RequestView::Clock,
            PhaseView::Done(_) => RequestView::Done,
        }
    }

    /// The tree that the scan produced, once it is over.
    pub open spec fn result(self) -> Option<NodeView> {
        match self.phase {
            PhaseView::Done(node) => Some(node),
            _ => None,
        }
    }

    /// Whether `event` is an answer to the pending request.
    pub open spec fn answers(self, event: EventView) -> bool {
        match (self.phase, event) {
            (PhaseView::Stat(_), EventView::Metadata(_)) => true,
            (PhaseView::List(_), EventView::Listing(_)) => true,
            (PhaseView::Clock, EventView::Time(_)) => self.stack.len() > 0,
            _ => false,
        }
    }

    /// The node that `event` completes, if it completes one: a leaf for a file
    /// and for every entry that cannot be read, listed or is of another kind;
    /// the directory's node when its completion time arrives.
    pub open spec fn completes(self, event: EventView) -> Option<NodeView> {
        match (self.phase, event) {
            (PhaseView::Stat(path), EventView::Metadata(Metadata::File { len })) => Some(
                NodeView::leaf(path, len as nat),
            ),
            (PhaseView::Stat(path), EventView::Metadata(Metadata::Unreadable)) => Some(
                NodeView::leaf(path, 0),
            ),
            (PhaseView::Stat(path), EventView::Metadata(Metadata::Other)) => Some(
                NodeView::leaf(path, 0),
            ),
            (PhaseView::List(path), EventView::Listing(None)) => Some(NodeView::leaf(path, 0)),
            (PhaseView::Clock, EventView::Time(_)) => if self.stack.len() > 0 {
                Some(self.stack.last().node())
            } else {
                None
            },
            _ => None,
        }
    }

    /// The open directories as the parent of the node completed by `event` sees them.
    pub open spec fn enclosing(self, event: EventView) -> Seq<FrameView> {
        match (self.phase, event) {
            (PhaseView::Clock, EventView::Time(_)) => if self.stack.len() > 0 {
                self.stack.drop_last()
            } else {
                self.stack
            },
            _ => self.stack,
        }
    }

    /// Whether `event` completes a node that its parent keeps and whose size
    /// takes the parent's total beyond what a `u64` holds.
    pub open spec fn overflows(self, event: EventView) -> bool {
        match self.completes(event) {
            Some(node) => {
                let outer = self.enclosing(event);
                &&& outer.len() > 0
                &&& FrameView::keeps(node.size, self.threshold)
                &&& outer.last().total + node.size > u64::MAX
            },
            None => false,
        }
    }

    /// Whether a step on `event` goes through.
    pub open spec fn accepts(self, event: EventView) -> bool {
        self.answers(event) && !self.overflows(event)
    }

    /// Why a step on `event` fails, if it does.
    pub open spec fn rejection(self, event: EventView) -> Option<StepError> {
        if !self.answers(event) {
            Some(StepError::Unexpected)
        } else if self.overflows(event) {
            Some(StepError::Overflow)
        } else {
            None
        }
    }

    /// The report that a step on `event` hands out: the children of the
    /// directory being completed, if its completion time finds a report due.
    pub open spec fn emits(self, event: EventView) -> Option<Seq<NodeView>> {
        match (self.phase, event) {
            (PhaseView::Clock, EventView::Time(now)) => if self.stack.len() > 0
                && self.throttle.due(now) {
                Some(self.stack.last().kept)
            } else {
                None
            },
            _ => None,
        }
    }

    /// The rate limiter after a step on `event`.
    pub open spec fn throttled(self, event: EventView) -> Throttle {
        match (self.phase, event) {
            (PhaseView::Clock, EventView::Time(now)) => if self.stack.len() > 0 {
                self.throttle.after(now)
            } else {
                self.throttle
            },
            _ => self.throttle,
        }
    }

    /// Moves on inside the innermost open directory: to its next entry, or to
    /// its completion when none is left.
    pub open spec fn resume(self) -> ScanState {
        let top = self.stack.last();
        if top.rest.len() > 0 {
            ScanState {
                stack: self.stack.drop_last().push(top.advanced()),
                phase: PhaseView::Stat(top.rest[0]),
                ..self
            }
        } else {
            ScanState { phase: PhaseView::Clock, ..self }
        }
    }

    /// Hands a completed node to the innermost open directory, or ends the scan
    /// with it if no directory is open.
    pub open spec fn deliver(self, node: NodeView) -> ScanState {
        if self.stack.len() == 0 {
            ScanState { phase: PhaseView::Done(node), ..self }
        } else {
            let top = self.stack.last().absorb(node, self.threshold);
            ScanState { stack: self.stack.drop_last().push(top), ..self }.resume()
        }
    }

    /// The state after an accepted `event`.
    pub open spec fn step(self, event: EventView) -> ScanState {
        match self.completes(event) {
            Some(node) => ScanState {
                stack: self.enclosing(event),
                throttle: self.throttled(event),
                ..self
            }.deliver(node),
            None => match (self.phase, event) {
                (PhaseView::Stat(path), EventView::Metadata(Metadata::Directory)) => ScanState {
                    phase: PhaseView::List(path),
                    ..self
                },
                (PhaseView::List(path), EventView::Listing(Some(entries))) => ScanState {
                    stack: self.stack.push(FrameView::opened(path, entries)),
                    ..self
                }.resume(),
                _ => self,
            },
        }
    }

    /// What a step on an accepted `event` hands to the host.
    pub open spec fn output(self, event: EventView) -> OutputView {
        OutputView { emit: self.emits(event), request: self.step(event).request() }
    }

    /// What holds of every state that a scan reaches.
    pub open spec fn inv(self) -> bool {
        &&& self.threshold <= u64::MAX
        &&& forall|i: int|
            0 <= i < self.stack.len() ==> (#[trigger] self.stack[i]).sound(self.threshold)
        &&& self.phase is Clock ==> self.stack.len() > 0 && self.stack.last().rest.len() == 0
        &&& self.phase matches PhaseView::Done(node) ==> {
            &&& self.stack.len() == 0
            &&& node.sound(self.threshold)
        }
    }
}

impl NodeView {
    /// The tree is one that a scan with this threshold can produce: sizes add
    /// up, every listed child reaches the threshold, and its size fits a `u64`.
    pub open spec fn sound(self, threshold: nat) -> bool {
        &&& self.size <= u64::MAX
        &&& self.aggregated()
        &&& self.retained(threshold)
    }
}

/// A directory stays sound when it absorbs a sound node that does not take
/// its total beyond a `u64`.
pub proof fn lemma_absorb_sound(frame: FrameView, node: NodeView, threshold: nat)
    requires
        frame.sound(threshold),
        node.sound(threshold),
        FrameView::keeps(node.size, threshold) ==> frame.total + node.size <= u64::MAX,
    ensures
        frame.absorb(node, threshold).sound(threshold),
{
    if FrameView::keeps(node.size, threshold) {
        lemma_total_size_push(frame.kept, node);
        let after = frame.absorb(node, threshold);
        assert forall|i: int| 0 <= i < after.kept.len() implies {
            &&& (#[trigger] after.kept[i]).size >= threshold
            &&& after.kept[i].aggregated()
            &&& after.kept[i].retained(threshold)
        } by {
            if i < frame.kept.len() {
                assert(after.kept[i] == frame.kept[i]);
            }
        }
    }
}

/// The node of a sound directory is a sound tree.
pub proof fn lemma_frame_node_sound(frame: FrameView, threshold: nat)
    requires
        frame.sound(threshold),
    ensures
        frame.node().sound(threshold),
        frame.node().size == total_size(frame.node().children),
{
    let node = frame.node();
    assert forall|i: int| 0 <= i < node.children.len() implies (
    #[trigger] node.children[i]).aggregated() by {
        assert(frame.kept[i].aggregated());
    }
    assert forall|i: int| 0 <= i < node.children.len() implies {
        &&& (#[trigger] node.children[i]).size >= threshold
        &&& node.children[i].retained(threshold)
    } by {
        assert(frame.kept[i].retained(threshold));
    }
}

/// Moving on inside the innermost directory keeps the invariant.
pub proof fn lemma_resume_inv(state: ScanState)
    requires
        state.threshold <= u64::MAX,
        state.stack.len() > 0,
        forall|i: int|
            0 <= i < state.stack.len() ==> (#[trigger] state.stack[i]).sound(state.threshold),
    ensures
        state.resume().inv(),
{
    let next = state.resume();
    let top = state.stack.last();
    if top.rest.len() > 0 {
        assert forall|i: int| 0 <= i < next.stack.len() implies (#[trigger] next.stack[i]).sound(
            next.threshold,
        ) by {
            if i < state.stack.len() - 1 {
                assert(next.stack[i] == state.stack[i]);
            } else {
                assert(top.sound(state.threshold));
            }
        }
    }
}

/// Handing a sound node to its parent keeps the invariant.
pub proof fn lemma_deliver_inv(state: ScanState, node: NodeView)
    requires
        state.threshold <= u64::MAX,
        forall|i: int|
            0 <= i < state.stack.len() ==> (#[trigger] state.stack[i]).sound(state.threshold),
        node.sound(state.threshold),
        state.stack.len() > 0 && FrameView::keeps(node.size, state.threshold)
            ==> state.stack.last().total + node.size <= u64::MAX,
    ensures
        state.deliver(node).inv(),
{
    if state.stack.len() > 0 {
        let top = state.stack.last().absorb(node, state.threshold);
        lemma_absorb_sound(state.stack.last(), node, state.threshold);
        let mid = ScanState { stack: state.stack.drop_last().push(top), ..state };
        assert forall|i: int| 0 <= i < mid.stack.len() implies (#[trigger] mid.stack[i]).sound(
            mid.threshold,
        ) by {
            if i < state.stack.len() - 1 {
                assert(mid.stack[i] == state.stack[i]);
            }
        }
        lemma_resume_inv(mid);
    }
}

/// Every accepted step leads from a state that satisfies the invariant to one
/// that satisfies it: at every moment of a scan, each open directory's total is
/// the sum of the children it kept, and no kept child is below the threshold.
pub proof fn lemma_step_inv(state: ScanState, event: EventView)
    requires
        state.inv(),
        state.accepts(event),
    ensures
        state.step(event).inv(),
{
    match state.completes(event) {
        Some(node) => {
            let outer = ScanState {
                stack: state.enclosing(event),
                throttle: state.throttled(event),
                ..state
            };
            if state.phase is Clock {
                lemma_frame_node_sound(state.stack.last(), state.threshold);
            }
            assert forall|i: int| 0 <= i < outer.stack.len() implies (
            #[trigger] outer.stack[i]).sound(outer.threshold) by {
                assert(outer.stack[i] == state.stack[i]);
            }
            lemma_deliver_inv(outer, node);
        },
        None => {
            match (state.phase, event) {
                (PhaseView::List(path), EventView::Listing(Some(entries))) => {
                    let pushed = ScanState {
                        stack: state.stack.push(FrameView::opened(path, entries)),
                        ..state
                    };
                    assert forall|i: int| 0 <= i < pushed.stack.len() implies (
                    #[trigger] pushed.stack[i]).sound(pushed.threshold) by {
                        if i < state.stack.len() {
                            assert(pushed.stack[i] == state.stack[i]);
                        }
                    }
                    lemma_resume_inv(pushed);
                },
                _ => {},
            }
        },
    }
}

/// The tree that a scan ends with is sound: in every node that lists children
/// the size is their sum, and every listed child reaches the threshold.
pub proof fn lemma_result_sound(state: ScanState)
    requires
        state.inv(),
    ensures
        state.result() matches Some(node) ==> node.sound(state.threshold),
{
}

/// Every report lists only nodes that reach the threshold and are sound trees.
pub proof fn lemma_report_sound(state: ScanState, event: EventView, i: int)
    requires
        state.inv(),
        state.emits(event) is Some,
        0 <= i < state.emits(event)->0.len(),
    ensures
        state.emits(event)->0[i].size >= state.threshold,
        state.emits(event)->0[i].sound(state.threshold),
{
    let top = state.stack.last();
    assert(top.sound(state.threshold));
    assert(top.kept[i].size >= state.threshold);
    lemma_frame_node_sound(top, state.threshold);
    assert(top.node().children[i].size <= top.total) by {
        lemma_total_size_bounds(top.kept, i);
    }
}

/// No node is larger than the sum of the sequence it stands in.
pub proof fn lemma_total_size_bounds(nodes: Seq<NodeView>, i: int)
    requires
        0 <= i < nodes.len(),
    ensures
        nodes[i].size <= total_size(nodes),
    decreases nodes.len(),
{
    if i < nodes.len() - 1 {
        lemma_total_size_bounds(nodes.drop_last(), i);
    }
}

/// A scan whose root is a regular file of `len` bytes ends at once with a
/// childless node of that size, and reports nothing.
pub proof fn lemma_file_is_leaf(root: Seq<char>, len: u64, threshold: nat, throttle: Throttle)
    ensures
        ({
            let start = ScanState::start(root, threshold, throttle);
            let event = EventView::Metadata(Metadata::File { len });
            &&& start.accepts(event)
            &&& start.step(event).result() == Some(NodeView::leaf(root, len as nat))
            &&& start.emits(event) is None
        }),
{
}

/// A scan whose root cannot be read, or is neither a file nor a directory,
/// does not fail: it ends at once with a childless node of size zero.
pub proof fn lemma_unreadable_is_empty_leaf(
    root: Seq<char>,
    metadata: Metadata,
    threshold: nat,
    throttle: Throttle,
)
    requires
        metadata is Unreadable || metadata is Other,
    ensures
        ({
            let start = ScanState::start(root, threshold, throttle);
            let event = EventView::Metadata(metadata);
            &&& start.accepts(event)
            &&& start.step(event).result() == Some(NodeView::leaf(root, 0))
            &&& start.emits(event) is None
        }),
{
}

/// A scan whose root is a directory that cannot be listed does not fail: it
/// ends with a childless node of size zero, and nothing is reported.
pub proof fn lemma_unlistable_is_empty_leaf(root: Seq<char>, threshold: nat, throttle: Throttle)
    ensures
        ({
            let start = ScanState::start(root, threshold, throttle);
            let stat = EventView::Metadata(Metadata::Directory);
            let list = EventView::Listing(None);
            &&& start.accepts(stat)
            &&& start.step(stat).request() == RequestView::List(root)
            &&& start.step(stat).accepts(list)
            &&& start.step(stat).step(list).result() == Some(NodeView::leaf(root, 0))
            &&& start.emits(stat) is None
            &&& start.step(stat).emits(list) is None
        }),
{
}

/// A step hands out a report only at the completion of a directory, only if
/// the rate limiter finds one due, and then the limiter restarts at that time.
pub proof fn lemma_report_is_throttled(state: ScanState, event: EventView)
    requires
        state.accepts(event),
    ensures
        state.emits(event) is Some <==> (event matches EventView::Time(now)
            && state.throttle.due(now)),
        state.emits(event) matches Some(report) ==> {
            &&& state.completes(event) matches Some(node) && report == node.children
            &&& event matches EventView::Time(now) && state.step(event).throttle.last_emit == now
        },
        state.emits(event) is None ==> state.step(event).throttle == state.throttle,
{
}

} // verus!
