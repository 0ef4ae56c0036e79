//! The scanner: walks a directory tree depth-first through requests to a host,
//! sums sizes bottom-up, drops what stays below the threshold, and hands out
//! throttled progress reports.

use vstd::prelude::*;
use crate::model::{
    lemma_step_inv, EventView, FrameView, Metadata, OutputView, PhaseView, RequestView, ScanState,
    StepError,
};
use crate::node::{clone_nodes, lemma_view_children, node_views, Node, DEFAULT_THRESHOLD};
use crate::throttle::{Throttle, DEFAULT_EMIT_INTERVAL};

verus! {

/// The values of a sequence of paths, one for one.
pub open spec fn path_views(paths: Seq<String>) -> Seq<Seq<char>> {
    Seq::new(paths.len(), |i: int| paths[i]@)
}

/// The two settings of a scan.
#[derive(Clone, Copy, Debug)]
pub struct ScanConfig {
    /// Smallest size, in bytes, at which an entry is kept in its parent.
    pub threshold: u64,
    /// Shortest time, in nanoseconds, between two progress reports.
    pub emit_interval: u64,
}

impl Default for ScanConfig {
    /// A threshold of 5 MiB and an interval of five seconds.
    fn default() -> (config: ScanConfig)
        ensures
            config.threshold == DEFAULT_THRESHOLD,
            config.emit_interval == DEFAULT_EMIT_INTERVAL,
    {
        ScanConfig { threshold: DEFAULT_THRESHOLD, emit_interval: DEFAULT_EMIT_INTERVAL }
    }
}

/// An answer of the host to the pending request.
#[derive(Debug)]
pub enum Event {
    /// What a metadata read gave.
    Metadata(Metadata),
    /// The paths of a directory's entries in listing order, or `None` if listing failed.
    Listing(Option<Vec<String>>),
    /// The clock, in nanoseconds.
    Time(u64),
}

impl View for Event {
    type V = EventView;

    open spec fn view(&self) -> EventView {
        match *self {
            Event::Metadata(metadata) => EventView::Metadata(metadata),
            Event::Listing(Some(paths)) => EventView::Listing(Some(path_views(paths@))),
            Event::Listing(None) => EventView::Listing(None),
            Event::Time(now) => EventView::Time(now),
        }
    }
}

/// What the host is to do next.
#[derive(Debug, PartialEq, Eq)]
pub enum Request {
    /// Read the metadata of this path and answer with [`Event::Metadata`].
    Stat(String),
    /// List this directory and answer with [`Event::Listing`].
    List(String),
    /// Read the clock and answer with [`Event::Time`].
    Clock,
    /// Nothing: the scan is over and its result can be taken.
    Done,
}

impl View for Request {
    type V = RequestView;

    open spec fn view(&self) -> RequestView {
        match *self {
            Request::Stat(path) => RequestView::Stat(path@),
            Request::List(path) => RequestView::List(path@),
            Request::Clock => RequestView::Clock,
            Request::Done => RequestView::Done,
        }
    }
}

/// What one step hands to the host.
#[derive(Debug)]
pub struct Output {
    /// Children to report to the observer before anything else is done.
    pub emit: Option<Vec<Node>>,
    /// What to do next.
    pub request: Request,
}

impl View for Output {
    type V = OutputView;

    open spec fn view(&self) -> OutputView {
        OutputView {
            emit: match self.emit {
                Some(nodes) => Some(node_views(nodes@)),
                None => None,
            },
            request: self.request@,
        }
    }
}

/// A directory whose entries are being scanned.
#[derive(Debug)]
struct Frame {
    name: String,
    total: u64,
    kept: Vec<Node>,
    entries: Vec<String>,
    cursor: usize,
}

impl Frame {
    spec fn wf(self) -> bool {
        self.cursor <= self.entries.len()
    }

    spec fn model(self) -> FrameView {
        FrameView {
            name: self.name@,
            total: self.total as nat,
            kept: node_views(self.kept@),
            rest: path_views(self.entries@).skip(self.cursor as int),
        }
    }
}

spec fn frame_views(frames: Seq<Frame>) -> Seq<FrameView> {
    Seq::new(frames.len(), |i: int| frames[i].model())
}

spec fn frames_wf(frames: Seq<Frame>) -> bool {
    forall|i: int| 0 <= i < frames.len() ==> (#[trigger] frames[i]).wf()
}

/// What the scanner is waiting for.
#[derive(Debug)]
enum Phase {
    Stat(String),
    List(String),
    Clock,
    Done(Node),
}

impl Phase {
    spec fn model(self) -> PhaseView {
        match self {
            Phase::Stat(path) => PhaseView::Stat(path@),
            Phase::List(path) => PhaseView::List(path@),
            Phase::Clock => PhaseView::Clock,
            Phase::Done(node) => PhaseView::Done(node@),
        }
    }
}

/// A scan in progress.
#[derive(Debug)]
pub struct Scanner {
    threshold: u64,
    throttle: Throttle,
    stack: Vec<Frame>,
    phase: Phase,
}

impl View for Scanner {
    type V = ScanState;

    closed spec fn view(&self) -> ScanState {
        ScanState {
            threshold: self.threshold as nat,
            throttle: self.throttle,
            stack: frame_views(self.stack@),
            phase: self.phase.model(),
        }
    }
}

proof fn lemma_frame_views_push(frames: Seq<Frame>, frame: Frame)
    ensures
        frame_views(frames.push(frame)) == frame_views(frames).push(frame.model()),
        frames_wf(frames) && frame.wf() ==> frames_wf(frames.push(frame)),
{
    assert(frame_views(frames.push(frame)) =~= frame_views(frames).push(frame.model()));
}

proof fn lemma_frame_views_drop_last(frames: Seq<Frame>)
    requires
        frames.len() > 0,
    ensures
        frame_views(frames.drop_last()) == frame_views(frames).drop_last(),
        frame_views(frames).last() == frames.last().model(),
        frames_wf(frames) ==> frames_wf(frames.drop_last()) && frames.last().wf(),
{
    assert(frame_views(frames.drop_last()) =~= frame_views(frames).drop_last());
}

impl Scanner {
    /// Every open directory has asked about no more entries than it has.
    pub closed spec fn wf(self) -> bool {
        frames_wf(self.stack@)
    }

    /// What holds of every scanner between two steps.
    pub open spec fn inv(self) -> bool {
        self.wf() && self@.inv()
    }

    /// A scanner about to scan `root`, whose reports are limited by `throttle`.
    pub fn with_throttle(root: String, threshold: u64, throttle: Throttle) -> (scanner: Scanner)
        ensures
            scanner.inv(),
            scanner@ == ScanState::start(root@, threshold as nat, throttle),
    {
        let scanner = Scanner { threshold, throttle, stack: Vec::new(), phase: Phase::Stat(root) };
        assert(scanner@.stack =~= Seq::empty());
        scanner
    }

    /// A scanner about to scan `root` at time `now`, from which the interval
    /// to the first report is counted.
    pub fn new(root: String, config: ScanConfig, now: u64) -> (scanner: Scanner)
        ensures
            scanner.inv(),
            scanner@ == ScanState::start(
                root@,
                config.threshold as nat,
                Throttle { last_emit: now, interval: config.emit_interval },
            ),
    {
        Scanner::with_throttle(root, config.threshold, Throttle::new(now, config.emit_interval))
    }

    /// Smallest size at which a child is kept.
    pub fn threshold(&self) -> (threshold: u64)
        ensures
            threshold == self@.threshold,
    {
        self.threshold
    }

    /// The rate limiter as the scan leaves it.
    pub fn throttle(&self) -> (throttle: Throttle)
        ensures
            throttle == self@.throttle,
    {
        self.throttle
    }

    /// Number of directories that are open.
    pub fn depth(&self) -> (depth: usize)
        ensures
            depth == self@.stack.len(),
    {
        self.stack.len()
    }

    /// What the host is to do now.
    pub fn request(&self) -> (request: Request)
        ensures
            request@ == self@.request(),
    {
        match &self.phase {
            Phase::Stat(path) => Request::Stat(path.clone()),
            Phase::List(path) => Request::List(path.clone()),
            Phase::Clock => Request::Clock,
            Phase::Done(_) => Request::Done,
        }
    }

    /// Whether the scan is over.
    pub fn is_done(&self) -> (done: bool)
        ensures
            done == self@.result().is_some(),
    {
        match &self.phase {
            Phase::Done(_) => true,
            _ => false,
        }
    }

    /// The tree that the scan produced, once it is over.
    pub fn result(&self) -> (result: Option<&Node>)
        ensures
            match result {
                Some(node) => self@.result() == Some(node@),
                None => self@.result().is_none(),
            },
            self.inv() ==> (result matches Some(node) ==> node@.sound(self@.threshold)),
    {
        match &self.phase {
            Phase::Done(node) => Some(node),
            _ => None,
        }
    }

    /// Gives up the scanner for the tree that the scan produced, once it is over.
    pub fn into_result(self) -> (result: Option<Node>)
        ensures
            match result {
                Some(node) => self@.result() == Some(node@),
                None => self@.result().is_none(),
            },
            self.inv() ==> (result matches Some(node) ==> node@.sound(self@.threshold)),
    {
        match self.phase {
            Phase::Done(node) => Some(node),
            _ => None,
        }
    }
}

impl Frame {
    /// Whether keeping a node of `size` bytes would take the total beyond a `u64`.
    fn overflows_with(&self, size: u64, threshold: u64) -> (over: bool)
        ensures
            over == (FrameView::keeps(size as nat, threshold as nat) && self.model().total + size
                > u64::MAX),
    {
        size >= threshold && size > u64::MAX - self.total
    }
}

impl Scanner {
    /// Whether handing a node of `size` bytes to the directory at `depth - 1`
    /// would overflow its total; never for `depth == 0`.
    fn overflows_at(&self, depth: usize, size: u64) -> (over: bool)
        requires
            depth <= self.stack.len(),
        ensures
            over == (depth > 0 && FrameView::keeps(size as nat, self@.threshold)
                && self@.stack[depth - 1].total + size > u64::MAX),
    {
        if depth == 0 {
            false
        } else {
            self.stack[depth - 1].overflows_with(size, self.threshold)
        }
    }

    /// Why a step on `event` would fail, if it would.
    pub fn rejection(&self, event: &Event) -> (reason: Option<StepError>)
        ensures
            reason == self@.rejection(event@),
    {
        let depth: usize = self.stack.len();
        let over: bool = match &self.phase {
            Phase::Stat(_) => match event {
                Event::Metadata(metadata) => match metadata {
                    Metadata::File { len } => self.overflows_at(depth, *len),
                    Metadata::Directory => false,
                    _ => self.overflows_at(depth, 0),
                },
                _ => { return Some(StepError::Unexpected); },
            },
            Phase::List(_) => match event {
                Event::Listing(listing) => match listing {
                    Some(_) => false,
                    None => self.overflows_at(depth, 0),
                },
                _ => { return Some(StepError::Unexpected); },
            },
            Phase::Clock => match event {
                Event::Time(_) => {
                    if depth == 0 {
                        return Some(StepError::Unexpected);
                    }
                    proof {
                        lemma_frame_views_drop_last(self.stack@);
                    }
                    self.overflows_at(depth - 1, self.stack[depth - 1].total)
                },
                _ => { return Some(StepError::Unexpected); },
            },
            Phase::Done(_) => { return Some(StepError::Unexpected); },
        };
        if over {
            Some(StepError::Overflow)
        } else {
            None
        }
    }

    /// Moves on inside the innermost open directory.
    fn resume(self) -> (next: Scanner)
        requires
            self.wf(),
            self.stack.len() > 0,
        ensures
            next.wf(),
            next@ == self@.resume(),
    {
        let Scanner { threshold, throttle, stack, phase } = self;
        let mut stack = stack;
        let ghost before = stack@;
        proof {
            lemma_frame_views_drop_last(before);
        }
        let top = stack.pop().unwrap();
        if top.cursor < top.entries.len() {
            let path = top.entries[top.cursor].clone();
            let moved = Frame {
                name: top.name,
                total: top.total,
                kept: top.kept,
                entries: top.entries,
                cursor: top.cursor + 1,
            };
            proof {
                assert(moved.model().rest =~= top.model().rest.drop_first());
                assert(moved.model() == top.model().advanced());
                assert(top.model().rest[0] == path@);
                lemma_frame_views_push(before.drop_last(), moved);
            }
            stack.push(moved);
            Scanner { threshold, throttle, stack, phase: Phase::Stat(path) }
        } else {
            proof {
                lemma_frame_views_push(before.drop_last(), top);
                assert(before.drop_last().push(top) =~= before);
            }
            stack.push(top);
            Scanner { threshold, throttle, stack, phase: Phase::Clock }
        }
    }

    /// Hands a completed node to the innermost open directory, or ends the scan with it.
    fn deliver(self, node: Node) -> (next: Scanner)
        requires
            self.wf(),
            self.stack.len() > 0 && FrameView::keeps(node@.size, self@.threshold)
                ==> self@.stack.last().total + node@.size <= u64::MAX,
        ensures
            next.wf(),
            next@ == self@.deliver(node@),
    {
        let Scanner { threshold, throttle, stack, phase } = self;
        let mut stack = stack;
        if stack.len() == 0 {
            Scanner { threshold, throttle, stack, phase: Phase::Done(node) }
        } else {
            let ghost before = stack@;
            let ghost added = node@;
            proof {
                lemma_frame_views_drop_last(before);
                lemma_view_children(node);
            }
            let top = stack.pop().unwrap();
            let grown = if node.size >= threshold {
                let total: u64 = top.total + node.size;
                let mut kept = top.kept;
                kept.push(node);
                Frame { name: top.name, total, kept, entries: top.entries, cursor: top.cursor }
            } else {
                top
            };
            proof {
                if added.size >= threshold {
                    assert(grown.model().kept =~= top.model().kept.push(added));
                }
                assert(grown.model() == top.model().absorb(added, threshold as nat));
                lemma_frame_views_push(before.drop_last(), grown);
            }
            stack.push(grown);
            Scanner { threshold, throttle, stack, phase: Phase::Clock }.resume()
        }
    }

    /// The step proper, on an event that does not overflow a total.
    fn advance(self, event: Event) -> (moved: (Scanner, Output))
        requires
            self.wf(),
            !self@.overflows(event@),
        ensures
            moved.0.wf(),
            moved.0@ == self@.step(event@),
            moved.1@ == self@.output(event@),
    {
        let Scanner { threshold, throttle, stack, phase } = self;
        let mut stack = stack;
        let mut throttle = throttle;
        let mut emit: Option<Vec<Node>> = None;
        let next = match phase {
            Phase::Stat(path) => match event {
                Event::Metadata(metadata) => match metadata {
                    Metadata::Directory => Scanner {
                        threshold,
                        throttle,
                        stack,
                        phase: Phase::List(path),
                    },
                    Metadata::File { len } => Scanner {
                        threshold,
                        throttle,
                        stack,
                        phase: Phase::Clock,
                    }.deliver(Node::leaf(path, len)),
                    _ => Scanner { threshold, throttle, stack, phase: Phase::Clock }.deliver(
                        Node::leaf(path, 0),
                    ),
                },
                _ => Scanner { threshold, throttle, stack, phase: Phase::Stat(path) },
            },
            Phase::List(path) => match event {
                Event::Listing(listing) => match listing {
                    Some(entries) => {
                        let opened = Frame {
                            name: path,
                            total: 0,
                            kept: Vec::new(),
                            entries,
                            cursor: 0,
                        };
                        proof {
                            assert(opened.model().kept =~= Seq::empty());
                            assert(opened.model().rest =~= path_views(entries@));
                            lemma_frame_views_push(stack@, opened);
                        }
                        stack.push(opened);
                        Scanner { threshold, throttle, stack, phase: Phase::Clock }.resume()
                    },
                    None => Scanner { threshold, throttle, stack, phase: Phase::Clock }.deliver(
                        Node::leaf(path, 0),
                    ),
                },
                _ => Scanner { threshold, throttle, stack, phase: Phase::List(path) },
            },
            Phase::Clock => match event {
                Event::Time(now) => {
                    if stack.len() == 0 {
                        Scanner { threshold, throttle, stack, phase: Phase::Clock }
                    } else {
                        proof {
                            lemma_frame_views_drop_last(stack@);
                        }
                        let top = stack.pop().unwrap();
                        if throttle.poll(now) {
                            emit = Some(clone_nodes(&top.kept));
                        }
                        let node = Node { name: top.name, size: top.total, children: top.kept };
                        proof {
                            lemma_view_children(node);
                            assert(node@ == top.model().node());
                        }
                        Scanner { threshold, throttle, stack, phase: Phase::Clock }.deliver(node)
                    }
                },
                _ => Scanner { threshold, throttle, stack, phase: Phase::Clock },
            },
            Phase::Done(node) => Scanner { threshold, throttle, stack, phase: Phase::Done(node) },
        };
        let request = next.request();
        (next, Output { emit, request })
    }

    /// Takes the host's answer to the pending request and says what to do next.
    ///
    /// An event that does not answer the pending request, and one that would take
    /// a directory's total beyond a `u64`, is refused and leaves the scanner as it
    /// was. Otherwise the scanner moves on: a file, and every entry that cannot
    /// be read or listed, becomes a leaf; a listed directory is opened; a
    /// completed directory is reported if a report is due, and each completed
    /// node is kept by its parent if it reaches the threshold.
    pub fn step(&mut self, event: Event) -> (outcome: Result<Output, StepError>)
        requires
            old(self).inv(),
        ensures
            final(self).inv(),
            match outcome {
                Ok(output) => {
                    &&& old(self)@.accepts(event@)
                    &&& final(self)@ == old(self)@.step(event@)
                    &&& output@ == old(self)@.output(event@)
                },
                Err(reason) => {
                    &&& old(self)@.rejection(event@) == Some(reason)
                    &&& final(self)@ == old(self)@
                },
            },
    {
        match self.rejection(&event) {
            Some(reason) => Err(reason),
            None => {
                let mut current = Scanner {
                    threshold: self.threshold,
                    throttle: self.throttle,
                    stack: Vec::new(),
                    phase: Phase::Clock,
                };
                core::mem::swap(self, &mut current);
                proof {
                    lemma_step_inv(current@, event@);
                }
                let (next, output) = current.advance(event);
                *self = next;
                Ok(output)
            },
        }
    }
}

} // verus!
