//! What a scan computes, stated on a record of what the host found: the tree
//! that comes out and the reports sent on the way, independent of the stepping.

use vstd::prelude::*;
use crate::model::{
    lemma_result_sound, lemma_step_inv, EventView, FrameView, Metadata, PhaseView, ScanState,
};
use crate::node::{lemma_total_size_push, total_size, NodeView};
use crate::throttle::Throttle;

verus! {

/// What a host finds under one path in the course of one scan.
pub enum Walk {
    /// The metadata could not be read.
    Unreadable { path: Seq<char> },
    /// A regular file of `len` bytes.
    File { path: Seq<char>, len: u64 },
    /// Neither a regular file nor a directory.
    Other { path: Seq<char> },
    /// A directory that could not be listed.
    Unlistable { path: Seq<char> },
    /// A directory with what was found under each of its entries, in listing
    /// order, and the time at which the last of them was done.
    Directory { path: Seq<char>, entries: Seq<Walk>, finished: u64 },
}

impl Walk {
    /// The path that was looked at.
    pub open spec fn path(self) -> Seq<char> {
        match self {
            Walk::Unreadable { path } => path,
            Walk::File { path, .. } => path,
            Walk::Other { path } => path,
            Walk::Unlistable { path } => path,
            Walk::Directory { path, .. } => path,
        }
    }

    /// The paths of `entries`, one for one.
    pub open spec fn paths(entries: Seq<Walk>) -> Seq<Seq<char>> {
        Seq::new(entries.len(), |i: int| entries[i].path())
    }

    /// The tree of the scan: a file counts its length; what cannot be read or
    /// listed, or is of another kind, counts nothing; a directory lists the
    /// trees of its entries that reach `threshold` and counts their sum.
    pub open spec fn scan(self, threshold: nat) -> NodeView
        decreases self, 1nat,
    {
        match self {
            Walk::File { path, len } => NodeView::leaf(path, len as nat),
            Walk::Directory { path, entries, .. } => {
                let kept = Walk::kept(entries, threshold);
                NodeView { name: path, size: total_size(kept), children: kept }
            },
            _ => NodeView::leaf(self.path(), 0),
        }
    }

    /// The trees of those of `entries` that reach `threshold`, in listing order.
    pub open spec fn kept(entries: Seq<Walk>, threshold: nat) -> Seq<NodeView>
        decreases entries, 0nat,
    {
        if entries.len() == 0 {
            Seq::empty()
        } else {
            let before = Walk::kept(entries.drop_last(), threshold);
            let node = entries.last().scan(threshold);
            if FrameView::keeps(node.size, threshold) {
                before.push(node)
            } else {
                before
            }
        }
    }

    /// No directory anywhere below sums to more than a `u64` holds.
    pub open spec fn fits(self, threshold: nat) -> bool
        decreases self,
    {
        match self {
            Walk::Directory { entries, .. } => {
                &&& total_size(Walk::kept(entries, threshold)) <= u64::MAX
                &&& forall|i: int|
                    0 <= i < entries.len() ==> (#[trigger] entries[i]).fits(threshold)
            },
            _ => true,
        }
    }

    /// The answers that the host gives in the course of the scan, in order.
    pub open spec fn events(self) -> Seq<EventView>
        decreases self, 1nat,
    {
        match self {
            Walk::Unreadable { .. } => seq![EventView::Metadata(Metadata::Unreadable)],
            Walk::File { len, .. } => seq![EventView::Metadata(Metadata::File { len })],
            Walk::Other { .. } => seq![EventView::Metadata(Metadata::Other)],
            Walk::Unlistable { .. } => seq![
                EventView::Metadata(Metadata::Directory),
                EventView::Listing(None),
            ],
            Walk::Directory { entries, finished, .. } => (seq![
                EventView::Metadata(Metadata::Directory),
                EventView::Listing(Some(Walk::paths(entries))),
            ] + Walk::events_of(entries)).push(EventView::Time(finished)),
        }
    }

    /// The answers given in the course of scanning `entries` one after the other.
    pub open spec fn events_of(entries: Seq<Walk>) -> Seq<EventView>
        decreases entries, 0nat,
    {
        if entries.len() == 0 {
            Seq::empty()
        } else {
            Walk::events_of(entries.drop_last()) + entries.last().events()
        }
    }

    /// The rate limiter after the scan, if it was `throttle` before: it was asked
    /// once at the completion of each listed directory, innermost first.
    pub open spec fn throttle_after(self, throttle: Throttle) -> Throttle
        decreases self, 1nat,
    {
        match self {
            Walk::Directory { entries, finished, .. } => Walk::throttle_after_all(
                entries,
                throttle,
            ).after(finished),
            _ => throttle,
        }
    }

    /// The rate limiter after scanning `entries` one after the other.
    pub open spec fn throttle_after_all(entries: Seq<Walk>, throttle: Throttle) -> Throttle
        decreases entries, 0nat,
    {
        if entries.len() == 0 {
            throttle
        } else {
            entries.last().throttle_after(Walk::throttle_after_all(entries.drop_last(), throttle))
        }
    }

    /// The reports sent in the course of the scan, in order: the kept children of
    /// each listed directory at whose completion a report was due.
    pub open spec fn reports(self, threshold: nat, throttle: Throttle) -> Seq<Seq<NodeView>>
        decreases self, 1nat,
    {
        match self {
            Walk::Directory { entries, finished, .. } => {
                let inner = Walk::reports_of(entries, threshold, throttle);
                if Walk::throttle_after_all(entries, throttle).due(finished) {
                    inner.push(Walk::kept(entries, threshold))
                } else {
                    inner
                }
            },
            _ => Seq::empty(),
        }
    }

    /// The reports sent in the course of scanning `entries` one after the other.
    pub open spec fn reports_of(entries: Seq<Walk>, threshold: nat, throttle: Throttle) -> Seq<
        Seq<NodeView>,
    >
        decreases entries, 0nat,
    {
        if entries.len() == 0 {
            Seq::empty()
        } else {
            Walk::reports_of(entries.drop_last(), threshold, throttle) + entries.last().reports(
                threshold,
                Walk::throttle_after_all(entries.drop_last(), throttle),
            )
        }
    }
}

/// Where a sequence of events takes a scan.
pub struct Trace {
    /// The state reached.
    pub state: ScanState,
    /// The reports handed out on the way, in order.
    pub reports: Seq<Seq<NodeView>>,
    /// Whether every event was accepted.
    pub accepted: bool,
}

impl Trace {
    /// This trace followed by `next`, which starts where this one ends.
    pub open spec fn followed_by(self, next: Trace) -> Trace {
        Trace {
            state: next.state,
            reports: self.reports + next.reports,
            accepted: self.accepted && next.accepted,
        }
    }
}

/// Steps through `events` from `state`; an event that is refused changes nothing.
pub open spec fn run(state: ScanState, events: Seq<EventView>) -> Trace
    decreases events.len(),
{
    if events.len() == 0 {
        Trace { state, reports: Seq::empty(), accepted: true }
    } else {
        let before = run(state, events.drop_last());
        let event = events.last();
        if before.state.accepts(event) {
            Trace {
                state: before.state.step(event),
                reports: match before.state.emits(event) {
                    Some(report) => before.reports.push(report),
                    None => before.reports,
                },
                accepted: before.accepted,
            }
        } else {
            Trace { accepted: false, ..before }
        }
    }
}

/// Running through two sequences of events one after the other is running
/// through their concatenation.
pub proof fn lemma_run_concat(state: ScanState, first: Seq<EventView>, second: Seq<EventView>)
    ensures
        run(state, first + second) == run(state, first).followed_by(run(run(state, first).state, second)),
    decreases second.len(),
{
    let head = run(state, first);
    if second.len() == 0 {
        assert(first + second =~= first);
        assert(head.reports + Seq::<Seq<NodeView>>::empty() =~= head.reports);
    } else {
        assert((first + second).drop_last() =~= first + second.drop_last());
        lemma_run_concat(state, first, second.drop_last());
        let tail = run(head.state, second);
        assert(run(state, first + second).reports =~= head.reports + tail.reports);
    }
}

/// One more event at the end of a run is one more step.
pub proof fn lemma_run_push(state: ScanState, events: Seq<EventView>, event: EventView)
    ensures
        run(state, events.push(event)) == run(state, events).followed_by(
            run(run(state, events).state, seq![event]),
        ),
{
    assert(events.push(event) =~= events + seq![event]);
    lemma_run_concat(state, events, seq![event]);
}

/// A run of one accepted event is that step.
pub proof fn lemma_run_one(state: ScanState, event: EventView)
    requires
        state.accepts(event),
    ensures
        run(state, seq![event]).state == state.step(event),
        run(state, seq![event]).accepted,
        run(state, seq![event]).reports == match state.emits(event) {
            Some(report) => seq![report],
            None => Seq::empty(),
        },
{
    assert(seq![event].drop_last() =~= Seq::empty());
    assert(run(state, seq![event].drop_last()).state == state);
}

/// The invariant holds all along a run.
pub proof fn lemma_run_inv(state: ScanState, events: Seq<EventView>)
    requires
        state.inv(),
    ensures
        run(state, events).state.inv(),
    decreases events.len(),
{
    if events.len() > 0 {
        lemma_run_inv(state, events.drop_last());
        let before = run(state, events.drop_last());
        if before.state.accepts(events.last()) {
            lemma_step_inv(before.state, events.last());
        }
    }
}

/// The directory `name` after the first `k` of its entries were scanned.
spec fn frame_at(name: Seq<char>, entries: Seq<Walk>, k: int, threshold: nat) -> FrameView {
    let kept = Walk::kept(entries.take(k), threshold);
    FrameView { name, total: total_size(kept), kept, rest: Walk::paths(entries).skip(k) }
}

/// The scan inside the directory `name`, opened from `base`, after the first
/// `k` of its entries were scanned.
spec fn inside(
    base: ScanState,
    name: Seq<char>,
    entries: Seq<Walk>,
    k: int,
    throttle: Throttle,
) -> ScanState {
    ScanState {
        stack: base.stack.push(frame_at(name, entries, k, base.threshold)),
        throttle,
        ..base
    }.resume()
}

/// The first `k` entries sum to no more than all of them.
proof fn lemma_kept_prefix(entries: Seq<Walk>, k: int, threshold: nat)
    requires
        0 <= k <= entries.len(),
    ensures
        total_size(Walk::kept(entries.take(k), threshold)) <= total_size(
            Walk::kept(entries, threshold),
        ),
    decreases entries.len(),
{
    if k == entries.len() {
        assert(entries.take(k) =~= entries);
    } else {
        assert(entries.drop_last().take(k) =~= entries.take(k));
        lemma_kept_prefix(entries.drop_last(), k, threshold);
        let node = entries.last().scan(threshold);
        if FrameView::keeps(node.size, threshold) {
            lemma_total_size_push(Walk::kept(entries.drop_last(), threshold), node);
        }
    }
}

/// What scanning the `k`-th entry adds to what the first `k - 1` gave.
proof fn lemma_take_last(entries: Seq<Walk>, k: int, threshold: nat, throttle: Throttle)
    requires
        0 < k <= entries.len(),
    ensures
        Walk::kept(entries.take(k), threshold) == (if FrameView::keeps(
            entries[k - 1].scan(threshold).size,
            threshold,
        ) {
            Walk::kept(entries.take(k - 1), threshold).push(entries[k - 1].scan(threshold))
        } else {
            Walk::kept(entries.take(k - 1), threshold)
        }),
        Walk::events_of(entries.take(k)) == Walk::events_of(entries.take(k - 1)) + entries[k
            - 1].events(),
        Walk::throttle_after_all(entries.take(k), throttle) == entries[k - 1].throttle_after(
            Walk::throttle_after_all(entries.take(k - 1), throttle),
        ),
        Walk::reports_of(entries.take(k), threshold, throttle) == Walk::reports_of(
            entries.take(k - 1),
            threshold,
            throttle,
        ) + entries[k - 1].reports(
            threshold,
            Walk::throttle_after_all(entries.take(k - 1), throttle),
        ),
{
    assert(entries.take(k).drop_last() =~= entries.take(k - 1));
}

/// Scanning the first `k` entries of an opened directory takes the scan to the
/// state in which their kept trees are listed and summed.
proof fn lemma_entries_run(
    base: ScanState,
    name: Seq<char>,
    entries: Seq<Walk>,
    k: nat,
    throttle: Throttle,
)
    requires
        k <= entries.len(),
        inside(base, name, entries, 0, throttle).inv(),
        total_size(Walk::kept(entries, base.threshold)) <= u64::MAX,
        forall|i: int| 0 <= i < entries.len() ==> (#[trigger] entries[i]).fits(base.threshold),
    ensures
        run(inside(base, name, entries, 0, throttle), Walk::events_of(entries.take(k as int)))
            == (Trace {
            state: inside(
                base,
                name,
                entries,
                k as int,
                Walk::throttle_after_all(entries.take(k as int), throttle),
            ),
            reports: Walk::reports_of(entries.take(k as int), base.threshold, throttle),
            accepted: true,
        }),
    decreases entries, k,
{
    let threshold = base.threshold;
    let first = inside(base, name, entries, 0, throttle);
    if k == 0 {
        assert(entries.take(0) =~= Seq::empty());
    } else {
        let done = entries.take(k - 1);
        let walk = entries[k - 1];
        let node = walk.scan(threshold);
        let slowed = Walk::throttle_after_all(done, throttle);
        // The first k - 1 entries lead to `before`, which asks about the k-th.
        let before = inside(base, name, entries, k - 1, slowed);
        lemma_entries_run(base, name, entries, (k - 1) as nat, throttle);
        lemma_run_inv(first, Walk::events_of(done));
        lemma_take_last(entries, k as int, threshold, throttle);
        let open = frame_at(name, entries, k - 1, threshold);
        let paths = Walk::paths(entries);
        assert(before.stack =~= base.stack.push(open.advanced()));
        assert(before.phase == PhaseView::Stat(walk.path()));
        assert(FrameView::keeps(node.size, threshold) ==> before.stack.last().total + node.size
            <= u64::MAX) by {
            lemma_kept_prefix(entries, k as int, threshold);
            lemma_total_size_push(Walk::kept(done, threshold), node);
        }
        // Scanning the k-th entry hands its tree to the directory.
        lemma_walk_run(before, walk);
        let after = ScanState { throttle: walk.throttle_after(slowed), ..before }.deliver(node);
        let grown = open.advanced().absorb(node, threshold);
        assert(grown == frame_at(name, entries, k as int, threshold)) by {
            assert(paths.skip(k - 1).drop_first() =~= paths.skip(k as int));
            if FrameView::keeps(node.size, threshold) {
                lemma_total_size_push(Walk::kept(done, threshold), node);
            }
        }
        assert(before.stack.drop_last().push(grown) =~= base.stack.push(grown));
        assert(after == inside(base, name, entries, k as int, walk.throttle_after(slowed)));
        lemma_run_concat(first, Walk::events_of(done), walk.events());
    }
}

/// A scan that asks about the root of `walk` and is answered as `walk` says
/// accepts every answer, hands the tree of `walk` to the directory that is open,
/// or ends with it if none is, and sends the reports of `walk` on the way.
pub proof fn lemma_walk_run(state: ScanState, walk: Walk)
    requires
        state.inv(),
        state.phase == PhaseView::Stat(walk.path()),
        walk.fits(state.threshold),
        state.stack.len() > 0 && FrameView::keeps(
            walk.scan(state.threshold).size,
            state.threshold,
        ) ==> state.stack.last().total + walk.scan(state.threshold).size <= u64::MAX,
    ensures
        run(state, walk.events()) == (Trace {
            state: ScanState { throttle: walk.throttle_after(state.throttle), ..state }.deliver(
                walk.scan(state.threshold),
            ),
            reports: walk.reports(state.threshold, state.throttle),
            accepted: true,
        }),
    decreases walk, 0nat,
{
    let threshold = state.threshold;
    let node = walk.scan(threshold);
    match walk {
        Walk::Unlistable { path } => {
            let stat = EventView::Metadata(Metadata::Directory);
            let list = EventView::Listing(None);
            assert(walk.events() =~= seq![stat].push(list));
            lemma_run_one(state, stat);
            lemma_run_push(state, seq![stat], list);
            lemma_run_one(state.step(stat), list);
            assert(state.step(stat).step(list) == state.deliver(node));
        },
        Walk::Directory { path, entries, finished } => {
            let stat = EventView::Metadata(Metadata::Directory);
            let list = EventView::Listing(Some(Walk::paths(entries)));
            let time = EventView::Time(finished);
            let opening = seq![stat].push(list);
            let body = Walk::events_of(entries);
            assert(walk.events() =~= (opening + body).push(time));
            // Opening the directory.
            lemma_run_one(state, stat);
            lemma_run_push(state, seq![stat], list);
            lemma_run_one(state.step(stat), list);
            let first = inside(state, path, entries, 0, state.throttle);
            assert(frame_at(path, entries, 0, threshold) == FrameView::opened(
                path,
                Walk::paths(entries),
            )) by {
                assert(entries.take(0) =~= Seq::empty());
                assert(Walk::paths(entries).skip(0) =~= Walk::paths(entries));
            }
            assert(run(state, opening).state == first);
            // Scanning the entries.
            let count = entries.len();
            assert(entries.take(count as int) =~= entries);
            lemma_entries_run(state, path, entries, count, state.throttle);
            lemma_run_concat(state, opening, body);
            let slowed = Walk::throttle_after_all(entries, state.throttle);
            let last = inside(state, path, entries, count as int, slowed);
            assert(run(state, opening + body).state == last);
            assert(last.phase is Clock);
            // Completing the directory.
            assert(last.stack.last().node() == node);
            assert(last.stack.drop_last() =~= state.stack);
            lemma_run_one(last, time);
            lemma_run_push(state, opening + body, time);
            assert(run(state, walk.events()).reports =~= walk.reports(
                threshold,
                state.throttle,
            ));
        },
        _ => {
            let stat = walk.events()[0];
            assert(walk.events() =~= seq![stat]);
            lemma_run_one(state, stat);
            assert(state.step(stat) == state.deliver(node));
        },
    }
}

/// A scan of the root of `walk` that is answered as `walk` says accepts every
/// answer and ends with the tree of `walk`, having sent the reports of `walk`.
pub proof fn lemma_scan_computes(walk: Walk, threshold: nat, throttle: Throttle)
    requires
        threshold <= u64::MAX,
        walk.fits(threshold),
    ensures
        run(ScanState::start(walk.path(), threshold, throttle), walk.events()).accepted,
        run(ScanState::start(walk.path(), threshold, throttle), walk.events()).state.result()
            == Some(walk.scan(threshold)),
        run(ScanState::start(walk.path(), threshold, throttle), walk.events()).state.throttle
            == walk.throttle_after(throttle),
        run(ScanState::start(walk.path(), threshold, throttle), walk.events()).reports
            == walk.reports(threshold, throttle),
{
    lemma_walk_run(ScanState::start(walk.path(), threshold, throttle), walk);
}

/// The tree of a scan is sound: in every directory's node the size is the sum
/// over the listed children, and every listed child reaches the threshold.
pub proof fn lemma_scan_sound(walk: Walk, threshold: nat)
    requires
        threshold <= u64::MAX,
        walk.fits(threshold),
    ensures
        walk.scan(threshold).sound(threshold),
        walk is Directory ==> walk.scan(threshold).size == total_size(
            walk.scan(threshold).children,
        ),
{
    let throttle = Throttle { last_emit: 0, interval: 0 };
    let start = ScanState::start(walk.path(), threshold, throttle);
    lemma_walk_run(start, walk);
    lemma_run_inv(start, walk.events());
    lemma_result_sound(run(start, walk.events()).state);
}

} // verus!
