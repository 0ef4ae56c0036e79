use disk_scan::model::{Metadata, StepError};
use disk_scan::node::{clone_nodes, Node, DEFAULT_THRESHOLD};
use disk_scan::scanner::{Event, Output, Request, ScanConfig, Scanner};
use disk_scan::throttle::{Throttle, DEFAULT_EMIT_INTERVAL};

const MIB: u64 = 1024 * 1024;
const SECOND: u64 = 1_000_000_000;

/// An in-memory stand-in for what a host finds on disk.
#[derive(Clone)]
enum Fake {
    Missing,
    File(u64),
    Other,
    Unlistable,
    Dir(Vec<(String, Fake)>),
}

fn lookup<'a>(root: &str, fake: &'a Fake, path: &str) -> Option<&'a Fake> {
    if root == path {
        return Some(fake);
    }
    if let Fake::Dir(entries) = fake {
        for (name, entry) in entries {
            if let Some(found) = lookup(name, entry, path) {
                return Some(found);
            }
        }
    }
    None
}

/// Runs a scan of `root` against `fake`; the clock advances by `tick` at every reading.
fn drive(
    root: &str,
    fake: &Fake,
    config: ScanConfig,
    start: u64,
    tick: u64,
) -> (Node, Vec<Vec<Node>>, Throttle) {
    let mut scanner = Scanner::new(root.to_string(), config, start);
    let mut clock = start;
    let mut reports = Vec::new();
    let mut request = scanner.request();
    loop {
        let event = match request {
            Request::Stat(path) => Event::Metadata(match lookup(root, fake, &path) {
                None | Some(Fake::Missing) => Metadata::Unreadable,
                Some(Fake::File(len)) => Metadata::File { len: *len },
                Some(Fake::Other) => Metadata::Other,
                Some(Fake::Unlistable) | Some(Fake::Dir(_)) => Metadata::Directory,
            }),
            Request::List(path) => Event::Listing(match lookup(root, fake, &path) {
                Some(Fake::Dir(entries)) => {
                    Some(entries.iter().map(|(name, _)| name.clone()).collect())
                }
                _ => None,
            }),
            Request::Clock => {
                clock += tick;
                Event::Time(clock)
            }
            Request::Done => break,
        };
        let Output { emit, request: next } = scanner.step(event).unwrap();
        if let Some(report) = emit {
            reports.push(report);
        }
        request = next;
    }
    let throttle = scanner.throttle();
    (scanner.into_result().unwrap(), reports, throttle)
}

fn scan(root: &str, fake: &Fake) -> Node {
    drive(root, fake, ScanConfig::default(), 0, 0).0
}

fn leaf(name: &str, size: u64) -> Node {
    Node { name: name.to_string(), size, children: Vec::new() }
}

fn dir(name: &str, entries: Vec<(&str, Fake)>) -> (String, Fake) {
    (
        name.to_string(),
        Fake::Dir(entries.into_iter().map(|(n, f)| (n.to_string(), f)).collect()),
    )
}

fn sizes_add_up(node: &Node) -> bool {
    (node.children.is_empty() || node.size == node.children.iter().map(|c| c.size).sum::<u64>())
        && node.children.iter().all(sizes_add_up)
}

fn children_reach(node: &Node, threshold: u64) -> bool {
    node.children.iter().all(|c| c.size >= threshold && children_reach(c, threshold))
}

fn same_up_to_order(a: &Node, b: &Node) -> bool {
    if a.name != b.name || a.size != b.size || a.children.len() != b.children.len() {
        return false;
    }
    let mut used = vec![false; b.children.len()];
    for child in &a.children {
        let mut found = false;
        for (i, other) in b.children.iter().enumerate() {
            if !used[i] && same_up_to_order(child, other) {
                used[i] = true;
                found = true;
                break;
            }
        }
        if !found {
            return false;
        }
    }
    true
}

fn reversed(fake: &Fake) -> Fake {
    match fake {
        Fake::Dir(entries) => {
            Fake::Dir(entries.iter().rev().map(|(n, f)| (n.clone(), reversed(f))).collect())
        }
        other => other.clone(),
    }
}

fn sample_tree() -> Fake {
    Fake::Dir(vec![
        ("/r/a.bin".to_string(), Fake::File(7 * MIB)),
        dir("/r/sub", vec![
            ("/r/sub/x", Fake::File(5 * MIB)),
            ("/r/sub/y", Fake::File(3 * MIB)),
            ("/r/sub/z", Fake::File(6 * MIB + 1)),
            ("/r/sub/gone", Fake::Missing),
        ]),
        dir("/r/small", vec![
            ("/r/small/a", Fake::File(4 * MIB)),
            ("/r/small/b", Fake::File(4 * MIB)),
        ]),
        ("/r/locked".to_string(), Fake::Unlistable),
        ("/r/pipe".to_string(), Fake::Other),
        dir("/r/empty", vec![]),
        ("/r/b.bin".to_string(), Fake::File(5 * MIB - 1)),
    ])
}

#[test]
fn test_get_disk_utilization() {
    let mut scanner = Scanner::new("/path/to/test".to_string(), ScanConfig::default(), 0);
    assert_eq!(scanner.request(), Request::Stat("/path/to/test".to_string()));
    let result = scanner.step(Event::Metadata(Metadata::Unreadable));
    assert!(result.is_ok());
    assert!(scanner.is_done());
    assert_eq!(scanner.into_result(), Some(leaf("/path/to/test", 0)));
}

#[test]
fn default_threshold_is_five_mebibytes() {
    assert_eq!(DEFAULT_THRESHOLD, 5_242_880);
    let config = ScanConfig::default();
    assert_eq!(config.threshold, 5 * 1024 * 1024);
    assert_eq!(config.emit_interval, DEFAULT_EMIT_INTERVAL);
}

#[test]
fn plain_file_is_a_leaf_of_its_length() {
    for len in [0, 1, 4096, 5 * MIB, u64::MAX] {
        assert_eq!(scan("/f", &Fake::File(len)), leaf("/f", len));
    }
}

#[test]
fn unreadable_root_degrades_to_empty_leaf() {
    assert_eq!(scan("/nowhere", &Fake::Missing), leaf("/nowhere", 0));
}

#[test]
fn unlistable_root_degrades_to_empty_leaf() {
    let (node, reports, throttle) =
        drive("/locked", &Fake::Unlistable, ScanConfig::default(), 0, 100 * SECOND);
    assert_eq!(node, leaf("/locked", 0));
    assert!(reports.is_empty());
    assert_eq!(throttle.last_emit, 0);
}

#[test]
fn other_kind_of_entry_is_an_empty_leaf() {
    assert_eq!(scan("/dev/null", &Fake::Other), leaf("/dev/null", 0));
}

#[test]
fn threshold_boundary_keeps_exactly_the_file_at_the_threshold() {
    let fake = Fake::Dir(vec![
        ("/d/exact".to_string(), Fake::File(5 * MIB)),
        ("/d/below".to_string(), Fake::File(5 * MIB - 1)),
    ]);
    let node = scan("/d", &fake);
    assert_eq!(node.name, "/d");
    assert_eq!(node.size, 5 * MIB);
    assert_eq!(node.children, vec![leaf("/d/exact", 5 * MIB)]);
}

#[test]
fn end_to_end_example() {
    let fake = Fake::Dir(vec![
        ("root/bigfile".to_string(), Fake::File(10 * MIB)),
        ("root/smallfile".to_string(), Fake::File(1024)),
    ]);
    let node = scan("root", &fake);
    assert_eq!(
        node,
        Node {
            name: "root".to_string(),
            size: 10_485_760,
            children: vec![leaf("root/bigfile", 10_485_760)],
        }
    );
}

#[test]
fn directory_of_small_files_counts_nothing() {
    let (_, fake) = dir("/d", vec![("/d/a", Fake::File(4 * MIB)), ("/d/b", Fake::File(4 * MIB))]);
    assert_eq!(scan("/d", &fake), leaf("/d", 0));
}

#[test]
fn nested_directories_sum_only_what_was_kept() {
    let node = scan("/r", &sample_tree());
    let expected = Node {
        name: "/r".to_string(),
        size: 7 * MIB + 11 * MIB + 1,
        children: vec![
            leaf("/r/a.bin", 7 * MIB),
            Node {
                name: "/r/sub".to_string(),
                size: 11 * MIB + 1,
                children: vec![leaf("/r/sub/x", 5 * MIB), leaf("/r/sub/z", 6 * MIB + 1)],
            },
        ],
    };
    assert_eq!(node, expected);
}

#[test]
fn sizes_add_up_in_every_directory() {
    let node = scan("/r", &sample_tree());
    assert!(sizes_add_up(&node));
    let all = drive("/r", &sample_tree(), ScanConfig { threshold: 0, emit_interval: 0 }, 0, 1).0;
    assert!(sizes_add_up(&all));
    assert_eq!(all.size, 7 * MIB + (14 * MIB + 1) + 8 * MIB + (5 * MIB - 1));
    assert_eq!(all.children.len(), 7);
}

#[test]
fn no_child_is_below_the_threshold() {
    for threshold in [0, 1, 3 * MIB, 5 * MIB, 8 * MIB, 100 * MIB] {
        let config = ScanConfig { threshold, emit_interval: DEFAULT_EMIT_INTERVAL };
        let node = drive("/r", &sample_tree(), config, 0, 0).0;
        assert!(children_reach(&node, threshold));
        assert!(sizes_add_up(&node));
    }
}

#[test]
fn children_follow_listing_order() {
    let fake = Fake::Dir(vec![
        ("/d/3".to_string(), Fake::File(6 * MIB)),
        ("/d/1".to_string(), Fake::File(9 * MIB)),
        ("/d/2".to_string(), Fake::File(7 * MIB)),
    ]);
    let names: Vec<String> = scan("/d", &fake).children.into_iter().map(|c| c.name).collect();
    assert_eq!(names, vec!["/d/3", "/d/1", "/d/2"]);
}

#[test]
fn scanning_twice_gives_the_same_tree() {
    let first = scan("/r", &sample_tree());
    let second = drive("/r", &sample_tree(), ScanConfig::default(), 50, 7 * SECOND).0;
    assert_eq!(first, second);
}

#[test]
fn listing_order_changes_only_the_order_of_children() {
    let first = scan("/r", &sample_tree());
    let second = scan("/r", &reversed(&sample_tree()));
    assert!(same_up_to_order(&first, &second));
    assert_ne!(first, second);
    assert_eq!(first.size, second.size);
}

#[test]
fn completions_one_second_apart_report_once() {
    let (_, inner) = dir("/r/in", vec![("/r/in/f", Fake::File(6 * MIB))]);
    let fake = Fake::Dir(vec![("/r/in".to_string(), inner)]);
    let mut scanner = Scanner::new("/r".to_string(), ScanConfig::default(), 0);
    let mut emitted = Vec::new();
    let times = [5 * SECOND, 6 * SECOND];
    let mut next_time = 0;
    let mut request = scanner.request();
    while request != Request::Done {
        let event = match request {
            Request::Stat(path) => match lookup("/r", &fake, &path) {
                Some(Fake::File(len)) => Event::Metadata(Metadata::File { len: *len }),
                _ => Event::Metadata(Metadata::Directory),
            },
            Request::List(path) => match lookup("/r", &fake, &path) {
                Some(Fake::Dir(entries)) => {
                    Event::Listing(Some(entries.iter().map(|(n, _)| n.clone()).collect()))
                }
                _ => Event::Listing(None),
            },
            _ => {
                next_time += 1;
                Event::Time(times[next_time - 1])
            }
        };
        let output = scanner.step(event).unwrap();
        if let Some(report) = output.emit {
            emitted.push(report);
        }
        request = output.request;
    }
    assert_eq!(next_time, 2);
    assert_eq!(emitted, vec![vec![leaf("/r/in/f", 6 * MIB)]]);
    assert_eq!(scanner.throttle().last_emit, 5 * SECOND);
}

#[test]
fn completions_six_seconds_apart_report_twice() {
    let (_, inner) = dir("/r/in", vec![("/r/in/f", Fake::File(6 * MIB))]);
    let fake = Fake::Dir(vec![("/r/in".to_string(), inner)]);
    // The clock reads 6 s at the first completion and 12 s at the second.
    let (node, reports, throttle) = drive("/r", &fake, ScanConfig::default(), 0, 6 * SECOND);
    assert_eq!(reports.len(), 2);
    assert_eq!(reports[0], vec![leaf("/r/in/f", 6 * MIB)]);
    assert_eq!(reports[1], node.children);
    assert_eq!(reports[1][0].name, "/r/in");
    assert_eq!(throttle.last_emit, 12 * SECOND);
}

#[test]
fn last_completion_may_go_unreported() {
    let fake = Fake::Dir(vec![("/r/f".to_string(), Fake::File(6 * MIB))]);
    let (node, reports, throttle) = drive("/r", &fake, ScanConfig::default(), 0, 4 * SECOND);
    assert_eq!(node.size, 6 * MIB);
    assert!(reports.is_empty());
    assert_eq!(throttle.last_emit, 0);
}

#[test]
fn report_carries_the_children_not_the_directory() {
    let fake = Fake::Dir(vec![
        ("/r/a".to_string(), Fake::File(6 * MIB)),
        ("/r/tiny".to_string(), Fake::File(1)),
        ("/r/b".to_string(), Fake::File(8 * MIB)),
    ]);
    let (node, reports, _) = drive("/r", &fake, ScanConfig::default(), 0, 5 * SECOND);
    assert_eq!(reports, vec![vec![leaf("/r/a", 6 * MIB), leaf("/r/b", 8 * MIB)]]);
    assert_eq!(node.children, reports[0]);
}

#[test]
fn shared_throttle_carries_over_between_scans() {
    let mut throttle = Throttle::new(0, DEFAULT_EMIT_INTERVAL);
    let mut reports = 0;
    for now in [5 * SECOND, 7 * SECOND, 10 * SECOND] {
        let mut scanner = Scanner::with_throttle("/r".to_string(), DEFAULT_THRESHOLD, throttle);
        assert_eq!(scanner.threshold(), DEFAULT_THRESHOLD);
        scanner.step(Event::Metadata(Metadata::Directory)).unwrap();
        scanner.step(Event::Listing(Some(vec!["/r/f".to_string()]))).unwrap();
        scanner.step(Event::Metadata(Metadata::File { len: 6 * MIB })).unwrap();
        let output = scanner.step(Event::Time(now)).unwrap();
        if output.emit.is_some() {
            reports += 1;
        }
        assert_eq!(output.request, Request::Done);
        throttle = scanner.throttle();
    }
    assert_eq!(reports, 2);
    assert_eq!(throttle.last_emit, 10 * SECOND);
}

#[test]
fn requests_follow_the_walk_depth_first() {
    let mut scanner = Scanner::new("/r".to_string(), ScanConfig::default(), 0);
    assert_eq!(scanner.depth(), 0);
    assert!(!scanner.is_done());
    assert!(scanner.result().is_none());
    let out = scanner.step(Event::Metadata(Metadata::Directory)).unwrap();
    assert_eq!(out.request, Request::List("/r".to_string()));
    assert!(out.emit.is_none());
    let out = scanner
        .step(Event::Listing(Some(vec!["/r/a".to_string(), "/r/b".to_string()])))
        .unwrap();
    assert_eq!(out.request, Request::Stat("/r/a".to_string()));
    assert_eq!(scanner.depth(), 1);
    let out = scanner.step(Event::Metadata(Metadata::Directory)).unwrap();
    assert_eq!(out.request, Request::List("/r/a".to_string()));
    let out = scanner.step(Event::Listing(Some(Vec::new()))).unwrap();
    assert_eq!(out.request, Request::Clock);
    assert_eq!(scanner.depth(), 2);
    let out = scanner.step(Event::Time(SECOND)).unwrap();
    assert_eq!(out.request, Request::Stat("/r/b".to_string()));
    assert_eq!(scanner.depth(), 1);
    let out = scanner.step(Event::Metadata(Metadata::File { len: 9 * MIB })).unwrap();
    assert_eq!(out.request, Request::Clock);
    assert_eq!(scanner.request(), Request::Clock);
    let out = scanner.step(Event::Time(2 * SECOND)).unwrap();
    assert_eq!(out.request, Request::Done);
    assert_eq!(scanner.request(), Request::Done);
    assert_eq!(scanner.depth(), 0);
    assert!(scanner.is_done());
    let expected =
        Node { name: "/r".to_string(), size: 9 * MIB, children: vec![leaf("/r/b", 9 * MIB)] };
    assert_eq!(scanner.result(), Some(&expected));
}

#[test]
fn event_that_answers_nothing_is_refused() {
    let mut scanner = Scanner::new("/r".to_string(), ScanConfig::default(), 0);
    assert_eq!(scanner.rejection(&Event::Time(3)), Some(StepError::Unexpected));
    assert_eq!(scanner.step(Event::Time(3)).unwrap_err(), StepError::Unexpected);
    assert_eq!(scanner.step(Event::Listing(None)).unwrap_err(), StepError::Unexpected);
    assert_eq!(scanner.request(), Request::Stat("/r".to_string()));
    scanner.step(Event::Metadata(Metadata::Directory)).unwrap();
    assert_eq!(
        scanner.step(Event::Metadata(Metadata::Directory)).unwrap_err(),
        StepError::Unexpected
    );
    assert_eq!(scanner.step(Event::Time(0)).unwrap_err(), StepError::Unexpected);
    assert_eq!(scanner.request(), Request::List("/r".to_string()));
    scanner.step(Event::Listing(Some(Vec::new()))).unwrap();
    assert_eq!(scanner.step(Event::Listing(None)).unwrap_err(), StepError::Unexpected);
    assert_eq!(scanner.rejection(&Event::Time(0)), None);
    scanner.step(Event::Time(0)).unwrap();
    assert!(scanner.is_done());
    assert_eq!(scanner.step(Event::Time(0)).unwrap_err(), StepError::Unexpected);
    assert_eq!(
        scanner.step(Event::Metadata(Metadata::Unreadable)).unwrap_err(),
        StepError::Unexpected
    );
    assert_eq!(scanner.into_result(), Some(leaf("/r", 0)));
}

#[test]
fn total_beyond_u64_is_refused() {
    let mut scanner = Scanner::new("/r".to_string(), ScanConfig::default(), 0);
    scanner.step(Event::Metadata(Metadata::Directory)).unwrap();
    scanner
        .step(Event::Listing(Some(vec!["/r/a".to_string(), "/r/b".to_string()])))
        .unwrap();
    scanner.step(Event::Metadata(Metadata::File { len: u64::MAX - 10 })).unwrap();
    let too_much = Event::Metadata(Metadata::File { len: 5 * MIB });
    assert_eq!(scanner.rejection(&too_much), Some(StepError::Overflow));
    assert_eq!(scanner.step(too_much).unwrap_err(), StepError::Overflow);
    assert_eq!(scanner.request(), Request::Stat("/r/b".to_string()));
    // A file below the threshold is dropped, so it cannot overflow the total.
    let out = scanner.step(Event::Metadata(Metadata::File { len: 11 })).unwrap();
    assert_eq!(out.request, Request::Clock);
    scanner.step(Event::Time(0)).unwrap();
    assert_eq!(scanner.into_result().unwrap().size, u64::MAX - 10);
}

#[test]
fn directory_total_beyond_u64_is_refused_at_completion() {
    let config = ScanConfig { threshold: 1, emit_interval: DEFAULT_EMIT_INTERVAL };
    let mut scanner = Scanner::new("/r".to_string(), config, 0);
    scanner.step(Event::Metadata(Metadata::Directory)).unwrap();
    scanner
        .step(Event::Listing(Some(vec!["/r/a".to_string(), "/r/d".to_string()])))
        .unwrap();
    scanner.step(Event::Metadata(Metadata::File { len: u64::MAX })).unwrap();
    scanner.step(Event::Metadata(Metadata::Directory)).unwrap();
    scanner.step(Event::Listing(Some(vec!["/r/d/x".to_string()]))).unwrap();
    scanner.step(Event::Metadata(Metadata::File { len: 1 })).unwrap();
    assert_eq!(scanner.request(), Request::Clock);
    assert_eq!(scanner.step(Event::Time(9 * SECOND)).unwrap_err(), StepError::Overflow);
    assert_eq!(scanner.request(), Request::Clock);
    assert_eq!(scanner.depth(), 2);
    assert_eq!(scanner.throttle().last_emit, 0);
}

#[test]
fn zero_threshold_keeps_every_entry() {
    let config = ScanConfig { threshold: 0, emit_interval: DEFAULT_EMIT_INTERVAL };
    let fake = Fake::Dir(vec![
        ("/r/gone".to_string(), Fake::Missing),
        ("/r/empty".to_string(), Fake::File(0)),
        ("/r/locked".to_string(), Fake::Unlistable),
    ]);
    let node = drive("/r", &fake, config, 0, 0).0;
    assert_eq!(node.size, 0);
    assert_eq!(
        node.children,
        vec![leaf("/r/gone", 0), leaf("/r/empty", 0), leaf("/r/locked", 0)]
    );
}

#[test]
fn clone_copies_the_whole_tree() {
    let node = scan("/r", &sample_tree());
    let copy = node.clone();
    assert_eq!(copy, node);
    let copies = clone_nodes(&node.children);
    assert_eq!(copies, node.children);
    assert_eq!(Node::leaf("x".to_string(), 3), leaf("x", 3));
}
