use media_scan::config::ScanConfig;
use media_scan::metrics::Tally;
use media_scan::scanner::{Entry, Notice, Reply, Request, Scanner};
use media_scan::tree::Node;

fn file(name: &str, size: u64) -> Node {
    Node::File { name: name.to_string(), size: Some(size) }
}

fn unreadable_file(name: &str) -> Node {
    Node::File { name: name.to_string(), size: None }
}

fn dir(name: &str, entries: Vec<Node>) -> Node {
    Node::Directory { name: name.to_string(), entries: Some(entries) }
}

fn locked_dir(name: &str) -> Node {
    Node::Directory { name: name.to_string(), entries: None }
}

fn row(extension: &str, count: u64, size: u64) -> Tally {
    Tally { extension: extension.to_string(), count, size }
}

fn config(target: Option<&str>, extensions: &str) -> ScanConfig {
    ScanConfig::new("./".to_string(), target.map(|t| t.to_string()), extensions)
}

/// How the world of a test answers.
struct World {
    target_ok: bool,
    subfolders_ok: bool,
    copies_ok: bool,
}

const KIND: World = World { target_ok: true, subfolders_ok: true, copies_ok: true };

struct Run {
    requests: Vec<Request>,
    notices: Vec<Notice>,
    scanner: Scanner,
}

/// Drives a scanner over a tree, as a caller with a file system would.
fn drive(root: &Node, config: ScanConfig, world: &World) -> Run {
    let mut arena: Vec<&Node> = vec![root];
    let mut scanner = Scanner::new(config, 0);
    let mut requests = Vec::new();
    let mut notices = Vec::new();
    let mut reply = Reply::Begin;
    loop {
        assert!(scanner.accepts(&reply));
        let step = scanner.step(reply);
        if let Some(notice) = step.notice {
            notices.push(notice);
        }
        reply = match &step.request {
            Request::Finish { .. } => {
                requests.push(step.request);
                assert!(scanner.is_finished());
                return Run { requests, notices, scanner };
            }
            Request::CreateTarget { .. } => {
                if world.target_ok {
                    Reply::TargetReady(Ok(()))
                } else {
                    Reply::TargetReady(Err("read-only".to_string()))
                }
            }
            Request::List { directory, .. } => match arena[*directory] {
                Node::Directory { entries: Some(nodes), .. } => {
                    let mut entries = Vec::new();
                    for node in nodes {
                        let (name, is_dir) = match node {
                            Node::File { name, .. } => (name.clone(), false),
                            Node::Directory { name, .. } => (name.clone(), true),
                        };
                        entries.push(Entry { id: arena.len(), name, is_dir });
                        arena.push(node);
                    }
                    Reply::Listing(Some(entries))
                }
                _ => Reply::Listing(None),
            },
            Request::Stat { file } => match arena[*file] {
                Node::File { size, .. } => Reply::Metadata(*size),
                _ => Reply::Metadata(None),
            },
            Request::CreateSubfolder { .. } => Reply::SubfolderReady(world.subfolders_ok),
            Request::Copy { .. } => {
                if world.copies_ok {
                    Reply::Copied(Ok(()))
                } else {
                    Reply::Copied(Err("disk full".to_string()))
                }
            }
        };
        requests.push(step.request);
    }
}

fn sample_tree() -> Node {
    dir("start", vec![file("a.jpg", 10), file("b.txt", 5), dir("d", vec![file("c.jpg", 20)])])
}

fn create_target() -> Request {
    Request::CreateTarget { target: "out/".to_string() }
}

fn copy(file: usize, subfolder: &str, file_name: &str) -> Request {
    Request::Copy {
        file,
        target: "out/".to_string(),
        subfolder: subfolder.to_string(),
        file_name: file_name.to_string(),
    }
}

fn subfolder(extension: &str) -> Request {
    Request::CreateSubfolder { target: "out/".to_string(), extension: extension.to_string() }
}

#[test]
fn scan_with_target_counts_and_copies() {
    let run = drive(&sample_tree(), config(Some("out/"), "jpg,png"), &KIND);
    assert_eq!(run.scanner.metrics().rows(), &vec![row("jpg", 2, 30)]);
    assert_eq!(run.scanner.metrics().total_files(), 2);
    assert_eq!(run.scanner.metrics().total_size(), 30);
    assert_eq!(run.scanner.metrics().lookup(&"txt".to_string()), None);
    assert_eq!(run.scanner.metrics().lookup(&"png".to_string()), None);
    assert_eq!(
        run.requests,
        vec![
            create_target(),
            Request::List { directory: 0, depth: 0 },
            Request::Stat { file: 1 },
            subfolder("jpg"),
            copy(1, "jpg", "a.jpg"),
            Request::List { directory: 3, depth: 1 },
            Request::Stat { file: 4 },
            subfolder("jpg"),
            copy(4, "jpg", "c.jpg"),
            Request::Finish { summary: true },
        ]
    );
    assert_eq!(
        run.notices,
        vec![
            Notice::SearchStarted,
            Notice::Copied { file: 1, depth: 0 },
            Notice::Copied { file: 4, depth: 1 },
        ]
    );
}

#[test]
fn scan_without_target_writes_nothing() {
    let run = drive(&sample_tree(), config(None, "jpg,png"), &KIND);
    assert_eq!(
        run.requests,
        vec![
            Request::List { directory: 0, depth: 0 },
            Request::Stat { file: 1 },
            Request::List { directory: 3, depth: 1 },
            Request::Stat { file: 4 },
            Request::Finish { summary: true },
        ]
    );
    assert_eq!(
        run.notices,
        vec![
            Notice::SearchStarted,
            Notice::Found { file: 1, depth: 0 },
            Notice::Found { file: 4, depth: 1 },
        ]
    );
}

#[test]
fn metrics_are_the_same_with_and_without_target() {
    let with = drive(&sample_tree(), config(Some("out/"), "jpg,png,txt"), &KIND);
    let without = drive(&sample_tree(), config(None, "jpg,png,txt"), &KIND);
    assert_eq!(with.scanner.metrics(), without.scanner.metrics());
    assert_eq!(with.scanner.metrics().rows(), &vec![row("jpg", 2, 30), row("txt", 1, 5)]);
}

#[test]
fn failed_copies_are_still_counted() {
    let world = World { copies_ok: false, ..KIND };
    let run = drive(&sample_tree(), config(Some("out/"), "jpg,png"), &world);
    assert_eq!(run.scanner.metrics().rows(), &vec![row("jpg", 2, 30)]);
    assert_eq!(
        run.notices,
        vec![
            Notice::SearchStarted,
            Notice::CopyFailed { file: 1, error: "disk full".to_string() },
            Notice::CopyFailed { file: 4, error: "disk full".to_string() },
        ]
    );
}

#[test]
fn failed_subfolder_skips_the_copy_only() {
    let world = World { subfolders_ok: false, ..KIND };
    let run = drive(&sample_tree(), config(Some("out/"), "jpg,png"), &world);
    assert_eq!(run.scanner.metrics().rows(), &vec![row("jpg", 2, 30)]);
    assert!(run.requests.iter().all(|r| !matches!(r, Request::Copy { .. })));
    assert_eq!(
        run.requests,
        vec![
            create_target(),
            Request::List { directory: 0, depth: 0 },
            Request::Stat { file: 1 },
            subfolder("jpg"),
            Request::List { directory: 3, depth: 1 },
            Request::Stat { file: 4 },
            subfolder("jpg"),
            Request::Finish { summary: true },
        ]
    );
    assert_eq!(
        run.notices,
        vec![
            Notice::SearchStarted,
            Notice::SubfolderUnavailable { extension: "jpg".to_string() },
            Notice::SubfolderUnavailable { extension: "jpg".to_string() },
        ]
    );
}

#[test]
fn failed_target_ends_the_scan_before_it_starts() {
    let world = World { target_ok: false, ..KIND };
    let run = drive(&sample_tree(), config(Some("out/"), "jpg,png"), &world);
    assert_eq!(run.requests, vec![create_target(), Request::Finish { summary: false }]);
    assert_eq!(run.notices, vec![Notice::TargetUnavailable { error: "read-only".to_string() }]);
    assert!(run.scanner.metrics().rows().is_empty());
}

#[test]
fn unreadable_metadata_is_skipped_in_silence() {
    let tree = dir("start", vec![unreadable_file("a.jpg"), file("b.jpg", 7)]);
    let run = drive(&tree, config(Some("out/"), "jpg"), &KIND);
    assert_eq!(run.scanner.metrics().rows(), &vec![row("jpg", 1, 7)]);
    assert_eq!(
        run.requests,
        vec![
            create_target(),
            Request::List { directory: 0, depth: 0 },
            Request::Stat { file: 1 },
            Request::Stat { file: 2 },
            subfolder("jpg"),
            copy(2, "jpg", "b.jpg"),
            Request::Finish { summary: true },
        ]
    );
    assert_eq!(run.notices, vec![Notice::SearchStarted, Notice::Copied { file: 2, depth: 0 }]);
}

#[test]
fn unreadable_directory_does_not_stop_the_scan() {
    let tree = dir(
        "start",
        vec![
            dir("one", vec![file("a.jpg", 1)]),
            locked_dir("locked"),
            dir("two", vec![file("b.jpg", 2), dir("deep", vec![file("c.png", 4)])]),
        ],
    );
    let run = drive(&tree, config(None, "jpg,png"), &KIND);
    assert_eq!(run.scanner.metrics().rows(), &vec![row("jpg", 2, 3), row("png", 1, 4)]);
    assert_eq!(run.scanner.metrics().total_files(), 3);
    assert_eq!(run.scanner.metrics().total_size(), 7);
    assert!(run.requests.contains(&Request::List { directory: 2, depth: 1 }));
}

#[test]
fn unreadable_start_directory_gives_an_empty_summary() {
    let run = drive(&locked_dir("start"), config(None, "jpg"), &KIND);
    assert_eq!(
        run.requests,
        vec![Request::List { directory: 0, depth: 0 }, Request::Finish { summary: true }]
    );
    assert!(run.scanner.metrics().rows().is_empty());
}

#[test]
fn walk_is_depth_first_in_listing_order() {
    let tree = dir(
        "start",
        vec![
            file("1.jpg", 1),
            dir("x", vec![file("2.jpg", 1), dir("y", vec![file("3.jpg", 1)]), file("4.jpg", 1)]),
            file("5.jpg", 1),
        ],
    );
    let run = drive(&tree, config(None, "jpg"), &KIND);
    // ids: 1.jpg 1, x 2, 5.jpg 3, 2.jpg 4, y 5, 4.jpg 6, 3.jpg 7
    assert_eq!(
        run.requests,
        vec![
            Request::List { directory: 0, depth: 0 },
            Request::Stat { file: 1 },
            Request::List { directory: 2, depth: 1 },
            Request::Stat { file: 4 },
            Request::List { directory: 5, depth: 2 },
            Request::Stat { file: 7 },
            Request::Stat { file: 6 },
            Request::Stat { file: 3 },
            Request::Finish { summary: true },
        ]
    );
    assert_eq!(
        run.notices,
        vec![
            Notice::SearchStarted,
            Notice::Found { file: 1, depth: 0 },
            Notice::Found { file: 4, depth: 1 },
            Notice::Found { file: 7, depth: 2 },
            Notice::Found { file: 6, depth: 1 },
            Notice::Found { file: 3, depth: 0 },
        ]
    );
    assert_eq!(run.scanner.metrics().rows(), &vec![row("jpg", 5, 5)]);
}

#[test]
fn files_without_matching_extension_are_never_sized() {
    let tree = dir("start", vec![file("a.txt", 1), file("noext", 2), file("dot.", 3)]);
    let run = drive(&tree, config(Some("out/"), "jpg"), &KIND);
    assert_eq!(
        run.requests,
        vec![
            create_target(),
            Request::List { directory: 0, depth: 0 },
            Request::Finish { summary: true },
        ]
    );
    assert!(run.scanner.metrics().rows().is_empty());
}

#[test]
fn same_file_name_in_two_directories_is_counted_twice() {
    let tree = dir("start", vec![file("a.jpg", 3), dir("d", vec![file("a.jpg", 4)])]);
    let run = drive(&tree, config(Some("out/"), "jpg"), &KIND);
    assert_eq!(run.scanner.metrics().rows(), &vec![row("jpg", 2, 7)]);
    let copies: Vec<&Request> =
        run.requests.iter().filter(|r| matches!(r, Request::Copy { .. })).collect();
    assert_eq!(copies, vec![&copy(1, "jpg", "a.jpg"), &copy(3, "jpg", "a.jpg")]);
}

#[test]
fn scanner_accepts_only_the_awaited_reply() {
    let mut scanner = Scanner::new(config(Some("out/"), "jpg"), 0);
    assert!(scanner.accepts(&Reply::Begin));
    assert!(!scanner.accepts(&Reply::Listing(None)));
    assert!(!scanner.accepts(&Reply::Metadata(Some(1))));
    let step = scanner.step(Reply::Begin);
    assert_eq!(step.request, create_target());
    assert_eq!(step.notice, None);
    assert!(!scanner.accepts(&Reply::Begin));
    assert!(scanner.accepts(&Reply::TargetReady(Ok(()))));
    assert!(scanner.accepts(&Reply::TargetReady(Err("no".to_string()))));
    let step = scanner.step(Reply::TargetReady(Ok(())));
    assert_eq!(step.request, Request::List { directory: 0, depth: 0 });
    assert_eq!(step.notice, Some(Notice::SearchStarted));
    assert!(!scanner.accepts(&Reply::SubfolderReady(true)));
    assert!(scanner.accepts(&Reply::Listing(None)));
    let entries = vec![Entry { id: 9, name: "a.jpg".to_string(), is_dir: false }];
    let step = scanner.step(Reply::Listing(Some(entries)));
    assert_eq!(step.request, Request::Stat { file: 9 });
    assert!(!scanner.accepts(&Reply::Copied(Ok(()))));
    assert!(scanner.accepts(&Reply::Metadata(None)));
    assert!(scanner.accepts(&Reply::Metadata(Some(u64::MAX))));
    let step = scanner.step(Reply::Metadata(Some(5)));
    assert_eq!(step.request, subfolder("jpg"));
    assert!(!scanner.accepts(&Reply::Metadata(Some(5))));
    assert!(scanner.accepts(&Reply::SubfolderReady(false)));
    let step = scanner.step(Reply::SubfolderReady(true));
    assert_eq!(step.request, copy(9, "jpg", "a.jpg"));
    assert!(scanner.accepts(&Reply::Copied(Err("x".to_string()))));
    let step = scanner.step(Reply::Copied(Ok(())));
    assert_eq!(step.request, Request::Finish { summary: true });
    assert_eq!(step.notice, Some(Notice::Copied { file: 9, depth: 0 }));
    assert!(scanner.is_finished());
    assert!(!scanner.accepts(&Reply::Begin));
    assert!(!scanner.accepts(&Reply::Copied(Ok(()))));
}

#[test]
fn scanner_refuses_a_size_that_overflows_the_totals() {
    let mut scanner = Scanner::new(config(None, "jpg,png"), 0);
    scanner.step(Reply::Begin);
    let entries = vec![
        Entry { id: 1, name: "a.jpg".to_string(), is_dir: false },
        Entry { id: 2, name: "b.png".to_string(), is_dir: false },
    ];
    let step = scanner.step(Reply::Listing(Some(entries)));
    assert_eq!(step.request, Request::Stat { file: 1 });
    let step = scanner.step(Reply::Metadata(Some(u64::MAX - 1)));
    assert_eq!(step.request, Request::Stat { file: 2 });
    assert!(!scanner.accepts(&Reply::Metadata(Some(2))));
    assert!(scanner.accepts(&Reply::Metadata(Some(1))));
    assert!(scanner.accepts(&Reply::Metadata(None)));
}

#[test]
fn scanner_hands_out_its_config_and_metrics() {
    let scanner = Scanner::new(config(Some("out/"), "jpg,png"), 0);
    assert_eq!(scanner.config().target_directory, Some("out/".to_string()));
    assert_eq!(scanner.config().start_directory, "./");
    assert_eq!(scanner.config().media_extensions, vec!["jpg".to_string(), "png".to_string()]);
    assert!(!scanner.is_finished());
    assert!(scanner.into_metrics().rows().is_empty());
}
