use std::collections::HashMap;
use cntl::cli::{init_check, run, Cli, Command, InitError, Task};
use cntl::commit::{commit_author, commit_summary, head_from_bytes, log_entry, log_step, log_walk, message_lines, new_commit, print_commit, CommitError};
use cntl::config::{config, list_config, local_db_path_existing, lookup_config, read_config, ConfigError, ConfigTask};
use cntl::diff::{binary_note, diff_block, emit_diff};
use cntl::hex::{hex_full, hex_short};
use cntl::object::{decode, hash_bytes, Commit, Tree, TreeEntryKind};
use cntl::refs::{head_branch, initial_refs, resolve_head, HeadError};
use cntl::restore::{restore_targets, RestoreError};
use cntl::order::{compare_text, sort_by_name, TextOrder};
use cntl::status::{blob_hash, is_binary, status_lines, working_tree_changes, Change};
use cntl::tree::{expand_tree, is_ignored_name, write_tree, ChildContent, DirChild, ObjectKind, TreeWalk};
use cntl::wire::encode_blob_data;

fn s(x: &str) -> String {
    x.to_string()
}

#[test]
fn hex_renders_lowercase() {
    let mut h = [0u8; 32];
    h[0] = 0xa1;
    h[1] = 0xb2;
    h[2] = 0xc3;
    h[3] = 0xd4;
    h[4] = 0xe5;
    h[31] = 0x0f;
    let full = hex_full(&h);
    assert_eq!(full.len(), 64);
    assert!(full.starts_with("a1b2c3d4e5"));
    assert!(full.ends_with("0f"));
    assert_eq!(hex_short(&h), "a1b2c3d4");
    assert!(full.starts_with(&hex_short(&h)));
}

#[test]
fn binary_detection_looks_at_first_8k() {
    assert!(!is_binary(b"hello\nworld\n"));
    assert!(is_binary(b"ab\0cd"));
    assert!(!is_binary(b""));
    let mut late = vec![b'a'; 8192];
    late.push(0);
    assert!(!is_binary(&late));
    let mut edge = vec![b'a'; 8191];
    edge.push(0);
    assert!(is_binary(&edge));
}

#[test]
fn config_argument_rules() {
    assert!(matches!(config(None, None, false, false, true), Err(ConfigError::VerboseWithoutAll)));
    assert!(matches!(config(None, None, false, true, true), Ok(ConfigTask::List { verbose: true })));
    assert!(matches!(config(None, None, false, false, false), Err(ConfigError::MissingKey)));
    match config(Some(s("user.name")), Some(s("Your Name")), true, false, false) {
        Ok(ConfigTask::Write { key, value, local }) => {
            assert_eq!(key, "user.name");
            assert_eq!(value, "Your Name");
            assert!(local);
        }
        _ => panic!("expected a write"),
    }
    match config(Some(s("user.name")), None, false, false, false) {
        Ok(ConfigTask::Read { key, local }) => {
            assert_eq!(key, "user.name");
            assert!(!local);
        }
        _ => panic!("expected a read"),
    }
}

#[test]
fn local_setting_overrides_global() {
    assert_eq!(lookup_config(Some(s("work")), Some(s("home"))), Some(s("work")));
    assert_eq!(lookup_config(None, Some(s("home"))), Some(s("home")));
    assert_eq!(lookup_config(Some(s("work")), None), Some(s("work")));
    assert_eq!(lookup_config(None, None), None);
}

#[test]
fn read_config_reports_unset_key() {
    assert_eq!(read_config("user.name", Some(s("Your Name"))).unwrap(), "Your Name");
    match read_config("user.name", None) {
        Err(ConfigError::KeyNotSet { key }) => assert_eq!(key, "user.name"),
        _ => panic!("expected an error"),
    }
}

#[test]
fn repo_path_only_when_present() {
    assert_eq!(local_db_path_existing(true).unwrap(), ".cntl/repo.db");
    assert!(matches!(local_db_path_existing(false), Err(ConfigError::NotInRepository)));
}

#[test]
fn list_config_scopes_as_documented() {
    let local = vec![(s("user.email"), s("work@example.com"))];
    let global = vec![(s("user.name"), s("Your Name")), (s("user.email"), s("you@example.com"))];
    assert_eq!(
        list_config(&local, &global, false),
        vec![s("user.email(local) \"work@example.com\""), s("user.name(global) \"Your Name\"")]
    );
    assert_eq!(
        list_config(&local, &global, true),
        vec![
            s("user.email(local) \"work@example.com\""),
            s("  shadowed: global = \"you@example.com\""),
            s("user.name(global) \"Your Name\""),
        ]
    );
    assert_eq!(list_config(&vec![], &vec![], true), vec![s("no configuration set")]);
    let dup = vec![(s("b"), s("1")), (s("a"), s("2")), (s("b"), s("3"))];
    assert_eq!(list_config(&dup, &vec![], false), vec![s("a(local) \"2\""), s("b(local) \"3\"")]);
}

#[test]
fn text_order_is_bytewise() {
    assert_eq!(compare_text("a", "b"), TextOrder::Less);
    assert_eq!(compare_text("B", "a"), TextOrder::Less);
    assert_eq!(compare_text("ab", "a"), TextOrder::Greater);
    assert_eq!(compare_text("é", "é"), TextOrder::Equal);
    assert_eq!(compare_text("z", "é"), TextOrder::Less);
    let v = vec![s("src/main.rs"), s("README.md"), s("a"), s("Cargo.toml"), s("a")];
    let mut expected = v.clone();
    expected.sort();
    assert_eq!(sort_by_name(v), expected);
}

fn h(b: u8) -> [u8; 32] {
    [b; 32]
}

#[test]
fn working_tree_changes_classify() {
    let files = vec![(s("a.txt"), h(1)), (s("b.txt"), h(9)), (s("new.txt"), h(3))];
    let head = vec![(s("z.txt"), h(5)), (s("b.txt"), h(2)), (s("a.txt"), h(1)), (s("c.txt"), h(4))];
    let changes = working_tree_changes(&files, &head);
    assert_eq!(changes.len(), 4);
    assert!(matches!(&changes[0], Change::Modified { path, head } if path == "b.txt" && *head == h(2)));
    assert!(matches!(&changes[1], Change::Added { path } if path == "new.txt"));
    assert!(matches!(&changes[2], Change::Deleted { path, head } if path == "c.txt" && *head == h(4)));
    assert!(matches!(&changes[3], Change::Deleted { path, head } if path == "z.txt" && *head == h(5)));
    let names = vec![s("a.txt"), s("b.txt"), s("new.txt")];
    assert_eq!(
        status_lines(true, &names, &changes),
        vec![
            s("Changes since last commit:"),
            s("\tmodified:   b.txt"),
            s("\tnew file:   new.txt"),
            s("\tdeleted:    c.txt"),
            s("\tdeleted:    z.txt"),
        ]
    );
}

#[test]
fn unchanged_tree_is_clean() {
    let files = vec![(s("a"), h(1)), (s("b"), h(2))];
    let head = vec![(s("b"), h(2)), (s("a"), h(1))];
    let changes = working_tree_changes(&files, &head);
    assert!(changes.is_empty());
    assert_eq!(status_lines(true, &vec![s("a"), s("b")], &changes), vec![s("nothing to commit, working tree clean")]);
}

#[test]
fn status_without_commits() {
    assert_eq!(
        status_lines(false, &vec![], &vec![]),
        vec![s("No commits yet."), s(""), s("nothing to commit (working tree empty)")]
    );
    assert_eq!(
        status_lines(false, &vec![s("README.md")], &vec![]),
        vec![s("No commits yet."), s(""), s("Untracked files:"), s("\tnew file:   README.md")]
    );
}

#[test]
fn blob_hash_is_hash_of_encoded_blob() {
    let data = b"hello cntl\n";
    assert_eq!(blob_hash(data), hash_bytes(&encode_blob_data(data)));
    assert_ne!(blob_hash(data), hash_bytes(data));
    assert_ne!(blob_hash(b"a"), blob_hash(b"b"));
}

fn child(name: &str, content: ChildContent) -> DirChild {
    DirChild { name: s(name), os_name: name.as_bytes().to_vec(), content }
}

#[test]
fn snapshot_sorts_and_skips_repo_dir() {
    let children = vec![
        child("zeta.txt", ChildContent::File { data: b"z".to_vec() }),
        child(".cntl", ChildContent::Dir { tree: h(8) }),
        child("docs", ChildContent::Dir { tree: h(7) }),
        child("Alpha.md", ChildContent::File { data: b"a".to_vec() }),
    ];
    let w = write_tree(children);
    assert_eq!(w.objects.len(), 3);
    assert_eq!(w.objects[0].kind, ObjectKind::Blob);
    assert_eq!(w.objects[0].hash, blob_hash(b"a"));
    assert_eq!(w.objects[1].hash, blob_hash(b"z"));
    let t = &w.objects[2];
    assert_eq!(t.kind, ObjectKind::Tree);
    assert_eq!(t.kind.table_name(), "tree");
    assert_eq!(t.hash, w.hash);
    assert_eq!(hash_bytes(&t.bytes), w.hash);
    let tree: Tree = decode(&t.bytes).unwrap();
    let names: Vec<&str> = tree.entries.iter().map(|e| e.name.as_str()).collect();
    assert_eq!(names, vec!["Alpha.md", "docs", "zeta.txt"]);
    assert_eq!(tree.entries[1].kind, TreeEntryKind::Tree);
    assert_eq!(tree.entries[1].hash, h(7));
    assert!(is_ignored_name(".cntl"));
    assert!(!is_ignored_name("cntl"));
}

#[test]
fn snapshot_hash_ignores_entry_order() {
    let make = |order: &[usize]| {
        let all = [
            ("b.txt", Some(b"b".to_vec()), h(0)),
            ("a", None, h(3)),
            ("c.txt", Some(b"c".to_vec()), h(0)),
        ];
        let children: Vec<DirChild> = order
            .iter()
            .map(|&i| {
                let (n, d, t) = &all[i];
                match d {
                    Some(data) => child(n, ChildContent::File { data: data.clone() }),
                    None => child(n, ChildContent::Dir { tree: *t }),
                }
            })
            .collect();
        write_tree(children)
    };
    let w1 = make(&[0, 1, 2]);
    let w2 = make(&[2, 0, 1]);
    let w3 = make(&[1, 2, 0]);
    assert_eq!(w1.hash, w2.hash);
    assert_eq!(w1.hash, w3.hash);
    let hashes = |w: &cntl::tree::WrittenTree| w.objects.iter().map(|o| o.hash).collect::<Vec<_>>();
    assert_eq!(hashes(&w1), hashes(&w2));
    assert_eq!(hashes(&w1), hashes(&w3));
}

#[test]
fn snapshot_sorts_by_stored_name_bytes() {
    // A name that is not UTF-8 sorts by its bytes, not by its lossy text.
    let odd = DirChild { name: s("\u{FFFD}"), os_name: vec![0x80], content: ChildContent::Dir { tree: h(1) } };
    let w = write_tree(vec![child("\u{e9}", ChildContent::Dir { tree: h(2) }), odd]);
    let tree: Tree = decode(&w.objects[0].bytes).unwrap();
    let names: Vec<&str> = tree.entries.iter().map(|e| e.name.as_str()).collect();
    assert_eq!(names, vec!["\u{FFFD}", "\u{e9}"]);
}

#[test]
fn tree_walk_finds_nested_files() {
    let root = Tree {
        entries: vec![
            cntl::object::TreeEntry { name: s("a.txt"), kind: TreeEntryKind::Blob, hash: h(1) },
            cntl::object::TreeEntry { name: s("sub"), kind: TreeEntryKind::Tree, hash: h(2) },
            cntl::object::TreeEntry { name: s("z.txt"), kind: TreeEntryKind::Blob, hash: h(3) },
        ],
    };
    let sub = Tree {
        entries: vec![cntl::object::TreeEntry { name: s("b.txt"), kind: TreeEntryKind::Blob, hash: h(4) }],
    };
    let items = expand_tree("sub", &sub);
    assert_eq!(items[0].path, "sub/b.txt");
    let mut walk = TreeWalk::new(h(0));
    let (p, r) = walk.next_tree().unwrap();
    assert_eq!(p, "");
    assert_eq!(r, h(0));
    walk.visit(&p, &root);
    let (p, r) = walk.next_tree().unwrap();
    assert_eq!(p, "sub");
    assert_eq!(r, h(2));
    walk.visit(&p, &sub);
    assert!(walk.next_tree().is_none());
    let files = walk.into_files();
    assert_eq!(files, vec![(s("a.txt"), h(1)), (s("sub/b.txt"), h(4)), (s("z.txt"), h(3))]);
}

#[test]
fn commit_creation_and_summary() {
    assert!(matches!(commit_author(None, Some(s("e"))), Err(CommitError::NameNotConfigured)));
    assert!(matches!(commit_author(Some(s("n")), None), Err(CommitError::EmailNotConfigured)));
    assert_eq!(commit_author(Some(s("n")), Some(s("e"))).unwrap(), (s("n"), s("e")));
    let nc = new_commit(None, h(4), s("Your Name"), s("you@example.com"), 10, "first commit");
    assert_eq!(nc.object.kind, ObjectKind::Commit);
    assert_eq!(nc.object.hash, hash_bytes(&nc.object.bytes));
    let back: Commit = decode(&nc.object.bytes).unwrap();
    assert_eq!(back.message, "first commit");
    assert_eq!(back.parent, None);
    let summary = commit_summary(&nc.object.hash, "first commit");
    assert_eq!(summary, format!("[{}] first commit", hex_short(&nc.object.hash)));
    assert_eq!(summary.len(), "[12345678] first commit".len());
}

#[test]
fn head_bytes_must_be_a_hash() {
    assert_eq!(head_from_bytes(&[5u8; 32]), Some(h(5)));
    assert_eq!(head_from_bytes(&[5u8; 31]), None);
    assert_eq!(head_from_bytes(&[5u8; 33]), None);
    assert!(matches!(log_walk(None), Err(CommitError::NoCommits)));
    let w = log_walk(Some(h(1))).unwrap();
    assert_eq!(w.next, Some(h(1)));
    assert!(!w.printed);
}

#[test]
fn message_lines_follow_str_lines() {
    for text in ["", "one", "one\n", "one\ntwo", "a\r\nb\r\n", "a\rb", "\n", "\n\n", "x\n\ny\r", "é\n€\r\n"] {
        let expected: Vec<String> = text.lines().map(|l| l.to_string()).collect();
        assert_eq!(message_lines(text), expected, "text {:?}", text);
    }
}

#[test]
fn log_walk_prints_history_newest_first() {
    let first = Commit {
        parent: None,
        tree: h(1),
        author_name: s("A"),
        author_email: s("a@x"),
        timestamp_utc: 0,
        message: s("first"),
    };
    let second = Commit { parent: Some(h(10)), message: s("second"), ..first.clone() };
    let mut walk = log_walk(Some(h(20))).unwrap();
    let mut out: Vec<String> = Vec::new();
    let mut seen = Vec::new();
    while let Some(hash) = walk.next {
        let c = if hash == h(20) { &second } else { &first };
        seen.push(hash);
        out.extend(log_step(&mut walk, c, "D"));
    }
    assert_eq!(seen, vec![h(20), h(10)]);
    let mut expected = print_commit(&h(20), &second, "D");
    expected.push(s(""));
    expected.extend(print_commit(&h(10), &first, "D"));
    assert_eq!(out, expected);
    assert_eq!(out[0], format!("commit {}", hex_full(&h(20))));
    assert_eq!(out[5], "");
    assert_eq!(out[6], format!("commit {}", hex_full(&h(10))));
}

#[test]
fn log_block_layout() {
    let c = Commit {
        parent: None,
        tree: h(1),
        author_name: s("Your Name"),
        author_email: s("you@example.com"),
        timestamp_utc: 0,
        message: s("add NOTES\n\nbody"),
    };
    let hash = h(0xab);
    let lines = print_commit(&hash, &c, "2026-06-09 15:42:11 +0900");
    assert_eq!(
        lines,
        vec![
            format!("commit {}", hex_full(&hash)),
            s("Author: Your Name <you@example.com>"),
            s("Date:   2026-06-09 15:42:11 +0900"),
            s(""),
            s("    add NOTES"),
            s("    "),
            s("    body"),
        ]
    );
}

#[test]
fn diff_of_new_file_matches_tutorial() {
    let text = emit_diff("NOTES.md", None, Some(b"## TODO\n"));
    assert_eq!(
        text,
        "diff --cntl a/NOTES.md b/NOTES.md\n--- /dev/null\n+++ b/NOTES.md\n@@ -0,0 +1 @@\n+## TODO\n"
    );
}

#[test]
fn diff_of_deleted_and_modified_files() {
    let text = emit_diff("NOTES.md", Some(b"## TODO\n"), None);
    assert_eq!(
        text,
        "diff --cntl a/NOTES.md b/NOTES.md\n--- a/NOTES.md\n+++ /dev/null\n@@ -1 +0,0 @@\n-## TODO\n"
    );
    let text = emit_diff("README.md", Some(b"hello cntl\n"), Some(b"hello cntl\nfirst line\n"));
    assert_eq!(
        text,
        "diff --cntl a/README.md b/README.md\n--- a/README.md\n+++ b/README.md\n@@ -1 +1,2 @@\n hello cntl\n+first line\n"
    );
}

#[test]
fn diff_of_binary_file() {
    let text = emit_diff("image.png", Some(b"\x89PNG\0"), Some(b"x"));
    assert_eq!(text, "diff --cntl a/image.png b/image.png\nBinary files a/image.png and b/image.png differ\n");
    assert_eq!(binary_note("x"), "Binary files a/x and b/x differ\n");
    assert_eq!(diff_block("p", "body"), "diff --cntl a/p b/p\nbody");
}

#[test]
fn run_dispatches_commands() {
    assert!(matches!(run(Cli { command: Command::Init }), Ok(Task::Init)));
    assert!(matches!(run(Cli { command: Command::Status }), Ok(Task::Status)));
    assert!(matches!(run(Cli { command: Command::Diff }), Ok(Task::Diff)));
    assert!(matches!(run(Cli { command: Command::Log }), Ok(Task::Log)));
    match run(Cli { command: Command::Commit { message: s("m") } }) {
        Ok(Task::Commit { message }) => assert_eq!(message, "m"),
        _ => panic!("expected a commit"),
    }
    let cfg = Command::Config { key: None, value: None, local: false, all: false, verbose: true };
    assert!(matches!(run(Cli { command: cfg }), Err(ConfigError::VerboseWithoutAll)));
    let cfg = Command::Config { key: Some(s("k")), value: None, local: true, all: false, verbose: false };
    assert!(matches!(run(Cli { command: cfg }), Ok(Task::Config(ConfigTask::Read { local: true, .. }))));
    assert!(matches!(init_check(true), Err(InitError::AlreadyExists)));
    assert!(init_check(false).is_ok());
}

#[test]
fn committed_snapshot_walks_back_clean() {
    let mut store: HashMap<[u8; 32], Vec<u8>> = HashMap::new();
    let sub = write_tree(vec![child("b.txt", ChildContent::File { data: b"bee\n".to_vec() })]);
    for o in &sub.objects {
        store.insert(o.hash, o.bytes.clone());
    }
    let root = write_tree(vec![
        child("z.txt", ChildContent::File { data: b"zed\n".to_vec() }),
        child(".cntl", ChildContent::Dir { tree: h(9) }),
        child("sub", ChildContent::Dir { tree: sub.hash }),
        child("a.txt", ChildContent::File { data: b"ay\n".to_vec() }),
    ]);
    for o in &root.objects {
        store.insert(o.hash, o.bytes.clone());
    }
    let mut walk = TreeWalk::new(root.hash);
    let mut loads = 0;
    while let Some((prefix, hash)) = walk.next_tree() {
        let tree: Tree = decode(&store[&hash]).unwrap();
        walk.visit(&prefix, &tree);
        loads += 1;
    }
    assert_eq!(loads, 2);
    let head = walk.into_files();
    assert_eq!(
        head,
        vec![
            (s("a.txt"), blob_hash(b"ay\n")),
            (s("sub/b.txt"), blob_hash(b"bee\n")),
            (s("z.txt"), blob_hash(b"zed\n")),
        ]
    );
    let working = vec![
        (s("a.txt"), blob_hash(b"ay\n")),
        (s("sub/b.txt"), blob_hash(b"bee\n")),
        (s("z.txt"), blob_hash(b"zed\n")),
    ];
    assert!(working_tree_changes(&working, &head).is_empty());
}

#[test]
fn restore_takes_content_from_head() {
    let head = vec![(s("foo.txt"), h(1)), (s("dir/bar.txt"), h(2))];
    let got = restore_targets(true, &head, &vec![s("dir/bar.txt"), s("foo.txt")]).unwrap();
    assert_eq!(got, vec![(s("dir/bar.txt"), h(2)), (s("foo.txt"), h(1))]);
    match restore_targets(true, &head, &vec![s("foo.txt"), s("new.txt"), s("other.txt")]) {
        Err(RestoreError::NotInHead { path }) => assert_eq!(path, "new.txt"),
        _ => panic!("expected a refusal"),
    }
    assert!(matches!(restore_targets(false, &vec![], &vec![s("foo.txt")]), Err(RestoreError::NoCommits)));
    match run(Cli { command: Command::Restore { paths: vec![s("foo.txt")] } }) {
        Ok(Task::Restore { paths }) => assert_eq!(paths, vec![s("foo.txt")]),
        _ => panic!("expected a restore"),
    }
}

#[test]
fn log_entry_shows_local_date() {
    let c = Commit {
        parent: Some(h(3)),
        tree: h(1),
        author_name: s("A"),
        author_email: s("a@x"),
        timestamp_utc: 1_700_000_000,
        message: s("msg"),
    };
    let mut walk = log_walk(Some(h(4))).unwrap();
    let lines = log_entry(&mut walk, &c);
    assert_eq!(walk.next, Some(h(3)));
    assert!(walk.printed);
    assert_eq!(lines[0], format!("commit {}", hex_full(&h(4))));
    assert!(lines[2].starts_with("Date:   20"));
    assert_eq!(lines[2].len(), "Date:   2023-11-14 22:13:20 +0000".len());
    assert_eq!(lines[4], "    msg");
}

#[test]
fn head_names_a_branch_that_names_a_commit() {
    let refs = initial_refs();
    assert_eq!(refs, vec![(s("HEAD"), b"refs/heads/main".to_vec())]);
    assert_eq!(head_branch(&refs).unwrap(), "refs/heads/main");
    assert_eq!(resolve_head(&refs).unwrap(), None);

    // After the first commit the branch exists and HEAD still names it.
    let mut after = refs.clone();
    after.push((s("refs/heads/main"), h(7).to_vec()));
    assert_eq!(head_branch(&after).unwrap(), "refs/heads/main");
    assert_eq!(resolve_head(&after).unwrap(), Some(h(7)));

    // Another branch is followed only when HEAD names it.
    let other = vec![
        (s("refs/heads/main"), h(1).to_vec()),
        (s("HEAD"), b"refs/heads/dev".to_vec()),
        (s("refs/heads/dev"), h(2).to_vec()),
    ];
    assert_eq!(resolve_head(&other).unwrap(), Some(h(2)));

    assert!(matches!(resolve_head(&vec![]), Err(HeadError::Missing)));
    let direct = vec![(s("HEAD"), h(3).to_vec())];
    assert!(matches!(head_branch(&direct), Err(HeadError::NotABranch)));
    assert!(matches!(resolve_head(&direct), Err(HeadError::NotABranch)));
    let bare = vec![(s("HEAD"), b"refs/heads/".to_vec())];
    assert!(matches!(resolve_head(&bare), Err(HeadError::NotABranch)));
    let not_text = vec![(s("HEAD"), vec![b'r', b'e', b'f', b's', b'/', b'h', b'e', b'a', b'd', b's', b'/', 0xff])];
    assert!(matches!(resolve_head(&not_text), Err(HeadError::NotABranch)));
    let short = vec![(s("HEAD"), b"refs/heads/main".to_vec()), (s("refs/heads/main"), vec![1, 2, 3])];
    assert!(matches!(resolve_head(&short), Err(HeadError::BadBranchTarget)));
}
