use folder_tree::collect::TreeCollector;
use folder_tree::entry::Entry;
use folder_tree::ignore::{get_default_ignore_list, is_ignored};
use folder_tree::render::{last_at_depth, render_lines};
use folder_tree::tree::{build_tree, root_label, TreeError};

fn names(list: &[&str]) -> Vec<String> {
    list.iter().map(|s| s.to_string()).collect()
}

fn collect(ignore: &[&str], walk: &[(usize, &str, bool)]) -> (Vec<bool>, Vec<Entry>) {
    let mut c = TreeCollector::new(names(ignore));
    let mut kept = Vec::new();
    for (depth, name, is_dir) in walk {
        kept.push(c.offer(Entry::new(*depth, name, *is_dir)));
    }
    (kept, c.into_entries())
}

#[test]
fn default_ignore_list_is_sorted_and_complete() {
    let list = get_default_ignore_list();
    assert_eq!(
        list,
        names(&[
            ".DS_Store",
            ".git",
            ".vscode",
            "__pycache__",
            "build",
            "dist",
            "node_modules",
            "target",
            "venv"
        ])
    );
    let mut sorted = list.clone();
    sorted.sort();
    assert_eq!(list, sorted);
}

#[test]
fn is_ignored_matches_exact_names_only() {
    let ignore = names(&["node_modules", "dist"]);
    assert!(is_ignored(&"dist".to_string(), &ignore));
    assert!(is_ignored(&"node_modules".to_string(), &ignore));
    assert!(!is_ignored(&"Dist".to_string(), &ignore));
    assert!(!is_ignored(&"dist2".to_string(), &ignore));
    assert!(!is_ignored(&"dist".to_string(), &Vec::new()));
}

#[test]
fn two_entries_at_the_root() {
    let entries = vec![Entry::new(1, "a", true), Entry::new(1, "b.txt", false)];
    assert_eq!(
        render_lines("project", &entries),
        "🗂️ project/\n├── 📁 a\n└── 📄 b.txt\n"
    );
}

#[test]
fn empty_directory_renders_only_the_header() {
    assert_eq!(render_lines("project", &Vec::new()), "🗂️ project/\n");
    assert_eq!(
        build_tree("/home/user/project", true, &Vec::new()).unwrap(),
        "🗂️ project/\n"
    );
}

#[test]
fn nested_prefixes_follow_open_levels() {
    let entries = vec![
        Entry::new(1, "a", true),
        Entry::new(2, "x.rs", false),
        Entry::new(2, "y", true),
        Entry::new(3, "z.rs", false),
        Entry::new(1, "b", true),
        Entry::new(2, "c.txt", false),
    ];
    // "Last" is decided per depth over the whole walk: `y` is not the last
    // entry at depth 2, since `c.txt` comes later at that depth.
    let expected = [
        "🗂️ root/\n",
        "├── 📁 a\n",
        "│   ├── 📄 x.rs\n",
        "│   ├── 📁 y\n",
        "│   │   └── 📄 z.rs\n",
        "└── 📁 b\n",
        "    └── 📄 c.txt\n",
    ]
    .concat();
    assert_eq!(render_lines("root", &entries), expected);
}

#[test]
fn last_connector_is_per_depth_across_parents() {
    // Depth 2 is last only at the final depth-2 entry, even under an earlier parent.
    let entries = vec![
        Entry::new(1, "a", true),
        Entry::new(2, "a1", false),
        Entry::new(1, "b", true),
        Entry::new(2, "b1", false),
        Entry::new(1, "c.txt", false),
    ];
    let text = render_lines("r", &entries);
    assert_eq!(
        text,
        "🗂️ r/\n├── 📁 a\n│   ├── 📄 a1\n├── 📁 b\n│   └── 📄 b1\n└── 📄 c.txt\n"
    );
    assert_eq!(text.matches("└── ").count(), 2);
}

#[test]
fn last_at_depth_records_final_positions() {
    let entries = vec![
        Entry::new(1, "a", true),
        Entry::new(2, "a1", false),
        Entry::new(1, "b", false),
    ];
    let m = last_at_depth(&entries);
    assert_eq!(m.len(), 2);
    assert_eq!(m.get(&1), Some(&2));
    assert_eq!(m.get(&2), Some(&1));
}

#[test]
fn markers_follow_entry_kind() {
    let entries = vec![Entry::new(1, "d", true), Entry::new(1, "f", false)];
    let text = render_lines("r", &entries);
    assert!(text.contains("📁 d\n"));
    assert!(text.contains("📄 f\n"));
    assert!(!text.contains("📄 d"));
    assert!(!text.contains("📁 f"));
}

#[test]
fn rendering_twice_is_identical() {
    let entries = vec![
        Entry::new(1, "a", true),
        Entry::new(2, "b", false),
        Entry::new(1, "c", false),
    ];
    assert_eq!(render_lines("p", &entries), render_lines("p", &entries));
}

#[test]
fn ignored_directory_and_contents_are_pruned() {
    let walk = [
        (1, "node_modules", true),
        (2, "left-pad", true),
        (3, "index.js", false),
        (1, "src", true),
        (2, "main.rs", false),
    ];
    let (kept, entries) = collect(&["node_modules"], &walk);
    assert_eq!(kept, vec![false, false, false, true, true]);
    let text = build_tree("/tmp/project", true, &entries).unwrap();
    assert_eq!(text, "🗂️ project/\n└── 📁 src\n    └── 📄 main.rs\n");
    assert!(!text.contains("node_modules"));
}

#[test]
fn pruning_applies_at_every_depth() {
    let walk = [
        (1, "app", true),
        (2, "dist", true),
        (3, "bundle.js", false),
        (2, "index.ts", false),
        (1, "dist", false),
        (1, "z.md", false),
    ];
    let (kept, entries) = collect(&["dist"], &walk);
    assert_eq!(kept, vec![true, false, false, true, false, true]);
    assert_eq!(
        render_lines("p", &entries),
        "🗂️ p/\n├── 📁 app\n│   └── 📄 index.ts\n└── 📄 z.md\n"
    );
}

#[test]
fn collector_keeps_everything_with_empty_ignore_set() {
    let walk = [(1, "a", true), (2, "b", false), (1, "c", false)];
    let (kept, entries) = collect(&[], &walk);
    assert_eq!(kept, vec![true, true, true]);
    assert_eq!(entries.len(), 3);
    assert_eq!(entries[1].name, "b");
    assert_eq!(entries[1].depth, 2);
}

#[test]
fn file_root_is_invalid() {
    let r = build_tree("project/readme.txt", false, &Vec::new());
    match r {
        Err(TreeError::InvalidRoot(p)) => {
            assert_eq!(p, "project/readme.txt");
            assert_eq!(
                TreeError::InvalidRoot(p).message(),
                "Error: Path 'project/readme.txt' is not a valid directory."
            );
        }
        Ok(_) => panic!("a file root must be refused"),
    }
}

#[test]
fn root_label_is_the_base_name() {
    assert_eq!(root_label("/home/user/project"), "project");
    assert_eq!(root_label("project/"), "project");
    assert_eq!(root_label("project"), "project");
    assert_eq!(root_label("/"), "/");
    assert_eq!(root_label("project/.."), "project/..");
}
