use treedoc::{
    build, init_comments, render, Comments, Listing, Node, RenderOptions, WalkOptions,
    SIDECAR_FILENAME,
};

fn dir_at(name: &str, rel: &str, children: Vec<Node>) -> Node {
    Node {
        name: name.into(),
        is_dir: true,
        rel_path: rel.into(),
        children,
    }
}

fn file_at(name: &str, rel: &str) -> Node {
    Node {
        name: name.into(),
        is_dir: false,
        rel_path: rel.into(),
        children: vec![],
    }
}

fn dir(name: &str, children: Vec<Node>) -> Node {
    dir_at(name, name, children)
}

fn file(name: &str) -> Node {
    file_at(name, name)
}

fn render_plain(node: &Node, comments: &Comments) -> String {
    render(node, comments, &RenderOptions { color: false })
}

// A listing of what a directory holds on disk, as the program reads it.
fn on_disk_dir(name: &str, children: Vec<Listing>) -> Listing {
    Listing {
        name: name.into(),
        is_dir: true,
        ignored: false,
        children,
    }
}

fn on_disk_file(name: &str) -> Listing {
    Listing {
        name: name.into(),
        is_dir: false,
        ignored: false,
        children: vec![],
    }
}

fn ignored(mut entry: Listing) -> Listing {
    entry.ignored = true;
    entry
}

fn child_names(node: &Node) -> Vec<&str> {
    node.children.iter().map(|n| n.name.as_str()).collect()
}

fn build_default(listing: &Listing) -> Node {
    build(listing, &WalkOptions::default())
}

#[test]
fn render_single_file() {
    assert_eq!(
        render_plain(&file("README.md"), &Comments::default()),
        "README.md\n"
    );
}

#[test]
fn render_empty_directory() {
    assert_eq!(
        render_plain(&dir("empty", vec![]), &Comments::default()),
        "empty/\n"
    );
}

#[test]
fn render_nested_tree_uses_correct_box_drawing() {
    let tree = dir(
        "root",
        vec![
            dir_at(
                "a",
                "a",
                vec![
                    dir_at("aa", "a/aa", vec![file_at("x.txt", "a/aa/x.txt")]),
                    file_at("y.txt", "a/y.txt"),
                ],
            ),
            dir_at("b", "b", vec![file_at("z.txt", "b/z.txt")]),
            file("root.md"),
        ],
    );
    let expected = "\
root/
├── a/
│   ├── aa/
│   │   └── x.txt
│   └── y.txt
├── b/
│   └── z.txt
└── root.md
";
    assert_eq!(render_plain(&tree, &Comments::default()), expected);
}

#[test]
fn render_last_child_uses_spaces_not_pipe() {
    let tree = dir(
        "root",
        vec![dir("only", vec![file("a.txt"), file("b.txt")])],
    );
    let expected = "\
root/
└── only/
    ├── a.txt
    └── b.txt
";
    assert_eq!(render_plain(&tree, &Comments::default()), expected);
}

#[test]
fn render_aligns_comments() {
    let tree = dir(
        "root",
        vec![
            dir_at("src", "src", vec![file_at("main.rs", "src/main.rs")]),
            file("README.md"),
        ],
    );
    let mut comments = Comments::default();
    comments.set("src", "ソース".into());
    comments.set("src/main.rs", "エントリ".into());
    comments.set("README.md", "ドキュメント".into());

    let expected = "\
root/
├── src/         # ソース
│   └── main.rs  # エントリ
└── README.md    # ドキュメント
";
    assert_eq!(render_plain(&tree, &comments), expected);
}

#[test]
fn render_with_color_emits_ansi_escapes() {
    let tree = dir("root", vec![dir_at("src", "src", vec![file("README.md")])]);
    let out = render(&tree, &Comments::default(), &RenderOptions { color: true });
    assert!(
        out.contains('\x1b'),
        "expected ANSI escape codes in: {out:?}"
    );
}

#[test]
fn comments_load_missing_file_returns_empty() {
    let comments = Comments::load(None).unwrap();
    assert!(comments.get("anything").is_none());
}

#[test]
fn comments_load_parses_yaml_and_normalizes_trailing_slash() {
    let comments = Comments::load(Some("src/: \"ソース\"\nsrc/main.rs: \"エントリ\"\n")).unwrap();
    assert_eq!(comments.get("src"), Some("ソース"));
    assert_eq!(comments.get("src/main.rs"), Some("エントリ"));
}

#[test]
fn comments_load_invalid_yaml_returns_error() {
    let result = Comments::load(Some("this: is: not: valid"));
    assert!(result.is_err());
}

#[test]
fn build_excludes_sidecar_file_at_root() {
    let listing = on_disk_dir(
        "tmp",
        vec![on_disk_file(SIDECAR_FILENAME), on_disk_file("README.md")],
    );
    let node = build_default(&listing);
    assert_eq!(child_names(&node), vec!["README.md"]);
}

#[test]
fn build_sorts_directories_first_then_alphabetical() {
    let listing = on_disk_dir(
        "tmp",
        vec![
            on_disk_file("z.txt"),
            on_disk_file("a.txt"),
            on_disk_dir("b", vec![]),
            on_disk_dir("a", vec![]),
        ],
    );
    let node = build_default(&listing);
    assert_eq!(child_names(&node), vec!["a", "b", "a.txt", "z.txt"]);
}

#[test]
fn build_hides_dotfiles_by_default_and_shows_with_show_hidden() {
    let listing = on_disk_dir(
        "tmp",
        vec![on_disk_file("visible.txt"), on_disk_file(".hidden")],
    );

    let default = build_default(&listing);
    assert_eq!(child_names(&default), vec!["visible.txt"]);

    let all = build(
        &listing,
        &WalkOptions {
            show_hidden: true,
            use_gitignore: false,
            max_depth: None,
        },
    );
    assert_eq!(child_names(&all), vec![".hidden", "visible.txt"]);
}

#[test]
fn build_max_depth_limits_recursion() {
    let listing = on_disk_dir(
        "tmp",
        vec![on_disk_dir(
            "a",
            vec![
                on_disk_dir("b", vec![on_disk_dir("c", vec![on_disk_file("deep.txt")])]),
                on_disk_file("top.txt"),
            ],
        )],
    );

    let depth1 = build(
        &listing,
        &WalkOptions {
            max_depth: Some(1),
            ..WalkOptions::default()
        },
    );
    // Only the root's direct children, no further descent.
    assert_eq!(depth1.children.len(), 1);
    assert_eq!(depth1.children[0].name, "a");
    assert!(depth1.children[0].children.is_empty());

    let depth2 = build(
        &listing,
        &WalkOptions {
            max_depth: Some(2),
            ..WalkOptions::default()
        },
    );
    let a = &depth2.children[0];
    assert_eq!(child_names(a), vec!["b", "top.txt"]);
    let b = &a.children[0];
    assert!(b.children.is_empty());
}

#[test]
fn build_respects_gitignore_by_default_and_can_be_disabled() {
    // `.gitignore` holds "ignored.txt" and "build/".
    let listing = on_disk_dir(
        "tmp",
        vec![
            on_disk_file(".gitignore"),
            on_disk_file("kept.txt"),
            ignored(on_disk_file("ignored.txt")),
            ignored(on_disk_dir("build", vec![ignored(on_disk_file("artifact"))])),
        ],
    );

    let with_ignore = build(
        &listing,
        &WalkOptions {
            show_hidden: true,
            use_gitignore: true,
            max_depth: None,
        },
    );
    assert_eq!(child_names(&with_ignore), vec![".gitignore", "kept.txt"]);

    let without_ignore = build(
        &listing,
        &WalkOptions {
            show_hidden: true,
            use_gitignore: false,
            max_depth: None,
        },
    );
    assert_eq!(
        child_names(&without_ignore),
        vec!["build", ".gitignore", "ignored.txt", "kept.txt"]
    );
}

#[test]
fn comments_save_and_reload_roundtrip() {
    let mut comments = Comments::default();
    comments.set("src", "ソース".into());
    comments.set("src/main.rs", "エントリ".into());
    let text = comments.to_yaml().unwrap();

    let reloaded = Comments::load(Some(&text)).unwrap();
    assert_eq!(reloaded.get("src"), Some("ソース"));
    assert_eq!(reloaded.get("src/main.rs"), Some("エントリ"));
}

#[test]
fn comments_set_normalizes_trailing_slash() {
    let mut comments = Comments::default();
    comments.set("src/", "dir comment".into());
    assert_eq!(comments.get("src"), Some("dir comment"));
}

#[test]
fn init_comments_creates_empty_entry_per_path() {
    let listing = on_disk_dir(
        "tmp",
        vec![
            on_disk_dir("src", vec![on_disk_file("main.rs")]),
            on_disk_file("README.md"),
        ],
    );
    let tree = build_default(&listing);

    let comments = init_comments(&tree);
    let entries = comments.entries();
    let keys: Vec<&str> = entries.iter().map(|e| e.0.as_str()).collect();
    assert_eq!(keys, vec!["README.md", "src", "src/main.rs"]);
    assert!(entries.iter().all(|e| e.1.is_empty()));
}

#[test]
fn init_comments_preserves_existing_values_when_called_twice() {
    let listing = on_disk_dir("tmp", vec![on_disk_file("a.txt")]);
    let tree = build_default(&listing);

    let mut comments = init_comments(&tree);
    comments.set("a.txt", "first".into());
    let saved = comments.to_yaml().unwrap();

    // Re-init should not erase the comment we wrote.
    let existing = Comments::load(Some(&saved)).unwrap();
    let mut merged = existing;
    let fresh = init_comments(&tree);
    for (k, _) in fresh.entries() {
        merged.add_missing(&k);
    }
    assert_eq!(merged.get("a.txt"), Some("first"));
}
