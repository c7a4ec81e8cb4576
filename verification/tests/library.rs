use treedoc::{
    build, display_name, entry_shown, frame_output, init_comments, may_write_init, normalize_key, render,
    use_color, Comments, CommentsError, Format, Listing, Node, RenderOptions, WalkOptions,
};

fn node(name: &str, is_dir: bool, rel: &str, children: Vec<Node>) -> Node {
    Node {
        name: name.into(),
        is_dir,
        rel_path: rel.into(),
        children,
    }
}

fn entry(name: &str, is_dir: bool, children: Vec<Listing>) -> Listing {
    Listing {
        name: name.into(),
        is_dir,
        ignored: false,
        children,
    }
}

fn names(n: &Node) -> Vec<&str> {
    n.children.iter().map(|c| c.name.as_str()).collect()
}

#[test]
fn normalize_key_drops_every_trailing_slash() {
    assert_eq!(normalize_key("src//"), "src");
    assert_eq!(normalize_key("a/b/"), "a/b");
    assert_eq!(normalize_key("a/b"), "a/b");
    assert_eq!(normalize_key("/"), "");
    assert_eq!(normalize_key(""), "");
}

#[test]
fn display_name_marks_directories() {
    assert_eq!(display_name(&node("src", true, "src", vec![])), "src/");
    assert_eq!(display_name(&node("a.rs", false, "a.rs", vec![])), "a.rs");
}

#[test]
fn empty_comment_is_not_printed() {
    let tree = node("root", true, "", vec![node("a.txt", false, "a.txt", vec![])]);
    let mut comments = Comments::new();
    comments.set("a.txt", String::new());
    assert_eq!(
        render(&tree, &comments, &RenderOptions { color: false }),
        "root/\n└── a.txt\n"
    );
}

#[test]
fn root_comment_is_aligned_with_the_others() {
    let tree = node("proj", true, "", vec![node("lib.rs", false, "lib.rs", vec![])]);
    let mut comments = Comments::new();
    comments.set("", "top".into());
    comments.set("lib.rs", "code".into());
    assert_eq!(
        render(&tree, &comments, &RenderOptions { color: false }),
        "proj/       # top\n└── lib.rs  # code\n"
    );
}

#[test]
fn colour_marks_directories_and_comments() {
    let tree = node("r", true, "", vec![node("f", false, "f", vec![])]);
    let mut comments = Comments::new();
    comments.set("f", "x".into());
    assert_eq!(
        render(&tree, &comments, &RenderOptions { color: true }),
        "\x1b[1;34mr/\x1b[0m\n└── f  \x1b[2m# x\x1b[0m\n"
    );
}

#[test]
fn plain_render_has_no_escape() {
    let tree = node("r", true, "", vec![node("d", true, "d", vec![])]);
    let out = render(&tree, &Comments::new(), &RenderOptions { color: false });
    assert!(!out.contains('\x1b'));
    assert_eq!(out, "r/\n└── d/\n");
}

#[test]
fn set_replaces_and_get_finds_only_exact_keys() {
    let mut c = Comments::new();
    c.set("b", "one".into());
    c.set("a", "two".into());
    c.set("b/", "three".into());
    assert_eq!(c.get("b"), Some("three"));
    assert_eq!(c.get("a"), Some("two"));
    assert_eq!(c.get("b/"), None);
    assert_eq!(c.get("c"), None);
    let keys: Vec<String> = c.entries().into_iter().map(|e| e.0).collect();
    assert_eq!(keys, vec!["a".to_string(), "b".to_string()]);
}

#[test]
fn entries_come_in_code_point_order() {
    let mut c = Comments::new();
    c.set("é", "".into());
    c.set("z", "".into());
    c.set("Z", "".into());
    c.set(".x", "".into());
    let keys: Vec<String> = c.entries().into_iter().map(|e| e.0).collect();
    assert_eq!(keys, vec![".x", "Z", "z", "é"]);
}

#[test]
fn add_missing_keeps_existing_comments() {
    let mut c = Comments::new();
    c.set("a", "kept".into());
    c.add_missing("a/");
    c.add_missing("b");
    assert_eq!(c.get("a"), Some("kept"));
    assert_eq!(c.get("b"), Some(""));
}

#[test]
fn from_entries_later_pair_wins_after_normalizing() {
    let c = Comments::from_entries(vec![
        ("src".to_string(), "first".to_string()),
        ("src/".to_string(), "second".to_string()),
    ]);
    assert_eq!(c.get("src"), Some("second"));
    assert_eq!(c.entries().len(), 1);
}

#[test]
fn load_rejects_a_non_mapping() {
    match Comments::load(Some("- a\n- b\n")) {
        Err(CommentsError::Parse(_)) => {}
        other => panic!("expected a parse error, got {:?}", other.map(|c| c.entries())),
    }
}

#[test]
fn to_yaml_writes_the_mapping() {
    let mut c = Comments::new();
    c.set("src", "code".into());
    let text = c.to_yaml().unwrap();
    assert_eq!(text, "src: code\n");
}

#[test]
fn build_gives_relative_paths() {
    let listing = entry(
        "proj",
        true,
        vec![entry("src", true, vec![entry("lib.rs", false, vec![])])],
    );
    let tree = build(&listing, &WalkOptions::default());
    assert_eq!(tree.rel_path, "");
    assert_eq!(tree.children[0].rel_path, "src");
    assert_eq!(tree.children[0].children[0].rel_path, "src/lib.rs");
}

#[test]
fn build_keeps_sidecar_below_the_root() {
    let listing = entry(
        "proj",
        true,
        vec![entry("sub", true, vec![entry(".treedoc.yaml", false, vec![])])],
    );
    let opts = WalkOptions {
        show_hidden: true,
        use_gitignore: true,
        max_depth: None,
    };
    let tree = build(&listing, &opts);
    assert_eq!(names(&tree.children[0]), vec![".treedoc.yaml"]);
}

#[test]
fn build_with_depth_zero_shows_only_the_root() {
    let listing = entry("proj", true, vec![entry("a", false, vec![])]);
    let opts = WalkOptions {
        max_depth: Some(0),
        ..WalkOptions::default()
    };
    assert!(build(&listing, &opts).children.is_empty());
}

#[test]
fn init_comments_skips_the_root() {
    let tree = node("proj", true, "", vec![node("d", true, "d", vec![node("f", false, "d/f", vec![])])]);
    let c = init_comments(&tree);
    let keys: Vec<String> = c.entries().into_iter().map(|e| e.0).collect();
    assert_eq!(keys, vec!["d", "d/f"]);
    assert_eq!(c.get(""), None);
}

#[test]
fn markdown_output_is_fenced() {
    assert_eq!(frame_output("a/\n", Format::Markdown), "```\na/\n```\n");
    assert_eq!(frame_output("a/\n", Format::Plain), "a/\n");
    assert_eq!(frame_output("a/\n", Format::Console), "a/\n");
}

#[test]
fn colour_only_on_a_terminal_console() {
    assert!(use_color(Format::Console, false, true, false));
    assert!(!use_color(Format::Console, true, true, false));
    assert!(!use_color(Format::Console, false, false, false));
    assert!(!use_color(Format::Console, false, true, true));
    assert!(!use_color(Format::Plain, false, true, false));
    assert!(!use_color(Format::Markdown, false, true, false));
}

#[test]
fn init_refuses_to_overwrite_unless_forced() {
    assert!(may_write_init(false, false));
    assert!(!may_write_init(true, false));
    assert!(may_write_init(true, true));
}

#[test]
fn build_keeps_read_order_of_entries_with_same_name_and_kind() {
    let listing = entry(
        "proj",
        true,
        vec![
            entry("x", true, vec![entry("second", false, vec![])]),
            entry("a.txt", false, vec![]),
            entry("x", true, vec![entry("first", false, vec![])]),
        ],
    );
    let tree = build(&listing, &WalkOptions::default());
    assert_eq!(names(&tree), vec!["x", "x", "a.txt"]);
    assert_eq!(names(&tree.children[0]), vec!["second"]);
    assert_eq!(names(&tree.children[1]), vec!["first"]);
}

#[test]
fn files_stay_without_children() {
    let listing = entry(
        "proj",
        true,
        vec![entry("d", true, vec![entry("f", false, vec![])]), entry("g", false, vec![])],
    );
    let tree = build(&listing, &WalkOptions::default());
    assert!(tree.children[0].children[0].children.is_empty());
    assert!(tree.children[1].children.is_empty());
}

#[test]
fn sidecar_reads_the_same_with_or_without_trailing_slash() {
    let a = Comments::load(Some("src/: code\nsrc/main.rs: entry\n")).unwrap();
    let b = Comments::load(Some("src: code\nsrc/main.rs: entry\n")).unwrap();
    assert_eq!(a.entries(), b.entries());
    assert_eq!(a.get("src"), Some("code"));
}

#[test]
fn nested_lines_carry_the_drawing_of_their_parents() {
    let tree = node(
        "r",
        true,
        "",
        vec![
            node("a", true, "a", vec![node("b", true, "a/b", vec![node("c", false, "a/b/c", vec![])])]),
            node("z", false, "z", vec![]),
        ],
    );
    assert_eq!(
        render(&tree, &Comments::new(), &RenderOptions { color: false }),
        "r/\n├── a/\n│   └── b/\n│       └── c\n└── z\n"
    );
}

#[test]
fn a_file_shows_nothing_below_it() {
    let listing = entry("proj", true, vec![entry("f", false, vec![entry("odd", false, vec![])])]);
    let tree = build(&listing, &WalkOptions::default());
    assert_eq!(names(&tree), vec!["f"]);
    assert!(tree.children[0].children.is_empty());
}

#[test]
fn comments_rebuilt_from_their_entries_are_the_same() {
    let mut c = Comments::new();
    c.set("src/", "code".into());
    c.set("a", "".into());
    let again = Comments::from_entries(c.entries());
    assert_eq!(again.entries(), c.entries());
}

#[test]
fn entry_shown_follows_the_options() {
    let opts = WalkOptions::default();
    assert!(!entry_shown(".treedoc.yaml", false, "", 1, &opts));
    assert!(!entry_shown(".git", false, "", 1, &opts));
    assert!(!entry_shown("target", true, "", 1, &opts));
    assert!(entry_shown("src", false, "", 1, &opts));
    let all = WalkOptions { show_hidden: true, use_gitignore: false, max_depth: Some(2) };
    assert!(!entry_shown(".treedoc.yaml", false, "", 1, &all));
    assert!(entry_shown(".treedoc.yaml", false, "sub", 2, &all));
    assert!(entry_shown("target", true, "", 1, &all));
    assert!(!entry_shown("deep", false, "a/b", 3, &all));
}
