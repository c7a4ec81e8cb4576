//! Rendering a tree as text: one row per entry, drawn with box-drawing
//! characters, with each entry's comment aligned in a column after it.
use vstd::prelude::*;

use crate::comments::{descendant_paths, Comments};
use crate::tree::Node;

verus! {

/// How a tree is rendered.
pub struct RenderOptions {
    /// Mark directories and comments with ANSI colour escapes.
    pub color: bool,
}

/// One row of the rendered tree.
pub struct Row {
    /// The row without colour: the drawing before the entry, then its name.
    pub label: Seq<char>,
    /// The row as shown, with colour where it is asked for.
    pub shown: Seq<char>,
    /// The comment shown after the row.
    pub comment: Option<Seq<char>>,
}

/// Columns between the widest row and the comments.
pub const COMMENT_MARGIN: usize = 2;

pub open spec fn dir_style() -> Seq<char> {
    seq!['\x1b', '[', '1', ';', '3', '4', 'm']
}

pub open spec fn comment_style() -> Seq<char> {
    seq!['\x1b', '[', '2', 'm']
}

pub open spec fn reset_style() -> Seq<char> {
    seq!['\x1b', '[', '0', 'm']
}

/// The name under which an entry is shown: directories end in `/`.
pub open spec fn display_name_of(n: Node) -> Seq<char> {
    if n.is_dir {
        n.name@ + seq!['/']
    } else {
        n.name@
    }
}

/// The name as shown, in colour for a directory where colour is asked for.
pub open spec fn painted_name(n: Node, color: bool) -> Seq<char> {
    if color && n.is_dir {
        dir_style() + display_name_of(n) + reset_style()
    } else {
        display_name_of(n)
    }
}

/// The comment shown for the entry at `rel`: the recorded one, unless it is
/// empty.
pub open spec fn comment_for(comments: Map<Seq<char>, Seq<char>>, rel: Seq<char>) -> Option<Seq<char>> {
    if comments.contains_key(rel) && comments[rel].len() > 0 {
        Some(comments[rel])
    } else {
        None
    }
}

pub open spec fn row_for(
    n: Node,
    prefix: Seq<char>,
    comments: Map<Seq<char>, Seq<char>>,
    color: bool,
) -> Row {
    Row {
        label: prefix + display_name_of(n),
        shown: prefix + painted_name(n, color),
        comment: comment_for(comments, n.rel_path@),
    }
}

/// The drawing before an entry: a branch, or a corner for the last entry.
pub open spec fn connector(last: bool) -> Seq<char> {
    if last {
        seq!['└', '─', '─', ' ']
    } else {
        seq!['├', '─', '─', ' ']
    }
}

/// What the drawing continues with below an entry: a bar while more
/// entries of its directory follow, blank after the last one.
pub open spec fn indent(last: bool) -> Seq<char> {
    if last {
        seq![' ', ' ', ' ', ' ']
    } else {
        seq!['│', ' ', ' ', ' ']
    }
}

/// The rows for the entries `kids[i..]` and everything below them, each
/// drawn after `prefix`.
pub open spec fn child_rows(
    kids: Seq<Node>,
    i: int,
    prefix: Seq<char>,
    comments: Map<Seq<char>, Seq<char>>,
    color: bool,
) -> Seq<Row>
    decreases kids, kids.len() - i,
{
    if i < 0 || i >= kids.len() {
        Seq::empty()
    } else {
        let last = i == kids.len() - 1;
        seq![row_for(kids[i], prefix + connector(last), comments, color)] + child_rows(
            kids[i].children@,
            0,
            prefix + indent(last),
            comments,
            color,
        ) + child_rows(kids, i + 1, prefix, comments, color)
    }
}

/// The rows of the whole tree: the root, then its entries depth first.
pub open spec fn tree_rows(root: Node, comments: Map<Seq<char>, Seq<char>>, color: bool) -> Seq<Row> {
    seq![row_for(root, Seq::empty(), comments, color)] + child_rows(
        root.children@,
        0,
        Seq::empty(),
        comments,
        color,
    )
}

/// The width, in characters, of the widest row without colour.
pub open spec fn max_width(rows: Seq<Row>) -> nat
    decreases rows.len(),
{
    if rows.len() == 0 {
        0
    } else {
        let w = max_width(rows.drop_last());
        if rows.last().label.len() > w {
            rows.last().label.len()
        } else {
            w
        }
    }
}

pub open spec fn spaces(n: nat) -> Seq<char> {
    Seq::new(n, |i: int| ' ')
}

/// A row as a line of text, its comment starting `COMMENT_MARGIN` columns
/// after `width`.
pub open spec fn row_text(r: Row, width: nat, color: bool) -> Seq<char> {
    match r.comment {
        Some(c) => {
            let pad = if width >= r.label.len() { (width - r.label.len()) as nat } else { 0 };
            let note = seq!['#', ' '] + c;
            r.shown + spaces((pad + COMMENT_MARGIN) as nat) + (if color {
                comment_style() + note + reset_style()
            } else {
                note
            }) + seq!['\n']
        },
        None => r.shown + seq!['\n'],
    }
}

pub open spec fn rows_text(rows: Seq<Row>, width: nat, color: bool) -> Seq<char>
    decreases rows.len(),
{
    if rows.len() == 0 {
        Seq::empty()
    } else {
        rows_text(rows.drop_last(), width, color) + row_text(rows.last(), width, color)
    }
}

/// The text of a rendered tree.
pub open spec fn rendered(root: Node, comments: Map<Seq<char>, Seq<char>>, color: bool) -> Seq<char> {
    let rows = tree_rows(root, comments, color);
    rows_text(rows, max_width(rows), color)
}

/// A row as held while rendering.
struct Line {
    label: String,
    shown: String,
    comment: Option<String>,
}

spec fn line_view(l: Line) -> Row {
    Row {
        label: l.label@,
        shown: l.shown@,
        comment: match l.comment {
            Some(c) => Some(c@),
            None => None,
        },
    }
}

spec fn lines_view(s: Seq<Line>) -> Seq<Row> {
    s.map_values(|l: Line| line_view(l))
}

/// The name under which an entry is shown: directories end in `/`.
pub fn display_name(node: &Node) -> (r: String)
    ensures
        r@ == display_name_of(*node),
{
    if node.is_dir {
        let r = node.name.clone().concat("/");
        proof {
            reveal_strlit("/");
        }
        r
    } else {
        node.name.clone()
    }
}

fn painted(node: &Node, color: bool) -> (r: String)
    ensures
        r@ == painted_name(*node, color),
{
    let name = display_name(node);
    if color && node.is_dir {
        let r = String::from_str("\x1b[1;34m").concat(name.as_str()).concat("\x1b[0m");
        proof {
            reveal_strlit("\x1b[1;34m");
            reveal_strlit("\x1b[0m");
        }
        r
    } else {
        name
    }
}

fn comment_of(comments: &Comments, rel_path: &str) -> (r: Option<String>)
    ensures
        (match r {
            Some(c) => Some(c@),
            None => None,
        }) == comment_for(comments@, rel_path@),
{
    match comments.get(rel_path) {
        Some(c) => {
            if c.unicode_len() > 0 {
                Some(String::from_str(c))
            } else {
                None
            }
        },
        None => None,
    }
}

fn line_for(node: &Node, prefix: &str, comments: &Comments, color: bool) -> (l: Line)
    ensures
        line_view(l) == row_for(*node, prefix@, comments@, color),
{
    let label = String::from_str(prefix).concat(display_name(node).as_str());
    let shown = String::from_str(prefix).concat(painted(node, color).as_str());
    let comment = comment_of(comments, node.rel_path.as_str());
    Line { label, shown, comment }
}

/// The drawing before the entries of a directory, given for each directory
/// above them whether it was the last entry of its own directory.
pub open spec fn prefix_for(parent_last: Seq<bool>) -> Seq<char>
    decreases parent_last.len(),
{
    if parent_last.len() == 0 {
        Seq::empty()
    } else {
        prefix_for(parent_last.drop_last()) + indent(parent_last.last())
    }
}

fn prefix_string(parent_last: &Vec<bool>) -> (r: String)
    ensures
        r@ == prefix_for(parent_last@),
{
    let mut r = String::new();
    let mut i: usize = 0;
    proof {
        reveal_strlit("    ");
        reveal_strlit("│   ");
    }
    assert(parent_last@.subrange(0, 0) =~= Seq::<bool>::empty());
    while i < parent_last.len()
        invariant
            i <= parent_last.len(),
            r@ == prefix_for(parent_last@.subrange(0, i as int)),
            "    "@ == indent(true),
            "│   "@ == indent(false),
        decreases parent_last.len() - i,
    {
        if parent_last[i] {
            r.append("    ");
        } else {
            r.append("│   ");
        }
        proof {
            assert(parent_last@.subrange(0, i + 1).drop_last() =~= parent_last@.subrange(0, i as int));
            assert(parent_last@.subrange(0, i + 1).last() == parent_last@[i as int]);
        }
        i += 1;
    }
    assert(parent_last@.subrange(0, parent_last.len() as int) =~= parent_last@);
    r
}

/// Appends the rows for `kids` and everything below them, each drawn after
/// the prefix that `parent_last` gives; `parent_last` is as it was when done.
fn collect_lines(
    kids: &Vec<Node>,
    parent_last: &mut Vec<bool>,
    comments: &Comments,
    color: bool,
    out: &mut Vec<Line>,
)
    ensures
        final(parent_last)@ == old(parent_last)@,
        lines_view(final(out)@) == lines_view(old(out)@) + child_rows(
            kids@,
            0,
            prefix_for(old(parent_last)@),
            comments@,
            color,
        ),
    decreases kids@,
{
    let ghost start = lines_view(out@);
    let ghost pl = parent_last@;
    let ghost prefix = prefix_for(pl);
    let mut i: usize = 0;
    while i < kids.len()
        invariant
            i <= kids.len(),
            parent_last@ == pl,
            prefix == prefix_for(pl),
            start + child_rows(kids@, 0, prefix, comments@, color) == lines_view(out@)
                + child_rows(kids@, i as int, prefix, comments@, color),
        decreases kids.len() - i,
    {
        let child = &kids[i];
        let last = i == kids.len() - 1;
        let branch = if last {
            "└── "
        } else {
            "├── "
        };
        proof {
            reveal_strlit("└── ");
            reveal_strlit("├── ");
            assert(branch@ == connector(last));
        }
        let ghost before = lines_view(out@);
        let ghost old_out = out@;
        let row_prefix = prefix_string(parent_last).concat(branch);
        let line = line_for(child, row_prefix.as_str(), comments, color);
        out.push(line);
        proof {
            assert(out@ == old_out.push(line));
            assert(lines_view(out@)[old_out.len() as int] == line_view(line));
            assert forall|j: int| 0 <= j < old_out.len() implies lines_view(out@)[j] == #[trigger] before[j] by {
                assert(out@[j] == old_out[j]);
            }
            assert(lines_view(out@) =~= before + seq![row_for(*child, prefix + connector(last), comments@, color)]);
            assert(decreases_to!(kids@ => child.children@));
        }
        parent_last.push(last);
        proof {
            assert(parent_last@.drop_last() =~= pl);
            assert(prefix_for(parent_last@) == prefix + indent(last));
        }
        collect_lines(&child.children, parent_last, comments, color, out);
        parent_last.pop();
        proof {
            assert(parent_last@ =~= pl);
            let r = row_for(kids@[i as int], prefix + connector(last), comments@, color);
            let sub = child_rows(kids@[i as int].children@, 0, prefix + indent(last), comments@, color);
            let rest = child_rows(kids@, i + 1, prefix, comments@, color);
            assert(child_rows(kids@, i as int, prefix, comments@, color) == seq![r] + sub + rest);
            assert(lines_view(out@) == before + seq![r] + sub);
            assert(before + (seq![r] + sub + rest) =~= (before + seq![r] + sub) + rest);
        }
        i += 1;
    }
    assert(child_rows(kids@, i as int, prefix, comments@, color) =~= Seq::<Row>::empty());
    assert(lines_view(out@) + Seq::<Row>::empty() =~= lines_view(out@));
}

fn spaces_string(n: usize) -> (r: String)
    ensures
        r@ == spaces(n as nat),
{
    let mut r = String::new();
    let mut i: usize = 0;
    proof {
        reveal_strlit(" ");
    }
    while i < n
        invariant
            i <= n,
            r@ == spaces(i as nat),
            " "@ == seq![' '],
        decreases n - i,
    {
        r.append(" ");
        i += 1;
        assert(r@ =~= spaces(i as nat));
    }
    r
}

/// Renders the tree under `node` with the comments recorded for its
/// entries: one line per entry, comments aligned two columns after the
/// widest entry; empty comments are not shown.
pub fn render(node: &Node, comments: &Comments, opts: &RenderOptions) -> (out: String)
    ensures
        out@ == rendered(*node, comments@, opts.color),
{
    let color = opts.color;
    let mut lines: Vec<Line> = Vec::new();
    let empty = String::new();
    lines.push(line_for(node, empty.as_str(), comments, color));
    let mut parent_last: Vec<bool> = Vec::new();
    collect_lines(&node.children, &mut parent_last, comments, color, &mut lines);
    assert(prefix_for(Seq::<bool>::empty()) =~= Seq::<char>::empty());
    let ghost rows = tree_rows(*node, comments@, color);
    assert(lines_view(lines@) =~= rows);

    let mut width: usize = 0;
    let mut i: usize = 0;
    while i < lines.len()
        invariant
            i <= lines.len(),
            lines_view(lines@) == rows,
            width == max_width(rows.subrange(0, i as int)),
        decreases lines.len() - i,
    {
        let w = lines[i].label.as_str().unicode_len();
        proof {
            assert(rows.subrange(0, i + 1).drop_last() =~= rows.subrange(0, i as int));
            assert(rows[i as int].label == lines@[i as int].label@);
        }
        if w > width {
            width = w;
        }
        i += 1;
    }
    assert(rows.subrange(0, lines.len() as int) =~= rows);

    let mut out = String::new();
    let mut i: usize = 0;
    proof {
        reveal_strlit("\n");
        reveal_strlit("# ");
        reveal_strlit("  ");
        reveal_strlit("\x1b[2m");
        reveal_strlit("\x1b[0m");
    }
    assert(rows.subrange(0, 0) =~= Seq::<Row>::empty());
    while i < lines.len()
        invariant
            i <= lines.len(),
            lines_view(lines@) == rows,
            width == max_width(rows),
            out@ == rows_text(rows.subrange(0, i as int), width as nat, color),
            "\n"@ == seq!['\n'],
            "# "@ == seq!['#', ' '],
            "  "@ == seq![' ', ' '],
            "\x1b[2m"@ == comment_style(),
            "\x1b[0m"@ == reset_style(),
        decreases lines.len() - i,
    {
        let line = &lines[i];
        let ghost r = rows[i as int];
        assert(r == line_view(*line));
        let ghost before = out@;
        out.append(line.shown.as_str());
        match &line.comment {
            Some(c) => {
                let len = line.label.as_str().unicode_len();
                let pad = if width >= len {
                    width - len
                } else {
                    0
                };
                out.append(spaces_string(pad).as_str());
                out.append("  ");
                if color {
                    out.append("\x1b[2m");
                }
                out.append("# ");
                out.append(c.as_str());
                if color {
                    out.append("\x1b[0m");
                }
                out.append("\n");
                proof {
                    let note = seq!['#', ' '] + c@;
                    let painted_note = if color {
                        comment_style() + note + reset_style()
                    } else {
                        note
                    };
                    assert(spaces(pad as nat) + seq![' ', ' '] =~= spaces((pad + COMMENT_MARGIN) as nat));
                    assert(out@ =~= before + (r.shown + spaces((pad + COMMENT_MARGIN) as nat) + painted_note + seq!['\n']));
                }
            },
            None => {
                out.append("\n");
            },
        }
        proof {
            assert(rows.subrange(0, i + 1).drop_last() =~= rows.subrange(0, i as int));
            assert(rows.subrange(0, i + 1).last() == r);
            assert(out@ =~= before + row_text(r, width as nat, color));
        }
        i += 1;
    }
    assert(rows.subrange(0, lines.len() as int) =~= rows);
    out
}

/// Without colour, the rows drawn for the entries of a directory below any
/// prefix are shown exactly as their uncoloured labels.
pub proof fn lemma_plain_child_rows(
    kids: Seq<Node>,
    i: int,
    prefix: Seq<char>,
    comments: Map<Seq<char>, Seq<char>>,
)
    ensures
        forall|j: int|
            0 <= j < child_rows(kids, i, prefix, comments, false).len() ==> (#[trigger] child_rows(
                kids,
                i,
                prefix,
                comments,
                false,
            )[j]).shown == child_rows(kids, i, prefix, comments, false)[j].label,
    decreases kids, kids.len() - i,
{
    if 0 <= i < kids.len() {
        let last = i == kids.len() - 1;
        lemma_plain_child_rows(kids[i].children@, 0, prefix + indent(last), comments);
        lemma_plain_child_rows(kids, i + 1, prefix, comments);
    }
}

/// Without colour every row is shown exactly as its uncoloured label.
pub proof fn lemma_plain_rows_uncoloured(root: Node, comments: Map<Seq<char>, Seq<char>>)
    ensures
        forall|j: int|
            0 <= j < tree_rows(root, comments, false).len() ==> (#[trigger] tree_rows(
                root,
                comments,
                false,
            )[j]).shown == tree_rows(root, comments, false)[j].label,
{
    lemma_plain_child_rows(root.children@, 0, Seq::empty(), comments);
    let rows = tree_rows(root, comments, false);
    let sub = child_rows(root.children@, 0, Seq::empty(), comments, false);
    assert forall|j: int| 0 <= j < rows.len() implies (#[trigger] rows[j]).shown == rows[j].label by {
        if j > 0 {
            assert(rows[j] == sub[j - 1]);
        }
    }
}

proof fn lemma_child_rows_follow_entries(
    kids: Seq<Node>,
    i: int,
    prefix: Seq<char>,
    comments: Map<Seq<char>, Seq<char>>,
    color: bool,
)
    ensures
        child_rows(kids, i, prefix, comments, color).len() == descendant_paths(kids, i).len(),
        forall|j: int|
            0 <= j < descendant_paths(kids, i).len() ==> (#[trigger] child_rows(
                kids,
                i,
                prefix,
                comments,
                color,
            )[j]).comment == comment_for(comments, descendant_paths(kids, i)[j]),
    decreases kids, kids.len() - i,
{
    if 0 <= i < kids.len() {
        let last = i == kids.len() - 1;
        let p2 = prefix + indent(last);
        lemma_child_rows_follow_entries(kids[i].children@, 0, p2, comments, color);
        lemma_child_rows_follow_entries(kids, i + 1, prefix, comments, color);
        let rows = child_rows(kids, i, prefix, comments, color);
        let paths = descendant_paths(kids, i);
        let r0 = row_for(kids[i], prefix + connector(last), comments, color);
        let rs = child_rows(kids[i].children@, 0, p2, comments, color);
        let rr = child_rows(kids, i + 1, prefix, comments, color);
        let ps = descendant_paths(kids[i].children@, 0);
        let pr = descendant_paths(kids, i + 1);
        assert(rows == seq![r0] + rs + rr);
        assert(paths == seq![kids[i].rel_path@] + ps + pr);
        assert forall|j: int| 0 <= j < paths.len() implies (#[trigger] rows[j]).comment == comment_for(
            comments,
            paths[j],
        ) by {
            if j == 0 {
            } else if j < 1 + rs.len() {
                assert(rows[j] == rs[j - 1]);
                assert(paths[j] == ps[j - 1]);
            } else {
                assert(rows[j] == rr[j - 1 - rs.len()]);
                assert(paths[j] == pr[j - 1 - ps.len()]);
            }
        }
    }
}

/// The rendered rows follow the entries of the tree: the root first, then
/// one row for every entry below it, depth first, each showing the comment
/// recorded for that entry's path (unless it is empty).
pub proof fn lemma_rows_follow_entries(root: Node, comments: Map<Seq<char>, Seq<char>>, color: bool)
    ensures
        tree_rows(root, comments, color).len() == 1 + descendant_paths(root.children@, 0).len(),
        tree_rows(root, comments, color)[0].comment == comment_for(comments, root.rel_path@),
        forall|j: int|
            0 <= j < descendant_paths(root.children@, 0).len() ==> tree_rows(root, comments, color)[j
                + 1].comment == comment_for(comments, #[trigger] descendant_paths(root.children@, 0)[j]),
{
    lemma_child_rows_follow_entries(root.children@, 0, Seq::empty(), comments, color);
    let rows = tree_rows(root, comments, color);
    let sub = child_rows(root.children@, 0, Seq::empty(), comments, color);
    assert forall|j: int| 0 <= j < descendant_paths(root.children@, 0).len() implies rows[j + 1].comment
        == comment_for(comments, #[trigger] descendant_paths(root.children@, 0)[j]) by {
        assert(rows[j + 1] == sub[j]);
    }
}

proof fn lemma_max_width_bounds(rows: Seq<Row>)
    ensures
        forall|j: int| 0 <= j < rows.len() ==> (#[trigger] rows[j]).label.len() <= max_width(rows),
    decreases rows.len(),
{
    if rows.len() > 0 {
        lemma_max_width_bounds(rows.drop_last());
        assert forall|j: int| 0 <= j < rows.len() implies (#[trigger] rows[j]).label.len() <= max_width(
            rows,
        ) by {
            if j < rows.len() - 1 {
                assert(rows[j] == rows.drop_last()[j]);
            }
        }
    }
}

/// Comments line up: in the uncoloured text of every row that has a
/// comment, the row's label is followed by spaces up to column
/// `max_width(rows) + COMMENT_MARGIN`, where the comment's `#` stands.
pub proof fn lemma_comments_aligned(rows: Seq<Row>)
    requires
        forall|j: int| 0 <= j < rows.len() ==> (#[trigger] rows[j]).shown == rows[j].label,
    ensures
        forall|j: int|
            0 <= j < rows.len() && (#[trigger] rows[j]).comment is Some ==> {
                let w = max_width(rows) + COMMENT_MARGIN;
                let t = row_text(rows[j], max_width(rows), false);
                &&& t.subrange(0, w) == rows[j].label + spaces((w - rows[j].label.len()) as nat)
                &&& t[w] == '#'
            },
{
    lemma_max_width_bounds(rows);
    let mw = max_width(rows);
    assert forall|j: int| 0 <= j < rows.len() && (#[trigger] rows[j]).comment is Some implies {
        let w = mw + COMMENT_MARGIN;
        let t = row_text(rows[j], mw, false);
        &&& t.subrange(0, w) == rows[j].label + spaces((w - rows[j].label.len()) as nat)
        &&& t[w] == '#'
    } by {
        let r = rows[j];
        let w = mw + COMMENT_MARGIN;
        let pad = (mw - r.label.len()) as nat;
        let c = r.comment->0;
        let t = row_text(r, mw, false);
        let head = r.label + spaces((pad + COMMENT_MARGIN) as nat);
        assert(t == head + (seq!['#', ' '] + c) + seq!['\n']);
        assert(head.len() == w);
        assert(t.subrange(0, w) =~= head);
        assert(spaces((pad + COMMENT_MARGIN) as nat) =~= spaces((w - r.label.len()) as nat));
        assert(t[w] == '#');
    }
}

/// `s` holds no escape character.
pub open spec fn free_of_escape(s: Seq<char>) -> bool {
    forall|i: int| 0 <= i < s.len() ==> s[i] != '\x1b'
}

/// No name in the tree under `n` holds an escape character.
pub open spec fn names_free_of_escape(n: Node) -> bool
    decreases n,
{
    &&& free_of_escape(n.name@)
    &&& forall|j: int| 0 <= j < n.children@.len() ==> names_free_of_escape(#[trigger] n.children@[j])
}

proof fn lemma_concat_free(a: Seq<char>, b: Seq<char>)
    requires
        free_of_escape(a),
        free_of_escape(b),
    ensures
        free_of_escape(a + b),
{
    assert forall|i: int| 0 <= i < (a + b).len() implies (a + b)[i] != '\x1b' by {
        if i < a.len() {
            assert((a + b)[i] == a[i]);
        } else {
            assert((a + b)[i] == b[i - a.len()]);
        }
    }
}

proof fn lemma_plain_child_rows_free(
    kids: Seq<Node>,
    i: int,
    prefix: Seq<char>,
    comments: Map<Seq<char>, Seq<char>>,
)
    requires
        free_of_escape(prefix),
        forall|j: int| 0 <= j < kids.len() ==> names_free_of_escape(#[trigger] kids[j]),
        forall|k: Seq<char>| #[trigger] comments.contains_key(k) ==> free_of_escape(comments[k]),
    ensures
        forall|j: int|
            0 <= j < child_rows(kids, i, prefix, comments, false).len() ==> {
                let r = #[trigger] child_rows(kids, i, prefix, comments, false)[j];
                &&& free_of_escape(r.shown)
                &&& r.comment matches Some(c) ==> free_of_escape(c)
            },
    decreases kids, kids.len() - i,
{
    if 0 <= i < kids.len() {
        let last = i == kids.len() - 1;
        let n = kids[i];
        assert(names_free_of_escape(n));
        assert(free_of_escape(connector(last)));
        assert(free_of_escape(indent(last)));
        assert(free_of_escape(seq!['/']));
        lemma_concat_free(prefix, connector(last));
        lemma_concat_free(prefix, indent(last));
        lemma_concat_free(n.name@, seq!['/']);
        lemma_concat_free(prefix + connector(last), display_name_of(n));
        assert forall|j: int| 0 <= j < n.children@.len() implies names_free_of_escape(
            #[trigger] n.children@[j],
        ) by {}
        lemma_plain_child_rows_free(n.children@, 0, prefix + indent(last), comments);
        lemma_plain_child_rows_free(kids, i + 1, prefix, comments);
        let rows = child_rows(kids, i, prefix, comments, false);
        let r0 = row_for(n, prefix + connector(last), comments, false);
        let rs = child_rows(n.children@, 0, prefix + indent(last), comments, false);
        let rr = child_rows(kids, i + 1, prefix, comments, false);
        assert(rows == seq![r0] + rs + rr);
        assert forall|j: int| 0 <= j < rows.len() implies {
            let r = #[trigger] rows[j];
            &&& free_of_escape(r.shown)
            &&& r.comment matches Some(c) ==> free_of_escape(c)
        } by {
            if j == 0 {
            } else if j < 1 + rs.len() {
                assert(rows[j] == rs[j - 1]);
            } else {
                assert(rows[j] == rr[j - 1 - rs.len()]);
            }
        }
    }
}

proof fn lemma_rows_text_free(rows: Seq<Row>, width: nat)
    requires
        forall|j: int|
            0 <= j < rows.len() ==> {
                let r = #[trigger] rows[j];
                &&& free_of_escape(r.shown)
                &&& r.comment matches Some(c) ==> free_of_escape(c)
            },
    ensures
        free_of_escape(rows_text(rows, width, false)),
    decreases rows.len(),
{
    if rows.len() > 0 {
        let r = rows.last();
        assert(rows[rows.len() - 1] == r);
        lemma_rows_text_free(rows.drop_last(), width);
        let t = row_text(r, width, false);
        match r.comment {
            Some(c) => {
                let pad = if width >= r.label.len() { (width - r.label.len()) as nat } else { 0 };
                let sp = spaces((pad + COMMENT_MARGIN) as nat);
                assert(free_of_escape(sp));
                assert(free_of_escape(seq!['#', ' ']));
                assert(free_of_escape(seq!['\n']));
                lemma_concat_free(r.shown, sp);
                lemma_concat_free(seq!['#', ' '], c);
                lemma_concat_free(r.shown + sp, seq!['#', ' '] + c);
                lemma_concat_free(r.shown + sp + (seq!['#', ' '] + c), seq!['\n']);
            },
            None => {
                assert(free_of_escape(seq!['\n']));
                lemma_concat_free(r.shown, seq!['\n']);
            },
        }
        lemma_concat_free(rows_text(rows.drop_last(), width, false), t);
    }
}

/// Without colour the rendered text holds no escape character, as long as
/// no name in the tree and no comment holds one.
pub proof fn lemma_plain_text_has_no_escape(root: Node, comments: Map<Seq<char>, Seq<char>>)
    requires
        names_free_of_escape(root),
        forall|k: Seq<char>| #[trigger] comments.contains_key(k) ==> free_of_escape(comments[k]),
    ensures
        free_of_escape(rendered(root, comments, false)),
{
    let rows = tree_rows(root, comments, false);
    let sub = child_rows(root.children@, 0, Seq::empty(), comments, false);
    assert forall|j: int| 0 <= j < root.children@.len() implies names_free_of_escape(
        #[trigger] root.children@[j],
    ) by {}
    assert(free_of_escape(Seq::<char>::empty()));
    lemma_plain_child_rows_free(root.children@, 0, Seq::empty(), comments);
    assert(free_of_escape(seq!['/']));
    lemma_concat_free(root.name@, seq!['/']);
    lemma_concat_free(Seq::empty(), display_name_of(root));
    assert forall|j: int| 0 <= j < rows.len() implies {
        let r = #[trigger] rows[j];
        &&& free_of_escape(r.shown)
        &&& r.comment matches Some(c) ==> free_of_escape(c)
    } by {
        if j > 0 {
            assert(rows[j] == sub[j - 1]);
        }
    }
    lemma_rows_text_free(rows, max_width(rows));
}

/// The rows as lines of text: each label followed by a line break.
pub open spec fn label_lines(rows: Seq<Row>) -> Seq<char>
    decreases rows.len(),
{
    if rows.len() == 0 {
        Seq::empty()
    } else {
        label_lines(rows.drop_last()) + rows.last().label + seq!['\n']
    }
}

proof fn lemma_uncommented_text(rows: Seq<Row>, width: nat)
    requires
        forall|j: int|
            0 <= j < rows.len() ==> (#[trigger] rows[j]).shown == rows[j].label && rows[j].comment
                is None,
    ensures
        rows_text(rows, width, false) == label_lines(rows),
    decreases rows.len(),
{
    if rows.len() > 0 {
        assert(rows[rows.len() - 1] == rows.last());
        assert forall|j: int| 0 <= j < rows.drop_last().len() implies (#[trigger] rows.drop_last()[j]).shown
            == rows.drop_last()[j].label && rows.drop_last()[j].comment is None by {
            assert(rows.drop_last()[j] == rows[j]);
        }
        lemma_uncommented_text(rows.drop_last(), width);
    }
}

proof fn lemma_child_rows_start_with(
    kids: Seq<Node>,
    i: int,
    prefix: Seq<char>,
    comments: Map<Seq<char>, Seq<char>>,
    color: bool,
)
    ensures
        forall|j: int|
            0 <= j < child_rows(kids, i, prefix, comments, color).len() ==> (#[trigger] child_rows(
                kids,
                i,
                prefix,
                comments,
                color,
            )[j]).label.len() >= prefix.len() && child_rows(kids, i, prefix, comments, color)[j].label.subrange(
                0,
                prefix.len() as int,
            ) == prefix,
    decreases kids, kids.len() - i,
{
    if 0 <= i < kids.len() {
        let last = i == kids.len() - 1;
        let p2 = prefix + indent(last);
        lemma_child_rows_start_with(kids[i].children@, 0, p2, comments, color);
        lemma_child_rows_start_with(kids, i + 1, prefix, comments, color);
        let rows = child_rows(kids, i, prefix, comments, color);
        let r0 = row_for(kids[i], prefix + connector(last), comments, color);
        let rs = child_rows(kids[i].children@, 0, p2, comments, color);
        let rr = child_rows(kids, i + 1, prefix, comments, color);
        assert(rows == seq![r0] + rs + rr);
        assert forall|j: int| 0 <= j < rows.len() implies (#[trigger] rows[j]).label.len() >= prefix.len()
            && rows[j].label.subrange(0, prefix.len() as int) == prefix by {
            if j == 0 {
                assert(r0.label.subrange(0, prefix.len() as int) =~= prefix);
            } else if j < 1 + rs.len() {
                let lab = rs[j - 1].label;
                assert(rows[j] == rs[j - 1]);
                assert(lab.subrange(0, p2.len() as int) == p2);
                assert(lab.subrange(0, prefix.len() as int) =~= p2.subrange(0, prefix.len() as int));
                assert(p2.subrange(0, prefix.len() as int) =~= prefix);
            } else {
                assert(rows[j] == rr[j - 1 - rs.len()]);
            }
        }
    }
}

/// The lines drawn for the entries of a directory, below the directories
/// that `parent_last` describes, without colour and without comments: one
/// line per entry below, depth first, each its label and a line break, and
/// each label begins with the prefix that `parent_last` gives.
pub proof fn lemma_children_lines(kids: Seq<Node>, parent_last: Seq<bool>, width: nat)
    ensures
        ({
            let rows = child_rows(kids, 0, prefix_for(parent_last), Map::empty(), false);
            &&& rows.len() == descendant_paths(kids, 0).len()
            &&& rows_text(rows, width, false) == label_lines(rows)
            &&& forall|j: int|
                0 <= j < rows.len() ==> (#[trigger] rows[j]).label.subrange(
                    0,
                    prefix_for(parent_last).len() as int,
                ) == prefix_for(parent_last)
        }),
{
    let prefix = prefix_for(parent_last);
    let comments = Map::<Seq<char>, Seq<char>>::empty();
    let rows = child_rows(kids, 0, prefix, comments, false);
    lemma_plain_child_rows(kids, 0, prefix, comments);
    lemma_child_rows_follow_entries(kids, 0, prefix, comments, false);
    lemma_child_rows_start_with(kids, 0, prefix, comments, false);
    assert forall|j: int| 0 <= j < rows.len() implies (#[trigger] rows[j]).shown == rows[j].label
        && rows[j].comment is None by {
        assert(rows[j].comment == comment_for(comments, descendant_paths(kids, 0)[j]));
    }
    lemma_uncommented_text(rows, width);
}

/// A row as an uncoloured line of the rendered text, comments starting two
/// columns after `width`: the label, then for a comment enough spaces to
/// reach column `width + 2`, `# ` and the comment, then a line break.
pub open spec fn plain_line(r: Row, width: nat) -> Seq<char> {
    r.label + (match r.comment {
        Some(c) => Seq::new((width + 2 - r.label.len()) as nat, |i: int| ' ') + seq!['#', ' '] + c,
        None => Seq::empty(),
    }) + seq!['\n']
}

proof fn lemma_max_width_attained(rows: Seq<Row>)
    requires
        rows.len() > 0,
    ensures
        exists|k: int| 0 <= k < rows.len() && (#[trigger] rows[k]).label.len() == max_width(rows),
    decreases rows.len(),
{
    if rows.len() == 1 {
        assert(rows.drop_last().len() == 0);
        assert(rows[0] == rows.last());
    } else {
        lemma_max_width_attained(rows.drop_last());
        let k = choose|k: int|
            0 <= k < rows.drop_last().len() && (#[trigger] rows.drop_last()[k]).label.len() == max_width(
                rows.drop_last(),
            );
        assert(rows[k] == rows.drop_last()[k]);
        assert(rows[rows.len() - 1] == rows.last());
    }
}

proof fn lemma_rows_text_lines(rows: Seq<Row>, width: nat)
    requires
        forall|j: int|
            0 <= j < rows.len() ==> (#[trigger] rows[j]).shown == rows[j].label && rows[j].label.len()
                <= width,
    ensures
        rows_text(rows, width, false) == Seq::new(rows.len(), |j: int| plain_line(rows[j], width)).flatten_alt(),
    decreases rows.len(),
{
    let lines = Seq::new(rows.len(), |j: int| plain_line(rows[j], width));
    if rows.len() > 0 {
        let t = rows.drop_last();
        assert forall|j: int| 0 <= j < t.len() implies (#[trigger] t[j]).shown == t[j].label
            && t[j].label.len() <= width by {
            assert(t[j] == rows[j]);
        }
        lemma_rows_text_lines(t, width);
        assert(lines.drop_last() =~= Seq::new(t.len(), |j: int| plain_line(t[j], width)));
        let r = rows.last();
        assert(rows[rows.len() - 1] == r);
        assert(lines.last() == plain_line(r, width));
        match r.comment {
            Some(c) => {
                let pad = (width - r.label.len()) as nat;
                assert(spaces((pad + COMMENT_MARGIN) as nat) =~= Seq::new(
                    (width + 2 - r.label.len()) as nat,
                    |i: int| ' ',
                ));
                assert(row_text(r, width, false) =~= plain_line(r, width));
            },
            None => {
                assert(row_text(r, width, false) =~= plain_line(r, width));
            },
        }
    } else {
        assert(lines.len() == 0);
    }
}

/// The plain rendering is one line per row, in order, each line the row's
/// label and, where the row has a comment, spaces up to a column two past
/// the widest label of all rows (rows without a comment count too), then
/// `# ` and the comment.
pub proof fn lemma_render_lines(root: Node, comments: Map<Seq<char>, Seq<char>>)
    ensures
        ({
            let rows = tree_rows(root, comments, false);
            let w = max_width(rows);
            &&& forall|k: int| 0 <= k < rows.len() ==> (#[trigger] rows[k]).label.len() <= w
            &&& exists|k: int| 0 <= k < rows.len() && (#[trigger] rows[k]).label.len() == w
            &&& rendered(root, comments, false) == Seq::new(
                rows.len(),
                |j: int| plain_line(rows[j], w),
            ).flatten()
        }),
{
    let rows = tree_rows(root, comments, false);
    let w = max_width(rows);
    lemma_max_width_bounds(rows);
    lemma_max_width_attained(rows);
    lemma_plain_rows_uncoloured(root, comments);
    lemma_rows_text_lines(rows, w);
    Seq::new(rows.len(), |j: int| plain_line(rows[j], w)).lemma_flatten_and_flatten_alt_are_equivalent();
}

} // verus!
