//! The tree that is shown: built from a listing of the file system by
//! dropping what is hidden, ignored or too deep, and ordering each
//! directory's entries (directories first, then by name).
use vstd::prelude::*;

use crate::text::{
    is_dotted, join_rel, join_rel_path, lemma_lex_lt_asymmetric, lemma_lex_lt_irreflexive, lemma_lex_lt_meaning, lemma_lex_lt_transitive, lex_lt,
    starts_with_dot, str_eq, str_less,
};

verus! {

/// The name of the sidecar file that holds the comments.
pub const SIDECAR_FILENAME: &'static str = ".treedoc.yaml";

/// An entry of the shown tree.
pub struct Node {
    pub name: String,
    pub is_dir: bool,
    /// Path relative to the root, with forward slashes; empty for the root.
    pub rel_path: String,
    pub children: Vec<Node>,
}

/// An entry as found on disk, with every entry of a directory in the order
/// in which it was read.
pub struct Listing {
    pub name: String,
    pub is_dir: bool,
    /// Whether `.gitignore` rules exclude the entry.
    pub ignored: bool,
    pub children: Vec<Listing>,
}

/// Which entries of a listing the tree shows.
pub struct WalkOptions {
    /// Show entries whose names begin with a dot.
    pub show_hidden: bool,
    /// Leave out entries that `.gitignore` rules exclude.
    pub use_gitignore: bool,
    /// Show entries at most this many levels below the root.
    pub max_depth: Option<usize>,
}

impl Default for WalkOptions {
    fn default() -> (r: WalkOptions)
        ensures
            r == (WalkOptions { show_hidden: false, use_gitignore: true, max_depth: None }),
    {
        WalkOptions { show_hidden: false, use_gitignore: true, max_depth: None }
    }
}

/// Whether the entry `c`, `depth` levels below the root, inside the
/// directory whose relative path is `parent_rel`, is shown.
pub open spec fn admitted(c: Listing, parent_rel: Seq<char>, depth: nat, opts: WalkOptions) -> bool {
    shown_entry(c.name@, c.ignored, parent_rel, depth, opts)
}

/// Whether an entry called `name`, `depth` levels below the root, inside
/// the directory whose relative path is `parent_rel`, is shown: not the
/// sidecar at the root, not a dotfile unless hidden entries are shown, not
/// ignored when `.gitignore` is honoured, and not below the depth limit.
pub open spec fn shown_entry(
    name: Seq<char>,
    ignored: bool,
    parent_rel: Seq<char>,
    depth: nat,
    opts: WalkOptions,
) -> bool {
    &&& !(parent_rel.len() == 0 && name == SIDECAR_FILENAME@)
    &&& (opts.show_hidden || !is_dotted(name))
    &&& !(opts.use_gitignore && ignored)
    &&& (opts.max_depth matches Some(m) ==> depth <= m)
}

/// An entry is shown exactly when it is not the `.treedoc.yaml` sidecar at
/// the root, its name does not begin with `.` unless hidden entries are
/// shown, it is not ignored while `.gitignore` is honoured, and it is no
/// deeper than the depth limit.
pub proof fn lemma_shown_entry_meaning(
    name: Seq<char>,
    ignored: bool,
    parent_rel: Seq<char>,
    depth: nat,
    opts: WalkOptions,
)
    ensures
        shown_entry(name, ignored, parent_rel, depth, opts) <==> {
            &&& !(parent_rel.len() == 0 && name == seq![
                '.',
                't',
                'r',
                'e',
                'e',
                'd',
                'o',
                'c',
                '.',
                'y',
                'a',
                'm',
                'l',
            ])
            &&& (opts.show_hidden || name.len() == 0 || name[0] != '.')
            &&& !(opts.use_gitignore && ignored)
            &&& (opts.max_depth matches Some(m) ==> depth <= m)
        },
{
    reveal_strlit(".treedoc.yaml");
    assert(SIDECAR_FILENAME@ =~= seq!['.', 't', 'r', 'e', 'e', 'd', 'o', 'c', '.', 'y', 'a', 'm', 'l']);
}

/// Whether an entry called `name`, `depth` levels below the root, inside
/// the directory at `parent_rel`, is shown; an entry that is not shown need
/// not be read any further.
pub fn entry_shown(
    name: &str,
    ignored: bool,
    parent_rel: &str,
    depth: usize,
    opts: &WalkOptions,
) -> (r: bool)
    ensures
        r == shown_entry(name@, ignored, parent_rel@, depth as nat, *opts),
{
    proof {
        reveal_strlit(".treedoc.yaml");
    }
    if parent_rel.unicode_len() == 0 && str_eq(name, SIDECAR_FILENAME) {
        return false;
    }
    if !opts.show_hidden && starts_with_dot(name) {
        return false;
    }
    if opts.use_gitignore && ignored {
        return false;
    }
    match opts.max_depth {
        Some(m) => depth <= m,
        None => true,
    }
}

/// `a` is listed before `b`: directories before files, then by name.
pub open spec fn sorts_before(a: Node, b: Node) -> bool {
    ||| (a.is_dir && !b.is_dir)
    ||| (a.is_dir == b.is_dir && lex_lt(a.name@, b.name@))
}

/// `a` and `b` have the same kind and name, so neither is listed before the
/// other.
pub open spec fn same_key(a: Node, b: Node) -> bool {
    a.is_dir == b.is_dir && a.name@ == b.name@
}

/// No entry of `s` is to be listed before an earlier one.
pub open spec fn in_listing_order(s: Seq<Node>) -> bool {
    forall|i: int, j: int| 0 <= i < j < s.len() ==> !sorts_before(#[trigger] s[j], #[trigger] s[i])
}

/// The children `kids` are shown for the listing entries of `l` at the
/// positions `p`, each of them once and exactly those that are admitted
/// (a file shows none, whatever the listing holds below it);
/// children of the same kind and name keep the order in which they were read.
pub open spec fn picks_admitted(
    kids: Seq<Node>,
    l: Listing,
    rel: Seq<char>,
    depth: nat,
    opts: WalkOptions,
    p: Seq<int>,
) -> bool {
    &&& p.len() == kids.len()
    &&& p.no_duplicates()
    &&& (p.len() > 0 ==> l.is_dir)
    &&& forall|i: int|
        l.is_dir && 0 <= i < l.children@.len() && admitted(l.children@[i], rel, depth + 1, opts)
            ==> #[trigger] p.contains(i)
    &&& forall|j: int|
        0 <= j < p.len() ==> 0 <= #[trigger] p[j] < l.children@.len()
            && admitted(l.children@[p[j]], rel, depth + 1, opts)
    &&& forall|a: int, b: int|
        0 <= a < b < kids.len() && same_key(#[trigger] kids[a], #[trigger] kids[b]) ==> p[a] < p[b]
}

/// `n` is the tree shown for the listing `l` found at relative path `rel`,
/// `depth` levels below the root: same name and kind, children in listing
/// order, and the children are the trees shown for the admitted entries of
/// `l`, each once.
pub open spec fn is_build_of(n: Node, l: Listing, rel: Seq<char>, depth: nat, opts: WalkOptions) -> bool
    decreases l,
{
    &&& n.name@ == l.name@
    &&& n.is_dir == l.is_dir
    &&& n.rel_path@ == rel
    &&& in_listing_order(n.children@)
    &&& exists|p: Seq<int>|
        #[trigger] picks_admitted(n.children@, l, rel, depth, opts, p) && forall|j: int|
            0 <= j < p.len() ==> 0 <= #[trigger] p[j] < l.children@.len() && is_build_of(
                n.children@[j],
                l.children@[p[j]],
                join_rel(rel, l.children@[p[j]].name@),
                depth + 1,
                opts,
            )
}

/// The listing order: a directory comes before a file, a file never before
/// a directory, and two entries of the same kind are ordered by their whole
/// names, character by character in code-point order, a name coming before
/// every longer name that it begins.
pub proof fn lemma_sorts_before_meaning(a: Node, b: Node)
    ensures
        a.is_dir && !b.is_dir ==> sorts_before(a, b),
        !a.is_dir && b.is_dir ==> !sorts_before(a, b),
        a.is_dir == b.is_dir ==> (sorts_before(a, b) <==> exists|k: int|
            0 <= k <= a.name@.len() && k <= b.name@.len() && #[trigger] a.name@.subrange(0, k)
                == b.name@.subrange(0, k) && ((k == a.name@.len() && k < b.name@.len()) || (k
                < a.name@.len() && k < b.name@.len() && a.name@[k] < b.name@[k]))),
{
    lemma_lex_lt_meaning(a.name@, b.name@);
}

pub proof fn lemma_sorts_before_asymmetric(a: Node, b: Node)
    ensures
        !(sorts_before(a, b) && sorts_before(b, a)),
{
    lemma_lex_lt_asymmetric(a.name@, b.name@);
}

pub proof fn lemma_sorts_before_transitive(a: Node, b: Node, c: Node)
    requires
        sorts_before(a, b),
        sorts_before(b, c),
    ensures
        sorts_before(a, c),
{
    if a.is_dir == b.is_dir && b.is_dir == c.is_dir {
        lemma_lex_lt_transitive(a.name@, b.name@, c.name@);
    }
}

fn sorts_before_exec(a: &Node, b: &Node) -> (r: bool)
    ensures
        r == sorts_before(*a, *b),
{
    (a.is_dir && !b.is_dir) || (a.is_dir == b.is_dir && str_less(a.name.as_str(), b.name.as_str()))
}

/// `q` sends each position of a sequence of length `n` to a distinct
/// position of another of the same length, reaching all of them.
pub open spec fn is_permutation(q: Seq<int>, n: nat) -> bool {
    &&& q.len() == n
    &&& q.no_duplicates()
    &&& forall|j: int| 0 <= j < n ==> 0 <= #[trigger] q[j] < n
    &&& forall|k: int| 0 <= k < n ==> #[trigger] q.contains(k)
}

/// Orders the children of a directory: directories first, then by name;
/// children of the same kind and name keep their order.  Returns where each
/// child came from.
fn sort_children(children: &mut Vec<Node>) -> (q: Ghost<Seq<int>>)
    ensures
        in_listing_order(final(children)@),
        final(children)@.len() == old(children)@.len(),
        is_permutation(q@, old(children)@.len()),
        forall|j: int| 0 <= j < q@.len() ==> final(children)@[j] == old(children)@[#[trigger] q@[j]],
        forall|a: int, b: int|
            0 <= a < b < final(children)@.len() && same_key(
                #[trigger] final(children)@[a],
                #[trigger] final(children)@[b],
            ) ==> q@[a] < q@[b],
{
    let ghost orig = children@;
    let mut rest: Vec<Node> = Vec::new();
    std::mem::swap(&mut rest, children);
    let mut out: Vec<Node> = Vec::new();
    let ghost mut perm: Seq<int> = Seq::empty();
    let ghost mut t: int = 0;
    while rest.len() > 0
        invariant
            0 <= t <= orig.len(),
            rest@ == orig.skip(t),
            out@.len() == t,
            in_listing_order(out@),
            perm.len() == t,
            perm.no_duplicates(),
            forall|j: int| 0 <= j < t ==> 0 <= #[trigger] perm[j] < t,
            forall|k: int| 0 <= k < t ==> #[trigger] perm.contains(k),
            forall|j: int| 0 <= j < t ==> out@[j] == orig[#[trigger] perm[j]],
            forall|a: int, b: int|
                0 <= a < b < t && same_key(#[trigger] out@[a], #[trigger] out@[b]) ==> perm[a] < perm[b],
        decreases rest.len(),
    {
        let x = rest.remove(0);
        let ghost old_out = out@;
        let ghost old_perm = perm;
        assert(x == orig[t]);
        let mut pos: usize = 0;
        while pos < out.len() && !sorts_before_exec(&x, &out[pos])
            invariant
                pos <= out.len(),
                forall|j: int| 0 <= j < pos ==> !sorts_before(x, #[trigger] out@[j]),
            decreases out.len() - pos,
        {
            pos += 1;
        }
        out.insert(pos, x);
        proof {
            assert(rest@ =~= orig.skip(t + 1));
            perm = old_perm.insert(pos as int, t);
            assert forall|i: int, j: int| 0 <= i < j < out@.len() implies !sorts_before(
                #[trigger] out@[j],
                #[trigger] out@[i],
            ) by {
                if j < pos {
                    assert(out@[i] == old_out[i] && out@[j] == old_out[j]);
                } else if j == pos {
                    assert(out@[i] == old_out[i]);
                } else if i == pos {
                    assert(out@[j] == old_out[j - 1]);
                    lemma_sorts_before_asymmetric(x, old_out[pos as int]);
                    if j - 1 > pos {
                        if sorts_before(old_out[j - 1], x) {
                            lemma_sorts_before_transitive(old_out[j - 1], x, old_out[pos as int]);
                        }
                    }
                } else if i < pos {
                    assert(out@[i] == old_out[i] && out@[j] == old_out[j - 1]);
                } else {
                    assert(out@[i] == old_out[i - 1] && out@[j] == old_out[j - 1]);
                }
            }
            assert forall|j: int| 0 <= j < t + 1 implies 0 <= #[trigger] perm[j] < t + 1 by {
                if j < pos {
                    assert(perm[j] == old_perm[j]);
                } else if j > pos {
                    assert(perm[j] == old_perm[j - 1]);
                }
            }
            assert forall|j: int| 0 <= j < t + 1 implies out@[j] == orig[#[trigger] perm[j]] by {
                if j < pos {
                    assert(perm[j] == old_perm[j]);
                } else if j > pos {
                    assert(perm[j] == old_perm[j - 1]);
                }
            }
            assert forall|a: int, b: int|
                0 <= a < b < t + 1 && same_key(#[trigger] out@[a], #[trigger] out@[b]) implies perm[a]
                < perm[b] by {
                if b < pos {
                    assert(out@[a] == old_out[a] && out@[b] == old_out[b]);
                    assert(perm[a] == old_perm[a] && perm[b] == old_perm[b]);
                } else if b == pos {
                    assert(perm[a] == old_perm[a]);
                } else if a == pos {
                    let y = old_out[b - 1];
                    assert(out@[b] == y);
                    // x was placed before old_out[pos], which it sorts before
                    assert(sorts_before(x, old_out[pos as int]));
                    assert(sorts_before(y, old_out[pos as int]));
                    if b - 1 == pos {
                        lemma_lex_lt_irreflexive(y.name@);
                    } else {
                        assert(!sorts_before(old_out[b - 1], old_out[pos as int]));
                    }
                } else if a < pos {
                    assert(out@[a] == old_out[a] && out@[b] == old_out[b - 1]);
                    assert(perm[a] == old_perm[a] && perm[b] == old_perm[b - 1]);
                } else {
                    assert(out@[a] == old_out[a - 1] && out@[b] == old_out[b - 1]);
                    assert(perm[a] == old_perm[a - 1] && perm[b] == old_perm[b - 1]);
                }
            }
            assert forall|k: int| 0 <= k < t + 1 implies #[trigger] perm.contains(k) by {
                if k == t {
                    assert(perm[pos as int] == t);
                } else {
                    assert(old_perm.contains(k));
                    let j = choose|j: int| 0 <= j < old_perm.len() && old_perm[j] == k;
                    if j < pos {
                        assert(perm[j] == k);
                    } else {
                        assert(perm[j + 1] == k);
                    }
                }
            }
            assert forall|a: int, b: int| 0 <= a < perm.len() && 0 <= b < perm.len() && a != b
                implies perm[a] != perm[b] by {
                if a != pos && b != pos {
                    let a0 = if a < pos { a } else { a - 1 };
                    let b0 = if b < pos { b } else { b - 1 };
                    assert(perm[a] == old_perm[a0] && perm[b] == old_perm[b0]);
                } else if a == pos {
                    let b0 = if b < pos { b } else { b - 1 };
                    assert(perm[b] == old_perm[b0]);
                } else {
                    let a0 = if a < pos { a } else { a - 1 };
                    assert(perm[a] == old_perm[a0]);
                }
            }
            t = t + 1;
        }
    }
    proof {
        assert(t == orig.len()) by {
            assert(orig.skip(t).len() == 0);
        }
    }
    *children = out;
    Ghost(perm)
}

/// Whether the entry `c`, `depth + 1` levels below the root, inside the
/// directory at `parent_rel`, is shown; `budget` is how many more levels the
/// depth limit allows below `depth`, or `None` without a limit.
fn shows_entry(
    c: &Listing,
    parent_rel: &str,
    budget: Option<usize>,
    opts: &WalkOptions,
    Ghost(depth): Ghost<nat>,
) -> (r: bool)
    requires
        opts.max_depth matches Some(m) ==> budget == Some((m - depth) as usize) && depth <= m,
        opts.max_depth is None ==> budget is None,
    ensures
        r == admitted(*c, parent_rel@, depth + 1, *opts),
{
    proof {
        reveal_strlit(".treedoc.yaml");
    }
    let at_root = parent_rel.unicode_len() == 0;
    if at_root && str_eq(c.name.as_str(), SIDECAR_FILENAME) {
        return false;
    }
    if !opts.show_hidden && starts_with_dot(c.name.as_str()) {
        return false;
    }
    if opts.use_gitignore && c.ignored {
        return false;
    }
    match budget {
        Some(b) => b > 0,
        None => true,
    }
}

fn build_at(
    l: &Listing,
    rel: String,
    budget: Option<usize>,
    opts: &WalkOptions,
    Ghost(depth): Ghost<nat>,
) -> (n: Node)
    requires
        opts.max_depth matches Some(m) ==> budget == Some((m - depth) as usize) && depth <= m,
        opts.max_depth is None ==> budget is None,
    ensures
        is_build_of(n, *l, rel@, depth, *opts),
    decreases l,
{
    let child_budget = match budget {
        Some(b) => if b > 0 { Some(b - 1) } else { Some(0) },
        None => None,
    };
    let mut kids: Vec<Node> = Vec::new();
    let ghost mut idx: Seq<int> = Seq::empty();
    let count = if l.is_dir {
        l.children.len()
    } else {
        0
    };
    let mut i: usize = 0;
    while i < count
        invariant
            count == (if l.is_dir { l.children.len() } else { 0 }),
            i <= count,
            opts.max_depth matches Some(m) ==> budget == Some((m - depth) as usize) && depth <= m,
            opts.max_depth is None ==> budget is None,
            child_budget == (match budget {
                Some(b) => if b > 0 { Some((b - 1) as usize) } else { Some(0usize) },
                None => None,
            }),
            idx.len() == kids@.len(),
            forall|a: int, b: int| 0 <= a < b < idx.len() ==> idx[a] < idx[b],
            forall|k: int|
                0 <= k < i && admitted(l.children@[k], rel@, depth + 1, *opts)
                    ==> #[trigger] idx.contains(k),
            forall|j: int|
                0 <= j < idx.len() ==> {
                    &&& l.is_dir
                    &&& 0 <= #[trigger] idx[j] < i
                    &&& admitted(l.children@[idx[j]], rel@, depth + 1, *opts)
                    &&& is_build_of(
                        kids@[j],
                        l.children@[idx[j]],
                        join_rel(rel@, l.children@[idx[j]].name@),
                        depth + 1,
                        *opts,
                    )
                },
        decreases count - i,
    {
        let c = &l.children[i];
        if shows_entry(c, rel.as_str(), budget, opts, Ghost(depth)) {
            let child_rel = join_rel_path(rel.as_str(), c.name.as_str());
            proof {
                assert(decreases_to!(l => l.children@[i as int]));
            }
            let kid = build_at(c, child_rel, child_budget, opts, Ghost(depth + 1));
            let ghost old_idx = idx;
            kids.push(kid);
            proof {
                idx = idx.push(i as int);
                assert forall|k: int|
                    0 <= k < i + 1 && admitted(l.children@[k], rel@, depth + 1, *opts)
                        implies #[trigger] idx.contains(k) by {
                    if k < i {
                        assert(old_idx.contains(k));
                        let j = choose|j: int| 0 <= j < old_idx.len() && old_idx[j] == k;
                        assert(idx[j] == k);
                    } else {
                        assert(idx[idx.len() - 1] == k);
                    }
                }
                assert forall|j: int| 0 <= j < idx.len() implies {
                    &&& l.is_dir
                    &&& 0 <= #[trigger] idx[j] < i + 1
                    &&& admitted(l.children@[idx[j]], rel@, depth + 1, *opts)
                    &&& is_build_of(
                        kids@[j],
                        l.children@[idx[j]],
                        join_rel(rel@, l.children@[idx[j]].name@),
                        depth + 1,
                        *opts,
                    )
                } by {
                    if j < old_idx.len() {
                        assert(idx[j] == old_idx[j]);
                    }
                }
            }
        } else {
            proof {
                assert forall|k: int|
                    0 <= k < i + 1 && admitted(l.children@[k], rel@, depth + 1, *opts)
                        implies #[trigger] idx.contains(k) by {
                }
            }
        }
        i += 1;
    }
    let ghost unsorted = kids@;
    let q = sort_children(&mut kids);
    let node = Node { name: l.name.clone(), is_dir: l.is_dir, rel_path: rel, children: kids };
    proof {
        let p = Seq::new(idx.len(), |j: int| idx[q@[j]]);
        assert forall|a: int, b: int| 0 <= a < p.len() && 0 <= b < p.len() && a != b
            implies p[a] != p[b] by {
            assert(q@[a] != q@[b]);
            if q@[a] < q@[b] {
                assert(idx[q@[a]] < idx[q@[b]]);
            } else {
                assert(idx[q@[b]] < idx[q@[a]]);
            }
        }
        assert forall|k: int|
            l.is_dir && 0 <= k < l.children@.len() && admitted(l.children@[k], rel@, depth + 1, *opts)
                implies #[trigger] p.contains(k) by {
            assert(idx.contains(k));
            let j = choose|j: int| 0 <= j < idx.len() && idx[j] == k;
            assert(q@.contains(j));
            let jj = choose|jj: int| 0 <= jj < q@.len() && q@[jj] == j;
            assert(p[jj] == k);
        }
        assert forall|a: int, b: int|
            0 <= a < b < node.children@.len() && same_key(
                #[trigger] node.children@[a],
                #[trigger] node.children@[b],
            ) implies p[a] < p[b] by {
            assert(q@[a] < q@[b]);
            assert(idx[q@[a]] < idx[q@[b]]);
        }
        assert forall|j: int| 0 <= j < p.len() implies {
            &&& 0 <= #[trigger] p[j] < l.children@.len()
            &&& admitted(l.children@[p[j]], rel@, depth + 1, *opts)
            &&& is_build_of(
                node.children@[j],
                l.children@[p[j]],
                join_rel(rel@, l.children@[p[j]].name@),
                depth + 1,
                *opts,
            )
        } by {
            assert(0 <= q@[j] < idx.len());
            assert(p[j] == idx[q@[j]]);
            assert(node.children@[j] == unsorted[q@[j]]);
        }
        assert(p.len() == node.children@.len());
        assert(p.no_duplicates());
        assert(forall|i: int|
            l.is_dir && 0 <= i < l.children@.len() && admitted(l.children@[i], rel@, depth + 1, *opts)
                ==> #[trigger] p.contains(i));
        if p.len() > 0 {
            assert(0 <= q@[0] < idx.len());
            assert(0 <= idx[q@[0]] < l.children@.len());
            assert(l.is_dir);
        }
        assert(forall|j: int|
            0 <= j < p.len() ==> 0 <= #[trigger] p[j] < l.children@.len()
                && admitted(l.children@[p[j]], rel@, depth + 1, *opts));
        assert(forall|a: int, b: int|
            0 <= a < b < node.children@.len() && same_key(#[trigger] node.children@[a], #[trigger] node.children@[b]) ==> p[a] < p[b]);
        assert(picks_admitted(node.children@, *l, rel@, depth, *opts, p));
    }
    node
}

/// The tree shown for a listing of the file system, whose root is the
/// listing's top entry.  The root's relative path is empty, every entry's
/// relative path is its directory's joined with its name by `/`, every
/// directory lists directories first and then files by name, and no file
/// has entries below it.
pub fn build(listing: &Listing, opts: &WalkOptions) -> (n: Node)
    ensures
        is_build_of(n, *listing, Seq::<char>::empty(), 0, *opts),
        n.rel_path@ == Seq::<char>::empty(),
        well_placed(n),
        files_childless(n),
{
    let budget = opts.max_depth;
    let root = build_at(listing, String::new(), budget, opts, Ghost(0));
    proof {
        lemma_build_well_placed(root, *listing, Seq::empty(), 0, *opts);
        lemma_build_files_childless(root, *listing, Seq::empty(), 0, *opts);
    }
    root
}

/// No entry below `n` has a name that begins with a dot.
pub open spec fn no_dotted_below(n: Node) -> bool
    decreases n,
{
    forall|j: int|
        0 <= j < n.children@.len() ==> !is_dotted(#[trigger] n.children@[j].name@)
            && no_dotted_below(n.children@[j])
}

/// No entry lies more than `k` levels below `n`.
pub open spec fn levels_within(n: Node, k: int) -> bool
    decreases n,
{
    if k <= 0 {
        n.children@.len() == 0
    } else {
        forall|j: int| 0 <= j < n.children@.len() ==> levels_within(#[trigger] n.children@[j], k - 1)
    }
}

/// Every entry below `n` has as relative path its directory's path joined
/// with its name, and every directory lists its entries in listing order.
pub open spec fn well_placed(n: Node) -> bool
    decreases n,
{
    &&& in_listing_order(n.children@)
    &&& forall|j: int|
        0 <= j < n.children@.len() ==> (#[trigger] n.children@[j]).rel_path@ == join_rel(
            n.rel_path@,
            n.children@[j].name@,
        ) && well_placed(n.children@[j])
}

/// The sidecar file is never shown among the root's entries.
pub proof fn lemma_build_leaves_out_sidecar(n: Node, l: Listing, opts: WalkOptions)
    requires
        is_build_of(n, l, Seq::empty(), 0, opts),
    ensures
        forall|j: int| 0 <= j < n.children@.len() ==> (#[trigger] n.children@[j]).name@ != SIDECAR_FILENAME@,
{
    let p = choose|p: Seq<int>|
        #[trigger] picks_admitted(n.children@, l, Seq::empty(), 0, opts, p) && forall|j: int|
            0 <= j < p.len() ==> 0 <= #[trigger] p[j] < l.children@.len() && is_build_of(
                n.children@[j],
                l.children@[p[j]],
                join_rel(Seq::empty(), l.children@[p[j]].name@),
                0 + 1,
                opts,
            );
    assert forall|j: int| 0 <= j < n.children@.len() implies (#[trigger] n.children@[j]).name@
        != SIDECAR_FILENAME@ by {
        assert(0 <= p[j] < l.children@.len());
        assert(admitted(l.children@[p[j]], Seq::empty(), 1, opts));
    }
}

/// Without `show_hidden`, no entry whose name begins with a dot is shown
/// anywhere in the tree.
pub proof fn lemma_build_hides_dotted(n: Node, l: Listing, rel: Seq<char>, depth: nat, opts: WalkOptions)
    requires
        is_build_of(n, l, rel, depth, opts),
        !opts.show_hidden,
    ensures
        no_dotted_below(n),
    decreases l,
{
    let p = choose|p: Seq<int>|
        #[trigger] picks_admitted(n.children@, l, rel, depth, opts, p) && forall|j: int|
            0 <= j < p.len() ==> 0 <= #[trigger] p[j] < l.children@.len() && is_build_of(
                n.children@[j],
                l.children@[p[j]],
                join_rel(rel, l.children@[p[j]].name@),
                depth + 1,
                opts,
            );
    assert forall|j: int| 0 <= j < n.children@.len() implies !is_dotted(
        #[trigger] n.children@[j].name@,
    ) && no_dotted_below(n.children@[j]) by {
        let i = p[j];
        assert(0 <= i < l.children@.len());
        assert(admitted(l.children@[i], rel, depth + 1, opts));
        lemma_build_hides_dotted(
            n.children@[j],
            l.children@[i],
            join_rel(rel, l.children@[i].name@),
            depth + 1,
            opts,
        );
    }
}

/// With a depth limit `m`, no entry is shown more than `m` levels below the
/// root: an entry built `depth` levels below the root has nothing more than
/// `m - depth` levels below it.
pub proof fn lemma_build_respects_depth(
    n: Node,
    l: Listing,
    rel: Seq<char>,
    depth: nat,
    opts: WalkOptions,
    m: usize,
)
    requires
        is_build_of(n, l, rel, depth, opts),
        opts.max_depth == Some(m),
        depth <= m,
    ensures
        levels_within(n, m - depth),
    decreases l,
{
    let p = choose|p: Seq<int>|
        #[trigger] picks_admitted(n.children@, l, rel, depth, opts, p) && forall|j: int|
            0 <= j < p.len() ==> 0 <= #[trigger] p[j] < l.children@.len() && is_build_of(
                n.children@[j],
                l.children@[p[j]],
                join_rel(rel, l.children@[p[j]].name@),
                depth + 1,
                opts,
            );
    let k: int = m - depth;
    assert forall|j: int| 0 <= j < n.children@.len() implies (k >= 1 && levels_within(
        #[trigger] n.children@[j],
        k - 1,
    )) by {
        let i = p[j];
        assert(0 <= i < l.children@.len());
        assert(admitted(l.children@[i], rel, depth + 1, opts));
        let d1: nat = depth + 1;
        lemma_build_respects_depth(
            n.children@[j],
            l.children@[i],
            join_rel(rel, l.children@[i].name@),
            d1,
            opts,
            m,
        );
        assert(m - d1 == k - 1);
        assert(k >= 1);
        assert(levels_within(n.children@[j], k - 1));
    }
    if n.children@.len() > 0 {
        let i = p[0];
        assert(0 <= i < l.children@.len());
        assert(admitted(l.children@[i], rel, depth + 1, opts));
        assert(k >= 1);
    }
}

/// In a built tree every entry's relative path is its directory's path
/// joined with its name, and every directory is in listing order.
pub proof fn lemma_build_well_placed(n: Node, l: Listing, rel: Seq<char>, depth: nat, opts: WalkOptions)
    requires
        is_build_of(n, l, rel, depth, opts),
    ensures
        well_placed(n),
    decreases l,
{
    let p = choose|p: Seq<int>|
        #[trigger] picks_admitted(n.children@, l, rel, depth, opts, p) && forall|j: int|
            0 <= j < p.len() ==> 0 <= #[trigger] p[j] < l.children@.len() && is_build_of(
                n.children@[j],
                l.children@[p[j]],
                join_rel(rel, l.children@[p[j]].name@),
                depth + 1,
                opts,
            );
    assert forall|j: int| 0 <= j < n.children@.len() implies (#[trigger] n.children@[j]).rel_path@
        == join_rel(n.rel_path@, n.children@[j].name@) && well_placed(n.children@[j]) by {
        let i = p[j];
        assert(0 <= i < l.children@.len());
        lemma_build_well_placed(
            n.children@[j],
            l.children@[i],
            join_rel(rel, l.children@[i].name@),
            depth + 1,
            opts,
        );
    }
}

/// No file in the tree under `n` has entries below it.
pub open spec fn files_childless(n: Node) -> bool
    decreases n,
{
    &&& (!n.is_dir ==> n.children@.len() == 0)
    &&& forall|j: int| 0 <= j < n.children@.len() ==> files_childless(#[trigger] n.children@[j])
}

/// In a built tree no file has children, whatever the listing holds below
/// a file.
pub proof fn lemma_build_files_childless(
    n: Node,
    l: Listing,
    rel: Seq<char>,
    depth: nat,
    opts: WalkOptions,
)
    requires
        is_build_of(n, l, rel, depth, opts),
    ensures
        files_childless(n),
    decreases l,
{
    let p = choose|p: Seq<int>|
        #[trigger] picks_admitted(n.children@, l, rel, depth, opts, p) && forall|j: int|
            0 <= j < p.len() ==> 0 <= #[trigger] p[j] < l.children@.len() && is_build_of(
                n.children@[j],
                l.children@[p[j]],
                join_rel(rel, l.children@[p[j]].name@),
                depth + 1,
                opts,
            );
    if !n.is_dir && n.children@.len() > 0 {
        assert(0 <= p[0] < l.children@.len());
    }
    assert forall|j: int| 0 <= j < n.children@.len() implies files_childless(
        #[trigger] n.children@[j],
    ) by {
        let i = p[j];
        assert(0 <= i < l.children@.len());
        lemma_build_files_childless(
            n.children@[j],
            l.children@[i],
            join_rel(rel, l.children@[i].name@),
            depth + 1,
            opts,
        );
    }
}

} // verus!
