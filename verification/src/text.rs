//! Character-level helpers: the lexicographic order on names, path keys
//! without trailing slashes, and joining relative paths.
use vstd::prelude::*;

verus! {

/// `a` comes strictly before `b` in lexicographic order of code points.
///
/// UTF-8 preserves the order of code points, so this is the order in which
/// Rust compares `str` values byte by byte.
pub open spec fn lex_lt(a: Seq<char>, b: Seq<char>) -> bool
    decreases a.len(),
{
    if b.len() == 0 {
        false
    } else if a.len() == 0 {
        true
    } else if a[0] != b[0] {
        a[0] < b[0]
    } else {
        lex_lt(a.drop_first(), b.drop_first())
    }
}

pub proof fn lemma_lex_lt_irreflexive(a: Seq<char>)
    ensures
        !lex_lt(a, a),
    decreases a.len(),
{
    if a.len() > 0 {
        lemma_lex_lt_irreflexive(a.drop_first());
    }
}

pub proof fn lemma_lex_lt_transitive(a: Seq<char>, b: Seq<char>, c: Seq<char>)
    requires
        lex_lt(a, b),
        lex_lt(b, c),
    ensures
        lex_lt(a, c),
    decreases a.len(),
{
    if a.len() > 0 && b.len() > 0 && c.len() > 0 && a[0] == b[0] && b[0] == c[0] {
        lemma_lex_lt_transitive(a.drop_first(), b.drop_first(), c.drop_first());
    }
}

/// Two different sequences are ordered one way or the other.
pub proof fn lemma_lex_lt_total(a: Seq<char>, b: Seq<char>)
    ensures
        a == b || lex_lt(a, b) || lex_lt(b, a),
    decreases a.len(),
{
    if a.len() > 0 && b.len() > 0 && a[0] == b[0] {
        lemma_lex_lt_total(a.drop_first(), b.drop_first());
        if a.drop_first() == b.drop_first() {
            assert(a =~= seq![a[0]] + a.drop_first());
            assert(b =~= seq![b[0]] + b.drop_first());
        }
    } else if a.len() == 0 && b.len() == 0 {
        assert(a =~= b);
    }
}

pub proof fn lemma_lex_lt_asymmetric(a: Seq<char>, b: Seq<char>)
    ensures
        !(lex_lt(a, b) && lex_lt(b, a)),
{
    if lex_lt(a, b) && lex_lt(b, a) {
        lemma_lex_lt_transitive(a, b, a);
        lemma_lex_lt_irreflexive(a);
    }
}

/// `a` comes before `b` exactly when, after a common beginning, either `a`
/// ends where `b` goes on, or `a`'s next character has the smaller code
/// point: the whole names are compared, not only a part of them.
pub proof fn lemma_lex_lt_meaning(a: Seq<char>, b: Seq<char>)
    ensures
        lex_lt(a, b) <==> exists|k: int|
            0 <= k <= a.len() && k <= b.len() && #[trigger] a.subrange(0, k) == b.subrange(0, k) && ((k
                == a.len() && k < b.len()) || (k < a.len() && k < b.len() && a[k] < b[k])),
    decreases a.len(),
{
    if a.len() == 0 || b.len() == 0 {
        if lex_lt(a, b) {
            assert(a.subrange(0, 0) =~= b.subrange(0, 0));
        }
        if exists|k: int|
            0 <= k <= a.len() && k <= b.len() && #[trigger] a.subrange(0, k) == b.subrange(0, k) && ((k
                == a.len() && k < b.len()) || (k < a.len() && k < b.len() && a[k] < b[k])) {
            let k = choose|k: int|
                0 <= k <= a.len() && k <= b.len() && #[trigger] a.subrange(0, k) == b.subrange(0, k) && ((k
                    == a.len() && k < b.len()) || (k < a.len() && k < b.len() && a[k] < b[k]));
            assert(k == 0);
        }
    } else if a[0] != b[0] {
        if lex_lt(a, b) {
            assert(a.subrange(0, 0) =~= b.subrange(0, 0));
        }
        if exists|k: int|
            0 <= k <= a.len() && k <= b.len() && #[trigger] a.subrange(0, k) == b.subrange(0, k) && ((k
                == a.len() && k < b.len()) || (k < a.len() && k < b.len() && a[k] < b[k])) {
            let k = choose|k: int|
                0 <= k <= a.len() && k <= b.len() && #[trigger] a.subrange(0, k) == b.subrange(0, k) && ((k
                    == a.len() && k < b.len()) || (k < a.len() && k < b.len() && a[k] < b[k]));
            if k > 0 {
                assert(a.subrange(0, k)[0] == b.subrange(0, k)[0]);
            }
        }
    } else {
        let a1 = a.drop_first();
        let b1 = b.drop_first();
        lemma_lex_lt_meaning(a1, b1);
        if lex_lt(a, b) {
            let k = choose|k: int|
                0 <= k <= a1.len() && k <= b1.len() && #[trigger] a1.subrange(0, k) == b1.subrange(0, k) && ((k
                    == a1.len() && k < b1.len()) || (k < a1.len() && k < b1.len() && a1[k] < b1[k]));
            assert(a.subrange(0, k + 1) =~= seq![a[0]] + a1.subrange(0, k));
            assert(b.subrange(0, k + 1) =~= seq![b[0]] + b1.subrange(0, k));
            assert(a[k + 1] == a1[k] || k == a1.len());
        }
        if exists|k: int|
            0 <= k <= a.len() && k <= b.len() && #[trigger] a.subrange(0, k) == b.subrange(0, k) && ((k
                == a.len() && k < b.len()) || (k < a.len() && k < b.len() && a[k] < b[k])) {
            let k = choose|k: int|
                0 <= k <= a.len() && k <= b.len() && #[trigger] a.subrange(0, k) == b.subrange(0, k) && ((k
                    == a.len() && k < b.len()) || (k < a.len() && k < b.len() && a[k] < b[k]));
            if k == 0 {
                assert(a[0] < b[0]);
            }
            let k1 = k - 1;
            assert(a1.subrange(0, k1) =~= a.subrange(0, k).drop_first());
            assert(b1.subrange(0, k1) =~= b.subrange(0, k).drop_first());
            assert(k1 < a1.len() ==> a1[k1] == a[k]);
            assert(k1 < b1.len() ==> b1[k1] == b[k]);
            assert(a1.subrange(0, k1) == b1.subrange(0, k1));
        }
    }
}

/// The characters of `s`, in order.
pub fn chars_of(s: &str) -> (v: Vec<char>)
    ensures
        v@ == s@,
{
    let n = s.unicode_len();
    let mut v: Vec<char> = Vec::new();
    let mut i: usize = 0;
    while i < n
        invariant
            n == s@.len(),
            i <= n,
            v@ == s@.subrange(0, i as int),
        decreases n - i,
    {
        let c = s.get_char(i);
        v.push(c);
        i += 1;
        assert(v@ =~= s@.subrange(0, i as int));
    }
    assert(v@ =~= s@);
    v
}

/// Lexicographic comparison of two character sequences.
pub fn lex_less(a: &Vec<char>, b: &Vec<char>) -> (r: bool)
    ensures
        r == lex_lt(a@, b@),
{
    let mut i: usize = 0;
    assert(a@.skip(0) =~= a@);
    assert(b@.skip(0) =~= b@);
    while i < a.len() && i < b.len()
        invariant
            i <= a.len(),
            i <= b.len(),
            lex_lt(a@, b@) == lex_lt(a@.skip(i as int), b@.skip(i as int)),
        decreases a.len() - i,
    {
        if a[i] != b[i] {
            return a[i] < b[i];
        }
        assert(a@.skip(i as int).drop_first() =~= a@.skip(i + 1));
        assert(b@.skip(i as int).drop_first() =~= b@.skip(i + 1));
        i += 1;
    }
    i < b.len()
}

/// Lexicographic comparison of two strings.
pub fn str_less(a: &str, b: &str) -> (r: bool)
    ensures
        r == lex_lt(a@, b@),
{
    let va = chars_of(a);
    let vb = chars_of(b);
    lex_less(&va, &vb)
}

/// Whether two strings hold the same characters.
pub fn str_eq(a: &str, b: &str) -> (r: bool)
    ensures
        r == (a@ == b@),
{
    let va = chars_of(a);
    let vb = chars_of(b);
    if va.len() != vb.len() {
        return false;
    }
    let mut i: usize = 0;
    while i < va.len()
        invariant
            va@ == a@,
            vb@ == b@,
            va.len() == vb.len(),
            i <= va.len(),
            forall|j: int| 0 <= j < i ==> va@[j] == vb@[j],
        decreases va.len() - i,
    {
        if va[i] != vb[i] {
            return false;
        }
        i += 1;
    }
    assert(va@ =~= vb@);
    true
}

/// `s` with every trailing `/` removed.
pub open spec fn trim_trailing_slashes(s: Seq<char>) -> Seq<char>
    decreases s.len(),
{
    if s.len() > 0 && s.last() == '/' {
        trim_trailing_slashes(s.drop_last())
    } else {
        s
    }
}

/// `n` slashes.
pub open spec fn slashes(n: nat) -> Seq<char> {
    Seq::new(n, |i: int| '/')
}

/// Trimming removes the trailing slashes and nothing else: `s` is its
/// trimmed form followed only by slashes, and the trimmed form does not end
/// in a slash.  A path that does not end in a slash is kept as it is.
pub proof fn lemma_trim_meaning(s: Seq<char>)
    ensures
        exists|n: nat| s == trim_trailing_slashes(s) + #[trigger] slashes(n),
        !(trim_trailing_slashes(s).len() > 0 && trim_trailing_slashes(s).last() == '/'),
        !(s.len() > 0 && s.last() == '/') ==> trim_trailing_slashes(s) == s,
    decreases s.len(),
{
    if s.len() > 0 && s.last() == '/' {
        let t = s.drop_last();
        lemma_trim_meaning(t);
        let n = choose|n: nat| t == trim_trailing_slashes(t) + #[trigger] slashes(n);
        let r = trim_trailing_slashes(t);
        assert(s =~= r + slashes(n + 1)) by {
            assert(s =~= t.push('/'));
        }
    } else {
        assert(s =~= s + slashes(0));
    }
}

/// Removing trailing slashes twice removes no more than once.
pub proof fn lemma_trim_idempotent(s: Seq<char>)
    ensures
        trim_trailing_slashes(trim_trailing_slashes(s)) == trim_trailing_slashes(s),
    decreases s.len(),
{
    if s.len() > 0 && s.last() == '/' {
        lemma_trim_idempotent(s.drop_last());
    }
}

/// A trailing slash is optional: `k/` and `k` name the same key.
pub proof fn lemma_trailing_slash_optional(k: Seq<char>)
    ensures
        trim_trailing_slashes(k + seq!['/']) == trim_trailing_slashes(k),
{
    let s = k + seq!['/'];
    assert(s.drop_last() =~= k);
}

/// The key under which a comment for `k` is kept: `k` without trailing
/// slashes, so that `src` and `src/` name the same entry.
pub fn normalize_key(k: &str) -> (r: String)
    ensures
        r@ == trim_trailing_slashes(k@),
{
    let n = k.unicode_len();
    let mut j: usize = n;
    assert(k@.subrange(0, n as int) =~= k@);
    while j > 0 && k.get_char(j - 1) == '/'
        invariant
            n == k@.len(),
            j <= n,
            trim_trailing_slashes(k@) == trim_trailing_slashes(k@.subrange(0, j as int)),
        decreases j,
    {
        assert(k@.subrange(0, j as int).drop_last() =~= k@.subrange(0, j - 1));
        j -= 1;
    }
    let r = String::from_str(k.substring_char(0, j));
    r
}

/// The relative path of an entry called `name` inside the directory whose
/// relative path is `parent`; the root's own relative path is empty.
pub open spec fn join_rel(parent: Seq<char>, name: Seq<char>) -> Seq<char> {
    if parent.len() == 0 {
        name
    } else {
        parent + seq!['/'] + name
    }
}

pub fn join_rel_path(parent: &str, name: &str) -> (r: String)
    ensures
        r@ == join_rel(parent@, name@),
{
    if parent.unicode_len() == 0 {
        String::from_str(name)
    } else {
        let r = String::from_str(parent).concat("/").concat(name);
        proof {
            reveal_strlit("/");
        }
        r
    }
}

/// Whether a name begins with a dot; no other name is a dotfile.
pub open spec fn is_dotted(name: Seq<char>) -> bool {
    name.len() > 0 && name[0] == '.'
}

pub fn starts_with_dot(name: &str) -> (r: bool)
    ensures
        r == is_dotted(name@),
{
    name.unicode_len() > 0 && name.get_char(0) == '.'
}

} // verus!
