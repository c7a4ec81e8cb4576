//! The comments of a tree: a map from relative path to comment text, kept
//! sorted by path so that it is listed and saved in a stable order.
use vstd::prelude::*;

use crate::text::{lemma_trim_meaning, 
    lemma_lex_lt_asymmetric, lemma_lex_lt_irreflexive, lemma_lex_lt_total,
    lemma_lex_lt_transitive, lemma_trailing_slash_optional, lemma_trim_idempotent, lex_lt,
    normalize_key, str_eq, str_less, trim_trailing_slashes,
};
use crate::tree::Node;
use crate::yaml::{
    emit_string_map, parse_string_map, simple_mapping, simple_yaml_text, yaml_string_map,
    yaml_text_of_map,
};

verus! {

/// The pairs of a list of string pairs, each taken by its characters.
pub open spec fn pair_views(s: Seq<(String, String)>) -> Seq<(Seq<char>, Seq<char>)> {
    s.map_values(|p: (String, String)| (p.0@, p.1@))
}

/// Keys strictly increasing in lexicographic order (so no key repeats).
pub open spec fn keys_increasing(s: Seq<(Seq<char>, Seq<char>)>) -> bool {
    forall|i: int, j: int| 0 <= i < j < s.len() ==> lex_lt(#[trigger] s[i].0, #[trigger] s[j].0)
}

/// `s`, sorted by key without repeats, lists exactly the pairs of `m`.
pub open spec fn lists_map(s: Seq<(Seq<char>, Seq<char>)>, m: Map<Seq<char>, Seq<char>>) -> bool {
    &&& keys_increasing(s)
    &&& forall|i: int| 0 <= i < s.len() ==> m.contains_key(#[trigger] s[i].0) && m[s[i].0] == s[i].1
    &&& forall|k: Seq<char>| #[trigger] m.contains_key(k) ==> exists|i: int| 0 <= i < s.len() && s[i].0 == k
}

/// The map that results from recording the pairs of `s` one after the other,
/// each under its key without trailing slashes; a later pair replaces an
/// earlier one with the same key.
pub open spec fn recorded(s: Seq<(Seq<char>, Seq<char>)>) -> Map<Seq<char>, Seq<char>>
    decreases s.len(),
{
    if s.len() == 0 {
        Map::empty()
    } else {
        recorded(s.drop_last()).insert(trim_trailing_slashes(s.last().0), s.last().1)
    }
}

/// Every key of a map read from pairs has no trailing slash.
pub proof fn lemma_recorded_keys_trimmed(s: Seq<(Seq<char>, Seq<char>)>)
    ensures
        forall|k: Seq<char>| #[trigger] recorded(s).contains_key(k) ==> trim_trailing_slashes(k) == k,
    decreases s.len(),
{
    if s.len() > 0 {
        lemma_recorded_keys_trimmed(s.drop_last());
        lemma_trim_idempotent(s.last().0);
        let prev = recorded(s.drop_last());
        assert forall|k: Seq<char>| #[trigger] recorded(s).contains_key(k) implies trim_trailing_slashes(k) == k by {
            if k != trim_trailing_slashes(s.last().0) {
                assert(prev.contains_key(k));
            }
        }
    }
}

/// No two pairs of `s` have keys that are the same without trailing slashes.
pub open spec fn trimmed_keys_distinct(s: Seq<(Seq<char>, Seq<char>)>) -> bool {
    forall|i: int, j: int|
        0 <= i < j < s.len() ==> trim_trailing_slashes(#[trigger] s[i].0) != trim_trailing_slashes(
            #[trigger] s[j].0,
        )
}

/// Recording pairs whose keys stay distinct without trailing slashes keeps
/// every pair: each key, without its trailing slashes, is recorded with
/// exactly its own value, an empty one included, and no other key is
/// recorded.
pub proof fn lemma_recorded_keeps_every_pair(s: Seq<(Seq<char>, Seq<char>)>)
    requires
        trimmed_keys_distinct(s),
    ensures
        forall|i: int|
            0 <= i < s.len() ==> recorded(s).contains_key(trim_trailing_slashes(#[trigger] s[i].0))
                && recorded(s)[trim_trailing_slashes(s[i].0)] == s[i].1,
        forall|k: Seq<char>|
            #[trigger] recorded(s).contains_key(k) ==> exists|i: int|
                0 <= i < s.len() && trim_trailing_slashes(s[i].0) == k,
    decreases s.len(),
{
    if s.len() > 0 {
        let t = s.drop_last();
        assert forall|i: int, j: int| 0 <= i < j < t.len() implies trim_trailing_slashes(
            #[trigger] t[i].0,
        ) != trim_trailing_slashes(#[trigger] t[j].0) by {
            assert(t[i] == s[i] && t[j] == s[j]);
        }
        lemma_recorded_keeps_every_pair(t);
        let last = s.len() - 1;
        assert forall|i: int| 0 <= i < s.len() implies recorded(s).contains_key(
            trim_trailing_slashes(#[trigger] s[i].0),
        ) && recorded(s)[trim_trailing_slashes(s[i].0)] == s[i].1 by {
            if i < last {
                assert(t[i] == s[i]);
                assert(trim_trailing_slashes(s[i].0) != trim_trailing_slashes(s[last].0));
            }
        }
        assert forall|k: Seq<char>| #[trigger] recorded(s).contains_key(k) implies exists|i: int|
            0 <= i < s.len() && trim_trailing_slashes(s[i].0) == k by {
            if k != trim_trailing_slashes(s[last].0) {
                assert(recorded(t).contains_key(k));
                let i = choose|i: int| 0 <= i < t.len() && trim_trailing_slashes(t[i].0) == k;
                assert(t[i] == s[i]);
            } else {
                assert(trim_trailing_slashes(s[last].0) == k);
            }
        }
    }
}

/// Some pair of `s` has the key `k` (without trailing slashes) and value `v`.
pub open spec fn has_pair(s: Seq<(Seq<char>, Seq<char>)>, k: Seq<char>, v: Seq<char>) -> bool {
    exists|j: int| 0 <= j < s.len() && trim_trailing_slashes(#[trigger] s[j].0) == k && s[j].1 == v
}

/// Two readings that hold the same comments, paths compared without
/// trailing slashes and in whatever order, give the same comments: a
/// sidecar that writes `src/` where another writes `src` reads the same.
pub proof fn lemma_recorded_ignores_slashes_and_order(
    s1: Seq<(Seq<char>, Seq<char>)>,
    s2: Seq<(Seq<char>, Seq<char>)>,
)
    requires
        trimmed_keys_distinct(s1),
        trimmed_keys_distinct(s2),
        forall|i: int|
            0 <= i < s1.len() ==> has_pair(s2, trim_trailing_slashes(#[trigger] s1[i].0), s1[i].1),
        forall|j: int|
            0 <= j < s2.len() ==> has_pair(s1, trim_trailing_slashes(#[trigger] s2[j].0), s2[j].1),
    ensures
        recorded(s1) == recorded(s2),
{
    lemma_recorded_keeps_every_pair(s1);
    lemma_recorded_keeps_every_pair(s2);
    let m1 = recorded(s1);
    let m2 = recorded(s2);
    assert forall|k: Seq<char>| #[trigger] m1.contains_key(k) implies m2.contains_key(k) && m1[k] == m2[k] by {
        let i = choose|i: int| 0 <= i < s1.len() && trim_trailing_slashes(s1[i].0) == k;
        assert(has_pair(s2, trim_trailing_slashes(s1[i].0), s1[i].1));
        let j = choose|j: int|
            0 <= j < s2.len() && trim_trailing_slashes(#[trigger] s2[j].0) == k && s2[j].1 == s1[i].1;
        assert(m2.contains_key(trim_trailing_slashes(s2[j].0)));
    }
    assert forall|k: Seq<char>| #[trigger] m2.contains_key(k) implies m1.contains_key(k) by {
        let j = choose|j: int| 0 <= j < s2.len() && trim_trailing_slashes(s2[j].0) == k;
        assert(has_pair(s1, trim_trailing_slashes(s2[j].0), s2[j].1));
        let i = choose|i: int|
            0 <= i < s1.len() && trim_trailing_slashes(#[trigger] s1[i].0) == k && s1[i].1 == s2[j].1;
        assert(m1.contains_key(trim_trailing_slashes(s1[i].0)));
    }
    assert(m1 =~= m2);
}

/// A comment set for a path that does not end in `/` is found under that
/// very path, whatever its length or content.
pub proof fn lemma_set_keeps_path(m: Map<Seq<char>, Seq<char>>, path: Seq<char>, comment: Seq<char>)
    requires
        !(path.len() > 0 && path.last() == '/'),
    ensures
        m.insert(trim_trailing_slashes(path), comment).contains_key(path),
        m.insert(trim_trailing_slashes(path), comment)[path] == comment,
{
    lemma_trim_meaning(path);
}

/// A comment set for a path is found again under that path without its
/// trailing slashes (so under `src` when it was set for `src/`), and the
/// other comments stay as they were.
pub proof fn lemma_set_then_get(
    m: Map<Seq<char>, Seq<char>>,
    path: Seq<char>,
    comment: Seq<char>,
    other: Seq<char>,
)
    ensures
        ({
            let after = m.insert(trim_trailing_slashes(path), comment);
            &&& after.contains_key(trim_trailing_slashes(path + seq!['/']))
            &&& after[trim_trailing_slashes(path + seq!['/'])] == comment
            &&& after.contains_key(trim_trailing_slashes(path))
            &&& after[trim_trailing_slashes(path)] == comment
            &&& other != trim_trailing_slashes(path) ==> (after.contains_key(other)
                == m.contains_key(other) && (m.contains_key(other) ==> after[other] == m[other]))
        }),
{
    lemma_trailing_slash_optional(path);
}

/// No key of `m` ends in `/`.
pub open spec fn keys_trimmed(m: Map<Seq<char>, Seq<char>>) -> bool {
    forall|k: Seq<char>| #[trigger] m.contains_key(k) ==> trim_trailing_slashes(k) == k
}

proof fn lemma_lists_map_drop_last(s: Seq<(Seq<char>, Seq<char>)>, m: Map<Seq<char>, Seq<char>>)
    requires
        lists_map(s, m),
        s.len() > 0,
    ensures
        lists_map(s.drop_last(), m.remove(s.last().0)),
{
    let k = s.last().0;
    let t = s.drop_last();
    let m2 = m.remove(k);
    assert forall|i: int, j: int| 0 <= i < j < t.len() implies lex_lt(#[trigger] t[i].0, #[trigger] t[j].0) by {
        assert(t[i] == s[i] && t[j] == s[j]);
    }
    assert forall|i: int| 0 <= i < t.len() implies m2.contains_key(#[trigger] t[i].0) && m2[t[i].0] == t[i].1 by {
        assert(t[i] == s[i]);
        assert(lex_lt(s[i].0, s[s.len() - 1].0));
        lemma_lex_lt_irreflexive(k);
    }
    assert forall|kk: Seq<char>| #[trigger] m2.contains_key(kk) implies exists|i: int| 0 <= i < t.len() && t[i].0 == kk by {
        let i = choose|i: int| 0 <= i < s.len() && s[i].0 == kk;
        assert(i != s.len() - 1);
        assert(t[i].0 == kk);
    }
}

/// Recording, one after the other, the pairs that list a map whose keys
/// have no trailing slash gives the map back: comments rebuilt from their
/// own entries are the same comments.
pub proof fn lemma_recorded_of_listing(s: Seq<(Seq<char>, Seq<char>)>, m: Map<Seq<char>, Seq<char>>)
    requires
        lists_map(s, m),
        keys_trimmed(m),
    ensures
        recorded(s) == m,
    decreases s.len(),
{
    if s.len() == 0 {
        assert forall|k: Seq<char>| !m.contains_key(k) by {
            if m.contains_key(k) {
                let i = choose|i: int| 0 <= i < s.len() && s[i].0 == k;
            }
        }
        assert(m =~= Map::empty());
    } else {
        let k = s.last().0;
        assert(m.contains_key(s[s.len() - 1].0));
        lemma_lists_map_drop_last(s, m);
        lemma_recorded_of_listing(s.drop_last(), m.remove(k));
        assert(recorded(s) =~= m);
    }
}

/// The pairs of a finite map, sorted by key.
pub open spec fn sorted_pairs(m: Map<Seq<char>, Seq<char>>) -> Seq<(Seq<char>, Seq<char>)> {
    choose|s: Seq<(Seq<char>, Seq<char>)>| lists_map(s, m)
}

/// A map is listed by at most one sequence sorted by key.
pub proof fn lemma_lists_map_unique(
    s1: Seq<(Seq<char>, Seq<char>)>,
    s2: Seq<(Seq<char>, Seq<char>)>,
    m: Map<Seq<char>, Seq<char>>,
)
    requires
        lists_map(s1, m),
        lists_map(s2, m),
    ensures
        s1 == s2,
    decreases s1.len(),
{
    if s1.len() == 0 || s2.len() == 0 {
        if s1.len() > 0 {
            assert(m.contains_key(s1[0].0));
        }
        if s2.len() > 0 {
            assert(m.contains_key(s2[0].0));
        }
        assert(s1 =~= s2);
    } else {
        let k1 = s1[0].0;
        let k2 = s2[0].0;
        assert(m.contains_key(k1) && m.contains_key(k2));
        let i = choose|i: int| 0 <= i < s1.len() && s1[i].0 == k2;
        let j = choose|j: int| 0 <= j < s2.len() && s2[j].0 == k1;
        if k1 != k2 {
            assert(i != 0 && j != 0);
            assert(lex_lt(s1[0].0, s1[i].0));
            assert(lex_lt(s2[0].0, s2[j].0));
            lemma_lex_lt_asymmetric(k1, k2);
        }
        let m2 = m.remove(k1);
        lemma_lists_map_drop_first(s1, m);
        lemma_lists_map_drop_first(s2, m);
        lemma_lists_map_unique(s1.drop_first(), s2.drop_first(), m2);
        assert(s1 =~= seq![s1[0]] + s1.drop_first());
        assert(s2 =~= seq![s2[0]] + s2.drop_first());
    }
}

proof fn lemma_lists_map_drop_first(s: Seq<(Seq<char>, Seq<char>)>, m: Map<Seq<char>, Seq<char>>)
    requires
        lists_map(s, m),
        s.len() > 0,
    ensures
        lists_map(s.drop_first(), m.remove(s[0].0)),
{
    let k = s[0].0;
    let t = s.drop_first();
    let m2 = m.remove(k);
    assert forall|i: int, j: int| 0 <= i < j < t.len() implies lex_lt(#[trigger] t[i].0, #[trigger] t[j].0) by {
        assert(t[i] == s[i + 1] && t[j] == s[j + 1]);
    }
    assert forall|i: int| 0 <= i < t.len() implies m2.contains_key(#[trigger] t[i].0) && m2[t[i].0] == t[i].1 by {
        assert(t[i] == s[i + 1]);
        assert(lex_lt(s[0].0, s[i + 1].0));
        lemma_lex_lt_irreflexive(k);
    }
    assert forall|kk: Seq<char>| #[trigger] m2.contains_key(kk) implies exists|i: int| 0 <= i < t.len() && t[i].0 == kk by {
        let i = choose|i: int| 0 <= i < s.len() && s[i].0 == kk;
        assert(i != 0);
        assert(t[i - 1].0 == kk);
    }
}

/// Why a sidecar could not be read or written.
#[derive(Debug)]
pub enum CommentsError {
    /// The sidecar text is not a mapping from strings to strings.
    Parse(serde_yaml::Error),
    /// The comments could not be written as YAML.
    Emit(serde_yaml::Error),
}

/// Comments keyed by relative path (forward slashes, no trailing slash).
pub struct Comments {
    entries: Vec<(String, String)>,
    map: Ghost<Map<Seq<char>, Seq<char>>>,
}

impl View for Comments {
    type V = Map<Seq<char>, Seq<char>>;

    closed spec fn view(&self) -> Map<Seq<char>, Seq<char>> {
        self.map@
    }
}

impl Default for Comments {
    fn default() -> (r: Comments)
        ensures
            r@ == Map::<Seq<char>, Seq<char>>::empty(),
    {
        Comments::new()
    }
}

impl Comments {
    #[verifier::type_invariant]
    spec fn inv(self) -> bool {
        &&& lists_map(pair_views(self.entries@), self.map@)
        &&& keys_trimmed(self.map@)
    }

    /// No comments at all.
    pub fn new() -> (r: Comments)
        ensures
            r@ == Map::<Seq<char>, Seq<char>>::empty(),
    {
        Comments { entries: Vec::new(), map: Ghost(Map::empty()) }
    }

    /// The comment recorded for `rel_path`, if there is one.
    pub fn get(&self, rel_path: &str) -> (r: Option<&str>)
        ensures
            r is Some <==> self@.contains_key(rel_path@),
            r matches Some(c) ==> c@ == self@[rel_path@],
    {
        proof {
            use_type_invariant(self);
        }
        let ghost v = pair_views(self.entries@);
        let mut i: usize = 0;
        while i < self.entries.len()
            invariant
                v == pair_views(self.entries@),
                lists_map(v, self.map@),
                i <= self.entries.len(),
                forall|j: int| 0 <= j < i ==> v[j].0 != rel_path@,
            decreases self.entries.len() - i,
        {
            proof {
                assert(v[i as int] == (self.entries@[i as int].0@, self.entries@[i as int].1@));
            }
            if str_eq(self.entries[i].0.as_str(), rel_path) {
                let r = self.entries[i].1.as_str();
                assert(v[i as int].0 == rel_path@);
                assert(self.map@.contains_key(v[i as int].0));
                assert(r@ == v[i as int].1);
                return Some(r);
            }
            i += 1;
        }
        proof {
            if self.map@.contains_key(rel_path@) {
                let j = choose|j: int| 0 <= j < v.len() && v[j].0 == rel_path@;
                assert(v[j].0 != rel_path@);
            }
        }
        None
    }

    /// The position at which `key` belongs: every earlier key is smaller,
    /// and the key at the position, if any, is not.
    fn position(entries: &Vec<(String, String)>, key: &str) -> (p: usize)
        requires
            keys_increasing(pair_views(entries@)),
        ensures
            p <= entries.len(),
            forall|j: int| 0 <= j < p ==> lex_lt(#[trigger] entries@[j].0@, key@),
            p < entries.len() ==> !lex_lt(entries@[p as int].0@, key@),
    {
        let mut i: usize = 0;
        while i < entries.len()
            invariant
                i <= entries.len(),
                forall|j: int| 0 <= j < i ==> lex_lt(#[trigger] entries@[j].0@, key@),
            decreases entries.len() - i,
        {
            if !str_less(entries[i].0.as_str(), key) {
                return i;
            }
            i += 1;
        }
        i
    }

    /// Records `comment` under `key` (taken as it is) in a sorted list.
    fn record(
        entries: &mut Vec<(String, String)>,
        Ghost(m): Ghost<Map<Seq<char>, Seq<char>>>,
        key: String,
        comment: String,
    )
        requires
            lists_map(pair_views(old(entries)@), m),
        ensures
            lists_map(pair_views(final(entries)@), m.insert(key@, comment@)),
    {
        let ghost k = key@;
        let ghost c = comment@;
        let ghost v = pair_views(entries@);
        let p = Self::position(entries, key.as_str());
        if p < entries.len() && str_eq(entries[p].0.as_str(), key.as_str()) {
            entries.set(p, (key, comment));
            proof {
                let v2 = pair_views(entries@);
                assert(v2 =~= v.update(p as int, (k, c)));
                let m2 = m.insert(k, c);
                assert forall|i: int, j: int| 0 <= i < j < v2.len() implies lex_lt(
                    #[trigger] v2[i].0,
                    #[trigger] v2[j].0,
                ) by {
                    assert(v[i].0 == v2[i].0 && v[j].0 == v2[j].0);
                }
                assert forall|i: int| 0 <= i < v2.len() implies m2.contains_key(
                    #[trigger] v2[i].0,
                ) && m2[v2[i].0] == v2[i].1 by {
                    if i != p {
                        if i < p {
                            assert(lex_lt(v[i].0, v[p as int].0));
                        } else {
                            assert(lex_lt(v[p as int].0, v[i].0));
                        }
                        lemma_lex_lt_irreflexive(v[i].0);
                    }
                }
                assert forall|kk: Seq<char>| #[trigger] m2.contains_key(kk) implies exists|i: int|
                    0 <= i < v2.len() && v2[i].0 == kk by {
                    if kk != k {
                        let i = choose|i: int| 0 <= i < v.len() && v[i].0 == kk;
                        assert(v2[i].0 == kk);
                    } else {
                        assert(v2[p as int].0 == kk);
                    }
                }
            }
        } else {
            entries.insert(p, (key, comment));
            proof {
                let v2 = pair_views(entries@);
                assert(v2 =~= v.insert(p as int, (k, c)));
                let m2 = m.insert(k, c);
                if p < v.len() {
                    lemma_lex_lt_total(v[p as int].0, k);
                }
                // every old key differs from the new one
                assert forall|i: int| 0 <= i < v.len() implies #[trigger] v[i].0 != k by {
                    if i < p {
                        lemma_lex_lt_irreflexive(k);
                    } else {
                        if i > p {
                            lemma_lex_lt_transitive(k, v[p as int].0, v[i].0);
                        }
                        lemma_lex_lt_irreflexive(k);
                    }
                }
                assert forall|i: int, j: int| 0 <= i < j < v2.len() implies lex_lt(
                    #[trigger] v2[i].0,
                    #[trigger] v2[j].0,
                ) by {
                    if j < p {
                        assert(v2[i] == v[i] && v2[j] == v[j]);
                    } else if j == p {
                        assert(v2[i] == v[i]);
                    } else if i == p {
                        assert(v2[j] == v[j - 1]);
                        if j - 1 > p {
                            lemma_lex_lt_transitive(k, v[p as int].0, v[j - 1].0);
                        }
                    } else if i < p {
                        assert(v2[i] == v[i] && v2[j] == v[j - 1]);
                    } else {
                        assert(v2[i] == v[i - 1] && v2[j] == v[j - 1]);
                    }
                }
                assert forall|i: int| 0 <= i < v2.len() implies m2.contains_key(
                    #[trigger] v2[i].0,
                ) && m2[v2[i].0] == v2[i].1 by {
                    if i < p {
                        assert(v2[i] == v[i]);
                    } else if i > p {
                        assert(v2[i] == v[i - 1]);
                    }
                }
                assert forall|kk: Seq<char>| #[trigger] m2.contains_key(kk) implies exists|i: int|
                    0 <= i < v2.len() && v2[i].0 == kk by {
                    if kk != k {
                        let i = choose|i: int| 0 <= i < v.len() && v[i].0 == kk;
                        if i < p {
                            assert(v2[i].0 == kk);
                        } else {
                            assert(v2[i + 1].0 == kk);
                        }
                    } else {
                        assert(v2[p as int].0 == kk);
                    }
                }
            }
        }
    }

    /// The recorded pairs, sorted by path.
    pub fn entries(&self) -> (r: Vec<(String, String)>)
        ensures
            lists_map(pair_views(r@), self@),
            pair_views(r@) == sorted_pairs(self@),
            keys_trimmed(self@),
            recorded(pair_views(r@)) == self@,
    {
        proof {
            use_type_invariant(self);
        }
        let mut r: Vec<(String, String)> = Vec::new();
        let mut i: usize = 0;
        while i < self.entries.len()
            invariant
                i <= self.entries.len(),
                r@.len() == i,
                pair_views(r@) == pair_views(self.entries@).subrange(0, i as int),
            decreases self.entries.len() - i,
        {
            let k = self.entries[i].0.clone();
            let c = self.entries[i].1.clone();
            let ghost old_r = r@;
            r.push((k, c));
            proof {
                let w = pair_views(self.entries@);
                assert(pair_views(r@)[i as int] == w[i as int]);
                assert forall|j: int| 0 <= j < i implies pair_views(r@)[j] == #[trigger] w[j] by {
                    assert(r@[j] == old_r[j]);
                    assert(pair_views(old_r)[j] == w.subrange(0, i as int)[j]);
                }
            }
            i += 1;
            assert(pair_views(r@) =~= pair_views(self.entries@).subrange(0, i as int));
        }
        proof {
            assert(pair_views(r@) =~= pair_views(self.entries@));
            lemma_lists_map_unique(pair_views(r@), sorted_pairs(self@), self@);
            lemma_recorded_of_listing(pair_views(r@), self@);
        }
        r
    }

    /// Comments holding the given pairs, each recorded in turn under its path
    /// without trailing slashes (a later pair wins over an earlier one).
    pub fn from_entries(pairs: Vec<(String, String)>) -> (r: Comments)
        ensures
            r@ == recorded(pair_views(pairs@)),
    {
        let mut c = Comments::new();
        let ghost v = pair_views(pairs@);
        let mut i: usize = 0;
        assert(v.subrange(0, 0) =~= Seq::<(Seq<char>, Seq<char>)>::empty());
        while i < pairs.len()
            invariant
                v == pair_views(pairs@),
                i <= pairs.len(),
                c@ == recorded(v.subrange(0, i as int)),
            decreases pairs.len() - i,
        {
            let comment = pairs[i].1.clone();
            c.set(pairs[i].0.as_str(), comment);
            proof {
                assert(v.subrange(0, i + 1).drop_last() =~= v.subrange(0, i as int));
                assert(v.subrange(0, i + 1).last() == v[i as int]);
            }
            i += 1;
        }
        assert(v.subrange(0, pairs.len() as int) =~= v);
        c
    }

    /// Comments read from the text of a sidecar file; `None` stands for a
    /// sidecar that does not exist, which gives no comments.  Paths are
    /// recorded without trailing slashes.  A sidecar of `path: comment`
    /// lines (see `simple_mapping`) loads every line, empty comments
    /// included, as `recorded` records them.
    pub fn load(sidecar: Option<&str>) -> (r: Result<Comments, CommentsError>)
        ensures
            sidecar is None ==> r is Ok && r->Ok_0@ == Map::<Seq<char>, Seq<char>>::empty(),
            sidecar matches Some(t) ==> (r is Ok <==> yaml_string_map(t@) is Some),
            sidecar matches Some(t) ==> (r is Ok ==> r->Ok_0@ == recorded(yaml_string_map(t@)->0)),
            sidecar matches Some(t) ==> forall|s: Seq<(Seq<char>, Seq<char>)>, plain: Seq<bool>|
                #![trigger simple_yaml_text(s, plain)]
                simple_mapping(s, plain) && t@ == simple_yaml_text(s, plain) ==> r is Ok
                    && r->Ok_0@ == recorded(s),
            r is Err ==> r->Err_0 is Parse,
    {
        match sidecar {
            None => Ok(Comments::new()),
            Some(text) => match parse_string_map(text) {
                Ok(pairs) => Ok(Comments::from_entries(pairs)),
                Err(e) => Err(CommentsError::Parse(e)),
            },
        }
    }

    /// The sidecar text for these comments: a YAML mapping of the pairs in
    /// path order.
    pub fn to_yaml(&self) -> (r: Result<String, CommentsError>)
        ensures
            r is Ok <==> yaml_text_of_map(sorted_pairs(self@)) is Some,
            r is Ok ==> r->Ok_0@ == yaml_text_of_map(sorted_pairs(self@))->0,
            r is Err ==> r->Err_0 is Emit,
    {
        let pairs = self.entries();
        match emit_string_map(&pairs) {
            Ok(s) => Ok(s),
            Err(e) => Err(CommentsError::Emit(e)),
        }
    }

    /// Records an empty comment for `rel_path` (without trailing slashes)
    /// unless it already has one.
    pub fn add_missing(&mut self, rel_path: &str)
        ensures
            final(self)@ == (if old(self)@.contains_key(trim_trailing_slashes(rel_path@)) {
                old(self)@
            } else {
                old(self)@.insert(trim_trailing_slashes(rel_path@), Seq::<char>::empty())
            }),
    {
        let key = normalize_key(rel_path);
        if self.get(key.as_str()).is_none() {
            self.set(rel_path, String::new());
        }
    }

    /// Sets or replaces the comment for `rel_path`; a trailing slash on the
    /// path is dropped, so `src/` and `src` name the same entry.
    pub fn set(&mut self, rel_path: &str, comment: String)
        ensures
            final(self)@ == old(self)@.insert(trim_trailing_slashes(rel_path@), comment@),
    {
        proof {
            use_type_invariant(&*self);
        }
        let key = normalize_key(rel_path);
        let mut taken = Comments::new();
        std::mem::swap(&mut taken, self);
        let Comments { entries: mut entries, map: Ghost(m) } = taken;
        Self::record(&mut entries, Ghost(m), key, comment);
        proof {
            lemma_trim_idempotent(rel_path@);
        }
        *self = Comments { entries, map: Ghost(m.insert(trim_trailing_slashes(rel_path@), comment@)) };
    }
}

/// The relative paths of the entries `kids[i..]` and of everything below
/// them, depth first.
pub open spec fn descendant_paths(kids: Seq<Node>, i: int) -> Seq<Seq<char>>
    decreases kids, kids.len() - i,
{
    if i < 0 || i >= kids.len() {
        Seq::empty()
    } else {
        seq![kids[i].rel_path@] + descendant_paths(kids[i].children@, 0) + descendant_paths(
            kids,
            i + 1,
        )
    }
}

/// Appends the relative paths of `kids` and of everything below them.
fn collect_paths(kids: &Vec<Node>, out: &mut Vec<String>)
    ensures
        final(out)@.map_values(|s: String| s@) == old(out)@.map_values(|s: String| s@)
            + descendant_paths(kids@, 0),
    decreases kids@,
{
    let ghost start = out@.map_values(|s: String| s@);
    let mut i: usize = 0;
    while i < kids.len()
        invariant
            i <= kids.len(),
            start + descendant_paths(kids@, 0) == out@.map_values(|s: String| s@)
                + descendant_paths(kids@, i as int),
        decreases kids.len() - i,
    {
        let child = &kids[i];
        let ghost before = out@.map_values(|s: String| s@);
        let ghost old_out = out@;
        out.push(child.rel_path.clone());
        proof {
            assert(out@.map_values(|s: String| s@) =~= before + seq![child.rel_path@]) by {
                assert(out@ == old_out.push(child.rel_path));
                assert forall|j: int| 0 <= j < old_out.len() implies out@[j] == old_out[j] by {}
            }
            assert(decreases_to!(kids@ => child.children@));
        }
        collect_paths(&child.children, out);
        proof {
            let sub = descendant_paths(kids@[i as int].children@, 0);
            let rest = descendant_paths(kids@, i + 1);
            assert(descendant_paths(kids@, i as int) == seq![child.rel_path@] + sub + rest);
            assert(before + (seq![child.rel_path@] + sub + rest) =~= (before + seq![child.rel_path@] + sub) + rest);
        }
        i += 1;
    }
    assert(descendant_paths(kids@, i as int) =~= Seq::<Seq<char>>::empty());
    assert(out@.map_values(|s: String| s@) + Seq::<Seq<char>>::empty() =~= out@.map_values(|s: String| s@));
}

/// An empty comment for every entry below the root of `root` (paths taken
/// without trailing slashes), as `init` seeds the sidecar.
pub fn init_comments(root: &Node) -> (r: Comments)
    ensures
        forall|k: Seq<char>|
            r@.contains_key(k) <==> exists|j: int|
                0 <= j < descendant_paths(root.children@, 0).len()
                    && trim_trailing_slashes(#[trigger] descendant_paths(root.children@, 0)[j]) == k,
        forall|k: Seq<char>| #[trigger] r@.contains_key(k) ==> r@[k] == Seq::<char>::empty(),
{
    let mut paths: Vec<String> = Vec::new();
    collect_paths(&root.children, &mut paths);
    let ghost ps = descendant_paths(root.children@, 0);
    assert(paths@.map_values(|s: String| s@) =~= ps);
    let mut c = Comments::new();
    let mut i: usize = 0;
    while i < paths.len()
        invariant
            i <= paths.len(),
            paths@.map_values(|s: String| s@) == ps,
            forall|k: Seq<char>|
                c@.contains_key(k) <==> exists|j: int|
                    0 <= j < i && trim_trailing_slashes(#[trigger] ps[j]) == k,
            forall|k: Seq<char>| #[trigger] c@.contains_key(k) ==> c@[k] == Seq::<char>::empty(),
        decreases paths.len() - i,
    {
        let ghost old_map = c@;
        c.set(paths[i].as_str(), String::new());
        proof {
            assert(ps[i as int] == paths@[i as int]@);
            assert forall|k: Seq<char>|
                c@.contains_key(k) <==> exists|j: int|
                    0 <= j < i + 1 && trim_trailing_slashes(#[trigger] ps[j]) == k by {
                if c@.contains_key(k) && k != trim_trailing_slashes(ps[i as int]) {
                    assert(old_map.contains_key(k));
                }
                if exists|j: int| 0 <= j < i + 1 && trim_trailing_slashes(#[trigger] ps[j]) == k {
                    let j = choose|j: int| 0 <= j < i + 1 && trim_trailing_slashes(#[trigger] ps[j]) == k;
                    if j < i {
                        assert(old_map.contains_key(k));
                    }
                }
            }
        }
        i += 1;
    }
    c
}

} // verus!
