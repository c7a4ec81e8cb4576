//! The sidecar's YAML syntax, read and written by `serde_yaml`.
use vstd::prelude::*;

use crate::comments::{keys_increasing, pair_views};

verus! {

#[verifier::external_type_specification]
#[verifier::external_body]
pub struct ExYamlError(serde_yaml::Error);

/// The string-to-string mapping that `serde_yaml` reads from `text`, pairs in
/// increasing key order, or `None` where it rejects the text.
pub uninterp spec fn yaml_string_map(text: Seq<char>) -> Option<Seq<(Seq<char>, Seq<char>)>>;

/// The YAML text that `serde_yaml` writes for the mapping holding `pairs`,
/// or `None` where it reports an error.
pub uninterp spec fn yaml_text_of_map(pairs: Seq<(Seq<char>, Seq<char>)>) -> Option<Seq<char>>;

/// A character that YAML reads as itself in a bare word: an ASCII letter or
/// digit, `_`, `.`, `/` or `-`.
pub open spec fn is_word_char(c: char) -> bool {
    ||| ('a' <= c && c <= 'z')
    ||| ('A' <= c && c <= 'Z')
    ||| ('0' <= c && c <= '9')
    ||| c == '_'
    ||| c == '.'
    ||| c == '/'
    ||| c == '-'
}

/// A word that YAML reads as the string it spells when it stands bare as a
/// key or a value: 1 to 1000 word characters, starting neither with `-` nor
/// with `..`.
pub open spec fn is_plain_word(w: Seq<char>) -> bool {
    &&& 1 <= w.len() <= 1000
    &&& forall|i: int| 0 <= i < w.len() ==> is_word_char(#[trigger] w[i])
    &&& w[0] != '-'
    &&& !(w.len() >= 2 && w[0] == '.' && w[1] == '.')
}

/// A character that stands for itself between double quotes on one line:
/// printable, no line break, neither `"` nor `\`.
pub open spec fn is_quoted_char(c: char) -> bool {
    ||| (' ' <= c && c <= '~' && c != '"' && c != '\\')
    ||| ('\u{A0}' <= c && c <= '\u{D7FF}' && c != '\u{2028}' && c != '\u{2029}')
    ||| ('\u{E000}' <= c && c <= '\u{FFFD}' && c != '\u{FEFF}')
    ||| '\u{10000}' <= c
}

/// One line of a sidecar: the key, `: `, and the value, written bare where
/// `plain` holds and between double quotes otherwise.
pub open spec fn yaml_line(key: Seq<char>, value: Seq<char>, plain: bool) -> Seq<char> {
    key + seq![':', ' '] + (if plain {
        value
    } else {
        seq!['"'] + value + seq!['"']
    }) + seq!['\n']
}

/// The text made of one such line for each pair of `s`, in order, the value
/// of pair `i` bare where `plain[i]` holds.
pub open spec fn simple_yaml_text(s: Seq<(Seq<char>, Seq<char>)>, plain: Seq<bool>) -> Seq<char>
    decreases s.len(),
{
    if s.len() == 0 || plain.len() == 0 {
        Seq::empty()
    } else {
        simple_yaml_text(s.drop_last(), plain.drop_last()) + yaml_line(
            s.last().0,
            s.last().1,
            plain.last(),
        )
    }
}

/// Pairs that `simple_yaml_text(s, plain)` writes as a YAML mapping of
/// strings: at least one pair; keys bare words in strictly increasing order;
/// each value a bare word where `plain` holds, and otherwise any run of
/// quotable characters, the empty one included.
pub open spec fn simple_mapping(s: Seq<(Seq<char>, Seq<char>)>, plain: Seq<bool>) -> bool {
    &&& s.len() >= 1
    &&& plain.len() == s.len()
    &&& keys_increasing(s)
    &&& forall|i: int| 0 <= i < s.len() ==> is_plain_word(#[trigger] s[i].0)
    &&& forall|i: int|
        0 <= i < s.len() ==> (if plain[i] {
            is_plain_word(#[trigger] s[i].1)
        } else {
            forall|j: int| 0 <= j < s[i].1.len() ==> is_quoted_char(#[trigger] s[i].1[j])
        })
}

/// Calls `serde_yaml::from_str` to read `text` as a mapping from strings to
/// strings, collected into a `BTreeMap` and handed back as its pairs.
/// Claimed: the outcome depends on `text` alone (named `yaml_string_map`);
/// and a text of `key: value` lines as `simple_yaml_text` writes them, for
/// pairs that `simple_mapping` admits, is read as exactly those pairs, in
/// that order, every one kept, empty values included.  In that fragment the
/// keys are plain scalars on one line of at most 1000 characters (below
/// libyaml's limit of 1024 for a simple key), a bare value is a plain
/// scalar, a quoted value holds no escape, quote or line break, and
/// `deserialize_str` hands every scalar's text over as it stands.  Nothing
/// is claimed of which other texts it accepts or of what it reads from them.
#[verifier::external_body]
pub(crate) fn parse_string_map(text: &str) -> (r: Result<Vec<(String, String)>, serde_yaml::Error>)
    ensures
        r is Ok <==> yaml_string_map(text@) is Some,
        r matches Ok(v) ==> pair_views(v@) == yaml_string_map(text@)->0,
        forall|s: Seq<(Seq<char>, Seq<char>)>, plain: Seq<bool>|
            #![trigger simple_yaml_text(s, plain)]
            simple_mapping(s, plain) && text@ == simple_yaml_text(s, plain) ==> r is Ok
                && pair_views(r->Ok_0@) == s,
{
    match serde_yaml::from_str::<std::collections::BTreeMap<String, String>>(text) {
        Ok(m) => Ok(m.into_iter().collect()),
        Err(e) => Err(e),
    }
}

/// Calls `serde_yaml::to_string` on the `BTreeMap` that holds `pairs`;
/// the pairs are already in increasing key order without repeats, so the
/// map holds them one for one, in the same order.
/// Claimed: the outcome depends on the pairs alone (named
/// `yaml_text_of_map`); nothing is claimed of the text's shape, nor that
/// reading it back gives the pairs again.
#[verifier::external_body]
pub(crate) fn emit_string_map(pairs: &Vec<(String, String)>) -> (r: Result<String, serde_yaml::Error>)
    requires
        keys_increasing(pair_views(pairs@)),
    ensures
        r is Ok <==> yaml_text_of_map(pair_views(pairs@)) is Some,
        r matches Ok(s) ==> s@ == yaml_text_of_map(pair_views(pairs@))->0,
{
    let m: std::collections::BTreeMap<&str, &str> = pairs.iter().map(|p| (p.0.as_str(), p.1.as_str())).collect();
    serde_yaml::to_string(&m)
}

} // verus!
