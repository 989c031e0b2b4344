//! Fixed training material for semantic acquisition: sentence fragments
//! and contrastive word triples.

use vstd::prelude::*;

verus! {

/// The sentence fragments of level 2, word by word.
pub open spec fn level2_text() -> Seq<Seq<Seq<char>>> {
    seq![
        seq!["der"@, "hund"@, "läuft"@],
        seq!["die"@, "katze"@, "springt"@],
        seq!["ein"@, "tier"@, "atmet"@],
        seq!["der"@, "hund"@, "bellt"@],
    ]
}

/// The contrastive triples: anchor, positive, negative.
pub open spec fn contrastive_text() -> Seq<(Seq<char>, Seq<char>, Seq<char>)> {
    seq![
        ("hund"@, "hündisch"@, "tisch"@),
        ("katze"@, "kätzchen"@, "auto"@),
        ("tier"@, "lebewesen"@, "stein"@),
    ]
}

/// A list of strings as character sequences.
pub open spec fn strings_text(v: Seq<String>) -> Seq<Seq<char>> {
    v.map_values(|s: String| s@)
}

/// An owned copy of a string slice.
fn owned(s: &str) -> (r: String)
    ensures
        r@ == s@,
{
    String::from_str(s)
}

/// The three words as owned strings.
fn three(a: &str, b: &str, c: &str) -> (r: Vec<String>)
    ensures
        strings_text(r@) == seq![a@, b@, c@],
{
    let mut r: Vec<String> = Vec::new();
    r.push(owned(a));
    r.push(owned(b));
    r.push(owned(c));
    assert(strings_text(r@) =~= seq![a@, b@, c@]);
    r
}

/// Generates the synthetic training material.
pub struct SemanticCurriculum;

impl SemanticCurriculum {
    /// Level 2: sequential associations, as sentence fragments.
    pub fn level2_sequences() -> (r: Vec<Vec<String>>)
        ensures
            r@.map_values(|row: Vec<String>| strings_text(row@)) == level2_text(),
    {
        let mut r: Vec<Vec<String>> = Vec::new();
        r.push(three("der", "hund", "läuft"));
        r.push(three("die", "katze", "springt"));
        r.push(three("ein", "tier", "atmet"));
        r.push(three("der", "hund", "bellt"));
        assert(r@.map_values(|row: Vec<String>| strings_text(row@)) =~= level2_text());
        r
    }

    /// Anchor, positive and negative words for contrastive learning.
    pub fn contrastive_pairs() -> (r: Vec<(String, String, String)>)
        ensures
            r@.map_values(|t: (String, String, String)| (t.0@, t.1@, t.2@)) == contrastive_text(),
    {
        let mut r: Vec<(String, String, String)> = Vec::new();
        r.push((owned("hund"), owned("hündisch"), owned("tisch")));
        r.push((owned("katze"), owned("kätzchen"), owned("auto")));
        r.push((owned("tier"), owned("lebewesen"), owned("stein")));
        assert(r@.map_values(|t: (String, String, String)| (t.0@, t.1@, t.2@)) =~= contrastive_text());
        r
    }
}

} // verus!
