//! Filling a sentence template with the words of an avalanche selection.
//!
//! The template's noun, adjective, verb and location slots take the selected
//! words in order (the words of the seed clusters come first); a slot left
//! without a word gets a fixed word, or a random verb. The determiner is a
//! random pick of "der", "die", "das".

use vstd::prelude::*;
use crate::chat_types::AvalancheSelection;
use crate::random::random_u64;

verus! {

/// The determiner a draw picks: the draw modulo 3 among "der", "die", "das".
pub open spec fn det_word(d: u64) -> Seq<char> {
    let k = d % 3;
    if k == 0 { "der"@ } else if k == 1 { "die"@ } else { "das"@ }
}

/// The verb a draw picks: the draw modulo 7 among the seven fallback verbs.
pub open spec fn verb_word(d: u64) -> Seq<char> {
    let k = d % 7;
    if k == 0 { "läuft"@ }
    else if k == 1 { "springt"@ }
    else if k == 2 { "ist"@ }
    else if k == 3 { "sieht"@ }
    else if k == 4 { "schläft"@ }
    else if k == 5 { "fliegt"@ }
    else { "scheint"@ }
}

/// Slot `k` of the template: the `k`-th selected word, or the fallback.
pub open spec fn slot_word(words: Seq<Seq<char>>, k: int, fallback: Seq<char>) -> Seq<char> {
    if k < words.len() { words[k] } else { fallback }
}

/// The response for a template pattern, the selected words and two random
/// draws (the first for the determiner, the second for a fallback verb);
/// no words for an unknown pattern.
pub open spec fn response_spec(pattern: Seq<char>, words: Seq<Seq<char>>, draws: Seq<u64>) -> Seq<Seq<char>> {
    if pattern == "DET NOUN VERB"@ {
        seq![det_word(draws[0]), slot_word(words, 0, "hund"@), slot_word(words, 1, verb_word(draws[1]))]
    } else if pattern == "DET NOUN ADJ VERB"@ {
        seq![det_word(draws[0]), slot_word(words, 0, "hund"@), slot_word(words, 1, "groß"@),
            slot_word(words, 2, verb_word(draws[1]))]
    } else if pattern == "DET NOUN ADJ VERB PREP LOC"@ {
        seq![det_word(draws[0]), slot_word(words, 0, "hund"@), slot_word(words, 1, "groß"@),
            slot_word(words, 2, verb_word(draws[1])), "in"@, slot_word(words, 3, "haus"@)]
    } else {
        Seq::empty()
    }
}

/// The random picks: the determiner is "der", "die" or "das" as the draw
/// modulo 3 is 0, 1 or 2, and the fallback verb the draw modulo 7 in the list
/// "läuft", "springt", "ist", "sieht", "schläft", "fliegt", "scheint".
pub proof fn lemma_pick_tables(d: u64)
    ensures
        d % 3 == 0 ==> det_word(d) == "der"@,
        d % 3 == 1 ==> det_word(d) == "die"@,
        d % 3 == 2 ==> det_word(d) == "das"@,
        d % 7 == 0 ==> verb_word(d) == "läuft"@,
        d % 7 == 1 ==> verb_word(d) == "springt"@,
        d % 7 == 2 ==> verb_word(d) == "ist"@,
        d % 7 == 3 ==> verb_word(d) == "sieht"@,
        d % 7 == 4 ==> verb_word(d) == "schläft"@,
        d % 7 == 5 ==> verb_word(d) == "fliegt"@,
        d % 7 == 6 ==> verb_word(d) == "scheint"@,
{
}

/// A template's word slots take the selected words in order, one word each,
/// and a slot falls back only once the words have run out: the noun slot to
/// "hund", the adjective slot to "groß", the verb slot to the verb of the
/// second draw, the location slot to "haus". The response starts with the
/// determiner of the first draw; the six-slot template has "in" before the
/// location. Any other pattern gives no words.
pub proof fn lemma_response_slots(pattern: Seq<char>, words: Seq<Seq<char>>, draws: Seq<u64>)
    requires
        draws.len() >= 2,
    ensures
        ({
            let r = response_spec(pattern, words, draws);
            &&& pattern == "DET NOUN VERB"@ ==> {
                let content = seq![r[1], r[2]];
                let fallback = seq!["hund"@, verb_word(draws[1])];
                &&& r.len() == 3
                &&& r[0] == det_word(draws[0])
                &&& forall|k: int| 0 <= k < 2 ==> #[trigger] content[k] == (if k < words.len() { words[k] } else { fallback[k] })
            }
            &&& pattern == "DET NOUN ADJ VERB"@ ==> {
                let content = seq![r[1], r[2], r[3]];
                let fallback = seq!["hund"@, "groß"@, verb_word(draws[1])];
                &&& r.len() == 4
                &&& r[0] == det_word(draws[0])
                &&& forall|k: int| 0 <= k < 3 ==> #[trigger] content[k] == (if k < words.len() { words[k] } else { fallback[k] })
            }
            &&& pattern == "DET NOUN ADJ VERB PREP LOC"@ ==> {
                let content = seq![r[1], r[2], r[3], r[5]];
                let fallback = seq!["hund"@, "groß"@, verb_word(draws[1]), "haus"@];
                &&& r.len() == 6
                &&& r[0] == det_word(draws[0])
                &&& r[4] == "in"@
                &&& forall|k: int| 0 <= k < 4 ==> #[trigger] content[k] == (if k < words.len() { words[k] } else { fallback[k] })
            }
            &&& (pattern != "DET NOUN VERB"@ && pattern != "DET NOUN ADJ VERB"@
                && pattern != "DET NOUN ADJ VERB PREP LOC"@) ==> r.len() == 0
        }),
{
    reveal_strlit("DET NOUN VERB");
    reveal_strlit("DET NOUN ADJ VERB");
    reveal_strlit("DET NOUN ADJ VERB PREP LOC");
    assert("DET NOUN VERB"@.len() != "DET NOUN ADJ VERB"@.len());
    assert("DET NOUN VERB"@.len() != "DET NOUN ADJ VERB PREP LOC"@.len());
    assert("DET NOUN ADJ VERB"@.len() != "DET NOUN ADJ VERB PREP LOC"@.len());
}

/// Strings as character sequences.
pub open spec fn words_text(v: Seq<String>) -> Seq<Seq<char>> {
    v.map_values(|s: String| s@)
}

/// An owned copy of a string slice.
fn owned_str(s: &str) -> (r: String)
    ensures
        r@ == s@,
{
    String::from_str(s)
}

/// The determiner a draw picks.
fn det_of(d: u64) -> (r: String)
    ensures
        r@ == det_word(d),
{
    let k = d % 3;
    if k == 0 { owned_str("der") } else if k == 1 { owned_str("die") } else { owned_str("das") }
}

/// The verb a draw picks.
fn verb_of(d: u64) -> (r: String)
    ensures
        r@ == verb_word(d),
{
    let k = d % 7;
    if k == 0 { owned_str("läuft") }
    else if k == 1 { owned_str("springt") }
    else if k == 2 { owned_str("ist") }
    else if k == 3 { owned_str("sieht") }
    else if k == 4 { owned_str("schläft") }
    else if k == 5 { owned_str("fliegt") }
    else { owned_str("scheint") }
}

/// Slot `k`: a copy of the `k`-th word, or the fallback.
fn slot_of(words: &Vec<String>, k: usize, fallback: String) -> (r: String)
    ensures
        r@ == slot_word(words_text(words@), k as int, fallback@),
{
    if k < words.len() { words[k].clone() } else { fallback }
}

/// The words of the response for the given draws (the first picks the
/// determiner, the second a fallback verb).
pub fn response_words(selection: &AvalancheSelection, draws: &[u64]) -> (r: Vec<String>)
    requires
        draws@.len() >= 2,
    ensures
        words_text(r@) == response_spec(selection.template_pattern@, words_text(selection.selected_words@), draws@),
{
    let ghost ws = words_text(selection.selected_words@);
    let words = &selection.selected_words;
    let mut r: Vec<String> = Vec::new();
    let p1 = owned_str("DET NOUN VERB");
    let p2 = owned_str("DET NOUN ADJ VERB");
    let p3 = owned_str("DET NOUN ADJ VERB PREP LOC");
    if selection.template_pattern == p1 {
        r.push(det_of(draws[0]));
        r.push(slot_of(words, 0, owned_str("hund")));
        r.push(slot_of(words, 1, verb_of(draws[1])));
    } else if selection.template_pattern == p2 {
        r.push(det_of(draws[0]));
        r.push(slot_of(words, 0, owned_str("hund")));
        r.push(slot_of(words, 1, owned_str("groß")));
        r.push(slot_of(words, 2, verb_of(draws[1])));
    } else if selection.template_pattern == p3 {
        r.push(det_of(draws[0]));
        r.push(slot_of(words, 0, owned_str("hund")));
        r.push(slot_of(words, 1, owned_str("groß")));
        r.push(slot_of(words, 2, verb_of(draws[1])));
        r.push(owned_str("in"));
        r.push(slot_of(words, 3, owned_str("haus")));
    }
    assert(words_text(r@) =~= response_spec(selection.template_pattern@, ws, draws@));
    r
}

/// Builds a response from a selection by filling its template's slots, with
/// random picks for the determiner and a missing verb. Whatever the draws,
/// the response is the one for some two draws.
pub fn build_response_from_selection(selection: &AvalancheSelection) -> (r: Vec<String>)
    ensures
        exists|draws: Seq<u64>| #[trigger] draws.len() == 2
            && words_text(r@) == response_spec(selection.template_pattern@, words_text(selection.selected_words@), draws),
{
    let mut draws: Vec<u64> = Vec::new();
    draws.push(random_u64());
    draws.push(random_u64());
    let r = response_words(selection, draws.as_slice());
    assert(draws@.len() == 2);
    r
}

} // verus!
