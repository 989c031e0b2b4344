//! Decoding spike buffers back into words.
//!
//! A decoder maps neuron indices to words. Decoding counts the spikes of
//! each neuron in a buffer: the words of neurons that spiked often enough,
//! or each word with the number of its spikes.

use vstd::prelude::*;
use std::collections::HashMap;
use crate::substrate::SpikeBuffer;

verus! {

broadcast use vstd::std_specs::hash::group_hash_axioms;

/// How often `x` occurs in `s`.
pub open spec fn count_in<T>(s: Seq<T>, x: T) -> nat
    decreases s.len(),
{
    if s.len() == 0 {
        0
    } else {
        count_in(s.drop_last(), x) + if s.last() == x { 1nat } else { 0nat }
    }
}

/// The distinct items of `s` in the order of their first occurrence.
pub open spec fn first_seen<T>(s: Seq<T>) -> Seq<T>
    decreases s.len(),
{
    if s.len() == 0 {
        Seq::empty()
    } else {
        let p = first_seen(s.drop_last());
        if p.contains(s.last()) { p } else { p.push(s.last()) }
    }
}

/// No item occurs twice in `s`.
pub open spec fn no_repeats<T>(s: Seq<T>) -> bool {
    forall|a: int, b: int| 0 <= a < b < s.len() ==> #[trigger] s[a] != #[trigger] s[b]
}

/// `first_seen` holds each item of `s` once.
pub proof fn lemma_first_seen<T>(s: Seq<T>)
    ensures
        no_repeats(first_seen(s)),
        forall|x: T| #[trigger] first_seen(s).contains(x) <==> s.contains(x),
        first_seen(s).len() <= s.len(),
    decreases s.len(),
{
    if s.len() > 0 {
        let d = s.drop_last();
        lemma_first_seen(d);
        let p = first_seen(d);
        let l = s.last();
        assert forall|x: T| #[trigger] first_seen(s).contains(x) <==> s.contains(x) by {
            if x == l {
                assert(s[s.len() - 1] == x);
                if !p.contains(l) {
                    assert(first_seen(s)[p.len() as int] == x);
                }
            } else {
                if s.contains(x) {
                    let i = choose|i: int| 0 <= i < s.len() && s[i] == x;
                    assert(i < s.len() - 1);
                    assert(d[i] == x);
                    assert(p.contains(x));
                    let j = choose|j: int| 0 <= j < p.len() && p[j] == x;
                    assert(first_seen(s)[j] == x);
                }
                if first_seen(s).contains(x) {
                    let j = choose|j: int| 0 <= j < first_seen(s).len() && first_seen(s)[j] == x;
                    assert(j < p.len());
                    assert(p[j] == x);
                    assert(p.contains(x));
                    assert(d.contains(x));
                    let i = choose|i: int| 0 <= i < d.len() && d[i] == x;
                    assert(s[i] == x);
                }
            }
        }
        if !p.contains(l) {
            assert forall|a: int, b: int| 0 <= a < b < first_seen(s).len() implies
                #[trigger] first_seen(s)[a] != #[trigger] first_seen(s)[b] by {
                if b == p.len() {
                    assert(first_seen(s)[a] == p[a]);
                    assert(first_seen(s)[b] == l);
                }
            }
        }
    }
}

/// An item absent from `s` occurs 0 times, and no item occurs more often
/// than `s` is long.
pub proof fn lemma_count_in<T>(s: Seq<T>, x: T)
    ensures
        !s.contains(x) ==> count_in(s, x) == 0,
        count_in(s, x) <= s.len(),
    decreases s.len(),
{
    if s.len() > 0 {
        let d = s.drop_last();
        lemma_count_in(d, x);
        if !s.contains(x) {
            assert(!d.contains(x)) by {
                if d.contains(x) {
                    let i = choose|i: int| 0 <= i < d.len() && d[i] == x;
                    assert(s[i] == x);
                }
            }
            assert(s.last() != x) by {
                if s.last() == x {
                    assert(s[s.len() - 1] == x);
                }
            }
        }
    }
}

/// The words of the neurons in `ds`, in order, that spiked at least `min`
/// times in `s` and have a word.
pub open spec fn words_for(m: Map<usize, Seq<char>>, min: nat, s: Seq<u32>, ds: Seq<u32>) -> Seq<Seq<char>>
    decreases ds.len(),
{
    if ds.len() == 0 {
        Seq::empty()
    } else {
        let n = ds.last();
        words_for(m, min, s, ds.drop_last()) + if count_in(s, n) >= min && m.contains_key(n as usize) {
            seq![m[n as usize]]
        } else {
            Seq::<Seq<char>>::empty()
        }
    }
}

/// The decoded words of a spike sequence: the words of the neurons that
/// spiked at least `min` times, in the order of each neuron's first spike.
pub open spec fn decoded_words(m: Map<usize, Seq<char>>, min: nat, s: Seq<u32>) -> Seq<Seq<char>> {
    words_for(m, min, s, first_seen(s))
}

/// The word of each spike whose neuron has one, in spike order.
pub open spec fn spike_words(m: Map<usize, Seq<char>>, s: Seq<u32>) -> Seq<Seq<char>>
    decreases s.len(),
{
    if s.len() == 0 {
        Seq::empty()
    } else {
        let n = s.last();
        spike_words(m, s.drop_last()) + if m.contains_key(n as usize) {
            seq![m[n as usize]]
        } else {
            Seq::<Seq<char>>::empty()
        }
    }
}

/// Neuron `n` spiked at least `min` times in `s` and has the word `w`.
pub open spec fn yields_word(m: Map<usize, Seq<char>>, min: nat, s: Seq<u32>, n: u32, w: Seq<char>) -> bool {
    &&& count_in(s, n) >= min
    &&& m.contains_key(n as usize)
    &&& m[n as usize] == w
}

/// The words collected for the neurons `ds` are those of the neurons in `ds`
/// that yield a word.
proof fn lemma_words_for_contains(m: Map<usize, Seq<char>>, min: nat, s: Seq<u32>, ds: Seq<u32>, w: Seq<char>)
    ensures
        words_for(m, min, s, ds).contains(w)
            <==> exists|i: int| 0 <= i < ds.len() && #[trigger] yields_word(m, min, s, ds[i], w),
    decreases ds.len(),
{
    if ds.len() > 0 {
        let p = ds.drop_last();
        let n = ds.last();
        lemma_words_for_contains(m, min, s, p, w);
        let before = words_for(m, min, s, p);
        let tail = if count_in(s, n) >= min && m.contains_key(n as usize) {
            seq![m[n as usize]]
        } else {
            Seq::<Seq<char>>::empty()
        };
        let all = words_for(m, min, s, ds);
        assert(all == before + tail);
        if all.contains(w) {
            let k = choose|k: int| 0 <= k < all.len() && all[k] == w;
            if k < before.len() {
                assert(before[k] == w);
                assert(before.contains(w));
                let i = choose|i: int| 0 <= i < p.len() && #[trigger] yields_word(m, min, s, p[i], w);
                assert(ds[i] == p[i]);
                assert(yields_word(m, min, s, ds[i], w));
            } else {
                assert(yields_word(m, min, s, ds[ds.len() - 1], w));
            }
        }
        if exists|i: int| 0 <= i < ds.len() && #[trigger] yields_word(m, min, s, ds[i], w) {
            let i = choose|i: int| 0 <= i < ds.len() && #[trigger] yields_word(m, min, s, ds[i], w);
            if i < ds.len() - 1 {
                assert(p[i] == ds[i]);
                assert(yields_word(m, min, s, p[i], w));
                assert(before.contains(w));
                let k = choose|k: int| 0 <= k < before.len() && before[k] == w;
                assert(all[k] == w);
            } else {
                assert(tail == seq![w]);
                assert(all[before.len() as int] == w);
            }
        }
    }
}

/// Decoding gives a word exactly when some neuron that spiked at least the
/// minimum number of times has it.
pub proof fn lemma_decoded_words_are_the_spiking_words(m: Map<usize, Seq<char>>, min: nat, s: Seq<u32>, w: Seq<char>)
    ensures
        decoded_words(m, min, s).contains(w)
            <==> exists|n: u32| s.contains(n) && #[trigger] yields_word(m, min, s, n, w),
{
    let ds = first_seen(s);
    lemma_first_seen(s);
    lemma_words_for_contains(m, min, s, ds, w);
    if decoded_words(m, min, s).contains(w) {
        let i = choose|i: int| 0 <= i < ds.len() && #[trigger] yields_word(m, min, s, ds[i], w);
        assert(ds.contains(ds[i]));
        assert(s.contains(ds[i]));
    }
    if exists|n: u32| s.contains(n) && #[trigger] yields_word(m, min, s, n, w) {
        let n = choose|n: u32| s.contains(n) && #[trigger] yields_word(m, min, s, n, w);
        assert(ds.contains(n));
        let i = choose|i: int| 0 <= i < ds.len() && ds[i] == n;
        assert(yields_word(m, min, s, ds[i], w));
    }
}

/// Each word with the number of its spikes, in the order of first occurrence.
pub open spec fn word_tally(m: Map<usize, Seq<char>>, s: Seq<u32>) -> Seq<(Seq<char>, nat)> {
    let ws = spike_words(m, s);
    first_seen(ws).map_values(|w: Seq<char>| (w, count_in(ws, w)))
}

/// A word and its count as plain values.
pub open spec fn pair_view(p: (String, usize)) -> (Seq<char>, nat) {
    (p.0@, p.1 as nat)
}

/// `out` lists the pairs of `tally` in the order `perm`, each once, most
/// frequent first; pairs of equal count keep their order in `tally`.
pub open spec fn sorted_tally(out: Seq<(String, usize)>, tally: Seq<(Seq<char>, nat)>, perm: Seq<int>) -> bool {
    &&& perm.len() == tally.len()
    &&& out.len() == tally.len()
    &&& forall|k: int| 0 <= k < perm.len() ==> 0 <= #[trigger] perm[k] < tally.len() && pair_view(out[k]) == tally[perm[k]]
    &&& forall|a: int, b: int| 0 <= a < b < perm.len() ==> #[trigger] perm[a] != #[trigger] perm[b]
    &&& forall|a: int, b: int| 0 <= a < b < out.len() ==>
        (#[trigger] out[a]).1 > (#[trigger] out[b]).1 || (out[a].1 == out[b].1 && perm[a] < perm[b])
}

/// Decodes spike buffers into words.
pub struct SpikeTokenDecoder {
    neuron_to_word: HashMap<usize, String>,
    min_spike_count: usize,
}

/// The words of a neuron-to-word map as character sequences.
pub open spec fn word_map(m: Map<usize, String>) -> Map<usize, Seq<char>> {
    m.map_values(|w: String| w@)
}

/// The map after registering `entries` in order, later entries winning.
pub open spec fn with_entries(m: Map<usize, Seq<char>>, entries: Seq<(String, usize)>) -> Map<usize, Seq<char>>
    decreases entries.len(),
{
    if entries.len() == 0 {
        m
    } else {
        with_entries(m, entries.drop_last()).insert(entries.last().1, entries.last().0@)
    }
}

impl View for SpikeTokenDecoder {
    /// The word of each registered neuron, and the minimum spike count.
    type V = (Map<usize, Seq<char>>, usize);

    closed spec fn view(&self) -> (Map<usize, Seq<char>>, usize) {
        (word_map(self.neuron_to_word@), self.min_spike_count)
    }
}

impl SpikeTokenDecoder {
    /// A decoder with no words that counts a neuron once it spiked
    /// `min_spike_count` times.
    pub fn new(min_spike_count: usize) -> (d: SpikeTokenDecoder)
        ensures
            d@ == (Map::<usize, Seq<char>>::empty(), min_spike_count),
    {
        let d = SpikeTokenDecoder { neuron_to_word: HashMap::new(), min_spike_count };
        assert(word_map(d.neuron_to_word@) =~= Map::<usize, Seq<char>>::empty());
        d
    }

    /// Registers `word` for neuron `neuron_idx`, replacing an earlier word.
    pub fn register_word(&mut self, word: String, neuron_idx: usize)
        ensures
            final(self)@ == (old(self)@.0.insert(neuron_idx, word@), old(self)@.1),
    {
        let ghost w = word@;
        self.neuron_to_word.insert(neuron_idx, word);
        assert(word_map(self.neuron_to_word@) =~= word_map(old(self).neuron_to_word@).insert(neuron_idx, w));
    }

    /// Registers each `(word, neuron)` entry of a lexicon in order.
    pub fn register_lexicon(&mut self, entries: &[(String, usize)])
        ensures
            final(self)@ == (with_entries(old(self)@.0, entries@), old(self)@.1),
    {
        let mut i: usize = 0;
        while i < entries.len()
            invariant
                0 <= i <= entries@.len(),
                self@ == (with_entries(old(self)@.0, entries@.subrange(0, i as int)), old(self)@.1),
            decreases entries@.len() - i,
        {
            let (word, id) = &entries[i];
            self.register_word(word.clone(), *id);
            proof {
                let next = entries@.subrange(0, i + 1);
                assert(next.drop_last() =~= entries@.subrange(0, i as int));
                assert(next.last() == entries@[i as int]);
            }
            i += 1;
        }
        assert(entries@.subrange(0, entries@.len() as int) =~= entries@);
    }

    /// Counts the spikes of each neuron; returns the neurons in the order of
    /// their first spike, with their counts.
    fn neuron_counts(spikes: &SpikeBuffer) -> (r: (Vec<u32>, Vec<usize>))
        ensures
            r.0@ == first_seen(spikes.indices@),
            r.1@.len() == r.0@.len(),
            forall|q: int| 0 <= q < r.0@.len() ==> #[trigger] r.1@[q] == count_in(spikes.indices@, r.0@[q]),
    {
        let ghost s = spikes.indices@;
        let mut distinct: Vec<u32> = Vec::new();
        let mut counts: Vec<usize> = Vec::new();
        let mut k: usize = 0;
        while k < spikes.indices.len()
            invariant
                s == spikes.indices@,
                0 <= k <= s.len(),
                distinct@ == first_seen(s.subrange(0, k as int)),
                counts@.len() == distinct@.len(),
                forall|q: int| 0 <= q < distinct@.len() ==> #[trigger] counts@[q] == count_in(s.subrange(0, k as int), distinct@[q]),
                forall|q: int| 0 <= q < distinct@.len() ==> #[trigger] counts@[q] <= k,
            decreases s.len() - k,
        {
            let x = spikes.indices[k];
            let ghost pre = s.subrange(0, k as int);
            let ghost next = s.subrange(0, k + 1);
            proof {
                assert(next.drop_last() =~= pre);
                assert(next.last() == x);
                lemma_first_seen(pre);
            }
            let mut p: usize = 0;
            while p < distinct.len() && distinct[p] != x
                invariant
                    0 <= p <= distinct@.len(),
                    forall|q: int| 0 <= q < p ==> #[trigger] distinct@[q] != x,
                decreases distinct@.len() - p,
            {
                p += 1;
            }
            let ghost c0 = counts@;
            if p < distinct.len() {
                let c = counts[p];
                counts.set(p, c + 1);
                proof {
                    assert(first_seen(pre).contains(x)) by {
                        assert(distinct@[p as int] == x);
                    }
                    assert(distinct@ == first_seen(next));
                    assert forall|q: int| 0 <= q < distinct@.len() implies #[trigger] counts@[q] == count_in(next, distinct@[q]) by {
                        if q != p {
                            assert(distinct@[q] != x);
                        }
                    }
                }
            } else {
                distinct.push(x);
                counts.push(1);
                proof {
                    assert(!first_seen(pre).contains(x)) by {
                        if first_seen(pre).contains(x) {
                            let q = choose|q: int| 0 <= q < first_seen(pre).len() && first_seen(pre)[q] == x;
                            assert(distinct@[q] != x);
                        }
                    }
                    assert(!pre.contains(x));
                    lemma_count_in(pre, x);
                    assert(distinct@ == first_seen(next));
                    assert forall|q: int| 0 <= q < distinct@.len() implies #[trigger] counts@[q] == count_in(next, distinct@[q]) by {
                        if q < distinct@.len() - 1 {
                            assert(distinct@[q] != x) by {
                                assert(distinct@[q] == first_seen(pre)[q]);
                            }
                            assert(counts@[q] == c0[q]);
                        }
                    }
                }
            }
            k += 1;
        }
        assert(s.subrange(0, s.len() as int) =~= s);
        (distinct, counts)
    }

    /// The words of the neurons that spiked at least the minimum number of
    /// times and have a word, in the order of each neuron's first spike.
    pub fn decode_spikes(&self, spikes: &SpikeBuffer) -> (words: Vec<String>)
        ensures
            words@.map_values(|w: String| w@) == decoded_words(self@.0, self@.1 as nat, spikes.indices@),
    {
        let ghost m = self@.0;
        let ghost min = self@.1 as nat;
        let ghost s = spikes.indices@;
        let (distinct, counts) = SpikeTokenDecoder::neuron_counts(spikes);
        let mut out: Vec<String> = Vec::new();
        let mut p: usize = 0;
        while p < distinct.len()
            invariant
                m == self@.0,
                min == self@.1,
                m == word_map(self.neuron_to_word@),
                distinct@ == first_seen(s),
                counts@.len() == distinct@.len(),
                forall|q: int| 0 <= q < distinct@.len() ==> #[trigger] counts@[q] == count_in(s, distinct@[q]),
                0 <= p <= distinct@.len(),
                out@.map_values(|w: String| w@) == words_for(m, min, s, distinct@.subrange(0, p as int)),
            decreases distinct@.len() - p,
        {
            let n = distinct[p];
            let ghost ds = distinct@.subrange(0, p + 1);
            let ghost before = out@;
            proof {
                assert(ds.drop_last() =~= distinct@.subrange(0, p as int));
                assert(ds.last() == n);
            }
            if counts[p] >= self.min_spike_count {
                match self.neuron_to_word.get(&(n as usize)) {
                    Some(w) => {
                        out.push(w.clone());
                        assert(out@.map_values(|w: String| w@) =~= before.map_values(|w: String| w@).push(m[n as usize]));
                    },
                    None => {
                        assert(out@ == before);
                    },
                }
            }
            assert(out@.map_values(|w: String| w@) =~= words_for(m, min, s, ds));
            p += 1;
        }
        assert(distinct@.subrange(0, distinct@.len() as int) =~= distinct@);
        out
    }

    /// The words of the spikes with the number of spikes of each word, most
    /// frequent first; words of equal count come in the order of their first spike.
    pub fn decode_with_counts(&self, spikes: &SpikeBuffer) -> (r: Vec<(String, usize)>)
        ensures
            exists|perm: Seq<int>| #[trigger] sorted_tally(r@, word_tally(self@.0, spikes.indices@), perm),
    {
        let ghost m = self@.0;
        let ghost s = spikes.indices@;
        let mut words: Vec<String> = Vec::new();
        let mut counts: Vec<usize> = Vec::new();
        let mut k: usize = 0;
        while k < spikes.indices.len()
            invariant
                m == self@.0,
                m == word_map(self.neuron_to_word@),
                s == spikes.indices@,
                0 <= k <= s.len(),
                words@.map_values(|w: String| w@) == first_seen(spike_words(m, s.subrange(0, k as int))),
                counts@.len() == words@.len(),
                forall|q: int| 0 <= q < words@.len() ==>
                    #[trigger] counts@[q] == count_in(spike_words(m, s.subrange(0, k as int)), words@[q]@),
                forall|q: int| 0 <= q < words@.len() ==> #[trigger] counts@[q] <= k,
            decreases s.len() - k,
        {
            let n = spikes.indices[k];
            let ghost pre = s.subrange(0, k as int);
            let ghost next = s.subrange(0, k + 1);
            let ghost wpre = spike_words(m, pre);
            proof {
                assert(next.drop_last() =~= pre);
                assert(next.last() == n);
            }
            match self.neuron_to_word.get(&(n as usize)) {
                None => {
                    assert(spike_words(m, next) == wpre);
                },
                Some(w) => {
                    let ghost wv = w@;
                    let ghost wnext = spike_words(m, next);
                    proof {
                        assert(wnext == wpre.push(wv));
                        assert(wnext.drop_last() =~= wpre);
                        lemma_first_seen(wpre);
                    }
                    let ghost wviews = words@.map_values(|w: String| w@);
                    let mut p: usize = 0;
                    while p < words.len() && !(words[p] == *w)
                        invariant
                            0 <= p <= words@.len(),
                            wviews == words@.map_values(|w: String| w@),
                            wv == w@,
                            forall|q: int| 0 <= q < p ==> #[trigger] words@[q]@ != wv,
                        decreases words@.len() - p,
                    {
                        p += 1;
                    }
                    let ghost c0 = counts@;
                    if p < words.len() {
                        let c = counts[p];
                        counts.set(p, c + 1);
                        proof {
                            assert(wviews[p as int] == wv);
                            assert(first_seen(wpre).contains(wv));
                            assert(first_seen(wnext) == first_seen(wpre));
                            assert forall|q: int| 0 <= q < words@.len() implies
                                #[trigger] counts@[q] == count_in(wnext, words@[q]@) by {
                                if q != p {
                                    assert(wviews[q] != wv);
                                }
                            }
                        }
                    } else {
                        words.push(w.clone());
                        counts.push(1);
                        proof {
                            assert(!first_seen(wpre).contains(wv)) by {
                                if first_seen(wpre).contains(wv) {
                                    let q = choose|q: int| 0 <= q < first_seen(wpre).len() && first_seen(wpre)[q] == wv;
                                    assert(wviews[q] == words@[q]@);
                                }
                            }
                            assert(!wpre.contains(wv));
                            lemma_count_in(wpre, wv);
                            assert(words@.map_values(|w: String| w@) =~= wviews.push(wv));
                            assert forall|q: int| 0 <= q < words@.len() implies
                                #[trigger] counts@[q] == count_in(wnext, words@[q]@) by {
                                if q < words@.len() - 1 {
                                    assert(wviews[q] == words@[q]@);
                                    assert(words@[q]@ != wv) by {
                                        assert(wviews[q] == first_seen(wpre)[q]);
                                    }
                                    assert(counts@[q] == c0[q]);
                                }
                            }
                        }
                    }
                },
            }
            k += 1;
        }
        assert(s.subrange(0, s.len() as int) =~= s);
        let ghost ws = spike_words(m, s);
        let ghost tally = word_tally(m, s);
        let mut pairs: Vec<(String, usize)> = Vec::new();
        let mut q: usize = 0;
        while q < words.len()
            invariant
                0 <= q <= words@.len(),
                counts@.len() == words@.len(),
                words@.map_values(|w: String| w@) == first_seen(ws),
                tally == first_seen(ws).map_values(|w: Seq<char>| (w, count_in(ws, w))),
                forall|i: int| 0 <= i < words@.len() ==> #[trigger] counts@[i] == count_in(ws, words@[i]@),
                pairs@.len() == q,
                forall|i: int| 0 <= i < q ==> #[trigger] pair_view(pairs@[i]) == tally[i],
            decreases words@.len() - q,
        {
            pairs.push((words[q].clone(), counts[q]));
            proof {
                assert(first_seen(ws)[q as int] == words@[q as int]@);
            }
            q += 1;
        }
        sort_by_count(pairs, Ghost(tally))
    }
}

/// Sorts word counts most frequent first, keeping the order among equal counts.
fn sort_by_count(pairs: Vec<(String, usize)>, Ghost(tally): Ghost<Seq<(Seq<char>, nat)>>) -> (sorted: Vec<(String, usize)>)
    requires
        pairs@.len() == tally.len(),
        forall|i: int| 0 <= i < pairs@.len() ==> #[trigger] pair_view(pairs@[i]) == tally[i],
    ensures
        exists|perm: Seq<int>| #[trigger] sorted_tally(sorted@, tally, perm),
{
    let ghost orig = pairs@;
    let n = pairs.len();
    let mut rest = pairs;
    let mut sorted: Vec<(String, usize)> = Vec::new();
    let ghost mut perm: Seq<int> = Seq::empty();
    while rest.len() > 0
        invariant
            n == orig.len(),
            n == tally.len(),
            forall|i: int| 0 <= i < orig.len() ==> #[trigger] pair_view(orig[i]) == tally[i],
            rest@.len() <= n,
            rest@ == orig.subrange(0, rest@.len() as int),
            sorted@.len() == n - rest@.len(),
            perm.len() == sorted@.len(),
            forall|k: int| 0 <= k < perm.len() ==> rest@.len() <= #[trigger] perm[k] < n && sorted@[k] == orig[perm[k]],
            forall|a: int, b: int| 0 <= a < b < perm.len() ==> #[trigger] perm[a] != #[trigger] perm[b],
            forall|a: int, b: int| 0 <= a < b < sorted@.len() ==>
                (#[trigger] sorted@[a]).1 > (#[trigger] sorted@[b]).1 || (sorted@[a].1 == sorted@[b].1 && perm[a] < perm[b]),
        decreases rest@.len(),
    {
        let ghost r0 = rest@;
        let x = match rest.pop() {
            Some(x) => x,
            None => { return sorted; },
        };
        let ghost xi = (r0.len() - 1) as int;
        assert(r0 == rest@.push(x));
        assert(x == orig[xi]);
        assert(rest@ =~= orig.subrange(0, rest@.len() as int));
        let c = x.1;
        let mut pos: usize = 0;
        while pos < sorted.len() && sorted[pos].1 > c
            invariant
                0 <= pos <= sorted@.len(),
                c == x.1,
                forall|k: int| 0 <= k < pos ==> (#[trigger] sorted@[k]).1 > c,
            decreases sorted@.len() - pos,
        {
            pos += 1;
        }
        let ghost s0 = sorted@;
        let ghost p0 = perm;
        sorted.insert(pos, x);
        proof {
            perm = p0.insert(pos as int, xi);
            let s1 = sorted@;
            assert(s1 == s0.insert(pos as int, x));
            assert forall|k: int| 0 <= k < perm.len() implies rest@.len() <= #[trigger] perm[k] < n && s1[k] == orig[perm[k]] by {
                if k < pos { assert(perm[k] == p0[k]); }
                else if k > pos { assert(perm[k] == p0[k - 1]); }
            }
            assert forall|a: int, b: int| 0 <= a < b < perm.len() implies #[trigger] perm[a] != #[trigger] perm[b] by {
                if a != pos && b != pos {
                    let a0 = if a < pos { a } else { a - 1 };
                    let b0 = if b < pos { b } else { b - 1 };
                    assert(perm[a] == p0[a0] && perm[b] == p0[b0]);
                } else if a == pos {
                    assert(perm[b] == p0[b - 1]);
                } else {
                    assert(perm[a] == p0[a]);
                }
            }
            assert forall|a: int, b: int| 0 <= a < b < s1.len() implies
                (#[trigger] s1[a]).1 > (#[trigger] s1[b]).1 || (s1[a].1 == s1[b].1 && perm[a] < perm[b]) by {
                if a != pos && b != pos {
                    let a0 = if a < pos { a } else { a - 1 };
                    let b0 = if b < pos { b } else { b - 1 };
                    assert(s1[a] == s0[a0] && s1[b] == s0[b0]);
                    assert(perm[a] == p0[a0] && perm[b] == p0[b0]);
                } else if a == pos {
                    let b0 = b - 1;
                    assert(s1[b] == s0[b0]);
                    assert(perm[b] == p0[b0]);
                    assert(p0[b0] > xi);
                    if b0 > pos as int {
                        assert(s0[pos as int].1 <= c);
                    } else {
                        assert(s0[b0].1 <= c);
                    }
                } else {
                    assert(s1[a] == s0[a]);
                    assert(s0[a].1 > c);
                }
            }
        }
    }
    assert(rest@.len() == 0);
    assert forall|k: int| 0 <= k < perm.len() implies 0 <= #[trigger] perm[k] < tally.len()
        && pair_view(sorted@[k]) == tally[perm[k]] by {
        assert(sorted@[k] == orig[perm[k]]);
    }
    assert(sorted_tally(sorted@, tally, perm));
    sorted
}

} // verus!
