//! How many pixels have each color, in the order in which colors first occur.
use vstd::prelude::*;
use std::hash::BuildHasherDefault;
use ahash::AHasher;
use indexmap::IndexMap;
use std::collections::HashMap;
use vstd::std_specs::hash::spec_hash_map_iter;
use vstd::std_specs::iter::IteratorSpec;
use material_colors::color::Argb as MaterialArgb;
use material_colors::score::Score;
use material_colors::hct::Hct;
use crate::color::{unpacked, Argb};

verus! {

/// `indexmap::IndexMap`, an insertion-ordered hash map, used opaquely.
#[verifier::external_type_specification]
#[verifier::external_body]
#[verifier::reject_recursive_types(K)]
#[verifier::reject_recursive_types(V)]
#[verifier::reject_recursive_types(S)]
pub struct ExIndexMap<K, V, S>(IndexMap<K, V, S>);

/// `ahash::AHasher`, the hasher of the population map, used opaquely.
#[verifier::external_type_specification]
#[verifier::external_body]
pub struct ExAHasher(AHasher);

/// `std::hash::BuildHasherDefault`, used opaquely.
#[verifier::external_type_specification]
#[verifier::external_body]
#[verifier::reject_recursive_types(H)]
pub struct ExBuildHasherDefault<H>(BuildHasherDefault<H>);

/// An insertion-ordered map from packed colors to pixel counts.
pub type ColorIndexMap = IndexMap<u32, u32, BuildHasherDefault<AHasher>>;

/// The (key, value) entries of an index map, in its order; what the map
/// holds, as the wrappers below describe it.
pub uninterp spec fn index_map_entries(m: ColorIndexMap) -> Seq<(u32, u32)>;

/// The keys of a sequence of entries.
pub open spec fn entry_keys(s: Seq<(u32, u32)>) -> Seq<u32> {
    s.map_values(|e: (u32, u32)| e.0)
}

/// Creates an index map with `IndexMap::with_hasher`; claims that it has no
/// entries.
#[verifier::external_body]
fn new_index_map() -> (m: ColorIndexMap)
    ensures
        index_map_entries(m) == Seq::<(u32, u32)>::empty(),
{
    IndexMap::with_hasher(BuildHasherDefault::default())
}

/// Looks `key` up with `IndexMap::get`; claims that a value returned is the
/// one an entry with that key holds, and that `None` means no entry has the
/// key.
#[verifier::external_body]
fn index_map_get(m: &ColorIndexMap, key: u32) -> (r: Option<u32>)
    ensures
        match r {
            Some(v) => exists|i: int|
                0 <= i < index_map_entries(*m).len() && #[trigger] index_map_entries(*m)[i] == (
                key,
                v,
            ),
            None => !entry_keys(index_map_entries(*m)).contains(key),
        },
{
    m.get(&key).copied()
}

/// Stores `value` for `key` with `IndexMap::insert`; claims, as its
/// documentation says, that an entry with that key keeps its place and takes
/// the new value (its old value is returned), and that otherwise the pair is
/// appended (and `None` returned).
#[verifier::external_body]
fn index_map_insert(m: &mut ColorIndexMap, key: u32, value: u32) -> (r: Option<u32>)
    ensures
        match r {
            Some(v) => exists|i: int|
                0 <= i < index_map_entries(*old(m)).len() && #[trigger] index_map_entries(
                    *old(m),
                )[i] == (key, v) && index_map_entries(*final(m)) == index_map_entries(
                    *old(m),
                ).update(i, (key, value)),
            None => !entry_keys(index_map_entries(*old(m))).contains(key) && index_map_entries(
                *final(m),
            ) == index_map_entries(*old(m)).push((key, value)),
        },
{
    m.insert(key, value)
}

/// Lists the entries with `IndexMap::iter`; claims that they come in the
/// map's order.
#[verifier::external_body]
fn index_map_to_vec(m: &ColorIndexMap) -> (v: Vec<(u32, u32)>)
    ensures
        v@ == index_map_entries(*m),
{
    m.iter().map(|(k, c)| (*k, *c)).collect()
}

/// How many times `c` occurs in `s`.
pub open spec fn count_in(s: Seq<u32>, c: u32) -> nat
    decreases s.len(),
{
    if s.len() == 0 {
        0
    } else {
        count_in(s.drop_last(), c) + if s.last() == c {
            1nat
        } else {
            0nat
        }
    }
}

/// The distinct elements of `s`, in the order in which they first occur.
pub open spec fn first_occurrences(s: Seq<u32>) -> Seq<u32>
    decreases s.len(),
{
    if s.len() == 0 {
        Seq::empty()
    } else {
        let p = first_occurrences(s.drop_last());
        if p.contains(s.last()) {
            p
        } else {
            p.push(s.last())
        }
    }
}

/// The sum of the counts of a sequence of entries.
pub open spec fn total_count(e: Seq<(u32, u32)>) -> int
    decreases e.len(),
{
    if e.len() == 0 {
        0
    } else {
        total_count(e.drop_last()) + e.last().1
    }
}

/// `e` is the population of the color sequence `s`: each color of `s` once,
/// in the order of first occurrence, with the number of times it occurs.
pub open spec fn counts_colors(e: Seq<(u32, u32)>, s: Seq<u32>) -> bool {
    &&& entry_keys(e) == first_occurrences(s)
    &&& forall|i: int| 0 <= i < e.len() ==> (#[trigger] e[i]).1 == count_in(s, e[i].0)
}

/// The population of a color sequence (see `counts_colors`, which has one
/// solution).
pub open spec fn population(s: Seq<u32>) -> Seq<(u32, u32)> {
    choose|e: Seq<(u32, u32)>| counts_colors(e, s)
}

/// A color sequence has one population.
pub proof fn lemma_counts_colors_unique(e1: Seq<(u32, u32)>, e2: Seq<(u32, u32)>, s: Seq<u32>)
    requires
        counts_colors(e1, s),
        counts_colors(e2, s),
    ensures
        e1 == e2,
{
    assert(entry_keys(e1).len() == e1.len());
    assert(entry_keys(e2).len() == e2.len());
    assert forall|i: int| 0 <= i < e1.len() implies e1[i] == e2[i] by {
        assert(entry_keys(e1)[i] == entry_keys(e2)[i]);
    }
    assert(e1 =~= e2);
}

/// Entries that count a color sequence are its population.
pub proof fn lemma_population_is(e: Seq<(u32, u32)>, s: Seq<u32>)
    requires
        counts_colors(e, s),
    ensures
        population(s) == e,
{
    lemma_counts_colors_unique(population(s), e, s);
}

/// The entries after one more pixel of color `c`: its count goes up by one,
/// or it is appended with a count of one.
pub open spec fn added(e: Seq<(u32, u32)>, c: u32) -> Seq<(u32, u32)> {
    if entry_keys(e).contains(c) {
        let i = entry_keys(e).index_of(c);
        e.update(i, (c, (e[i].1 + 1) as u32))
    } else {
        e.push((c, 1))
    }
}

/// A color occurs in a sequence exactly when it is among its first occurrences,
/// which hold no color twice; it occurs at most as often as the sequence is long.
pub proof fn lemma_first_occurrences(s: Seq<u32>, c: u32)
    ensures
        first_occurrences(s).no_duplicates(),
        first_occurrences(s).contains(c) <==> s.contains(c),
        s.contains(c) <==> count_in(s, c) > 0,
        count_in(s, c) <= s.len(),
    decreases s.len(),
{
    if s.len() > 0 {
        let t = s.drop_last();
        lemma_first_occurrences(t, c);
        lemma_first_occurrences(t, s.last());
        assert(s =~= t.push(s.last()));
        assert(s[s.len() - 1] == s.last());
        if t.contains(c) {
            let j = choose|j: int| 0 <= j < t.len() && t[j] == c;
            assert(s[j] == c);
        }
        if s.contains(c) && s.last() != c {
            let j = choose|j: int| 0 <= j < s.len() && s[j] == c;
            assert(t[j] == c);
        }
        let p = first_occurrences(t);
        if !p.contains(s.last()) {
            assert forall|a: int, b: int|
                0 <= a < b < p.push(s.last()).len() implies p.push(s.last())[a] != p.push(
                s.last(),
            )[b] by {
                if b == p.len() {
                    assert(p.contains(p[a]));
                }
            }
            if p.push(s.last()).contains(c) && c != s.last() {
                let j = choose|j: int| 0 <= j < p.push(s.last()).len() && p.push(s.last())[j] == c;
                assert(p[j] == c);
            }
            if p.contains(c) {
                let j = choose|j: int| 0 <= j < p.len() && p[j] == c;
                assert(p.push(s.last())[j] == c);
            }
            assert(p.push(s.last())[p.len() as int] == s.last());
        }
    }
}

/// The total of entries after an append.
pub proof fn lemma_total_count_push(e: Seq<(u32, u32)>, x: (u32, u32))
    ensures
        total_count(e.push(x)) == total_count(e) + x.1,
{
    assert(e.push(x).drop_last() =~= e);
}

/// The total of entries after an update.
pub proof fn lemma_total_count_update(e: Seq<(u32, u32)>, i: int, x: (u32, u32))
    requires
        0 <= i < e.len(),
    ensures
        total_count(e.update(i, x)) == total_count(e) - e[i].1 + x.1,
    decreases e.len(),
{
    if i < e.len() - 1 {
        assert(e.update(i, x).drop_last() =~= e.drop_last().update(i, x));
        lemma_total_count_update(e.drop_last(), i, x);
    } else {
        assert(e.update(i, x).drop_last() =~= e.drop_last());
    }
}

/// Counting one more pixel keeps the entries the population of the pixels seen.
pub proof fn lemma_added_counts(e: Seq<(u32, u32)>, s: Seq<u32>, c: u32)
    requires
        counts_colors(e, s),
        s.len() < u32::MAX,
    ensures
        counts_colors(added(e, c), s.push(c)),
        total_count(added(e, c)) == total_count(e) + 1,
{
    let s2 = s.push(c);
    assert(s2.drop_last() =~= s);
    lemma_first_occurrences(s, c);
    let keys = entry_keys(e);
    assert(keys.len() == e.len());
    assert(e.push((c, 1u32)).drop_last() =~= e);
    if keys.contains(c) {
        let i = keys.index_of(c);
        let e2 = e.update(i, (c, (e[i].1 + 1) as u32));
        assert(e[i].1 == count_in(s, c));
        assert(count_in(s, c) <= s.len());
        assert(entry_keys(e2) =~= keys);
        assert forall|j: int| 0 <= j < e2.len() implies (#[trigger] e2[j]).1 == count_in(
            s2,
            e2[j].0,
        ) by {
            if j != i {
                assert(keys[j] != keys[i]);
                assert(e[j].1 == count_in(s, e[j].0));
            }
        }
        lemma_total_count_update(e, i, (c, (e[i].1 + 1) as u32));
    } else {
        let e2 = e.push((c, 1u32));
        assert(entry_keys(e2) =~= keys.push(c));
        assert forall|j: int| 0 <= j < e2.len() implies (#[trigger] e2[j]).1 == count_in(
            s2,
            e2[j].0,
        ) by {
            if j < e.len() {
                assert(e2[j] == e[j]);
                assert(keys[j] == e[j].0);
                assert(e[j].1 == count_in(s, e[j].0));
                assert(e[j].0 != c);
            }
        }
        lemma_total_count_push(e, (c, 1u32));
    }
}

/// How many pixels have each color, in the order in which colors first occur.
pub struct ColorPopulation {
    map: ColorIndexMap,
}

/// Appending an absent key, or updating an entry in place, keeps the keys
/// distinct.
pub proof fn lemma_added_distinct(e: Seq<(u32, u32)>, c: u32)
    requires
        entry_keys(e).no_duplicates(),
    ensures
        entry_keys(added(e, c)).no_duplicates(),
{
    let keys = entry_keys(e);
    if keys.contains(c) {
        let i = keys.index_of(c);
        assert(entry_keys(added(e, c)) =~= keys);
    } else {
        assert(entry_keys(added(e, c)) =~= keys.push(c));
        assert forall|a: int, b: int| 0 <= a < b < keys.push(c).len() implies keys.push(c)[a]
            != keys.push(c)[b] by {
            if b == keys.len() {
                assert(keys.contains(keys[a]));
            }
        }
    }
}

impl ColorPopulation {
    /// Each color has one entry.
    #[verifier::type_invariant]
    spec fn colors_distinct(self) -> bool {
        entry_keys(index_map_entries(self.map)).no_duplicates()
    }

    /// The (color, count) entries in order.
    pub closed spec fn entries(&self) -> Seq<(u32, u32)> {
        index_map_entries(self.map)
    }

    /// The population of no pixels.
    pub fn new() -> (p: ColorPopulation)
        ensures
            p.entries() == Seq::<(u32, u32)>::empty(),
    {
        ColorPopulation { map: new_index_map() }
    }

    /// Counts one more pixel of color `color`.
    pub fn add(&mut self, color: u32)
        requires
            entry_keys(old(self).entries()).contains(color) ==> old(self).entries()[entry_keys(
                old(self).entries(),
            ).index_of(color)].1 < u32::MAX,
        ensures
            final(self).entries() == added(old(self).entries(), color),
    {
        proof {
            use_type_invariant(&*self);
            lemma_added_distinct(self.entries(), color);
        }
        let ghost e = self.entries();
        let ghost keys = entry_keys(e);
        let mut map = new_index_map();
        std::mem::swap(&mut map, &mut self.map);
        match index_map_get(&map, color) {
            Some(count) => {
                proof {
                    let j = choose|j: int| 0 <= j < e.len() && e[j] == (color, count);
                    assert(keys[j] == color);
                    assert(keys.contains(color));
                    assert(keys.index_of(color) == j);
                }
                let r = index_map_insert(&mut map, color, count + 1);
                proof {
                    let j = choose|j: int|
                        0 <= j < e.len() && e[j] == (color, r.unwrap()) && index_map_entries(
                            map,
                        ) == e.update(j, (color, (count + 1) as u32));
                    assert(keys[j] == color);
                }
            },
            None => {
                let r = index_map_insert(&mut map, color, 1);
                proof {
                    if r.is_some() {
                        let j = choose|j: int| 0 <= j < e.len() && e[j] == (color, r.unwrap());
                        assert(keys[j] == color);
                    }
                }
            },
        }
        self.map = map;
    }

    /// The (color, count) entries in order; each color has one.
    pub fn to_vec(&self) -> (v: Vec<(u32, u32)>)
        ensures
            v@ == self.entries(),
            entry_keys(self.entries()).no_duplicates(),
    {
        proof {
            use_type_invariant(self);
        }
        index_map_to_vec(&self.map)
    }
}

/// `e` lists the pairs of `m`, each once, in some order.
pub open spec fn lists_map(e: Seq<(u32, u32)>, m: Map<u32, u32>) -> bool {
    &&& entry_keys(e).no_duplicates()
    &&& e.len() == m.dom().len()
    &&& forall|i: int| 0 <= i < e.len() ==> m.contains_key((#[trigger] e[i]).0) && m[e[i].0] == e[i].1
    &&& forall|k: u32| m.contains_key(k) ==> #[trigger] entry_keys(e).contains(k)
}

/// The sum of the values of a finite map.
pub open spec fn map_total(m: Map<u32, u32>) -> int
    decreases m.dom().len(),
    when m.dom().finite()
{
    if m.dom().len() == 0 {
        0
    } else {
        let k = m.dom().choose();
        m[k] + map_total(m.remove(k))
    }
}

/// The sum of a map's values can be taken from any key first.
pub proof fn lemma_map_total_remove(m: Map<u32, u32>, k: u32)
    requires
        m.dom().finite(),
        m.contains_key(k),
    ensures
        map_total(m) == m[k] + map_total(m.remove(k)),
    decreases m.dom().len(),
{
    assert(m.dom().len() > 0);
    let c = m.dom().choose();
    if c != k {
        lemma_map_total_remove(m.remove(c), k);
        lemma_map_total_remove(m.remove(k), c);
        assert(m.remove(c).remove(k) =~= m.remove(k).remove(c));
    }
}

/// A list of a map's pairs adds up to the map's total.
pub proof fn lemma_lists_map_total(e: Seq<(u32, u32)>, m: Map<u32, u32>)
    requires
        m.dom().finite(),
        lists_map(e, m),
    ensures
        total_count(e) == map_total(m),
    decreases e.len(),
{
    if e.len() == 0 {
        assert(m.dom() =~= Set::<u32>::empty()) by {
            assert forall|k: u32| !m.contains_key(k) by {
                if m.contains_key(k) {
                    assert(entry_keys(e).contains(k));
                }
            }
        }
    } else {
        let t = e.drop_last();
        let last = e.last();
        let m2 = m.remove(last.0);
        assert(entry_keys(t) =~= entry_keys(e).drop_last());
        assert(entry_keys(e)[e.len() - 1] == last.0);
        assert forall|i: int| 0 <= i < t.len() implies m2.contains_key((#[trigger] t[i]).0) && m2[t[i].0] == t[i].1 by {
            assert(t[i] == e[i]);
            assert(entry_keys(e)[i] != entry_keys(e)[e.len() - 1]);
        }
        assert forall|k: u32| m2.contains_key(k) implies #[trigger] entry_keys(t).contains(k) by {
            assert(entry_keys(e).contains(k));
            let j = choose|j: int| 0 <= j < e.len() && entry_keys(e)[j] == k;
            assert(j != e.len() - 1);
            assert(entry_keys(t)[j] == k);
        }
        lemma_lists_map_total(t, m2);
        lemma_map_total_remove(m, last.0);
    }
}

impl ColorPopulation {
    /// The population with the pairs of `map`, in the order in which the map
    /// is walked (which the hash map leaves open).
    pub fn from_map(map: &HashMap<u32, u32>) -> (p: ColorPopulation)
        ensures
            lists_map(p.entries(), map@),
    {
        broadcast use vstd::std_specs::hash::group_hash_axioms;
        broadcast use vstd::std_specs::hash::axiom_spec_hash_map_iter;

        let mut counts = new_index_map();
        let ghost m = map@;
        let ghost sq = spec_hash_map_iter(map).remaining();
        for pair in it: map.iter()
            invariant
                m == map@,
                sq == spec_hash_map_iter(map).remaining(),
                it.seq() == sq,
                it.seq().no_duplicates(),
                index_map_entries(counts).len() == it.index(),
                entry_keys(index_map_entries(counts)).no_duplicates(),
                forall|i: int|
                    0 <= i < it.index() ==> #[trigger] index_map_entries(counts)[i] == (
                        *it.seq()[i].0,
                        *it.seq()[i].1,
                    ),
        {
            let (key, count) = pair;
            let ghost e = index_map_entries(counts);
            let ghost idx = it.index();
            proof {
                assert(it.seq()[idx] == (key, count));
                assert(m.contains_key(*key) && m[*key] == *count);
                assert(!entry_keys(e).contains(*key)) by {
                    if entry_keys(e).contains(*key) {
                        let j = choose|j: int| 0 <= j < e.len() && entry_keys(e)[j] == *key;
                        assert(e[j] == (*it.seq()[j].0, *it.seq()[j].1));
                        assert(m[*it.seq()[j].0] == *it.seq()[j].1);
                        assert(it.seq()[j] == it.seq()[idx]);
                    }
                }
            }
            proof {
                assert(entry_keys(e.push((*key, *count))) =~= entry_keys(e).push(*key));
                assert forall|a: int, b: int|
                    0 <= a < b < entry_keys(e).push(*key).len() implies entry_keys(e).push(
                    *key,
                )[a] != entry_keys(e).push(*key)[b] by {
                    if b == e.len() {
                        assert(entry_keys(e).contains(entry_keys(e)[a]));
                    }
                }
            }
            let _ = index_map_insert(&mut counts, *key, *count);
        }
        proof {
            let e = index_map_entries(counts);
            assert(e.len() == sq.len());
            assert forall|a: int, b: int| 0 <= a < b < e.len() implies entry_keys(e)[a] != entry_keys(e)[b] by {
                assert(e[a] == (*sq[a].0, *sq[a].1));
                assert(e[b] == (*sq[b].0, *sq[b].1));
                if e[a].0 == e[b].0 {
                    assert(m[*sq[a].0] == *sq[a].1);
                    assert(m[*sq[b].0] == *sq[b].1);
                    assert(sq[a] == sq[b]);
                }
            }
            assert forall|k: u32| m.contains_key(k) implies #[trigger] entry_keys(e).contains(k) by {
                assert(sq.contains((&k, &m[k])));
                let j = choose|j: int| 0 <= j < sq.len() && sq[j] == (&k, &m[k]);
                assert(entry_keys(e)[j] == k);
            }
        }
        ColorPopulation { map: counts }
    }
}

/// The hue of a color in whole degrees and its chroma truncated toward zero,
/// as `material_colors::hct::Hct::new` computes them (CAM16 hue and chroma).
pub uninterp spec fn hct_hue_chroma(color: u32) -> (u32, u32);

/// The hue and chroma of a color with `material_colors::hct::Hct::new`,
/// truncated toward zero to whole numbers (for the hue, in `[0, 360)`, this
/// is the `floor` that `Score::score` takes). Claims that the result is
/// `hct_hue_chroma` of the color and that the hue is below 360: `Cam16`
/// asserts `0 <= hue < 360` for every color it builds.
#[verifier::external_body]
pub(crate) fn hue_and_chroma(color: u32) -> (r: (u32, u32))
    ensures
        r == hct_hue_chroma(color),
        r.0 < 360,
{
    let hct = Hct::new(MaterialArgb::from_u32(color));
    (hct.get_hue() as u32, hct.get_chroma() as u32)
}

/// The whole-degree hue `Score::score` files a color under.
pub open spec fn score_hue(color: u32) -> u32 {
    hct_hue_chroma(color).0
}

/// Whether a color passes the chroma cutoff of `Score::score` (a chroma of
/// at least 5; truncating the chroma keeps that test).
pub open spec fn passes_chroma_cutoff(color: u32) -> bool {
    hct_hue_chroma(color).1 >= 5
}

/// The entries with the counts of colors of hues other than `h` set to
/// zero: what `Score::score` adds up for hue `h`.
pub open spec fn hue_share(e: Seq<(u32, u32)>, h: u32) -> Seq<(u32, u32)> {
    e.map_values(|p: (u32, u32)| (p.0, if score_hue(p.0) == h { p.1 } else { 0u32 }))
}

/// No two entries both pass the chroma cutoff.
pub open spec fn at_most_one_chromatic(e: Seq<(u32, u32)>) -> bool {
    forall|i: int, j: int|
        0 <= i < j < e.len() ==> !(passes_chroma_cutoff(#[trigger] e[i].0) && passes_chroma_cutoff(
            #[trigger] e[j].0,
        ))
}

/// The populations `Score::score` ranks with its chroma filter on: the count
/// of each hue fits in the `u32` it is added up in, and, when every count is
/// zero (each share is then not a number), at most one color passes the
/// filter and gets a score, so no two scores are compared.
pub open spec fn scorable(e: Seq<(u32, u32)>) -> bool {
    &&& forall|h: u32| h < 360 ==> total_count(#[trigger] hue_share(e, h)) <= u32::MAX
    &&& total_count(e) == 0 ==> at_most_one_chromatic(e)
}

/// The share of one hue adds up to at most the whole population.
pub proof fn lemma_hue_share_le(e: Seq<(u32, u32)>, h: u32)
    ensures
        total_count(hue_share(e, h)) <= total_count(e),
    decreases e.len(),
{
    if e.len() > 0 {
        assert(hue_share(e, h).drop_last() =~= hue_share(e.drop_last(), h));
        lemma_hue_share_le(e.drop_last(), h);
    }
}

/// A prefix of the entries adds up to at most the whole.
pub proof fn lemma_total_count_take(e: Seq<(u32, u32)>, n: int)
    requires
        0 <= n <= e.len(),
    ensures
        total_count(e.take(n)) <= total_count(e),
    decreases e.len(),
{
    if n < e.len() {
        assert(e.drop_last().take(n) =~= e.take(n));
        lemma_total_count_take(e.drop_last(), n);
    } else {
        assert(e.take(n) =~= e);
    }
}

/// A population whose total fits in a `u32`, and is nonzero unless the
/// population is empty, can be scored.
pub proof fn lemma_scorable_when_total_fits(e: Seq<(u32, u32)>)
    requires
        total_count(e) <= u32::MAX,
        e.len() > 0 ==> total_count(e) > 0,
    ensures
        scorable(e),
{
    assert forall|h: u32| h < 360 implies total_count(#[trigger] hue_share(e, h)) <= u32::MAX by {
        lemma_hue_share_le(e, h);
    }
}

/// The counts of a map with those of colors of hues other than `h` set to
/// zero.
pub open spec fn map_hue_share(m: Map<u32, u32>, h: u32) -> Map<u32, u32> {
    Map::new(|k: u32| m.contains_key(k), |k: u32| if score_hue(k) == h { m[k] } else { 0u32 })
}

/// No two colors of the map both pass the chroma cutoff.
pub open spec fn map_at_most_one_chromatic(m: Map<u32, u32>) -> bool {
    forall|a: u32, b: u32|
        #![trigger m.contains_key(a), m.contains_key(b)]
        m.contains_key(a) && m.contains_key(b) && a != b ==> !(passes_chroma_cutoff(a)
            && passes_chroma_cutoff(b))
}

/// The color maps `Score::score` ranks (see `scorable`), in whatever order
/// they are listed.
pub open spec fn map_scorable(m: Map<u32, u32>) -> bool {
    &&& forall|h: u32| h < 360 ==> map_total(#[trigger] map_hue_share(m, h)) <= u32::MAX
    &&& map_total(m) == 0 ==> map_at_most_one_chromatic(m)
}

/// The share of a hue in a listing of a map adds up as in the map.
pub proof fn lemma_hue_share_listing(e: Seq<(u32, u32)>, m: Map<u32, u32>, h: u32)
    requires
        m.dom().finite(),
        lists_map(e, m),
    ensures
        total_count(hue_share(e, h)) == map_total(map_hue_share(m, h)),
{
    let hs = hue_share(e, h);
    let mh = map_hue_share(m, h);
    assert(mh.dom() =~= m.dom());
    assert(entry_keys(hs) =~= entry_keys(e));
    assert forall|i: int| 0 <= i < hs.len() implies mh.contains_key((#[trigger] hs[i]).0)
        && mh[hs[i].0] == hs[i].1 by {
        assert(m.contains_key(e[i].0) && m[e[i].0] == e[i].1);
    }
    assert forall|k: u32| mh.contains_key(k) implies #[trigger] entry_keys(hs).contains(k) by {
        assert(entry_keys(e).contains(k));
    }
    lemma_lists_map_total(hs, mh);
}

/// Whether a population can be scored does not depend on the order in which
/// its map is listed.
pub proof fn lemma_scorable_listing(e: Seq<(u32, u32)>, m: Map<u32, u32>)
    requires
        m.dom().finite(),
        lists_map(e, m),
    ensures
        scorable(e) <==> map_scorable(m),
        total_count(e) == map_total(m),
{
    lemma_lists_map_total(e, m);
    assert forall|h: u32| h < 360 implies total_count(#[trigger] hue_share(e, h)) == map_total(
        map_hue_share(m, h),
    ) by {
        lemma_hue_share_listing(e, m, h);
    }
    let keys = entry_keys(e);
    assert(keys.len() == e.len());
    if at_most_one_chromatic(e) {
        assert forall|a: u32, b: u32|
            m.contains_key(a) && m.contains_key(b) && a != b implies !(passes_chroma_cutoff(a)
            && passes_chroma_cutoff(b)) by {
            assert(keys.contains(a));
            assert(keys.contains(b));
            let i = choose|i: int| 0 <= i < keys.len() && keys[i] == a;
            let j = choose|j: int| 0 <= j < keys.len() && keys[j] == b;
            assert(e[i].0 == a && e[j].0 == b);
            if i < j {
                assert(!(passes_chroma_cutoff(e[i].0) && passes_chroma_cutoff(e[j].0)));
            } else {
                assert(!(passes_chroma_cutoff(e[j].0) && passes_chroma_cutoff(e[i].0)));
            }
        }
    }
    if map_at_most_one_chromatic(m) {
        assert forall|i: int, j: int| 0 <= i < j < e.len() implies !(passes_chroma_cutoff(
            #[trigger] e[i].0,
        ) && passes_chroma_cutoff(#[trigger] e[j].0)) by {
            assert(keys[i] != keys[j]);
            assert(m.contains_key(e[i].0) && m.contains_key(e[j].0));
        }
    }
    if scorable(e) {
        assert forall|h: u32| h < 360 implies map_total(#[trigger] map_hue_share(m, h))
            <= u32::MAX by {
            assert(total_count(hue_share(e, h)) <= u32::MAX);
        }
    }
    if map_scorable(m) {
        assert forall|h: u32| h < 360 implies total_count(#[trigger] hue_share(e, h))
            <= u32::MAX by {
            assert(map_total(map_hue_share(m, h)) <= u32::MAX);
        }
    }
}

/// Google Blue, the color ranked when no color is suitable and no other
/// fallback is given.
pub open spec fn google_blue() -> Argb {
    Argb { alpha: 255, red: 66, green: 133, blue: 244 }
}

/// The fallback color of a ranking: the given packed color, or Google Blue.
pub open spec fn fallback_color(fallback: Option<u32>) -> Argb {
    match fallback {
        Some(v) => unpacked(v),
        None => google_blue(),
    }
}

/// `c` is the color of one of the entries.
pub open spec fn color_of_entries(c: Argb, e: Seq<(u32, u32)>) -> bool {
    exists|j: int| 0 <= j < e.len() && c == unpacked(#[trigger] e[j].0)
}

/// `r` is made of colors of the entries, no more of them than there are
/// entries, or is the fallback color alone.
pub open spec fn ranked_among(r: Seq<Argb>, e: Seq<(u32, u32)>, fallback: Argb) -> bool {
    ||| r.len() <= e.len() && forall|i: int| 0 <= i < r.len() ==> color_of_entries(#[trigger] r[i], e)
    ||| r == seq![fallback]
}

/// The colors `Score::score` ranks, best first, for a population with the
/// entries `entries`, at most `desired` of them, with `fallback` (packed) as
/// the color given when none is suitable, filtering unsuitable colors out
/// when `filter` holds.
pub uninterp spec fn material_score(
    entries: Seq<(u32, u32)>,
    desired: i32,
    fallback: Option<u32>,
    filter: bool,
) -> Seq<Argb>;

/// Ranks the colors of a population with `material_colors::score::Score::score`
/// (the population passed in its order, as an index map of that crate's
/// colors). Claims that the result is `material_score` of the entries and the
/// arguments, and, as the crate's documentation and source show, that it has
/// at least one color and at most `desired`, each a color of the population
/// (the `Hct` values it keeps carry their color), no more than there are
/// colors, unless it is the fallback alone; which colors it picks is left to
/// the name. The crate adds up the counts of each hue in a `u32` (overflow
/// panics) and divides each by the sum of all counts, then sorts the
/// scored colors assuming no score is not a number. `scorable` keeps the call
/// clear of both when `filter` holds; without the filter every color is
/// scored, so an all-zero population must then have at most one color.
#[verifier::external_body]
pub(crate) fn score_population(
    population: &ColorPopulation,
    desired: i32,
    fallback: Option<u32>,
    filter: bool,
) -> (r: Vec<Argb>)
    requires
        desired >= 1,
        scorable(population.entries()),
        !filter && total_count(population.entries()) == 0 ==> population.entries().len() <= 1,
    ensures
        r@ == material_score(population.entries(), desired, fallback, filter),
        1 <= r.len() <= desired,
        ranked_among(r@, population.entries(), fallback_color(fallback)),
{
    let map: IndexMap<MaterialArgb, u32, BuildHasherDefault<AHasher>> = population.map.iter().map(
        |(c, n)| (MaterialArgb::from_u32(*c), *n),
    ).collect();
    let ranked = Score::score(&map, Some(desired), fallback.map(MaterialArgb::from_u32), Some(filter));
    ranked.iter().map(|c| Argb { alpha: c.alpha, red: c.red, green: c.green, blue: c.blue }).collect()
}

} // verus!
