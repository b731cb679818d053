//! The colors of a wallpaper: its main colors, its color population and
//! hints about it.
use vstd::prelude::*;
use std::collections::HashMap;
use crate::color::Argb;
use crate::hints::ColorHints;
use crate::bitmap::{count_colors, rgba_colors, Bitmap};
use crate::population::population;
use crate::population::{
    entry_keys, google_blue, hue_and_chroma, hue_share, lemma_lists_map_total, lemma_scorable_listing,
    lemma_scorable_when_total_fits, lemma_total_count_push, lemma_total_count_take, lists_map, map_at_most_one_chromatic,
    map_hue_share, map_scorable, map_total, material_score, color_of_entries, passes_chroma_cutoff, ranked_among,
    score_hue, score_population, scorable, total_count, ColorPopulation, at_most_one_chromatic,
};

verus! {

/// How the main colors of a wallpaper are ranked.
#[derive(Clone, Copy, Debug, PartialEq, Eq, Structural)]
pub enum ScoringStrategy {
    /// The ranking of `material_colors::score::Score`.
    MaterialColors,
    /// The ranking by the share of pixels of nearby hues and by chroma.
    JavaOriginal,
}

/// The main colors, the count of pixels of each color, and the hints of a
/// wallpaper.
#[derive(Clone, Debug, PartialEq)]
pub struct WallpaperColors {
    main_colors: Vec<Argb>,
    all_colors: HashMap<u32, u32>,
    color_hints: ColorHints,
}

impl View for WallpaperColors {
    /// The main colors, the population map (packed color to count), and the
    /// hint bits.
    type V = (Seq<Argb>, Map<u32, u32>, i32);

    closed spec fn view(&self) -> (Seq<Argb>, Map<u32, u32>, i32) {
        (self.main_colors@, self.all_colors@, self.color_hints@)
    }
}

/// The main colors taken from a ranking: its first three (or fewer).
pub open spec fn leading_colors(ranked: Seq<Argb>) -> Seq<Argb> {
    if ranked.len() <= 3 {
        ranked
    } else {
        ranked.take(3)
    }
}

/// The map from color to count of a population's entries.
pub open spec fn entries_map(e: Seq<(u32, u32)>) -> Map<u32, u32> {
    Map::new(
        |k: u32| entry_keys(e).contains(k),
        |k: u32| e[entry_keys(e).index_of(k)].1,
    )
}

/// A population's entries list the map of its entries, and so add up to
/// that map's total.
pub proof fn lemma_entries_map_total(e: Seq<(u32, u32)>)
    requires
        entry_keys(e).no_duplicates(),
    ensures
        entries_map(e).dom().finite(),
        lists_map(e, entries_map(e)),
        map_total(entries_map(e)) == total_count(e),
{
    let keys = entry_keys(e);
    let m = entries_map(e);
    assert(m.dom() =~= keys.to_set());
    keys.unique_seq_to_set();
    assert forall|i: int| 0 <= i < e.len() implies m.contains_key((#[trigger] e[i]).0) && m[e[i].0]
        == e[i].1 by {
        assert(keys[i] == e[i].0);
        assert(keys.contains(e[i].0));
        assert(keys.index_of(e[i].0) == i);
    }
    lemma_lists_map_total(e, m);
}

/// The main colors taken from a ranking are its best three colors (all of
/// them when there are fewer), in the ranking's order: the first is the
/// best ranked color.
pub proof fn lemma_leading_colors_prefix(ranked: Seq<Argb>)
    ensures
        leading_colors(ranked).len() == if ranked.len() < 3 { ranked.len() } else { 3 },
        forall|i: int|
            0 <= i < leading_colors(ranked).len() ==> #[trigger] leading_colors(ranked)[i]
                == ranked[i],
        ranked.len() > 0 ==> leading_colors(ranked)[0] == ranked[0],
{
}

/// The first three (or fewer) colors of a ranking.
fn take_main_colors(ranked: &Vec<Argb>) -> (r: Vec<Argb>)
    ensures
        r@ == leading_colors(ranked@),
        r.len() == if ranked.len() < 3 { ranked.len() } else { 3 },
        forall|i: int| 0 <= i < r.len() ==> r@[i] == ranked@[i],
{
    let mut main_colors: Vec<Argb> = Vec::new();
    let mut i: usize = 0;
    while i < ranked.len() && i < 3
        invariant
            i <= ranked.len(),
            i <= 3,
            main_colors@ == ranked@.take(i as int),
        decreases ranked.len() - i,
    {
        main_colors.push(ranked[i]);
        i = i + 1;
        proof {
            assert(main_colors@ =~= ranked@.take(i as int));
        }
    }
    proof {
        if ranked.len() <= 3 {
            assert(ranked@.take(i as int) =~= ranked@);
        }
    }
    main_colors
}

/// The population as a hash map from color to count.
fn population_map(population: &ColorPopulation) -> (m: HashMap<u32, u32>)
    ensures
        m@ == entries_map(population.entries()),
        entry_keys(population.entries()).no_duplicates(),
{
    broadcast use vstd::std_specs::hash::group_hash_axioms;

    let entries = population.to_vec();
    let ghost e = population.entries();
    let mut map: HashMap<u32, u32> = HashMap::new();
    let mut i: usize = 0;
    while i < entries.len()
        invariant
            entries@ == e,
            entry_keys(e).no_duplicates(),
            i <= entries.len(),
            map@ == entries_map(e.take(i as int)),
        decreases entries.len() - i,
    {
        let (color, count) = entries[i];
        map.insert(color, count);
        proof {
            let t = e.take(i as int);
            let t2 = e.take(i + 1);
            assert(entry_keys(t2) =~= entry_keys(t).push(color));
            assert(entry_keys(e)[i as int] == color);
            assert(!entry_keys(t).contains(color)) by {
                if entry_keys(t).contains(color) {
                    let j = choose|j: int| 0 <= j < t.len() && entry_keys(t)[j] == color;
                    assert(entry_keys(e)[j] == color);
                }
            }
            assert(entry_keys(t2).no_duplicates()) by {
                assert forall|a: int, b: int| 0 <= a < b < t2.len() implies entry_keys(t2)[a]
                    != entry_keys(t2)[b] by {
                    assert(entry_keys(t2)[a] == entry_keys(e)[a]);
                    assert(entry_keys(t2)[b] == entry_keys(e)[b]);
                }
            }
            assert(t2[i as int] == (color, count));
            assert forall|k: u32| #[trigger] entries_map(t2).contains_key(k) == (entries_map(
                t,
            ).contains_key(k) || k == color) by {
                if entry_keys(t).contains(k) {
                    let j = choose|j: int| 0 <= j < t.len() && entry_keys(t)[j] == k;
                    assert(entry_keys(t2)[j] == k);
                }
                if entry_keys(t2).contains(k) && k != color {
                    let j = choose|j: int| 0 <= j < t2.len() && entry_keys(t2)[j] == k;
                    assert(j != i);
                    assert(entry_keys(t)[j] == k);
                }
                assert(entry_keys(t2)[i as int] == color);
            }
            assert forall|k: u32| #[trigger] entries_map(t2).contains_key(k) implies entries_map(t2)[k]
                == (if k == color { count } else { entries_map(t)[k] }) by {
                if k == color {
                    assert(entry_keys(t2)[i as int] == color);
                    assert(entry_keys(t2).index_of(k) == i);
                } else {
                    let j = entry_keys(t).index_of(k);
                    assert(entry_keys(t).contains(k));
                    assert(entry_keys(t)[j] == k);
                    assert(entry_keys(t2)[j] == k);
                    assert(entry_keys(t2).index_of(k) == j);
                    assert(t2[j] == t[j]);
                }
            }
            assert(map@ =~= entries_map(t2));
        }
        i = i + 1;
    }
    proof {
        assert(e.take(entries.len() as int) =~= e);
    }
    map
}

/// Ranks the colors of a population with `material_colors::score::Score`:
/// at most four, unsuitable colors filtered out, Google Blue when none is
/// left.
pub fn score_material_colors(population: &ColorPopulation) -> (r: Vec<Argb>)
    requires
        scorable(population.entries()),
    ensures
        r@ == material_score(population.entries(), 4, None, true),
        1 <= r.len() <= 4,
        ranked_among(r@, population.entries(), google_blue()),
{
    score_population(population, 4, None, true)
}

/// The first three colors of a ranking among a population's colors are
/// again among them (or the fallback alone).
pub proof fn lemma_leading_ranked_among(r: Seq<Argb>, e: Seq<(u32, u32)>, fallback: Argb)
    requires
        ranked_among(r, e, fallback),
    ensures
        ranked_among(leading_colors(r), e, fallback),
{
    if r.len() > 3 && r != seq![fallback] {
        let l = leading_colors(r);
        assert(r.len() <= e.len());
        assert forall|i: int| 0 <= i < l.len() implies color_of_entries(#[trigger] l[i], e) by {
            assert(l[i] == r[i]);
        }
        assert(l.len() <= e.len());
    }
}

/// Why a color map cannot be ranked with `material_colors::score::Score`.
#[derive(Clone, Copy, Debug, PartialEq, Eq, Structural)]
pub enum ColorMapError {
    /// The counts of the colors of one hue add up past `u32::MAX`.
    HueCountOverflow,
    /// Every count is zero and more than one color passes the chroma
    /// cutoff: their scores are not numbers and cannot be ordered.
    UnorderedScores,
}

/// Whether `Score::score` accepts a population (see `scorable`), and if not,
/// why: the counts of each hue are added up in the order of the entries, so
/// an overflow is found before the scores are ordered.
fn check_scorable(population: &ColorPopulation) -> (r: Result<(), ColorMapError>)
    ensures
        match r {
            Ok(()) => scorable(population.entries()),
            Err(ColorMapError::HueCountOverflow) => exists|h: u32|
                h < 360 && total_count(#[trigger] hue_share(population.entries(), h)) > u32::MAX,
            Err(ColorMapError::UnorderedScores) => (forall|h: u32|
                h < 360 ==> total_count(#[trigger] hue_share(population.entries(), h))
                    <= u32::MAX) && total_count(population.entries()) == 0
                && !at_most_one_chromatic(population.entries()),
        },
{
    let entries = population.to_vec();
    let ghost e = population.entries();
    let mut buckets: Vec<u32> = Vec::new();
    let mut b: usize = 0;
    while b < 360
        invariant
            buckets.len() == b,
            b <= 360,
            forall|j: int| 0 <= j < b ==> buckets[j] == 0,
        decreases 360 - b,
    {
        buckets.push(0);
        b = b + 1;
    }
    proof {
        assert forall|h: u32| #![trigger hue_share(e.take(0), h)]
            total_count(hue_share(e.take(0), h)) == 0 by {
            assert(hue_share(e.take(0), h).len() == 0);
        }
        assert(e.take(0).len() == 0);
    }
    let mut all_zero = true;
    let mut seen_chromatic = false;
    let mut two_chromatic = false;
    let mut i: usize = 0;
    while i < entries.len()
        invariant
            entries@ == e,
            e == population.entries(),
            i <= e.len(),
            buckets.len() == 360,
            forall|h: int|
                0 <= h < 360 ==> buckets[h] as int == total_count(
                    #[trigger] hue_share(e.take(i as int), h as u32),
                ),
            all_zero == (total_count(e.take(i as int)) == 0),
            seen_chromatic == (exists|j: int| 0 <= j < i && passes_chroma_cutoff(#[trigger] e[j].0)),
            two_chromatic == (exists|j: int, k: int|
                0 <= j < k < i && passes_chroma_cutoff(#[trigger] e[j].0) && passes_chroma_cutoff(
                    #[trigger] e[k].0,
                )),
        decreases e.len() - i,
    {
        let (color, count) = entries[i];
        let (hue, chroma) = hue_and_chroma(color);
        let ghost t = e.take(i as int);
        let ghost t2 = e.take(i + 1);
        proof {
            assert(t2 =~= t.push(e[i as int]));
            assert forall|h: u32| #![trigger hue_share(t2, h)]
                total_count(hue_share(t2, h)) == total_count(hue_share(t, h)) + if score_hue(color)
                    == h {
                    count as int
                } else {
                    0
                } by {
                let x = (color, if score_hue(color) == h { count } else { 0u32 });
                assert(hue_share(t2, h) =~= hue_share(t, h).push(x));
                lemma_total_count_push(hue_share(t, h), x);
            }
            lemma_total_count_push(t, (color, count));
            lemma_total_count_take(t, 0);
            assert(t.take(0).len() == 0);
        }
        let hu = hue as usize;
        let sum: u64 = buckets[hu] as u64 + count as u64;
        if sum > u32::MAX as u64 {
            proof {
                let hh: int = hu as int;
                assert(buckets[hh] as int == total_count(hue_share(e.take(i as int), hh as u32)));
                assert(hh as u32 == hue);
                assert(hue_share(t2, hue) =~= hue_share(e, hue).take(i + 1));
                lemma_total_count_take(hue_share(e, hue), i + 1);
                assert(total_count(hue_share(e, hue)) > u32::MAX);
                assert(exists|h: u32|
                    h < 360 && total_count(#[trigger] hue_share(population.entries(), h)) > u32::MAX);
            }
            return Err(ColorMapError::HueCountOverflow);
        }
        let ghost before = buckets@;
        buckets.set(hu, sum as u32);
        if count != 0 {
            all_zero = false;
        }
        if chroma >= 5 {
            if seen_chromatic {
                two_chromatic = true;
            }
            seen_chromatic = true;
        }
        proof {
            assert(e[i as int] == (color, count));
            assert forall|h: int| 0 <= h < 360 implies buckets[h] as int == total_count(
                #[trigger] hue_share(t2, h as u32),
            ) by {
                assert(before[h] as int == total_count(hue_share(t, h as u32)));
            }
        }
        i = i + 1;
    }
    proof {
        assert(e.take(e.len() as int) =~= e);
        assert forall|h: u32| h < 360 implies total_count(#[trigger] hue_share(e, h)) <= u32::MAX by {
            let hh: int = h as int;
            assert(buckets[hh] as int == total_count(hue_share(e.take(i as int), hh as u32)));
        }
        if !two_chromatic {
            assert forall|j: int, k: int| 0 <= j < k < e.len() implies !(passes_chroma_cutoff(
                #[trigger] e[j].0,
            ) && passes_chroma_cutoff(#[trigger] e[k].0)) by {}
        }
    }
    if all_zero && two_chromatic {
        Err(ColorMapError::UnorderedScores)
    } else {
        Ok(())
    }
}

impl WallpaperColors {
    /// The colors of a bitmap whose population and ranking are known: the
    /// first three ranked colors, the population as a map, and the dark hints
    /// together with `FROM_BITMAP`.
    pub fn from_scored_population(
        population: &ColorPopulation,
        ranked_colors: &Vec<Argb>,
        dark_hints: ColorHints,
    ) -> (r: WallpaperColors)
        ensures
            r@.0 == leading_colors(ranked_colors@),
            r@.0.len() == if ranked_colors.len() < 3 { ranked_colors.len() } else { 3 },
            forall|i: int| 0 <= i < r@.0.len() ==> r@.0[i] == ranked_colors@[i],
            r@.1 == entries_map(population.entries()),
            r@.2 == 4 | dark_hints@,
            r@.2 & 4 == 4,
            map_total(r@.1) == total_count(population.entries()),
    {
        let all_colors = population_map(population);
        proof {
            lemma_entries_map_total(population.entries());
        }
        let main_colors = take_main_colors(ranked_colors);
        let mut color_hints = ColorHints::from_bitmap();
        color_hints.set(dark_hints, true);
        let ghost d = dark_hints@;
        assert((4 | d) & 4 == 4) by (bit_vector);
        WallpaperColors { main_colors, all_colors, color_hints }
    }

    /// The colors of an already scaled bitmap, ranked with
    /// `material_colors::score::Score`: the first three ranked colors of its
    /// population, the population as a map, and the dark hints together with
    /// `FROM_BITMAP`.
    pub fn from_scaled_bitmap(scaled: &Bitmap, dark_hints: ColorHints) -> (r: WallpaperColors)
        ensures
            r@.0 == leading_colors(
                material_score(population(rgba_colors(scaled@.2)), 4, None, true),
            ),
            r@.1 == entries_map(population(rgba_colors(scaled@.2))),
            1 <= r@.0.len() <= 3,
            forall|i: int|
                0 <= i < r@.0.len() ==> r@.0[i] == material_score(
                    population(rgba_colors(scaled@.2)),
                    4,
                    None,
                    true,
                )[i],
            r@.0.len() == 3 || r@.0.len() == material_score(
                population(rgba_colors(scaled@.2)),
                4,
                None,
                true,
            ).len(),
            ranked_among(r@.0, population(rgba_colors(scaled@.2)), google_blue()),
            r@.2 == 4 | dark_hints@,
            map_total(r@.1) == scaled@.0 * scaled@.1,
    {
        let population = count_colors(scaled);
        proof {
            lemma_scorable_when_total_fits(population.entries());
        }
        let ranked = score_material_colors(&population);
        proof {
            lemma_leading_ranked_among(ranked@, population.entries(), google_blue());
        }
        WallpaperColors::from_scored_population(&population, &ranked, dark_hints)
    }

    /// The colors of a wallpaper whose color map is listed (in some order)
    /// by a population that can be scored.
    fn from_listed_map(
        population: &ColorPopulation,
        color_to_population: HashMap<u32, u32>,
        color_hints: ColorHints,
    ) -> (r: WallpaperColors)
        requires
            lists_map(population.entries(), color_to_population@),
            scorable(population.entries()),
        ensures
            r@.0 == leading_colors(material_score(population.entries(), 4, None, true)),
            ranked_among(r@.0, population.entries(), google_blue()),
            1 <= r@.0.len() <= 3,
            r@.1 == color_to_population@,
            r@.2 == color_hints@,
    {
        let ranked = score_material_colors(population);
        proof {
            lemma_leading_ranked_among(ranked@, population.entries(), google_blue());
        }
        let main_colors = take_main_colors(&ranked);
        WallpaperColors { main_colors, all_colors: color_to_population, color_hints }
    }

    /// The colors of a wallpaper given as a map from packed color to count,
    /// ranked with `material_colors::score::Score`. The ranking sees the
    /// colors in the order in which the hash map is walked, which it leaves
    /// open; the population map and hints are kept as given. The map must be
    /// one the ranking accepts (`map_scorable`; `checked_from_color_map`
    /// tests it).
    pub fn from_color_map(color_to_population: HashMap<u32, u32>, color_hints: ColorHints) -> (r:
        WallpaperColors)
        requires
            map_scorable(color_to_population@),
        ensures
            exists|e: Seq<(u32, u32)>|
                lists_map(e, color_to_population@) && r@.0 == leading_colors(
                    #[trigger] material_score(e, 4, None, true),
                ) && ranked_among(r@.0, e, google_blue()),
            1 <= r@.0.len() <= 3,
            r@.1 == color_to_population@,
            r@.2 == color_hints@,
    {
        broadcast use vstd::std_specs::hash::group_hash_axioms;

        let population = ColorPopulation::from_map(&color_to_population);
        proof {
            lemma_scorable_listing(population.entries(), color_to_population@);
        }
        WallpaperColors::from_listed_map(&population, color_to_population, color_hints)
    }

    /// The colors of a wallpaper given as a map from packed color to count,
    /// as `from_color_map` gives them, when the ranking accepts the map;
    /// else the reason it does not: a hue whose counts add up past
    /// `u32::MAX` (tested first, as the ranking adds the counts up before it
    /// orders the scores), or an all-zero map with more than one color that
    /// passes the chroma cutoff.
    pub fn checked_from_color_map(color_to_population: HashMap<u32, u32>, color_hints: ColorHints)
        -> (r: Result<WallpaperColors, ColorMapError>)
        ensures
            r is Ok <==> map_scorable(color_to_population@),
            match r {
                Ok(w) => (exists|e: Seq<(u32, u32)>|
                    lists_map(e, color_to_population@) && w@.0 == leading_colors(
                        #[trigger] material_score(e, 4, None, true),
                    ) && ranked_among(w@.0, e, google_blue())) && 1 <= w@.0.len() <= 3
                    && w@.1 == color_to_population@ && w@.2 == color_hints@,
                Err(ColorMapError::HueCountOverflow) => exists|h: u32|
                    h < 360 && map_total(#[trigger] map_hue_share(color_to_population@, h))
                        > u32::MAX,
                Err(ColorMapError::UnorderedScores) => (forall|h: u32|
                    h < 360 ==> map_total(#[trigger] map_hue_share(color_to_population@, h))
                        <= u32::MAX) && map_total(color_to_population@) == 0
                    && !map_at_most_one_chromatic(color_to_population@),
            },
    {
        broadcast use vstd::std_specs::hash::group_hash_axioms;

        let population = ColorPopulation::from_map(&color_to_population);
        let ghost m = color_to_population@;
        proof {
            lemma_scorable_listing(population.entries(), m);
        }
        match check_scorable(&population) {
            Ok(()) => Ok(WallpaperColors::from_color_map(color_to_population, color_hints)),
            Err(ColorMapError::HueCountOverflow) => {
                proof {
                    let h = choose|h: u32|
                        h < 360 && total_count(#[trigger] hue_share(population.entries(), h))
                            > u32::MAX;
                    crate::population::lemma_hue_share_listing(population.entries(), m, h);
                }
                Err(ColorMapError::HueCountOverflow)
            },
            Err(ColorMapError::UnorderedScores) => {
                proof {
                    assert forall|h: u32| h < 360 implies map_total(
                        #[trigger] map_hue_share(m, h),
                    ) <= u32::MAX by {
                        crate::population::lemma_hue_share_listing(population.entries(), m, h);
                    }
                    assert(!map_at_most_one_chromatic(m));
                }
                Err(ColorMapError::UnorderedScores)
            },
        }
    }

    /// The colors of a wallpaper given as a map from packed color to count,
    /// with its colors already ranked: the first three ranked colors, the map
    /// and the hints as given.
    pub fn from_color_map_with_ranking(
        color_to_population: HashMap<u32, u32>,
        color_hints: ColorHints,
        ranked_colors: &Vec<Argb>,
    ) -> (r: WallpaperColors)
        ensures
            r@ == (leading_colors(ranked_colors@), color_to_population@, color_hints@),
            r@.0.len() == if ranked_colors.len() < 3 { ranked_colors.len() } else { 3 },
            forall|i: int| 0 <= i < r@.0.len() ==> r@.0[i] == ranked_colors@[i],
    {
        let main_colors = take_main_colors(ranked_colors);
        WallpaperColors { main_colors, all_colors: color_to_population, color_hints }
    }

    /// The best ranked color.
    pub fn primary_color(&self) -> (r: &Argb)
        requires
            self@.0.len() > 0,
        ensures
            *r == self@.0[0],
    {
        &self.main_colors[0]
    }

    /// The second best ranked color, if any.
    pub fn secondary_color(&self) -> (r: Option<&Argb>)
        ensures
            match r {
                Some(c) => self@.0.len() > 1 && *c == self@.0[1],
                None => self@.0.len() <= 1,
            },
    {
        if self.main_colors.len() > 1 {
            Some(&self.main_colors[1])
        } else {
            None
        }
    }

    /// The third best ranked color, if any.
    pub fn tertiary_color(&self) -> (r: Option<&Argb>)
        ensures
            match r {
                Some(c) => self@.0.len() > 2 && *c == self@.0[2],
                None => self@.0.len() <= 2,
            },
    {
        if self.main_colors.len() > 2 {
            Some(&self.main_colors[2])
        } else {
            None
        }
    }

    /// The main colors, best first.
    pub fn main_colors(&self) -> (r: &[Argb])
        ensures
            r@ == self@.0,
    {
        self.main_colors.as_slice()
    }

    /// The number of pixels of each packed color.
    pub fn all_colors(&self) -> (r: &HashMap<u32, u32>)
        ensures
            r@ == self@.1,
    {
        &self.all_colors
    }

    /// The hints.
    pub fn color_hints(&self) -> (r: ColorHints)
        ensures
            r@ == self@.2,
    {
        self.color_hints
    }
}

} // verus!
