//! The analysis of chunks and of a whole document: themes arranged by score,
//! chunks numbered in order, theme scores gathered across chunks.
use vstd::prelude::*;

use crate::anchors::Anchors;
use crate::ranking::{descending_arrangement, is_descending_arrangement};
use crate::scores::{all_ordered, keep_all, ranks_of, EmotionScore, Score, SentimentScore, ThemeScore};

verus! {

/// The stateless entry point of the semantic analysis.
pub struct SemanticAnalyzer;

/// The analysis of one chunk of a text.
#[derive(Debug, Clone)]
pub struct ChunkAnalysis<V> {
    pub chunk_index: usize,
    pub sentiment: SentimentScore<V>,
    pub emotion: EmotionScore<V>,
    pub themes: ThemeScore<V>,
}

/// The views of a list of names.
pub open spec fn name_views(names: Seq<String>) -> Seq<Seq<char>> {
    names.map_values(|s: String| s@)
}

/// `result` lists the named scores, highest score first and equal scores in
/// their given order, along `order`.
pub open spec fn arranged_along<V>(
    names: Seq<Seq<char>>,
    scores: Seq<Score<V>>,
    order: Seq<usize>,
    result: Seq<(String, Score<V>)>,
) -> bool {
    &&& is_descending_arrangement(ranks_of(scores), keep_all(scores.len()), order)
    &&& result.len() == order.len()
    &&& forall|k: int|
        0 <= k < order.len() ==> (#[trigger] result[k]).0@ == names[order[k] as int] && result[k].1
            == scores[order[k] as int]
}

/// Pairs each name with the score at the same position, highest score first,
/// equal scores in their given order.
fn arrange_named<V: Copy>(names: &Vec<String>, scores: &Vec<Score<V>>) -> (arranged: Vec<
    (String, Score<V>),
>)
    requires
        names.len() == scores.len(),
        scores.len() < 2 || all_ordered(scores@),
    ensures
        exists|order: Seq<usize>|
            arranged_along(name_views(names@), scores@, order, arranged@),
{
    let n = scores.len();
    let mut ranks: Vec<Option<u32>> = Vec::new();
    let mut keep: Vec<bool> = Vec::new();
    let mut i: usize = 0;
    while i < n
        invariant
            n == scores.len(),
            0 <= i <= n,
            ranks@.len() == i,
            keep@.len() == i,
            forall|j: int| 0 <= j < i ==> #[trigger] ranks@[j] == scores@[j].rank,
            forall|j: int| 0 <= j < i ==> #[trigger] keep@[j],
        decreases n - i,
    {
        ranks.push(scores[i].rank);
        keep.push(true);
        i = i + 1;
    }
    assert(ranks@ =~= ranks_of(scores@));
    assert(keep@ =~= keep_all(n as nat));
    let order = descending_arrangement(&ranks, &keep);
    let mut arranged: Vec<(String, Score<V>)> = Vec::new();
    let mut k: usize = 0;
    while k < order.len()
        invariant
            n == scores.len(),
            names.len() == n,
            ranks@ == ranks_of(scores@),
            keep@ == keep_all(n as nat),
            is_descending_arrangement(ranks@, keep@, order@),
            0 <= k <= order.len(),
            arranged@.len() == k,
            forall|m: int|
                0 <= m < k ==> (#[trigger] arranged@[m]).0@ == name_views(names@)[order@[m] as int]
                    && arranged@[m].1 == scores@[order@[m] as int],
        decreases order.len() - k,
    {
        let at = order[k];
        arranged.push((names[at].clone(), scores[at]));
        k = k + 1;
    }
    assert(arranged_along(name_views(names@), scores@, order@, arranged@));
    arranged
}

/// The names of the themes of a set of anchors.
pub open spec fn theme_names_of<E>(anchors: Anchors<E>) -> Seq<Seq<char>> {
    anchors.theme_embeddings@.map_values(|t: (String, E)| t.0@)
}

impl SemanticAnalyzer {
    /// The theme scores of a chunk: each theme of `anchors` with the
    /// similarity at the same position of `similarities`, most similar first,
    /// equally similar themes in the order of `anchors`.
    pub fn analyze_themes<E, V: Copy>(similarities: Vec<Score<V>>, anchors: &Anchors<E>) -> (themes:
        ThemeScore<V>)
        requires
            similarities.len() == anchors.theme_embeddings.len(),
            similarities.len() < 2 || all_ordered(similarities@),
        ensures
            exists|order: Seq<usize>|
                arranged_along(theme_names_of(*anchors), similarities@, order, themes.themes@),
    {
        let mut names: Vec<String> = Vec::new();
        let mut i: usize = 0;
        while i < anchors.theme_embeddings.len()
            invariant
                0 <= i <= anchors.theme_embeddings.len(),
                names@.len() == i,
                forall|j: int|
                    0 <= j < i ==> (#[trigger] names@[j])@ == anchors.theme_embeddings@[j].0@,
            decreases anchors.theme_embeddings.len() - i,
        {
            names.push(anchors.theme_embeddings[i].0.clone());
            i = i + 1;
        }
        assert(name_views(names@) =~= theme_names_of(*anchors));
        let themes = arrange_named(&names, &similarities);
        let result = ThemeScore { themes };
        proof {
            let order = choose|order: Seq<usize>|
                arranged_along(name_views(names@), similarities@, order, result.themes@);
            assert(arranged_along(theme_names_of(*anchors), similarities@, order, result.themes@));
        }
        result
    }

    /// Numbers the analyses of the chunks of a text in their order.
    pub fn analyze_all_chunks<V>(parts: Vec<(SentimentScore<V>, EmotionScore<V>, ThemeScore<V>)>) -> (analyses:
        Vec<ChunkAnalysis<V>>)
        ensures
            analyses@.len() == parts@.len(),
            forall|i: int|
                0 <= i < parts@.len() ==> (#[trigger] analyses@[i]).chunk_index == i
                    && analyses@[i].sentiment == parts@[i].0 && analyses@[i].emotion == parts@[i].1
                    && analyses@[i].themes == parts@[i].2,
    {
        let mut analyses: Vec<ChunkAnalysis<V>> = Vec::new();
        let n = parts.len();
        let mut index: usize = 0;
        for part in iter: parts
            invariant
                n == parts@.len(),
                iter.seq() == parts@,
                index <= n,
                index == iter.index(),
                analyses@.len() == index,
                forall|i: int|
                    0 <= i < index ==> (#[trigger] analyses@[i]).chunk_index == i
                        && analyses@[i].sentiment == parts@[i].0 && analyses@[i].emotion
                        == parts@[i].1 && analyses@[i].themes == parts@[i].2,
        {
            let (sentiment, emotion, themes) = part;
            analyses.push(ChunkAnalysis { chunk_index: index, sentiment, emotion, themes });
            index = index + 1;
        }
        analyses
    }
}

/// The analysis of a whole document: the overall sentiment and emotion, the
/// themes with their scores across all chunks, and the number of chunks.
#[derive(Debug, Clone)]
pub struct DocumentAnalysis<V> {
    pub overall_sentiment: SentimentScore<V>,
    pub overall_emotion: EmotionScore<V>,
    pub theme_distribution: Vec<(String, Score<V>)>,
    pub chunk_count: usize,
}

/// The themes of one chunk, by name and score.
pub open spec fn chunk_theme_scores<V>(analysis: ChunkAnalysis<V>) -> Seq<(Seq<char>, Score<V>)> {
    analysis.themes.themes@.map_values(|t: (String, Score<V>)| (t.0@, t.1))
}

/// The themes of all chunks, by name and score, chunk after chunk.
pub open spec fn all_theme_scores<V>(analyses: Seq<ChunkAnalysis<V>>) -> Seq<(Seq<char>, Score<V>)>
    decreases analyses.len(),
{
    if analyses.len() == 0 {
        Seq::empty()
    } else {
        all_theme_scores(analyses.drop_last()) + chunk_theme_scores(analyses.last())
    }
}

/// The distinct names among `entries`, in the order of their first appearance.
pub open spec fn distinct_names<V>(entries: Seq<(Seq<char>, Score<V>)>) -> Seq<Seq<char>>
    decreases entries.len(),
{
    if entries.len() == 0 {
        Seq::empty()
    } else {
        let names = distinct_names(entries.drop_last());
        if names.contains(entries.last().0) {
            names
        } else {
            names.push(entries.last().0)
        }
    }
}

/// The values of the entries named `name`, in their order.
pub open spec fn values_named<V>(entries: Seq<(Seq<char>, Score<V>)>, name: Seq<char>) -> Seq<V>
    decreases entries.len(),
{
    if entries.len() == 0 {
        Seq::empty()
    } else {
        let rest = values_named(entries.drop_last(), name);
        if entries.last().0 == name {
            rest.push(entries.last().1.value)
        } else {
            rest
        }
    }
}

/// The names of a list of groups.
pub open spec fn group_names<V>(groups: Seq<(String, Vec<V>)>) -> Seq<Seq<char>> {
    groups.map_values(|g: (String, Vec<V>)| g.0@)
}

impl<V: Copy> DocumentAnalysis<V> {
    /// Gathers the theme scores of all chunks by theme: each theme once, in
    /// the order in which it first appears, with the values of all its scores
    /// in the order of the chunks.
    pub fn theme_groups(analyses: &[ChunkAnalysis<V>]) -> (groups: Vec<(String, Vec<V>)>)
        ensures
            group_names(groups@) == distinct_names(all_theme_scores(analyses@)),
            forall|k: int|
                0 <= k < groups@.len() ==> (#[trigger] groups@[k]).1@ == values_named(
                    all_theme_scores(analyses@),
                    groups@[k].0@,
                ),
            grouped_count(groups@) == theme_total(analyses@),
            forall|i: int, k: int|
                0 <= i < analyses@.len() && 0 <= k < analyses@[i].themes.themes@.len() ==> exists|
                    g: int,
                |
                    0 <= g < groups@.len() && groups@[g].0@ == (
                    #[trigger] analyses@[i].themes.themes@[k]).0@ && groups@[g].1@.contains(
                        analyses@[i].themes.themes@[k].1.value,
                    ),
    {
        let mut groups: Vec<(String, Vec<V>)> = Vec::new();
        let ghost mut seen: Seq<(Seq<char>, Score<V>)> = Seq::empty();
        let mut i: usize = 0;
        while i < analyses.len()
            invariant
                0 <= i <= analyses.len(),
                seen == all_theme_scores(analyses@.take(i as int)),
                group_names(groups@) == distinct_names(seen),
                forall|a: int, b: int|
                    0 <= a < b < groups@.len() ==> (#[trigger] groups@[a]).0@ != (
                    #[trigger] groups@[b]).0@,
                forall|k: int|
                    0 <= k < groups@.len() ==> (#[trigger] groups@[k]).1@ == values_named(
                        seen,
                        groups@[k].0@,
                    ),
            decreases analyses.len() - i,
        {
            let themes = &analyses[i].themes.themes;
            let ghost before = seen;
            let mut j: usize = 0;
            while j < themes.len()
                invariant
                    0 <= j <= themes.len(),
                    themes@ == analyses@[i as int].themes.themes@,
                    seen == before + chunk_theme_scores(analyses@[i as int]).take(j as int),
                    group_names(groups@) == distinct_names(seen),
                    forall|a: int, b: int|
                        0 <= a < b < groups@.len() ==> (#[trigger] groups@[a]).0@ != (
                        #[trigger] groups@[b]).0@,
                    forall|k: int|
                        0 <= k < groups@.len() ==> (#[trigger] groups@[k]).1@ == values_named(
                            seen,
                            groups@[k].0@,
                        ),
                decreases themes.len() - j,
            {
                let entry = &themes[j];
                let ghost e = (entry.0@, entry.1);
                let ghost next = seen.push(e);
                assert(next.drop_last() =~= seen);
                assert(chunk_theme_scores(analyses@[i as int]).take(j + 1) =~= chunk_theme_scores(
                    analyses@[i as int],
                ).take(j as int).push(e));
                let mut k: usize = 0;
                let mut found = false;
                while k < groups.len() && !found
                    invariant
                        0 <= k <= groups@.len(),
                        e.0 == entry.0@,
                        forall|m: int| 0 <= m < k ==> (#[trigger] groups@[m]).0@ != e.0,
                        found ==> k < groups@.len() && groups@[k as int].0@ == e.0,
                    decreases 2 * (groups@.len() - k) + (if found { 0int } else { 1int }),
                {
                    if groups[k].0 == entry.0 {
                        found = true;
                    } else {
                        k = k + 1;
                    }
                }
                let ghost old_groups = groups@;
                if found {
                    assert(group_names(old_groups)[k as int] == e.0);
                    assert(distinct_names(seen).contains(e.0));
                    groups[k].1.push(entry.1.value);
                    assert(group_names(groups@) =~= group_names(old_groups));
                    assert forall|m: int| 0 <= m < groups@.len() implies (#[trigger] groups@[m]).1@
                        == values_named(next, groups@[m].0@) by {
                        if m != k {
                            assert(groups@[m] == old_groups[m]);
                        }
                    }
                } else {
                    assert(!distinct_names(seen).contains(e.0)) by {
                        if distinct_names(seen).contains(e.0) {
                            let m = choose|m: int|
                                0 <= m < distinct_names(seen).len() && distinct_names(seen)[m]
                                    == e.0;
                            assert(group_names(old_groups)[m] == e.0);
                        }
                    }
                    groups.push((entry.0.clone(), vec![entry.1.value]));
                    assert(group_names(groups@) =~= group_names(old_groups).push(e.0));
                    assert forall|m: int| 0 <= m < groups@.len() implies (#[trigger] groups@[m]).1@
                        == values_named(next, groups@[m].0@) by {
                        if m < old_groups.len() {
                            assert(groups@[m] == old_groups[m]);
                            assert(old_groups[m].0@ != e.0);
                        } else {
                            assert(values_named(seen, e.0) =~= Seq::<V>::empty()) by {
                                lemma_absent_name_has_no_values(seen, e.0);
                            }
                            assert(groups@[m].1@ =~= seq![entry.1.value]);
                        }
                    }
                }
                proof {
                    seen = next;
                }
                j = j + 1;
            }
            assert(analyses@.take(i + 1).drop_last() =~= analyses@.take(i as int));
            assert(chunk_theme_scores(analyses@[i as int]).take(themes.len() as int)
                =~= chunk_theme_scores(analyses@[i as int]));
            i = i + 1;
        }
        assert(analyses@.take(analyses.len() as int) =~= analyses@);
        proof {
            lemma_groups_gather_every_theme(analyses@, groups@);
        }
        groups
    }

    /// The analysis of a document from the analyses of its chunks.  The
    /// overall sentiment and emotion are given; `theme_means` holds a score
    /// for each theme, in the order of `theme_groups`; the themes are listed
    /// highest score first, equal scores in the order of `theme_groups`.
    pub fn from_chunks(
        analyses: &[ChunkAnalysis<V>],
        overall_sentiment: SentimentScore<V>,
        overall_emotion: EmotionScore<V>,
        theme_means: Vec<Score<V>>,
    ) -> (document: Self)
        requires
            theme_means@.len() == distinct_names(all_theme_scores(analyses@)).len(),
            theme_means@.len() < 2 || all_ordered(theme_means@),
        ensures
            document.overall_sentiment == overall_sentiment,
            document.overall_emotion == overall_emotion,
            document.chunk_count == analyses@.len(),
            exists|order: Seq<usize>|
                arranged_along(
                    distinct_names(all_theme_scores(analyses@)),
                    theme_means@,
                    order,
                    document.theme_distribution@,
                ),
    {
        let groups = Self::theme_groups(analyses);
        let mut names: Vec<String> = Vec::new();
        let mut k: usize = 0;
        while k < groups.len()
            invariant
                0 <= k <= groups@.len(),
                names@.len() == k,
                forall|m: int| 0 <= m < k ==> (#[trigger] names@[m])@ == groups@[m].0@,
            decreases groups.len() - k,
        {
            names.push(groups[k].0.clone());
            k = k + 1;
        }
        assert(name_views(names@) =~= group_names(groups@));
        let theme_distribution = arrange_named(&names, &theme_means);
        let document = DocumentAnalysis {
            overall_sentiment,
            overall_emotion,
            theme_distribution,
            chunk_count: analyses.len(),
        };
        proof {
            let order = choose|order: Seq<usize>|
                arranged_along(name_views(names@), theme_means@, order, document.theme_distribution@);
            assert(arranged_along(
                distinct_names(all_theme_scores(analyses@)),
                theme_means@,
                order,
                document.theme_distribution@,
            ));
        }
        document
    }
}

/// Every theme that occurs in some chunk is gathered, and under one name
/// only: the gathered names are exactly the names that occur, each once,
/// and a name that does not occur gathers no values.
pub proof fn lemma_theme_names_each_once<V>(entries: Seq<(Seq<char>, Score<V>)>)
    ensures
        distinct_names(entries).no_duplicates(),
        forall|k: int|
            0 <= k < entries.len() ==> distinct_names(entries).contains(#[trigger] entries[k].0),
        forall|name: Seq<char>|
            #[trigger] distinct_names(entries).contains(name) ==> exists|k: int|
                0 <= k < entries.len() && entries[k].0 == name,
        forall|name: Seq<char>|
            !(#[trigger] distinct_names(entries).contains(name)) ==> values_named(entries, name)
                == Seq::<V>::empty(),
    decreases entries.len(),
{
    assert forall|name: Seq<char>|
        !(#[trigger] distinct_names(entries).contains(name)) implies values_named(entries, name)
        == Seq::<V>::empty() by {
        lemma_absent_name_has_no_values(entries, name);
    }
    if entries.len() > 0 {
        let rest = entries.drop_last();
        lemma_theme_names_each_once(rest);
        let names = distinct_names(rest);
        let last = entries.last();
        assert forall|k: int| 0 <= k < entries.len() implies distinct_names(entries).contains(
            #[trigger] entries[k].0,
        ) by {
            if k < entries.len() - 1 {
                assert(entries[k] == rest[k]);
                assert(names.contains(rest[k].0));
                let m = choose|m: int| 0 <= m < names.len() && names[m] == rest[k].0;
                assert(distinct_names(entries)[m] == rest[k].0);
            } else if !names.contains(last.0) {
                assert(distinct_names(entries)[names.len() as int] == last.0);
            }
        }
        assert forall|name: Seq<char>| #[trigger] distinct_names(entries).contains(name) implies exists|
            k: int,
        | 0 <= k < entries.len() && entries[k].0 == name by {
            let m = choose|m: int|
                0 <= m < distinct_names(entries).len() && distinct_names(entries)[m] == name;
            if m < names.len() {
                assert(names.contains(name));
                let k = choose|k: int| 0 <= k < rest.len() && rest[k].0 == name;
                assert(entries[k] == rest[k]);
            } else {
                assert(entries[entries.len() - 1].0 == name);
            }
        }
    }
}

/// How many themes the chunks list, all together.
pub open spec fn theme_total<V>(analyses: Seq<ChunkAnalysis<V>>) -> nat
    decreases analyses.len(),
{
    if analyses.len() == 0 {
        0
    } else {
        theme_total(analyses.drop_last()) + analyses.last().themes.themes@.len()
    }
}

/// How many values a list of groups holds, all together.
pub open spec fn grouped_count<V>(groups: Seq<(String, Vec<V>)>) -> nat
    decreases groups.len(),
{
    if groups.len() == 0 {
        0
    } else {
        grouped_count(groups.drop_last()) + groups.last().1@.len()
    }
}

/// Groups that gather the theme scores of the chunks by name hold every
/// theme of every chunk: its name is a group's name and its value is among
/// that group's values, and all groups together hold exactly as many values
/// as the chunks list themes.
pub proof fn lemma_groups_gather_every_theme<V>(
    analyses: Seq<ChunkAnalysis<V>>,
    groups: Seq<(String, Vec<V>)>,
)
    requires
        group_names(groups) == distinct_names(all_theme_scores(analyses)),
        forall|k: int|
            0 <= k < groups.len() ==> (#[trigger] groups[k]).1@ == values_named(
                all_theme_scores(analyses),
                groups[k].0@,
            ),
    ensures
        grouped_count(groups) == theme_total(analyses),
        forall|i: int, k: int|
            0 <= i < analyses.len() && 0 <= k < analyses[i].themes.themes@.len() ==> exists|g: int|
                0 <= g < groups.len() && groups[g].0@ == (
                #[trigger] analyses[i].themes.themes@[k]).0@ && groups[g].1@.contains(
                    analyses[i].themes.themes@[k].1.value,
                ),
{
    let all = all_theme_scores(analyses);
    lemma_every_theme_listed(analyses);
    lemma_theme_names_each_once(all);
    lemma_theme_groups_count_every_score(all);
    lemma_grouped_count_is_values_under(all, groups);
    assert forall|i: int, k: int|
        0 <= i < analyses.len() && 0 <= k < analyses[i].themes.themes@.len() implies exists|g: int|
            0 <= g < groups.len() && groups[g].0@ == (
            #[trigger] analyses[i].themes.themes@[k]).0@ && groups[g].1@.contains(
                analyses[i].themes.themes@[k].1.value,
            ) by {
        let t = analyses[i].themes.themes@[k];
        assert(lists(all, t.0@, t.1));
        let p = choose|p: int| 0 <= p < all.len() && all[p] == (t.0@, t.1);
        assert(distinct_names(all).contains(all[p].0));
        let g = choose|g: int| 0 <= g < distinct_names(all).len() && distinct_names(all)[g] == t.0@;
        assert(group_names(groups)[g] == groups[g].0@);
        lemma_named_value_gathered(all, p);
    }
}

/// `entries` holds the entry `(name, score)`.
pub open spec fn lists<V>(entries: Seq<(Seq<char>, Score<V>)>, name: Seq<char>, score: Score<V>) -> bool {
    exists|p: int| 0 <= p < entries.len() && #[trigger] entries[p] == (name, score)
}

/// Every theme of every chunk is among the theme scores of all chunks, and
/// these are as many as the chunks list themes.
pub proof fn lemma_every_theme_listed<V>(analyses: Seq<ChunkAnalysis<V>>)
    ensures
        all_theme_scores(analyses).len() == theme_total(analyses),
        forall|i: int, k: int|
            0 <= i < analyses.len() && 0 <= k < analyses[i].themes.themes@.len() ==> lists(
                all_theme_scores(analyses),
                (#[trigger] analyses[i].themes.themes@[k]).0@,
                analyses[i].themes.themes@[k].1,
            ),
    decreases analyses.len(),
{
    if analyses.len() > 0 {
        let rest = analyses.drop_last();
        lemma_every_theme_listed(rest);
        let before = all_theme_scores(rest);
        let all = all_theme_scores(analyses);
        let last = analyses.len() - 1;
        assert(all =~= before + chunk_theme_scores(analyses[last]));
        assert forall|i: int, k: int|
            0 <= i < analyses.len() && 0 <= k < analyses[i].themes.themes@.len() implies lists(
                all,
                (#[trigger] analyses[i].themes.themes@[k]).0@,
                analyses[i].themes.themes@[k].1,
            ) by {
            let t = analyses[i].themes.themes@[k];
            if i < last {
                assert(analyses[i] == rest[i]);
                assert(lists(before, rest[i].themes.themes@[k].0@, rest[i].themes.themes@[k].1));
                let p = choose|p: int| 0 <= p < before.len() && before[p] == (t.0@, t.1);
                assert(all[p] == before[p]);
            } else {
                let p = before.len() + k;
                assert(all[p] == chunk_theme_scores(analyses[last])[k]);
                assert(all[p] == (t.0@, t.1));
            }
        }
    }
}

/// The value of an entry is among the values gathered under its name.
proof fn lemma_named_value_gathered<V>(entries: Seq<(Seq<char>, Score<V>)>, p: int)
    requires
        0 <= p < entries.len(),
    ensures
        values_named(entries, entries[p].0).contains(entries[p].1.value),
    decreases entries.len(),
{
    let name = entries[p].0;
    let rest = entries.drop_last();
    if p == entries.len() - 1 {
        let vals = values_named(entries, name);
        assert(vals[vals.len() - 1] == entries[p].1.value);
    } else {
        lemma_named_value_gathered(rest, p);
        assert(rest[p] == entries[p]);
        let before = values_named(rest, name);
        let k = choose|k: int| 0 <= k < before.len() && before[k] == entries[p].1.value;
        assert(values_named(entries, name)[k] == entries[p].1.value);
    }
}

/// Groups that hold the values of their names hold, all together, the
/// values gathered under the group names.
proof fn lemma_grouped_count_is_values_under<V>(
    entries: Seq<(Seq<char>, Score<V>)>,
    groups: Seq<(String, Vec<V>)>,
)
    requires
        forall|k: int|
            0 <= k < groups.len() ==> (#[trigger] groups[k]).1@ == values_named(
                entries,
                groups[k].0@,
            ),
    ensures
        grouped_count(groups) == values_under(entries, group_names(groups)),
    decreases groups.len(),
{
    if groups.len() > 0 {
        let init = groups.drop_last();
        assert forall|k: int| 0 <= k < init.len() implies (#[trigger] init[k]).1@ == values_named(
            entries,
            init[k].0@,
        ) by {
            assert(init[k] == groups[k]);
        }
        lemma_grouped_count_is_values_under(entries, init);
        assert(group_names(groups).drop_last() =~= group_names(init));
        assert(groups[groups.len() - 1] == groups.last());
    }
}

/// How many values the entries hold under the given names, all together.
pub open spec fn values_under<V>(entries: Seq<(Seq<char>, Score<V>)>, names: Seq<Seq<char>>) -> nat
    decreases names.len(),
{
    if names.len() == 0 {
        0
    } else {
        values_under(entries, names.drop_last()) + values_named(entries, names.last()).len()
    }
}

/// Gathering by theme counts every theme score exactly once: the groups
/// together hold as many values as there are theme scores.
pub proof fn lemma_theme_groups_count_every_score<V>(entries: Seq<(Seq<char>, Score<V>)>)
    ensures
        values_under(entries, distinct_names(entries)) == entries.len(),
    decreases entries.len(),
{
    if entries.len() > 0 {
        let rest = entries.drop_last();
        let e = entries.last();
        let names = distinct_names(rest);
        lemma_theme_groups_count_every_score(rest);
        lemma_theme_names_each_once(rest);
        assert(rest.push(e) =~= entries);
        lemma_values_under_push(rest, e, names);
        if !names.contains(e.0) {
            lemma_absent_name_has_no_values(rest, e.0);
            assert(distinct_names(entries).drop_last() =~= names);
        }
    }
}

/// Adding an entry adds one value under the names that hold its name once,
/// and none under names that do not hold it.
proof fn lemma_values_under_push<V>(
    entries: Seq<(Seq<char>, Score<V>)>,
    e: (Seq<char>, Score<V>),
    names: Seq<Seq<char>>,
)
    requires
        names.no_duplicates(),
    ensures
        values_under(entries.push(e), names) == values_under(entries, names) + (if names.contains(
            e.0,
        ) {
            1int
        } else {
            0int
        }),
    decreases names.len(),
{
    if names.len() > 0 {
        let init = names.drop_last();
        assert(init.no_duplicates());
        lemma_values_under_push(entries, e, init);
        assert(entries.push(e).drop_last() =~= entries);
        if names.last() == e.0 {
            assert(!init.contains(e.0)) by {
                if init.contains(e.0) {
                    let k = choose|k: int| 0 <= k < init.len() && init[k] == e.0;
                    assert(names[k] == names[names.len() - 1]);
                }
            }
            assert(names.contains(e.0)) by {
                assert(names[names.len() - 1] == e.0);
            }
        } else {
            assert(names.contains(e.0) == init.contains(e.0)) by {
                if names.contains(e.0) {
                    let k = choose|k: int| 0 <= k < names.len() && names[k] == e.0;
                    assert(init[k] == e.0);
                }
                if init.contains(e.0) {
                    let k = choose|k: int| 0 <= k < init.len() && init[k] == e.0;
                    assert(names[k] == e.0);
                }
            }
        }
    }
}

/// A name that is not among the distinct names of the entries has no values.
proof fn lemma_absent_name_has_no_values<V>(entries: Seq<(Seq<char>, Score<V>)>, name: Seq<char>)
    requires
        !distinct_names(entries).contains(name),
    ensures
        values_named(entries, name) == Seq::<V>::empty(),
    decreases entries.len(),
{
    if entries.len() > 0 {
        let names = distinct_names(entries.drop_last());
        if names.contains(name) {
            let m = choose|m: int| 0 <= m < names.len() && names[m] == name;
            assert(distinct_names(entries).contains(name)) by {
                if !names.contains(entries.last().0) {
                    assert(distinct_names(entries)[m] == name);
                }
            }
        }
        if entries.last().0 == name {
            assert(distinct_names(entries).contains(name)) by {
                if names.contains(name) {
                } else {
                    assert(distinct_names(entries)[names.len() as int] == name);
                }
            }
        }
        lemma_absent_name_has_no_values(entries.drop_last(), name);
    }
}

} // verus!
