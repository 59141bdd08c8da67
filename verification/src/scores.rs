//! Sentiment, emotion and theme scores, and what the analysis reads from
//! them: the dominant sentiment, the strongest emotions, the themes above a
//! threshold.
//!
//! A score carries the value that the analysis computed (`value`, of a type
//! the library does not look into) and its rank in the order of all scores
//! (`rank`, see the `ranking` module).  Every decision below is taken on the
//! ranks alone.
use vstd::prelude::*;

use crate::ranking::{at_least, descending_arrangement, is_descending_arrangement, outranks, precedes};

verus! {

/// A computed score and its place in the order of scores.
#[derive(Debug, Clone, Copy)]
pub struct Score<V> {
    pub value: V,
    pub rank: Option<u32>,
}

/// The ranks of a sequence of scores.
pub open spec fn ranks_of<V>(scores: Seq<Score<V>>) -> Seq<Option<u32>> {
    scores.map_values(|s: Score<V>| s.rank)
}

/// Every score of the sequence is ordered.
pub open spec fn all_ordered<V>(scores: Seq<Score<V>>) -> bool {
    forall|i: int| 0 <= i < scores.len() ==> (#[trigger] scores[i]).rank is Some
}

/// A selection that keeps every one of `n` entries.
pub open spec fn keep_all(n: nat) -> Seq<bool> {
    Seq::new(n, |i: int| true)
}

/// How the positive, negative and neutral parts of a text compare.
#[derive(Debug, Clone, Copy)]
pub struct SentimentScore<V> {
    pub positive: Score<V>,
    pub negative: Score<V>,
    pub neutral: Score<V>,
}

/// The label of the sentiment that stands strictly above both others, and
/// "Neutral" when neither the positive nor the negative part does.
pub open spec fn sentiment_label(p: Option<u32>, n: Option<u32>, u: Option<u32>) -> &'static str {
    if outranks(p, n) && outranks(p, u) {
        "Positive"
    } else if outranks(n, p) && outranks(n, u) {
        "Negative"
    } else {
        "Neutral"
    }
}

/// The greater of two scores: an unordered score gives way to the other one,
/// and of two equal scores the first is kept.
pub open spec fn greater_score<V>(a: Score<V>, b: Score<V>) -> Score<V> {
    if a.rank is None {
        b
    } else if b.rank is None {
        a
    } else if outranks(b.rank, a.rank) {
        b
    } else {
        a
    }
}

fn greater_of<V: Copy>(a: Score<V>, b: Score<V>) -> (r: Score<V>)
    ensures
        r == greater_score(a, b),
{
    match (a.rank, b.rank) {
        (None, _) => b,
        (_, None) => a,
        (Some(x), Some(y)) => if y > x {
            b
        } else {
            a
        },
    }
}

impl<V: Copy> SentimentScore<V> {
    /// The strongest of the three scores.
    pub open spec fn strongest(self) -> Score<V> {
        greater_score(greater_score(self.positive, self.negative), self.neutral)
    }

    /// "Positive" when the positive score is above both others, "Negative"
    /// when the negative one is, "Neutral" otherwise.
    pub fn dominant(&self) -> (label: &'static str)
        ensures
            label == sentiment_label(self.positive.rank, self.negative.rank, self.neutral.rank),
            outranks(self.positive.rank, self.negative.rank) && outranks(
                self.positive.rank,
                self.neutral.rank,
            ) ==> label == "Positive",
            outranks(self.negative.rank, self.positive.rank) && outranks(
                self.negative.rank,
                self.neutral.rank,
            ) ==> label == "Negative",
            !(outranks(self.positive.rank, self.negative.rank) && outranks(
                self.positive.rank,
                self.neutral.rank,
            )) && !(outranks(self.negative.rank, self.positive.rank) && outranks(
                self.negative.rank,
                self.neutral.rank,
            )) ==> label == "Neutral",
    {
        proof {
            lemma_sentiment_label_by_ranks(self.positive.rank, self.negative.rank, self.neutral.rank);
        }
        let p = self.positive.rank;
        let n = self.negative.rank;
        let u = self.neutral.rank;
        if above(p, n) && above(p, u) {
            "Positive"
        } else if above(n, p) && above(n, u) {
            "Negative"
        } else {
            "Neutral"
        }
    }

    /// The value of the strongest of the three scores; unordered scores are
    /// passed over.
    pub fn confidence(&self) -> (value: V)
        ensures
            value == self.strongest().value,
            exists|s: Score<V>|
                #![trigger s.rank]
                {
                    &&& s == self.positive || s == self.negative || s == self.neutral
                    &&& s.value == value
                    &&& self.positive.rank is Some ==> at_least(s.rank, self.positive.rank)
                    &&& self.negative.rank is Some ==> at_least(s.rank, self.negative.rank)
                    &&& self.neutral.rank is Some ==> at_least(s.rank, self.neutral.rank)
                },
    {
        proof {
            lemma_strongest_is_greatest(*self);
        }
        let first = greater_of(self.positive, self.negative);
        let value = greater_of(first, self.neutral).value;
        proof {
            let s = self.strongest();
            let _ = s.rank;
            assert({
                &&& s == self.positive || s == self.negative || s == self.neutral
                &&& s.value == value
                &&& self.positive.rank is Some ==> at_least(s.rank, self.positive.rank)
                &&& self.negative.rank is Some ==> at_least(s.rank, self.negative.rank)
                &&& self.neutral.rank is Some ==> at_least(s.rank, self.neutral.rank)
            });
        }
        value
    }
}

/// Decides `outranks`.
fn above(a: Option<u32>, b: Option<u32>) -> (r: bool)
    ensures
        r == outranks(a, b),
{
    match (a, b) {
        (Some(x), Some(y)) => x > y,
        _ => false,
    }
}

/// Decides `at_least`.
fn not_below(a: Option<u32>, b: Option<u32>) -> (r: bool)
    ensures
        r == at_least(a, b),
{
    match (a, b) {
        (Some(x), Some(y)) => x >= y,
        _ => false,
    }
}

/// How strongly each of six emotions shows in a text.
#[derive(Debug, Clone, Copy)]
pub struct EmotionScore<V> {
    pub joy: Score<V>,
    pub sadness: Score<V>,
    pub anger: Score<V>,
    pub fear: Score<V>,
    pub surprise: Score<V>,
    pub disgust: Score<V>,
}

impl<V: Copy> EmotionScore<V> {
    /// The six emotions with their names, in their fixed order.
    pub open spec fn entries(self) -> Seq<(&'static str, Score<V>)> {
        seq![
            ("Joy", self.joy),
            ("Sadness", self.sadness),
            ("Anger", self.anger),
            ("Fear", self.fear),
            ("Surprise", self.surprise),
            ("Disgust", self.disgust),
        ]
    }

    /// The scores of the six emotions, in the order of `entries`.
    pub open spec fn scores(self) -> Seq<Score<V>> {
        self.entries().map_values(|e: (&'static str, Score<V>)| e.1)
    }

    /// Which emotions reach `threshold`.
    pub open spec fn reaching(self, threshold: Option<u32>) -> Seq<bool> {
        Seq::new(6, |i: int| at_least(self.entries()[i].1.rank, threshold))
    }

    /// Emotion `m` is at least as strong as every emotion, and stronger than
    /// every emotion after it in the fixed order.
    pub open spec fn is_last_strongest(self, m: int) -> bool {
        &&& 0 <= m < 6
        &&& forall|j: int|
            0 <= j < 6 ==> at_least(self.entries()[m].1.rank, #[trigger] self.entries()[j].1.rank)
        &&& forall|j: int|
            m < j < 6 ==> outranks(self.entries()[m].1.rank, #[trigger] self.entries()[j].1.rank)
    }

    fn entry_list(&self) -> (list: Vec<(&'static str, Score<V>)>)
        ensures
            list@ == self.entries(),
    {
        vec![
            ("Joy", self.joy),
            ("Sadness", self.sadness),
            ("Anger", self.anger),
            ("Fear", self.fear),
            ("Surprise", self.surprise),
            ("Disgust", self.disgust),
        ]
    }

    /// The emotions whose score reaches `threshold`, strongest first; emotions
    /// of equal score keep their fixed order.
    pub fn top_emotions(&self, threshold: Option<u32>) -> (top: Vec<(&'static str, V)>)
        requires
            all_ordered(self.scores()),
        ensures
            exists|order: Seq<usize>|
                {
                    &&& is_descending_arrangement(
                        ranks_of(self.scores()),
                        self.reaching(threshold),
                        order,
                    )
                    &&& top@.len() == order.len()
                    &&& forall|k: int|
                        0 <= k < order.len() ==> #[trigger] top@[k] == (
                            self.entries()[order[k] as int].0,
                            self.entries()[order[k] as int].1.value,
                        )
                },
    {
        let entries = self.entry_list();
        let mut ranks: Vec<Option<u32>> = Vec::new();
        let mut keep: Vec<bool> = Vec::new();
        let mut i: usize = 0;
        while i < entries.len()
            invariant
                entries@ == self.entries(),
                0 <= i <= entries.len(),
                ranks@.len() == i,
                keep@.len() == i,
                forall|j: int| 0 <= j < i ==> #[trigger] ranks@[j] == entries@[j].1.rank,
                forall|j: int|
                    0 <= j < i ==> #[trigger] keep@[j] == at_least(entries@[j].1.rank, threshold),
            decreases entries.len() - i,
        {
            ranks.push(entries[i].1.rank);
            keep.push(not_below(entries[i].1.rank, threshold));
            i = i + 1;
        }
        assert(ranks@ =~= ranks_of(self.scores()));
        assert(keep@ =~= self.reaching(threshold));
        proof {
            assert forall|j: int| 0 <= j < ranks@.len() && #[trigger] keep@[j] implies ranks@[j] is Some by {
                assert(self.scores()[j] == entries@[j].1);
            }
        }
        let order = descending_arrangement(&ranks, &keep);
        let mut top: Vec<(&'static str, V)> = Vec::new();
        let mut k: usize = 0;
        while k < order.len()
            invariant
                entries@ == self.entries(),
                is_descending_arrangement(ranks@, keep@, order@),
                ranks@.len() == 6,
                0 <= k <= order.len(),
                top@.len() == k,
                forall|m: int|
                    0 <= m < k ==> #[trigger] top@[m] == (
                        entries@[order@[m] as int].0,
                        entries@[order@[m] as int].1.value,
                    ),
            decreases order.len() - k,
        {
            let e = entries[order[k]];
            top.push((e.0, e.1.value));
            k = k + 1;
        }
        top
    }

    /// The emotion with the greatest score, with its value; of several equally
    /// strong emotions, the last in the fixed order.
    pub fn dominant(&self) -> (strongest: (&'static str, V))
        requires
            all_ordered(self.scores()),
        ensures
            exists|m: int|
                #[trigger] self.is_last_strongest(m) && strongest == (
                    self.entries()[m].0,
                    self.entries()[m].1.value,
                ),
    {
        let entries = self.entry_list();
        proof {
            assert forall|j: int| 0 <= j < 6 implies (#[trigger] entries@[j]).1.rank is Some by {
                assert(self.scores()[j] == entries@[j].1);
            }
        }
        let mut best: usize = 0;
        let mut i: usize = 1;
        while i < 6
            invariant
                entries@ == self.entries(),
                forall|j: int| 0 <= j < 6 ==> (#[trigger] entries@[j]).1.rank is Some,
                1 <= i <= 6,
                best < i,
                forall|j: int| 0 <= j < i ==> at_least(entries@[best as int].1.rank, #[trigger] entries@[j].1.rank),
                forall|j: int| best < j < i ==> outranks(entries@[best as int].1.rank, #[trigger] entries@[j].1.rank),
            decreases 6 - i,
        {
            if not_below(entries[i].1.rank, entries[best].1.rank) {
                best = i;
            }
            i = i + 1;
        }
        let e = entries[best];
        assert(self.is_last_strongest(best as int));
        (e.0, e.1.value)
    }
}

/// The similarity of a text to each of a list of named themes.
#[derive(Debug, Clone)]
pub struct ThemeScore<V> {
    pub themes: Vec<(String, Score<V>)>,
}

/// The themes of `themes` whose score reaches `threshold`, by name and value,
/// in their order.
pub open spec fn themes_reaching<V>(themes: Seq<(String, Score<V>)>, threshold: Option<u32>) -> Seq<
    (Seq<char>, V),
>
    decreases themes.len(),
{
    if themes.len() == 0 {
        Seq::empty()
    } else {
        let rest = themes_reaching(themes.drop_last(), threshold);
        let last = themes.last();
        if at_least(last.1.rank, threshold) {
            rest.push((last.0@, last.1.value))
        } else {
            rest
        }
    }
}

impl<V: Copy> ThemeScore<V> {
    /// The themes whose score reaches `threshold`, in the order in which they
    /// are listed.
    pub fn top_themes(&self, threshold: Option<u32>) -> (top: Vec<(&str, V)>)
        ensures
            exists|picked: Seq<int>|
                {
                    &&& picks_reaching(self.themes@, threshold, picked)
                    &&& top@.len() == picked.len()
                    &&& forall|k: int|
                        0 <= k < picked.len() ==> (#[trigger] top@[k]).0@ == self.themes@[picked[k]].0@
                            && top@[k].1 == self.themes@[picked[k]].1.value
                },
            top@.len() == themes_reaching(self.themes@, threshold).len(),
            forall|k: int|
                0 <= k < top@.len() ==> (#[trigger] top@[k]).0@ == themes_reaching(
                    self.themes@,
                    threshold,
                )[k].0 && top@[k].1 == themes_reaching(self.themes@, threshold)[k].1,
    {
        let mut top: Vec<(&str, V)> = Vec::new();
        let mut i: usize = 0;
        while i < self.themes.len()
            invariant
                0 <= i <= self.themes.len(),
                top@.len() == themes_reaching(self.themes@.take(i as int), threshold).len(),
                forall|k: int|
                    0 <= k < top@.len() ==> (#[trigger] top@[k]).0@ == themes_reaching(
                        self.themes@.take(i as int),
                        threshold,
                    )[k].0 && top@[k].1 == themes_reaching(self.themes@.take(i as int), threshold)[k].1,
            decreases self.themes.len() - i,
        {
            assert(self.themes@.take(i + 1).drop_last() =~= self.themes@.take(i as int));
            let entry = &self.themes[i];
            if not_below(entry.1.rank, threshold) {
                top.push((entry.0.as_str(), entry.1.value));
            }
            i = i + 1;
        }
        assert(self.themes@.take(self.themes.len() as int) =~= self.themes@);
        proof {
            let picked = lemma_themes_reaching_picks(self.themes@, threshold);
            assert(forall|k: int|
                0 <= k < picked.len() ==> (#[trigger] top@[k]).0@ == self.themes@[picked[k]].0@
                    && top@[k].1 == self.themes@[picked[k]].1.value);
        }
        top
    }
}

/// The sentiment that `dominant` names is the one whose value `confidence`
/// gives: a positive verdict goes with the positive score, a negative one
/// with the negative score.
pub proof fn lemma_dominant_sentiment_is_strongest<V: Copy>(score: SentimentScore<V>)
    ensures
        sentiment_label(score.positive.rank, score.negative.rank, score.neutral.rank)
            == "Positive" ==> score.strongest() == score.positive,
        sentiment_label(score.positive.rank, score.negative.rank, score.neutral.rank)
            == "Negative" ==> score.strongest() == score.negative,
{
    reveal_strlit("Positive");
    reveal_strlit("Negative");
    reveal_strlit("Neutral");
    let label = sentiment_label(score.positive.rank, score.negative.rank, score.neutral.rank);
    if outranks(score.positive.rank, score.negative.rank) && outranks(
        score.positive.rank,
        score.neutral.rank,
    ) {
        assert(label@ == "Positive"@);
    } else if outranks(score.negative.rank, score.positive.rank) && outranks(
        score.negative.rank,
        score.neutral.rank,
    ) {
        assert(label@ == "Negative"@);
        assert(label@[0] != "Positive"@[0]);
    } else {
        assert(label@ == "Neutral"@);
        assert(label@[0] != "Positive"@[0]);
        assert(label@[2] != "Negative"@[2]);
    }
}

/// An emotion stronger than every other one is the one that `dominant`
/// names, and it heads the list of `top_emotions` for every threshold that
/// it reaches.
pub proof fn lemma_strongest_emotion_heads_top<V: Copy>(
    emotion: EmotionScore<V>,
    threshold: Option<u32>,
    order: Seq<usize>,
    m: int,
)
    requires
        all_ordered(emotion.scores()),
        0 <= m < 6,
        forall|j: int|
            0 <= j < 6 && j != m ==> outranks(
                emotion.entries()[m].1.rank,
                #[trigger] emotion.entries()[j].1.rank,
            ),
        at_least(emotion.entries()[m].1.rank, threshold),
        is_descending_arrangement(ranks_of(emotion.scores()), emotion.reaching(threshold), order),
    ensures
        order.len() > 0,
        order[0] == m,
        forall|d: int| #[trigger] emotion.is_last_strongest(d) ==> d == m,
{
    let ranks = ranks_of(emotion.scores());
    assert(ranks[m] == emotion.entries()[m].1.rank);
    assert(emotion.reaching(threshold)[m]);
    assert(order.contains(m as usize));
    let k = choose|k: int| 0 <= k < order.len() && order[k] == m as usize;
    if k != 0 {
        let first = order[0] as int;
        assert(precedes(ranks, first, m));
        assert(ranks[first] == emotion.entries()[first].1.rank);
        assert(first != m);
    }
    assert forall|d: int| #[trigger] emotion.is_last_strongest(d) implies d == m by {
        if d != m {
            assert(at_least(emotion.entries()[d].1.rank, emotion.entries()[m].1.rank));
        }
    }
}

/// The label follows the ranks alone: "Positive" exactly when the positive
/// score is strictly above both others, "Negative" exactly when the negative
/// one is, and "Neutral" when neither is.
pub proof fn lemma_sentiment_label_by_ranks(p: Option<u32>, n: Option<u32>, u: Option<u32>)
    ensures
        outranks(p, n) && outranks(p, u) ==> sentiment_label(p, n, u) == "Positive",
        outranks(n, p) && outranks(n, u) ==> sentiment_label(p, n, u) == "Negative",
        !(outranks(p, n) && outranks(p, u)) && !(outranks(n, p) && outranks(n, u))
            ==> sentiment_label(p, n, u) == "Neutral",
{
}

/// The strongest of the three sentiment scores is one of them, and it is at
/// or above every one of them that is ordered.
pub proof fn lemma_strongest_is_greatest<V: Copy>(score: SentimentScore<V>)
    ensures
        score.strongest() == score.positive || score.strongest() == score.negative
            || score.strongest() == score.neutral,
        score.positive.rank is Some ==> at_least(score.strongest().rank, score.positive.rank),
        score.negative.rank is Some ==> at_least(score.strongest().rank, score.negative.rank),
        score.neutral.rank is Some ==> at_least(score.strongest().rank, score.neutral.rank),
{
}

/// `picked` lists, in increasing order, exactly the positions of the themes
/// whose score reaches `threshold`.
pub open spec fn picks_reaching<V>(
    themes: Seq<(String, Score<V>)>,
    threshold: Option<u32>,
    picked: Seq<int>,
) -> bool {
    &&& forall|k: int|
        0 <= k < picked.len() ==> 0 <= #[trigger] picked[k] < themes.len() && at_least(
            themes[picked[k]].1.rank,
            threshold,
        )
    &&& forall|a: int, b: int| 0 <= a < b < picked.len() ==> #[trigger] picked[a] < #[trigger] picked[b]
    &&& forall|i: int|
        0 <= i < themes.len() && at_least(#[trigger] themes[i].1.rank, threshold) ==> picked.contains(i)
}

/// The themes reaching a threshold are exactly those whose score is at or
/// above it, in their listed order.
pub proof fn lemma_themes_reaching_picks<V>(themes: Seq<(String, Score<V>)>, threshold: Option<u32>) -> (picked: Seq<int>)
    ensures
        picks_reaching(themes, threshold, picked),
        themes_reaching(themes, threshold).len() == picked.len(),
        forall|k: int|
            0 <= k < picked.len() ==> #[trigger] themes_reaching(themes, threshold)[k] == (
                themes[picked[k]].0@,
                themes[picked[k]].1.value,
            ),
    decreases themes.len(),
{
    if themes.len() == 0 {
        Seq::empty()
    } else {
        let rest = themes.drop_last();
        let earlier = lemma_themes_reaching_picks(rest, threshold);
        let last = themes.len() - 1;
        assert forall|k: int| 0 <= k < earlier.len() implies themes[earlier[k]] == rest[earlier[k]] by {}
        if at_least(themes[last].1.rank, threshold) {
            let picked = earlier.push(last);
            assert forall|i: int|
                0 <= i < themes.len() && at_least(#[trigger] themes[i].1.rank, threshold) implies picked.contains(i) by {
                if i < last {
                    assert(rest[i] == themes[i]);
                    let k = choose|k: int| 0 <= k < earlier.len() && earlier[k] == i;
                    assert(picked[k] == i);
                } else {
                    assert(picked[earlier.len() as int] == i);
                }
            }
            assert forall|k: int| 0 <= k < picked.len() implies #[trigger] themes_reaching(themes, threshold)[k] == (
                themes[picked[k]].0@,
                themes[picked[k]].1.value,
            ) by {
                if k < earlier.len() {
                    assert(themes[earlier[k]] == rest[earlier[k]]);
                }
            }
            picked
        } else {
            assert forall|i: int|
                0 <= i < themes.len() && at_least(#[trigger] themes[i].1.rank, threshold) implies earlier.contains(i) by {
                assert(i < last);
                assert(rest[i] == themes[i]);
            }
            earlier
        }
    }
}

/// A full selection keeps every entry.
pub proof fn lemma_keep_all_keeps_everything(n: nat)
    ensures
        keep_all(n).len() == n,
        forall|i: int| 0 <= i < n ==> #[trigger] keep_all(n)[i],
{
}

/// The six emotions are listed by name in their fixed order, with their own
/// scores; an emotion reaches a threshold exactly when both are ordered and
/// its rank is at or above the threshold's; and the emotion that `dominant`
/// names has a rank at or above every other rank and strictly above every
/// later one.
pub proof fn lemma_emotions_by_ranks<V: Copy>(emotion: EmotionScore<V>, threshold: Option<u32>)
    ensures
        emotion.entries().len() == 6,
        emotion.entries()[0] == ("Joy", emotion.joy),
        emotion.entries()[1] == ("Sadness", emotion.sadness),
        emotion.entries()[2] == ("Anger", emotion.anger),
        emotion.entries()[3] == ("Fear", emotion.fear),
        emotion.entries()[4] == ("Surprise", emotion.surprise),
        emotion.entries()[5] == ("Disgust", emotion.disgust),
        emotion.reaching(threshold).len() == 6,
        forall|i: int|
            0 <= i < 6 ==> (#[trigger] emotion.reaching(threshold)[i] <==> (
            emotion.entries()[i].1.rank matches Some(r) && threshold matches Some(t) && r >= t)),
        forall|m: int|
            #[trigger] emotion.is_last_strongest(m) <==> (0 <= m < 6 && forall|j: int|
                0 <= j < 6 ==> (emotion.entries()[m].1.rank matches Some(x) && (
                #[trigger] emotion.entries()[j].1.rank) matches Some(y) && x >= y && (j > m ==> x
                > y))),
{
    assert forall|m: int|
        #[trigger] emotion.is_last_strongest(m) <==> (0 <= m < 6 && forall|j: int|
            0 <= j < 6 ==> (emotion.entries()[m].1.rank matches Some(x) && (
            #[trigger] emotion.entries()[j].1.rank) matches Some(y) && x >= y && (j > m ==> x > y))) by {
        if emotion.is_last_strongest(m) {
            assert forall|j: int| 0 <= j < 6 implies (emotion.entries()[m].1.rank matches Some(x) && (
            #[trigger] emotion.entries()[j].1.rank) matches Some(y) && x >= y && (j > m ==> x > y)) by {
                assert(at_least(emotion.entries()[m].1.rank, emotion.entries()[j].1.rank));
                if j > m {
                    assert(outranks(emotion.entries()[m].1.rank, emotion.entries()[j].1.rank));
                }
            }
        }
    }
}

} // verus!
