use minilm_analysis::ranking::descending_arrangement;
use minilm_analysis::scores::{EmotionScore, Score, SentimentScore, ThemeScore};

fn score(value: f32, rank: u32) -> Score<f32> {
    Score { value, rank: Some(rank) }
}

fn unordered(value: f32) -> Score<f32> {
    Score { value, rank: None }
}

fn sentiment(p: Score<f32>, n: Score<f32>, u: Score<f32>) -> SentimentScore<f32> {
    SentimentScore { positive: p, negative: n, neutral: u }
}

fn emotions(ranks: [u32; 6]) -> EmotionScore<f32> {
    let v = |i: usize| ranks[i] as f32 / 100.0;
    EmotionScore {
        joy: score(v(0), ranks[0]),
        sadness: score(v(1), ranks[1]),
        anger: score(v(2), ranks[2]),
        fear: score(v(3), ranks[3]),
        surprise: score(v(4), ranks[4]),
        disgust: score(v(5), ranks[5]),
    }
}

#[test]
fn dominant_sentiment_positive() {
    let s = sentiment(score(0.5, 50), score(0.2, 20), score(0.3, 30));
    assert_eq!(s.dominant(), "Positive");
}

#[test]
fn dominant_sentiment_negative() {
    let s = sentiment(score(0.2, 20), score(0.5, 50), score(0.3, 30));
    assert_eq!(s.dominant(), "Negative");
}

#[test]
fn dominant_sentiment_neutral_when_neutral_is_highest() {
    let s = sentiment(score(0.3, 30), score(0.2, 20), score(0.5, 50));
    assert_eq!(s.dominant(), "Neutral");
}

#[test]
fn dominant_sentiment_neutral_on_a_tie_at_the_top() {
    let s = sentiment(score(0.4, 40), score(0.4, 40), score(0.2, 20));
    assert_eq!(s.dominant(), "Neutral");
}

#[test]
fn dominant_sentiment_neutral_when_unordered() {
    let s = sentiment(unordered(f32::NAN), score(0.2, 20), score(0.1, 10));
    assert_eq!(s.dominant(), "Neutral");
}

#[test]
fn confidence_is_the_greatest_value() {
    let s = sentiment(score(0.2, 20), score(0.5, 50), score(0.3, 30));
    assert_eq!(s.confidence(), 0.5);
    let s = sentiment(score(0.2, 20), score(0.1, 10), score(0.7, 70));
    assert_eq!(s.confidence(), 0.7);
}

#[test]
fn confidence_passes_over_unordered_scores() {
    let s = sentiment(unordered(f32::NAN), score(0.1, 10), unordered(f32::NAN));
    assert_eq!(s.confidence(), 0.1);
}

#[test]
fn confidence_of_unordered_scores_is_unordered() {
    let s = sentiment(unordered(f32::NAN), unordered(f32::NAN), unordered(f32::NAN));
    assert!(s.confidence().is_nan());
}

#[test]
fn top_emotions_strongest_first_above_threshold() {
    let e = emotions([30, 10, 50, 20, 40, 5]);
    let top = e.top_emotions(Some(20));
    assert_eq!(top, vec![("Anger", 0.5), ("Surprise", 0.4), ("Joy", 0.3), ("Fear", 0.2)]);
}

#[test]
fn top_emotions_keep_fixed_order_on_ties() {
    let e = emotions([20, 30, 20, 30, 10, 20]);
    let top = e.top_emotions(Some(20));
    let names: Vec<&str> = top.iter().map(|t| t.0).collect();
    assert_eq!(names, vec!["Sadness", "Fear", "Joy", "Anger", "Disgust"]);
}

#[test]
fn top_emotions_empty_for_unordered_threshold() {
    let e = emotions([30, 10, 50, 20, 40, 5]);
    assert!(e.top_emotions(None).is_empty());
}

#[test]
fn top_emotions_empty_above_everything() {
    let e = emotions([30, 10, 50, 20, 40, 5]);
    assert!(e.top_emotions(Some(51)).is_empty());
}

#[test]
fn dominant_emotion_is_the_strongest() {
    let e = emotions([30, 10, 50, 20, 40, 5]);
    assert_eq!(e.dominant(), ("Anger", 0.5));
}

#[test]
fn dominant_emotion_is_the_last_of_equals() {
    let e = emotions([40, 10, 40, 20, 40, 5]);
    assert_eq!(e.dominant(), ("Surprise", 0.4));
}

#[test]
fn strongest_emotion_heads_top_emotions() {
    let e = emotions([12, 33, 8, 61, 2, 15]);
    let top = e.top_emotions(Some(10));
    assert_eq!(top[0], e.dominant());
}

#[test]
fn dominant_sentiment_goes_with_confidence() {
    let s = sentiment(score(0.6, 60), score(0.1, 10), score(0.3, 30));
    assert_eq!(s.dominant(), "Positive");
    assert_eq!(s.confidence(), s.positive.value);
    let s = sentiment(score(0.1, 10), score(0.6, 60), score(0.3, 30));
    assert_eq!(s.dominant(), "Negative");
    assert_eq!(s.confidence(), s.negative.value);
}

#[test]
fn top_themes_keep_listed_order() {
    let themes = ThemeScore {
        themes: vec![
            ("Science".to_string(), score(0.7, 70)),
            ("Health".to_string(), score(0.2, 20)),
            ("Business".to_string(), score(0.4, 40)),
            ("Education".to_string(), unordered(f32::NAN)),
            ("Technology".to_string(), score(0.3, 30)),
        ],
    };
    assert_eq!(themes.top_themes(Some(30)), vec![("Science", 0.7), ("Business", 0.4), ("Technology", 0.3)]);
    assert!(themes.top_themes(None).is_empty());
    assert_eq!(themes.top_themes(Some(0)).len(), 4);
}

#[test]
fn arrangement_is_a_stable_descending_sort() {
    let ranks = vec![Some(3), Some(7), Some(3), Some(9), Some(1)];
    let keep = vec![true; 5];
    assert_eq!(descending_arrangement(&ranks, &keep), vec![3, 1, 0, 2, 4]);
    let keep = vec![true, false, true, true, false];
    assert_eq!(descending_arrangement(&ranks, &keep), vec![3, 0, 2]);
}

#[test]
fn arrangement_of_one_unordered_entry() {
    assert_eq!(descending_arrangement(&vec![None], &vec![true]), vec![0]);
    assert!(descending_arrangement(&vec![], &vec![]).is_empty());
}
