use minilm_analysis::analyzer::{ChunkAnalysis, DocumentAnalysis, SemanticAnalyzer};
use minilm_analysis::anchors::{Anchors, JOY_TEXT, NEUTRAL_TEXT, POSITIVE_TEXT, TECHNOLOGY_TEXT};
use minilm_analysis::one_hot::one_hot_mask;
use minilm_analysis::scores::{EmotionScore, Score, SentimentScore, ThemeScore};

fn score(value: f32, rank: u32) -> Score<f32> {
    Score { value, rank: Some(rank) }
}

fn anchors(names: &[&str]) -> Anchors<u8> {
    Anchors {
        positive: 0,
        negative: 1,
        neutral: 2,
        joy: 3,
        sadness: 4,
        anger: 5,
        fear: 6,
        surprise: 7,
        disgust: 8,
        theme_embeddings: names.iter().enumerate().map(|(i, n)| (n.to_string(), i as u8)).collect(),
    }
}

fn flat_sentiment() -> SentimentScore<f32> {
    SentimentScore { positive: score(0.33, 33), negative: score(0.33, 33), neutral: score(0.34, 34) }
}

fn flat_emotion() -> EmotionScore<f32> {
    EmotionScore {
        joy: score(0.16, 16),
        sadness: score(0.16, 16),
        anger: score(0.17, 17),
        fear: score(0.17, 17),
        surprise: score(0.17, 17),
        disgust: score(0.17, 17),
    }
}

fn chunk(index: usize, themes: &[(&str, f32, u32)]) -> ChunkAnalysis<f32> {
    ChunkAnalysis {
        chunk_index: index,
        sentiment: flat_sentiment(),
        emotion: flat_emotion(),
        themes: ThemeScore {
            themes: themes.iter().map(|(n, v, r)| (n.to_string(), score(*v, *r))).collect(),
        },
    }
}

#[test]
fn anchor_tables_hold_the_anchor_texts() {
    let s = Anchors::<u8>::sentiment_anchors();
    assert_eq!(s.len(), 3);
    assert_eq!(s[0], ("positive", POSITIVE_TEXT));
    assert_eq!(s[2], ("neutral", NEUTRAL_TEXT));
    assert!(s[1].1.starts_with("This is terrible, awful"));
    let e = Anchors::<u8>::emotion_anchors();
    let names: Vec<&str> = e.iter().map(|a| a.0).collect();
    assert_eq!(names, vec!["joy", "sadness", "anger", "fear", "surprise", "disgust"]);
    assert_eq!(e[0].1, JOY_TEXT);
    let t = Anchors::<u8>::default_theme_anchors();
    let names: Vec<&str> = t.iter().map(|a| a.0).collect();
    assert_eq!(names, vec!["Technology", "Business", "Health", "Education", "Science", "Entertainment"]);
    assert_eq!(t[0].1, TECHNOLOGY_TEXT);
    assert!(t[5].1.ends_with("entertainment media."));
}

#[test]
fn themes_are_sorted_by_similarity() {
    let a = anchors(&["Technology", "Business", "Health"]);
    let sims = vec![score(0.1, 10), score(0.6, 60), score(0.3, 30)];
    let themes = SemanticAnalyzer::analyze_themes(sims, &a);
    let listed: Vec<(&str, f32)> = themes.themes.iter().map(|(n, s)| (n.as_str(), s.value)).collect();
    assert_eq!(listed, vec![("Business", 0.6), ("Health", 0.3), ("Technology", 0.1)]);
}

#[test]
fn equally_similar_themes_keep_anchor_order() {
    let a = anchors(&["A", "B", "C", "D"]);
    let sims = vec![score(0.2, 20), score(0.5, 50), score(0.2, 20), score(0.5, 50)];
    let themes = SemanticAnalyzer::analyze_themes(sims, &a);
    let names: Vec<&str> = themes.themes.iter().map(|(n, _)| n.as_str()).collect();
    assert_eq!(names, vec!["B", "D", "A", "C"]);
}

#[test]
fn single_unordered_theme_is_kept() {
    let a = anchors(&["Only"]);
    let themes = SemanticAnalyzer::analyze_themes(vec![Score { value: f32::NAN, rank: None }], &a);
    assert_eq!(themes.themes.len(), 1);
    assert_eq!(themes.themes[0].0, "Only");
}

#[test]
fn chunks_are_numbered_in_order() {
    let parts = vec![
        (flat_sentiment(), flat_emotion(), ThemeScore { themes: vec![] }),
        (flat_sentiment(), flat_emotion(), ThemeScore { themes: vec![("X".to_string(), score(0.5, 5))] }),
        (flat_sentiment(), flat_emotion(), ThemeScore { themes: vec![] }),
    ];
    let analyses = SemanticAnalyzer::analyze_all_chunks(parts);
    let indices: Vec<usize> = analyses.iter().map(|a| a.chunk_index).collect();
    assert_eq!(indices, vec![0, 1, 2]);
    assert_eq!(analyses[1].themes.themes[0].0, "X");
}

#[test]
fn theme_groups_gather_scores_by_name() {
    let analyses = vec![
        chunk(0, &[("Science", 0.5, 50), ("Health", 0.25, 25)]),
        chunk(1, &[("Health", 0.75, 75), ("Business", 0.125, 12), ("Science", 0.0, 0)]),
    ];
    let groups = DocumentAnalysis::theme_groups(&analyses);
    assert_eq!(
        groups,
        vec![
            ("Science".to_string(), vec![0.5, 0.0]),
            ("Health".to_string(), vec![0.25, 0.75]),
            ("Business".to_string(), vec![0.125]),
        ]
    );
    let gathered: usize = groups.iter().map(|g| g.1.len()).sum();
    assert_eq!(gathered, 5);
}

#[test]
fn document_lists_themes_by_mean_score() {
    let analyses = vec![
        chunk(0, &[("Science", 0.5, 50), ("Health", 0.25, 25)]),
        chunk(1, &[("Health", 0.75, 75), ("Business", 0.125, 12), ("Science", 0.0, 0)]),
    ];
    let means = vec![score(0.25, 25), score(0.5, 50), score(0.0625, 6)];
    let doc = DocumentAnalysis::from_chunks(&analyses, flat_sentiment(), flat_emotion(), means);
    assert_eq!(doc.chunk_count, 2);
    let listed: Vec<(&str, f32)> =
        doc.theme_distribution.iter().map(|(n, s)| (n.as_str(), s.value)).collect();
    assert_eq!(listed, vec![("Health", 0.5), ("Science", 0.25), ("Business", 0.0625)]);
    assert_eq!(doc.overall_sentiment.neutral.value, 0.34);
}

#[test]
fn document_of_no_chunks_is_empty() {
    let analyses: Vec<ChunkAnalysis<f32>> = vec![];
    assert!(DocumentAnalysis::theme_groups(&analyses).is_empty());
    let doc = DocumentAnalysis::from_chunks(&analyses, flat_sentiment(), flat_emotion(), vec![]);
    assert_eq!(doc.chunk_count, 0);
    assert!(doc.theme_distribution.is_empty());
}

#[test]
fn one_hot_rows_mark_each_token() {
    let mask = one_hot_mask(&[2, 0, 7], 4);
    assert_eq!(
        mask,
        vec![
            false, false, true, false, //
            true, false, false, false, //
            false, false, false, false,
        ]
    );
}

#[test]
fn one_hot_of_nothing_is_empty() {
    assert!(one_hot_mask(&[], 5).is_empty());
    assert!(one_hot_mask(&[1, 2], 0).is_empty());
}
