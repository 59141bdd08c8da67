//! Anchor texts and their embeddings.
//!
//! Each sentiment, emotion and theme is described by a short anchor text;
//! the embedding of a chunk is compared with the embeddings of these texts.
use vstd::prelude::*;

verus! {

pub const POSITIVE_TEXT: &'static str = "This is absolutely wonderful, excellent, amazing, fantastic, and great. I love it and feel very happy and delighted about this. Everything is perfect and outstanding.";

pub const NEGATIVE_TEXT: &'static str = "This is terrible, awful, horrible, disgusting, and bad. I hate it and feel very upset and disappointed about this. Everything is wrong and unacceptable.";

pub const NEUTRAL_TEXT: &'static str = "This is okay, average, normal, standard, and moderate. It is neither good nor bad, just acceptable and adequate. Everything is fine and unremarkable.";

pub const JOY_TEXT: &'static str = "I am extremely happy, delighted, joyful, cheerful, and thrilled about this. I feel wonderful, excited, and full of happiness and pleasure.";

pub const SADNESS_TEXT: &'static str = "I feel very sad, disappointed, sorrowful, unhappy, and dejected about this. I am heartbroken, melancholic, and filled with grief and despair.";

pub const ANGER_TEXT: &'static str = "I am furious, angry, outraged, mad, and enraged about this. I feel irritated, frustrated, and filled with rage and hostility.";

pub const FEAR_TEXT: &'static str = "I am terrified, scared, afraid, anxious, and worried about this. I feel nervous, panicked, and filled with fear and dread.";

pub const SURPRISE_TEXT: &'static str = "I am shocked, amazed, astonished, surprised, and stunned by this. I feel astounded, startled, and filled with wonder and disbelief.";

pub const DISGUST_TEXT: &'static str = "I find this repulsive, disgusting, revolting, nauseating, and gross. I feel sickened, appalled, and filled with revulsion and distaste.";

pub const TECHNOLOGY_TEXT: &'static str = "Software development, programming, coding, algorithms, computers, digital technology, artificial intelligence, machine learning, data science, and technical systems.";

pub const BUSINESS_TEXT: &'static str = "Revenue, profits, strategy, market growth, sales, business operations, finance, investments, corporate management, and commercial activities.";

pub const HEALTH_TEXT: &'static str = "Wellness, medicine, fitness, healthcare, medical treatment, mental health, exercise, nutrition, physical wellbeing, and healthy lifestyle.";

pub const EDUCATION_TEXT: &'static str = "Learning, teaching, schools, universities, students, academic studies, knowledge, training, educational programs, and intellectual development.";

pub const SCIENCE_TEXT: &'static str = "Research, experiments, scientific discovery, physics, chemistry, biology, scientific method, data analysis, laboratory work, and empirical studies.";

pub const ENTERTAINMENT_TEXT: &'static str = "Movies, music, games, television, sports, recreation, leisure activities, fun, enjoyment, and entertainment media.";

/// The sentiment anchors: a name and its text, positive, negative, neutral.
pub open spec fn sentiment_table() -> Seq<(&'static str, &'static str)> {
    seq![("positive", POSITIVE_TEXT), ("negative", NEGATIVE_TEXT), ("neutral", NEUTRAL_TEXT)]
}

/// The emotion anchors, in the order of the emotion scores.
pub open spec fn emotion_table() -> Seq<(&'static str, &'static str)> {
    seq![
        ("joy", JOY_TEXT),
        ("sadness", SADNESS_TEXT),
        ("anger", ANGER_TEXT),
        ("fear", FEAR_TEXT),
        ("surprise", SURPRISE_TEXT),
        ("disgust", DISGUST_TEXT),
    ]
}

/// The themes that the analysis looks for unless it is given others.
pub open spec fn default_theme_table() -> Seq<(&'static str, &'static str)> {
    seq![
        ("Technology", TECHNOLOGY_TEXT),
        ("Business", BUSINESS_TEXT),
        ("Health", HEALTH_TEXT),
        ("Education", EDUCATION_TEXT),
        ("Science", SCIENCE_TEXT),
        ("Entertainment", ENTERTAINMENT_TEXT),
    ]
}

/// The embeddings of the anchor texts, of whatever type the embedder
/// produces.
pub struct Anchors<E> {
    pub positive: E,
    pub negative: E,
    pub neutral: E,
    pub joy: E,
    pub sadness: E,
    pub anger: E,
    pub fear: E,
    pub surprise: E,
    pub disgust: E,
    pub theme_embeddings: Vec<(String, E)>,
}

impl<E> Anchors<E> {
    /// The names and texts of the sentiment anchors.
    pub fn sentiment_anchors() -> (table: Vec<(&'static str, &'static str)>)
        ensures
            table@ == sentiment_table(),
    {
        vec![("positive", POSITIVE_TEXT), ("negative", NEGATIVE_TEXT), ("neutral", NEUTRAL_TEXT)]
    }

    /// The names and texts of the emotion anchors.
    pub fn emotion_anchors() -> (table: Vec<(&'static str, &'static str)>)
        ensures
            table@ == emotion_table(),
    {
        vec![
            ("joy", JOY_TEXT),
            ("sadness", SADNESS_TEXT),
            ("anger", ANGER_TEXT),
            ("fear", FEAR_TEXT),
            ("surprise", SURPRISE_TEXT),
            ("disgust", DISGUST_TEXT),
        ]
    }

    /// The names and texts of the default themes.
    pub fn default_theme_anchors() -> (table: Vec<(&'static str, &'static str)>)
        ensures
            table@ == default_theme_table(),
    {
        vec![
            ("Technology", TECHNOLOGY_TEXT),
            ("Business", BUSINESS_TEXT),
            ("Health", HEALTH_TEXT),
            ("Education", EDUCATION_TEXT),
            ("Science", SCIENCE_TEXT),
            ("Entertainment", ENTERTAINMENT_TEXT),
        ]
    }
}

} // verus!
