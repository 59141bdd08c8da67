use minilm_analysis::chunking::{chunk_text, split_words};
use minilm_analysis::session::{ModelLoad, Session};
use minilm_analysis::text::{char_is_whitespace, preview};

#[test]
fn words_are_runs_between_white_space() {
    let words = split_words("  alpha\tbeta\n\ngamma\u{a0}delta  ");
    assert_eq!(words, vec!["alpha", "beta", "gamma", "delta"]);
}

#[test]
fn words_of_blank_text() {
    assert!(split_words("").is_empty());
    assert!(split_words(" \t\r\n ").is_empty());
    assert_eq!(split_words("one"), vec!["one"]);
}

#[test]
fn words_keep_other_characters() {
    assert_eq!(split_words("héllo, wörld!"), vec!["héllo,", "wörld!"]);
}

#[test]
fn chunks_of_two_words() {
    let chunks = chunk_text("a b  c\nd e", 2);
    assert_eq!(chunks, vec!["a b", "c d", "e"]);
}

#[test]
fn chunk_larger_than_text() {
    assert_eq!(chunk_text("one two three", 50), vec!["one two three"]);
    assert!(chunk_text("   ", 3).is_empty());
}

#[test]
fn chunks_put_back_together_give_the_words() {
    let text = "the quick brown fox jumps over the lazy dog again";
    let chunks = chunk_text(text, 3);
    assert_eq!(chunks.len(), 4);
    for c in &chunks[..3] {
        assert_eq!(split_words(c).len(), 3);
    }
    assert_eq!(split_words(&chunks[3]).len(), 1);
    assert_eq!(chunks.join(" "), text);
}

#[test]
fn new_session_defaults() {
    let s = Session::new();
    assert!(s.file_path.is_none());
    assert_eq!(s.words_per_chunk, 50);
    assert!(!s.model_loaded && !s.model_loading && !s.is_processing);
    assert!(s.error_message.is_none());
}

#[test]
fn model_load_messages() {
    let mut s = Session::new();
    s.start_model_load();
    assert!(s.model_loading);
    s.finish_model_load(ModelLoad::Ready);
    assert!(s.model_loaded && !s.model_loading);
    assert_eq!(s.error_message.as_deref(), Some("\u{2705} Model and anchors loaded successfully!"));

    let mut s = Session::new();
    s.start_model_load();
    s.finish_model_load(ModelLoad::ModelFailed("no network".to_string()));
    assert!(!s.model_loaded);
    assert_eq!(s.error_message.as_deref(), Some("Failed to load model: no network"));

    let mut s = Session::new();
    s.finish_model_load(ModelLoad::AnchorsFailed("bad text".to_string()));
    assert_eq!(s.error_message.as_deref(), Some("Failed to create anchors: bad text"));
}

#[test]
fn file_read_and_chunks() {
    let mut s = Session::new();
    s.file_picked("notes.txt".to_string(), Ok("one two three four five".to_string()));
    assert_eq!(s.file_path.as_deref(), Some("notes.txt"));
    assert!(s.error_message.is_none());
    assert_eq!(s.make_chunks(2), 3);
    assert_eq!(s.chunks, vec!["one two", "three four", "five"]);
    s.file_picked("other.txt".to_string(), Err("permission denied".to_string()));
    assert_eq!(s.file_content, "one two three four five");
    assert_eq!(s.error_message.as_deref(), Some("Failed to read file: permission denied"));
    s.clear_chunks();
    assert!(s.chunks.is_empty());
}

#[test]
fn embedding_needs_a_model() {
    let mut s = Session::new();
    assert!(!s.start_embedding(false));
    assert!(!s.is_processing);
    assert_eq!(s.error_message.as_deref(), Some("Please load the model first!"));
    assert!(s.start_embedding(true));
    assert!(s.is_processing);
}

#[test]
fn embedding_messages() {
    let mut s = Session::new();
    s.start_embedding(true);
    s.finish_embedding(Ok(12));
    assert!(!s.is_processing);
    assert_eq!(s.error_message.as_deref(), Some("\u{2705} Generated 12 embeddings"));
    s.finish_embedding(Ok(0));
    assert_eq!(s.error_message.as_deref(), Some("\u{2705} Generated 0 embeddings"));
    s.finish_embedding(Ok(1050));
    assert_eq!(s.error_message.as_deref(), Some("\u{2705} Generated 1050 embeddings"));
    s.finish_embedding(Err("out of memory".to_string()));
    assert_eq!(s.error_message.as_deref(), Some("Failed to generate embeddings: out of memory"));
}

#[test]
fn preview_cuts_long_text() {
    assert_eq!(preview("abcdefgh", 3), "abc...");
    assert_eq!(preview("abc", 3), "abc");
    assert_eq!(preview("", 0), "");
    assert_eq!(preview("héllo", 3), "hé...");
}

#[test]
fn white_space_is_what_std_reports() {
    for v in 0..=0x10FFFFu32 {
        if let Some(c) = char::from_u32(v) {
            assert_eq!(char_is_whitespace(c), c.is_whitespace(), "U+{:04X}", v);
        }
    }
}

#[test]
fn no_chunks_of_a_text_without_words() {
    assert!(chunk_text("", 0).is_empty());
    assert!(chunk_text(" \n\t", 0).is_empty());
    let mut s = Session::new();
    s.file_picked("blank.txt".to_string(), Ok("   ".to_string()));
    assert_eq!(s.make_chunks(0), 0);
    assert!(s.chunks.is_empty());
}
