//! The state of an analysis session and its transitions: loading the model,
//! reading a file, chunking it, embedding the chunks.
//!
//! The work itself (loading the model, reading the file, computing
//! embeddings) happens outside; each transition takes what came of it and
//! decides the next state and the message shown to the user.
use vstd::prelude::*;

use crate::chunking::{chunk_text, join_words, word_groups, words_of};
use crate::text::{decimal, push_decimal};

verus! {

/// What came of loading the model and embedding the anchor texts.
pub enum ModelLoad {
    /// Both the model and the anchor embeddings are ready.
    Ready,
    /// The model could not be loaded; the text describes the error.
    ModelFailed(String),
    /// The model was loaded but the anchors could not be embedded.
    AnchorsFailed(String),
}

/// The plain state of an analysis session.
pub struct Session {
    pub file_path: Option<String>,
    pub file_content: String,
    pub chunks: Vec<String>,
    pub is_processing: bool,
    pub error_message: Option<String>,
    pub words_per_chunk: usize,
    pub model_loading: bool,
    pub model_loaded: bool,
}

pub open spec fn model_ready_message() -> Seq<char> {
    "\u{2705} Model and anchors loaded successfully!"@
}

pub open spec fn model_failed_message(error: Seq<char>) -> Seq<char> {
    "Failed to load model: "@ + error
}

pub open spec fn anchors_failed_message(error: Seq<char>) -> Seq<char> {
    "Failed to create anchors: "@ + error
}

pub open spec fn read_failed_message(error: Seq<char>) -> Seq<char> {
    "Failed to read file: "@ + error
}

pub open spec fn no_model_message() -> Seq<char> {
    "Please load the model first!"@
}

pub open spec fn embedded_message(count: nat) -> Seq<char> {
    "\u{2705} Generated "@ + decimal(count) + " embeddings"@
}

pub open spec fn embedding_failed_message(error: Seq<char>) -> Seq<char> {
    "Failed to generate embeddings: "@ + error
}

/// The message carries `text`.
pub open spec fn shows(message: Option<String>, text: Seq<char>) -> bool {
    message matches Some(m) && m@ == text
}

fn message_from(prefix: &str, detail: &str) -> (message: String)
    ensures
        message@ == prefix@ + detail@,
{
    let mut message = String::new();
    message.append(prefix);
    message.append(detail);
    message
}

impl Session {
    /// A fresh session: no file, no chunks, no model, chunks of 50 words.
    pub fn new() -> (session: Self)
        ensures
            session.file_path is None,
            session.file_content@ == Seq::<char>::empty(),
            session.chunks@.len() == 0,
            !session.is_processing,
            session.error_message is None,
            session.words_per_chunk == 50,
            !session.model_loading,
            !session.model_loaded,
    {
        Session {
            file_path: None,
            file_content: String::new(),
            chunks: Vec::new(),
            is_processing: false,
            error_message: None,
            words_per_chunk: 50,
            model_loading: false,
            model_loaded: false,
        }
    }

    /// The model starts loading: the message is cleared.
    pub fn start_model_load(&mut self)
        ensures
            final(self).model_loading,
            final(self).error_message is None,
            final(self).model_loaded == old(self).model_loaded,
            final(self).file_path == old(self).file_path,
            final(self).file_content == old(self).file_content,
            final(self).chunks == old(self).chunks,
            final(self).is_processing == old(self).is_processing,
            final(self).words_per_chunk == old(self).words_per_chunk,
    {
        self.model_loading = true;
        self.error_message = None;
    }

    /// The model has loaded, or failed to: the session is ready only when
    /// both the model and the anchors are, and the message says which step
    /// failed otherwise.
    pub fn finish_model_load(&mut self, outcome: ModelLoad)
        ensures
            !final(self).model_loading,
            match outcome {
                ModelLoad::Ready => final(self).model_loaded && shows(
                    final(self).error_message,
                    model_ready_message(),
                ),
                ModelLoad::ModelFailed(e) => final(self).model_loaded == old(self).model_loaded
                    && shows(final(self).error_message, model_failed_message(e@)),
                ModelLoad::AnchorsFailed(e) => final(self).model_loaded == old(self).model_loaded
                    && shows(final(self).error_message, anchors_failed_message(e@)),
            },
            final(self).file_path == old(self).file_path,
            final(self).file_content == old(self).file_content,
            final(self).chunks == old(self).chunks,
            final(self).is_processing == old(self).is_processing,
            final(self).words_per_chunk == old(self).words_per_chunk,
    {
        match outcome {
            ModelLoad::Ready => {
                self.model_loaded = true;
                let mut message = String::new();
                message.append("\u{2705} Model and anchors loaded successfully!");
                self.error_message = Some(message);
            },
            ModelLoad::ModelFailed(e) => {
                self.error_message = Some(message_from("Failed to load model: ", e.as_str()));
            },
            ModelLoad::AnchorsFailed(e) => {
                self.error_message = Some(message_from("Failed to create anchors: ", e.as_str()));
            },
        }
        self.model_loading = false;
    }

    /// A file was picked: it becomes the session's file, and its content
    /// replaces the old one when it could be read.
    pub fn file_picked(&mut self, path: String, read: Result<String, String>)
        ensures
            final(self).file_path == Some(path),
            match read {
                Ok(content) => final(self).file_content == content && final(self).error_message is None,
                Err(e) => final(self).file_content == old(self).file_content && shows(
                    final(self).error_message,
                    read_failed_message(e@),
                ),
            },
            final(self).chunks == old(self).chunks,
            final(self).is_processing == old(self).is_processing,
            final(self).words_per_chunk == old(self).words_per_chunk,
            final(self).model_loading == old(self).model_loading,
            final(self).model_loaded == old(self).model_loaded,
    {
        self.file_path = Some(path);
        match read {
            Ok(content) => {
                self.file_content = content;
                self.error_message = None;
            },
            Err(e) => {
                self.error_message = Some(message_from("Failed to read file: ", e.as_str()));
            },
        }
    }

    /// Replaces the chunks with those of the file's content, `words_per_chunk`
    /// words each; returns how many there are.  A content without words gives
    /// no chunks, whatever the count.
    pub fn make_chunks(&mut self, words_per_chunk: usize) -> (count: usize)
        requires
            words_per_chunk > 0 || words_of(old(self).file_content@).len() == 0,
        ensures
            count == final(self).chunks@.len(),
            final(self).chunks@.len() == word_groups(
                words_of(old(self).file_content@),
                words_per_chunk as nat,
            ).len(),
            forall|k: int|
                0 <= k < final(self).chunks@.len() ==> (#[trigger] final(self).chunks@[k])@
                    == join_words(
                    word_groups(words_of(old(self).file_content@), words_per_chunk as nat)[k],
                ),
            final(self).file_path == old(self).file_path,
            final(self).file_content == old(self).file_content,
            final(self).is_processing == old(self).is_processing,
            final(self).error_message == old(self).error_message,
            final(self).words_per_chunk == old(self).words_per_chunk,
            final(self).model_loading == old(self).model_loading,
            final(self).model_loaded == old(self).model_loaded,
    {
        self.chunks = chunk_text(self.file_content.as_str(), words_per_chunk);
        self.chunks.len()
    }

    /// Drops the chunks.
    pub fn clear_chunks(&mut self)
        ensures
            final(self).chunks@.len() == 0,
            final(self).file_path == old(self).file_path,
            final(self).file_content == old(self).file_content,
            final(self).is_processing == old(self).is_processing,
            final(self).error_message == old(self).error_message,
            final(self).words_per_chunk == old(self).words_per_chunk,
            final(self).model_loading == old(self).model_loading,
            final(self).model_loaded == old(self).model_loaded,
    {
        self.chunks = Vec::new();
    }

    /// A request to embed the chunks: it goes ahead only with a model, and
    /// otherwise the user is asked to load one.  Returns whether to go ahead.
    pub fn start_embedding(&mut self, has_model: bool) -> (go_ahead: bool)
        ensures
            go_ahead == has_model,
            has_model ==> final(self).is_processing && final(self).error_message
                == old(self).error_message,
            !has_model ==> final(self).is_processing == old(self).is_processing && shows(
                final(self).error_message,
                no_model_message(),
            ),
            final(self).file_path == old(self).file_path,
            final(self).file_content == old(self).file_content,
            final(self).chunks == old(self).chunks,
            final(self).words_per_chunk == old(self).words_per_chunk,
            final(self).model_loading == old(self).model_loading,
            final(self).model_loaded == old(self).model_loaded,
    {
        if has_model {
            self.is_processing = true;
        } else {
            let mut message = String::new();
            message.append("Please load the model first!");
            self.error_message = Some(message);
        }
        has_model
    }

    /// The embeddings are computed, or failed to be: the message says how
    /// many there are, or what went wrong.
    pub fn finish_embedding(&mut self, outcome: Result<usize, String>)
        ensures
            !final(self).is_processing,
            match outcome {
                Ok(count) => shows(final(self).error_message, embedded_message(count as nat)),
                Err(e) => shows(final(self).error_message, embedding_failed_message(e@)),
            },
            final(self).file_path == old(self).file_path,
            final(self).file_content == old(self).file_content,
            final(self).chunks == old(self).chunks,
            final(self).words_per_chunk == old(self).words_per_chunk,
            final(self).model_loading == old(self).model_loading,
            final(self).model_loaded == old(self).model_loaded,
    {
        match outcome {
            Ok(count) => {
                let mut message = String::new();
                message.append("\u{2705} Generated ");
                push_decimal(&mut message, count);
                message.append(" embeddings");
                self.error_message = Some(message);
            },
            Err(e) => {
                self.error_message = Some(
                    message_from("Failed to generate embeddings: ", e.as_str()),
                );
            },
        }
        self.is_processing = false;
    }
}

} // verus!
