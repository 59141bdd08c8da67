# minilm_analysis

Semantic analysis of a text with sentence embeddings: the text is split into
chunks of words, each chunk is embedded, and the embeddings are compared with
anchor texts for sentiment (positive, negative, neutral), six emotions and a
list of themes. The per-chunk scores are then gathered into a document
overview.

The library (`src/`) holds the logic and is verified with Verus:

- `chunking`: words of a text and chunks of a given number of words;
- `ranking`: stable descending arrangements of ranked entries;
- `scores`: sentiment, emotion and theme scores, and what is read from them
  (dominant sentiment, strongest emotions, themes above a threshold);
- `analyzer`: theme scores of a chunk, numbering of chunks, the document
  overview (themes gathered across chunks and ranked by their means);
- `anchors`: the anchor texts, and the anchor embeddings;
- `one_hot`: one-hot rows of token ids;
- `session`: the state of an analysis session and its transitions;
- `text`: white space, numerals, previews.

A score is given to the library as its value together with its rank in the
order of all scores; every decision is taken on the ranks. The program in
`app/` computes the embeddings and all floating-point values (similarities,
normalisation, averages), gives each value its rank, and draws the window.
