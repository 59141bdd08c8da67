//! Splitting a text into words, and the words into chunks of a given size.
use vstd::prelude::*;

use crate::text::{char_is_whitespace, is_white_space, push_char};

verus! {

/// The words of `text`: its maximal runs of characters that are not white
/// space, in order.
pub open spec fn words_of(text: Seq<char>) -> Seq<Seq<char>>
    decreases text.len(),
{
    if text.len() == 0 {
        Seq::empty()
    } else {
        let words = words_of(text.drop_last());
        let c = text.last();
        if is_white_space(c) {
            words
        } else if text.len() >= 2 && !is_white_space(text[text.len() - 2]) {
            words.update(words.len() - 1, words.last().push(c))
        } else {
            words.push(seq![c])
        }
    }
}

/// The words joined with one space between each two.
pub open spec fn join_words(words: Seq<Seq<char>>) -> Seq<char>
    decreases words.len(),
{
    if words.len() == 0 {
        Seq::empty()
    } else if words.len() == 1 {
        words[0]
    } else {
        join_words(words.drop_last()) + seq![' '] + words.last()
    }
}

/// `words` in groups of `size`, in order; the last group holds what is left.
pub open spec fn word_groups(words: Seq<Seq<char>>, size: nat) -> Seq<Seq<Seq<char>>>
    decreases words.len(),
{
    if words.len() == 0 || size == 0 {
        Seq::empty()
    } else if words.len() <= size {
        seq![words]
    } else {
        seq![words.take(size as int)] + word_groups(words.skip(size as int), size)
    }
}

/// The words of `text`: it is split at white space, as `str::split_whitespace`
/// splits it.
pub fn split_words(text: &str) -> (words: Vec<String>)
    ensures
        words@.len() == words_of(text@).len(),
        forall|k: int| 0 <= k < words@.len() ==> (#[trigger] words@[k])@ == words_of(text@)[k],
        exists|starts: Seq<int>, ends: Seq<int>|
            {
                &&& #[trigger] bounds_runs(text@, starts, ends)
                &&& words@.len() == starts.len()
                &&& forall|k: int|
                    0 <= k < starts.len() ==> (#[trigger] words@[k])@ == text@.subrange(
                        starts[k],
                        ends[k],
                    )
            },
{
    let mut done: Vec<String> = Vec::new();
    let mut current = String::new();
    let mut in_word = false;
    for c in iter: text.chars()
        invariant
            iter.seq() == text@,
            in_word == (iter.index() > 0 && !is_white_space(text@[iter.index() - 1])),
            !in_word ==> current@.len() == 0,
            words_of(text@.take(iter.index() as int)).len() == done@.len() + (if in_word {
                1int
            } else {
                0int
            }),
            forall|k: int|
                0 <= k < done@.len() ==> (#[trigger] done@[k])@ == words_of(
                    text@.take(iter.index() as int),
                )[k],
            in_word ==> words_of(text@.take(iter.index() as int))[done@.len() as int]
                == current@,
    {
        let ghost i = iter.index();
        let ghost before = text@.take(i as int);
        assert(text@.take(i + 1).drop_last() =~= before);
        assert(text@.take(i + 1).last() == c);
        if char_is_whitespace(c) {
            if in_word {
                done.push(current);
                current = String::new();
                in_word = false;
            }
        } else {
            if in_word {
                assert(text@.take(i + 1)[i - 1] == text@[i - 1]);
            }
            push_char(&mut current, c);
            in_word = true;
        }
    }
    assert(text@.take(text@.len() as int) =~= text@);
    if in_word {
        done.push(current);
    }
    proof {
        let (starts, ends) = lemma_words_are_maximal_runs(text@);
        assert(bounds_runs(text@, starts, ends));
    }
    done
}

/// Splits `text` into words and joins each `words_per_chunk` consecutive
/// words, with single spaces, into one chunk; the last chunk holds the words
/// that are left.
pub fn chunk_text(text: &str, words_per_chunk: usize) -> (chunks: Vec<String>)
    requires
        words_per_chunk > 0 || words_of(text@).len() == 0,
    ensures
        chunks@.len() == word_groups(words_of(text@), words_per_chunk as nat).len(),
        forall|k: int|
            0 <= k < chunks@.len() ==> (#[trigger] chunks@[k])@ == join_words(
                word_groups(words_of(text@), words_per_chunk as nat)[k],
            ),
{
    let words = split_words(text);
    let ghost all = words_of(text@);
    let n = words.len();
    assert(words@.map_values(|w: String| w@) =~= all);
    let mut chunks: Vec<String> = Vec::new();
    let ghost mut done: Seq<Seq<Seq<char>>> = Seq::empty();
    let mut start: usize = 0;
    assert(all.skip(0) =~= all);
    while start < n
        invariant
            n == words@.len(),
            all == words@.map_values(|w: String| w@),
            words_per_chunk > 0 || n == 0,
            0 <= start <= n,
            word_groups(all, words_per_chunk as nat) == done + word_groups(
                all.skip(start as int),
                words_per_chunk as nat,
            ),
            chunks@.len() == done.len(),
            forall|k: int| 0 <= k < chunks@.len() ==> (#[trigger] chunks@[k])@ == join_words(done[k]),
        decreases n - start,
    {
        let end = if n - start <= words_per_chunk {
            n
        } else {
            start + words_per_chunk
        };
        let mut chunk = String::new();
        let mut j: usize = start;
        while j < end
            invariant
                n == words@.len(),
                all == words@.map_values(|w: String| w@),
                start < end <= n,
                start <= j <= end,
                chunk@ == join_words(all.subrange(start as int, j as int)),
            decreases end - j,
        {
            assert(all.subrange(start as int, j + 1).drop_last() =~= all.subrange(
                start as int,
                j as int,
            ));
            proof {
                reveal_strlit(" ");
            }
            assert(all[j as int] == words@[j as int]@);
            if j > start {
                chunk.append(" ");
            }
            chunk.append(words[j].as_str());
            proof {
                if j == start {
                    assert(all.subrange(start as int, j + 1) =~= seq![all[j as int]]);
                }
            }
            j = j + 1;
        }
        let ghost rest = all.skip(start as int);
        let ghost group = all.subrange(start as int, end as int);
        assert(word_groups(rest, words_per_chunk as nat) == seq![group] + word_groups(
            all.skip(end as int),
            words_per_chunk as nat,
        )) by {
            if rest.len() <= words_per_chunk {
                assert(rest =~= group);
                assert(all.skip(end as int).len() == 0);
            } else {
                assert(rest.take(words_per_chunk as int) =~= group);
                assert(rest.skip(words_per_chunk as int) =~= all.skip(end as int));
            }
        }
        chunks.push(chunk);
        proof {
            assert(done.push(group) + word_groups(all.skip(end as int), words_per_chunk as nat)
                =~= done + word_groups(rest, words_per_chunk as nat));
            done = done.push(group);
        }
        start = end;
    }
    assert(word_groups(all.skip(n as int), words_per_chunk as nat) =~= Seq::empty());
    assert(done =~= word_groups(all, words_per_chunk as nat));
    chunks
}

/// Chunking neither drops, repeats nor reorders words: the groups, put back
/// together in order, are the words.
pub proof fn lemma_word_groups_keep_words(words: Seq<Seq<char>>, size: nat)
    requires
        size > 0,
    ensures
        word_groups(words, size).flatten() == words,
    decreases words.len(),
{
    let groups = word_groups(words, size);
    if words.len() == 0 {
    } else if words.len() <= size {
        assert(groups.drop_first() =~= Seq::<Seq<Seq<char>>>::empty());
        assert(groups.first() + groups.drop_first().flatten() =~= words);
    } else {
        lemma_word_groups_keep_words(words.skip(size as int), size);
        assert(groups.drop_first() =~= word_groups(words.skip(size as int), size));
        assert(words.take(size as int) + words.skip(size as int) =~= words);
    }
}

/// Every chunk holds at least one and at most `size` words, and every chunk
/// but the last holds exactly `size` words.
pub proof fn lemma_word_groups_sizes(words: Seq<Seq<char>>, size: nat)
    requires
        size > 0,
    ensures
        forall|k: int|
            0 <= k < word_groups(words, size).len() ==> 0 < (#[trigger] word_groups(
                words,
                size,
            )[k]).len() <= size,
        forall|k: int|
            0 <= k < word_groups(words, size).len() - 1 ==> (#[trigger] word_groups(
                words,
                size,
            )[k]).len() == size,
    decreases words.len(),
{
    let groups = word_groups(words, size);
    if words.len() > size {
        let rest = word_groups(words.skip(size as int), size);
        lemma_word_groups_sizes(words.skip(size as int), size);
        assert forall|k: int| 0 < k < groups.len() implies groups[k] == rest[k - 1] by {}
    }
}

/// `starts` and `ends` bound, in order, the maximal runs of characters of
/// `text` that are not white space: each run `[starts[k], ends[k])` is non-empty
/// and free of white space, is preceded and followed by white space or the
/// ends of the text, comes before the next run, and every character that is
/// not white space lies in some run.
pub open spec fn bounds_runs(text: Seq<char>, starts: Seq<int>, ends: Seq<int>) -> bool {
    &&& starts.len() == ends.len()
    &&& forall|k: int| 0 <= k < starts.len() ==> 0 <= #[trigger] starts[k] < ends[k] <= text.len()
    &&& forall|k: int, i: int|
        #![trigger ends[k], text[i]]
        0 <= k < starts.len() && starts[k] <= i < ends[k] ==> !is_white_space(text[i])
    &&& forall|k: int|
        0 <= k < starts.len() && #[trigger] starts[k] > 0 ==> is_white_space(text[starts[k] - 1])
    &&& forall|k: int|
        0 <= k < ends.len() && #[trigger] ends[k] < text.len() ==> is_white_space(text[ends[k]])
    &&& forall|j: int, k: int| 0 <= j < k < starts.len() ==> #[trigger] ends[j] < #[trigger] starts[k]
    &&& forall|i: int|
        0 <= i < text.len() && !is_white_space(#[trigger] text[i]) ==> exists|k: int|
            #![trigger starts[k]]
            0 <= k < starts.len() && starts[k] <= i < ends[k]
}

/// The words of a text are its maximal runs of characters that are not white
/// space, in order: each word is the text between the bounds of one run.
pub proof fn lemma_words_are_maximal_runs(text: Seq<char>) -> (bounds: (Seq<int>, Seq<int>))
    ensures
        bounds_runs(text, bounds.0, bounds.1),
        words_of(text).len() == bounds.0.len(),
        forall|k: int|
            0 <= k < bounds.0.len() ==> #[trigger] words_of(text)[k] == text.subrange(
                bounds.0[k],
                bounds.1[k],
            ),
    decreases text.len(),
{
    if text.len() == 0 {
        (Seq::empty(), Seq::empty())
    } else {
        let len = text.len() as int;
        let prefix = text.drop_last();
        let (starts, ends) = lemma_words_are_maximal_runs(prefix);
        let words = words_of(prefix);
        let c = text.last();
        assert(forall|i: int| 0 <= i < len - 1 ==> #[trigger] prefix[i] == text[i]);
        assert forall|k: int| 0 <= k < starts.len() implies text.subrange(starts[k], ends[k])
            =~= prefix.subrange(starts[k], ends[k]) by {}
        if is_white_space(c) {
            assert forall|i: int|
                0 <= i < text.len() && !is_white_space(#[trigger] text[i]) implies exists|k: int|
                    #![trigger starts[k]]
                    0 <= k < starts.len() && starts[k] <= i < ends[k] by {
                assert(prefix[i] == text[i]);
            }
            assert forall|k: int, i: int|
                #![trigger ends[k], text[i]]
                0 <= k < starts.len() && starts[k] <= i < ends[k] implies !is_white_space(
                    text[i],
                ) by {
                assert(prefix[i] == text[i]);
                let _ = ends[k];
            }
            assert forall|k: int| 0 <= k < ends.len() && #[trigger] ends[k] < text.len() implies is_white_space(
                text[ends[k]],
            ) by {
                if ends[k] < len - 1 {
                    assert(prefix[ends[k]] == text[ends[k]]);
                }
            }
            (starts, ends)
        } else if len >= 2 && !is_white_space(text[len - 2]) {
            assert(prefix[len - 2] == text[len - 2]);
            let k0 = choose|k: int| #![trigger starts[k]] 0 <= k < starts.len() && starts[k] <= len - 2 < ends[k];
            let m = starts.len() - 1;
            if k0 < m {
                assert(ends[k0] < starts[m]);
            }
            assert(k0 == m);
            let new_ends = ends.update(m, len);
            assert(words.len() - 1 == m);
            assert(words_of(text) == words.update(m, words.last().push(c)));
            assert(text.subrange(starts[m], len) =~= prefix.subrange(starts[m], len - 1).push(c));
            assert forall|k: int| 0 <= k < starts.len() implies #[trigger] words_of(text)[k]
                == text.subrange(starts[k], new_ends[k]) by {
                if k < m {
                    assert(text.subrange(starts[k], ends[k]) =~= prefix.subrange(starts[k], ends[k]));
                }
            }
            assert forall|k: int, i: int|
                #![trigger new_ends[k], text[i]]
                0 <= k < starts.len() && starts[k] <= i < new_ends[k] implies !is_white_space(
                    text[i],
                ) by {
                if i < len - 1 {
                    assert(prefix[i] == text[i]);
                    let _ = ends[k];
                }
            }
            assert forall|k: int| 0 <= k < new_ends.len() && #[trigger] new_ends[k] < text.len() implies is_white_space(
                text[new_ends[k]],
            ) by {
                assert(k != m);
                assert(ends[k] < starts[m]);
                assert(prefix[ends[k]] == text[ends[k]]);
            }
            assert forall|k: int| 0 <= k < starts.len() && #[trigger] starts[k] > 0 implies is_white_space(
                text[starts[k] - 1],
            ) by {
                assert(prefix[starts[k] - 1] == text[starts[k] - 1]);
            }
            assert forall|j: int, k: int| 0 <= j < k < starts.len() implies #[trigger] new_ends[j]
                < #[trigger] starts[k] by {
                assert(ends[j] < starts[k]);
            }
            assert forall|i: int|
                0 <= i < text.len() && !is_white_space(#[trigger] text[i]) implies exists|k: int|
                    #![trigger starts[k]]
                    0 <= k < starts.len() && starts[k] <= i < new_ends[k] by {
                if i < len - 1 {
                    assert(prefix[i] == text[i]);
                    let k = choose|k: int| #![trigger starts[k]] 0 <= k < starts.len() && starts[k] <= i < ends[k];
                    assert(starts[k] <= i < new_ends[k]);
                } else {
                    assert(starts[m] <= i < new_ends[m]);
                }
            }
            (starts, new_ends)
        } else {
            let n = starts.len() as int;
            let new_starts = starts.push(len - 1);
            let new_ends = ends.push(len);
            assert(words_of(text) == words.push(seq![c]));
            assert(text.subrange(len - 1, len) =~= seq![c]);
            assert forall|j: int| 0 <= j < n implies #[trigger] ends[j] < len - 1 by {
                if ends[j] == len - 1 {
                    assert(starts[j] <= len - 2 < ends[j]);
                    assert(!is_white_space(prefix[len - 2]));
                    assert(prefix[len - 2] == text[len - 2]);
                }
            }
            assert forall|k: int| 0 <= k < new_starts.len() implies #[trigger] words_of(text)[k]
                == text.subrange(new_starts[k], new_ends[k]) by {
                if k < n {
                    assert(text.subrange(starts[k], ends[k]) =~= prefix.subrange(starts[k], ends[k]));
                }
            }
            assert forall|k: int, i: int|
                #![trigger new_ends[k], text[i]]
                0 <= k < new_starts.len() && new_starts[k] <= i < new_ends[k] implies !is_white_space(
                    text[i],
                ) by {
                if k < n {
                    assert(prefix[i] == text[i]);
                    let _ = ends[k];
                }
            }
            assert forall|k: int| 0 <= k < new_starts.len() && #[trigger] new_starts[k] > 0 implies is_white_space(
                text[new_starts[k] - 1],
            ) by {
                if k < n {
                    assert(prefix[starts[k] - 1] == text[starts[k] - 1]);
                }
            }
            assert forall|k: int| 0 <= k < new_ends.len() && #[trigger] new_ends[k] < text.len() implies is_white_space(
                text[new_ends[k]],
            ) by {
                assert(k < n);
                assert(prefix[ends[k]] == text[ends[k]]);
            }
            assert forall|j: int, k: int| 0 <= j < k < new_starts.len() implies #[trigger] new_ends[j]
                < #[trigger] new_starts[k] by {
                if k < n {
                    assert(ends[j] < starts[k]);
                }
            }
            assert forall|i: int|
                0 <= i < text.len() && !is_white_space(#[trigger] text[i]) implies exists|k: int|
                    #![trigger new_starts[k]]
                    0 <= k < new_starts.len() && new_starts[k] <= i < new_ends[k] by {
                if i < len - 1 {
                    assert(prefix[i] == text[i]);
                    let k = choose|k: int| #![trigger starts[k]] 0 <= k < starts.len() && starts[k] <= i < ends[k];
                    assert(new_starts[k] <= i < new_ends[k]);
                } else {
                    assert(new_starts[n] <= i < new_ends[n]);
                }
            }
            (new_starts, new_ends)
        }
    }
}

/// Every word is a non-empty run of characters none of which is white space.
pub proof fn lemma_words_are_runs(text: Seq<char>)
    ensures
        forall|k: int|
            0 <= k < words_of(text).len() ==> (#[trigger] words_of(text)[k]).len() > 0,
        forall|k: int, m: int|
            0 <= k < words_of(text).len() && 0 <= m < words_of(text)[k].len() ==> !is_white_space(
                #[trigger] words_of(text)[k][m],
            ),
    decreases text.len(),
{
    if text.len() > 0 {
        lemma_words_are_runs(text.drop_last());
        let words = words_of(text.drop_last());
        let c = text.last();
        if !is_white_space(c) && text.len() >= 2 && !is_white_space(text[text.len() - 2]) {
            lemma_word_before_run(text.drop_last());
            let last = words.last().push(c);
            assert forall|m: int| 0 <= m < last.len() implies !is_white_space(last[m]) by {
                if m < last.len() - 1 {
                    assert(last[m] == words[words.len() - 1][m]);
                }
            }
        }
    }
}

/// A text that ends in a character that is not white space ends in a word.
proof fn lemma_word_before_run(text: Seq<char>)
    requires
        text.len() > 0,
        !is_white_space(text.last()),
    ensures
        words_of(text).len() > 0,
    decreases text.len(),
{
    if text.len() >= 2 && !is_white_space(text[text.len() - 2]) {
        lemma_word_before_run(text.drop_last());
    }
}

/// A run of characters that are not white space, written after white space
/// (or at the start), is one more word.
proof fn lemma_words_after_space(text: Seq<char>, word: Seq<char>)
    requires
        text.len() == 0 || is_white_space(text.last()),
        word.len() > 0,
        forall|i: int| 0 <= i < word.len() ==> !is_white_space(#[trigger] word[i]),
    ensures
        words_of(text + word) == words_of(text).push(word),
    decreases word.len(),
{
    let joined = text + word;
    let c = word.last();
    assert(joined.last() == c);
    assert(!is_white_space(word[word.len() - 1]));
    if word.len() == 1 {
        assert(joined.drop_last() =~= text);
        if joined.len() >= 2 {
            assert(joined[joined.len() - 2] == text.last());
        }
        assert(word =~= seq![c]);
    } else {
        let init = word.drop_last();
        assert forall|i: int| 0 <= i < init.len() implies !is_white_space(#[trigger] init[i]) by {
            assert(init[i] == word[i]);
        }
        lemma_words_after_space(text, init);
        assert(joined.drop_last() =~= text + init);
        assert(joined[joined.len() - 2] == word[word.len() - 2]);
        let before = words_of(text).push(init);
        assert(init.push(c) =~= word);
        assert(before.last() == init);
        assert(before.update(before.len() - 1, before.last().push(c)) =~= words_of(text).push(word));
    }
}

/// Joining words that are non-empty runs without white space, and splitting
/// the result at white space, gives back the same words.
pub proof fn lemma_joined_words_split_back(words: Seq<Seq<char>>)
    requires
        forall|k: int| 0 <= k < words.len() ==> (#[trigger] words[k]).len() > 0,
        forall|k: int, i: int|
            0 <= k < words.len() && 0 <= i < words[k].len() ==> !is_white_space(
                #[trigger] words[k][i],
            ),
    ensures
        words_of(join_words(words)) == words,
    decreases words.len(),
{
    if words.len() == 1 {
        lemma_words_after_space(Seq::empty(), words[0]);
        assert(Seq::<char>::empty() + words[0] =~= words[0]);
        assert(words_of(Seq::<char>::empty()).push(words[0]) =~= words);
    } else if words.len() > 1 {
        let init = words.drop_last();
        assert forall|k: int, i: int| 0 <= k < init.len() && 0 <= i < init[k].len() implies !is_white_space(
            #[trigger] init[k][i],
        ) by {
            assert(init[k] == words[k]);
        }
        lemma_joined_words_split_back(init);
        let spaced = join_words(init) + seq![' '];
        assert(spaced.drop_last() =~= join_words(init));
        assert(spaced.last() == ' ');
        assert(words_of(spaced) == words_of(join_words(init)));
        let last = words[words.len() - 1];
        assert forall|i: int| 0 <= i < last.len() implies !is_white_space(#[trigger] last[i]) by {}
        lemma_words_after_space(spaced, last);
        assert(join_words(words) =~= spaced + last);
        assert(init.push(last) =~= words);
    }
}

/// Each chunk's words are words of the text.
proof fn lemma_groups_hold_words(words: Seq<Seq<char>>, size: nat)
    requires
        size > 0,
    ensures
        forall|k: int, m: int|
            0 <= k < word_groups(words, size).len() && 0 <= m < word_groups(words, size)[k].len()
                ==> words.contains(#[trigger] word_groups(words, size)[k][m]),
    decreases words.len(),
{
    let groups = word_groups(words, size);
    if words.len() > size {
        let rest = words.skip(size as int);
        lemma_groups_hold_words(rest, size);
        assert forall|k: int, m: int|
            0 <= k < groups.len() && 0 <= m < groups[k].len() implies words.contains(
                #[trigger] groups[k][m],
            ) by {
            if k == 0 {
                assert(groups[0][m] == words[m]);
            } else {
                assert(groups[k] == word_groups(rest, size)[k - 1]);
                let p = choose|p: int| 0 <= p < rest.len() && rest[p] == groups[k][m];
                assert(words[p + size] == rest[p]);
            }
        }
    } else if words.len() > 0 {
        assert forall|k: int, m: int|
            0 <= k < groups.len() && 0 <= m < groups[k].len() implies words.contains(
                #[trigger] groups[k][m],
            ) by {
            assert(groups[k][m] == words[m]);
        }
    }
}

/// Splitting a chunk's text at white space gives back exactly the words the
/// chunk was made of.
pub proof fn lemma_chunks_split_back_into_their_words(text: Seq<char>, size: nat)
    requires
        size > 0,
    ensures
        forall|k: int|
            0 <= k < word_groups(words_of(text), size).len() ==> words_of(
                join_words(#[trigger] word_groups(words_of(text), size)[k]),
            ) == word_groups(words_of(text), size)[k],
{
    let words = words_of(text);
    let groups = word_groups(words, size);
    lemma_words_are_runs(text);
    lemma_groups_hold_words(words, size);
    lemma_word_groups_sizes(words, size);
    assert forall|k: int| 0 <= k < groups.len() implies words_of(join_words(#[trigger] groups[k]))
        == groups[k] by {
        let g = groups[k];
        assert forall|m: int, i: int| 0 <= m < g.len() && 0 <= i < g[m].len() implies !is_white_space(
            #[trigger] g[m][i],
        ) by {
            assert(words.contains(groups[k][m]));
            let p = choose|p: int| 0 <= p < words.len() && words[p] == g[m];
            assert(words[p][i] == g[m][i]);
        }
        assert forall|m: int| 0 <= m < g.len() implies (#[trigger] g[m]).len() > 0 by {
            assert(words.contains(groups[k][m]));
            let p = choose|p: int| 0 <= p < words.len() && words[p] == g[m];
        }
        lemma_joined_words_split_back(g);
    }
}

} // verus!
