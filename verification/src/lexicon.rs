//! The lexicon: one exact-match word index per word length, built once from a
//! supplied word list and immutable afterwards.

use vstd::prelude::*;
use radix_trie::Trie;
use crate::chars::{
    upper_seq, upper_char_exec, lex_lt, lemma_upper_seq_idempotent, push_char, new_string,
    upper_string,
};
use crate::trie::{trie_words, trie_empty, trie_insert, trie_member, trie_keys};

verus! {

/// Whether a word is free of apostrophes and so admitted into the lexicon.
pub open spec fn admissible(w: Seq<char>) -> bool {
    forall|i: int| 0 <= i < w.len() ==> w[i] != '\''
}

/// What the index for exact length `n` holds, drawn from `words`: the
/// apostrophe-free entries of length `n`, uppercased.
pub open spec fn n_index_model(words: Seq<Seq<char>>, n: nat) -> Set<Seq<char>> {
    Set::new(
        |k: Seq<char>|
            exists|j: int|
                0 <= j < words.len() && admissible(#[trigger] words[j]) && words[j].len() == n
                    && k == upper_seq(words[j]),
    )
}

/// Every word the index model holds has exactly the index's length and is
/// already uppercased.
pub proof fn lemma_n_index_model_members(words: Seq<Seq<char>>, n: nat)
    ensures
        forall|w: Seq<char>|
            #[trigger] n_index_model(words, n).contains(w) ==> w.len() == n && w == upper_seq(w),
{
    assert forall|w: Seq<char>| #[trigger] n_index_model(words, n).contains(w) implies w.len() == n
        && w == upper_seq(w) by {
        let j = choose|j: int|
            0 <= j < words.len() && admissible(#[trigger] words[j]) && words[j].len() == n && w
                == upper_seq(words[j]);
        lemma_upper_seq_idempotent(words[j]);
    }
}

/// Whether a string holds no apostrophe.
fn is_admissible(w: &str) -> (r: bool)
    ensures
        r == admissible(w@),
{
    let n = w.unicode_len();
    for i in 0..n
        invariant
            n == w@.len(),
            forall|j: int| 0 <= j < i ==> w@[j] != '\'',
    {
        if w.get_char(i) == '\'' {
            return false;
        }
    }
    true
}

/// Build the prefix-tree index for exact word length `n`: every
/// apostrophe-free word of `words` whose length is `n`, uppercased.
pub fn compile_n_prefix_tree(words: &Vec<String>, n: usize) -> (r: Trie<String, ()>)
    ensures
        trie_words(r) == n_index_model(words.deep_view(), n as nat),
{
    let mut tree = trie_empty();
    let m = words.len();
    for j in 0..m
        invariant
            m == words@.len(),
            trie_words(tree) == n_index_model(words.deep_view().take(j as int), n as nat),
    {
        let w: &String = &words[j];
        proof {
            assert(words.deep_view()[j as int] == words@[j as int]@);
        }
        if is_admissible(w.as_str()) && w.as_str().unicode_len() == n {
            let key = upper_string(w.as_str());
            trie_insert(&mut tree, key);
            proof {
                lemma_n_index_model_step(words.deep_view(), n as nat, j as int);
            }
        } else {
            proof {
                lemma_n_index_model_step(words.deep_view(), n as nat, j as int);
            }
        }
    }
    proof {
        assert(words.deep_view().take(m as int) =~= words.deep_view());
    }
    tree
}

/// Extending the scanned prefix of the word list by one word extends the
/// index model by that word exactly when the word is admitted at this length.
proof fn lemma_n_index_model_step(words: Seq<Seq<char>>, n: nat, j: int)
    requires
        0 <= j < words.len(),
    ensures
        admissible(words[j]) && words[j].len() == n ==> n_index_model(words.take(j + 1), n)
            == n_index_model(words.take(j), n).insert(upper_seq(words[j])),
        !(admissible(words[j]) && words[j].len() == n) ==> n_index_model(words.take(j + 1), n)
            == n_index_model(words.take(j), n),
{
    let pre = words.take(j);
    let post = words.take(j + 1);
    assert(forall|i: int| 0 <= i < j ==> post[i] == #[trigger] pre[i]);
    assert(post[j] == words[j]);
    if admissible(words[j]) && words[j].len() == n {
        assert forall|k: Seq<char>| #[trigger] n_index_model(post, n).contains(k) implies
            n_index_model(pre, n).insert(upper_seq(words[j])).contains(k) by {
            let i = choose|i: int|
                0 <= i < post.len() && admissible(#[trigger] post[i]) && post[i].len() == n && k
                    == upper_seq(post[i]);
            if i < j {
                assert(n_index_model(pre, n).contains(k));
            }
        }
        assert forall|k: Seq<char>|
            n_index_model(pre, n).insert(upper_seq(words[j])).contains(k) implies #[trigger]
        n_index_model(post, n).contains(k) by {
            if n_index_model(pre, n).contains(k) {
                let i = choose|i: int|
                    0 <= i < pre.len() && admissible(#[trigger] pre[i]) && pre[i].len() == n && k
                        == upper_seq(pre[i]);
                assert(post[i] == pre[i]);
                assert(n_index_model(post, n).contains(k));
            } else {
                assert(k == upper_seq(words[j]));
                assert(n_index_model(post, n).contains(k));
            }
        }
        assert(n_index_model(post, n) =~= n_index_model(pre, n).insert(upper_seq(words[j])));
    } else {
        assert forall|k: Seq<char>| #[trigger] n_index_model(post, n).contains(k) implies
            n_index_model(pre, n).contains(k) by {
            let i = choose|i: int|
                0 <= i < post.len() && admissible(#[trigger] post[i]) && post[i].len() == n && k
                    == upper_seq(post[i]);
            assert(i != j);
            assert(pre[i] == post[i]);
        }
        assert forall|k: Seq<char>| #[trigger] n_index_model(pre, n).contains(k) implies
            n_index_model(post, n).contains(k) by {
            let i = choose|i: int|
                0 <= i < pre.len() && admissible(#[trigger] pre[i]) && pre[i].len() == n && k
                    == upper_seq(pre[i]);
            assert(post[i] == pre[i]);
        }
        assert(n_index_model(post, n) =~= n_index_model(pre, n));
    }
}

/// The length-partitioned word index. Built once; never mutated afterwards.
pub struct Lexicon {
    max_length: usize,
    trees: Vec<Trie<String, ()>>,
}

impl Lexicon {
    /// The greatest word length this lexicon was built for.
    pub closed spec fn max_word_len(self) -> nat {
        self.max_length as nat
    }

    /// The indexed words of exact length `n`.
    pub closed spec fn words_of_len(self, n: int) -> Set<Seq<char>> {
        trie_words(self.trees@[n])
    }

    /// How many per-length indices the lexicon holds.
    pub closed spec fn index_count(self) -> nat {
        self.trees@.len()
    }

    /// Well-formed: one index per length up to the maximum, each holding only
    /// uppercased words of exactly its length.
    pub open spec fn wf(self) -> bool {
        &&& self.index_count() == self.max_word_len() + 1
        &&& forall|n: int, w: Seq<char>|
            0 <= n <= self.max_word_len() && #[trigger] self.words_of_len(n).contains(w)
                ==> w.len() == n && w == upper_seq(w)
    }

    /// Membership at the model level: the uppercased form of `w` is indexed
    /// under `w`'s length.
    pub open spec fn spec_contains(self, w: Seq<char>) -> bool {
        self.words_of_len(w.len() as int).contains(upper_seq(w))
    }

    /// Build a lexicon holding one index per length `0..=n` out of the
    /// supplied words: each apostrophe-free word of length at most `n` is
    /// uppercased and indexed under its exact length; longer words are
    /// silently ignored.
    pub fn build(words: &Vec<String>, n: usize) -> (r: Lexicon)
        requires
            n < usize::MAX,
        ensures
            r.wf(),
            r.max_word_len() == n,
            forall|m: int|
                0 <= m <= n ==> r.words_of_len(m) == n_index_model(
                    words.deep_view(),
                    m as nat,
                ),
    {
        let mut trees: Vec<Trie<String, ()>> = Vec::new();
        let bound = n + 1;
        for i in 0..bound
            invariant
                bound == n + 1,
                trees@.len() == i,
                forall|m: int|
                    0 <= m < i ==> trie_words(#[trigger] trees@[m]) == n_index_model(
                        words.deep_view(),
                        m as nat,
                    ),
        {
            trees.push(compile_n_prefix_tree(words, i));
        }
        let r = Lexicon { max_length: n, trees };
        proof {
            assert forall|m: int, w: Seq<char>|
                0 <= m <= r.max_word_len() && #[trigger] r.words_of_len(m).contains(w) implies
                w.len() == m && w == upper_seq(w) by {
                lemma_n_index_model_members(words.deep_view(), m as nat);
            }
        }
        r
    }

    /// Whether the uppercased form of `word` is an indexed word. The lexicon
    /// must have been built for at least `word`'s length.
    pub fn contains(&self, word: &[char]) -> (r: bool)
        requires
            self.wf(),
            word@.len() <= self.max_word_len(),
        ensures
            r == self.spec_contains(word@),
    {
        let mut key = new_string();
        let n = word.len();
        for i in 0..n
            invariant
                n == word@.len(),
                key@ == upper_seq(word@.take(i as int)),
        {
            push_char(&mut key, upper_char_exec(word[i]));
            proof {
                assert(upper_seq(word@.take(i as int)).push(crate::chars::upper_char(
                    word@[i as int],
                )) =~= upper_seq(word@.take(i + 1)));
            }
        }
        proof {
            assert(word@.take(n as int) =~= word@);
        }
        trie_member(&self.trees[n], &key)
    }

    /// All indexed words of exact length `n`, in strictly ascending
    /// lexicographic order.
    pub fn n_dictionary(&self, n: usize) -> (r: Vec<String>)
        requires
            self.wf(),
            n <= self.max_word_len(),
        ensures
            forall|i: int| 0 <= i < r@.len() ==> self.words_of_len(n as int).contains(#[trigger] r@[i]@),
            forall|w: Seq<char>|
                self.words_of_len(n as int).contains(w) ==> exists|i: int|
                    0 <= i < r@.len() && #[trigger] r@[i]@ == w,
            forall|i: int, j: int| 0 <= i < j < r@.len() ==> lex_lt(#[trigger] r@[i]@, #[trigger] r@[j]@),
    {
        trie_keys(&self.trees[n])
    }
}

} // verus!
