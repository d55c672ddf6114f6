use crate::cost::{
    best_len, candidate, cheaper, exact_word, exact_word_costs, is_best, lemma_best_len, total,
};
use crate::model::{longest, lookup, table_of};
use crate::segment::{
    cost_array, cumulative_cost, lemma_cost_array, reach, segmented, split_len, window_costs,
    word_limit, words,
};
use crate::text::{concat, join_spaced, lemma_join_adds_spaces_only, lowercase_of, without_spaces};
use vstd::prelude::*;

verus! {

/// The cost of one word, which is looked up in lowercase; `None` where the
/// word is unknown.
pub open spec fn word_cost(costs: Map<Seq<char>, i64>, word: Seq<char>) -> Option<int> {
    exact_word(lookup(costs, lowercase_of(word)))
}

/// The cost of a list of words: the sum of the costs of its words, infinite
/// as soon as one of them is unknown.
pub open spec fn list_cost(costs: Map<Seq<char>, i64>, words: Seq<Seq<char>>) -> Option<int>
    decreases words.len(),
{
    if words.len() == 0 {
        Some(0)
    } else {
        total(list_cost(costs, words.drop_last()), word_cost(costs, words.last()))
    }
}

/// `words` is a segmentation of `text`: the words spell the text, none is
/// empty and none is longer than the word limit.
pub open spec fn is_segmentation(words: Seq<Seq<char>>, text: Seq<char>, max_word_length: nat) -> bool {
    &&& concat(words) == text
    &&& forall|j: int| 0 <= j < words.len() ==> 1 <= #[trigger] words[j].len() <= word_limit(max_word_length)
}

/// The chosen words of the first `i` characters are a segmentation of them,
/// their cost is the cumulative cost at `i`, and each of them is known or
/// has a single character.
pub proof fn lemma_chosen_words(text: Seq<char>, costs: Map<Seq<char>, i64>, max_word_length: nat, i: nat)
    requires
        i <= text.len(),
    ensures
        is_segmentation(words(text, costs, max_word_length, i), text.take(i as int), max_word_length),
        list_cost(costs, words(text, costs, max_word_length, i)) == cumulative_cost(
            text,
            costs,
            max_word_length,
            i,
        ),
        forall|j: int|
            0 <= j < words(text, costs, max_word_length, i).len() ==> {
                let word = #[trigger] words(text, costs, max_word_length, i)[j];
                word.len() == 1 || word_cost(costs, word) is Some
            },
    decreases i,
{
    let chosen = words(text, costs, max_word_length, i);
    if i == 0 {
        assert(concat(chosen) =~= text.take(0));
    } else {
        let before = cost_array(text, costs, max_word_length, (i - 1) as nat);
        let window = exact_word_costs(window_costs(text, costs, max_word_length, i));
        lemma_best_len(before, window, i as int);
        lemma_cost_array(text, costs, max_word_length, (i - 1) as nat);
        let k = split_len(text, costs, max_word_length, i);
        let rest = words(text, costs, max_word_length, (i - k) as nat);
        let word = text.subrange(i - k, i as int);
        lemma_chosen_words(text, costs, max_word_length, (i - k) as nat);
        assert(chosen == rest.push(word));
        assert(chosen.drop_last() =~= rest);
        assert(chosen.last() == word);
        assert(concat(chosen) =~= text.take(i as int)) by {
            assert(concat(rest) == text.take(i - k));
        }
        assert(window[k - 1] == word_cost(costs, word));
        assert(before[i - k] == cumulative_cost(text, costs, max_word_length, (i - k) as nat));
        assert(cumulative_cost(text, costs, max_word_length, i) == candidate(before, window, i as int, k));
        if k > 1 {
            assert(cheaper(candidate(before, window, i as int, k), candidate(before, window, i as int, 1)));
        }
        assert forall|j: int| 0 <= j < chosen.len() implies {
            let w = #[trigger] chosen[j];
            &&& 1 <= w.len() <= word_limit(max_word_length)
            &&& (w.len() == 1 || word_cost(costs, w) is Some)
        } by {
            if j < rest.len() {
                assert(chosen[j] == rest[j]);
            }
        }
    }
}

/// No segmentation of the first `i` characters costs less than the
/// cumulative cost at `i`.
pub proof fn lemma_cumulative_cost_is_least(
    text: Seq<char>,
    costs: Map<Seq<char>, i64>,
    max_word_length: nat,
    i: nat,
    other: Seq<Seq<char>>,
)
    requires
        i <= text.len(),
        is_segmentation(other, text.take(i as int), max_word_length),
    ensures
        !cheaper(list_cost(costs, other), cumulative_cost(text, costs, max_word_length, i)),
    decreases other.len(),
{
    if other.len() == 0 {
        assert(i == 0);
    } else {
        let rest = other.drop_last();
        let word = other.last();
        let k = word.len() as int;
        assert(concat(other) == concat(rest) + word);
        assert(concat(rest).len() + k == i);
        assert(concat(rest) =~= text.take(i - k)) by {
            assert(concat(rest) =~= text.take(i as int).take(i - k));
        }
        assert(word =~= text.subrange(i - k, i as int)) by {
            assert(word =~= text.take(i as int).skip(i - k));
        }
        assert(is_segmentation(rest, text.take(i - k), max_word_length)) by {
            assert forall|j: int| 0 <= j < rest.len() implies 1 <= #[trigger] rest[j].len() <= word_limit(
                max_word_length,
            ) by {
                assert(rest[j] == other[j]);
            }
        }
        lemma_cumulative_cost_is_least(text, costs, max_word_length, (i - k) as nat, rest);
        let before = cost_array(text, costs, max_word_length, (i - 1) as nat);
        let window = exact_word_costs(window_costs(text, costs, max_word_length, i));
        assert(1 <= k <= reach(max_word_length, i));
        lemma_best_len(before, window, i as int);
        lemma_cost_array(text, costs, max_word_length, (i - 1) as nat);
        let best = best_len(before, window, i as int);
        assert(is_best(before, window, i as int, best));
        assert(!cheaper(candidate(before, window, i as int, k), candidate(before, window, i as int, best)));
        assert(window[k - 1] == word_cost(costs, word));
        assert(before[i - k] == cumulative_cost(text, costs, max_word_length, (i - k) as nat));
        assert(cumulative_cost(text, costs, max_word_length, i) == candidate(before, window, i as int, best));
    }
}

/// The chosen segmentation is a cheapest one: its words are a segmentation
/// of the text, and no segmentation of the text costs less.
pub proof fn lemma_split_is_cheapest(
    text: Seq<char>,
    costs: Map<Seq<char>, i64>,
    max_word_length: nat,
    other: Seq<Seq<char>>,
)
    requires
        is_segmentation(other, text, max_word_length),
    ensures
        is_segmentation(words(text, costs, max_word_length, text.len()), text, max_word_length),
        !cheaper(list_cost(costs, other), list_cost(costs, words(text, costs, max_word_length, text.len()))),
{
    assert(text.take(text.len() as int) =~= text);
    lemma_chosen_words(text, costs, max_word_length, text.len());
    lemma_cumulative_cost_is_least(text, costs, max_word_length, text.len(), other);
}

/// The cost of a list of words is finite exactly when every word of the
/// list is known.
pub proof fn lemma_finite_cost_means_known(costs: Map<Seq<char>, i64>, words: Seq<Seq<char>>)
    ensures
        list_cost(costs, words) is Some <==> forall|j: int|
            0 <= j < words.len() ==> word_cost(costs, #[trigger] words[j]) is Some,
    decreases words.len(),
{
    if words.len() > 0 {
        let rest = words.drop_last();
        lemma_finite_cost_means_known(costs, rest);
        if list_cost(costs, words) is Some {
            assert forall|j: int| 0 <= j < words.len() implies word_cost(costs, #[trigger] words[j]) is Some by {
                if j < rest.len() {
                    assert(words[j] == rest[j]);
                }
            }
        } else if word_cost(costs, words.last()) is Some {
            let j = choose|j: int| 0 <= j < rest.len() && !(word_cost(costs, #[trigger] rest[j]) is Some);
            assert(words[j] == rest[j]);
        }
    }
}

/// Unknown words are a last resort: a text that known words can spell is
/// split into known words only.
pub proof fn lemma_known_words_are_preferred(
    text: Seq<char>,
    costs: Map<Seq<char>, i64>,
    max_word_length: nat,
    other: Seq<Seq<char>>,
)
    requires
        is_segmentation(other, text, max_word_length),
        forall|j: int| 0 <= j < other.len() ==> word_cost(costs, #[trigger] other[j]) is Some,
    ensures
        forall|j: int|
            0 <= j < words(text, costs, max_word_length, text.len()).len() ==> word_cost(
                costs,
                #[trigger] words(text, costs, max_word_length, text.len())[j],
            ) is Some,
{
    lemma_split_is_cheapest(text, costs, max_word_length, other);
    lemma_finite_cost_means_known(costs, other);
    lemma_finite_cost_means_known(costs, words(text, costs, max_word_length, text.len()));
}

/// A text that was written as words, joined, and is split again gives the
/// same words back, whenever these words cost strictly less than every other
/// segmentation of the joined text.
pub proof fn lemma_strictly_cheapest_is_recovered(
    chosen: Seq<Seq<char>>,
    costs: Map<Seq<char>, i64>,
    max_word_length: nat,
)
    requires
        forall|j: int| 0 <= j < chosen.len() ==> 1 <= #[trigger] chosen[j].len() <= word_limit(max_word_length),
        forall|other: Seq<Seq<char>>|
            other != chosen && #[trigger] is_segmentation(other, concat(chosen), max_word_length) ==> cheaper(
                list_cost(costs, chosen),
                list_cost(costs, other),
            ),
    ensures
        words(concat(chosen), costs, max_word_length, concat(chosen).len()) == chosen,
        segmented(concat(chosen), costs, max_word_length) == join_spaced(chosen),
{
    let text = concat(chosen);
    let found = words(text, costs, max_word_length, text.len());
    lemma_split_is_cheapest(text, costs, max_word_length, chosen);
    if found != chosen {
        assert(is_segmentation(found, text, max_word_length));
        assert(cheaper(list_cost(costs, chosen), list_cost(costs, found)));
    }
}

/// The words of the result spell the text: written one after the other
/// they are the text, character for character, and the result differs from
/// the text by spaces only.
pub proof fn lemma_coverage(text: Seq<char>, costs: Map<Seq<char>, i64>, max_word_length: nat)
    ensures
        concat(words(text, costs, max_word_length, text.len())) == text,
        without_spaces(segmented(text, costs, max_word_length)) == without_spaces(text),
{
    assert(text.take(text.len() as int) =~= text);
    lemma_chosen_words(text, costs, max_word_length, text.len());
    lemma_join_adds_spaces_only(words(text, costs, max_word_length, text.len()));
}

/// No word of the result is empty or longer than the longest word of the
/// model, but for the single characters that are taken where the model
/// holds no word of one character or more; and every word of more than one
/// character is a known word.
pub proof fn lemma_window_bound(text: Seq<char>, costs: Map<Seq<char>, i64>, max_word_length: nat)
    ensures
        forall|j: int|
            0 <= j < words(text, costs, max_word_length, text.len()).len() ==> {
                let word = #[trigger] words(text, costs, max_word_length, text.len())[j];
                &&& 1 <= word.len()
                &&& word.len() <= max_word_length || (word.len() == 1 && max_word_length == 0)
                &&& word.len() > 1 ==> word_cost(costs, word) is Some
            },
{
    lemma_chosen_words(text, costs, max_word_length, text.len());
}

/// The result depends on the characters of the text and on the entries of
/// the ranked list, and on nothing else: the same characters and the same
/// entries give the same result.
pub proof fn lemma_same_inputs_same_result(
    text: Seq<char>,
    entries: Seq<(Seq<char>, i64)>,
    other_text: Seq<char>,
    other_entries: Seq<(Seq<char>, i64)>,
)
    requires
        text.len() == other_text.len(),
        forall|j: int| 0 <= j < text.len() ==> text[j] == other_text[j],
        entries.len() == other_entries.len(),
        forall|j: int| 0 <= j < entries.len() ==> entries[j] == other_entries[j],
    ensures
        segmented(text, table_of(entries), longest(entries)) == segmented(
            other_text,
            table_of(other_entries),
            longest(other_entries),
        ),
{
    assert(text =~= other_text);
    assert(entries =~= other_entries);
}

} // verus!
