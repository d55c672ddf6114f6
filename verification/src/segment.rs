use crate::cost::{
    best_cost, best_len, best_match, candidate, exact, exact_costs, exact_word_costs, fits,
    lemma_best_len, lemma_best_reads_prefix, total,
};
use crate::laws::lemma_coverage;
use crate::model::{lookup, CostModel};
use crate::text::{
    chars_of, join_reversed, join_spaced, lowercase_of, string_of, without_spaces, word_views,
};
use vstd::prelude::*;

verus! {

/// The length of the longest word that is looked up: `max_word_length`, but
/// at least 1, so that a text of unknown characters can still be split.
pub open spec fn word_limit(max_word_length: nat) -> nat {
    if max_word_length == 0 {
        1
    } else {
        max_word_length
    }
}

/// The number of last-word lengths tried at position `i`: the lengths
/// `1..=reach` are, up to the word limit and never more than `i`.
pub open spec fn reach(max_word_length: nat, i: nat) -> nat {
    if i < word_limit(max_word_length) {
        i
    } else {
        word_limit(max_word_length)
    }
}

/// The cost of the word `text[from..to]`, which is looked up in lowercase;
/// `None` where the word is unknown.
pub open spec fn piece_cost(text: Seq<char>, costs: Map<Seq<char>, i64>, from: int, to: int) -> Option<i64> {
    lookup(costs, lowercase_of(text.subrange(from, to)))
}

/// The costs of the candidate last words at position `i`: entry `k - 1` is
/// the cost of the word made of the `k` characters before `i`.
pub open spec fn window_costs(
    text: Seq<char>,
    costs: Map<Seq<char>, i64>,
    max_word_length: nat,
    i: nat,
) -> Seq<Option<i64>> {
    Seq::new(reach(max_word_length, i), |k: int| piece_cost(text, costs, i - k - 1, i as int))
}

/// The cumulative costs of the first `i` positions: entry `j` is the least
/// cost of a segmentation of the first `j` characters, and entry 0 is 0.
pub open spec fn cost_array(
    text: Seq<char>,
    costs: Map<Seq<char>, i64>,
    max_word_length: nat,
    i: nat,
) -> Seq<Option<int>>
    decreases i,
{
    if i == 0 {
        seq![Some(0int)]
    } else {
        let before = cost_array(text, costs, max_word_length, (i - 1) as nat);
        before.push(
            best_cost(before, exact_word_costs(window_costs(text, costs, max_word_length, i)), i as int),
        )
    }
}

/// The least cost of a segmentation of the first `i` characters.
pub open spec fn cumulative_cost(
    text: Seq<char>,
    costs: Map<Seq<char>, i64>,
    max_word_length: nat,
    i: nat,
) -> Option<int> {
    cost_array(text, costs, max_word_length, i).last()
}

/// The length of the last word of the chosen segmentation of the first `i`
/// characters, for `i >= 1`.
pub open spec fn split_len(text: Seq<char>, costs: Map<Seq<char>, i64>, max_word_length: nat, i: nat) -> int {
    best_len(
        cost_array(text, costs, max_word_length, (i - 1) as nat),
        exact_word_costs(window_costs(text, costs, max_word_length, i)),
        i as int,
    )
}

/// The words of the chosen segmentation of the first `i` characters, in the
/// order of the text.
pub open spec fn words(
    text: Seq<char>,
    costs: Map<Seq<char>, i64>,
    max_word_length: nat,
    i: nat,
) -> Seq<Seq<char>>
    decreases i,
{
    if i == 0 {
        Seq::empty()
    } else {
        let k = split_len(text, costs, max_word_length, i);
        if 1 <= k <= i {
            words(text, costs, max_word_length, (i - k) as nat).push(text.subrange(i - k, i as int))
        } else {
            Seq::empty()
        }
    }
}

/// The segmented form of `text`: the words of its chosen segmentation,
/// joined by single spaces.
pub open spec fn segmented(text: Seq<char>, costs: Map<Seq<char>, i64>, max_word_length: nat) -> Seq<char> {
    join_spaced(words(text, costs, max_word_length, text.len()))
}

/// The largest size of the cost of one word.
pub open spec fn word_cost_limit() -> int {
    0x8000_0000_0000_0000
}

/// A cumulative cost at position `j` is the sum of at most `j` word costs.
pub open spec fn bounded(c: Option<int>, j: int) -> bool {
    c matches Some(x) ==> -j * word_cost_limit() <= x <= j * word_cost_limit()
}

/// The cost array of `i` positions has `i + 1` entries, each bounded by its
/// position, and extends the cost array of every earlier position.
pub proof fn lemma_cost_array(text: Seq<char>, costs: Map<Seq<char>, i64>, max_word_length: nat, i: nat)
    ensures
        cost_array(text, costs, max_word_length, i).len() == i + 1,
        forall|j: int|
            0 <= j <= i ==> bounded(#[trigger] cost_array(text, costs, max_word_length, i)[j], j),
        forall|j: nat|
            j <= i ==> cost_array(text, costs, max_word_length, i)[j as int] == #[trigger] cumulative_cost(
                text,
                costs,
                max_word_length,
                j,
            ),
    decreases i,
{
    if i > 0 {
        let before = cost_array(text, costs, max_word_length, (i - 1) as nat);
        let window = exact_word_costs(window_costs(text, costs, max_word_length, i));
        lemma_cost_array(text, costs, max_word_length, (i - 1) as nat);
        lemma_best_len(before, window, i as int);
        let k = best_len(before, window, i as int);
        assert(bounded(before[i - k], i - k));
        assert(bounded(candidate(before, window, i as int, k), i as int)) by (nonlinear_arith)
            requires
                1 <= k <= i,
                bounded(before[i - k], i - k),
                window[k - 1] matches Some(y) ==> -word_cost_limit() <= y < word_cost_limit(),
                candidate(before, window, i as int, k) == total(before[i - k], window[k - 1]),
        {
        }
    }
}

/// Looks up the candidate last words at position `i`, shortest first.
pub fn word_costs(chars: &Vec<char>, i: usize, model: &CostModel) -> (found: Vec<Option<i64>>)
    requires
        i <= chars.len(),
    ensures
        found@ == window_costs(chars@, model@.costs, model@.max_word_length, i as nat),
{
    let longest_word: usize = model.max_word_length();
    let width: usize = if longest_word == 0 {
        1
    } else {
        longest_word
    };
    let tried: usize = if i < width {
        i
    } else {
        width
    };
    let mut found: Vec<Option<i64>> = Vec::new();
    let mut k: usize = 0;
    while k < tried
        invariant
            k <= tried <= i <= chars.len(),
            tried == reach(model@.max_word_length, i as nat),
            found@ =~= Seq::new(
                k as nat,
                |j: int| piece_cost(chars@, model@.costs, i - j - 1, i as int),
            ),
        decreases tried - k,
    {
        k += 1;
        let word: String = string_of(chars, i - k, i);
        found.push(model.cost_of(word.as_str()));
    }
    found
}

/// Fills the array of cumulative costs, position by position.
pub fn build_cost_array(chars: &Vec<char>, model: &CostModel) -> (cost: Vec<Option<i128>>)
    ensures
        exact_costs(cost@) == cost_array(chars@, model@.costs, model@.max_word_length, chars@.len()),
        cost@.len() == chars@.len() + 1,
        cost@[0] == Some(0i128),
{
    let ghost text = chars@;
    let ghost costs = model@.costs;
    let ghost width = model@.max_word_length;
    let mut cost: Vec<Option<i128>> = Vec::new();
    cost.push(Some(0));
    assert(exact_costs(cost@) =~= cost_array(text, costs, width, 0));
    let mut i: usize = 0;
    while i < chars.len()
        invariant
            i <= chars.len(),
            text == chars@,
            costs == model@.costs,
            width == model@.max_word_length,
            exact_costs(cost@) == cost_array(text, costs, width, i as nat),
        decreases chars.len() - i,
    {
        i += 1;
        let window: Vec<Option<i64>> = word_costs(chars, i, model);
        proof {
            lemma_cost_array(text, costs, width, (i - 1) as nat);
            lemma_candidates_fit(exact_costs(cost@), window@, i as int);
        }
        let best = best_match(i, &cost, &window);
        let ghost before = cost@;
        cost.push(best.0);
        assert(exact_costs(cost@) =~= exact_costs(before).push(exact(best.0)));
    }
    proof {
        lemma_cost_array(text, costs, width, text.len());
        assert(cumulative_cost(text, costs, width, 0) == Some(0int));
        assert(exact_costs(cost@)[0] == Some(0int));
    }
    cost
}

/// Candidates built on bounded cumulative costs fit a cost cell.
proof fn lemma_candidates_fit(cum: Seq<Option<int>>, window: Seq<Option<i64>>, i: int)
    requires
        1 <= window.len() <= i <= cum.len(),
        i <= usize::MAX,
        forall|j: int| 0 <= j < i ==> bounded(#[trigger] cum[j], j),
    ensures
        forall|k: int|
            1 <= k <= window.len() ==> fits(#[trigger] candidate(cum, exact_word_costs(window), i, k)),
{
    assert forall|k: int| 1 <= k <= window.len() implies fits(
        #[trigger] candidate(cum, exact_word_costs(window), i, k),
    ) by {
        assert(bounded(cum[i - k], i - k));
        let c = candidate(cum, exact_word_costs(window), i, k);
        if c is Some {
            let x = cum[i - k]->0;
            let y = window[k - 1]->0;
            assert(-(i - k) * word_cost_limit() <= x <= (i - k) * word_cost_limit());
            assert((i - k) * word_cost_limit() + word_cost_limit() <= 0xffff_ffff_ffff_ffff * word_cost_limit())
                by (nonlinear_arith)
                requires
                    1 <= k <= i <= 0xffff_ffff_ffff_ffff,
                    word_cost_limit() > 0,
            {
            }
        }
    }
}

/// Walks back from the end of the text and recovers the words of the chosen
/// segmentation, last word first. `cost` is the array of cumulative costs of
/// this text under this model.
pub fn minimal_cost(chars: &Vec<char>, model: &CostModel, cost: &Vec<Option<i128>>) -> (found: Vec<String>)
    requires
        exact_costs(cost@) == cost_array(chars@, model@.costs, model@.max_word_length, chars@.len()),
    ensures
        word_views(found@).reverse() == words(chars@, model@.costs, model@.max_word_length, chars@.len()),
{
    let ghost text = chars@;
    let ghost costs = model@.costs;
    let ghost width = model@.max_word_length;
    let ghost whole = words(text, costs, width, text.len());
    let mut found: Vec<String> = Vec::new();
    let mut i: usize = chars.len();
    assert(word_views(found@).reverse() =~= Seq::<Seq<char>>::empty());
    while i > 0
        invariant
            i <= chars.len(),
            text == chars@,
            costs == model@.costs,
            width == model@.max_word_length,
            whole == words(text, costs, width, text.len()),
            exact_costs(cost@) == cost_array(text, costs, width, text.len()),
            whole =~= words(text, costs, width, i as nat) + word_views(found@).reverse(),
        decreases i,
    {
        let window: Vec<Option<i64>> = word_costs(chars, i, model);
        proof {
            let full = exact_costs(cost@);
            let before = cost_array(text, costs, width, (i - 1) as nat);
            lemma_cost_array(text, costs, width, text.len());
            lemma_cost_array(text, costs, width, (i - 1) as nat);
            lemma_candidates_fit(full, window@, i as int);
            assert forall|j: int| 0 <= j < i implies full[j] == before[j] by {
                assert(full[j] == cumulative_cost(text, costs, width, j as nat));
                assert(before[j] == cumulative_cost(text, costs, width, j as nat));
            }
            lemma_best_reads_prefix(full, before, exact_word_costs(window@), i as int);
        }
        let best = best_match(i, cost, &window);
        let k: usize = best.1;
        let word: String = string_of(chars, i - k, i);
        let ghost earlier = word_views(found@).reverse();
        found.push(word);
        proof {
            assert(k as int == split_len(text, costs, width, i as nat));
            assert(word_views(found@).reverse() =~= seq![text.subrange(i - k, i as int)] + earlier);
        }
        i -= k;
    }
    found
}

/// Splits `text`, a run of words written without separators, into the
/// cheapest sequence of words under `model`, and returns the words joined by
/// single spaces.
///
/// The cost of a sequence is the sum of the costs of its words, and is
/// infinite as soon as one of them is unknown. The characters keep their
/// case; the words are looked up in lowercase. Where several last words cost
/// the same the shortest is taken, so an unknown word is never longer than
/// one character. The result depends on the characters of the text and on
/// what the model holds, and on nothing else.
pub fn split(text: String, model: &CostModel) -> (result: String)
    ensures
        result@ == segmented(text@, model@.costs, model@.max_word_length),
        without_spaces(result@) == without_spaces(text@),
        text@.len() == 0 ==> result@ == Seq::<char>::empty(),
        text@.len() == 1 ==> result@ == text@,
{
    let chars: Vec<char> = chars_of(text.as_str());
    let cost: Vec<Option<i128>> = build_cost_array(&chars, model);
    let found: Vec<String> = minimal_cost(&chars, model, &cost);
    proof {
        lemma_short_text(text@, model@.costs, model@.max_word_length);
        lemma_coverage(text@, model@.costs, model@.max_word_length);
    }
    join_reversed(&found)
}

/// The empty text has no word, and a text of one character is one word.
pub proof fn lemma_short_text(text: Seq<char>, costs: Map<Seq<char>, i64>, max_word_length: nat)
    ensures
        text.len() == 0 ==> segmented(text, costs, max_word_length) == Seq::<char>::empty(),
        text.len() == 1 ==> segmented(text, costs, max_word_length) == text,
{
    if text.len() == 1 {
        let before = cost_array(text, costs, max_word_length, 0);
        let window = exact_word_costs(window_costs(text, costs, max_word_length, 1));
        lemma_best_len(before, window, 1);
        assert(split_len(text, costs, max_word_length, 1) == 1);
        assert(text.subrange(0, 1) =~= text);
        assert(words(text, costs, max_word_length, 0) =~= Seq::<Seq<char>>::empty());
        assert(words(text, costs, max_word_length, 1) =~= seq![text]);
    }
}

} // verus!
