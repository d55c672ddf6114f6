use vstd::prelude::*;

verus! {

/// Sum of two costs, where `None` stands for an infinite cost: the sum is
/// infinite as soon as one side is.
pub open spec fn total(a: Option<int>, b: Option<int>) -> Option<int> {
    match (a, b) {
        (Some(x), Some(y)) => Some(x + y),
        _ => None,
    }
}

/// `a` is strictly cheaper than `b`. Every finite cost is cheaper than the
/// infinite one, and the infinite cost is not cheaper than itself.
pub open spec fn cheaper(a: Option<int>, b: Option<int>) -> bool {
    match (a, b) {
        (Some(x), Some(y)) => x < y,
        (Some(_), None) => true,
        _ => false,
    }
}

/// The mathematical value of a cumulative cost.
pub open spec fn exact(c: Option<i128>) -> Option<int> {
    match c {
        Some(x) => Some(x as int),
        None => None,
    }
}

/// The mathematical value of the cost of one word.
pub open spec fn exact_word(c: Option<i64>) -> Option<int> {
    match c {
        Some(x) => Some(x as int),
        None => None,
    }
}

/// The mathematical values of an array of cumulative costs.
pub open spec fn exact_costs(costs: Seq<Option<i128>>) -> Seq<Option<int>> {
    Seq::new(costs.len(), |j: int| exact(costs[j]))
}

/// The mathematical values of an array of word costs.
pub open spec fn exact_word_costs(costs: Seq<Option<i64>>) -> Seq<Option<int>> {
    Seq::new(costs.len(), |j: int| exact_word(costs[j]))
}

/// A cost that a cumulative-cost cell can hold.
pub open spec fn fits(c: Option<int>) -> bool {
    c matches Some(x) ==> i128::MIN <= x <= i128::MAX
}

/// Cost of reaching position `i` when the last word has `k` characters:
/// the cumulative cost at `i - k` plus the cost of that word.
/// `words[k - 1]` is the cost of the `k`-character word that ends at `i`.
pub open spec fn candidate(cum: Seq<Option<int>>, words: Seq<Option<int>>, i: int, k: int) -> Option<int> {
    total(cum[i - k], words[k - 1])
}

/// Among the last-word lengths `1..=m`, `k` gives the least candidate cost,
/// and is the shortest length that does.
pub open spec fn is_best_among(
    cum: Seq<Option<int>>,
    words: Seq<Option<int>>,
    i: int,
    m: int,
    k: int,
) -> bool {
    &&& 1 <= k <= m
    &&& forall|j: int| 1 <= j <= m ==> !cheaper(#[trigger] candidate(cum, words, i, j), candidate(cum, words, i, k))
    &&& forall|j: int| 1 <= j < k ==> cheaper(candidate(cum, words, i, k), #[trigger] candidate(cum, words, i, j))
}

/// `k` is the best last-word length at position `i` over the whole window.
pub open spec fn is_best(cum: Seq<Option<int>>, words: Seq<Option<int>>, i: int, k: int) -> bool {
    is_best_among(cum, words, i, words.len() as int, k)
}

/// The best last-word length at position `i`: the shortest one whose
/// candidate cost is minimal.
pub open spec fn best_len(cum: Seq<Option<int>>, words: Seq<Option<int>>, i: int) -> int {
    choose|k: int| is_best(cum, words, i, k)
}

/// The least candidate cost at position `i`.
pub open spec fn best_cost(cum: Seq<Option<int>>, words: Seq<Option<int>>, i: int) -> Option<int> {
    candidate(cum, words, i, best_len(cum, words, i))
}

/// At most one length is the best one.
pub proof fn lemma_best_unique(cum: Seq<Option<int>>, words: Seq<Option<int>>, i: int, m: int, k1: int, k2: int)
    requires
        is_best_among(cum, words, i, m, k1),
        is_best_among(cum, words, i, m, k2),
    ensures
        k1 == k2,
{
    if k1 < k2 {
        assert(cheaper(candidate(cum, words, i, k2), candidate(cum, words, i, k1)));
        assert(!cheaper(candidate(cum, words, i, k2), candidate(cum, words, i, k1)));
    } else if k2 < k1 {
        assert(cheaper(candidate(cum, words, i, k1), candidate(cum, words, i, k2)));
        assert(!cheaper(candidate(cum, words, i, k1), candidate(cum, words, i, k2)));
    }
}

/// Whenever there is at least one candidate, a best length exists.
pub proof fn lemma_best_exists(cum: Seq<Option<int>>, words: Seq<Option<int>>, i: int, m: int) -> (k: int)
    requires
        1 <= m,
    ensures
        is_best_among(cum, words, i, m, k),
    decreases m,
{
    if m == 1 {
        1
    } else {
        let prev = lemma_best_exists(cum, words, i, m - 1);
        if cheaper(candidate(cum, words, i, m), candidate(cum, words, i, prev)) {
            m
        } else {
            prev
        }
    }
}

/// With at least one candidate, `best_len` is the best length.
pub proof fn lemma_best_len(cum: Seq<Option<int>>, words: Seq<Option<int>>, i: int)
    requires
        words.len() >= 1,
    ensures
        is_best(cum, words, i, best_len(cum, words, i)),
        1 <= best_len(cum, words, i) <= words.len(),
{
    let k = lemma_best_exists(cum, words, i, words.len() as int);
    assert(is_best(cum, words, i, k));
}

/// The best length reads only the cumulative costs before position `i`.
pub proof fn lemma_best_reads_prefix(
    a: Seq<Option<int>>,
    b: Seq<Option<int>>,
    words: Seq<Option<int>>,
    i: int,
)
    requires
        1 <= words.len() <= i,
        i <= a.len(),
        i <= b.len(),
        forall|j: int| 0 <= j < i ==> a[j] == b[j],
    ensures
        best_len(a, words, i) == best_len(b, words, i),
        best_cost(a, words, i) == best_cost(b, words, i),
{
    lemma_best_len(a, words, i);
    lemma_best_len(b, words, i);
    let ka = best_len(a, words, i);
    let m = words.len() as int;
    assert forall|j: int| 1 <= j <= m implies candidate(a, words, i, j) == candidate(b, words, i, j) by {
        assert(a[i - j] == b[i - j]);
    }
    assert(is_best_among(b, words, i, m, ka)) by {
        assert forall|j: int| 1 <= j <= m implies !cheaper(
            #[trigger] candidate(b, words, i, j),
            candidate(b, words, i, ka),
        ) by {
            assert(candidate(a, words, i, j) == candidate(b, words, i, j));
        }
        assert forall|j: int| 1 <= j < ka implies cheaper(
            candidate(b, words, i, ka),
            #[trigger] candidate(b, words, i, j),
        ) by {
            assert(candidate(a, words, i, j) == candidate(b, words, i, j));
        }
    }
    lemma_best_unique(b, words, i, m, ka, best_len(b, words, i));
}

/// Adds the cost of a word to a cumulative cost.
fn add_cost(a: Option<i128>, b: Option<i64>) -> (sum: Option<i128>)
    requires
        fits(total(exact(a), exact_word(b))),
    ensures
        exact(sum) == total(exact(a), exact_word(b)),
{
    match (a, b) {
        (Some(x), Some(y)) => Some(x + y as i128),
        _ => None,
    }
}

/// Whether cumulative cost `a` is strictly below `b`.
fn is_cheaper(a: Option<i128>, b: Option<i128>) -> (r: bool)
    ensures
        r == cheaper(exact(a), exact(b)),
{
    match (a, b) {
        (Some(x), Some(y)) => x < y,
        (Some(_), None) => true,
        _ => false,
    }
}

/// Finds the best last word for the text that ends at position `i`.
///
/// `cost[j]` is the least cost of segmenting the first `j` characters, for
/// every `j < i`, and `word_costs[k - 1]` is the cost of the word made of the
/// `k` characters before position `i` (`None` when the word is unknown).
/// Returns the least candidate cost together with the length of the last
/// word that gives it; among lengths of equal cost the shortest wins.
pub fn best_match(i: usize, cost: &Vec<Option<i128>>, word_costs: &Vec<Option<i64>>) -> (best: (
    Option<i128>,
    usize,
))
    requires
        1 <= word_costs.len() <= i <= cost.len(),
        forall|k: int|
            1 <= k <= word_costs.len() ==> fits(
                #[trigger] candidate(exact_costs(cost@), exact_word_costs(word_costs@), i as int, k),
            ),
    ensures
        is_best(exact_costs(cost@), exact_word_costs(word_costs@), i as int, best.1 as int),
        best.1 as int == best_len(exact_costs(cost@), exact_word_costs(word_costs@), i as int),
        exact(best.0) == best_cost(exact_costs(cost@), exact_word_costs(word_costs@), i as int),
{
    let ghost cum = exact_costs(cost@);
    let ghost words = exact_word_costs(word_costs@);
    let ghost pos = i as int;
    assert(fits(candidate(cum, words, pos, 1)));
    let mut least: Option<i128> = add_cost(cost[i - 1], word_costs[0]);
    let mut length: usize = 1;
    let mut k: usize = 1;
    while k < word_costs.len()
        invariant
            1 <= k <= word_costs.len() <= i <= cost.len(),
            cum == exact_costs(cost@),
            words == exact_word_costs(word_costs@),
            pos == i as int,
            forall|j: int| 1 <= j <= word_costs.len() ==> fits(#[trigger] candidate(cum, words, pos, j)),
            is_best_among(cum, words, pos, k as int, length as int),
            exact(least) == candidate(cum, words, pos, length as int),
        decreases word_costs.len() - k,
    {
        k += 1;
        assert(fits(candidate(cum, words, pos, k as int)));
        let c: Option<i128> = add_cost(cost[i - k], word_costs[k - 1]);
        if is_cheaper(c, least) {
            least = c;
            length = k;
        }
    }
    proof {
        lemma_best_len(cum, words, pos);
        lemma_best_unique(cum, words, pos, words.len() as int, length as int, best_len(cum, words, pos));
    }
    (least, length)
}

} // verus!
