use crate::text::lowercase_of;
use vstd::hash_map::StringHashMap;
use vstd::prelude::*;

verus! {

/// Why a cost model could not be built.
#[derive(Debug, Clone, Copy, PartialEq, Eq, Structural)]
pub enum ModelError {
    /// The ranked word list has no entry.
    EmptyCorpus,
}

/// The costs of the known words, and the length of the longest of them.
/// A model is immutable once built.
pub struct CostModel {
    costs: StringHashMap<i64>,
    max_word_length: usize,
}

/// What a cost model holds, as mathematical values.
pub struct CostModelView {
    /// The cost of each known word.
    pub costs: Map<Seq<char>, i64>,
    /// The number of characters of the longest word of the ranked list.
    pub max_word_length: nat,
}

impl CostModelView {
    /// `max_word_length` is the length of a longest known word.
    pub open spec fn well_formed(self) -> bool {
        &&& forall|word: Seq<char>|
            (#[trigger] self.costs.contains_key(word)) ==> word.len() <= self.max_word_length
        &&& exists|word: Seq<char>|
            (#[trigger] self.costs.contains_key(word)) && word.len() == self.max_word_length
    }
}

impl View for CostModel {
    type V = CostModelView;

    closed spec fn view(&self) -> CostModelView {
        CostModelView { costs: self.costs@, max_word_length: self.max_word_length as nat }
    }
}

impl CostModel {
    #[verifier::type_invariant]
    spec fn holds_longest_word(&self) -> bool {
        self@.well_formed()
    }
}

/// The ranked list as mathematical values: each word with its cost, most
/// frequent word first.
pub open spec fn ranked(entries: Seq<(String, i64)>) -> Seq<(Seq<char>, i64)> {
    Seq::new(entries.len(), |j: int| (entries[j].0@, entries[j].1))
}

/// The cost table of a ranked list. Where a word occurs more than once, its
/// last entry decides.
pub open spec fn table_of(entries: Seq<(Seq<char>, i64)>) -> Map<Seq<char>, i64>
    decreases entries.len(),
{
    if entries.len() == 0 {
        Map::empty()
    } else {
        table_of(entries.drop_last()).insert(entries.last().0, entries.last().1)
    }
}

/// The number of characters of the longest word of a ranked list, 0 for the
/// empty list.
pub open spec fn longest(entries: Seq<(Seq<char>, i64)>) -> nat
    decreases entries.len(),
{
    if entries.len() == 0 {
        0
    } else {
        let rest = longest(entries.drop_last());
        if entries.last().0.len() > rest {
            entries.last().0.len()
        } else {
            rest
        }
    }
}

/// The cost that a table gives to `key`, `None` where it has none.
pub open spec fn lookup(costs: Map<Seq<char>, i64>, key: Seq<char>) -> Option<i64> {
    if costs.contains_key(key) {
        Some(costs[key])
    } else {
        None
    }
}

/// A word is in the table exactly when the ranked list holds it.
pub proof fn lemma_table_words(entries: Seq<(Seq<char>, i64)>, word: Seq<char>)
    ensures
        table_of(entries).contains_key(word) <==> exists|j: int|
            0 <= j < entries.len() && (#[trigger] entries[j]).0 == word,
    decreases entries.len(),
{
    if entries.len() > 0 {
        let rest = entries.drop_last();
        lemma_table_words(rest, word);
        if table_of(entries).contains_key(word) {
            if entries.last().0 == word {
                assert(entries[entries.len() - 1].0 == word);
            } else {
                let j = choose|j: int| 0 <= j < rest.len() && (#[trigger] rest[j]).0 == word;
                assert(entries[j].0 == word);
            }
        } else {
            assert forall|j: int| 0 <= j < entries.len() implies (#[trigger] entries[j]).0 != word by {
                if j < rest.len() {
                    assert(rest[j].0 != word);
                }
            }
        }
    }
}

/// The table gives a word the cost of its entry; where the list holds the
/// word more than once, that of the last such entry.
pub proof fn lemma_table_cost(entries: Seq<(Seq<char>, i64)>, j: int)
    requires
        0 <= j < entries.len(),
        forall|l: int| j < l < entries.len() ==> (#[trigger] entries[l]).0 != entries[j].0,
    ensures
        lookup(table_of(entries), entries[j].0) == Some(entries[j].1),
    decreases entries.len(),
{
    if j < entries.len() - 1 {
        let rest = entries.drop_last();
        assert(entries[entries.len() - 1].0 != entries[j].0);
        assert(rest[j] == entries[j]);
        assert forall|l: int| j < l < rest.len() implies (#[trigger] rest[l]).0 != rest[j].0 by {
            assert(rest[l] == entries[l]);
        }
        lemma_table_cost(rest, j);
    }
}

/// No word of the list is longer than `longest`, and a list that is not
/// empty holds a word of that length.
pub proof fn lemma_longest(entries: Seq<(Seq<char>, i64)>)
    ensures
        forall|j: int| 0 <= j < entries.len() ==> (#[trigger] entries[j]).0.len() <= longest(entries),
        entries.len() > 0 ==> exists|j: int|
            0 <= j < entries.len() && (#[trigger] entries[j]).0.len() == longest(entries),
    decreases entries.len(),
{
    if entries.len() > 0 {
        let rest = entries.drop_last();
        lemma_longest(rest);
        assert forall|j: int| 0 <= j < entries.len() implies (#[trigger] entries[j]).0.len() <= longest(
            entries,
        ) by {
            if j < rest.len() {
                assert(rest[j] == entries[j]);
            }
        }
        if entries.last().0.len() > longest(rest) || rest.len() == 0 {
            assert(entries[entries.len() - 1].0.len() == longest(entries));
        } else {
            let j = choose|j: int| 0 <= j < rest.len() && (#[trigger] rest[j]).0.len() == longest(rest);
            assert(entries[j].0.len() == longest(entries));
        }
    }
}

/// In the table of a list that is not empty, no word is longer than
/// `longest`, and a word of that length is known.
pub proof fn lemma_table_is_well_formed(entries: Seq<(Seq<char>, i64)>)
    requires
        entries.len() > 0,
    ensures
        (CostModelView { costs: table_of(entries), max_word_length: longest(entries) }).well_formed(),
{
    let table = table_of(entries);
    lemma_longest(entries);
    assert forall|word: Seq<char>| #[trigger] table.contains_key(word) implies word.len() <= longest(
        entries,
    ) by {
        lemma_table_words(entries, word);
        let j = choose|j: int| 0 <= j < entries.len() && (#[trigger] entries[j]).0 == word;
        assert(entries[j].0.len() <= longest(entries));
    }
    let j = choose|j: int| 0 <= j < entries.len() && (#[trigger] entries[j]).0.len() == longest(entries);
    lemma_table_words(entries, entries[j].0);
    let view = CostModelView { costs: table, max_word_length: longest(entries) };
    assert(view.costs.contains_key(entries[j].0));
}

/// Builds the cost model of a ranked word list. Each entry is a word with
/// its cost; the words are stored as they are given.
pub fn get_cost_dict(entries: &Vec<(String, i64)>) -> (built: Result<CostModel, ModelError>)
    ensures
        built is Err <==> entries.len() == 0,
        built matches Err(e) ==> e == ModelError::EmptyCorpus,
        built matches Ok(model) ==> model@.costs == table_of(ranked(entries@))
            && model@.max_word_length == longest(ranked(entries@)) && model@.well_formed(),
{
    if entries.len() == 0 {
        return Err(ModelError::EmptyCorpus);
    }
    let ghost all = ranked(entries@);
    let mut costs: StringHashMap<i64> = StringHashMap::new();
    let mut max_word: usize = 0;
    let mut idx: usize = 0;
    while idx < entries.len()
        invariant
            idx <= entries.len(),
            all == ranked(entries@),
            costs@ == table_of(all.take(idx as int)),
            max_word == longest(all.take(idx as int)),
        decreases entries.len() - idx,
    {
        let word: &String = &entries[idx].0;
        let word_length: usize = word.as_str().unicode_len();
        if word_length > max_word {
            max_word = word_length;
        }
        costs.insert(word.clone(), entries[idx].1);
        proof {
            let next = all.take(idx + 1);
            assert(next.drop_last() =~= all.take(idx as int));
            assert(next.last() == all[idx as int]);
        }
        idx += 1;
    }
    proof {
        assert(all.take(idx as int) =~= all);
        lemma_table_is_well_formed(all);
    }
    Ok(CostModel { costs, max_word_length: max_word })
}

impl CostModel {
    /// The number of characters of the longest known word.
    pub fn max_word_length(&self) -> (length: usize)
        ensures
            length == self@.max_word_length,
            self@.well_formed(),
    {
        proof {
            use_type_invariant(self);
        }
        self.max_word_length
    }

    /// The cost stored for `key`, which is looked up as it is given.
    pub fn stored_cost(&self, key: &str) -> (cost: Option<i64>)
        ensures
            cost == lookup(self@.costs, key@),
    {
        match self.costs.get(key) {
            Some(c) => Some(*c),
            None => None,
        }
    }

    /// The cost of `word`, which is looked up in lowercase. `None` where the
    /// word is unknown.
    pub fn cost_of(&self, word: &str) -> (cost: Option<i64>)
        ensures
            cost == lookup(self@.costs, lowercase_of(word@)),
    {
        let key: String = word.to_lowercase();
        self.stored_cost(key.as_str())
    }
}

} // verus!
