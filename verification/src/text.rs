use vstd::prelude::*;

verus! {

/// The lowercase form of a string, as `str::to_lowercase` of the standard
/// library computes it from the Unicode tables.
pub uninterp spec fn lowercase_of(s: Seq<char>) -> Seq<char>;

/// `str::to_lowercase` of the standard library. The result is not described
/// here character by character: it is only given the name `lowercase_of`,
/// which claims that the lowercase form depends on the characters of the
/// string alone.
pub assume_specification[ str::to_lowercase ](s: &str) -> (lower: String)
    ensures
        lower@ == lowercase_of(s@),
;

/// `String::push` of the standard library, which appends one character to
/// the end of the string.
pub assume_specification[ String::push ](s: &mut String, c: char)
    ensures
        final(s)@ == old(s)@.push(c),
;

/// The characters of each string of a list.
pub open spec fn word_views(words: Seq<String>) -> Seq<Seq<char>> {
    Seq::new(words.len(), |j: int| words[j]@)
}

/// The words joined by single spaces.
pub open spec fn join_spaced(words: Seq<Seq<char>>) -> Seq<char>
    decreases words.len(),
{
    if words.len() == 0 {
        Seq::empty()
    } else if words.len() == 1 {
        words[0]
    } else {
        join_spaced(words.drop_last()) + seq![' '] + words.last()
    }
}

/// The words written one after the other, with nothing between them.
pub open spec fn concat(words: Seq<Seq<char>>) -> Seq<char>
    decreases words.len(),
{
    if words.len() == 0 {
        Seq::empty()
    } else {
        concat(words.drop_last()) + words.last()
    }
}

/// The text without its space characters.
pub open spec fn without_spaces(text: Seq<char>) -> Seq<char> {
    text.filter(|c: char| c != ' ')
}

/// Removing the spaces of joined words leaves what removing the spaces of
/// the words written together leaves.
pub proof fn lemma_join_adds_spaces_only(words: Seq<Seq<char>>)
    ensures
        without_spaces(join_spaced(words)) == without_spaces(concat(words)),
    decreases words.len(),
{
    let keep = |c: char| c != ' ';
    if words.len() == 0 {
    } else if words.len() == 1 {
        assert(concat(words.drop_last()) =~= Seq::<char>::empty());
        assert(concat(words) =~= words[0]);
    } else {
        let rest = words.drop_last();
        lemma_join_adds_spaces_only(rest);
        let space = seq![' '];
        assert(space.filter(keep) =~= Seq::<char>::empty()) by {
            reveal_with_fuel(Seq::filter, 2);
            assert(space.drop_last() =~= Seq::<char>::empty());
            assert(!keep(space.last()));
        }
        Seq::filter_distributes_over_add(join_spaced(rest), space, keep);
        Seq::filter_distributes_over_add(join_spaced(rest) + space, words.last(), keep);
        Seq::filter_distributes_over_add(concat(rest), words.last(), keep);
        assert(join_spaced(rest).filter(keep) + space.filter(keep) =~= join_spaced(rest).filter(keep));
    }
}

/// The characters of `text`, one entry per Unicode scalar value.
pub fn chars_of(text: &str) -> (chars: Vec<char>)
    ensures
        chars@ == text@,
{
    let mut chars: Vec<char> = Vec::new();
    for c in it: text.chars()
        invariant
            chars@ == it.seq().take(it.index() as int),
            it.seq() == text@,
    {
        chars.push(c);
    }
    chars
}

/// The string made of the characters `chars[from..to]`.
pub fn string_of(chars: &Vec<char>, from: usize, to: usize) -> (s: String)
    requires
        from <= to <= chars.len(),
    ensures
        s@ == chars@.subrange(from as int, to as int),
{
    let mut s = String::new();
    let mut i: usize = from;
    while i < to
        invariant
            from <= i <= to <= chars.len(),
            s@ == chars@.subrange(from as int, i as int),
        decreases to - i,
    {
        s.push(chars[i]);
        i += 1;
    }
    s
}

/// Joins the words with single spaces, last entry first.
pub fn join_reversed(words: &Vec<String>) -> (joined: String)
    ensures
        joined@ == join_spaced(word_views(words@).reverse()),
{
    let ghost forward = word_views(words@).reverse();
    let mut joined: String = String::new();
    let mut left: usize = words.len();
    proof {
        assert(forward.take(0) =~= Seq::<Seq<char>>::empty());
    }
    while left > 0
        invariant
            left <= words.len(),
            forward == word_views(words@).reverse(),
            joined@ == join_spaced(forward.take(words.len() - left)),
        decreases left,
    {
        let ghost done = words.len() - left;
        let ghost before = joined@;
        if left < words.len() {
            proof {
                reveal_strlit(" ");
            }
            joined.append(" ");
            assert(joined@ =~= before + seq![' ']);
        }
        left -= 1;
        joined.append(words[left].as_str());
        proof {
            let next = forward.take(done + 1);
            assert(next.drop_last() =~= forward.take(done));
            assert(next.last() == words[left as int]@);
            if done == 0 {
                assert(joined@ =~= next[0]);
            }
        }
    }
    assert(forward.take(words.len() as int) =~= forward);
    joined
}

} // verus!
