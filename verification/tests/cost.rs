use rsplitter::cost::best_match;
use rsplitter::get_cost_dict;
use rsplitter::segment::{build_cost_array, minimal_cost, word_costs};
use rsplitter::text::join_reversed;

fn chars(text: &str) -> Vec<char> {
    text.chars().collect()
}

fn strings(words: &[&str]) -> Vec<String> {
    words.iter().map(|w| w.to_string()).collect()
}

#[test]
fn best_match_takes_the_least_candidate() {
    let cost = vec![Some(0), Some(5), None, Some(7)];
    let words = vec![Some(4), Some(1), Some(20)];
    assert_eq!(best_match(3, &cost, &words), (Some(6), 2));
    let words = vec![Some(4), Some(1), Some(-20)];
    assert_eq!(best_match(3, &cost, &words), (Some(-20), 3));
}

#[test]
fn best_match_reads_the_costs_before_the_position() {
    let cost = vec![Some(0), Some(5), Some(2), Some(7), Some(1)];
    let words = vec![Some(10), Some(10)];
    assert_eq!(best_match(2, &cost, &words), (Some(10), 2));
    assert_eq!(best_match(3, &cost, &words), (Some(12), 1));
    assert_eq!(best_match(4, &cost, &words), (Some(12), 2));
}

#[test]
fn best_match_breaks_ties_by_the_shortest_word() {
    let cost = vec![Some(0), Some(1), Some(2)];
    let words = vec![Some(1), Some(2), Some(3)];
    assert_eq!(best_match(3, &cost, &words), (Some(3), 1));
    let words = vec![Some(2), Some(2), Some(3)];
    assert_eq!(best_match(3, &cost, &words), (Some(3), 2));
}

#[test]
fn best_match_with_one_candidate() {
    let cost = vec![Some(9)];
    assert_eq!(best_match(1, &cost, &vec![Some(-4)]), (Some(5), 1));
    assert_eq!(best_match(1, &cost, &vec![None]), (None, 1));
}

#[test]
fn best_match_falls_back_to_one_character() {
    let cost = vec![Some(0), None, None];
    let words = vec![Some(1), None];
    assert_eq!(best_match(2, &cost, &words), (None, 1));
    let cost = vec![Some(0), Some(3), Some(4)];
    let words = vec![None, None, None];
    assert_eq!(best_match(3, &cost, &words), (None, 1));
}

#[test]
fn best_match_prefers_any_finite_cost() {
    let cost = vec![Some(0), None, Some(i128::MAX - 1)];
    let words = vec![Some(1), Some(1), Some(i64::MAX)];
    assert_eq!(best_match(3, &cost, &words), (Some(i64::MAX as i128), 3));
    let words = vec![Some(1), Some(1), None];
    assert_eq!(best_match(3, &cost, &words), (Some(i128::MAX), 1));
}

#[test]
fn word_costs_lists_the_window_shortest_first() {
    let model = get_cost_dict(&vec![
        ("c".to_string(), 3),
        ("bc".to_string(), 5),
        ("abc".to_string(), 8),
        ("zabc".to_string(), 9),
    ])
    .unwrap();
    let text = chars("zABC");
    assert_eq!(word_costs(&text, 4, &model), vec![Some(3), Some(5), Some(8), Some(9)]);
    assert_eq!(word_costs(&text, 3, &model), vec![None, None, None]);
    assert_eq!(word_costs(&text, 1, &model), vec![None]);
    assert_eq!(word_costs(&text, 0, &model), Vec::<Option<i64>>::new());
}

#[test]
fn word_costs_stops_at_the_longest_known_word() {
    let model = get_cost_dict(&vec![("c".to_string(), 3), ("bc".to_string(), 5)]).unwrap();
    let text = chars("abcabc");
    assert_eq!(word_costs(&text, 6, &model), vec![Some(3), Some(5)]);
    assert_eq!(word_costs(&text, 4, &model), vec![None, None]);
    let model = get_cost_dict(&vec![("".to_string(), 1)]).unwrap();
    assert_eq!(word_costs(&text, 6, &model), vec![None]);
}

#[test]
fn cost_array_holds_the_least_cost_of_each_prefix() {
    let model = get_cost_dict(&vec![
        ("a".to_string(), 10),
        ("b".to_string(), 20),
        ("ab".to_string(), 25),
        ("ba".to_string(), 50),
    ])
    .unwrap();
    let cost = build_cost_array(&chars("abab"), &model);
    assert_eq!(cost, vec![Some(0), Some(10), Some(25), Some(35), Some(50)]);
    let cost = build_cost_array(&chars("abxa"), &model);
    assert_eq!(cost, vec![Some(0), Some(10), Some(25), None, None]);
    let cost = build_cost_array(&chars(""), &model);
    assert_eq!(cost, vec![Some(0)]);
}

#[test]
fn minimal_cost_gives_the_last_word_first() {
    let model = get_cost_dict(&vec![
        ("a".to_string(), 10),
        ("b".to_string(), 20),
        ("ab".to_string(), 25),
    ])
    .unwrap();
    let text = chars("abba");
    let cost = build_cost_array(&text, &model);
    assert_eq!(minimal_cost(&text, &model, &cost), strings(&["a", "b", "ab"]));
    let text = chars("");
    let cost = build_cost_array(&text, &model);
    assert_eq!(minimal_cost(&text, &model, &cost), Vec::<String>::new());
}

#[test]
fn join_reversed_puts_one_space_between_words() {
    assert_eq!(join_reversed(&strings(&["c", "b", "a"])), "a b c");
    assert_eq!(join_reversed(&strings(&["one"])), "one");
    assert_eq!(join_reversed(&strings(&[])), "");
    assert_eq!(join_reversed(&strings(&["", "x", ""])), " x ");
}
