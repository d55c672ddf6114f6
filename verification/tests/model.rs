use rsplitter::text::{chars_of, string_of};
use rsplitter::{get_cost_dict, lines_from_text, ModelError};

fn entries(pairs: &[(&str, i64)]) -> Vec<(String, i64)> {
    pairs.iter().map(|(w, c)| (w.to_string(), *c)).collect()
}

#[test]
fn empty_list_is_refused() {
    let built = get_cost_dict(&Vec::new());
    assert_eq!(built.err(), Some(ModelError::EmptyCorpus));
}

#[test]
fn each_word_gets_its_cost() {
    let model = get_cost_dict(&entries(&[("jordan", 1), ("bank", 2), ("of", 3)])).unwrap();
    assert_eq!(model.cost_of("jordan"), Some(1));
    assert_eq!(model.cost_of("bank"), Some(2));
    assert_eq!(model.cost_of("of"), Some(3));
    assert_eq!(model.cost_of("river"), None);
    assert_eq!(model.cost_of(""), None);
}

#[test]
fn longest_word_is_measured_in_characters() {
    let model = get_cost_dict(&entries(&[("jordan", 1), ("bank", 2), ("of", 3)])).unwrap();
    assert_eq!(model.max_word_length(), 6);
    let model = get_cost_dict(&entries(&[("ab", 1), ("日本語", 2), ("é", 3)])).unwrap();
    assert_eq!("日本語".len(), 9);
    assert_eq!(model.max_word_length(), 3);
    let model = get_cost_dict(&entries(&[("", 1)])).unwrap();
    assert_eq!(model.max_word_length(), 0);
}

#[test]
fn last_entry_of_a_repeated_word_decides() {
    let model = get_cost_dict(&entries(&[("of", 1), ("bank", 2), ("of", 3)])).unwrap();
    assert_eq!(model.cost_of("of"), Some(3));
    assert_eq!(model.cost_of("bank"), Some(2));
}

#[test]
fn words_are_looked_up_in_lowercase() {
    let model = get_cost_dict(&entries(&[("the", 4), ("Fox", 5), ("ärger", 6)])).unwrap();
    assert_eq!(model.cost_of("The"), Some(4));
    assert_eq!(model.cost_of("THE"), Some(4));
    assert_eq!(model.cost_of("ÄRGER"), Some(6));
    assert_eq!(model.cost_of("Fox"), None);
    assert_eq!(model.cost_of("fox"), None);
}

#[test]
fn stored_cost_takes_the_key_as_given() {
    let model = get_cost_dict(&entries(&[("the", 4), ("Fox", 5)])).unwrap();
    assert_eq!(model.stored_cost("the"), Some(4));
    assert_eq!(model.stored_cost("The"), None);
    assert_eq!(model.stored_cost("Fox"), Some(5));
    assert_eq!(model.stored_cost("fox"), None);
}

#[test]
fn chars_of_gives_one_entry_per_character() {
    assert_eq!(chars_of("aé日"), vec!['a', 'é', '日']);
    assert_eq!(chars_of(""), Vec::<char>::new());
}

#[test]
fn string_of_takes_a_range_of_characters() {
    let chars = vec!['a', 'é', '日', 'z'];
    assert_eq!(string_of(&chars, 1, 3), "é日");
    assert_eq!(string_of(&chars, 0, 4), "aé日z");
    assert_eq!(string_of(&chars, 2, 2), "");
}

#[test]
fn lines_are_split_at_line_feeds() {
    assert_eq!(lines_from_text("the\nof\nand"), vec!["the", "of", "and"]);
    assert_eq!(lines_from_text("the\nof\nand\n"), vec!["the", "of", "and"]);
    assert_eq!(lines_from_text("the"), vec!["the"]);
    assert_eq!(lines_from_text(""), Vec::<String>::new());
}

#[test]
fn carriage_return_before_a_line_feed_is_dropped() {
    assert_eq!(lines_from_text("the\r\nof\r\n"), vec!["the", "of"]);
    assert_eq!(lines_from_text("the\r\r\nof"), vec!["the\r", "of"]);
    assert_eq!(lines_from_text("a\rb\nc\r"), vec!["a\rb", "c\r"]);
    assert_eq!(lines_from_text("\r\n"), vec![""]);
}

#[test]
fn empty_lines_are_kept() {
    assert_eq!(lines_from_text("a\n\nb"), vec!["a", "", "b"]);
    assert_eq!(lines_from_text("\n"), vec![""]);
    assert_eq!(lines_from_text("\n\n"), vec!["", ""]);
    assert_eq!(lines_from_text("\na"), vec!["", "a"]);
}

#[test]
fn lines_agree_with_the_standard_library() {
    for text in [
        "",
        "\n",
        "\r",
        "\r\n",
        "a",
        "a\n",
        "a\r\n",
        "a\r",
        "a\n\r",
        "a\n\rb",
        "a\r\n\r\nb",
        "日本\n語\r\n",
        "x\r\r\n\ny",
        "one\ntwo\r\nthree\n\n",
    ] {
        let expected: Vec<String> = text.lines().map(|l| l.to_string()).collect();
        assert_eq!(lines_from_text(text), expected);
    }
}

#[test]
fn order_of_the_lines_is_the_rank() {
    let words = lines_from_text("jordan\nbank\nof\n");
    let ranked: Vec<(String, i64)> = words.into_iter().zip(1..).collect();
    let model = get_cost_dict(&ranked).unwrap();
    assert_eq!(model.cost_of("jordan"), Some(1));
    assert_eq!(model.cost_of("of"), Some(3));
}
