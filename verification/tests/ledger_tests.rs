use tetris_core::scores::line_to_slice;
use tetris_core::scores::load_highscores_and_lines;
use tetris_core::scores::save_highscores_and_lines;
use tetris_core::scores::slice_to_string;

#[test]
fn test_line_to_slice() {
    let v = line_to_slice("10 20 30");

    assert_eq!(v[0], 10);

    let a = ["1", "two", "NaN", "four", "5"];

    let mut iter = a.iter().filter_map(|s| s.parse().ok());

    assert_eq!(iter.next(), Some(1));
    assert_eq!(iter.next(), Some(5));
    assert_eq!(iter.next(), None);

    let a = ["1", "two", "NaN", "four", "5"];
    let mut iter = a
        .iter()
        .map(|s| s.parse())
        .filter(|s| s.is_ok())
        .map(|s| s.unwrap());
    assert_eq!(iter.next(), Some(1));
    assert_eq!(iter.next(), Some(5));
    assert_eq!(iter.next(), None);
}

#[test]
fn slice_to_string_exact() {
    assert_eq!(slice_to_string(&[10, 20, 30]), "10 20 30");
    assert_eq!(slice_to_string(&[7]), "7");
    assert_eq!(slice_to_string(&[]), "");
    assert_eq!(slice_to_string(&[0, 100, 4294967295]), "0 100 4294967295");
}

#[test]
fn save_content_exact() {
    let content = save_highscores_and_lines(&[10, 20, 30], &[2, 3, 4]);
    assert_eq!(content, "10 20 30\n2 3 4\n");

    let content = save_highscores_and_lines(&[], &[]);
    assert_eq!(content, "\n\n");
}

#[test]
fn round_trip_three_records() {
    let content = save_highscores_and_lines(&[10, 20, 30], &[2, 3, 4]);
    let loaded = load_highscores_and_lines(&content);
    assert_eq!(loaded, Some((vec![10, 20, 30], vec![2, 3, 4])));
}

#[test]
fn round_trip_empty_records() {
    let content = save_highscores_and_lines(&[], &[]);
    let loaded = load_highscores_and_lines(&content);
    assert_eq!(loaded, Some((vec![], vec![])));
}

#[test]
fn round_trip_single_records() {
    let content = save_highscores_and_lines(&[42], &[7]);
    let loaded = load_highscores_and_lines(&content);
    assert_eq!(loaded, Some((vec![42], vec![7])));
}

#[test]
fn load_empty_content_is_no_records() {
    assert_eq!(load_highscores_and_lines(""), None);
}

#[test]
fn load_single_line_is_no_records() {
    assert_eq!(load_highscores_and_lines("10 20 30"), None);
}

#[test]
fn load_drops_unparsable_tokens() {
    let loaded = load_highscores_and_lines("10 foo 30\n2 3 4\n");
    assert_eq!(loaded, Some((vec![10, 30], vec![2, 3, 4])));
}

#[test]
fn load_without_trailing_newline() {
    let loaded = load_highscores_and_lines("1 2\n3 4");
    assert_eq!(loaded, Some((vec![1, 2], vec![3, 4])));
}

#[test]
fn load_terminated_first_line_only() {
    let loaded = load_highscores_and_lines("10 20 30\n");
    assert_eq!(loaded, Some((vec![10, 20, 30], vec![])));
}

#[test]
fn line_to_slice_token_edges() {
    assert_eq!(line_to_slice(""), Vec::<u32>::new());
    assert_eq!(line_to_slice("+5"), vec![5]);
    assert_eq!(line_to_slice("-1"), Vec::<u32>::new());
    assert_eq!(line_to_slice("4294967295"), vec![4294967295]);
    assert_eq!(line_to_slice("4294967296"), Vec::<u32>::new());
    assert_eq!(line_to_slice("1  2"), vec![1, 2]);
    assert_eq!(line_to_slice(" 8 "), vec![8]);
    assert_eq!(line_to_slice("++3 0"), vec![0]);
}
