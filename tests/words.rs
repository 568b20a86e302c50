use exercises::words::first_word;

#[test]
fn first_word_stops_at_space() {
    assert_eq!(first_word(&String::from("h ello")), 1);
    assert_eq!(first_word(&String::from("hello world")), 5);
    assert_eq!(first_word(&String::from(" lead")), 0);
}

#[test]
fn first_word_without_space_is_whole_length() {
    assert_eq!(first_word(&String::from("hello")), 5);
    assert_eq!(first_word(&String::from("")), 0);
    assert_eq!(first_word(&String::from("héllo wörld")), 6);
}
