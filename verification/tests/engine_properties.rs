use playlist_order::lex::{sort_strings, str_le};
use playlist_order::lines::split_into_lines;
use playlist_order::playlist::Playlist;
use rand::rngs::StdRng;
use rand::SeedableRng;

#[test]
fn test_empty_rejection() {
    assert!(Playlist::from_line_delimited_string("").is_none());
    assert!(Playlist::new(Vec::new()).is_none());
    // a text of blank lines holds no items either
    assert!(Playlist::from_line_delimited_string("\n\n\n").is_none());
}

#[test]
fn test_blank_line_dropped() {
    let playlist = Playlist::from_line_delimited_string("a\nb\n\nc").unwrap();
    let songs: Vec<&str> = playlist.songs.iter().map(|p| p.as_str()).collect();
    assert_eq!(songs, vec!["a", "b", "c"]);
}

#[test]
fn test_text_and_list_agree() {
    // building from the text and from the list of its non-empty lines is
    // indistinguishable in navigation
    let mut from_text = Playlist::from_line_delimited_string("a\nb\n\nc").unwrap();
    let items = vec![String::from("a"), String::from("b"), String::from("c")];
    let mut from_list = Playlist::new(items).unwrap();
    assert_eq!(from_text.current(), from_list.current());
    from_text.first();
    from_list.first();
    for _ in 0..4 {
        assert_eq!(from_text.current(), from_list.current());
        from_text.next();
        from_list.next();
    }
    assert_eq!(from_text.current(), None);
    assert_eq!(from_list.current(), None);
}

#[test]
fn test_crlf_lines() {
    let playlist = Playlist::from_line_delimited_string("a\r\nb\r\n").unwrap();
    let songs: Vec<&str> = playlist.songs.iter().map(|p| p.as_str()).collect();
    assert_eq!(songs, vec!["a", "b"]);
}

#[test]
fn test_split_into_lines_keeps_order() {
    let lines = split_into_lines("one\ntwo\nthree");
    assert_eq!(lines, vec!["one", "two", "three"]);
    let empty: Vec<String> = split_into_lines("");
    assert_eq!(empty, Vec::<String>::new());
}

#[test]
fn test_str_le_order() {
    assert!(str_le("a", "b"));
    assert!(!str_le("b", "a"));
    assert!(str_le("abc", "abd"));
    assert!(str_le("ab", "abc"));
    assert!(!str_le("abc", "ab"));
    assert!(str_le("same", "same"));
}

#[test]
fn test_sort_strings() {
    let input = vec![
        String::from("pear"),
        String::from("apple"),
        String::from("orange"),
        String::from("apple"),
    ];
    let sorted = sort_strings(input);
    assert_eq!(sorted, vec!["apple", "apple", "orange", "pear"]);
}

#[test]
fn test_from_directory_sorts() {
    let files = vec![String::from("b/2.mp3"), String::from("a/1.mp3"), String::from("c/3.mp3")];
    let playlist = Playlist::from_directory(files).unwrap();
    let songs: Vec<&str> = playlist.songs.iter().map(|p| p.as_str()).collect();
    assert_eq!(songs, vec!["a/1.mp3", "b/2.mp3", "c/3.mp3"]);
    assert!(Playlist::from_directory(Vec::new()).is_none());
}

#[test]
fn test_shuffle_is_permutation_and_keeps_current() {
    let playlist = Playlist::from_line_delimited_string("a\nb\nc\nd\ne\nf\ng\nh");
    let mut playlist = playlist.unwrap();
    playlist.first();
    playlist.next();
    playlist.next();
    let before = playlist.current().map(str::to_owned);
    let mut rng: StdRng = SeedableRng::seed_from_u64(42);
    playlist.shuffle(&mut rng);
    // still a permutation of the song indices
    let mut order = playlist.order.clone();
    order.sort();
    let expected: Vec<usize> = (0..playlist.songs.len()).collect();
    assert_eq!(order, expected);
    // the current item is untouched
    let after = playlist.current().map(str::to_owned);
    assert_eq!(before, after);
}

#[test]
fn test_playlist_order_keeps_current_when_unset() {
    let mut playlist = Playlist::from_line_delimited_string("x\ny").unwrap();
    assert_eq!(playlist.current(), None);
    playlist.playlist_order();
    assert_eq!(playlist.current(), None);
    assert_eq!(playlist.order, vec![0, 1]);
}

#[test]
fn test_bare_carriage_return_kept() {
    // a carriage return that no newline follows is an ordinary character
    let playlist = Playlist::from_line_delimited_string("a\r").unwrap();
    let songs: Vec<&str> = playlist.songs.iter().map(|p| p.as_str()).collect();
    assert_eq!(songs, vec!["a\r"]);

    let playlist = Playlist::from_line_delimited_string("\r").unwrap();
    let songs: Vec<&str> = playlist.songs.iter().map(|p| p.as_str()).collect();
    assert_eq!(songs, vec!["\r"]);

    let playlist = Playlist::from_line_delimited_string("a\n\r").unwrap();
    let songs: Vec<&str> = playlist.songs.iter().map(|p| p.as_str()).collect();
    assert_eq!(songs, vec!["a", "\r"]);
}
