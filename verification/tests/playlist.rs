use playlist_order::playlist::Playlist;
use rand::rngs::StdRng;
use rand::SeedableRng;

#[test]
fn test_load() {
    let playlist = Playlist::from_line_delimited_string("first\nsecond\nthird\nfourth\nfifth");
    assert!(playlist.is_some());
    let playlist = playlist.unwrap();
    let songs: Vec<&str> = playlist.songs.iter().map(|p| p.as_str()).collect();
    assert_eq!(songs, vec!["first", "second", "third", "fourth", "fifth"])
}

#[test]
fn test_next() {
    let playlist = Playlist::from_line_delimited_string("first\nsecond\nthird\nfourth\nfifth");
    assert!(playlist.is_some());
    let mut playlist = playlist.unwrap();
    assert_eq!(playlist.current(), None);
    playlist.first();
    assert_eq!(playlist.current(), Some("first"));
    playlist.next();
    assert_eq!(playlist.current(), Some("second"));
    playlist.next();
    assert_eq!(playlist.current(), Some("third"));
    playlist.next();
    assert_eq!(playlist.current(), Some("fourth"));
    playlist.next();
    assert_eq!(playlist.current(), Some("fifth"));
    playlist.next();
    assert_eq!(playlist.current(), None);
}

#[test]
fn test_prev() {
    let playlist = Playlist::from_line_delimited_string("first\nsecond\nthird\nfourth\nfifth");
    assert!(playlist.is_some());
    let mut playlist = playlist.unwrap();
    assert_eq!(playlist.current(), None);
    playlist.last();
    assert_eq!(playlist.current(), Some("fifth"));
    playlist.prev();
    assert_eq!(playlist.current(), Some("fourth"));
    playlist.prev();
    assert_eq!(playlist.current(), Some("third"));
    playlist.prev();
    assert_eq!(playlist.current(), Some("second"));
    playlist.prev();
    assert_eq!(playlist.current(), Some("first"));
    playlist.prev();
    assert_eq!(playlist.current(), None);
}

#[test]
fn test_shuffle() {
    let playlist = Playlist::from_line_delimited_string("first\nsecond\nthird\nfourth\nfifth");
    assert!(playlist.is_some());
    let mut playlist = playlist.unwrap();

    let mut rng: StdRng = SeedableRng::seed_from_u64(123456789);
    playlist.first();
    playlist.next();
    playlist.shuffle(&mut rng);

    let songs: Vec<&str> = playlist.order.iter().map(|&o| playlist.songs[o].as_str()).collect();
    assert_eq!(songs, vec!["first", "fifth", "third", "fourth", "second"]);
    assert_eq!(playlist.current(), Some("second"));
    playlist.next();
    assert_eq!(playlist.current(), None); // End of playlist, restart from start
}

#[test]
fn test_playlist_order() {
    let playlist = Playlist::from_line_delimited_string("first\nsecond\nthird\nfourth\nfifth");
    assert!(playlist.is_some());
    let mut playlist = playlist.unwrap();

    let mut rng: StdRng = SeedableRng::seed_from_u64(123456789);
    playlist.first();
    playlist.shuffle(&mut rng); // new order: "first", "fifth", "third", "fourth", "second"
    playlist.next(); // Move to "fifth"
    playlist.playlist_order();

    let songs: Vec<&str> = playlist.order.iter().map(|&o| playlist.songs[o].as_str()).collect();
    assert_eq!(songs, vec!["first", "second", "third", "fourth", "fifth"]);
    assert_eq!(playlist.current_order, Some(4));
    assert_eq!(playlist.current_song, Some(4));
    assert_eq!(playlist.current(), Some("fifth")); // Still on "fifth"

    playlist.next();
    assert_eq!(playlist.current(), None); // End of playlist, restart from start
}
