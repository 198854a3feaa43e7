use smartgameviewer::playlist::{
    natural_sort_compare, order_entries, tokenize, FolderEntry, PlaylistManager, Token,
};
use std::cmp::Ordering;

fn entry(folder: &str, stem: &str, extension: Option<&str>) -> FolderEntry {
    let path = match extension {
        Some(e) => format!("{}/{}.{}", folder, stem, e),
        None => format!("{}/{}", folder, stem),
    };
    FolderEntry {
        path,
        stem: stem.to_string(),
        extension: extension.map(|e| e.to_string()),
    }
}

/// The listing of a folder holding game1, game10, game2 and game20, as a
/// directory read may hand it out.
fn test_sgf_listing() -> Vec<FolderEntry> {
    vec![
        entry("test_sgf", "game10", Some("sgf")),
        entry("test_sgf", "game2", Some("sgf")),
        entry("test_sgf", "game20", Some("sgf")),
        entry("test_sgf", "game1", Some("sgf")),
    ]
}

fn stem_of(path: &str) -> String {
    let name = path.rsplit('/').next().unwrap();
    match name.rfind('.') {
        Some(i) => name[..i].to_string(),
        None => name.to_string(),
    }
}

#[test]
fn test_single_file_playlist() {
    let playlist = PlaylistManager::single("sgf/AlphaGo_LeeSedol_game4.sgf".to_string());

    assert_eq!(playlist.is_single_file(), true);
    assert_eq!(playlist.has_next(), false);
    assert_eq!(playlist.current(), "sgf/AlphaGo_LeeSedol_game4.sgf");
}

#[test]
fn test_natural_sort_ordering() {
    let mut playlist = PlaylistManager::from_folder(test_sgf_listing()).unwrap();

    let first = stem_of(playlist.current());
    assert_eq!(first, "game1");

    assert!(playlist.next());
    let second = stem_of(playlist.current());
    assert_eq!(second, "game2");

    assert!(playlist.next());
    let third = stem_of(playlist.current());
    assert_eq!(third, "game10");

    assert!(playlist.next());
    let fourth = stem_of(playlist.current());
    assert_eq!(fourth, "game20");

    assert_eq!(playlist.has_next(), false);
}

#[test]
fn test_folder_playlist() {
    let playlist = PlaylistManager::from_folder(test_sgf_listing()).unwrap();

    assert_eq!(playlist.is_single_file(), false);
    assert_eq!(playlist.has_next(), true);

    let first = playlist.current().to_string();
    assert!(first.contains("game1"));

    let mut playlist = playlist;
    playlist.next();
    let second = playlist.current().to_string();
    assert!(second.contains("game2"));
}

#[test]
fn test_playlist_reset() {
    let mut playlist = PlaylistManager::from_folder(test_sgf_listing()).unwrap();

    let initial = stem_of(playlist.current());

    playlist.next();
    playlist.next();

    playlist.reset();
    let after_reset = stem_of(playlist.current());

    assert_eq!(initial, after_reset);
    assert_eq!(after_reset, "game1");
}

#[test]
fn test_playlist_with_real_sgf_files() {
    let listing = vec![
        entry("sgf", "AlphaGo_LeeSedol_game4", Some("sgf")),
        entry("sgf", "notes", Some("txt")),
        entry("sgf", "AlphaGo_LeeSedol_game5", Some("sgf")),
    ];
    if let Some(playlist) = PlaylistManager::from_folder(listing) {
        assert!(!playlist.is_empty());

        let current = playlist.current();
        assert!(current.ends_with(".sgf"));
    }
}

#[test]
fn test_single_file_mode_compatibility() {
    let playlist = PlaylistManager::single("sgf/AlphaGo_LeeSedol_game4.sgf".to_string());
    assert!(playlist.is_single_file());
    assert!(!playlist.has_next());
}

#[test]
fn other_files_are_left_out_and_case_is_ignored() {
    let listing = vec![
        entry("d", "b", Some("SGF")),
        entry("d", "readme", Some("md")),
        entry("d", "a", Some("Sgf")),
        entry("d", "noext", None),
        entry("d", "c", Some("sgff")),
    ];
    let ordered = order_entries(listing);
    let paths: Vec<String> = ordered.iter().map(|e| e.path.clone()).collect();
    assert_eq!(paths, vec!["d/a.Sgf".to_string(), "d/b.SGF".to_string()]);
}

#[test]
fn a_folder_without_records_gives_no_playlist() {
    let listing = vec![entry("d", "readme", Some("md")), entry("d", "x", None)];
    assert!(PlaylistManager::from_folder(listing).is_none());
    assert!(PlaylistManager::from_folder(Vec::new()).is_none());
}

#[test]
fn peek_next_and_next_at_the_end() {
    let mut playlist = PlaylistManager::from_folder(test_sgf_listing()).unwrap();
    assert_eq!(playlist.peek_next(), Some("test_sgf/game2.sgf"));
    playlist.next();
    playlist.next();
    playlist.next();
    assert_eq!(playlist.peek_next(), None);
    assert!(!playlist.next());
    assert_eq!(playlist.current(), "test_sgf/game20.sgf");
}

#[test]
fn tokens_split_numbers_from_text_and_lower_the_text() {
    assert_eq!(
        tokenize("Game10b2"),
        vec![
            Token::Text(vec!['g', 'a', 'm', 'e']),
            Token::Number(10),
            Token::Text(vec!['b']),
            Token::Number(2),
        ]
    );
    assert_eq!(tokenize(""), Vec::<Token>::new());
    assert_eq!(tokenize("007"), vec![Token::Number(7)]);
}

#[test]
fn numeric_run_that_does_not_parse_is_dropped() {
    // a superscript two is numeric but is no ASCII digit
    assert_eq!(tokenize("x\u{b2}y"), vec![Token::Text(vec!['x']), Token::Text(vec!['y'])]);
    // too large for usize
    assert_eq!(
        tokenize("a99999999999999999999999999"),
        vec![Token::Text(vec!['a'])]
    );
}

#[test]
fn natural_order_of_names() {
    assert_eq!(natural_sort_compare("game2", "game10"), Ordering::Less);
    assert_eq!(natural_sort_compare("game10", "game2"), Ordering::Greater);
    assert_eq!(natural_sort_compare("Game1", "game1"), Ordering::Equal);
    assert_eq!(natural_sort_compare("game", "game1"), Ordering::Less);
    assert_eq!(natural_sort_compare("1", "a"), Ordering::Greater);
    assert_eq!(natural_sort_compare("abc", "abd"), Ordering::Less);
}

#[test]
fn equal_names_keep_listing_order() {
    let listing = vec![
        entry("x", "Game1", Some("sgf")),
        entry("y", "game1", Some("sgf")),
        entry("z", "game01", Some("sgf")),
    ];
    let ordered = order_entries(listing);
    let paths: Vec<String> = ordered.iter().map(|e| e.path.clone()).collect();
    assert_eq!(
        paths,
        vec![
            "x/Game1.sgf".to_string(),
            "y/game1.sgf".to_string(),
            "z/game01.sgf".to_string()
        ]
    );
}
