use stardict::url::{header_complete, map_by_file, ContentType, StardictUrl};

#[test]
fn request_needs_get() {
    assert!(StardictUrl::request(b"POST /w/x HTTP/1.0").is_none());
    assert!(StardictUrl::request(b"GET").is_none());
}

#[test]
fn request_word_and_defaults() {
    let u = StardictUrl::request(b"GET /w/hello HTTP/1.0\r\n\r\n").unwrap();
    assert_eq!(u.path, [b'w', 0, 0, 0]);
    assert_eq!(u.word, b"hello".to_vec());
    assert_eq!(u.offset, 0);
    assert_eq!(u.length, 10);
}

#[test]
fn request_percent_decoding() {
    let u = StardictUrl::request(b"GET /w/a%41%2fb%e4 HTTP/1.0").unwrap();
    assert_eq!(u.word, vec![b'a', b'A', b'/', b'b', 0xE4]);
}

#[test]
fn request_arguments() {
    let u = StardictUrl::request(b"GET /n/word?o=-12&l=5 HTTP/1.0").unwrap();
    assert_eq!(u.path, [b'n', 0, 0, 0]);
    assert_eq!(u.word, b"word".to_vec());
    assert_eq!(u.offset, -12);
    assert_eq!(u.length, 5);
    let u = StardictUrl::request(b"GET /n/w?o=3 HTTP/1.0").unwrap();
    assert_eq!(u.offset, 3);
    assert_eq!(u.length, 10);
}

#[test]
fn request_bad_argument_goes_to_word() {
    let u = StardictUrl::request(b"GET /s/ab?l=x9 HTTP/1.0").unwrap();
    assert_eq!(u.word, b"ab9".to_vec());
    assert_eq!(u.length, 10);
}

#[test]
fn request_long_path_keeps_four_bytes() {
    let u = StardictUrl::request(b"GET /rhtmx/a.css HTTP/1.0").unwrap();
    assert_eq!(u.path, *b"rhtm");
    assert_eq!(u.word, b"a.css".to_vec());
    let u = StardictUrl::request(b"GET / HTTP/1.0").unwrap();
    assert!(u.word.is_empty());
}

#[test]
fn url_builders() {
    let mut u = StardictUrl::new();
    u.add_path(b'w', 0);
    u.add_path(b'x', 9);
    u.add_byte(b'q');
    u.add_arg_offset(4);
    u.add_arg_offset(2);
    u.add_arg_length(7);
    assert_eq!(u.path, [b'w', 0, 0, 0]);
    assert_eq!(u.word, b"q".to_vec());
    assert_eq!(u.offset, 42);
    assert_eq!(u.length, 7);
    assert_eq!(StardictUrl::byte_to_u8(b'7'), 7);
    assert_eq!(StardictUrl::byte_to_u8(b'B'), 11);
    assert_eq!(StardictUrl::byte_to_u8(b'f'), 15);
    assert_eq!(StardictUrl::byte_to_u8(b'z'), b'z');
}

#[test]
fn header_end_detection() {
    assert!(header_complete(b"GET / HTTP/1.0\r\n\r\n"));
    assert!(header_complete(b"GET / HTTP/1.0\n\n"));
    assert!(!header_complete(b"GET / HTTP/1.0\r\n"));
    assert!(!header_complete(b""));
}

#[test]
fn content_type_by_extension() {
    assert_eq!(map_by_file(b"rhtm/jquery.js"), ContentType::Javascript);
    assert_eq!(map_by_file(b"a.css"), ContentType::Css);
    assert_eq!(map_by_file(b"x.y.jpg"), ContentType::Jpeg);
    assert_eq!(map_by_file(b"p.png"), ContentType::Png);
    assert_eq!(map_by_file(b"index.html"), ContentType::Html);
    assert_eq!(map_by_file(b"js"), ContentType::Javascript);
    assert_eq!(map_by_file(b"noext"), ContentType::Html);
}
