use stardict::ifo::{parse_usize, Ifo};
use stardict::result::DictError;

#[test]
fn ifo_reads_known_keys() {
    let text = b"StarDict's dict ifo file\nversion=2.4.2\nwordcount=3\nidxfilesize=57\nbookname=Test Book\nauthor=Someone\ndescription=A test\nsametypesequence=m\ndate=2024.01.01\nwebsite=example.org\nemail=a@b.c\nsynwordcount=2\n";
    let ifo = Ifo::open(text, String::from("eng")).unwrap();
    assert_eq!(ifo.name, "Test Book");
    assert_eq!(ifo.author, "Someone");
    assert_eq!(ifo.description, "A test");
    assert_eq!(ifo.version, "2.4.2");
    assert_eq!(ifo.date, "2024.01.01");
    assert_eq!(ifo.web_site, "example.org");
    assert_eq!(ifo.email, "a@b.c");
    assert_eq!(ifo.same_type_sequence, "m");
    assert_eq!(ifo.dict_path, "eng");
    assert_eq!(ifo.word_count, 3);
    assert_eq!(ifo.idx_file_size, 57);
    assert_eq!(ifo.syn_word_count, 2);
    assert_eq!(ifo.idxoffsetbits, 32);
}

#[test]
fn ifo_defaults_and_overrides() {
    let ifo = Ifo::open(b"wordcount=1\nwordcount=+4\nidxoffsetbits=64", String::new()).unwrap();
    assert_eq!(ifo.word_count, 4);
    assert_eq!(ifo.idxoffsetbits, 64);
    assert_eq!(ifo.name, "");
    assert_eq!(ifo.syn_word_count, 0);
}

#[test]
fn ifo_strips_crlf_and_ignores_other_lines() {
    let ifo = Ifo::open(b"no equals sign\r\nbookname=Win\r\nunknown=zzz\r\nwordcount=7\r\n", String::new()).unwrap();
    assert_eq!(ifo.name, "Win");
    assert_eq!(ifo.word_count, 7);
}

#[test]
fn ifo_value_keeps_later_equals() {
    let ifo = Ifo::open(b"description=a=b", String::new()).unwrap();
    assert_eq!(ifo.description, "a=b");
}

#[test]
fn ifo_bad_number_is_a_parse_error() {
    match Ifo::open(b"bookname=x\nwordcount=12a\n", String::new()) {
        Err(DictError::Parse(v)) => assert_eq!(v, b"12a".to_vec()),
        _ => panic!("expected a parse error"),
    }
    assert!(matches!(Ifo::open(b"wordcount=\n", String::new()), Err(DictError::Parse(_))));
    assert!(matches!(Ifo::open(b"wordcount=1\r\r\n", String::new()), Err(DictError::Parse(_))));
}

#[test]
fn ifo_bad_text_is_a_utf8_error() {
    assert!(matches!(Ifo::open(b"bookname=\xff\xfe\n", String::new()), Err(DictError::Utf8)));
}

#[test]
fn parse_usize_follows_str_parse() {
    assert_eq!(parse_usize(b"0"), Some(0));
    assert_eq!(parse_usize(b"12345"), Some(12345));
    assert_eq!(parse_usize(b"+9"), Some(9));
    assert_eq!(parse_usize(b""), None);
    assert_eq!(parse_usize(b"+"), None);
    assert_eq!(parse_usize(b"-1"), None);
    assert_eq!(parse_usize(b" 1"), None);
    assert_eq!(parse_usize(b"99999999999999999999999"), None);
    assert_eq!(parse_usize(usize::MAX.to_string().as_bytes()), Some(usize::MAX));
}
