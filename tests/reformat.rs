use stardict::reformat::{render, unescape_line, ContentReformat};
use stardict::result::DictError;

#[test]
fn no_rules_keep_the_haystack() {
    let cr = ContentReformat::from_config_file(b"").unwrap();
    assert_eq!(cr.replace_all(b'h', b"eng", b"see IMG"), b"see IMG".to_vec());
    let cr = ContentReformat::from_config_file(b":m\nfoo=bar\n").unwrap();
    assert_eq!(cr.replace_all(b'h', b"eng", b"foo"), b"foo".to_vec());
    assert_eq!(cr.replace_all(b'm', b"eng", b"foo foo"), b"bar bar".to_vec());
}

#[test]
fn reformat_templating() {
    let config = b":h\nIMG~<img src=PATH/>\nPATH@/asset/@p/img\n";
    let cr = ContentReformat::from_config_file(config).unwrap();
    assert_eq!(cr.replace_all(b'h', b"eng", b"see IMG"), b"see <img src=/asset/eng/img/>".to_vec());
    assert_eq!(cr.replace_all(b'h', b"fra", b"PATH"), b"/asset/fra/img".to_vec());
}

#[test]
fn template_variables() {
    let cr = ContentReformat::from_config_file(b":x\nK@a@pb@qc@@d@\n").unwrap();
    assert_eq!(cr.replace_all(b'x', b"P", b"K"), b"aPbc".to_vec());
}

#[test]
fn regex_rule_runs_before_plain_rules() {
    let cr = ContentReformat::from_config_file(b":t\na+~b\nb=c\n").unwrap();
    assert_eq!(cr.replace_all(b't', b"", b"aaa b"), b"c c".to_vec());
    let cr = ContentReformat::from_config_file(b":t\nb=c\na+~b\n").unwrap();
    assert_eq!(cr.replace_all(b't', b"", b"aaa b"), b"c c".to_vec());
}

#[test]
fn regex_replacement_is_literal() {
    let cr = ContentReformat::from_config_file(b":t\n(a)~$1x\n").unwrap();
    assert_eq!(cr.replace_all(b't', b"", b"bab"), b"b$1xb".to_vec());
}

#[test]
fn plain_rules_apply_in_one_pass() {
    let cr = ContentReformat::from_config_file(b":t\na=b\nb=a\n").unwrap();
    assert_eq!(cr.replace_all(b't', b"", b"ab"), b"ba".to_vec());
}

#[test]
fn escapes_and_first_operator() {
    let cr = ContentReformat::from_config_file(b":t\n\\==eq\nx\\ty=tab\nq=\\n\n").unwrap();
    assert_eq!(cr.replace_all(b't', b"", b"a=b x\ty q"), b"aeqb tab \n".to_vec());
}

#[test]
fn comments_headers_and_dropped_rules() {
    let config = b"a=dropped before any type\n#:t\n\n:t\n=empty pattern\nnooperator\n# c=d\nc=e\n:u\nc=f\n";
    let cr = ContentReformat::from_config_file(config).unwrap();
    assert_eq!(cr.replace_all(b't', b"", b"a c nooperator"), b"a e nooperator".to_vec());
    assert_eq!(cr.replace_all(b'u', b"", b"c"), b"f".to_vec());
    assert_eq!(cr.replace_all(b'#', b"", b"c"), b"c".to_vec());
}

#[test]
fn bad_regex_poisons_the_load() {
    assert!(matches!(ContentReformat::from_config_file(b":t\n(~x\n"), Err(DictError::My(_))));
    assert!(matches!(ContentReformat::from_config_file(b":t\n\xff~x\n"), Err(DictError::My(_))));
}

#[test]
fn from_escape_maps_controls() {
    assert_eq!(ContentReformat::from_escape(b't'), b'\t');
    assert_eq!(ContentReformat::from_escape(b'n'), b'\n');
    assert_eq!(ContentReformat::from_escape(b'r'), b'\r');
    assert_eq!(ContentReformat::from_escape(b'x'), b'x');
}

#[test]
fn entry_segments_follow_type_sequence() {
    let cr = ContentReformat::from_config_file(b":m\na=A\n:h\na=H\n").unwrap();
    assert_eq!(cr.reformat_entry(b"mh", b"", b"aa\0ba"), b"AAbH".to_vec());
    assert_eq!(cr.reformat_entry(b"m", b"", b"a\0a"), b"A".to_vec());
    assert_eq!(cr.reformat_entry(b"mh", b"", b"a"), b"A".to_vec());
    assert_eq!(cr.reformat_entry(b"", b"", b"a"), Vec::<u8>::new());
}

#[test]
fn render_expands_path_variable() {
    assert_eq!(render(b"/asset/@p/img", b"eng"), b"/asset/eng/img".to_vec());
    assert_eq!(render(b"a@@pb@", b"X"), b"aXb".to_vec());
    assert_eq!(render(b"@zq", b"X"), b"q".to_vec());
    assert_eq!(render(b"plain", b"X"), b"plain".to_vec());
}

#[test]
fn unescape_line_finds_first_unescaped_operator() {
    assert_eq!(unescape_line(b"a\\=b~c"), (b"a=b~c".to_vec(), 3));
    assert_eq!(unescape_line(b"x\\ty@z"), (b"x\ty@z".to_vec(), 3));
    assert_eq!(unescape_line(b"none"), (b"none".to_vec(), 0));
    assert_eq!(unescape_line(b"=lead"), (b"=lead".to_vec(), 0));
    assert_eq!(unescape_line(b"end\\"), (b"end".to_vec(), 0));
}
