use stardict::dict::Dict;
use stardict::dictionary::Dictionary;
use stardict::merge::WordStream;
use stardict::pattern::Matcher;
use stardict::result::DictError;
use stardict::StarDict;

fn idx_bytes(entries: &[(&[u8], u32, u32)]) -> Vec<u8> {
    let mut v = Vec::new();
    for (w, o, l) in entries {
        v.extend_from_slice(w);
        v.push(0);
        v.extend_from_slice(&o.to_be_bytes());
        v.extend_from_slice(&l.to_be_bytes());
    }
    v
}

fn syn_bytes(entries: &[(&[u8], u32)]) -> Vec<u8> {
    let mut v = Vec::new();
    for (w, t) in entries {
        v.extend_from_slice(w);
        v.push(0);
        v.extend_from_slice(&t.to_be_bytes());
    }
    v
}

fn dictionary(words: &[&[u8]], syn: Option<Vec<u8>>, syn_count: usize) -> Dictionary {
    let mut entries = Vec::new();
    let mut payload = Vec::new();
    for w in words {
        entries.push((*w, payload.len() as u32, w.len() as u32));
        payload.extend_from_slice(w);
    }
    let ifo = format!("bookname=test\nwordcount={}\nsynwordcount={}\nsametypesequence=m\n", words.len(), syn_count);
    Dictionary::new(ifo.as_bytes(), String::from("test"), idx_bytes(&entries), payload, syn).unwrap()
}

fn drain<T: WordStream>(mut it: T) -> Vec<Vec<u8>> {
    let mut out = Vec::new();
    while let Some(w) = it.next() {
        out.push(w);
    }
    out
}

#[test]
fn exact_ascii_lookup() {
    let content = idx_bytes(&[(b"apple", 0, 5), (b"banana", 5, 6), (b"cherry", 11, 6)]);
    let ifo = b"wordcount=3\nidxfilesize=48\n";
    let d = Dictionary::new(ifo, String::from("fruit"), content, b"applebananacherry".to_vec(), None).unwrap();
    let r = d.lookup(b"banana").unwrap();
    assert_eq!(r.len(), 1);
    assert_eq!(r[0].word, b"banana".to_vec());
    assert_eq!(r[0].result, b"banana".to_vec());
    assert_eq!(r[0].dictionary.dict_path, "fruit");
}

#[test]
fn case_fallback_lookup() {
    let d = dictionary(&[b"Apple", b"banana"], None, 0);
    let r = d.lookup(b"apple").unwrap();
    assert_eq!(r.len(), 1);
    assert_eq!(r[0].word, b"Apple".to_vec());
    let r = d.lookup(b"APPLE").unwrap();
    assert_eq!(r.len(), 1);
    assert_eq!(r[0].word, b"Apple".to_vec());
}

#[test]
fn synonym_fanout() {
    let syn = syn_bytes(&[(b"HUE", 1), (b"hue", 0)]);
    let d = dictionary(&[b"color", b"colour"], Some(syn), 2);
    assert!(d.syn.is_some());
    let r = d.lookup(b"hue").unwrap();
    let words: Vec<Vec<u8>> = r.iter().map(|x| x.word.clone()).collect();
    assert_eq!(words, vec![b"color".to_vec(), b"colour".to_vec()]);
    assert_eq!(r[1].result, b"colour".to_vec());
}

#[test]
fn lookup_without_match_is_not_found() {
    let d = dictionary(&[b"a", b"b"], None, 0);
    assert!(matches!(d.lookup(b"zzz"), Err(DictError::NotFound(0))));
}

#[test]
fn lookup_with_bad_window_fails() {
    let content = idx_bytes(&[(b"apple", 0, 50)]);
    let d = Dictionary::new(b"wordcount=1\n", String::new(), content, b"apple".to_vec(), None).unwrap();
    assert!(matches!(d.lookup(b"apple"), Err(DictError::Io(_))));
}

#[test]
fn syn_with_wrong_count_is_left_out() {
    let syn = syn_bytes(&[(b"hue", 0)]);
    let d = dictionary(&[b"color"], Some(syn), 5);
    assert!(d.syn.is_none());
}

#[test]
fn dictionary_rejects_bad_files() {
    let content = idx_bytes(&[(b"a", 0, 1)]);
    assert!(matches!(Dictionary::new(b"wordcount=2\n", String::new(), content.clone(), Vec::new(), None), Err(DictError::My(_))));
    assert!(matches!(Dictionary::new(b"wordcount=1\nidxoffsetbits=16\n", String::new(), content.clone(), Vec::new(), None), Err(DictError::My(_))));
    assert!(matches!(Dictionary::new(b"wordcount=x\n", String::new(), content, Vec::new(), None), Err(DictError::Parse(_))));
}

#[test]
fn neighbors_with_negative_offset() {
    let d = dictionary(&[b"a", b"b", b"c", b"d", b"e"], None, 0);
    assert_eq!(drain(d.neighbors(b"c", -2)), vec![b"a".to_vec(), b"b".to_vec(), b"c".to_vec(), b"d".to_vec(), b"e".to_vec()]);
    assert_eq!(drain(d.neighbors(b"c", 1)), vec![b"d".to_vec(), b"e".to_vec()]);
    assert!(drain(d.neighbors(b"zzz", 0)).is_empty());
    assert_eq!(drain(d.neighbors(b"a", -100)).len(), 5);
    assert!(drain(d.neighbors_syn(b"a", 0)).is_empty());
}

#[test]
fn neighbors_of_synonyms() {
    let syn = syn_bytes(&[(b"hue", 0), (b"shade", 1)]);
    let d = dictionary(&[b"color", b"colour"], Some(syn), 2);
    assert_eq!(drain(d.neighbors_syn(b"i", 0)), vec![b"shade".to_vec()]);
}

#[test]
fn search_by_regex() {
    let syn = syn_bytes(&[(b"hue", 0), (b"shade", 1)]);
    let d = dictionary(&[b"apple", b"banana", b"cherry"], Some(syn), 2);
    assert_eq!(drain(d.search(b"an").unwrap()), vec![b"banana".to_vec()]);
    assert_eq!(drain(d.search(b"^[ac]").unwrap()), vec![b"apple".to_vec(), b"cherry".to_vec()]);
    let m = Matcher::compile(b"h").unwrap();
    assert_eq!(drain(d.search_syn(&m)), vec![b"hue".to_vec(), b"shade".to_vec()]);
    assert_eq!(drain(d.search_regex(&m)), vec![b"cherry".to_vec()]);
}

#[test]
fn search_reports_bad_expressions() {
    let d = dictionary(&[b"apple"], None, 0);
    assert!(matches!(d.search(b"("), Err(DictError::My(_))));
    assert!(matches!(d.search(b"\xff"), Err(DictError::Utf8)));
    assert!(matches!(Matcher::compile(b"[a-"), Err(DictError::My(_))));
}

#[test]
fn dict_reads_windows() {
    let d = Dict::open(b"hello world".to_vec());
    assert_eq!(d.read(6, 5).unwrap(), b"world".to_vec());
    assert_eq!(d.read(11, 0).unwrap(), Vec::<u8>::new());
    assert!(matches!(d.read(7, 5), Err(DictError::Io(_))));
    assert!(matches!(d.read(20, 0), Err(DictError::Io(_))));
}

#[test]
fn k_way_merge_dedup() {
    let a = dictionary(&[b"apple", b"banana"], None, 0);
    let b = dictionary(&[b"banana", b"cherry"], None, 0);
    let st = StarDict::new(vec![a, b]);
    let mut it = st.neighbors(b"", 0);
    assert_eq!(it.take(10), vec![b"apple".to_vec(), b"banana".to_vec(), b"cherry".to_vec()]);
    assert!(it.next().is_none());
}

#[test]
fn stardict_lookup_and_info() {
    let a = dictionary(&[b"apple", b"banana"], None, 0);
    let b = dictionary(&[b"Banana", b"cherry"], None, 0);
    let st = StarDict::new(vec![a, b]);
    assert_eq!(st.info().len(), 2);
    let r = st.lookup(b"banana").unwrap();
    let words: Vec<Vec<u8>> = r.iter().map(|x| x.word.clone()).collect();
    assert_eq!(words, vec![b"banana".to_vec(), b"Banana".to_vec()]);
    assert!(matches!(st.lookup(b"zzz"), Err(DictError::NotFound(0))));
    let empty = StarDict::new(Vec::new());
    assert!(matches!(empty.lookup(b"a"), Err(DictError::NotFound(0))));
}

#[test]
fn stardict_search_merges_matches() {
    let a = dictionary(&[b"apple", b"banana"], None, 0);
    let b = dictionary(&[b"banana", b"cherry"], None, 0);
    let st = StarDict::new(vec![a, b]);
    let m = Matcher::compile(b"an|rr").unwrap();
    let mut it = st.search(&m);
    assert_eq!(it.take(2), vec![b"banana".to_vec(), b"cherry".to_vec()]);
    assert_eq!(it.take(5), Vec::<Vec<u8>>::new());
}

#[test]
fn merge_emits_a_shared_word_once() {
    let a = dictionary(&[b"b", b"d"], None, 0);
    let b = dictionary(&[b"a", b"b", b"c"], None, 0);
    let c = dictionary(&[b"B", b"b", b"e"], None, 0);
    let st = StarDict::new(vec![a, b, c]);
    let mut it = st.neighbors(b"", 0);
    let got = it.take(100);
    assert_eq!(got, vec![b"a".to_vec(), b"B".to_vec(), b"b".to_vec(), b"c".to_vec(), b"d".to_vec(), b"e".to_vec()]);
    for w in got.windows(2) {
        assert_eq!(stardict::idx::Idx::dict_cmp(&w[0], &w[1], false), std::cmp::Ordering::Less);
    }
}

#[test]
fn merge_take_stops_at_count() {
    let a = dictionary(&[b"a", b"c"], None, 0);
    let b = dictionary(&[b"b", b"d"], None, 0);
    let st = StarDict::new(vec![a, b]);
    let mut it = st.neighbors(b"b", 0);
    assert_eq!(it.take(2), vec![b"b".to_vec(), b"c".to_vec()]);
    assert_eq!(it.next(), Some(b"d".to_vec()));
    assert_eq!(it.next(), None);
}

#[test]
fn lookup_keeps_candidate_order_and_count() {
    let syn = syn_bytes(&[(b"x", 2), (b"X", 0), (b"x", 1), (b"y", 0)]);
    let d = dictionary(&[b"a", b"b", b"x"], Some(syn), 4);
    let r = d.lookup(b"x").unwrap();
    let words: Vec<Vec<u8>> = r.iter().map(|e| e.word.clone()).collect();
    assert_eq!(words, vec![b"x".to_vec(), b"b".to_vec(), b"a".to_vec(), b"x".to_vec()]);
}

#[test]
fn lookup_first_synonym_hit() {
    let syn = syn_bytes(&[(b"alpha", 1), (b"beta", 0)]);
    let d = dictionary(&[b"one", b"two"], Some(syn), 2);
    let r = d.lookup(b"alpha").unwrap();
    assert_eq!(r.len(), 1);
    assert_eq!(r[0].word, b"two".to_vec());
}

#[test]
fn lookup_bad_synonym_target_fails() {
    let syn = syn_bytes(&[(b"hue", 7)]);
    let d = dictionary(&[b"color"], Some(syn), 1);
    assert!(matches!(d.lookup(b"hue"), Err(DictError::NotFound(7))));
}

#[test]
fn stardict_from_opened_skips_failures() {
    let a = dictionary(&[b"a"], None, 0);
    let b = dictionary(&[b"b"], None, 0);
    let st = StarDict::from_opened(vec![Ok(a), Err(DictError::My(String::from("bad"))), Ok(b)]);
    assert_eq!(st.info().len(), 2);
    assert_eq!(st.lookup(b"b").unwrap()[0].word, b"b".to_vec());
}

#[test]
fn name_order_sorts_by_bytes() {
    let names = vec![b"zh".to_vec(), b"en".to_vec(), b"de".to_vec(), b"en-us".to_vec()];
    assert_eq!(stardict::order::name_order(&names), vec![2, 1, 3, 0]);
    assert!(stardict::order::name_order(&Vec::new()).is_empty());
}
