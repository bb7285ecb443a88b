//! One dictionary: its metadata, index, optional synonym index and payload,
//! with lookup, neighbor listing and regular expression search.
use std::cmp::Ordering;
use vstd::prelude::*;
use vstd::utf8::{decode_utf8, valid_utf8};

use crate::collation::{dict_order, lemma_order_flip};
use crate::dict::Dict;
use crate::idx::{be4, hint_of, idx_lookup, trailer_length, trailer_offset, Idx};
use crate::ifo::{line_ok, number_field, text_lines_from, Field, Ifo};
use crate::table::{holds_records, is_layout, trailer_at, words_of};
use crate::merge::WordStream;
use crate::pattern::{regex_compiles, regex_finds, Matcher};
use crate::result::DictError;
use crate::syn::{syn_lookup, Syn};

verus! {

/// The words of `ws` from position `k` on.
pub open spec fn suffix(ws: Seq<Seq<u8>>, k: int) -> Seq<Seq<u8>> {
    if k >= ws.len() {
        Seq::empty()
    } else {
        ws.subrange(k, ws.len() as int)
    }
}

/// The words of `ws` that the regular expression `p` matches, in order.
pub open spec fn matching(ws: Seq<Seq<u8>>, p: Seq<char>) -> Seq<Seq<u8>>
    decreases ws.len(),
{
    if ws.len() == 0 {
        Seq::empty()
    } else if regex_finds(p, ws[0]) {
        seq![ws[0]] + matching(ws.drop_first(), p)
    } else {
        matching(ws.drop_first(), p)
    }
}

/// The index a word stream reads: the primary index or the synonym index.
pub enum IdxRef<'a> {
    Ref(&'a Idx),
    SynRef(&'a Option<Syn>),
}

impl<'a> IdxRef<'a> {
    /// The words of the index; none when the synonym index is absent.
    pub open spec fn words(&self) -> Seq<Seq<u8>> {
        match *self {
            IdxRef::Ref(i) => i.words(),
            IdxRef::SynRef(o) => match *o {
                Some(s) => s.words(),
                None => Seq::empty(),
            },
        }
    }

    pub open spec fn valid(&self) -> bool {
        match *self {
            IdxRef::Ref(i) => i.wf(),
            IdxRef::SynRef(o) => match *o {
                Some(s) => s.wf(),
                None => true,
            },
        }
    }

    /// The number of words.
    pub fn len(&self) -> (r: usize)
        ensures
            r == self.words().len(),
    {
        match self {
            IdxRef::Ref(i) => i.len(),
            IdxRef::SynRef(o) => match o {
                Some(s) => s.len(),
                None => 0,
            },
        }
    }

    /// The word at position `i`.
    pub fn word(&self, i: usize) -> (r: Vec<u8>)
        requires
            self.valid(),
            i < self.words().len(),
        ensures
            r@ == self.words()[i as int],
    {
        let w = match self {
            IdxRef::Ref(x) => x.get_word(i),
            IdxRef::SynRef(o) => match o {
                Some(s) => s.get_word(i),
                None => Err(DictError::NotFound(i)),
            },
        };
        match w {
            Ok(w) => w,
            Err(_) => Vec::new(),
        }
    }
}

/// A compiled regular expression that a search owns or borrows.
pub enum MatcherRef<'a> {
    Owned(Matcher),
    Borrowed(&'a Matcher),
}

impl<'a> MatcherRef<'a> {
    /// The text of the regular expression.
    pub open spec fn source(&self) -> Seq<char> {
        match *self {
            MatcherRef::Owned(m) => m.source(),
            MatcherRef::Borrowed(m) => m.source(),
        }
    }

    fn is_match(&self, hay: &[u8]) -> (r: bool)
        ensures
            r == regex_finds(self.source(), hay@),
    {
        match self {
            MatcherRef::Owned(m) => m.is_match(hay),
            MatcherRef::Borrowed(m) => m.is_match(hay),
        }
    }
}

/// The words of an index that a regular expression matches, in index order.
pub struct IdxIter<'a> {
    cur: usize,
    idx: IdxRef<'a>,
    matcher: MatcherRef<'a>,
}

/// The words of an index from a position on.
pub struct DictNeighborIter<'a> {
    cur: usize,
    idx: IdxRef<'a>,
}

impl<'a> WordStream for DictNeighborIter<'a> {
    closed spec fn rest(&self) -> Seq<Seq<u8>> {
        suffix(self.idx.words(), self.cur as int)
    }

    closed spec fn valid(&self) -> bool {
        self.idx.valid()
    }

    fn next(&mut self) -> (r: Option<Vec<u8>>) {
        if self.cur < self.idx.len() {
            let w = self.idx.word(self.cur);
            let ghost ws = self.idx.words();
            assert(suffix(ws, self.cur as int).drop_first() =~= suffix(ws, self.cur + 1));
            self.cur = self.cur + 1;
            Some(w)
        } else {
            None
        }
    }
}

impl<'a> WordStream for IdxIter<'a> {
    closed spec fn rest(&self) -> Seq<Seq<u8>> {
        matching(suffix(self.idx.words(), self.cur as int), self.matcher.source())
    }

    closed spec fn valid(&self) -> bool {
        self.idx.valid()
    }

    fn next(&mut self) -> (r: Option<Vec<u8>>) {
        let n = self.idx.len();
        let ghost ws = self.idx.words();
        let ghost p = self.matcher.source();
        let ghost goal = matching(suffix(ws, self.cur as int), p);
        while self.cur < n
            invariant
                self.idx.valid(),
                ws == self.idx.words(),
                p == self.matcher.source(),
                n == ws.len(),
                goal == matching(suffix(ws, self.cur as int), p),
                goal == old(self).rest(),
            decreases n - self.cur,
        {
            let ghost c = self.cur as int;
            let w = self.idx.word(self.cur);
            proof {
                let sfx = suffix(ws, c);
                assert(sfx[0] == w@);
                assert(sfx.drop_first() =~= suffix(ws, c + 1));
            }
            self.cur = self.cur + 1;
            if self.matcher.is_match(w.as_slice()) {
                proof {
                    assert(goal == seq![w@] + matching(suffix(ws, c + 1), p));
                    assert(goal.drop_first() =~= matching(suffix(ws, c + 1), p));
                }
                return Some(w);
            }
        }
        None
    }
}

/// `h + off`, kept within `0..=usize::MAX`.
pub open spec fn offset_start(h: int, off: int) -> int {
    if h + off < 0 {
        0
    } else if h + off > usize::MAX {
        usize::MAX as int
    } else {
        h + off
    }
}

fn offset_position(h: usize, off: i32) -> (r: usize)
    ensures
        r == offset_start(h as int, off as int),
{
    if off >= 0 {
        let o = off as usize;
        if h > usize::MAX - o {
            usize::MAX
        } else {
            h + o
        }
    } else {
        let o = (0i64 - off as i64) as usize;
        if h >= o {
            h - o
        } else {
            0
        }
    }
}

/// Synonym `s` of `sy` equals `w` with case ignored.
pub open spec fn syn_hit_in(sy: &Syn, w: Seq<u8>, s: int) -> bool {
    0 <= s < sy.words().len() && dict_order(sy.words()[s], w, true) == Ordering::Equal
}

/// The entry that synonym `s` names: none when its trailer is cut short.
pub open spec fn target_seq(sy: &Syn, s: int) -> Seq<usize> {
    if sy.trailer_of(s).len() == 4 {
        seq![be4(sy.trailer_of(s), 0) as usize]
    } else {
        Seq::empty()
    }
}

/// The entries named by the synonyms below position `c`, walking down while
/// they equal `w` with case ignored.
pub open spec fn walk_left(sy: &Syn, w: Seq<u8>, c: int) -> Seq<usize>
    decreases c,
{
    if c <= 0 || !syn_hit_in(sy, w, c - 1) {
        Seq::empty()
    } else {
        target_seq(sy, c - 1) + walk_left(sy, w, c - 1)
    }
}

/// The entries named by the synonyms from position `c` up, walking while
/// they equal `w` with case ignored.
pub open spec fn walk_right(sy: &Syn, w: Seq<u8>, c: int) -> Seq<usize>
    decreases sy.words().len() - c,
{
    if c >= sy.words().len() || !syn_hit_in(sy, w, c) {
        Seq::empty()
    } else {
        target_seq(sy, c) + walk_right(sy, w, c + 1)
    }
}

/// The entries that the synonyms of `sy` give for `w`: the one that
/// `Syn::get` finds, then its neighbors below, then those above.
pub open spec fn syn_candidates(sy: &Syn, w: Seq<u8>) -> Seq<usize> {
    match syn_lookup(sy.words(), w) {
        Ok(i) => target_seq(sy, i as int) + walk_left(sy, w, i as int) + walk_right(sy, w, i + 1),
        Err(_) => Seq::empty(),
    }
}

/// Adds the entry that synonym `s` names, when its trailer is whole.
fn push_target(sy: &Syn, s: usize, possible: &mut Vec<usize>)
    requires
        sy.wf(),
        s < sy.words().len(),
    ensures
        final(possible)@ == old(possible)@ + target_seq(sy, s as int),
{
    match sy.get_offset(s) {
        Ok(t) => possible.push(t),
        Err(_) => {},
    }
    assert(possible@ =~= old(possible)@ + target_seq(sy, s as int));
}

/// Adds the entries that the synonyms equal to `word` with case ignored name:
/// the one that `Syn::get` finds, then the block of such synonyms below it
/// and above it.
fn collect_synonyms(sy: &Syn, word: &[u8], possible: &mut Vec<usize>)
    requires
        sy.wf(),
    ensures
        final(possible)@ == old(possible)@ + syn_candidates(sy, word@),
{
    let ghost start = possible@;
    let n = sy.len();
    let i = match sy.get(word) {
        Ok(i) => i,
        Err(_) => {
            assert(possible@ =~= start + syn_candidates(sy, word@));
            return;
        },
    };
    push_target(sy, i, possible);
    let mut lo: usize = i;
    let mut stop = false;
    while lo > 0 && !stop
        invariant
            sy.wf(),
            n == sy.words().len(),
            lo <= i < n,
            start + target_seq(sy, i as int) + walk_left(sy, word@, i as int) == possible@ + walk_left(sy, word@, lo as int),
            stop ==> lo > 0 && !syn_hit_in(sy, word@, lo - 1),
        decreases lo + (if stop { 0int } else { 1int }),
    {
        let w = match sy.get_word(lo - 1) {
            Ok(w) => w,
            Err(_) => Vec::new(),
        };
        proof {
            lemma_order_flip(word@, w@, true);
        }
        if matches!(Idx::dict_cmp(word, w.as_slice(), true), Ordering::Equal) {
            let ghost before = possible@;
            push_target(sy, lo - 1, possible);
            assert(before + walk_left(sy, word@, lo as int) =~= possible@ + walk_left(sy, word@, lo - 1));
            lo = lo - 1;
        } else {
            stop = true;
        }
    }
    assert(possible@ + walk_left(sy, word@, lo as int) =~= possible@);
    let mut hi: usize = i + 1;
    let mut stop2 = false;
    while hi < n && !stop2
        invariant
            sy.wf(),
            n == sy.words().len(),
            i < hi <= n,
            start + syn_candidates(sy, word@) == possible@ + walk_right(sy, word@, hi as int),
            stop2 ==> hi < n && !syn_hit_in(sy, word@, hi as int),
        decreases n - hi + (if stop2 { 0int } else { 1int }),
    {
        let w = match sy.get_word(hi) {
            Ok(w) => w,
            Err(_) => Vec::new(),
        };
        proof {
            lemma_order_flip(word@, w@, true);
        }
        if matches!(Idx::dict_cmp(word, w.as_slice(), true), Ordering::Equal) {
            let ghost before = possible@;
            push_target(sy, hi, possible);
            assert(before + walk_right(sy, word@, hi as int) =~= possible@ + walk_right(sy, word@, hi + 1));
            hi = hi + 1;
        } else {
            stop2 = true;
        }
    }
    assert(possible@ + walk_right(sy, word@, hi as int) =~= possible@);
}

/// A successful lookup: the dictionary, the word found and its entry.
pub struct LookupResult<'a> {
    pub dictionary: &'a Ifo,
    pub word: Vec<u8>,
    pub result: Vec<u8>,
}

/// A dictionary: metadata, index, optional synonym index and payload.
pub struct Dictionary {
    pub ifo: Ifo,
    pub idx: Idx,
    pub syn: Option<Syn>,
    pub dict: Dict,
}

impl Dictionary {
    pub open spec fn wf(&self) -> bool {
        &&& self.idx.wf()
        &&& (self.syn matches Some(s) ==> s.wf())
    }

    /// The trailer of entry `i` is whole and its window lies in the payload.
    pub open spec fn entry_ok(&self, i: int) -> bool {
        &&& 0 <= i < self.idx.words().len()
        &&& self.idx.trailer_of(i).len() == self.idx.trailer()
        &&& trailer_offset(self.idx.trailer_of(i)) + trailer_length(self.idx.trailer_of(i))
            <= self.dict.content().len()
    }

    /// The payload of entry `i`.
    pub open spec fn payload(&self, i: int) -> Seq<u8> {
        let tr = self.idx.trailer_of(i);
        self.dict.content().subrange(trailer_offset(tr), trailer_offset(tr) + trailer_length(tr))
    }

    /// The entries that a lookup of `w` reads, in order: the one that
    /// `Idx::get` finds, then those that the synonyms give.
    pub open spec fn candidates(&self, w: Seq<u8>) -> Seq<usize> {
        (match idx_lookup(self.idx.words(), w) {
            Ok(i) => seq![i],
            Err(_) => Seq::empty(),
        }) + match self.syn {
            Some(sy) => syn_candidates(&sy, w),
            None => Seq::empty(),
        }
    }

    /// A lookup of `w` succeeds: some entry answers and all of them can be read.
    pub open spec fn succeeds(&self, w: Seq<u8>) -> bool {
        &&& self.candidates(w).len() > 0
        &&& forall|m: int| 0 <= m < self.candidates(w).len() ==> self.entry_ok(#[trigger] self.candidates(w)[m] as int)
    }

    /// `e` is the error of reading entry `i`: `NotFound(i)` past the end of
    /// the index, otherwise `Io`.
    pub open spec fn entry_error(&self, i: int, e: DictError) -> bool {
        if i >= self.idx.words().len() {
            e matches DictError::NotFound(k) && k == i
        } else {
            e is Io
        }
    }

    /// Binds the files of one dictionary: the `.ifo` text, stored at
    /// `dict_path`, the `.idx`, `.dict` and, if there is one, `.syn` contents.
    /// Fails where the `.ifo` fails, with `My` where `idxoffsetbits` is not 32
    /// or 64 or the `.idx` word count disagrees. A `.syn` whose count
    /// disagrees is left out.
    pub fn new(
        ifo_content: &[u8],
        dict_path: String,
        idx_content: Vec<u8>,
        dict_content: Vec<u8>,
        syn_content: Option<Vec<u8>>,
    ) -> (r: Result<Dictionary, DictError>)
        ensures
            r is Ok <==> {
                let lines = text_lines_from(ifo_content@, 0, 0);
                let bits = number_field(lines, Field::IdxOffsetBits, 32);
                &&& forall|j: int| 0 <= j < lines.len() ==> line_ok(#[trigger] lines[j])
                &&& (bits == 32 || bits == 64)
                &&& holds_records(idx_content@, bits / 8 + 4, number_field(lines, Field::WordCount, 0))
            },
            r matches Ok(d) ==> {
                &&& d.wf()
                &&& d.ifo.read_from(text_lines_from(ifo_content@, 0, 0))
                &&& d.ifo.dict_path == dict_path
                &&& d.idx.content() == idx_content@
                &&& d.idx.trailer() == d.ifo.idxoffsetbits / 8 + 4
                &&& d.idx.words().len() == d.ifo.word_count
                &&& d.dict.content() == dict_content@
                &&& (d.syn is Some <==> (syn_content matches Some(c) && holds_records(c@, 4, d.ifo.syn_word_count as int)))
                &&& (d.syn matches Some(s) ==> syn_content matches Some(c) && s.content() == c@)
                &&& is_layout(idx_content@, d.idx.ends(), d.idx.trailer())
                &&& d.idx.words() == words_of(idx_content@, d.idx.ends(), d.idx.trailer())
                &&& forall|k: int| #![trigger d.idx.trailer_of(k)] 0 <= k < d.idx.words().len() ==> d.idx.trailer_of(k) == trailer_at(idx_content@, d.idx.ends(), d.idx.trailer(), k)
                &&& (d.syn matches Some(s) ==> syn_content matches Some(c) && is_layout(c@, s.ends(), 4) && s.words() == words_of(c@, s.ends(), 4) && forall|k: int| #![trigger s.trailer_of(k)] 0 <= k < s.words().len() ==> s.trailer_of(k) == trailer_at(c@, s.ends(), 4, k))
            },
            r matches Err(e) ==> ((e is Parse || e is Utf8) <==> !(forall|j: int| 0 <= j < text_lines_from(ifo_content@, 0, 0).len() ==> line_ok(#[trigger] text_lines_from(ifo_content@, 0, 0)[j]))),
            r matches Err(e) ==> e is Parse || e is Utf8 || e is My,
    {
        let ifo = match Ifo::open(ifo_content, dict_path) {
            Ok(ifo) => ifo,
            Err(e) => {
                return Err(e);
            },
        };
        if ifo.idxoffsetbits != 32 && ifo.idxoffsetbits != 64 {
            return Err(DictError::My(String::from_str("idxoffsetbits is neither 32 nor 64")));
        }
        let idx = match Idx::open(idx_content, ifo.word_count, (ifo.idxoffsetbits / 8 + 4) as u8) {
            Ok(idx) => idx,
            Err(e) => {
                return Err(e);
            },
        };
        let dict = Dict::open(dict_content);
        let syn = match syn_content {
            Some(c) => match Syn::open(c, ifo.syn_word_count) {
                Ok(s) => Some(s),
                Err(_) => None,
            },
            None => None,
        };
        Ok(Dictionary { ifo, idx, syn, dict })
    }

    /// The words of the index from `max(0, h + off)` on, where `h` is what
    /// `Idx::get` gives for `word`.
    pub fn neighbors(&self, word: &[u8], off: i32) -> (r: DictNeighborIter)
        requires
            self.wf(),
        ensures
            r.valid(),
            r.rest() == suffix(self.idx.words(), offset_start(hint_of(idx_lookup(self.idx.words(), word@)), off as int)),
    {
        let h = match self.idx.get(word) {
            Ok(i) => i,
            Err(i) => i,
        };
        let start = offset_position(h, off);
        DictNeighborIter { cur: start, idx: IdxRef::Ref(&self.idx) }
    }

    /// The words of the synonym index from `max(0, h + off)` on, where `h` is
    /// what `Syn::get` gives for `word`; nothing without a synonym index.
    pub fn neighbors_syn(&self, word: &[u8], off: i32) -> (r: DictNeighborIter)
        requires
            self.wf(),
        ensures
            r.valid(),
            self.syn is None ==> r.rest().len() == 0,
            self.syn matches Some(sy) ==> r.rest() == suffix(sy.words(), offset_start(hint_of(syn_lookup(sy.words(), word@)), off as int)),
    {
        let start = match &self.syn {
            Some(s) => {
                let h = match s.get(word) {
                    Ok(i) => i,
                    Err(i) => i,
                };
                offset_position(h, off)
            },
            None => usize::MAX,
        };
        DictNeighborIter { cur: start, idx: IdxRef::SynRef(&self.syn) }
    }

    /// The words of the index that the regular expression `expr` matches.
    /// Fails with `Utf8` when `expr` is not UTF-8, with `My` when it does not
    /// compile.
    pub fn search(&self, expr: &[u8]) -> (r: Result<IdxIter, DictError>)
        requires
            self.wf(),
        ensures
            r is Ok <==> valid_utf8(expr@) && regex_compiles(decode_utf8(expr@)),
            !valid_utf8(expr@) ==> (r matches Err(e) && e is Utf8),
            r matches Ok(it) ==> it.valid() && it.rest() == matching(self.idx.words(), decode_utf8(expr@)),
    {
        let m = match Matcher::compile(expr) {
            Ok(m) => m,
            Err(e) => {
                return Err(e);
            },
        };
        let it = IdxIter { cur: 0, idx: IdxRef::Ref(&self.idx), matcher: MatcherRef::Owned(m) };
        assert(suffix(self.idx.words(), 0) =~= self.idx.words());
        Ok(it)
    }

    /// The words of the synonym index that `reg` matches.
    pub fn search_syn<'a>(&'a self, reg: &'a Matcher) -> (r: IdxIter<'a>)
        requires
            self.wf(),
        ensures
            r.valid(),
            self.syn is None ==> r.rest().len() == 0,
            self.syn matches Some(sy) ==> r.rest() == matching(sy.words(), reg.source()),
    {
        let it = IdxIter { cur: 0, idx: IdxRef::SynRef(&self.syn), matcher: MatcherRef::Borrowed(reg) };
        proof {
            if self.syn is Some {
                assert(suffix(self.syn->0.words(), 0) =~= self.syn->0.words());
            }
        }
        it
    }

    /// The words of the index that `reg` matches.
    pub fn search_regex<'a>(&'a self, reg: &'a Matcher) -> (r: IdxIter<'a>)
        requires
            self.wf(),
        ensures
            r.valid(),
            r.rest() == matching(self.idx.words(), reg.source()),
    {
        let it = IdxIter { cur: 0, idx: IdxRef::Ref(&self.idx), matcher: MatcherRef::Borrowed(reg) };
        assert(suffix(self.idx.words(), 0) =~= self.idx.words());
        it
    }

    /// The results of entries `possible`, or the error of the first that
    /// cannot be read.
    fn read_entries(&self, possible: &Vec<usize>) -> (r: Result<Vec<LookupResult>, DictError>)
        requires
            self.wf(),
        ensures
            r matches Ok(v) ==> v@.len() == possible@.len() && forall|m: int| 0 <= m < v@.len() ==> self.is_result(#[trigger] v@[m], possible@[m] as int),
            r is Ok <==> forall|m: int| 0 <= m < possible@.len() ==> self.entry_ok(#[trigger] possible@[m] as int),
            r matches Err(e) ==> exists|m: int| 0 <= m < possible@.len() && !self.entry_ok(#[trigger] possible@[m] as int) && (forall|q: int| 0 <= q < m ==> self.entry_ok(#[trigger] possible@[q] as int)) && self.entry_error(possible@[m] as int, e),
    {
        let mut ret: Vec<LookupResult> = Vec::new();
        let mut k: usize = 0;
        while k < possible.len()
            invariant
                self.wf(),
                0 <= k <= possible@.len(),
                ret@.len() == k,
                forall|m: int| 0 <= m < k ==> self.is_result(#[trigger] ret@[m], possible@[m] as int),
                forall|m: int| 0 <= m < k ==> self.entry_ok(#[trigger] possible@[m] as int),
            decreases possible@.len() - k,
        {
            let i = possible[k];
            let (off, len) = match self.idx.get_offset_length(i) {
                Ok(x) => x,
                Err(e) => {
                    assert(!self.entry_ok(possible@[k as int] as int));
                    return Err(e);
                },
            };
            let w = match self.idx.get_word(i) {
                Ok(w) => w,
                Err(e) => {
                    return Err(e);
                },
            };
            let res = match self.dict.read(off, len as usize) {
                Ok(x) => x,
                Err(e) => {
                    assert(!self.entry_ok(possible@[k as int] as int));
                    return Err(e);
                },
            };
            let lr = LookupResult { dictionary: &self.ifo, word: w, result: res };
            proof {
                let tr = self.idx.trailer_of(i as int);
                assert(i < self.idx.words().len());
                assert(tr.len() == self.idx.trailer());
                assert(off == trailer_offset(tr) && len == trailer_length(tr));
                assert(off + len <= self.dict.content().len());
                assert(self.entry_ok(i as int));
                assert(lr.result@ == self.payload(i as int));
            }
            ret.push(lr);
            k = k + 1;
        }
        Ok(ret)
    }

    /// Entry `i` as a lookup result of this dictionary.
    pub open spec fn is_result(&self, r: LookupResult, i: int) -> bool {
        &&& self.entry_ok(i)
        &&& r.word@ == self.idx.words()[i]
        &&& r.result@ == self.payload(i)
        &&& *r.dictionary == self.ifo
    }

    /// Looks `word` up: one result for each entry of `candidates`, in that
    /// order. Fails with `NotFound(0)` when there is none, and with the error
    /// of the first entry that cannot be read.
    pub fn lookup(&self, word: &[u8]) -> (r: Result<Vec<LookupResult>, DictError>)
        requires
            self.wf(),
        ensures
            self.candidates(word@).len() == 0 ==> (r matches Err(DictError::NotFound(k)) && k == 0),
            self.candidates(word@).len() > 0 ==> (r is Ok <==> forall|m: int| 0 <= m < self.candidates(word@).len() ==> self.entry_ok(#[trigger] self.candidates(word@)[m] as int)),
            r matches Ok(v) ==> v@.len() == self.candidates(word@).len() && forall|m: int| 0 <= m < v@.len() ==> self.is_result(#[trigger] v@[m], self.candidates(word@)[m] as int),
            self.candidates(word@).len() > 0 ==> (r matches Err(e) ==> exists|m: int| 0 <= m < self.candidates(word@).len() && !self.entry_ok(#[trigger] self.candidates(word@)[m] as int) && (forall|q: int| 0 <= q < m ==> self.entry_ok(#[trigger] self.candidates(word@)[q] as int)) && self.entry_error(self.candidates(word@)[m] as int, e)),
    {
        let mut possible: Vec<usize> = Vec::new();
        match self.idx.get(word) {
            Ok(i) => possible.push(i),
            Err(_) => {},
        }
        match &self.syn {
            Some(sy) => collect_synonyms(sy, word, &mut possible),
            None => {},
        }
        assert(possible@ =~= self.candidates(word@));
        if possible.len() == 0 {
            return Err(DictError::NotFound(0));
        }
        self.read_entries(&possible)
    }

}

} // verus!
