//! The record table shared by `.idx` and `.syn` files: each record is a word,
//! a NUL byte, and a trailer of fixed width.
use std::cmp::Ordering;
use vstd::prelude::*;
use vstd::slice::slice_to_vec;

use crate::collation::{dict_order, lemma_order_flip, lemma_order_refines, lemma_order_trans};
use crate::idx::Idx;
use crate::result::DictError;

verus! {

/// No NUL byte in `c[lo..hi]`.
pub open spec fn no_nul(c: Seq<u8>, lo: int, hi: int) -> bool {
    forall|j: int| lo <= j < hi ==> c[j] != 0
}

/// Where the word of record `k` begins: at 0, or just after the trailer of
/// record `k - 1`.
pub open spec fn word_start(ends: Seq<usize>, t: int, k: int) -> int {
    if k == 0 {
        0
    } else {
        ends[k - 1] + t + 1
    }
}

/// `ends` holds, in order, the position of the NUL that ends each record's word,
/// when `c` is read as records of a word up to its NUL and `t` trailer bytes.
/// Bytes after the last complete word hold no NUL.
#[verifier::opaque]
pub open spec fn is_layout(c: Seq<u8>, ends: Seq<usize>, t: int) -> bool {
    &&& forall|k: int|
        0 <= k < ends.len() ==> {
            &&& word_start(ends, t, k) <= ends[k] < c.len()
            &&& c[ends[k] as int] == 0
            &&& no_nul(c, word_start(ends, t, k), ends[k] as int)
        }
    &&& no_nul(c, word_start(ends, t, ends.len() as int), c.len() as int)
}

/// The word of record `k`.
pub open spec fn word_of(c: Seq<u8>, ends: Seq<usize>, t: int, k: int) -> Seq<u8> {
    c.subrange(word_start(ends, t, k), ends[k] as int)
}

/// The words of all records.
pub open spec fn words_of(c: Seq<u8>, ends: Seq<usize>, t: int) -> Seq<Seq<u8>> {
    Seq::new(ends.len(), |k: int| word_of(c, ends, t, k))
}

/// The `t` bytes after the NUL of record `k`, as far as `c` holds them.
pub open spec fn trailer_at(c: Seq<u8>, ends: Seq<usize>, t: int, k: int) -> Seq<u8> {
    let s = ends[k] + 1;
    c.subrange(s, if s + t <= c.len() { s + t } else { c.len() as int })
}

/// Where the binary search over `ws` for `w` settles, from the window of
/// `size` positions at `base`: a window of one is its answer; otherwise the
/// window keeps its upper half, from the middle, unless the middle word is
/// above `w`.
pub open spec fn search_from(ws: Seq<Seq<u8>>, w: Seq<u8>, ignore_case: bool, base: int, size: int) -> int
    decreases size,
{
    if size <= 1 {
        base
    } else {
        let half = size / 2;
        let mid = base + half;
        search_from(
            ws,
            w,
            ignore_case,
            if dict_order(ws[mid], w, ignore_case) == Ordering::Greater { base } else { mid },
            size - half,
        )
    }
}

/// The result of the binary search over non-empty `ws` for `w`: `Ok` where
/// it settles on an equal word, otherwise `Err` of the place just after a
/// smaller word or at a greater one.
pub open spec fn binary_search(ws: Seq<Seq<u8>>, w: Seq<u8>, ignore_case: bool) -> Result<usize, usize> {
    let b = search_from(ws, w, ignore_case, 0, ws.len() as int);
    match dict_order(ws[b], w, ignore_case) {
        Ordering::Equal => Ok(b as usize),
        Ordering::Less => Err((b + 1) as usize),
        Ordering::Greater => Err(b as usize),
    }
}

/// No word is above a later one in the collation with the given case mode.
pub open spec fn sorted_by(ws: Seq<Seq<u8>>, ignore_case: bool) -> bool {
    forall|i: int, j: int|
        0 <= i < j < ws.len() ==> dict_order(ws[i], ws[j], ignore_case) != Ordering::Greater
}

/// Each word is strictly below the next ones with case kept.
pub open spec fn ascending(ws: Seq<Seq<u8>>) -> bool {
    forall|i: int, j: int|
        0 <= i < j < ws.len() ==> dict_order(ws[i], ws[j], false) == Ordering::Less
}

proof fn lemma_layout_at(c: Seq<u8>, e: Seq<usize>, t: int, k: int)
    requires
        is_layout(c, e, t),
        0 <= k < e.len(),
    ensures
        word_start(e, t, k) <= e[k] < c.len(),
        c[e[k] as int] == 0,
        no_nul(c, word_start(e, t, k), e[k] as int),
{
    reveal(is_layout);
}

proof fn lemma_layout_tail(c: Seq<u8>, e: Seq<usize>, t: int)
    requires
        is_layout(c, e, t),
    ensures
        no_nul(c, word_start(e, t, e.len() as int), c.len() as int),
{
    reveal(is_layout);
}

proof fn lemma_layout_prefix(c: Seq<u8>, e1: Seq<usize>, e2: Seq<usize>, t: int, k: int)
    requires
        is_layout(c, e1, t),
        is_layout(c, e2, t),
        0 <= k <= e1.len(),
        k <= e2.len(),
    ensures
        forall|j: int| 0 <= j < k ==> e1[j] == e2[j],
    decreases k,
{
    if k > 0 {
        lemma_layout_prefix(c, e1, e2, t, k - 1);
        let j = k - 1;
        lemma_layout_at(c, e1, t, j);
        lemma_layout_at(c, e2, t, j);
        assert(word_start(e1, t, j) == word_start(e2, t, j));
        if e1[j] < e2[j] {
            assert(c[e1[j] as int] == 0);
        } else if e2[j] < e1[j] {
            assert(c[e2[j] as int] == 0);
        }
    }
}

/// A content has one layout: the records of a file are determined by its bytes.
pub proof fn lemma_layout_unique(c: Seq<u8>, e1: Seq<usize>, e2: Seq<usize>, t: int)
    requires
        is_layout(c, e1, t),
        is_layout(c, e2, t),
    ensures
        e1 == e2,
{
    let m = if e1.len() <= e2.len() {
        e1.len() as int
    } else {
        e2.len() as int
    };
    lemma_layout_prefix(c, e1, e2, t, m);
    lemma_layout_tail(c, e1, t);
    lemma_layout_tail(c, e2, t);
    if e1.len() < e2.len() {
        lemma_layout_at(c, e2, t, m);
        assert(word_start(e1, t, m) == word_start(e2, t, m));
        assert(c[e2[m] as int] == 0);
    } else if e2.len() < e1.len() {
        lemma_layout_at(c, e1, t, m);
        assert(word_start(e1, t, m) == word_start(e2, t, m));
        assert(c[e1[m] as int] == 0);
    }
    assert(e1 =~= e2);
}

/// `c`, read as records with `t` trailer bytes, holds `n` of them.
pub open spec fn holds_records(c: Seq<u8>, t: int, n: int) -> bool {
    exists|ends: Seq<usize>| is_layout(c, ends, t) && ends.len() == n
}

/// Strictly ascending words are sorted in both case modes.
pub proof fn lemma_ascending_sorted(ws: Seq<Seq<u8>>)
    requires
        ascending(ws),
    ensures
        sorted_by(ws, false),
        sorted_by(ws, true),
{
    assert forall|i: int, j: int| 0 <= i < j < ws.len() implies dict_order(ws[i], ws[j], true)
        != Ordering::Greater by {
        lemma_order_refines(ws[i], ws[j]);
    }
}

enum ParseState {
    Word,
    Trailer(u8),
}

/// The two-state reader of a record file, fed one byte at a time.
struct Parser {
    trailer_m1: u8,
    state: ParseState,
    off_word: usize,
    result: Vec<usize>,
}

impl Parser {
    /// The parser has read `c` and found the records `result`.
    spec fn read(&self, c: Seq<u8>) -> bool {
        let t = self.trailer_m1 + 1;
        let n = self.result@.len();
        &&& self.off_word == c.len()
        &&& forall|k: int|
            0 <= k < n ==> {
                &&& word_start(self.result@, t, k) <= self.result@[k] < c.len()
                &&& c[self.result@[k] as int] == 0
                &&& no_nul(c, word_start(self.result@, t, k), self.result@[k] as int)
            }
        &&& match self.state {
            ParseState::Word => word_start(self.result@, t, n as int) <= c.len() && no_nul(
                c,
                word_start(self.result@, t, n as int),
                c.len() as int,
            ),
            ParseState::Trailer(m) => n > 0 && m <= self.trailer_m1 && c.len() == self.result@[n
                - 1] + 1 + m,
        }
    }

    #[verifier::rlimit(40)]
    fn parse(&mut self, x: u8, Ghost(c): Ghost<Seq<u8>>)
        requires
            old(self).read(c),
            c.len() < usize::MAX,
        ensures
            final(self).read(c.push(x)),
            final(self).trailer_m1 == old(self).trailer_m1,
    {
        let ghost t = self.trailer_m1 + 1;
        let ghost c2 = c.push(x);
        match self.state {
            ParseState::Word => {
                if x == 0 {
                    self.result.push(self.off_word);
                    self.state = ParseState::Trailer(0);
                }
            },
            ParseState::Trailer(n) => {
                self.state = if n < self.trailer_m1 {
                    ParseState::Trailer(n + 1)
                } else {
                    ParseState::Word
                };
            },
        }
        self.off_word = self.off_word + 1;
        assert forall|k: int| 0 <= k < self.result@.len() implies {
            &&& word_start(self.result@, t, k) <= self.result@[k] < c2.len()
            &&& c2[self.result@[k] as int] == 0
            &&& no_nul(c2, word_start(self.result@, t, k), self.result@[k] as int)
        } by {
            if k < old(self).result@.len() {
                assert(self.result@[k] == old(self).result@[k]);
                if k > 0 {
                    assert(self.result@[k - 1] == old(self).result@[k - 1]);
                }
            }
        }
    }
}

/// The records of one `.idx` or `.syn` file.
pub struct WordTable {
    content: Vec<u8>,
    index: Vec<usize>,
    trailer: usize,
}

impl WordTable {
    pub closed spec fn wf(&self) -> bool {
        &&& 1 <= self.trailer <= 255
        &&& is_layout(self.content@, self.index@, self.trailer as int)
    }

    proof fn lemma_record(&self, k: int)
        requires
            self.wf(),
            0 <= k < self.index@.len(),
        ensures
            word_start(self.index@, self.trailer as int, k) <= self.index@[k] < self.content@.len(),
            self.content@[self.index@[k] as int] == 0,
            no_nul(self.content@, word_start(self.index@, self.trailer as int, k), self.index@[k] as int),
    {
        reveal(is_layout);
    }

    /// The table's records are the layout of its content.
    pub proof fn lemma_layout(&self)
        requires
            self.wf(),
        ensures
            is_layout(self.content(), self.ends(), self.trailer()),
            self.words().len() == self.ends().len(),
    {
    }

    /// A word holds no NUL byte.
    pub proof fn lemma_word_no_nul(&self, k: int)
        requires
            self.wf(),
            0 <= k < self.words().len(),
        ensures
            forall|j: int| 0 <= j < self.words()[k].len() ==> self.words()[k][j] != 0,
    {
        self.lemma_record(k);
        let w = self.words()[k];
        assert forall|j: int| 0 <= j < w.len() implies w[j] != 0 by {
            assert(w[j] == self.content@[word_start(self.index@, self.trailer as int, k) + j]);
        }
    }

    /// The raw bytes of the file.
    pub closed spec fn content(&self) -> Seq<u8> {
        self.content@
    }

    /// The positions of the NULs that end the words.
    pub closed spec fn ends(&self) -> Seq<usize> {
        self.index@
    }

    /// The width of each record's trailer.
    pub closed spec fn trailer(&self) -> int {
        self.trailer as int
    }

    /// The words, in file order.
    pub open spec fn words(&self) -> Seq<Seq<u8>> {
        words_of(self.content(), self.ends(), self.trailer())
    }

    /// The trailer bytes of record `k`, as far as the file holds them.
    pub open spec fn trailer_of(&self, k: int) -> Seq<u8> {
        trailer_at(self.content(), self.ends(), self.trailer(), k)
    }

    /// Reads `content` as records with `trailer` bytes after each word's NUL.
    pub fn parse(content: Vec<u8>, trailer: u8) -> (r: WordTable)
        requires
            1 <= trailer,
        ensures
            r.wf(),
            r.content() == content@,
            r.trailer() == trailer as int,
    {
        let mut con = Parser {
            trailer_m1: trailer - 1,
            state: ParseState::Word,
            off_word: 0,
            result: Vec::new(),
        };
        let len = content.len();
        let mut i: usize = 0;
        assert(content@.subrange(0, 0) =~= Seq::<u8>::empty());
        while i < len
            invariant
                len == content@.len(),
                0 <= i <= len,
                con.trailer_m1 == trailer - 1,
                con.read(content@.subrange(0, i as int)),
            decreases len - i,
        {
            let x = content[i];
            con.parse(x, Ghost(content@.subrange(0, i as int)));
            assert(content@.subrange(0, i as int).push(x) =~= content@.subrange(0, i + 1));
            i = i + 1;
        }
        assert(content@.subrange(0, len as int) =~= content@);
        proof {
            reveal(is_layout);
        }
        WordTable { content, index: con.result, trailer: trailer as usize }
    }

    /// The number of records.
    pub fn len(&self) -> (r: usize)
        ensures
            r == self.words().len(),
    {
        self.index.len()
    }

    /// The word of record `i`, or `NotFound(i)` past the end.
    pub fn get_word(&self, i: usize) -> (r: Result<Vec<u8>, DictError>)
        requires
            self.wf(),
        ensures
            i < self.words().len() ==> (r matches Ok(w) && w@ == self.words()[i as int]),
            i >= self.words().len() ==> (r matches Err(DictError::NotFound(k)) && k == i),
    {
        if i >= self.index.len() {
            return Err(DictError::NotFound(i));
        }
        proof {
            self.lemma_record(i as int);
            if i > 0 {
                self.lemma_record(i - 1);
            }
        }
        let start = if i == 0 {
            0
        } else {
            self.index[i - 1] + self.trailer + 1
        };
        let end = self.index[i];
        Ok(slice_to_vec(&self.content.as_slice()[start..end]))
    }

    /// The trailer of record `i`, when the file holds all of it.
    pub fn get_trailer(&self, i: usize) -> (r: Option<&[u8]>)
        requires
            self.wf(),
            i < self.words().len(),
        ensures
            r matches Some(t) ==> t@ == self.trailer_of(i as int) && t@.len() == self.trailer(),
            r is None <==> self.trailer_of(i as int).len() < self.trailer(),
    {
        let clen = self.content.len();
        proof {
            self.lemma_record(i as int);
        }
        let start = self.index[i] + 1;
        if self.trailer <= self.content.len() - start {
            Some(&self.content.as_slice()[start..start + self.trailer])
        } else {
            None
        }
    }

    /// Binary search for `word` under the collation with the given case mode.
    /// `Ok(i)` holds a record equal to `word`; `Err(k)` is where `word` would
    /// stand.
    pub fn search(&self, word: &[u8], ignore_case: bool) -> (r: Result<usize, usize>)
        requires
            self.wf(),
            self.words().len() > 0,
        ensures
            r matches Ok(i) ==> i < self.words().len() && dict_order(
                self.words()[i as int],
                word@,
                ignore_case,
            ) == Ordering::Equal,
            r matches Err(k) ==> k <= self.words().len() && (k == 0 || dict_order(
                self.words()[k - 1],
                word@,
                ignore_case,
            ) == Ordering::Less),
            sorted_by(self.words(), ignore_case) ==> (r matches Err(k) ==> (k == self.words().len()
                || dict_order(self.words()[k as int], word@, ignore_case) == Ordering::Greater)),
            sorted_by(self.words(), ignore_case) ==> (r is Err ==> forall|j: int|
                0 <= j < self.words().len() ==> dict_order(self.words()[j], word@, ignore_case)
                    != Ordering::Equal),
            r == binary_search(self.words(), word@, ignore_case),
    {
        let ghost ws = self.words();
        let n = self.index.len();
        let mut size = n;
        let mut base: usize = 0;
        while size > 1
            invariant
                ws == self.words(),
                self.wf(),
                n == ws.len(),
                size >= 1,
                base + size <= n,
                search_from(ws, word@, ignore_case, base as int, size as int) == search_from(ws, word@, ignore_case, 0, n as int),
                base == 0 || dict_order(ws[base as int], word@, ignore_case) != Ordering::Greater,
                sorted_by(ws, ignore_case) ==> forall|j: int|
                    base + size <= j < n ==> dict_order(ws[j], word@, ignore_case)
                        == Ordering::Greater,
            decreases size,
        {
            let half = size / 2;
            let mid = base + half;
            let w = self.get_word(mid);
            let cmp = match w {
                Ok(w) => Idx::dict_cmp(w.as_slice(), word, ignore_case),
                Err(_) => Ordering::Greater,
            };
            proof {
                if sorted_by(ws, ignore_case) && cmp == Ordering::Greater {
                    assert forall|j: int| base + size - half <= j < n implies dict_order(
                        ws[j],
                        word@,
                        ignore_case,
                    ) == Ordering::Greater by {
                        if j > mid {
                            lemma_order_flip(ws[mid as int], word@, ignore_case);
                            lemma_order_trans(word@, ws[mid as int], ws[j], ignore_case);
                            lemma_order_flip(ws[j], word@, ignore_case);
                        }
                    }
                }
            }
            base = match cmp {
                Ordering::Greater => base,
                _ => mid,
            };
            size = size - half;
        }
        let w = self.get_word(base);
        let cmp = match w {
            Ok(w) => Idx::dict_cmp(w.as_slice(), word, ignore_case),
            Err(_) => Ordering::Greater,
        };
        proof {
            if sorted_by(ws, ignore_case) && cmp != Ordering::Equal {
                assert forall|j: int| 0 <= j < n implies dict_order(ws[j], word@, ignore_case)
                    != Ordering::Equal by {
                    if j < base {
                        lemma_order_trans(ws[j], ws[base as int], word@, ignore_case);
                    } else if j == base {
                    } else if cmp == Ordering::Greater {
                        lemma_order_flip(ws[base as int], word@, ignore_case);
                        lemma_order_trans(word@, ws[base as int], ws[j], ignore_case);
                        lemma_order_flip(ws[j], word@, ignore_case);
                    }
                }
            }
        }
        match cmp {
            Ordering::Equal => Ok(base),
            Ordering::Less => Err(base + 1),
            Ordering::Greater => Err(base),
        }
    }
}

} // verus!
