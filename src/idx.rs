//! The primary word index (`.idx`).
use std::cmp::Ordering;
use vstd::prelude::*;

use crate::collation::{
    dict_order, fold, fold_all, lemma_order_equal, lemma_order_flip, lemma_order_refines,
    lemma_order_trans, lex_at, rank,
};
use crate::result::DictError;
use crate::table::{binary_search, trailer_at, words_of, holds_records, lemma_layout_unique, ascending, is_layout, lemma_ascending_sorted, WordTable};

verus! {

/// ASCII lower-casing of one byte.
pub fn to_lower(b: u8) -> (r: u8)
    ensures
        r == fold(b),
{
    if b >= 65 && b <= 90 {
        b + 32
    } else {
        b
    }
}

/// The ordering of the sign of `x`.
fn i32_to_order(x: i32) -> (r: Ordering)
    ensures
        r == (if x > 0 {
            Ordering::Greater
        } else if x < 0 {
            Ordering::Less
        } else {
            Ordering::Equal
        }),
{
    if x > 0 {
        Ordering::Greater
    } else if x < 0 {
        Ordering::Less
    } else {
        Ordering::Equal
    }
}

/// The big-endian value of the four bytes of `s` from `i`.
pub open spec fn be4(s: Seq<u8>, i: int) -> int {
    s[i] * 16777216 + s[i + 1] * 65536 + s[i + 2] * 256 + s[i + 3]
}

/// Reads a big-endian 32-bit number from four bytes.
pub fn read_be32(b: &[u8]) -> (r: u32)
    requires
        b@.len() == 4,
    ensures
        r == be4(b@, 0),
{
    (b[0] as u32) * 16777216 + (b[1] as u32) * 65536 + (b[2] as u32) * 256 + (b[3] as u32)
}

/// The payload offset that an `.idx` trailer `tr` of width 8 or 12 holds:
/// 4 or 8 big-endian bytes.
pub open spec fn trailer_offset(tr: Seq<u8>) -> int {
    if tr.len() == 8 {
        be4(tr, 0)
    } else {
        be4(tr, 0) * 4294967296 + be4(tr, 4)
    }
}

/// The payload length that an `.idx` trailer holds: its last four bytes.
pub open spec fn trailer_length(tr: Seq<u8>) -> int {
    be4(tr, tr.len() - 4)
}

/// What `Idx::get` gives for `w` over the words `ws`: `Err(0)` when the
/// first word is above `w` and `Err(len)` when the last is below it, both with
/// case ignored; otherwise the search with case kept if it finds an equal
/// word, else the search with case ignored.
pub open spec fn idx_lookup(ws: Seq<Seq<u8>>, w: Seq<u8>) -> Result<usize, usize> {
    if ws.len() == 0 {
        Err(0)
    } else if dict_order(ws[0], w, true) == Ordering::Greater {
        Err(0)
    } else if dict_order(ws.last(), w, true) == Ordering::Less {
        Err(ws.len() as usize)
    } else {
        match binary_search(ws, w, false) {
            Ok(i) => Ok(i),
            Err(_) => binary_search(ws, w, true),
        }
    }
}

/// The position a lookup result names: the found word or the insertion point.
pub open spec fn hint_of(r: Result<usize, usize>) -> int {
    match r {
        Ok(i) => i as int,
        Err(i) => i as int,
    }
}

/// The primary word index of a dictionary: words in collation order, each
/// with the offset and length of its entry in the `.dict` payload.
pub struct Idx {
    table: WordTable,
}

impl Idx {
    pub closed spec fn wf(&self) -> bool {
        &&& self.table.wf()
        &&& (self.table.trailer() == 8 || self.table.trailer() == 12)
    }

    /// The words, in file order.
    pub closed spec fn words(&self) -> Seq<Seq<u8>> {
        self.table.words()
    }

    /// The raw bytes of the `.idx` file.
    pub closed spec fn content(&self) -> Seq<u8> {
        self.table.content()
    }

    /// The positions of the NULs that end the words.
    pub closed spec fn ends(&self) -> Seq<usize> {
        self.table.ends()
    }

    /// The width of each record's trailer: 8 or 12.
    pub closed spec fn trailer(&self) -> int {
        self.table.trailer()
    }

    /// The trailer bytes of record `k`, as far as the file holds them.
    pub closed spec fn trailer_of(&self, k: int) -> Seq<u8> {
        self.table.trailer_of(k)
    }

    /// Reads the `.idx` file `content`, whose records carry `off_len_bytes`
    /// trailer bytes (a 4- or 8-byte offset and a 4-byte length), and checks
    /// that it holds `count` words.
    pub fn open(content: Vec<u8>, count: usize, off_len_bytes: u8) -> (r: Result<Idx, DictError>)
        requires
            off_len_bytes == 8 || off_len_bytes == 12,
        ensures
            r matches Ok(idx) ==> {
                &&& idx.wf()
                &&& idx.content() == content@
                &&& idx.trailer() == off_len_bytes
                &&& is_layout(content@, idx.ends(), off_len_bytes as int)
                &&& idx.words() == words_of(content@, idx.ends(), off_len_bytes as int)
                &&& forall|k: int| #![trigger idx.trailer_of(k)] 0 <= k < count ==> idx.trailer_of(k) == trailer_at(content@, idx.ends(), off_len_bytes as int, k)
                &&& idx.words().len() == count
            },
            r is Ok <==> holds_records(content@, off_len_bytes as int, count as int),
            r matches Err(e) ==> e is My,
    {
        let table = WordTable::parse(content, off_len_bytes);
        proof {
            table.lemma_layout();
        }
        if table.len() != count {
            proof {
                if holds_records(content@, table.trailer(), count as int) {
                    let ends = choose|ends: Seq<usize>| is_layout(content@, ends, table.trailer()) && ends.len() == count;
                    lemma_layout_unique(content@, ends, table.ends(), table.trailer());
                }
            }
            return Err(DictError::My(String::from_str("word count disagrees with the .ifo file")));
        }
        Ok(Idx { table })
    }

    /// The number of words.
    pub fn len(&self) -> (r: usize)
        ensures
            r == self.words().len(),
    {
        self.table.len()
    }

    /// The word at position `i`, or `NotFound(i)` past the end. A word holds
    /// no NUL byte.
    pub fn get_word(&self, i: usize) -> (r: Result<Vec<u8>, DictError>)
        requires
            self.wf(),
        ensures
            i < self.words().len() ==> (r matches Ok(w) && w@ == self.words()[i as int]),
            i >= self.words().len() ==> (r matches Err(DictError::NotFound(k)) && k == i),
            r matches Ok(w) ==> forall|j: int| 0 <= j < w@.len() ==> w@[j] != 0,
    {
        proof {
            if i < self.words().len() {
                self.table.lemma_word_no_nul(i as int);
            }
        }
        self.table.get_word(i)
    }

    /// The offset and length of entry `i` in the `.dict` payload; `NotFound(i)`
    /// past the end, `Io` where the file ends inside the entry's trailer.
    pub fn get_offset_length(&self, i: usize) -> (r: Result<(u64, u32), DictError>)
        requires
            self.wf(),
        ensures
            i >= self.words().len() ==> (r matches Err(DictError::NotFound(k)) && k == i),
            i < self.words().len() && self.trailer_of(i as int).len() < self.trailer() ==> (r matches Err(DictError::Io(_))),
            r is Ok ==> i < self.words().len() && self.trailer_of(i as int).len() == self.trailer(),
            i < self.words().len() && r is Err ==> (r matches Err(DictError::Io(_))),
            i < self.words().len() && self.trailer_of(i as int).len() == self.trailer() ==> (r matches Ok((o, l)) && o == trailer_offset(self.trailer_of(i as int)) && l == trailer_length(self.trailer_of(i as int))),
    {
        if i >= self.table.len() {
            return Err(DictError::NotFound(i));
        }
        match self.table.get_trailer(i) {
            None => Err(DictError::Io(String::from_str("the .idx file ends inside an entry"))),
            Some(tr) => {
                if tr.len() == 8 {
                    let offset = read_be32(&tr[0..4]);
                    let length = read_be32(&tr[4..8]);
                    Ok((offset as u64, length))
                } else {
                    let hi = read_be32(&tr[0..4]);
                    let lo = read_be32(&tr[4..8]);
                    let length = read_be32(&tr[8..12]);
                    Ok(((hi as u64) * 4294967296 + lo as u64, length))
                }
            },
        }
    }

    /// Finds `word`: first with case kept, then with case ignored. `Ok(i)` is a
    /// position whose word equals `word` with case ignored; `Err(k)` is where
    /// `word` would stand with case ignored, a hint for browsing neighbors.
    pub fn get(&self, word: &[u8]) -> (r: Result<usize, usize>)
        requires
            self.wf(),
        ensures
            r matches Ok(i) ==> i < self.words().len() && dict_order(self.words()[i as int], word@, true) == Ordering::Equal,
            r matches Err(k) ==> k <= self.words().len() && (k == 0 || dict_order(self.words()[k - 1], word@, true) == Ordering::Less),
            ascending(self.words()) ==> (r matches Err(k) ==> (k == 0 || k == self.words().len() || rank(dict_order(self.words()[k - 1], word@, true)) < rank(dict_order(self.words()[k as int], word@, true)))),
            ascending(self.words()) ==> (r matches Err(k) ==> (k == self.words().len() || dict_order(self.words()[k as int], word@, true) == Ordering::Greater)),
            ascending(self.words()) ==> (r is Err ==> forall|j: int| 0 <= j < self.words().len() ==> dict_order(self.words()[j], word@, true) != Ordering::Equal),
            ascending(self.words()) ==> forall|j: int| 0 <= j < self.words().len() && self.words()[j] == word@ ==> r == Ok::<usize, usize>(j as usize),
            r == idx_lookup(self.words(), word@),
    {
        let ghost ws = self.words();
        let n = self.table.len();
        proof {
            if ascending(ws) {
                lemma_ascending_sorted(ws);
            }
        }
        if n == 0 {
            return Err(0);
        }
        let first = self.table.get_word(0);
        let last = self.table.get_word(n - 1);
        if let (Ok(first), Ok(last)) = (first, last) {
            if matches!(Idx::dict_cmp(first.as_slice(), word, true), Ordering::Greater) {
                proof {
                    if ascending(ws) {
                        assert forall|j: int| 0 <= j < n implies dict_order(ws[j], word@, true) == Ordering::Greater by {
                            if j > 0 {
                                lemma_order_flip(ws[0], word@, true);
                                lemma_order_trans(word@, ws[0], ws[j], true);
                                lemma_order_flip(ws[j], word@, true);
                            }
                        }
                        assert forall|j: int| 0 <= j < n && ws[j] == word@ implies false by {
                            lemma_order_equal(ws[j], word@);
                            lemma_order_refines(ws[j], word@);
                        }
                    }
                }
                return Err(0);
            }
            if matches!(Idx::dict_cmp(last.as_slice(), word, true), Ordering::Less) {
                proof {
                    if ascending(ws) {
                        assert forall|j: int| 0 <= j < n implies dict_order(ws[j], word@, true) == Ordering::Less by {
                            if j < n - 1 {
                                lemma_order_trans(ws[j], ws[n - 1], word@, true);
                            }
                        }
                        assert forall|j: int| 0 <= j < n && ws[j] == word@ implies false by {
                            lemma_order_equal(ws[j], word@);
                            lemma_order_refines(ws[j], word@);
                        }
                    }
                }
                return Err(n);
            }
        }
        match self.table.search(word, false) {
            Ok(i) => {
                proof {
                    lemma_order_equal(ws[i as int], word@);
                    lemma_order_refines(ws[i as int], word@);
                    if ascending(ws) {
                        assert forall|j: int| 0 <= j < n && ws[j] == word@ implies j == i by {
                            if j < i {
                                lemma_order_equal(ws[j], ws[i as int]);
                            } else if j > i {
                                lemma_order_equal(ws[i as int], ws[j]);
                            }
                        }
                    }
                }
                Ok(i)
            },
            Err(_) => {
                proof {
                    if ascending(ws) {
                        assert forall|j: int| 0 <= j < n && ws[j] == word@ implies false by {
                            lemma_order_equal(ws[j], word@);
                        }
                    }
                }
                let r = self.table.search(word, true);
                proof {
                    if ascending(ws) {
                        if let Err(k) = r {
                            if 0 < k < n {
                                assert(rank(dict_order(ws[k - 1], word@, true)) < rank(dict_order(ws[k as int], word@, true)));
                            }
                        }
                    }
                }
                r
            },
        }
    }

    /// Compares two words in the dictionary collation.
    pub fn dict_cmp(w1: &[u8], w2: &[u8], ignore_case: bool) -> (r: Ordering)
        ensures
            r == dict_order(w1@, w2@, ignore_case),
    {
        reveal(dict_order);
        let w1len = w1.len();
        let w2len = w2.len();
        let ghost fa = fold_all(w1@);
        let ghost fb = fold_all(w2@);
        if w1len == 0 || w2len == 0 {
            return if w1len > 0 {
                Ordering::Greater
            } else if w2len > 0 {
                Ordering::Less
            } else {
                assert(w1@ =~= w2@);
                Ordering::Equal
            };
        }
        let mut case_eq: i32 = 0;
        let mut i: usize = 0;
        while i < w1len
            invariant
                w1len == w1@.len(),
                w2len == w2@.len(),
                fa == fold_all(w1@),
                fb == fold_all(w2@),
                0 <= i <= w1len,
                i <= w2len,
                lex_at(fa, fb, 0) == lex_at(fa, fb, i as int),
                case_eq == 0 ==> lex_at(w1@, w2@, 0) == lex_at(w1@, w2@, i as int),
                case_eq > 0 ==> lex_at(w1@, w2@, 0) == Ordering::Greater,
                case_eq < 0 ==> lex_at(w1@, w2@, 0) == Ordering::Less,
                -255 <= case_eq <= 255,
            decreases w1len - i,
        {
            proof {
                reveal(dict_order);
            }
            if i >= w2len {
                return Ordering::Greater;
            }
            let c1 = w1[i];
            let c2 = w2[i];
            let l2 = to_lower(c2);
            let l1 = to_lower(c1);
            assert(fa[i as int] == l1 && fb[i as int] == l2);
            if l1 > l2 {
                return Ordering::Greater;
            } else if l1 < l2 {
                return Ordering::Less;
            }
            if case_eq == 0 {
                case_eq = c1 as i32 - c2 as i32;
            }
            i = i + 1;
        }
        if w1len > w2len {
            Ordering::Greater
        } else if w1len < w2len {
            Ordering::Less
        } else if ignore_case {
            Ordering::Equal
        } else {
            i32_to_order(case_eq)
        }
    }
}

} // verus!

verus! {

/// Words that ascend with case kept never descend with case ignored: each word
/// of such an index is at most its successor when case is ignored.
pub proof fn lemma_ascending_case_insensitive(idx: &Idx)
    requires
        ascending(idx.words()),
    ensures
        forall|i: int|
            0 <= i < idx.words().len() - 1 ==> #[trigger] dict_order(
                idx.words()[i],
                idx.words()[i + 1],
                true,
            ) != Ordering::Greater,
{
    lemma_ascending_sorted(idx.words());
}

} // verus!
