//! The synonym index (`.syn`).
use std::cmp::Ordering;
use vstd::prelude::*;

use crate::collation::{dict_order, lemma_order_flip, lemma_order_trans};
use crate::idx::{be4, read_be32, Idx};
use crate::result::DictError;
use crate::table::{binary_search, trailer_at, words_of, holds_records, lemma_layout_unique, is_layout, sorted_by, WordTable};

verus! {

/// What `Syn::get` gives for `w` over the words `ws`: `Err(0)` when the
/// first word is above `w` and `Err(len)` when the last is below it, both with
/// case ignored; otherwise the search with case ignored.
pub open spec fn syn_lookup(ws: Seq<Seq<u8>>, w: Seq<u8>) -> Result<usize, usize> {
    if ws.len() == 0 {
        Err(0)
    } else if dict_order(ws[0], w, true) == Ordering::Greater {
        Err(0)
    } else if dict_order(ws.last(), w, true) == Ordering::Less {
        Err(ws.len() as usize)
    } else {
        binary_search(ws, w, true)
    }
}

/// The synonym index of a dictionary: words sorted with case ignored, each
/// naming a position of the primary index. A word may repeat.
pub struct Syn {
    table: WordTable,
}

impl Syn {
    pub closed spec fn wf(&self) -> bool {
        &&& self.table.wf()
        &&& self.table.trailer() == 4
    }

    /// The words, in file order.
    pub closed spec fn words(&self) -> Seq<Seq<u8>> {
        self.table.words()
    }

    /// The raw bytes of the `.syn` file.
    pub closed spec fn content(&self) -> Seq<u8> {
        self.table.content()
    }

    /// The positions of the NULs that end the words.
    pub closed spec fn ends(&self) -> Seq<usize> {
        self.table.ends()
    }

    /// The trailer bytes of record `k`, as far as the file holds them.
    pub closed spec fn trailer_of(&self, k: int) -> Seq<u8> {
        self.table.trailer_of(k)
    }

    /// Reads the `.syn` file `content` and checks that it holds `count` words.
    pub fn open(content: Vec<u8>, count: usize) -> (r: Result<Syn, DictError>)
        ensures
            r matches Ok(syn) ==> {
                &&& syn.wf()
                &&& syn.content() == content@
                &&& is_layout(content@, syn.ends(), 4)
                &&& syn.words() == words_of(content@, syn.ends(), 4)
                &&& forall|k: int| #![trigger syn.trailer_of(k)] 0 <= k < count ==> syn.trailer_of(k) == trailer_at(content@, syn.ends(), 4, k)
                &&& syn.words().len() == count
            },
            r is Ok <==> holds_records(content@, 4, count as int),
            r matches Err(e) ==> e is My,
    {
        let table = WordTable::parse(content, 4);
        proof {
            table.lemma_layout();
        }
        if table.len() != count {
            proof {
                if holds_records(content@, table.trailer(), count as int) {
                    let ends = choose|ends: Seq<usize>| is_layout(content@, ends, table.trailer()) && ends.len() == count;
                    lemma_layout_unique(content@, ends, table.ends(), table.trailer());
                }
            }
            return Err(DictError::My(String::from_str("synonym count disagrees with the .ifo file")));
        }
        Ok(Syn { table })
    }

    /// The number of words.
    pub fn len(&self) -> (r: usize)
        ensures
            r == self.words().len(),
    {
        self.table.len()
    }

    /// The word at position `i`, or `NotFound(i)` past the end.
    pub fn get_word(&self, i: usize) -> (r: Result<Vec<u8>, DictError>)
        requires
            self.wf(),
        ensures
            i < self.words().len() ==> (r matches Ok(w) && w@ == self.words()[i as int]),
            i >= self.words().len() ==> (r matches Err(DictError::NotFound(k)) && k == i),
            r matches Ok(w) ==> forall|j: int| 0 <= j < w@.len() ==> w@[j] != 0,
    {
        proof {
            if i < self.words().len() {
                self.table.lemma_word_no_nul(i as int);
            }
        }
        self.table.get_word(i)
    }

    /// The primary index position that synonym `i` names; `Err(i)` past the end
    /// or where the file ends inside its trailer.
    pub fn get_offset(&self, i: usize) -> (r: Result<usize, usize>)
        requires
            self.wf(),
        ensures
            i < self.words().len() && self.trailer_of(i as int).len() == 4 ==> r == Ok::<usize, usize>(be4(self.trailer_of(i as int), 0) as usize),
            !(i < self.words().len() && self.trailer_of(i as int).len() == 4) ==> r == Err::<usize, usize>(i),
    {
        if i >= self.table.len() {
            return Err(i);
        }
        match self.table.get_trailer(i) {
            Some(tr) => Ok(read_be32(tr) as usize),
            None => Err(i),
        }
    }

    /// Finds `word` with case ignored. `Ok(i)` is a position whose word equals
    /// `word` with case ignored; `Err(k)` is where `word` would stand.
    pub fn get(&self, word: &[u8]) -> (r: Result<usize, usize>)
        requires
            self.wf(),
        ensures
            r matches Ok(i) ==> i < self.words().len() && dict_order(self.words()[i as int], word@, true) == Ordering::Equal,
            r matches Err(k) ==> k <= self.words().len() && (k == 0 || dict_order(self.words()[k - 1], word@, true) == Ordering::Less),
            sorted_by(self.words(), true) ==> (r matches Err(k) ==> (k == self.words().len() || dict_order(self.words()[k as int], word@, true) == Ordering::Greater)),
            sorted_by(self.words(), true) ==> (r is Err ==> forall|j: int| 0 <= j < self.words().len() ==> dict_order(self.words()[j], word@, true) != Ordering::Equal),
            r == syn_lookup(self.words(), word@),
    {
        let ghost ws = self.words();
        let n = self.table.len();
        if n == 0 {
            return Err(0);
        }
        let first = self.table.get_word(0);
        let last = self.table.get_word(n - 1);
        if let (Ok(first), Ok(last)) = (first, last) {
            if matches!(Idx::dict_cmp(first.as_slice(), word, true), Ordering::Greater) {
                proof {
                    if sorted_by(ws, true) {
                        assert forall|j: int| 0 <= j < n implies dict_order(ws[j], word@, true) == Ordering::Greater by {
                            if j > 0 {
                                lemma_order_flip(ws[0], word@, true);
                                lemma_order_trans(word@, ws[0], ws[j], true);
                                lemma_order_flip(ws[j], word@, true);
                            }
                        }
                    }
                }
                return Err(0);
            }
            if matches!(Idx::dict_cmp(last.as_slice(), word, true), Ordering::Less) {
                proof {
                    if sorted_by(ws, true) {
                        assert forall|j: int| 0 <= j < n implies dict_order(ws[j], word@, true) == Ordering::Less by {
                            if j < n - 1 {
                                lemma_order_trans(ws[j], ws[n - 1], word@, true);
                            }
                        }
                    }
                }
                return Err(n);
            }
        }
        self.table.search(word, true)
    }
}

} // verus!
