//! A read-only lookup engine over StarDict dictionaries: the `.ifo`, `.idx`,
//! `.syn` and `.dict` formats, the dictionary collation, a k-way merge of word
//! streams with duplicate suppression, and the content reformatting rules.
use vstd::prelude::*;

pub mod collation;
pub mod result;
pub mod idx;
pub mod syn;
pub mod pattern;
pub mod reformat;
pub mod ifo;
pub mod dict;
pub mod merge;
pub mod dictionary;
pub mod table;
pub mod url;
pub mod order;

use crate::dictionary::{matching, offset_start, suffix, DictNeighborIter, Dictionary, IdxIter, LookupResult};
use crate::idx::{hint_of, idx_lookup};
use crate::syn::syn_lookup;
use crate::ifo::Ifo;
use crate::merge::{WordMergeIter, WordStream};
use crate::pattern::Matcher;
use crate::result::DictError;

verus! {

/// The (dictionary, entry) pairs that a lookup of `w` over `ds` answers
/// with: for each dictionary in order whose own lookup succeeds, its
/// candidate entries in order.
pub open spec fn joined(ds: Seq<Dictionary>, w: Seq<u8>) -> Seq<(int, int)>
    decreases ds.len(),
{
    if ds.len() == 0 {
        Seq::empty()
    } else {
        joined(ds.drop_last(), w) + if ds.last().succeeds(w) {
            ds.last().candidates(w).map_values(|i: usize| ((ds.len() - 1) as int, i as int))
        } else {
            Seq::empty()
        }
    }
}

/// The dictionaries among `opened` that opened, in order.
pub open spec fn opened_ok(opened: Seq<Result<Dictionary, DictError>>) -> Seq<Dictionary>
    decreases opened.len(),
{
    if opened.len() == 0 {
        Seq::empty()
    } else {
        (match opened[0] {
            Ok(d) => seq![d],
            Err(_) => Seq::empty(),
        }) + opened_ok(opened.drop_first())
    }
}

/// What `neighbors` lists of the index of `d`.
pub open spec fn neighbor_words(d: &Dictionary, w: Seq<u8>, off: int) -> Seq<Seq<u8>> {
    suffix(d.idx.words(), offset_start(hint_of(idx_lookup(d.idx.words(), w)), off))
}

/// What `neighbors_syn` lists of the synonym index of `d`: nothing without one.
pub open spec fn neighbor_synonyms(d: &Dictionary, w: Seq<u8>, off: int) -> Seq<Seq<u8>> {
    match d.syn {
        Some(sy) => suffix(sy.words(), offset_start(hint_of(syn_lookup(sy.words(), w)), off)),
        None => Seq::empty(),
    }
}

/// All dictionaries of a directory, in the order of their sub-directory names.
pub struct StarDict {
    directories: Vec<Dictionary>,
}

impl StarDict {
    /// The dictionaries, in order.
    pub closed spec fn dicts(&self) -> Seq<Dictionary> {
        self.directories@
    }

    pub open spec fn wf(&self) -> bool {
        forall|k: int| 0 <= k < self.dicts().len() ==> (#[trigger] self.dicts()[k]).wf()
    }

    /// Holds `dictionaries`, already in the order of their sub-directory names.
    pub fn new(dictionaries: Vec<Dictionary>) -> (r: StarDict)
        ensures
            r.dicts() == dictionaries@,
    {
        StarDict { directories: dictionaries }
    }

    /// Holds the dictionaries of `opened` that opened, in their order; those
    /// that failed are left out.
    pub fn from_opened(opened: Vec<Result<Dictionary, DictError>>) -> (r: StarDict)
        ensures
            r.dicts() == opened_ok(opened@),
    {
        let mut rest = opened;
        let mut items: Vec<Dictionary> = Vec::new();
        while rest.len() > 0
            invariant
                items@ + opened_ok(rest@) == opened_ok(opened@),
            decreases rest@.len(),
        {
            let ghost r0 = rest@;
            let first = rest.remove(0);
            proof {
                assert(rest@ =~= r0.drop_first());
            }
            match first {
                Ok(d) => {
                    proof {
                        assert(items@.push(d) + opened_ok(rest@) =~= items@ + opened_ok(r0));
                    }
                    items.push(d);
                },
                Err(_) => {
                    assert(items@ + opened_ok(rest@) =~= items@ + opened_ok(r0));
                },
            }
        }
        assert(items@ + opened_ok(rest@) =~= items@);
        StarDict { directories: items }
    }

    /// The metadata of each dictionary, in order.
    pub fn info(&self) -> (r: Vec<&Ifo>)
        ensures
            r@.len() == self.dicts().len(),
            forall|k: int| 0 <= k < r@.len() ==> *(#[trigger] r@[k]) == self.dicts()[k].ifo,
    {
        let mut items: Vec<&Ifo> = Vec::new();
        let mut k: usize = 0;
        while k < self.directories.len()
            invariant
                0 <= k <= self.dicts().len(),
                items@.len() == k,
                forall|m: int| 0 <= m < k ==> *(#[trigger] items@[m]) == self.dicts()[m].ifo,
            decreases self.dicts().len() - k,
        {
            items.push(&self.directories[k].ifo);
            k = k + 1;
        }
        items
    }

    /// The words next to `word` in all dictionaries, merged: for each
    /// dictionary, its index and then its synonym index from `max(0, h + off)`
    /// on, where `h` is where `word` stands.
    pub fn neighbors(&self, word: &[u8], off: i32) -> (r: WordMergeIter<DictNeighborIter>)
        requires
            self.wf(),
        ensures
            r.wf(),
            r.streams() == 2 * self.dicts().len(),
            forall|k: int| 0 <= k < self.dicts().len() ==> #[trigger] r.pending(2 * k) == neighbor_words(&self.dicts()[k], word@, off as int),
            forall|k: int| 0 <= k < self.dicts().len() ==> #[trigger] r.pending(2 * k + 1) == neighbor_synonyms(&self.dicts()[k], word@, off as int),
    {
        let mut wordit: Vec<DictNeighborIter> = Vec::new();
        let mut k: usize = 0;
        while k < self.directories.len()
            invariant
                self.wf(),
                0 <= k <= self.dicts().len(),
                wordit@.len() == 2 * k,
                forall|j: int| 0 <= j < wordit@.len() ==> (#[trigger] wordit@[j]).valid(),
                forall|m: int| 0 <= m < k ==> (#[trigger] wordit@[2 * m]).rest() == neighbor_words(&self.dicts()[m], word@, off as int),
                forall|m: int| 0 <= m < k ==> (#[trigger] wordit@[2 * m + 1]).rest() == neighbor_synonyms(&self.dicts()[m], word@, off as int),
            decreases self.dicts().len() - k,
        {
            let d = &self.directories[k];
            assert(d.wf());
            let x = d.neighbors(word, off);
            let s = d.neighbors_syn(word, off);
            let ghost before = wordit@;
            wordit.push(x);
            wordit.push(s);
            proof {
                assert forall|m: int| 0 <= m < k + 1 implies (#[trigger] wordit@[2 * m]).rest() == neighbor_words(&self.dicts()[m], word@, off as int) by {
                    if m < k {
                        assert(wordit@[2 * m] == before[2 * m]);
                    }
                }
                assert forall|m: int| 0 <= m < k + 1 implies (#[trigger] wordit@[2 * m + 1]).rest() == neighbor_synonyms(&self.dicts()[m], word@, off as int) by {
                    if m < k {
                        assert(wordit@[2 * m + 1] == before[2 * m + 1]);
                    }
                }
            }
            k = k + 1;
        }
        let ghost ws = wordit@;
        let r = WordMergeIter::new(wordit);
        proof {
            assert forall|k: int| 0 <= k < self.dicts().len() implies #[trigger] r.pending(2 * k) == neighbor_words(&self.dicts()[k], word@, off as int) by {
                assert(r.pending(2 * k) == ws[2 * k].rest());
            }
            assert forall|k: int| 0 <= k < self.dicts().len() implies #[trigger] r.pending(2 * k + 1) == neighbor_synonyms(&self.dicts()[k], word@, off as int) by {
                assert(r.pending(2 * k + 1) == ws[2 * k + 1].rest());
            }
        }
        r
    }

    /// The words of all dictionaries that `reg` matches, merged: for each
    /// dictionary, its index and then its synonym index.
    pub fn search<'a>(&'a self, reg: &'a Matcher) -> (r: WordMergeIter<IdxIter<'a>>)
        requires
            self.wf(),
        ensures
            r.wf(),
            r.streams() == 2 * self.dicts().len(),
            forall|k: int| 0 <= k < self.dicts().len() ==> #[trigger] r.pending(2 * k) == matching(self.dicts()[k].idx.words(), reg.source()),
            forall|k: int| 0 <= k < self.dicts().len() ==> #[trigger] r.pending(2 * k + 1) == match self.dicts()[k].syn {
                Some(sy) => matching(sy.words(), reg.source()),
                None => Seq::empty(),
            },
    {
        let mut wordit: Vec<IdxIter<'a>> = Vec::new();
        let mut k: usize = 0;
        while k < self.directories.len()
            invariant
                self.wf(),
                0 <= k <= self.dicts().len(),
                wordit@.len() == 2 * k,
                forall|j: int| 0 <= j < wordit@.len() ==> (#[trigger] wordit@[j]).valid(),
                forall|m: int| 0 <= m < k ==> (#[trigger] wordit@[2 * m]).rest() == matching(self.dicts()[m].idx.words(), reg.source()),
                forall|m: int| 0 <= m < k ==> (#[trigger] wordit@[2 * m + 1]).rest() == match self.dicts()[m].syn {
                    Some(sy) => matching(sy.words(), reg.source()),
                    None => Seq::empty(),
                },
            decreases self.dicts().len() - k,
        {
            let d = &self.directories[k];
            assert(d.wf());
            let x = d.search_regex(reg);
            let s = d.search_syn(reg);
            let ghost before = wordit@;
            wordit.push(x);
            wordit.push(s);
            proof {
                assert forall|m: int| 0 <= m < k + 1 implies (#[trigger] wordit@[2 * m]).rest() == matching(self.dicts()[m].idx.words(), reg.source()) by {
                    if m < k {
                        assert(wordit@[2 * m] == before[2 * m]);
                    }
                }
                assert forall|m: int| 0 <= m < k + 1 implies (#[trigger] wordit@[2 * m + 1]).rest() == match self.dicts()[m].syn {
                    Some(sy) => matching(sy.words(), reg.source()),
                    None => Seq::empty(),
                } by {
                    if m < k {
                        assert(wordit@[2 * m + 1] == before[2 * m + 1]);
                    }
                }
            }
            k = k + 1;
        }
        let ghost ws = wordit@;
        let r = WordMergeIter::new(wordit);
        proof {
            assert forall|k: int| 0 <= k < self.dicts().len() implies #[trigger] r.pending(2 * k) == matching(self.dicts()[k].idx.words(), reg.source()) by {
                assert(r.pending(2 * k) == ws[2 * k].rest());
            }
            assert forall|k: int| 0 <= k < self.dicts().len() implies #[trigger] r.pending(2 * k + 1) == match self.dicts()[k].syn {
                Some(sy) => matching(sy.words(), reg.source()),
                None => Seq::empty(),
            } by {
                assert(r.pending(2 * k + 1) == ws[2 * k + 1].rest());
            }
        }
        r
    }

    /// Looks `word` up in every dictionary and joins the results in
    /// dictionary order; a dictionary whose lookup fails adds nothing. Fails
    /// with `NotFound(0)` when no dictionary answers.
    pub fn lookup(&self, word: &[u8]) -> (r: Result<Vec<LookupResult>, DictError>)
        requires
            self.wf(),
        ensures
            joined(self.dicts(), word@).len() == 0 ==> (r matches Err(DictError::NotFound(k)) && k == 0),
            joined(self.dicts(), word@).len() > 0 ==> (r matches Ok(v) && v@.len() == joined(self.dicts(), word@).len() && forall|k: int| 0 <= k < v@.len() ==> self.dicts()[joined(self.dicts(), word@)[k].0].is_result(#[trigger] v@[k], joined(self.dicts(), word@)[k].1)),
    {
        let ghost ds = self.dicts();
        let mut ret: Vec<LookupResult> = Vec::new();
        let mut k: usize = 0;
        assert(ds.subrange(0, 0) =~= Seq::<Dictionary>::empty());
        while k < self.directories.len()
            invariant
                self.wf(),
                ds == self.dicts(),
                0 <= k <= ds.len(),
                ret@.len() == joined(ds.subrange(0, k as int), word@).len(),
                forall|m: int| 0 <= m < ret@.len() ==> 0 <= #[trigger] joined(ds.subrange(0, k as int), word@)[m].0 < k && ds[joined(ds.subrange(0, k as int), word@)[m].0].is_result(ret@[m], joined(ds.subrange(0, k as int), word@)[m].1),
            decreases ds.len() - k,
        {
            let d = &self.directories[k];
            assert(d.wf());
            let ghost jb = joined(ds.subrange(0, k as int), word@);
            let ghost sub = ds.subrange(0, k + 1);
            proof {
                assert(sub.drop_last() =~= ds.subrange(0, k as int));
                assert(sub.last() == ds[k as int]);
            }
            match d.lookup(word) {
                Ok(x) => {
                    let ghost c = d.candidates(word@);
                    let ghost add = c.map_values(|i: usize| (k as int, i as int));
                    assert(d.succeeds(word@));
                    assert(joined(sub, word@) == jb + add);
                    let mut j: usize = 0;
                    while j < x.len()
                        invariant
                            0 <= j <= x@.len(),
                            k < ds.len(),
                            *d == ds[k as int],
                            x@.len() == c.len(),
                            add == c.map_values(|i: usize| (k as int, i as int)),
                            forall|t: int| 0 <= t < x@.len() ==> d.is_result(#[trigger] x@[t], c[t] as int),
                            ret@.len() == jb.len() + j,
                            forall|m: int| 0 <= m < jb.len() ==> 0 <= #[trigger] jb[m].0 < k && ds[jb[m].0].is_result(ret@[m], jb[m].1),
                            forall|t: int| 0 <= t < j ==> ds[k as int].is_result(#[trigger] ret@[jb.len() + t], c[t] as int),
                        decreases x@.len() - j,
                    {
                        let e = &x[j];
                        let item = LookupResult { dictionary: e.dictionary, word: vstd::slice::slice_to_vec(e.word.as_slice()), result: vstd::slice::slice_to_vec(e.result.as_slice()) };
                        proof {
                            assert(d.is_result(x@[j as int], c[j as int] as int));
                        }
                        ret.push(item);
                        j = j + 1;
                    }
                    proof {
                        let jn = jb + add;
                        assert forall|m: int| 0 <= m < ret@.len() implies 0 <= #[trigger] jn[m].0 < k + 1 && ds[jn[m].0].is_result(ret@[m], jn[m].1) by {
                            if m >= jb.len() {
                                assert(ds[k as int].is_result(ret@[jb.len() + (m - jb.len())], c[m - jb.len()] as int));
                            }
                        }
                    }
                },
                Err(_) => {
                    assert(!d.succeeds(word@));
                    assert(joined(sub, word@) =~= jb);
                },
            }
            k = k + 1;
        }
        assert(ds.subrange(0, k as int) =~= ds);
        if ret.len() == 0 {
            return Err(DictError::NotFound(0));
        }
        Ok(ret)
    }

}

} // verus!
