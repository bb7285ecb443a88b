//! Ordered streams of words, and their k-way merge with duplicate suppression.
use std::cmp::Ordering;
use vstd::prelude::*;

use crate::collation::{dict_order, lemma_order_equal, lemma_order_flip, lemma_order_trans};
use crate::idx::Idx;
use crate::pattern::views;
use crate::table::ascending;
use vstd::slice::slice_to_vec;

verus! {

/// A stream of words that hands them out one at a time.
pub trait WordStream {
    /// The words still to come, in order.
    spec fn rest(&self) -> Seq<Seq<u8>>;

    /// The stream's own invariant.
    spec fn valid(&self) -> bool;

    /// The next word, or `None` once the stream is exhausted.
    fn next(&mut self) -> (r: Option<Vec<u8>>)
        requires
            old(self).valid(),
        ensures
            final(self).valid(),
            old(self).rest().len() == 0 ==> r is None && final(self).rest() == old(self).rest(),
            old(self).rest().len() > 0 ==> (r matches Some(w) && w@ == old(self).rest()[0])
                && final(self).rest() == old(self).rest().drop_first(),
    ;
}

/// The words a stream still holds: the one already pulled, then the rest.
pub open spec fn pending_of<T: WordStream>(c: Option<Vec<u8>>, t: T) -> Seq<Seq<u8>> {
    match c {
        Some(v) => seq![v@] + t.rest(),
        None => Seq::empty(),
    }
}

proof fn lemma_ascending_tail(p: Seq<Seq<u8>>)
    requires
        ascending(p),
        p.len() > 0,
    ensures
        ascending(p.drop_first()),
{
    let q = p.drop_first();
    assert forall|a: int, b: int| 0 <= a < b < q.len() implies dict_order(q[a], q[b], false) == Ordering::Less by {
        assert(q[a] == p[a + 1] && q[b] == p[b + 1]);
    }
}

/// Among the first `n` streams, the one whose word `next` hands out: the
/// earliest with the least word, case kept; -1 when none holds a word.
pub open spec fn least_head(cur: Seq<Option<Vec<u8>>>, n: int) -> int
    decreases n,
{
    if n <= 0 {
        -1
    } else {
        let x = least_head(cur, n - 1);
        if cur[n - 1] is None {
            x
        } else if x < 0 {
            n - 1
        } else if dict_order(cur[x]->0@, cur[n - 1]->0@, false) == Ordering::Greater {
            n - 1
        } else {
            x
        }
    }
}

/// Stream `j` gives up its word in a call of `next` without handing it out:
/// its word equals the least word of the streams before it.
pub open spec fn advances(cur: Seq<Option<Vec<u8>>>, j: int) -> bool {
    &&& j > 0
    &&& cur[j] is Some
    &&& least_head(cur, j) >= 0
    &&& dict_order(cur[least_head(cur, j)]->0@, cur[j]->0@, false) == Ordering::Equal
}

proof fn lemma_least_head(cur: Seq<Option<Vec<u8>>>, n: int)
    requires
        0 <= n <= cur.len(),
    ensures
        -1 <= least_head(cur, n) < n,
        least_head(cur, n) >= 0 ==> cur[least_head(cur, n)] is Some && least_head(cur, least_head(cur, n) + 1) == least_head(cur, n) && !advances(cur, least_head(cur, n)),
        least_head(cur, n) < 0 ==> forall|j: int| 0 <= j < n ==> (#[trigger] cur[j]) is None,
    decreases n,
{
    if n > 0 {
        lemma_least_head(cur, n - 1);
    }
}

/// The merge of several word streams, each pulled one word ahead. A word that
/// several streams hold at once is handed out once.
pub struct WordMergeIter<T: WordStream> {
    wordit: Vec<T>,
    cur: Vec<Option<Vec<u8>>>,
}

impl<T: WordStream> WordMergeIter<T> {
    pub closed spec fn wf(&self) -> bool {
        &&& self.wordit@.len() == self.cur@.len()
        &&& forall|j: int| 0 <= j < self.wordit@.len() ==> (#[trigger] self.wordit@[j]).valid()
        &&& forall|j: int| 0 <= j < self.cur@.len() && #[trigger] self.cur@[j] is None ==> self.wordit@[j].rest().len() == 0
    }

    /// The number of streams.
    pub closed spec fn streams(&self) -> int {
        self.cur@.len() as int
    }

    /// The word each stream has pulled ahead, if any.
    pub closed spec fn heads(&self) -> Seq<Option<Vec<u8>>> {
        self.cur@
    }

    /// The words stream `j` still holds.
    pub closed spec fn pending(&self, j: int) -> Seq<Seq<u8>> {
        pending_of(self.cur@[j], self.wordit@[j])
    }

    /// Every stream still ascends strictly with case kept.
    pub open spec fn sorted(&self) -> bool {
        forall|j: int| 0 <= j < self.streams() ==> ascending(#[trigger] self.pending(j))
    }

    /// The words that some stream still holds.
    pub open spec fn words(&self) -> Set<Seq<u8>> {
        Set::new(|w: Seq<u8>| exists|j: int| 0 <= j < self.streams() && #[trigger] self.pending(j).contains(w))
    }

    /// Merges `wordit`, pulling the first word of each.
    pub fn new(wordit: Vec<T>) -> (r: Self)
        requires
            forall|j: int| 0 <= j < wordit@.len() ==> (#[trigger] wordit@[j]).valid(),
        ensures
            r.wf(),
            r.streams() == wordit@.len(),
            forall|j: int| 0 <= j < wordit@.len() ==> r.pending(j) == (#[trigger] wordit@[j]).rest(),
    {
        let mut wordit = wordit;
        let ghost orig = wordit@;
        let mut cur: Vec<Option<Vec<u8>>> = Vec::new();
        let mut j: usize = 0;
        while j < wordit.len()
            invariant
                wordit@.len() == orig.len(),
                0 <= j <= wordit@.len(),
                cur@.len() == j,
                forall|k: int| 0 <= k < wordit@.len() ==> (#[trigger] wordit@[k]).valid(),
                forall|k: int| j <= k < wordit@.len() ==> #[trigger] wordit@[k] == orig[k],
                forall|k: int| 0 <= k < j ==> pending_of(#[trigger] cur@[k], wordit@[k]) == orig[k].rest(),
                forall|k: int| 0 <= k < j && #[trigger] cur@[k] is None ==> wordit@[k].rest().len() == 0,
            decreases wordit@.len() - j,
        {
            let ghost before = wordit@[j as int];
            let c = wordit[j].next();
            proof {
                if c is Some {
                    assert(seq![c->0@] + wordit@[j as int].rest() =~= before.rest());
                }
            }
            cur.push(c);
            j = j + 1;
        }
        WordMergeIter { wordit, cur }
    }

    /// The least word that any stream holds, handed out once however many
    /// streams hold it. Where every stream ascends strictly, the words come
    /// out ascending, each once: the least one left, which leaves the set.
    pub fn next(&mut self) -> (r: Option<Vec<u8>>)
        requires
            old(self).wf(),
        ensures
            final(self).wf(),
            final(self).streams() == old(self).streams(),
            old(self).sorted() ==> final(self).sorted(),
            old(self).sorted() ==> (r is None <==> old(self).words() == Set::<Seq<u8>>::empty()),
            old(self).sorted() ==> (r is None ==> final(self).words() == old(self).words()),
            old(self).sorted() ==> (r matches Some(w) ==> old(self).words().contains(w@) && (forall|u: Seq<u8>| #[trigger] old(self).words().contains(u) ==> u == w@ || dict_order(w@, u, false) == Ordering::Less) && final(self).words() == old(self).words().remove(w@)),
            least_head(old(self).heads(), old(self).streams()) < 0 ==> r is None,
            least_head(old(self).heads(), old(self).streams()) >= 0 ==> (r matches Some(w) && w@ == old(self).heads()[least_head(old(self).heads(), old(self).streams())]->0@),
            least_head(old(self).heads(), old(self).streams()) >= 0 ==> final(self).pending(least_head(old(self).heads(), old(self).streams())) == old(self).pending(least_head(old(self).heads(), old(self).streams())).drop_first(),
            forall|j: int| 0 <= j < old(self).streams() && j != least_head(old(self).heads(), old(self).streams()) ==> #[trigger] final(self).pending(j) == if advances(old(self).heads(), j) {
                old(self).pending(j).drop_first()
            } else {
                old(self).pending(j)
            },
    {
        let ghost c0 = self.heads();
        let ghost p0 = Seq::new(self.streams() as nat, |j: int| self.pending(j));
        let ghost srt = self.sorted();
        let ghost s0 = self.words();
        let l = self.cur.len();
        if l == 0 {
            assert(s0 =~= Set::<Seq<u8>>::empty());
            return None;
        }
        proof {
            lemma_least_head(c0, 1);
        }
        let mut x: usize = 0;
        let mut i: usize = 1;
        while i < l
            invariant
                self.wf(),
                l == self.streams(),
                0 <= x < i <= l,
                srt == old(self).sorted(),
                s0 == old(self).words(),
                srt ==> self.sorted(),
                srt ==> self.words() == s0,
                self.cur@[x as int] is None ==> forall|j: int| 0 <= j < i ==> (#[trigger] self.cur@[j]) is None,
                srt && self.cur@[x as int] is Some ==> forall|j: int| 0 <= j < i && j != x && (#[trigger] self.cur@[j]) is Some ==> dict_order(self.cur@[x as int]->0@, self.cur@[j]->0@, false) == Ordering::Less,
                c0 == old(self).heads(),
                c0.len() == l,
                p0.len() == l,
                forall|j: int| 0 <= j < l ==> #[trigger] p0[j] == old(self).pending(j),
                least_head(c0, i as int) >= 0 ==> x == least_head(c0, i as int) && self.cur@[x as int] == c0[x as int],
                least_head(c0, i as int) < 0 ==> self.cur@[x as int] is None,
                forall|j: int| i <= j < l ==> #[trigger] self.cur@[j] == c0[j] && self.pending(j) == p0[j],
                forall|j: int| 0 <= j < i ==> #[trigger] self.pending(j) == if advances(c0, j) { p0[j].drop_first() } else { p0[j] },
            decreases l - i,
        {
            let ghost x0 = x;
            let ghost head_state = *self;
            let step: u8 = match (&self.cur[x], &self.cur[i]) {
                (None, _) => 0,
                (_, None) => 1,
                (Some(a), Some(b)) => match Idx::dict_cmp(a.as_slice(), b.as_slice(), false) {
                    Ordering::Greater => 0,
                    Ordering::Equal => 2,
                    Ordering::Less => 1,
                },
            };
            proof {
                lemma_least_head(c0, i as int);
                lemma_least_head(c0, i + 1);
                assert(self.cur@[i as int] == c0[i as int]);
            }
            if step == 0 {
                proof {
                    if srt && self.cur@[x as int] is Some && self.cur@[i as int] is Some {
                        let vx = self.cur@[x as int]->0@;
                        let vi = self.cur@[i as int]->0@;
                        lemma_order_flip(vx, vi, false);
                        assert forall|j: int| 0 <= j < i + 1 && j != i && (#[trigger] self.cur@[j]) is Some implies dict_order(vi, self.cur@[j]->0@, false) == Ordering::Less by {
                            if j != x {
                                lemma_order_trans(vi, vx, self.cur@[j]->0@, false);
                            }
                        }
                    }
                }
                x = i;
            } else if step == 2 {
                let ghost before = *self;
                let ghost pi = self.pending(i as int);
                let nxt = self.wordit[i].next();
                self.cur.set(i, nxt);
                proof {
                    let vx = self.cur@[x as int]->0@;
                    let vi = before.cur@[i as int]->0@;
                    lemma_order_equal(vx, vi);
                    assert(self.pending(i as int) =~= pi.drop_first());
                    assert forall|j: int| 0 <= j < l && j != i implies self.pending(j) == before.pending(j) by {}
                    if srt {
                        lemma_ascending_tail(pi);
                        assert forall|j: int| 0 <= j < l implies ascending(#[trigger] self.pending(j)) by {
                            if j != i {
                                assert(self.pending(j) == before.pending(j));
                            }
                        }
                        if pi.len() > 1 {
                            assert(dict_order(pi[0], pi[1], false) == Ordering::Less);
                        }
                        assert forall|u: Seq<u8>| self.words().contains(u) <==> s0.contains(u) by {
                            if s0.contains(u) {
                                let j = choose|j: int| 0 <= j < l && #[trigger] before.pending(j).contains(u);
                                if j == i {
                                    let k = choose|k: int| 0 <= k < pi.len() && pi[k] == u;
                                    if k == 0 {
                                        assert(self.pending(x as int)[0] == u);
                                        assert(self.pending(x as int).contains(u));
                                    } else {
                                        assert(self.pending(i as int)[k - 1] == u);
                                        assert(self.pending(i as int).contains(u));
                                    }
                                } else {
                                    assert(self.pending(j).contains(u));
                                }
                            }
                            if self.words().contains(u) {
                                let j = choose|j: int| 0 <= j < l && #[trigger] self.pending(j).contains(u);
                                if j == i {
                                    let k = choose|k: int| 0 <= k < self.pending(i as int).len() && self.pending(i as int)[k] == u;
                                    assert(pi[k + 1] == u);
                                    assert(before.pending(i as int).contains(u));
                                } else {
                                    assert(before.pending(j).contains(u));
                                }
                            }
                        }
                        assert(self.words() =~= s0);
                    }
                }
            }
            proof {
                if step == 2 {
                    assert(advances(c0, i as int));
                    assert(self.pending(i as int) == p0[i as int].drop_first());
                } else {
                    assert(!advances(c0, i as int));
                    assert(self.pending(i as int) == head_state.pending(i as int));
                }
                assert forall|j: int| 0 <= j < i + 1 implies #[trigger] self.pending(j) == if advances(c0, j) { p0[j].drop_first() } else { p0[j] } by {
                    if j < i {
                        assert(self.pending(j) == head_state.pending(j));
                    }
                }
            }
            i = i + 1;
        }
        proof {
            lemma_least_head(c0, l as int);
        }
        if self.cur[x].is_none() {
            proof {
                if srt {
                    assert forall|u: Seq<u8>| !s0.contains(u) by {
                        if s0.contains(u) {
                            let j = choose|j: int| 0 <= j < l && #[trigger] self.pending(j).contains(u);
                            assert(self.cur@[j] is None);
                        }
                    }
                    assert(s0 =~= Set::<Seq<u8>>::empty());
                }
            }
            return None;
        }
        let out = match &self.cur[x] {
            Some(v) => slice_to_vec(v.as_slice()),
            None => Vec::new(),
        };
        let ghost before = *self;
        let ghost px = self.pending(x as int);
        let nxt = self.wordit[x].next();
        self.cur.set(x, nxt);
        proof {
            let vx = out@;
            assert(px[0] == vx);
            assert(self.pending(x as int) =~= px.drop_first());
            assert forall|j: int| 0 <= j < l && j != x implies self.pending(j) == before.pending(j) by {}
            if srt {
                lemma_ascending_tail(px);
                assert forall|j: int| 0 <= j < l implies ascending(#[trigger] self.pending(j)) by {
                    if j != x {
                        assert(self.pending(j) == before.pending(j));
                    }
                }
                assert(before.words() == s0);
                assert(before.pending(x as int).contains(vx));
                assert(s0.contains(vx));
                // every word held is at least the one handed out
                assert forall|j: int, k: int| 0 <= j < l && 0 <= k < before.pending(j).len() && !(j == x && k == 0) implies dict_order(vx, #[trigger] before.pending(j)[k], false) == Ordering::Less by {
                    let pj = before.pending(j);
                    if j == x {
                        assert(dict_order(pj[0], pj[k], false) == Ordering::Less);
                    } else {
                        assert(before.cur@[j] is Some);
                        assert(dict_order(vx, pj[0], false) == Ordering::Less);
                        if k > 0 {
                            assert(dict_order(pj[0], pj[k], false) == Ordering::Less);
                            lemma_order_trans(vx, pj[0], pj[k], false);
                        }
                    }
                }
                assert forall|u: Seq<u8>| #[trigger] s0.contains(u) implies u == vx || dict_order(vx, u, false) == Ordering::Less by {
                    let j = choose|j: int| 0 <= j < l && #[trigger] before.pending(j).contains(u);
                    let k = choose|k: int| 0 <= k < before.pending(j).len() && before.pending(j)[k] == u;
                    if !(j == x && k == 0) {
                        assert(dict_order(vx, before.pending(j)[k], false) == Ordering::Less);
                    }
                }
                assert(before.pending(x as int).contains(vx));
                assert forall|u: Seq<u8>| self.words().contains(u) <==> s0.remove(vx).contains(u) by {
                    lemma_order_equal(vx, u);
                    if self.words().contains(u) {
                        let j = choose|j: int| 0 <= j < l && #[trigger] self.pending(j).contains(u);
                        let k = choose|k: int| 0 <= k < self.pending(j).len() && self.pending(j)[k] == u;
                        if j == x {
                            assert(before.pending(j)[k + 1] == u);
                            assert(before.pending(j).contains(u));
                            assert(dict_order(vx, before.pending(j)[k + 1], false) == Ordering::Less);
                        } else {
                            assert(before.pending(j)[k] == u);
                            assert(before.pending(j).contains(u));
                            assert(dict_order(vx, before.pending(j)[k], false) == Ordering::Less);
                        }
                    }
                    if s0.remove(vx).contains(u) {
                        let j = choose|j: int| 0 <= j < l && #[trigger] before.pending(j).contains(u);
                        let k = choose|k: int| 0 <= k < before.pending(j).len() && before.pending(j)[k] == u;
                        if j == x {
                            assert(k != 0);
                            assert(self.pending(j)[k - 1] == u);
                            assert(self.pending(j).contains(u));
                        } else {
                            assert(self.pending(j).contains(u));
                        }
                    }
                }
                assert(self.words() =~= s0.remove(vx));
            }
        }
        proof {
            assert(x == least_head(c0, l as int));
            assert forall|j: int| 0 <= j < l && j != x implies #[trigger] self.pending(j) == if advances(c0, j) { p0[j].drop_first() } else { p0[j] } by {
                assert(self.pending(j) == before.pending(j));
            }
        }
        Some(out)
    }

    /// Up to `n` words, in the order `next` hands them out. Where every stream
    /// ascends strictly, they are the least words of the merged streams, in
    /// ascending order and each once: the sorted merge with duplicates
    /// collapsed. Fewer than `n` come only when the streams run dry.
    pub fn take(&mut self, n: usize) -> (r: Vec<Vec<u8>>)
        requires
            old(self).wf(),
        ensures
            final(self).wf(),
            final(self).streams() == old(self).streams(),
            r@.len() <= n,
            old(self).sorted() ==> {
                &&& final(self).sorted()
                &&& ascending(views(r@))
                &&& forall|u: Seq<u8>| #[trigger] old(self).words().contains(u) <==> (final(self).words().contains(u) || views(r@).contains(u))
                &&& forall|k: int, u: Seq<u8>| 0 <= k < r@.len() && #[trigger] final(self).words().contains(u) ==> dict_order((#[trigger] r@[k])@, u, false) == Ordering::Less
                &&& r@.len() < n ==> final(self).words() == Set::<Seq<u8>>::empty()
            },
    {
        let ghost srt = self.sorted();
        let ghost s_init = self.words();
        let mut out: Vec<Vec<u8>> = Vec::new();
        let mut done = false;
        while out.len() < n && !done
            invariant
                self.wf(),
                self.streams() == old(self).streams(),
                srt == old(self).sorted(),
                s_init == old(self).words(),
                out@.len() <= n,
                srt ==> self.sorted(),
                srt ==> ascending(views(out@)),
                srt ==> forall|u: Seq<u8>| #[trigger] s_init.contains(u) <==> (self.words().contains(u) || views(out@).contains(u)),
                srt ==> forall|k: int, u: Seq<u8>| 0 <= k < out@.len() && #[trigger] self.words().contains(u) ==> dict_order((#[trigger] out@[k])@, u, false) == Ordering::Less,
                srt && done ==> self.words() == Set::<Seq<u8>>::empty(),
            decreases n - out@.len() + (if done { 0int } else { 1int }),
        {
            let ghost s_before = self.words();
            let ghost o_before = views(out@);
            match self.next() {
                None => {
                    done = true;
                },
                Some(w) => {
                    proof {
                        if srt {
                            assert(views(out@.push(w)) =~= o_before.push(w@));
                            assert forall|a: int, b: int| 0 <= a < b < o_before.len() + 1 implies dict_order(#[trigger] o_before.push(w@)[a], #[trigger] o_before.push(w@)[b], false) == Ordering::Less by {
                                if b == o_before.len() {
                                    assert(o_before[a] == out@[a]@);
                                    assert(s_before.contains(w@));
                                } else {
                                    assert(o_before.push(w@)[a] == o_before[a]);
                                    assert(o_before.push(w@)[b] == o_before[b]);
                                }
                            }
                            assert forall|u: Seq<u8>| #[trigger] s_init.contains(u) <==> (self.words().contains(u) || o_before.push(w@).contains(u)) by {
                                if o_before.contains(u) {
                                    let k = choose|k: int| 0 <= k < o_before.len() && o_before[k] == u;
                                    assert(o_before.push(w@)[k] == u);
                                }
                                if o_before.push(w@).contains(u) {
                                    let k = choose|k: int| 0 <= k < o_before.len() + 1 && o_before.push(w@)[k] == u;
                                    if k < o_before.len() {
                                        assert(o_before[k] == u);
                                    }
                                }
                                if u == w@ {
                                    assert(o_before.push(w@)[o_before.len() as int] == u);
                                }
                            }
                            assert forall|k: int, u: Seq<u8>| 0 <= k < out@.len() + 1 && #[trigger] self.words().contains(u) implies dict_order((#[trigger] out@.push(w)[k])@, u, false) == Ordering::Less by {
                                assert(s_before.contains(u));
                                if k < out@.len() {
                                    assert(out@.push(w)[k] == out@[k]);
                                } else {
                                    lemma_order_equal(w@, u);
                                }
                            }
                        }
                    }
                    out.push(w);
                },
            }
        }
        out
    }
}

} // verus!
