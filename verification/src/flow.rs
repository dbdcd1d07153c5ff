//! A forward data-flow solver whose meet is intersection (`&`), as for
//! available expressions. Node 0 is a virtual entry node; nodes `1..n` stand
//! for the basic blocks.
use vstd::prelude::*;
use crate::bitset::{bit, bs_eq, bs_ones, bsand, bsandn, bsor, bs_words, bs_zeros, lemma_wbit_and, lemma_wbit_andn, lemma_wbit_ones, lemma_wbit_or, wbit, words_for};

verus! {

/// `x` has no bit that `y` lacks.
pub open spec fn subw(x: u32, y: u32) -> bool {
    x & !y == 0u32
}

/// The rows of a vector of bit sets, as sequences of words.
pub open spec fn rows(v: Seq<Vec<u32>>) -> Seq<Seq<u32>> {
    v.map_values(|r: Vec<u32>| r@)
}

/// Word `w` of the intersection of the `out` rows of the nodes in `preds`;
/// all ones when `preds` is empty.
pub open spec fn meet_word(out: Seq<Seq<u32>>, preds: Seq<usize>, w: int) -> u32
    decreases preds.len(),
{
    if preds.len() == 0 {
        !0u32
    } else {
        meet_word(out, preds.drop_last(), w) & out[preds.last() as int][w]
    }
}

/// A block's effect on one word: what it generates, plus what flows in and it does not kill.
pub open spec fn transfer_word(g: u32, k: u32, i: u32) -> u32 {
    (i & !k) | g
}

/// The rows of a vector of node lists, as sequences.
pub open spec fn pred_rows(v: Seq<Vec<usize>>) -> Seq<Seq<usize>> {
    v.map_values(|r: Vec<usize>| r@)
}

/// Every row of `x` is word by word within the same row of `y`.
pub open spec fn below(x: Seq<Seq<u32>>, y: Seq<Seq<u32>>) -> bool {
    &&& x.len() == y.len()
    &&& forall|b: int| 0 <= b < x.len() ==> #[trigger] x[b].len() == y[b].len()
    &&& forall|b: int, w: int|
        0 <= b < x.len() && 0 <= w < x[b].len() ==> subw(#[trigger] x[b][w], y[b][w])
}

/// Sum of the words of a row, as numbers.
pub open spec fn sum_row(r: Seq<u32>) -> int
    decreases r.len(),
{
    if r.len() == 0 {
        0
    } else {
        sum_row(r.drop_last()) + r.last()
    }
}

/// Sum of the words of all rows, as numbers.
pub open spec fn sum_rows(o: Seq<Seq<u32>>) -> int
    decreases o.len(),
{
    if o.len() == 0 {
        0
    } else {
        sum_rows(o.drop_last()) + sum_row(o.last())
    }
}

proof fn lemma_subw_facts()
    ensures
        forall|x: u32| #[trigger] subw(x, x),
        forall|x: u32| #[trigger] subw(x, !0u32),
        forall|x: u32, y: u32| #[trigger] subw(x, y) ==> x <= y,
        forall|x: u32, y: u32| #[trigger] subw(x, y) && x != y ==> x < y,
{
    assert(forall|x: u32| #[trigger] (x & !x) == 0u32) by (bit_vector);
    assert(forall|x: u32| #[trigger] (x & !!0u32) == 0u32) by (bit_vector);
    assert(forall|x: u32, y: u32| #[trigger] (x & !y) == 0u32 ==> x <= y) by (bit_vector);
}

proof fn lemma_subw_trans(x: u32, y: u32, z: u32)
    requires
        subw(x, y),
        subw(y, z),
    ensures
        subw(x, z),
{
    assert((x & !y) == 0u32 && (y & !z) == 0u32 ==> (x & !z) == 0u32) by (bit_vector);
}

proof fn lemma_subw_and(a: u32, b: u32, c: u32, d: u32)
    requires
        subw(a, b),
        subw(c, d),
    ensures
        subw(a & c, b & d),
{
    assert((a & !b) == 0u32 && (c & !d) == 0u32 ==> ((a & c) & !(b & d)) == 0u32) by (bit_vector);
}

proof fn lemma_subw_transfer(g: u32, k: u32, i1: u32, i2: u32)
    requires
        subw(i1, i2),
    ensures
        subw(transfer_word(g, k, i1), transfer_word(g, k, i2)),
{
    assert((i1 & !i2) == 0u32 ==> (((i1 & !k) | g) & !((i2 & !k) | g)) == 0u32) by (bit_vector);
}

proof fn lemma_meet_mono(x: Seq<Seq<u32>>, y: Seq<Seq<u32>>, preds: Seq<usize>, w: int)
    requires
        below(x, y),
        forall|j: int| 0 <= j < preds.len() ==> #[trigger] preds[j] < x.len(),
        forall|j: int| 0 <= j < preds.len() ==> 0 <= w < x[#[trigger] preds[j] as int].len(),
    ensures
        subw(meet_word(x, preds, w), meet_word(y, preds, w)),
    decreases preds.len(),
{
    lemma_subw_facts();
    if preds.len() > 0 {
        let p = preds.last() as int;
        assert(preds[preds.len() - 1] == preds.last());
        lemma_meet_mono(x, y, preds.drop_last(), w);
        assert(subw(x[p][w], y[p][w]));
        lemma_subw_and(meet_word(x, preds.drop_last(), w), meet_word(y, preds.drop_last(), w), x[p][w], y[p][w]);
    }
}

proof fn lemma_sum_row_nonneg(r: Seq<u32>)
    ensures
        sum_row(r) >= 0,
    decreases r.len(),
{
    if r.len() > 0 {
        lemma_sum_row_nonneg(r.drop_last());
    }
}

proof fn lemma_sum_rows_nonneg(o: Seq<Seq<u32>>)
    ensures
        sum_rows(o) >= 0,
    decreases o.len(),
{
    if o.len() > 0 {
        lemma_sum_rows_nonneg(o.drop_last());
        lemma_sum_row_nonneg(o.last());
    }
}

proof fn lemma_sum_row_le(r: Seq<u32>, s: Seq<u32>)
    requires
        r.len() == s.len(),
        forall|k: int| 0 <= k < r.len() ==> subw(#[trigger] r[k], s[k]),
    ensures
        sum_row(r) <= sum_row(s),
        r != s ==> sum_row(r) < sum_row(s),
    decreases r.len(),
{
    lemma_subw_facts();
    if r.len() > 0 {
        lemma_sum_row_le(r.drop_last(), s.drop_last());
        assert(subw(r[r.len() - 1], s[s.len() - 1]));
        if r != s && r.last() == s.last() {
            if r.drop_last() == s.drop_last() {
                assert(r =~= s.drop_last().push(s.last()));
                assert(s =~= s.drop_last().push(s.last()));
            }
        }
    } else {
        assert(r =~= s);
    }
}

proof fn lemma_sum_rows_update(o: Seq<Seq<u32>>, b: int, r: Seq<u32>)
    requires
        0 <= b < o.len(),
    ensures
        sum_rows(o.update(b, r)) == sum_rows(o) - sum_row(o[b]) + sum_row(r),
    decreases o.len(),
{
    if b == o.len() - 1 {
        assert(o.update(b, r).drop_last() =~= o.drop_last());
    } else {
        lemma_sum_rows_update(o.drop_last(), b, r);
        assert(o.update(b, r).drop_last() =~= o.drop_last().update(b, r));
    }
}

/// The data-flow facts of `n` nodes, each a bit set of `each` words.
pub struct Flow {
    pub each: usize,
    pub gen: Vec<Vec<u32>>,
    pub kill: Vec<Vec<u32>>,
    pub in_: Vec<Vec<u32>>,
    pub out: Vec<Vec<u32>>,
}

impl Flow {
    /// Four rows of `each` words for each of `n` nodes.
    pub open spec fn wf(&self, n: int) -> bool {
        &&& self.gen@.len() == n
        &&& self.kill@.len() == n
        &&& self.in_@.len() == n
        &&& self.out@.len() == n
        &&& forall|b: int| 0 <= b < n ==> (#[trigger] self.gen@[b])@.len() == self.each
        &&& forall|b: int| 0 <= b < n ==> (#[trigger] self.kill@[b])@.len() == self.each
        &&& forall|b: int| 0 <= b < n ==> (#[trigger] self.in_@[b])@.len() == self.each
        &&& forall|b: int| 0 <= b < n ==> (#[trigger] self.out@[b])@.len() == self.each
    }

    /// Node `b + 1` has the predecessors `preds[b]`, each a node below `n`.
    pub open spec fn preds_ok(preds: Seq<Seq<usize>>, n: int) -> bool {
        &&& preds.len() + 1 == n
        &&& forall|b: int, j: int|
            0 <= b < preds.len() && 0 <= j < preds[b].len() ==> #[trigger] preds[b][j] < n
    }

    /// Word `w` of what flows out of node `b` when the nodes' outputs are `o`.
    pub open spec fn t_word(&self, o: Seq<Seq<u32>>, preds: Seq<Seq<usize>>, b: int, w: int) -> u32 {
        transfer_word(self.gen@[b]@[w], self.kill@[b]@[w], meet_word(o, preds[b - 1], w))
    }

    /// Every node other than the entry already holds at least what its equation gives it.
    pub open spec fn post_fixed(&self, o: Seq<Seq<u32>>, preds: Seq<Seq<usize>>) -> bool {
        forall|b: int, w: int|
            1 <= b < o.len() && 0 <= w < self.each ==> subw(#[trigger] self.t_word(o, preds, b, w), o[b][w])
    }

    /// The facts of node `b` satisfy the node's equations in `in_` and `out`.
    pub open spec fn solved_at(&self, preds: Seq<Seq<usize>>, b: int) -> bool {
        forall|w: int|
            0 <= w < self.each ==> {
                &&& (#[trigger] self.in_@[b]@[w]) == meet_word(rows(self.out@), preds[b - 1], w)
                &&& self.out@[b]@[w] == self.t_word(rows(self.out@), preds, b, w)
            }
    }

    /// `x` gives every node at most what its equation gives it, and the entry
    /// node at most `entry`: the kind of assignment that the solver's result
    /// includes.
    pub open spec fn lower_solution(&self, x: Seq<Seq<u32>>, preds: Seq<Seq<usize>>, entry: Seq<u32>) -> bool {
        &&& x.len() == self.out@.len()
        &&& x.len() >= 1
        &&& forall|b: int| 0 <= b < x.len() ==> #[trigger] x[b].len() == self.each
        &&& forall|w: int| 0 <= w < self.each ==> subw(#[trigger] x[0][w], entry[w])
        &&& forall|b: int, w: int|
            1 <= b < x.len() && 0 <= w < self.each ==> subw(#[trigger] x[b][w], self.t_word(x, preds, b, w))
    }

    /// Solves the equations of every node other than the entry, starting with
    /// every bit set in their `out` rows: on return, each node's `in_` row is
    /// the intersection of its predecessors' `out` rows, and its `out` row is
    /// its transfer of that. Of all such solutions it is the greatest.
    pub fn solve(&mut self, preds: &Vec<Vec<usize>>)
        requires
            old(self).out@.len() >= 1,
            old(self).wf(old(self).out@.len() as int),
            Self::preds_ok(pred_rows(preds@), old(self).out@.len() as int),
            forall|b: int, w: int|
                1 <= b < old(self).out@.len() && 0 <= w < old(self).each ==> #[trigger] old(self).out@[b]@[w] == !0u32,
        ensures
            final(self).wf(old(self).out@.len() as int),
            final(self).each == old(self).each,
            final(self).gen == old(self).gen,
            final(self).kill == old(self).kill,
            final(self).out@[0] == old(self).out@[0],
            forall|b: int| 1 <= b < final(self).out@.len() ==> #[trigger] final(self).solved_at(pred_rows(preds@), b),
            forall|x: Seq<Seq<u32>>|
                #[trigger] final(self).lower_solution(x, pred_rows(preds@), old(self).out@[0]@) ==> below(x, rows(final(self).out@)),
    {
        let n = self.out.len();
        let each = self.each;
        let ghost entry = self.out@[0]@;
        proof {
            lemma_subw_facts();
            assert forall|b: int, w: int|
                1 <= b < n && 0 <= w < each implies subw(#[trigger] self.t_word(rows(self.out@), pred_rows(preds@), b, w), rows(self.out@)[b][w]) by {
            }
            assert forall|x: Seq<Seq<u32>>| #[trigger] self.lower_solution(x, pred_rows(preds@), entry) implies below(x, rows(self.out@)) by {
                assert forall|b: int, w: int| 0 <= b < x.len() && 0 <= w < x[b].len() implies subw(#[trigger] x[b][w], rows(self.out@)[b][w]) by {
                    if b == 0 {
                        assert(subw(x[0][w], entry[w]));
                    }
                }
            }
        }
        let mut done = false;
        while !done
            invariant
                n == self.out@.len(),
                n >= 1,
                each == self.each,
                entry == old(self).out@[0]@,
                self.wf(n as int),
                self.gen == old(self).gen,
                self.kill == old(self).kill,
                self.out@[0] == old(self).out@[0],
                Self::preds_ok(pred_rows(preds@), n as int),
                self.post_fixed(rows(self.out@), pred_rows(preds@)),
                forall|x: Seq<Seq<u32>>| #[trigger] self.lower_solution(x, pred_rows(preds@), entry) ==> below(x, rows(self.out@)),
                done ==> forall|b: int| 1 <= b < n ==> #[trigger] self.solved_at(pred_rows(preds@), b),
            decreases sum_rows(rows(self.out@)), if done { 0int } else { 1int },
        {
            let ghost start = rows(self.out@);
            proof {
                lemma_subw_facts();
            }
            let mut changed = false;
            for b in 1..n
                invariant
                    n == self.out@.len(),
                    n >= 1,
                    each == self.each,
                    entry == old(self).out@[0]@,
                    self.wf(n as int),
                    self.gen == old(self).gen,
                    self.kill == old(self).kill,
                    self.out@[0] == old(self).out@[0],
                    Self::preds_ok(pred_rows(preds@), n as int),
                    self.post_fixed(rows(self.out@), pred_rows(preds@)),
                    forall|x: Seq<Seq<u32>>| #[trigger] self.lower_solution(x, pred_rows(preds@), entry) ==> below(x, rows(self.out@)),
                    below(rows(self.out@), start),
                    changed ==> sum_rows(rows(self.out@)) < sum_rows(start),
                    !changed ==> rows(self.out@) == start,
                    !changed ==> forall|c: int| 1 <= c < b ==> #[trigger] self.solved_at(pred_rows(preds@), c),
            {
                let ghost o = rows(self.out@);
                let ps = &preds[b - 1];
                let mut inb = bs_ones(each);
                for j in 0..ps.len()
                    invariant
                        n == self.out@.len(),
                        each == self.each,
                        self.wf(n as int),
                        o == rows(self.out@),
                        Self::preds_ok(pred_rows(preds@), n as int),
                        1 <= b < n,
                        ps@ == pred_rows(preds@)[b - 1],
                        inb@.len() == each,
                        forall|w: int| 0 <= w < each ==> #[trigger] inb@[w] == meet_word(o, ps@.take(j as int), w),
                {
                    let p = ps[j];
                    proof {
                        assert(ps@[j as int] < n);
                    }
                    bsand(&mut inb, &self.out[p]);
                    proof {
                        assert forall|w: int| 0 <= w < each implies #[trigger] inb@[w] == meet_word(o, ps@.take(j + 1), w) by {
                            assert(ps@.take(j + 1).drop_last() =~= ps@.take(j as int));
                        }
                    }
                }
                proof {
                    assert(ps@.take(ps@.len() as int) =~= ps@);
                }
                let mut nb = inb.clone();
                assert(nb@ =~= inb@);
                bsandn(&mut nb, &self.kill[b]);
                bsor(&mut nb, &self.gen[b]);
                let same = bs_eq(&nb, &self.out[b]);
                proof {
                    assert forall|w: int| 0 <= w < each implies #[trigger] nb@[w] == self.t_word(o, pred_rows(preds@), b as int, w) by {}
                    self.lemma_step(o, pred_rows(preds@), b as int, nb@, entry);
                    lemma_sum_rows_nonneg(o.update(b as int, nb@));
                }
                let ghost old_self = *self;
                self.in_.set(b, inb);
                self.out.set(b, nb);
                proof {
                    assert(rows(self.out@) =~= o.update(b as int, nb@));
                }
                if !same {
                    changed = true;
                }
                proof {
                    let o2 = o.update(b as int, nb@);
                    lemma_subw_facts();
                    assert forall|c: int, w: int| #![trigger self.t_word(o2, pred_rows(preds@), c, w)]
                        1 <= c < n && 0 <= w < each implies self.t_word(o2, pred_rows(preds@), c, w) == old_self.t_word(o2, pred_rows(preds@), c, w)
                        && subw(self.t_word(o2, pred_rows(preds@), c, w), o2[c][w]) by {
                        assert(old_self.post_fixed(o2, pred_rows(preds@)));
                        assert(subw(old_self.t_word(o2, pred_rows(preds@), c, w), o2[c][w]));
                    }
                    assert(self.post_fixed(rows(self.out@), pred_rows(preds@)));
                    assert forall|x: Seq<Seq<u32>>| #[trigger] self.lower_solution(x, pred_rows(preds@), entry) implies below(x, rows(self.out@)) by {
                        assert forall|c: int, w: int| 1 <= c < x.len() && 0 <= w < self.each implies
                            #[trigger] self.t_word(x, pred_rows(preds@), c, w) == old_self.t_word(x, pred_rows(preds@), c, w) by {}
                        assert(old_self.lower_solution(x, pred_rows(preds@), entry));
                        assert(below(x, o));
                    }
                    assert forall|c: int, w: int| 0 <= c < o2.len() && 0 <= w < o2[c].len() implies subw(#[trigger] o2[c][w], start[c][w]) by {
                        lemma_subw_trans(o2[c][w], o[c][w], start[c][w]);
                    }
                    if same {
                        assert(o2 =~= o);
                    }
                    assert forall|c: int| 1 <= c < b + 1 && !changed implies #[trigger] self.solved_at(pred_rows(preds@), c) by {
                        assert(o2 =~= o);
                        if c < b {
                            assert(old_self.solved_at(pred_rows(preds@), c));
                            assert(self.in_@[c] == old_self.in_@[c]);
                            assert forall|w: int| 0 <= w < each implies
                                #[trigger] self.t_word(o, pred_rows(preds@), c, w) == old_self.t_word(o, pred_rows(preds@), c, w) by {}
                        } else {
                            assert forall|w: int| 0 <= w < each implies
                                #[trigger] self.t_word(o, pred_rows(preds@), c, w) == old_self.t_word(o, pred_rows(preds@), c, w) by {}
                        }
                    }
                }
            }
            proof {
                lemma_sum_rows_nonneg(rows(self.out@));
            }
            if !changed {
                done = true;
            }
        }
    }

    /// Replacing row `b` of a post-fixed assignment by its equation's value
    /// keeps it post-fixed, only takes bits away, and keeps it above every
    /// lower solution that it was above.
    proof fn lemma_step(&self, o: Seq<Seq<u32>>, preds: Seq<Seq<usize>>, b: int, nb: Seq<u32>, entry: Seq<u32>)
        requires
            self.wf(o.len() as int),
            o.len() == self.out@.len(),
            forall|c: int| 0 <= c < o.len() ==> #[trigger] o[c].len() == self.each,
            Self::preds_ok(preds, o.len() as int),
            1 <= b < o.len(),
            self.post_fixed(o, preds),
            nb.len() == self.each,
            forall|w: int| 0 <= w < self.each ==> #[trigger] nb[w] == self.t_word(o, preds, b, w),
        ensures
            below(o.update(b, nb), o),
            self.post_fixed(o.update(b, nb), preds),
            sum_rows(o.update(b, nb)) <= sum_rows(o),
            nb != o[b] ==> sum_rows(o.update(b, nb)) < sum_rows(o),
            forall|x: Seq<Seq<u32>>|
                self.lower_solution(x, preds, entry) && below(x, o) ==> below(x, #[trigger] o.update(b, nb)),
    {
        lemma_subw_facts();
        let o2 = o.update(b, nb);
        assert forall|w: int| 0 <= w < self.each implies subw(#[trigger] nb[w], o[b][w]) by {
            assert(subw(self.t_word(o, preds, b, w), o[b][w]));
        }
        assert(below(o2, o));
        assert forall|c: int, w: int|
            1 <= c < o2.len() && 0 <= w < self.each implies subw(#[trigger] self.t_word(o2, preds, c, w), o2[c][w]) by {
            let ps = preds[c - 1];
            assert forall|j: int| 0 <= j < ps.len() implies #[trigger] ps[j] < o2.len() by {
                assert(preds[c - 1][j] < o.len());
            }
            assert forall|j: int| 0 <= j < ps.len() implies 0 <= w < o2[#[trigger] ps[j] as int].len() by {
                assert(preds[c - 1][j] < o.len());
            }
            lemma_meet_mono(o2, o, ps, w);
            lemma_subw_transfer(self.gen@[c]@[w], self.kill@[c]@[w], meet_word(o2, ps, w), meet_word(o, ps, w));
            if c != b {
                assert(subw(self.t_word(o, preds, c, w), o[c][w]));
                lemma_subw_trans(self.t_word(o2, preds, c, w), self.t_word(o, preds, c, w), o[c][w]);
            }
        }
        lemma_sum_rows_update(o, b, nb);
        lemma_sum_row_le(nb, o[b]);
        assert forall|x: Seq<Seq<u32>>|
            self.lower_solution(x, preds, entry) && below(x, o) implies below(x, #[trigger] o.update(b, nb)) by {
            assert forall|c: int, w: int| 0 <= c < x.len() && 0 <= w < x[c].len() implies subw(#[trigger] x[c][w], o2[c][w]) by {
                if c == b {
                    let ps = preds[c - 1];
                    assert forall|j: int| 0 <= j < ps.len() implies #[trigger] ps[j] < x.len() by {
                        assert(preds[c - 1][j] < o.len());
                    }
                    assert forall|j: int| 0 <= j < ps.len() implies 0 <= w < x[#[trigger] ps[j] as int].len() by {
                        assert(preds[c - 1][j] < o.len());
                    }
                    lemma_meet_mono(x, o, ps, w);
                    lemma_subw_transfer(self.gen@[c]@[w], self.kill@[c]@[w], meet_word(x, ps, w), meet_word(o, ps, w));
                    assert(subw(x[c][w], self.t_word(x, preds, c, w)));
                    lemma_subw_trans(x[c][w], self.t_word(x, preds, c, w), self.t_word(o, preds, c, w));
                }
            }
        }
    }

    /// The facts of `n` nodes over `bits` bits, every bit clear.
    pub fn new(n: usize, bits: usize) -> (r: Flow)
        ensures
            r.wf(n as int),
            r.each == words_for(bits as int),
            forall|b: int, w: int| 0 <= b < n && 0 <= w < r.each ==> {
                &&& #[trigger] r.gen@[b]@[w] == 0u32
                &&& r.kill@[b]@[w] == 0u32
                &&& r.in_@[b]@[w] == 0u32
                &&& r.out@[b]@[w] == 0u32
            },
    {
        let each = bs_words(bits);
        let mut gen: Vec<Vec<u32>> = Vec::new();
        let mut kill: Vec<Vec<u32>> = Vec::new();
        let mut in_: Vec<Vec<u32>> = Vec::new();
        let mut out: Vec<Vec<u32>> = Vec::new();
        for b in 0..n
            invariant
                gen@.len() == b,
                kill@.len() == b,
                in_@.len() == b,
                out@.len() == b,
                forall|c: int| 0 <= c < b ==> (#[trigger] gen@[c])@.len() == each,
                forall|c: int, w: int| 0 <= c < b && 0 <= w < each ==> #[trigger] gen@[c]@[w] == 0u32,
                forall|c: int| 0 <= c < b ==> (#[trigger] kill@[c])@.len() == each,
                forall|c: int, w: int| 0 <= c < b && 0 <= w < each ==> #[trigger] kill@[c]@[w] == 0u32,
                forall|c: int| 0 <= c < b ==> (#[trigger] in_@[c])@.len() == each,
                forall|c: int, w: int| 0 <= c < b && 0 <= w < each ==> #[trigger] in_@[c]@[w] == 0u32,
                forall|c: int| 0 <= c < b ==> (#[trigger] out@[c])@.len() == each,
                forall|c: int, w: int| 0 <= c < b && 0 <= w < each ==> #[trigger] out@[c]@[w] == 0u32,
        {
            gen.push(bs_zeros(each));
            kill.push(bs_zeros(each));
            in_.push(bs_zeros(each));
            out.push(bs_zeros(each));
        }
        Flow { each, gen, kill, in_, out }
    }
}


proof fn lemma_meet_word_bits(out: Seq<Seq<u32>>, ps: Seq<usize>, w: int, m: u32)
    requires
        m < 32,
    ensures
        wbit(meet_word(out, ps, w), m as int) <==> forall|j: int| 0 <= j < ps.len() ==> wbit(#[trigger] out[ps[j] as int][w], m as int),
    decreases ps.len(),
{
    if ps.len() == 0 {
        lemma_wbit_ones(m);
    } else {
        lemma_meet_word_bits(out, ps.drop_last(), w, m);
        lemma_wbit_and(meet_word(out, ps.drop_last(), w), out[ps.last() as int][w], m);
        if wbit(meet_word(out, ps, w), m as int) {
            assert forall|j: int| 0 <= j < ps.len() implies wbit(#[trigger] out[ps[j] as int][w], m as int) by {
                if j < ps.len() - 1 {
                    assert(ps.drop_last()[j] == ps[j]);
                }
            }
        } else {
            if forall|j: int| 0 <= j < ps.len() ==> wbit(#[trigger] out[ps[j] as int][w], m as int) {
                assert forall|j: int| 0 <= j < ps.drop_last().len() implies wbit(
                    #[trigger] out[ps.drop_last()[j] as int][w],
                    m as int,
                ) by {
                    assert(ps.drop_last()[j] == ps[j]);
                }
                assert(wbit(out[ps[ps.len() - 1] as int][w], m as int));
            }
        }
    }
}

/// Where the equations of node `b` hold, as `solve` leaves every node but the
/// entry: an expression is available on entry exactly when it is available
/// out of every predecessor, and available on exit exactly when the node
/// generates it, or it was available on entry and the node does not kill it.
/// In particular whatever a node generates is available out of it.
pub proof fn lemma_solved_bits(fl: Flow, preds: Seq<Seq<usize>>, b: int, i: int)
    requires
        fl.wf(fl.out@.len() as int),
        Flow::preds_ok(preds, fl.out@.len() as int),
        1 <= b < fl.out@.len(),
        fl.solved_at(preds, b),
    ensures
        bit(fl.out@[b]@, i) == (bit(fl.gen@[b]@, i) || (bit(fl.in_@[b]@, i) && !bit(fl.kill@[b]@, i))),
        bit(fl.gen@[b]@, i) ==> bit(fl.out@[b]@, i),
        bit(fl.in_@[b]@, i) == (0 <= i < 32 * fl.each && forall|j: int|
            0 <= j < preds[b - 1].len() ==> bit(#[trigger] fl.out@[preds[b - 1][j] as int]@, i)),
{
    let n = fl.out@.len() as int;
    assert(fl.out@[b]@.len() == fl.each);
    assert(fl.in_@[b]@.len() == fl.each);
    assert(fl.gen@[b]@.len() == fl.each);
    assert(fl.kill@[b]@.len() == fl.each);
    if 0 <= i < 32 * fl.each {
        let w = i / 32;
        let m = (i % 32) as u32;
        let o = rows(fl.out@);
        let ps = preds[b - 1];
        let g = fl.gen@[b]@[w];
        let k = fl.kill@[b]@[w];
        let inw = fl.in_@[b]@[w];
        assert(inw == meet_word(o, ps, w));
        assert(fl.out@[b]@[w] == transfer_word(g, k, meet_word(o, ps, w)));
        lemma_wbit_andn(inw, k, m);
        lemma_wbit_or(inw & !k, g, m);
        lemma_meet_word_bits(o, ps, w, m);
        assert forall|j: int| 0 <= j < ps.len() implies bit(#[trigger] fl.out@[ps[j] as int]@, i) == wbit(
            o[ps[j] as int][w],
            m as int,
        ) by {
            assert(ps[j] < n);
            assert(fl.out@[ps[j] as int]@.len() == fl.each);
        }
        if bit(fl.in_@[b]@, i) {
            assert forall|j: int| 0 <= j < ps.len() implies bit(#[trigger] fl.out@[ps[j] as int]@, i) by {
                assert(wbit(o[ps[j] as int][w], m as int));
            }
        } else {
            if forall|j: int| 0 <= j < ps.len() ==> bit(#[trigger] fl.out@[ps[j] as int]@, i) {
                assert forall|j: int| 0 <= j < ps.len() implies wbit(#[trigger] o[ps[j] as int][w], m as int) by {
                    assert(bit(fl.out@[ps[j] as int]@, i));
                }
            }
        }
    }
}
} // verus!
