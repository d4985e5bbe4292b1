use vstd::prelude::*;
use crate::dataset::{Dataset, MrmrError};
use crate::order::{lemma_name_lt_asymmetric, lemma_name_lt_total, lemma_name_lt_transitive, name_less, name_lt, order_key, score_key};
use crate::stats::views;

verus! {

/// Candidate `a` with score bits `ka` is preferred to candidate `b` with
/// score bits `kb`: a higher score, or an equal score and a smaller name.
pub open spec fn prefers(na: Seq<char>, ka: u64, nb: Seq<char>, kb: u64) -> bool {
    ||| order_key(ka) > order_key(kb)
    ||| order_key(ka) == order_key(kb) && name_lt(na, nb)
}

/// Position `p` of `rem` holds the candidate preferred to every other one of
/// `rem`, where `bits[q]` is the score of `rem[q]`.
pub open spec fn is_best(names: Seq<Seq<char>>, rem: Seq<usize>, bits: Seq<u64>, p: int) -> bool {
    &&& 0 <= p < rem.len()
    &&& forall|q: int|
        0 <= q < rem.len() && q != p ==> #[trigger] prefers(
            names[rem[p] as int],
            bits[p],
            names[rem[q] as int],
            bits[q],
        )
}

/// The candidates that `rem` lists are distinct, named, and carry distinct names.
pub open spec fn distinct_candidates(names: Seq<Seq<char>>, rem: Seq<usize>) -> bool {
    &&& forall|q: int| 0 <= q < rem.len() ==> (#[trigger] rem[q]) < names.len()
    &&& forall|p: int, q: int|
        0 <= p < rem.len() && 0 <= q < rem.len() && p != q ==> names[#[trigger] rem[p] as int]
            != names[#[trigger] rem[q] as int]
}

proof fn lemma_prefers_transitive(na: Seq<char>, ka: u64, nb: Seq<char>, kb: u64, nc: Seq<char>, kc: u64)
    requires
        prefers(na, ka, nb, kb),
        prefers(nb, kb, nc, kc),
    ensures
        prefers(na, ka, nc, kc),
{
    if order_key(ka) == order_key(kb) && order_key(kb) == order_key(kc) {
        lemma_name_lt_transitive(na, nb, nc);
    }
}

/// At most one position is best: the choice does not depend on the order in
/// which the candidates are listed or visited.
pub proof fn lemma_best_unique(names: Seq<Seq<char>>, rem: Seq<usize>, bits: Seq<u64>, p: int, q: int)
    requires
        is_best(names, rem, bits, p),
        is_best(names, rem, bits, q),
    ensures
        p == q,
{
    if p != q {
        assert(prefers(names[rem[p] as int], bits[p], names[rem[q] as int], bits[q]));
        assert(prefers(names[rem[q] as int], bits[q], names[rem[p] as int], bits[p]));
        lemma_name_lt_asymmetric(names[rem[p] as int], names[rem[q] as int]);
    }
}

/// The position in `rem` of the candidate with the highest score, the one
/// with the smallest name among equal scores. `bits[q]` is the IEEE-754 bit
/// pattern of the score of candidate `rem[q]`.
pub fn get_max_value(names: &Vec<String>, rem: &Vec<usize>, bits: &Vec<u64>) -> (p: usize)
    requires
        rem@.len() > 0,
        bits@.len() == rem@.len(),
        distinct_candidates(views(names@), rem@),
    ensures
        is_best(views(names@), rem@, bits@, p as int),
{
    let ghost nv = views(names@);
    let mut best: usize = 0;
    let mut best_key = score_key(bits[0]);
    let mut q: usize = 1;
    while q < rem.len()
        invariant
            nv == views(names@),
            rem@.len() > 0,
            bits@.len() == rem@.len(),
            distinct_candidates(nv, rem@),
            1 <= q <= rem@.len(),
            best < q,
            best_key == order_key(bits@[best as int]),
            forall|r: int|
                0 <= r < q && r != best ==> #[trigger] prefers(
                    nv[rem@[best as int] as int],
                    bits@[best as int],
                    nv[rem@[r] as int],
                    bits@[r],
                ),
        decreases rem@.len() - q,
    {
        let key = score_key(bits[q]);
        let nq = &names[rem[q]];
        let nb = &names[rem[best]];
        assert(nq@ == nv[rem@[q as int] as int]);
        assert(nb@ == nv[rem@[best as int] as int]);
        let better = key > best_key || (key == best_key && name_less(nq, nb));
        proof {
            assert(nq@ != nb@);
            lemma_name_lt_total(nq@, nb@);
            lemma_name_lt_asymmetric(nq@, nb@);
        }
        if better {
            proof {
                assert forall|r: int| 0 <= r < q + 1 && r != q implies #[trigger] prefers(
                    nv[rem@[q as int] as int],
                    bits@[q as int],
                    nv[rem@[r] as int],
                    bits@[r],
                ) by {
                    if r != best {
                        lemma_prefers_transitive(
                            nq@,
                            bits@[q as int],
                            nb@,
                            bits@[best as int],
                            nv[rem@[r] as int],
                            bits@[r],
                        );
                    }
                }
            }
            best = q;
            best_key = key;
        }
        q += 1;
    }
    best
}

/// How many features a selection over `n` candidates takes when `k` are
/// asked for: all of them when no count is given.
pub open spec fn target_count(n: nat, k: Option<usize>) -> nat {
    match k {
        Some(k) => if (k as nat) < n {
            k as nat
        } else {
            n
        },
        None => n,
    }
}

/// The abstract state of a greedy selection: the candidate names, how many
/// are to be taken, the candidates taken so far (as positions in `names`)
/// with the bits of the score each was taken with, and those still waiting,
/// in candidate order.
pub struct SelectionView {
    pub names: Seq<Seq<char>>,
    pub target: nat,
    pub selected: Seq<usize>,
    pub scores: Seq<u64>,
    pub remaining: Seq<usize>,
}

/// The state of the greedy minimum-redundancy maximum-relevance selection.
///
/// Each round the caller scores every waiting candidate (its relevance first,
/// then its relevance less its mean redundancy with the candidates taken) and
/// hands the scores to `take_best`, which takes the best one.
pub struct Selection {
    names: Vec<String>,
    target: usize,
    selected: Vec<usize>,
    scores: Vec<u64>,
    remaining: Vec<usize>,
}

impl View for Selection {
    type V = SelectionView;

    closed spec fn view(&self) -> SelectionView {
        SelectionView {
            names: views(self.names@),
            target: self.target as nat,
            selected: self.selected@,
            scores: self.scores@,
            remaining: self.remaining@,
        }
    }
}

/// Taken and waiting candidates are disjoint, hold no repeat, and together
/// are exactly the candidates; no more than the target are taken.
pub open spec fn view_wf(v: SelectionView) -> bool {
    &&& v.names.no_duplicates()
    &&& v.target <= v.names.len()
    &&& v.selected.len() <= v.target
    &&& v.scores.len() == v.selected.len()
    &&& v.selected.len() + v.remaining.len() == v.names.len()
    &&& forall|i: int| 0 <= i < v.selected.len() ==> (#[trigger] v.selected[i]) < v.names.len()
    &&& forall|i: int| 0 <= i < v.remaining.len() ==> (#[trigger] v.remaining[i]) < v.names.len()
    &&& (v.selected + v.remaining).no_duplicates()
    &&& forall|k: usize|
        (k as int) < v.names.len() ==> #[trigger] v.selected.contains(k) || v.remaining.contains(k)
}

/// The state in which a selection over `names` starts, taking `k` of them.
pub open spec fn initial_view(names: Seq<Seq<char>>, k: Option<usize>) -> SelectionView {
    SelectionView {
        names,
        target: target_count(names.len(), k),
        selected: Seq::empty(),
        scores: Seq::empty(),
        remaining: Seq::new(names.len(), |i: int| i as usize),
    }
}

/// The state after the waiting candidate at position `p` is taken with score bits `bits[p]`.
pub open spec fn after_pick(v: SelectionView, bits: Seq<u64>, p: int) -> SelectionView {
    SelectionView {
        names: v.names,
        target: v.target,
        selected: v.selected.push(v.remaining[p]),
        scores: v.scores.push(bits[p]),
        remaining: v.remaining.remove(p),
    }
}

/// The position of the best waiting candidate under the scores `bits`.
pub open spec fn best_position(v: SelectionView, bits: Seq<u64>) -> int {
    if exists|p: int| is_best(v.names, v.remaining, bits, p) {
        choose|p: int| is_best(v.names, v.remaining, bits, p)
    } else {
        0
    }
}

/// One round of the selection: the best waiting candidate is taken.
pub open spec fn step_view(v: SelectionView, bits: Seq<u64>) -> SelectionView {
    after_pick(v, bits, best_position(v, bits))
}

/// The state after a run of rounds, `rounds[i]` holding the score bits of the
/// candidates waiting in round `i`; rounds past the end of the selection are ignored.
pub open spec fn run_view(v: SelectionView, rounds: Seq<Seq<u64>>) -> SelectionView
    decreases rounds.len(),
{
    if rounds.len() == 0 || v.selected.len() >= v.target {
        v
    } else {
        run_view(step_view(v, rounds[0]), rounds.drop_first())
    }
}

impl Selection {
    /// The state is that of a selection: see `view_wf`.
    pub open spec fn wf(&self) -> bool {
        view_wf(self@)
    }

    /// The selection is over: as many candidates are taken as were asked for.
    pub open spec fn done(&self) -> bool {
        self@.selected.len() == self@.target
    }

    /// Starts a selection over the candidates of `dataset`, taking
    /// `num_features` of them, or all when it is `None`.
    pub fn new(dataset: &Dataset, num_features: Option<usize>) -> (r: Result<Selection, MrmrError>)
        requires
            dataset.wf(),
        ensures
            match r {
                Err(e) => e == MrmrError::InvalidFeatureCount && (num_features == Some(0usize)
                    || dataset@.features.len() == 0),
                Ok(s) => {
                    &&& num_features != Some(0usize)
                    &&& dataset@.features.len() > 0
                    &&& s.wf()
                    &&& s@ == initial_view(dataset@.features, num_features)
                    &&& s@.target > 0
                },
            },
    {
        let features = dataset.features();
        let n = features.len();
        if n == 0 {
            return Err(MrmrError::InvalidFeatureCount);
        }
        let target = match num_features {
            Some(k) => {
                if k == 0 {
                    return Err(MrmrError::InvalidFeatureCount);
                }
                if k < n {
                    k
                } else {
                    n
                }
            },
            None => n,
        };
        let mut names: Vec<String> = Vec::new();
        let mut remaining: Vec<usize> = Vec::new();
        let mut i: usize = 0;
        while i < n
            invariant
                n == features@.len(),
                i <= n,
                names@.len() == i,
                remaining@ == Seq::new(i as nat, |j: int| j as usize),
                forall|j: int| 0 <= j < i ==> (#[trigger] names@[j])@ == features@[j]@,
            decreases n - i,
        {
            names.push(features[i].clone());
            remaining.push(i);
            proof {
                assert(remaining@ =~= Seq::new((i + 1) as nat, |j: int| j as usize));
            }
            i += 1;
        }
        let s = Selection { names, target, selected: Vec::new(), scores: Vec::new(), remaining };
        proof {
            assert(views(s.names@) =~= views(features@));
            assert(s@.remaining =~= initial_view(dataset@.features, num_features).remaining);
            assert(s@ =~= initial_view(dataset@.features, num_features));
            lemma_initial_wf(dataset@.features, num_features);
        }
        Ok(s)
    }

    /// Whether the selection is over.
    pub fn is_done(&self) -> (r: bool)
        ensures
            r == self.done(),
    {
        self.selected.len() == self.target
    }

    /// The candidates still waiting, as positions among the candidates, in
    /// candidate order; `take_best` expects one score for each, in this order.
    pub fn remaining(&self) -> (r: &Vec<usize>)
        ensures
            r@ == self@.remaining,
    {
        &self.remaining
    }

    /// The candidates taken so far, in the order they were taken.
    pub fn selected(&self) -> (r: &Vec<usize>)
        ensures
            r@ == self@.selected,
    {
        &self.selected
    }

    /// The candidate taken last, if any.
    pub fn last_selected(&self) -> (r: Option<usize>)
        ensures
            r == (if self@.selected.len() == 0 {
                None
            } else {
                Some(self@.selected.last())
            }),
    {
        if self.selected.len() == 0 {
            None
        } else {
            Some(self.selected[self.selected.len() - 1])
        }
    }

    /// Takes the waiting candidate with the highest score, the one with the
    /// smallest name among equal scores. `bits[q]` is the IEEE-754 bit pattern
    /// of the score of the candidate `remaining()[q]`. Returns the candidate taken.
    pub fn take_best(&mut self, bits: &Vec<u64>) -> (pick: usize)
        requires
            old(self).wf(),
            !old(self).done(),
            bits@.len() == old(self)@.remaining.len(),
        ensures
            final(self).wf(),
            exists|p: int|
                {
                    &&& #[trigger] is_best(old(self)@.names, old(self)@.remaining, bits@, p)
                    &&& pick == old(self)@.remaining[p]
                    &&& final(self)@.remaining == old(self)@.remaining.remove(p)
                    &&& final(self)@.scores == old(self)@.scores.push(bits@[p])
                },
            final(self)@ == step_view(old(self)@, bits@),
            final(self)@.selected == old(self)@.selected.push(pick),
            final(self)@.names == old(self)@.names,
            final(self)@.target == old(self)@.target,
    {
        let ghost v = self@;
        proof {
            lemma_waiting_distinct(*self);
        }
        let p = get_max_value(&self.names, &self.remaining, bits);
        let pick = self.remaining.remove(p);
        self.selected.push(pick);
        self.scores.push(bits[p]);
        proof {
            assert(self@ =~= after_pick(v, bits@, p as int));
            lemma_after_pick_wf(v, bits@, p as int);
            let q = best_position(v, bits@);
            assert(is_best(v.names, v.remaining, bits@, q));
            lemma_best_unique(v.names, v.remaining, bits@, p as int, q);
        }
        pick
    }

    /// The names of the features taken, in the order they were taken, each
    /// with the bits of the score it was taken with.
    pub fn ranking(&self) -> (r: Vec<(String, u64)>)
        requires
            self.wf(),
        ensures
            r@.len() == self@.selected.len(),
            forall|i: int|
                0 <= i < r@.len() ==> (#[trigger] r@[i]).0@ == self@.names[self@.selected[i] as int] && r@[i].1
                    == self@.scores[i],
    {
        let mut out: Vec<(String, u64)> = Vec::new();
        let mut i: usize = 0;
        while i < self.selected.len()
            invariant
                self.wf(),
                i <= self@.selected.len(),
                out@.len() == i,
                forall|j: int|
                    0 <= j < i ==> (#[trigger] out@[j]).0@ == self@.names[self@.selected[j] as int] && out@[j].1
                        == self@.scores[j],
            decreases self@.selected.len() - i,
        {
            let c = self.selected[i];
            assert(views(self.names@)[c as int] == self.names@[c as int]@);
            out.push((self.names[c].clone(), self.scores[i]));
            i += 1;
        }
        out
    }
}

/// The starting state of a selection over distinct names is well formed.
proof fn lemma_initial_wf(names: Seq<Seq<char>>, k: Option<usize>)
    requires
        names.no_duplicates(),
        names.len() <= usize::MAX,
    ensures
        view_wf(initial_view(names, k)),
{
    let v = initial_view(names, k);
    assert(v.selected + v.remaining =~= v.remaining);
    assert forall|c: usize| (c as int) < v.names.len() implies #[trigger] v.selected.contains(c) || v.remaining.contains(c) by {
        assert(v.remaining[c as int] == c);
    }
}

/// Taking any waiting candidate from a well-formed unfinished state keeps it well formed.
proof fn lemma_after_pick_wf(v: SelectionView, bits: Seq<u64>, p: int)
    requires
        view_wf(v),
        v.selected.len() < v.target,
        0 <= p < v.remaining.len(),
    ensures
        view_wf(after_pick(v, bits, p)),
{
    let w = after_pick(v, bits, p);
    let all_old = v.selected + v.remaining;
    let all_new = w.selected + w.remaining;
    assert forall|i: int| 0 <= i < w.remaining.len() implies (#[trigger] w.remaining[i]) < w.names.len() by {
        if i < p {
            assert(w.remaining[i] == v.remaining[i]);
        } else {
            assert(w.remaining[i] == v.remaining[i + 1]);
        }
    }
    // every element of the new sequence is the old one at a known place
    assert forall|i: int| 0 <= i < all_new.len() implies #[trigger] all_new[i] == all_old[old_place(
        v.selected.len() as int,
        p,
        i,
    )] by {
        let m = v.selected.len() as int;
        if i < m {
        } else if i == m {
            assert(all_old[m + p] == v.remaining[p]);
        } else if i - m - 1 < p {
            assert(all_new[i] == w.remaining[i - m - 1]);
            assert(w.remaining[i - m - 1] == v.remaining[i - m - 1]);
        } else {
            assert(all_new[i] == w.remaining[i - m - 1]);
            assert(w.remaining[i - m - 1] == v.remaining[i - m]);
        }
    }
    assert forall|i: int, j: int| 0 <= i < all_new.len() && 0 <= j < all_new.len() && i != j implies all_new[i]
        != all_new[j] by {
        let m = v.selected.len() as int;
        assert(all_new[i] == all_old[old_place(m, p, i)]);
        assert(all_new[j] == all_old[old_place(m, p, j)]);
    }
    assert forall|k: usize| (k as int) < w.names.len() implies #[trigger] w.selected.contains(k) || w.remaining.contains(
        k,
    ) by {
        if v.selected.contains(k) {
            let i = choose|i: int| 0 <= i < v.selected.len() && v.selected[i] == k;
            assert(w.selected[i] == k);
        } else {
            assert(v.remaining.contains(k));
            let i = choose|i: int| 0 <= i < v.remaining.len() && v.remaining[i] == k;
            if i == p {
                assert(w.selected[v.selected.len() as int] == k);
            } else if i < p {
                assert(w.remaining[i] == k);
            } else {
                assert(w.remaining[i - 1] == k);
            }
        }
    }
}

/// Where the entry at `i` of the taken-then-waiting sequence stood before the
/// waiting entry at `p` was taken, with `m` taken before.
spec fn old_place(m: int, p: int, i: int) -> int {
    if i < m {
        i
    } else if i == m {
        m + p
    } else if i - m - 1 < p {
        i - 1
    } else {
        i
    }
}

/// The waiting candidates of a well-formed selection carry distinct names.
proof fn lemma_waiting_distinct(s: Selection)
    requires
        s.wf(),
    ensures
        distinct_candidates(s@.names, s@.remaining),
{
    let v = s@;
    let all = v.selected + v.remaining;
    assert forall|p: int, q: int| 0 <= p < v.remaining.len() && 0 <= q < v.remaining.len() && p != q implies v.names[
        #[trigger] v.remaining[p] as int] != v.names[#[trigger] v.remaining[q] as int] by {
        assert(all[v.selected.len() + p] == v.remaining[p]);
        assert(all[v.selected.len() + q] == v.remaining[q]);
    }
}

/// In the first round nothing is taken yet, so every candidate of the
/// dataset is waiting: the candidate that `take_best` picks on the relevance
/// scores is preferred to every other candidate.
pub proof fn lemma_first_pick_optimal(s: Selection, bits: Seq<u64>, p: int)
    requires
        s.wf(),
        s@.selected.len() == 0,
        is_best(s@.names, s@.remaining, bits, p),
    ensures
        forall|c: usize| (c as int) < s@.names.len() ==> #[trigger] s@.remaining.contains(c),
        forall|q: int|
            0 <= q < s@.names.len() && q != p ==> #[trigger] prefers(
                s@.names[s@.remaining[p] as int],
                bits[p],
                s@.names[s@.remaining[q] as int],
                bits[q],
            ),
{
    let v = s@;
    assert forall|c: usize| (c as int) < v.names.len() implies #[trigger] v.remaining.contains(c) by {
        assert(v.selected.contains(c) || v.remaining.contains(c));
    }
}

/// Once a selection is over it holds as many features as were asked for,
/// capped at the number of candidates.
pub proof fn lemma_selection_size(s: Selection)
    requires
        s.wf(),
        s.done(),
    ensures
        s@.selected.len() == s@.target,
        s@.target <= s@.names.len(),
{
}

/// The features taken are distinct candidates with distinct names; once all
/// candidates are taken, every candidate has been taken exactly once.
pub proof fn lemma_selected_distinct(v: SelectionView)
    requires
        view_wf(v),
    ensures
        v.selected.no_duplicates(),
        forall|i: int| 0 <= i < v.selected.len() ==> (#[trigger] v.selected[i]) < v.names.len(),
        forall|i: int, j: int|
            0 <= i < v.selected.len() && 0 <= j < v.selected.len() && i != j ==> v.names[#[trigger] v.selected[i] as int]
                != v.names[#[trigger] v.selected[j] as int],
        v.selected.len() == v.target && v.target == v.names.len() ==> {
            &&& v.remaining.len() == 0
            &&& forall|k: usize| (k as int) < v.names.len() ==> #[trigger] v.selected.contains(k)
        },
{
    let all = v.selected + v.remaining;
    assert forall|i: int, j: int| 0 <= i < v.selected.len() && 0 <= j < v.selected.len() && i != j implies v.selected[i]
        != v.selected[j] by {
        assert(all[i] == v.selected[i]);
        assert(all[j] == v.selected[j]);
    }
    if v.selected.len() == v.target && v.target == v.names.len() {
        assert forall|k: usize| (k as int) < v.names.len() implies #[trigger] v.selected.contains(k) by {
            assert(v.selected.contains(k) || v.remaining.contains(k));
        }
    }
}

/// A run of at least as many rounds as are still to be taken ends with the
/// selection over and well formed.
proof fn lemma_run(v: SelectionView, rounds: Seq<Seq<u64>>)
    requires
        view_wf(v),
        rounds.len() + v.selected.len() >= v.target,
    ensures
        view_wf(run_view(v, rounds)),
        run_view(v, rounds).selected.len() == v.target,
        run_view(v, rounds).names == v.names,
    decreases rounds.len(),
{
    if rounds.len() > 0 && v.selected.len() < v.target {
        let p = best_position(v, rounds[0]);
        if exists|q: int| is_best(v.names, v.remaining, rounds[0], q) {
            assert(is_best(v.names, v.remaining, rounds[0], p));
        }
        lemma_after_pick_wf(v, rounds[0], p);
        lemma_run(step_view(v, rounds[0]), rounds.drop_first());
    }
}

/// A whole selection over distinct candidate names, taking `k` of them (all
/// when `k` is `None`), run for as many rounds as features are asked for,
/// whatever the scores of each round: it takes exactly min(k, number of
/// candidates) features, each a different candidate with a different name,
/// and with every candidate once when all are asked for.
pub proof fn lemma_full_run(names: Seq<Seq<char>>, k: Option<usize>, rounds: Seq<Seq<u64>>)
    requires
        names.no_duplicates(),
        0 < names.len() <= usize::MAX,
        k != Some(0usize),
        rounds.len() >= target_count(names.len(), k),
    ensures
        ({
            let r = run_view(initial_view(names, k), rounds);
            &&& r.names == names
            &&& r.selected.len() == target_count(names.len(), k)
            &&& r.selected.no_duplicates()
            &&& forall|i: int| 0 <= i < r.selected.len() ==> (#[trigger] r.selected[i]) < names.len()
            &&& forall|i: int, j: int|
                0 <= i < r.selected.len() && 0 <= j < r.selected.len() && i != j ==> names[#[trigger] r.selected[i] as int]
                    != names[#[trigger] r.selected[j] as int]
            &&& target_count(names.len(), k) == names.len() ==> forall|c: usize|
                (c as int) < names.len() ==> #[trigger] r.selected.contains(c)
        }),
{
    lemma_initial_wf(names, k);
    lemma_run(initial_view(names, k), rounds);
    lemma_selected_distinct(run_view(initial_view(names, k), rounds));
}

} // verus!
