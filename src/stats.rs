use vstd::prelude::*;
use crate::seqs::{count_in, distinct_in_order, lemma_count_in_bound, lemma_distinct_in_order, lemma_push_unfold, lemma_take_push};

verus! {

/// The character sequences of a sequence of strings.
pub open spec fn views(v: Seq<String>) -> Seq<Seq<char>> {
    v.map_values(|s: String| s@)
}

/// Value and frequency table of one categorical column.
///
/// `values` lists each observed value once, in order of first occurrence;
/// `counts[v]` is how often `values[v]` occurs; `codes[i]` is the position in
/// `values` of the value at row `i`.
pub struct FeatureStats {
    pub values: Vec<String>,
    pub counts: Vec<usize>,
    pub codes: Vec<usize>,
}

impl FeatureStats {
    /// The three tables agree: every code names a value and every count counts its code.
    pub open spec fn wf(&self) -> bool {
        &&& self.counts@.len() == self.values@.len()
        &&& forall|i: int| 0 <= i < self.codes@.len() ==> (#[trigger] self.codes@[i]) < self.values@.len()
        &&& forall|v: usize|
            v < self.values@.len() ==> #[trigger] count_in(self.codes@, v) == self.counts@[v as int]
    }

    /// This table is the value and frequency table of the column `raw`.
    pub open spec fn describes(&self, raw: Seq<Seq<char>>) -> bool {
        &&& views(self.values@) == distinct_in_order(raw)
        &&& self.counts@.len() == self.values@.len()
        &&& self.codes@.len() == raw.len()
        &&& forall|i: int|
            0 <= i < raw.len() ==> {
                &&& (#[trigger] self.codes@[i]) < self.values@.len()
                &&& self.values@[self.codes@[i] as int]@ == raw[i]
            }
        &&& forall|v: int|
            0 <= v < self.values@.len() ==> {
                &&& #[trigger] self.counts@[v] == count_in(raw, self.values@[v]@)
                &&& self.counts@[v] > 0
            }
        &&& forall|v: usize|
            v < self.values@.len() ==> #[trigger] count_in(self.codes@, v) == self.counts@[v as int]
    }
}

/// The position of the first entry of `values` equal to `x`, if any.
fn position_of(values: &Vec<String>, x: &String) -> (r: Option<usize>)
    ensures
        match r {
            Some(j) => j < values@.len() && values@[j as int]@ == x@,
            None => forall|j: int| 0 <= j < values@.len() ==> values@[j]@ != x@,
        },
{
    let mut j: usize = 0;
    while j < values.len()
        invariant
            j <= values@.len(),
            forall|k: int| 0 <= k < j ==> values@[k]@ != x@,
        decreases values@.len() - j,
    {
        if values[j] == *x {
            return Some(j);
        }
        j += 1;
    }
    None
}

/// Counts how often each value occurs in a column.
pub fn get_feature_data(target_feature: &Vec<String>) -> (r: FeatureStats)
    ensures
        r.describes(views(target_feature@)),
{
    let ghost raw = views(target_feature@);
    let mut values: Vec<String> = Vec::new();
    let mut counts: Vec<usize> = Vec::new();
    let mut codes: Vec<usize> = Vec::new();
    let n = target_feature.len();
    let mut i: usize = 0;
    while i < n
        invariant
            n == target_feature@.len(),
            raw == views(target_feature@),
            i <= n,
            views(values@) == distinct_in_order(raw.take(i as int)),
            counts@.len() == values@.len(),
            codes@.len() == i,
            forall|k: int|
                0 <= k < i ==> {
                    &&& (#[trigger] codes@[k]) < values@.len()
                    &&& values@[codes@[k] as int]@ == raw[k]
                },
            forall|v: int|
                0 <= v < values@.len() ==> {
                    &&& #[trigger] counts@[v] == count_in(raw.take(i as int), values@[v]@)
                    &&& counts@[v] > 0
                },
            forall|v: usize| v < values@.len() ==> #[trigger] count_in(codes@, v) == counts@[v as int],
        decreases n - i,
    {
        let x = &target_feature[i];
        proof {
            lemma_take_push(raw, i as int);
            lemma_push_unfold(raw.take(i as int), raw[i as int]);
            lemma_distinct_in_order(raw.take(i as int));
            assert(raw[i as int] == x@);
        }
        let ghost old_values = values@;
        let ghost old_counts = counts@;
        let ghost old_codes = codes@;
        match position_of(&values, x) {
            Some(j) => {
                assert(distinct_in_order(raw.take(i as int)).contains(x@)) by {
                    assert(views(values@)[j as int] == x@);
                }
                proof {
                    lemma_count_in_bound(codes@, j);
                }
                let c = counts[j];
                counts.set(j, c + 1);
                codes.push(j);
                proof {
                    lemma_push_unfold(old_codes, j);
                    assert forall|v: int| 0 <= v < values@.len() implies {
                        &&& #[trigger] counts@[v] == count_in(raw.take(i + 1), values@[v]@)
                        &&& counts@[v] > 0
                    } by {
                        if v != j {
                            assert(views(values@)[v] == values@[v]@);
                            assert(views(values@)[j as int] == values@[j as int]@);
                            assert(old_counts[v] == counts@[v]);
                        }
                    }
                    assert forall|v: usize| v < values@.len() implies #[trigger] count_in(codes@, v) == counts@[v as int] by {
                        assert(count_in(old_codes, v) == old_counts[v as int]);
                    }
                }
            },
            None => {
                assert(!distinct_in_order(raw.take(i as int)).contains(x@)) by {
                    if distinct_in_order(raw.take(i as int)).contains(x@) {
                        let k = choose|k: int| 0 <= k < views(values@).len() && views(values@)[k] == x@;
                        assert(values@[k]@ == x@);
                    }
                }
                let j = values.len();
                values.push(x.clone());
                counts.push(1);
                codes.push(j);
                proof {
                    lemma_push_unfold(old_codes, j);
                    assert(views(values@) =~= views(old_values).push(x@));
                    assert forall|k: int| 0 <= k < i implies old_codes[k] != j by {
                        assert(old_codes[k] < old_values.len());
                    }
                    assert(count_in(old_codes, j) == 0) by {
                        if count_in(old_codes, j) > 0 {
                            lemma_count_positive(old_codes, j);
                        }
                    }
                    assert(count_in(raw.take(i as int), x@) == 0) by {
                        if count_in(raw.take(i as int), x@) > 0 {
                            lemma_count_positive(raw.take(i as int), x@);
                        }
                    }
                    assert forall|v: int| 0 <= v < values@.len() implies {
                        &&& #[trigger] counts@[v] == count_in(raw.take(i + 1), values@[v]@)
                        &&& counts@[v] > 0
                    } by {
                        if v != j {
                            assert(views(old_values)[v] == old_values[v]@);
                            assert(old_values[v] == values@[v]);
                            assert(old_counts[v] == counts@[v]);
                        }
                    }
                    assert forall|v: usize| v < values@.len() implies #[trigger] count_in(codes@, v) == counts@[v as int] by {
                        if v != j {
                            assert(count_in(old_codes, v) == old_counts[v as int]);
                        }
                    }
                }
            },
        }
        i += 1;
    }
    proof {
        assert(raw.take(n as int) =~= raw);
    }
    FeatureStats { values, counts, codes }
}

/// An element that is counted at least once occurs somewhere.
pub(crate) proof fn lemma_count_positive<T>(s: Seq<T>, x: T)
    requires
        count_in(s, x) > 0,
    ensures
        s.contains(x),
    decreases s.len(),
{
    if s.last() == x {
        assert(s[s.len() - 1] == x);
    } else {
        lemma_count_positive(s.drop_last(), x);
        let k = choose|k: int| 0 <= k < s.drop_last().len() && s.drop_last()[k] == x;
        assert(s[k] == x);
    }
}

/// One observed pair of values of two columns: the value positions `a` and
/// `b`, how many rows hold the pair, and how many rows hold each value alone.
/// With `n` rows the pair adds `joint/n * log2((joint/n) / ((count_a/n) * (count_b/n)))`
/// to the mutual information of the two columns.
#[derive(Clone, Copy, Debug, PartialEq, Eq)]
pub struct JointTerm {
    pub a: usize,
    pub b: usize,
    pub joint: usize,
    pub count_a: usize,
    pub count_b: usize,
}

/// The pairs of codes that two columns hold row by row.
pub open spec fn zip_codes(ca: Seq<usize>, cb: Seq<usize>) -> Seq<(usize, usize)> {
    Seq::new(ca.len(), |i: int| (ca[i], cb[i]))
}

/// `t` lists each pair of values observed in the same row of the columns of
/// `sa` and `sb` once, in order of first occurrence, with its joint and marginal counts.
pub open spec fn is_joint_table(t: Seq<JointTerm>, sa: FeatureStats, sb: FeatureStats) -> bool {
    let pairs = distinct_in_order(zip_codes(sa.codes@, sb.codes@));
    &&& t.len() == pairs.len()
    &&& forall|k: int|
        0 <= k < t.len() ==> {
            &&& (#[trigger] t[k]).a == pairs[k].0
            &&& t[k].b == pairs[k].1
            &&& t[k].joint == count_in(zip_codes(sa.codes@, sb.codes@), pairs[k])
            &&& t[k].count_a == sa.counts@[pairs[k].0 as int]
            &&& t[k].count_b == sb.counts@[pairs[k].1 as int]
        }
}

/// The position in `t` of the term for the pair `(a, b)`, if any.
fn term_position(t: &Vec<JointTerm>, a: usize, b: usize) -> (r: Option<usize>)
    ensures
        match r {
            Some(k) => k < t@.len() && t@[k as int].a == a && t@[k as int].b == b,
            None => forall|k: int| 0 <= k < t@.len() ==> !(t@[k].a == a && t@[k].b == b),
        },
{
    let mut k: usize = 0;
    while k < t.len()
        invariant
            k <= t@.len(),
            forall|m: int| 0 <= m < k ==> !(t@[m].a == a && t@[m].b == b),
        decreases t@.len() - k,
    {
        if t[k].a == a && t[k].b == b {
            return Some(k);
        }
        k += 1;
    }
    None
}

/// The joint table of two columns of equal length: each observed pair of
/// values with its co-occurrence count and the two marginal counts.
pub fn intersection(sa: &FeatureStats, sb: &FeatureStats) -> (r: Vec<JointTerm>)
    requires
        sa.wf(),
        sb.wf(),
        sa.codes@.len() == sb.codes@.len(),
    ensures
        is_joint_table(r@, *sa, *sb),
{
    let ghost zip = zip_codes(sa.codes@, sb.codes@);
    let n = sa.codes.len();
    let mut t: Vec<JointTerm> = Vec::new();
    let mut i: usize = 0;
    while i < n
        invariant
            sa.wf(),
            sb.wf(),
            n == sa.codes@.len(),
            n == sb.codes@.len(),
            zip == zip_codes(sa.codes@, sb.codes@),
            i <= n,
            t@.len() == distinct_in_order(zip.take(i as int)).len(),
            forall|k: int|
                0 <= k < t@.len() ==> {
                    &&& (#[trigger] t@[k]).a == distinct_in_order(zip.take(i as int))[k].0
                    &&& t@[k].b == distinct_in_order(zip.take(i as int))[k].1
                    &&& t@[k].joint == count_in(zip.take(i as int), distinct_in_order(zip.take(i as int))[k])
                    &&& t@[k].count_a == sa.counts@[t@[k].a as int]
                    &&& t@[k].count_b == sb.counts@[t@[k].b as int]
                },
        decreases n - i,
    {
        let a = sa.codes[i];
        let b = sb.codes[i];
        let ghost d = distinct_in_order(zip.take(i as int));
        let ghost old_t = t@;
        proof {
            lemma_take_push(zip, i as int);
            lemma_push_unfold(zip.take(i as int), (a, b));
            lemma_distinct_in_order(zip.take(i as int));
            assert(zip[i as int] == (a, b));
        }
        match term_position(&t, a, b) {
            Some(k) => {
                assert(d[k as int] == (a, b));
                assert(d.contains((a, b)));
                proof {
                    lemma_count_in_bound(zip.take(i as int), (a, b));
                }
                let mut e = t[k];
                e.joint = e.joint + 1;
                t.set(k, e);
                proof {
                    assert forall|m: int| 0 <= m < t@.len() && m != k implies d[m] != (a, b) by {
                        assert(d[m] != d[k as int]);
                    }
                }
            },
            None => {
                assert(!d.contains((a, b))) by {
                    if d.contains((a, b)) {
                        let m = choose|m: int| 0 <= m < d.len() && d[m] == (a, b);
                        assert(t@[m].a == a && t@[m].b == b);
                    }
                }
                assert(count_in(zip.take(i as int), (a, b)) == 0) by {
                    if count_in(zip.take(i as int), (a, b)) > 0 {
                        lemma_count_positive(zip.take(i as int), (a, b));
                        assert(d.contains((a, b)));
                    }
                }
                let ca = sa.counts[a];
                let cb = sb.counts[b];
                t.push(JointTerm { a, b, joint: 1, count_a: ca, count_b: cb });
                proof {
                    assert forall|m: int| 0 <= m < old_t.len() implies d[m] != (a, b) by {
                        assert(d.contains(d[m]));
                    }
                }
            },
        }
        i += 1;
    }
    proof {
        assert(zip.take(n as int) =~= zip);
    }
    t
}

/// A pair with its two sides exchanged.
pub open spec fn swapped(p: (usize, usize)) -> (usize, usize) {
    (p.1, p.0)
}

/// Every pair of a sequence with its two sides exchanged.
pub open spec fn swap_all(s: Seq<(usize, usize)>) -> Seq<(usize, usize)> {
    s.map_values(|p: (usize, usize)| swapped(p))
}

proof fn lemma_swap_pairs(s: Seq<(usize, usize)>)
    ensures
        distinct_in_order(swap_all(s)) == swap_all(distinct_in_order(s)),
        forall|p: (usize, usize)|
            #[trigger] count_in(swap_all(s), swapped(p)) == count_in(s, p),
    decreases s.len(),
{
    let w = swap_all(s);
    if s.len() == 0 {
        assert(swap_all(distinct_in_order(s)) =~= Seq::empty());
    } else {
        let p = s.drop_last();
        let y = s.last();
        lemma_swap_pairs(p);
        assert(w.drop_last() =~= swap_all(p));
        assert(w.last() == swapped(y));
        let d = distinct_in_order(p);
        let dw = swap_all(d);
        assert(dw.contains(swapped(y)) <==> d.contains(y)) by {
            if dw.contains(swapped(y)) {
                let k = choose|k: int| 0 <= k < dw.len() && dw[k] == swapped(y);
                assert(d[k] == y);
            }
            if d.contains(y) {
                let k = choose|k: int| 0 <= k < d.len() && d[k] == y;
                assert(dw[k] == swapped(y));
            }
        }
        assert(swap_all(d.push(y)) =~= dw.push(swapped(y)));
        assert forall|q: (usize, usize)| #[trigger] count_in(w, swapped(q)) == count_in(s, q) by {
            assert(count_in(p, q) == count_in(swap_all(p), swapped(q)));
            assert((swapped(y) == swapped(q)) == (y == q));
        }
    }
}

/// The joint table of two columns taken in the other order is the same table
/// with the two sides of every entry exchanged, entry for entry. The mutual
/// information summed over it is therefore the same, term for term.
pub proof fn lemma_joint_table_symmetric(sa: FeatureStats, sb: FeatureStats, t_ab: Seq<JointTerm>, t_ba: Seq<JointTerm>)
    requires
        sa.codes@.len() == sb.codes@.len(),
        is_joint_table(t_ab, sa, sb),
        is_joint_table(t_ba, sb, sa),
    ensures
        t_ba.len() == t_ab.len(),
        forall|k: int|
            0 <= k < t_ab.len() ==> #[trigger] t_ba[k] == (JointTerm {
                a: t_ab[k].b,
                b: t_ab[k].a,
                joint: t_ab[k].joint,
                count_a: t_ab[k].count_b,
                count_b: t_ab[k].count_a,
            }),
{
    let z = zip_codes(sa.codes@, sb.codes@);
    assert(zip_codes(sb.codes@, sa.codes@) =~= swap_all(z));
    lemma_swap_pairs(z);
    let d = distinct_in_order(z);
    assert forall|k: int| 0 <= k < t_ab.len() implies #[trigger] t_ba[k] == (JointTerm {
        a: t_ab[k].b,
        b: t_ab[k].a,
        joint: t_ab[k].joint,
        count_a: t_ab[k].count_b,
        count_b: t_ab[k].count_a,
    }) by {
        assert(swap_all(d)[k] == swapped(d[k]));
    }
}

} // verus!
