use vstd::prelude::*;

verus! {

/// The distinct elements of `s`, each once, in the order of their first occurrence.
pub open spec fn distinct_in_order<T>(s: Seq<T>) -> Seq<T>
    decreases s.len(),
{
    if s.len() == 0 {
        Seq::empty()
    } else {
        let d = distinct_in_order(s.drop_last());
        if d.contains(s.last()) {
            d
        } else {
            d.push(s.last())
        }
    }
}

/// The number of positions of `s` that hold `x`.
pub open spec fn count_in<T>(s: Seq<T>, x: T) -> nat
    decreases s.len(),
{
    if s.len() == 0 {
        0
    } else {
        count_in(s.drop_last(), x) + if s.last() == x {
            1nat
        } else {
            0nat
        }
    }
}

/// `distinct_in_order` holds no element twice and holds exactly the elements of `s`.
pub proof fn lemma_distinct_in_order<T>(s: Seq<T>)
    ensures
        distinct_in_order(s).no_duplicates(),
        forall|x: T| distinct_in_order(s).contains(x) <==> s.contains(x),
    decreases s.len(),
{
    if s.len() > 0 {
        let p = s.drop_last();
        let y = s.last();
        let d = distinct_in_order(p);
        lemma_distinct_in_order(p);
        assert forall|x: T| s.contains(x) <==> (p.contains(x) || x == y) by {
            if s.contains(x) {
                let i = choose|i: int| 0 <= i < s.len() && s[i] == x;
                if i < s.len() - 1 {
                    assert(p[i] == x);
                }
            }
            if p.contains(x) {
                let i = choose|i: int| 0 <= i < p.len() && p[i] == x;
                assert(s[i] == x);
            }
            if x == y {
                assert(s[s.len() - 1] == x);
            }
        }
        if !d.contains(y) {
            let e = d.push(y);
            assert forall|x: T| e.contains(x) <==> (d.contains(x) || x == y) by {
                if e.contains(x) {
                    let i = choose|i: int| 0 <= i < e.len() && e[i] == x;
                    if i < d.len() {
                        assert(d[i] == x);
                    }
                }
                if d.contains(x) {
                    let i = choose|i: int| 0 <= i < d.len() && d[i] == x;
                    assert(e[i] == x);
                }
                if x == y {
                    assert(e[d.len() as int] == x);
                }
            }
            assert forall|i: int, j: int| 0 <= i < e.len() && 0 <= j < e.len() && i != j implies e[i] != e[j] by {
                if i < d.len() && j < d.len() {
                    assert(d[i] != d[j]);
                } else if i < d.len() {
                    assert(d.contains(e[i]));
                } else if j < d.len() {
                    assert(d.contains(e[j]));
                }
            }
        }
    }
}

/// An occurrence count never exceeds the length of the sequence.
pub proof fn lemma_count_in_bound<T>(s: Seq<T>, x: T)
    ensures
        count_in(s, x) <= s.len(),
    decreases s.len(),
{
    if s.len() > 0 {
        lemma_count_in_bound(s.drop_last(), x);
    }
}

/// Pushing one element onto a prefix of `s` extends the prefix by one.
pub(crate) proof fn lemma_take_push<T>(s: Seq<T>, i: int)
    requires
        0 <= i < s.len(),
    ensures
        s.take(i + 1).drop_last() == s.take(i),
        s.take(i + 1).last() == s[i],
        s.take(i).push(s[i]) == s.take(i + 1),
{
    assert(s.take(i + 1).drop_last() =~= s.take(i));
    assert(s.take(i).push(s[i]) =~= s.take(i + 1));
}

/// Appending one element: the two recursive definitions unfold once.
pub(crate) proof fn lemma_push_unfold<T>(s: Seq<T>, y: T)
    ensures
        distinct_in_order(s.push(y)) == (if distinct_in_order(s).contains(y) {
            distinct_in_order(s)
        } else {
            distinct_in_order(s).push(y)
        }),
        forall|x: T| #[trigger] count_in(s.push(y), x) == count_in(s, x) + if y == x {
            1nat
        } else {
            0nat
        },
{
    assert(s.push(y).drop_last() =~= s);
}

} // verus!
