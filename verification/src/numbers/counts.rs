//! Counting the values of a sequence.
use vstd::prelude::*;

verus! {

broadcast use vstd::laws_cmp::group_laws_cmp;

/// Counting each value of `ts`.
pub open spec fn count_values(ts: Seq<u64>) -> Map<u64, usize>
    decreases ts.len(),
{
    if ts.len() == 0 {
        Map::empty()
    } else {
        let m = count_values(ts.drop_last());
        let k = ts.last();
        m.insert(
            k,
            if m.contains_key(k) {
                (m[k] + 1) as usize
            } else {
                1
            },
        )
    }
}

/// Every count of `count_values(ts)` is at most the length of `ts`.
pub proof fn lemma_count_bound(ts: Seq<u64>)
    requires
        ts.len() <= usize::MAX,
    ensures
        forall|k: u64| #[trigger] count_values(ts).contains_key(k) ==> count_values(ts)[k] <= ts.len(),
    decreases ts.len(),
{
    if ts.len() > 0 {
        let prev = ts.drop_last();
        lemma_count_bound(prev);
        let m = count_values(prev);
        let k = ts.last();
        assert forall|x: u64| #[trigger] count_values(ts).contains_key(x) implies count_values(ts)[x] <= ts.len() by {
            if x == k {
                if m.contains_key(k) {
                    assert(m[k] <= prev.len());
                    assert((m[k] + 1) as usize == m[k] + 1);
                }
            } else {
                assert(m.contains_key(x));
            }
        }
    }
}

/// Law: the counts name exactly the values that occur in `ts`, each with
/// the number of its occurrences, which is at least one.
pub proof fn lemma_count_values(ts: Seq<u64>, k: u64)
    requires
        ts.len() <= usize::MAX,
    ensures
        count_values(ts).contains_key(k) <==> ts.contains(k),
        count_values(ts).contains_key(k) ==> count_values(ts)[k] == ts.filter(|x: u64| x == k).len()
            && count_values(ts)[k] >= 1,
        !ts.contains(k) ==> ts.filter(|x: u64| x == k).len() == 0,
    decreases ts.len(),
{
    reveal(Seq::filter);
    if ts.len() > 0 {
        let prev = ts.drop_last();
        let pred = |x: u64| x == k;
        assert(ts.filter(pred) == if pred(ts.last()) {
            prev.filter(pred).push(ts.last())
        } else {
            prev.filter(pred)
        });
        lemma_count_values(prev, k);
        lemma_count_bound(prev);
        let m = count_values(prev);
        if prev.contains(k) {
            let w = choose|w: int| 0 <= w < prev.len() && prev[w] == k;
            assert(ts[w] == k);
        }
        if ts.last() == k {
            assert(ts[ts.len() - 1] == k);
            if m.contains_key(k) {
                assert(m[k] <= prev.len());
            }
        } else if ts.contains(k) {
            let w = choose|w: int| 0 <= w < ts.len() && ts[w] == k;
            assert(w < ts.len() - 1);
            assert(prev[w] == k);
        }
    }
}

/// Counts the values of `ts`.
pub fn count_ids(ts: &Vec<u64>) -> (r: std::collections::BTreeMap<u64, usize>)
    ensures
        r@ == count_values(ts@),
{
    let mut m: std::collections::BTreeMap<u64, usize> = std::collections::BTreeMap::new();
    let mut i: usize = 0;
    while i < ts.len()
        invariant
            i <= ts@.len(),
            m@ == count_values(ts@.take(i as int)),
        decreases ts.len() - i,
    {
        assert(ts@.take(i + 1).drop_last() =~= ts@.take(i as int));
        proof {
            lemma_count_bound(ts@.take(i as int));
        }
        let k = ts[i];
        let c: usize = match m.get(&k) {
            Some(v) => *v + 1,
            None => 1,
        };
        m.insert(k, c);
        i = i + 1;
    }
    assert(ts@.take(ts@.len() as int) =~= ts@);
    m
}

} // verus!
