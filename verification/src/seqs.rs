//! What a filter keeps of a sequence.

use vstd::prelude::*;

verus! {

/// The filter of a sequence of one item.
pub proof fn lemma_filter_one<A>(x: A, pred: spec_fn(A) -> bool)
    ensures
        seq![x].filter(pred) == (if pred(x) {
            seq![x]
        } else {
            Seq::<A>::empty()
        }),
{
    reveal_with_fuel(Seq::filter, 3);
    assert(seq![x].drop_last() =~= Seq::<A>::empty());
    assert(seq![x].last() == x);
    assert(Seq::<A>::empty().push(x) =~= seq![x]);
}

/// What a filter keeps of a sequence: the items that pass; and where nothing
/// occurs twice in the sequence, nothing occurs twice in what is kept.
pub proof fn lemma_filter_keeps<A>(s: Seq<A>, pred: spec_fn(A) -> bool)
    ensures
        forall|x: A| #[trigger] s.filter(pred).contains(x) <==> s.contains(x) && pred(x),
        s.no_duplicates() ==> s.filter(pred).no_duplicates(),
    decreases s.len(),
{
    reveal(Seq::filter);
    if s.len() > 0 {
        let front = s.drop_last();
        let last = s.last();
        let n = front.len() as int;
        lemma_filter_keeps(front, pred);
        let kept = front.filter(pred);
        let out = s.filter(pred);
        assert(out == if pred(last) { kept.push(last) } else { kept });
        assert forall|x: A| #[trigger] out.contains(x) <==> s.contains(x) && pred(x) by {
            if out.contains(x) {
                let k = choose|k: int| 0 <= k < out.len() && out[k] == x;
                if k < kept.len() {
                    assert(kept[k] == x);
                    assert(kept.contains(x));
                    assert(front.contains(x) && pred(x));
                    let f = choose|f: int| 0 <= f < front.len() && front[f] == x;
                    assert(s[f] == x);
                } else {
                    assert(pred(last) && k == kept.len());
                    assert(s[n] == x);
                }
            }
            if s.contains(x) && pred(x) {
                let k = choose|k: int| 0 <= k < s.len() && s[k] == x;
                if k == n {
                    assert(out[kept.len() as int] == x);
                } else {
                    assert(front[k] == x);
                    assert(front.contains(x));
                    assert(kept.contains(x));
                    let m = choose|m: int| 0 <= m < kept.len() && kept[m] == x;
                    assert(out[m] == x);
                }
            }
        }
        if s.no_duplicates() {
            assert forall|a: int, b: int|
                0 <= a < front.len() && 0 <= b < front.len() && a != b implies front[a]
                != front[b] by {
                assert(front[a] == s[a] && front[b] == s[b]);
            }
            if pred(last) {
                if kept.contains(last) {
                    assert(front.contains(last));
                    let f = choose|f: int| 0 <= f < front.len() && front[f] == last;
                    assert(s[f] == last && s[n] == last);
                }
                assert forall|a: int, b: int|
                    0 <= a < out.len() && 0 <= b < out.len() && a != b implies out[a] != out[b] by {
                    if a < kept.len() {
                        assert(out[a] == kept[a]);
                        assert(kept.contains(kept[a]));
                    }
                    if b < kept.len() {
                        assert(out[b] == kept[b]);
                        assert(kept.contains(kept[b]));
                    }
                }
            }
        }
    }
}

/// A filter that every item passes changes nothing.
pub proof fn lemma_filter_all<A>(s: Seq<A>, pred: spec_fn(A) -> bool)
    requires
        forall|k: int| 0 <= k < s.len() ==> pred(#[trigger] s[k]),
    ensures
        s.filter(pred) == s,
    decreases s.len(),
{
    reveal(Seq::filter);
    if s.len() > 0 {
        lemma_filter_all(s.drop_last(), pred);
        assert(s.drop_last().push(s.last()) =~= s);
    }
}

/// To filter twice is to filter once by both conditions.
pub proof fn lemma_filter_twice<A>(
    s: Seq<A>,
    first: spec_fn(A) -> bool,
    second: spec_fn(A) -> bool,
    both: spec_fn(A) -> bool,
)
    requires
        forall|x: A| #[trigger] both(x) == (first(x) && second(x)),
    ensures
        s.filter(first).filter(second) == s.filter(both),
    decreases s.len(),
{
    reveal(Seq::filter);
    if s.len() > 0 {
        lemma_filter_twice(s.drop_last(), first, second, both);
        let x = s.last();
        if first(x) {
            let kept = s.drop_last().filter(first);
            assert(kept.push(x).drop_last() =~= kept);
        }
    }
}

/// Two filters that pass the same items of a sequence keep the same.
pub proof fn lemma_filter_same<A>(s: Seq<A>, first: spec_fn(A) -> bool, second: spec_fn(A) -> bool)
    requires
        forall|k: int| 0 <= k < s.len() ==> first(#[trigger] s[k]) == second(s[k]),
    ensures
        s.filter(first) == s.filter(second),
    decreases s.len(),
{
    reveal(Seq::filter);
    if s.len() > 0 {
        let front = s.drop_last();
        assert forall|k: int| 0 <= k < front.len() implies first(#[trigger] front[k]) == second(
            front[k],
        ) by {
            assert(front[k] == s[k]);
        }
        lemma_filter_same(front, first, second);
        assert(s.last() == s[s.len() - 1]);
    }
}

} // verus!
