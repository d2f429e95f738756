//! What the ordering of leaves by depth keeps.

use crate::flat_tree::FlatTreeView;
use vstd::prelude::*;

verus! {

/// `u` stands before `w` in `s`.
pub open spec fn stands_before(s: Seq<int>, u: int, w: int) -> bool {
    exists|i: int, j: int| 0 <= i < j < s.len() && s[i] == u && s[j] == w
}

impl FlatTreeView {
    /// The records of `s` run from deep to shallow.
    pub open spec fn runs_deep_first(self, s: Seq<int>) -> bool {
        forall|a: int, b: int| 0 <= a < b < s.len() ==> self.depth_of(s[a]) >= self.depth_of(s[b])
    }

    /// Where `x` is put into `sorted`: behind the last record that is at
    /// least as deep.
    pub open spec fn place_of(self, sorted: Seq<int>, x: int) -> int
        decreases sorted.len(),
    {
        if sorted.len() == 0 || self.depth_of(sorted.last()) >= self.depth_of(x) {
            sorted.len() as int
        } else {
            self.place_of(sorted.drop_last(), x)
        }
    }

    /// To put `x` in is to insert it at its place: every record behind it is
    /// less deep, and the record before it is at least as deep.
    pub proof fn lemma_place_of(self, sorted: Seq<int>, x: int)
        ensures
            0 <= self.place_of(sorted, x) <= sorted.len(),
            self.placed(sorted, x) == sorted.insert(self.place_of(sorted, x), x),
            forall|k: int|
                self.place_of(sorted, x) <= k < sorted.len() ==> self.depth_of(sorted[k])
                    < self.depth_of(x),
            self.place_of(sorted, x) > 0 ==> self.depth_of(sorted[self.place_of(sorted, x) - 1])
                >= self.depth_of(x),
        decreases sorted.len(),
    {
        if sorted.len() == 0 || self.depth_of(sorted.last()) >= self.depth_of(x) {
            assert(sorted.insert(sorted.len() as int, x) =~= sorted.push(x));
        } else {
            let front = sorted.drop_last();
            self.lemma_place_of(front, x);
            let j = self.place_of(front, x);
            assert(front.insert(j, x).push(sorted.last()) =~= sorted.insert(j, x));
            assert forall|k: int| j <= k < sorted.len() implies self.depth_of(sorted[k])
                < self.depth_of(x) by {
                if k < front.len() {
                    assert(front[k] == sorted[k]);
                }
            }
            if j > 0 {
                assert(front[j - 1] == sorted[j - 1]);
            }
        }
    }

    /// The record that stands at `k` after `x` was put in at `j`.
    pub proof fn lemma_insert_index(sorted: Seq<int>, j: int, x: int, k: int)
        requires
            0 <= j <= sorted.len(),
            0 <= k <= sorted.len(),
        ensures
            sorted.insert(j, x)[k] == (if k < j {
                sorted[k]
            } else if k == j {
                x
            } else {
                sorted[k - 1]
            }),
            sorted.insert(j, x).len() == sorted.len() + 1,
    {
    }

    /// To put a record into the merger of two sequences is to merge the
    /// first with the second into which the record was put.
    pub proof fn lemma_placed_in_merged(self, a: Seq<int>, b: Seq<int>, x: int)
        ensures
            self.placed(self.merged(a, b), x) == self.merged(a, self.placed(b, x)),
        decreases a.len() + b.len(),
    {
        let bx = self.placed(b, x);
        self.lemma_placed_last(b, x);
        if a.len() == 0 {
            // Nothing is merged in.
        } else if b.len() == 0 {
            assert(self.merged(a, b) == a);
            assert(bx == b.push(x));
            assert(bx.drop_last() =~= b);
            if self.depth_of(x) > self.depth_of(a.last()) {
                self.lemma_placed_in_merged(a.drop_last(), b, x);
                assert(self.merged(a.drop_last(), b) == a.drop_last());
                assert(self.merged(a, bx) == self.merged(a.drop_last(), bx).push(a.last()));
            } else {
                assert(self.merged(a, bx) == self.merged(a, b).push(x));
            }
        } else {
            let la = a.last();
            let lb = b.last();
            if self.depth_of(lb) <= self.depth_of(la) {
                let rest = self.merged(a, b.drop_last());
                let s = rest.push(lb);
                assert(self.merged(a, b) == s);
                assert(s.last() == lb);
                assert(s.drop_last() =~= rest);
                if self.depth_of(lb) >= self.depth_of(x) {
                    assert(bx == b.push(x));
                    assert(bx.drop_last() =~= b);
                    assert(self.merged(a, bx) == self.merged(a, b).push(x));
                } else {
                    self.lemma_placed_in_merged(a, b.drop_last(), x);
                    let front = self.placed(b.drop_last(), x);
                    assert(bx == front.push(lb));
                    assert(bx.drop_last() =~= front);
                    assert(self.placed(s, x) == self.placed(rest, x).push(lb));
                    assert(self.merged(a, bx) == self.merged(a, front).push(lb));
                }
            } else {
                let rest = self.merged(a.drop_last(), b);
                let s = rest.push(la);
                assert(self.merged(a, b) == s);
                assert(s.last() == la);
                assert(s.drop_last() =~= rest);
                if self.depth_of(la) >= self.depth_of(x) {
                    assert(bx == b.push(x));
                    assert(bx.drop_last() =~= b);
                    assert(self.merged(a, bx) == self.merged(a, b).push(x));
                } else {
                    self.lemma_placed_in_merged(a.drop_last(), b, x);
                    assert(self.placed(s, x) == self.placed(rest, x).push(la));
                    assert(self.depth_of(bx.last()) > self.depth_of(la));
                    assert(self.merged(a, bx) == self.merged(a.drop_last(), bx).push(la));
                }
            }
        }
    }

    /// What stands last once a record was put in: that record, or the last
    /// from before, where that is less deep.
    pub proof fn lemma_placed_last(self, b: Seq<int>, x: int)
        ensures
            self.placed(b, x).len() == b.len() + 1,
            self.placed(b, x).last() == (if b.len() == 0 || self.depth_of(b.last())
                >= self.depth_of(x) {
                x
            } else {
                b.last()
            }),
        decreases b.len(),
    {
        if !(b.len() == 0 || self.depth_of(b.last()) >= self.depth_of(x)) {
            self.lemma_placed_last(b.drop_last(), x);
        }
    }

    /// To order two sequences, one behind the other, is to order each and
    /// to merge them.
    pub proof fn lemma_by_depth_of_joined(self, a: Seq<int>, b: Seq<int>)
        ensures
            self.by_depth(a + b) == self.merged(self.by_depth(a), self.by_depth(b)),
        decreases b.len(),
    {
        if b.len() == 0 {
            assert(a + b =~= a);
            assert(self.by_depth(b) =~= Seq::<int>::empty());
            let sa = self.by_depth(a);
            assert(self.merged(sa, self.by_depth(b)) == sa);
        } else {
            let front = b.drop_last();
            let x = b.last();
            assert((a + b).drop_last() =~= a + front);
            assert((a + b).last() == x);
            self.lemma_by_depth_of_joined(a, front);
            self.lemma_placed_in_merged(self.by_depth(a), self.by_depth(front), x);
        }
    }

    /// The ordering by depth runs from deep to shallow, and it is as long as
    /// what is ordered.
    pub proof fn lemma_by_depth_runs_deep_first(self, s: Seq<int>)
        ensures
            self.by_depth(s).len() == s.len(),
            self.runs_deep_first(self.by_depth(s)),
        decreases s.len(),
    {
        if s.len() > 0 {
            let x = s.last();
            self.lemma_by_depth_runs_deep_first(s.drop_last());
            let r = self.by_depth(s.drop_last());
            let j = self.place_of(r, x);
            self.lemma_place_of(r, x);
            let out = r.insert(j, x);
            assert forall|a: int, b: int| 0 <= a < b < out.len() implies self.depth_of(out[a])
                >= self.depth_of(out[b]) by {
                Self::lemma_insert_index(r, j, x, a);
                Self::lemma_insert_index(r, j, x, b);
                if a < j && b > j {
                    assert(self.depth_of(r[j - 1]) >= self.depth_of(x));
                }
            }
        }
    }

    /// What the ordering by depth keeps: every record, once each, the deeper
    /// before the shallower, and of two records of one depth the one first
    /// that stands first in `s`.
    pub proof fn lemma_by_depth(self, s: Seq<int>)
        requires
            s.no_duplicates(),
        ensures
            self.by_depth(s).len() == s.len(),
            self.by_depth(s).no_duplicates(),
            forall|x: int| self.by_depth(s).contains(x) <==> s.contains(x),
            self.runs_deep_first(self.by_depth(s)),
            forall|a: int, b: int|
                0 <= a < b < s.len() && self.depth_of(self.by_depth(s)[a]) == self.depth_of(
                    self.by_depth(s)[b],
                ) ==> stands_before(s, self.by_depth(s)[a], self.by_depth(s)[b]),
        decreases s.len(),
    {
        if s.len() > 0 {
            let front = s.drop_last();
            let x = s.last();
            let n = front.len() as int;
            assert forall|a: int, b: int|
                0 <= a < front.len() && 0 <= b < front.len() && a != b implies front[a]
                != front[b] by {
                assert(front[a] == s[a] && front[b] == s[b]);
            }
            self.lemma_by_depth(front);
            let r = self.by_depth(front);
            let j = self.place_of(r, x);
            self.lemma_place_of(r, x);
            let out = r.insert(j, x);
            assert(out == self.by_depth(s));
            assert(!front.contains(x)) by {
                if front.contains(x) {
                    let k = choose|k: int| 0 <= k < front.len() && front[k] == x;
                    assert(s[k] == x && s[n] == x);
                }
            }
            assert forall|k: int| 0 <= k < out.len() implies out[k] == (if k < j {
                r[k]
            } else if k == j {
                x
            } else {
                r[k - 1]
            }) by {
                Self::lemma_insert_index(r, j, x, k);
            }
            assert forall|y: int| out.contains(y) <==> s.contains(y) by {
                if out.contains(y) {
                    let k = choose|k: int| 0 <= k < out.len() && out[k] == y;
                    if k == j {
                        assert(s[n] == y);
                    } else {
                        let m = if k < j { k } else { k - 1 };
                        assert(r[m] == y);
                        assert(r.contains(y));
                        assert(front.contains(y));
                        let f = choose|f: int| 0 <= f < front.len() && front[f] == y;
                        assert(s[f] == y);
                    }
                }
                if s.contains(y) {
                    let k = choose|k: int| 0 <= k < s.len() && s[k] == y;
                    if k == n {
                        assert(out[j] == y);
                    } else {
                        assert(front[k] == y);
                        assert(front.contains(y));
                        assert(r.contains(y));
                        let m = choose|m: int| 0 <= m < r.len() && r[m] == y;
                        if m < j {
                            assert(out[m] == y);
                        } else {
                            assert(out[m + 1] == y);
                        }
                    }
                }
            }
            assert forall|a: int, b: int|
                0 <= a < out.len() && 0 <= b < out.len() && a != b implies out[a] != out[b] by {
                let ma = if a < j { a } else { a - 1 };
                let mb = if b < j { b } else { b - 1 };
                if a != j && b != j {
                    assert(out[a] == r[ma] && out[b] == r[mb]);
                } else if a == j {
                    assert(out[b] == r[mb]);
                    assert(r.contains(r[mb]));
                } else {
                    assert(out[a] == r[ma]);
                    assert(r.contains(r[ma]));
                }
            }
            self.lemma_by_depth_runs_deep_first(s);
            assert forall|a: int, b: int|
                0 <= a < b < s.len() && self.depth_of(out[a]) == self.depth_of(
                    out[b],
                ) implies stands_before(s, out[a], out[b]) by {
                let ma = if a < j { a } else { a - 1 };
                let mb = if b < j { b } else { b - 1 };
                if a != j && b != j {
                    assert(out[a] == r[ma] && out[b] == r[mb]);
                    assert(stands_before(front, r[ma], r[mb]));
                    let (i1, i2) = choose|i1: int, i2: int|
                        0 <= i1 < i2 < front.len() && front[i1] == r[ma] && front[i2] == r[mb];
                    assert(s[i1] == out[a] && s[i2] == out[b]);
                } else if b == j {
                    assert(out[a] == r[ma]);
                    assert(r.contains(r[ma]));
                    assert(front.contains(out[a]));
                    let f = choose|f: int| 0 <= f < front.len() && front[f] == out[a];
                    assert(s[f] == out[a] && s[n] == out[b]);
                } else {
                    assert(out[b] == r[mb]);
                }
            }
        }
    }

    /// The deepest `n` leaves are that many leaves, or all of them where
    /// there are fewer, none twice, the deeper first; and a leaf that is not
    /// among them is no deeper than any of them, and where it is as deep as
    /// one of them, it stands behind that one among the leaves.
    pub proof fn lemma_deepest(self, n: int)
        requires
            0 <= n,
            self.leaves().no_duplicates(),
        ensures
            self.deepest(n).len() == (if n < self.leaves().len() {
                n
            } else {
                self.leaves().len() as int
            }),
            self.deepest(n).no_duplicates(),
            forall|x: int| self.deepest(n).contains(x) ==> self.leaves().contains(x),
            self.runs_deep_first(self.deepest(n)),
            forall|k: int, u: int|
                0 <= k < self.deepest(n).len() && #[trigger] self.leaves().contains(u)
                    && !self.deepest(n).contains(u) ==> self.depth_of(
                    #[trigger] self.deepest(n)[k],
                ) >= self.depth_of(u) && (self.depth_of(self.deepest(n)[k]) == self.depth_of(u)
                    ==> stands_before(
                    self.leaves(),
                    self.deepest(n)[k],
                    u,
                )),
            n >= self.leaves().len() ==> forall|x: int|
                self.leaves().contains(x) ==> self.deepest(n).contains(x),
    {
        let s = self.leaves();
        let r = self.by_depth(s);
        self.lemma_by_depth(s);
        let keep = self.deepest(n);
        assert forall|x: int| keep.contains(x) implies s.contains(x) by {
            let k = choose|k: int| 0 <= k < keep.len() && keep[k] == x;
            assert(r[k] == x);
            assert(r.contains(x));
        }
        assert forall|k: int, u: int|
            0 <= k < keep.len() && #[trigger] s.contains(u) && !keep.contains(
                u,
            ) implies self.depth_of(
            #[trigger] keep[k],
        ) >= self.depth_of(u) && (self.depth_of(keep[k]) == self.depth_of(u) ==> stands_before(
            s,
            keep[k],
            u,
        )) by {
            assert(r.contains(u));
            let j = choose|j: int| 0 <= j < r.len() && r[j] == u;
            if j < keep.len() {
                assert(keep[j] == u);
            }
            assert(keep[k] == r[k]);
        }
    }
}

} // verus!
