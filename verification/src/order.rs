//! Putting rows in order.

use vstd::prelude::*;

verus! {

/// A strict order on the whole numbers below some length.
pub trait Ranking {
    /// How many numbers are ranked.
    spec fn count(&self) -> nat;

    /// `x` comes before `y`.
    spec fn before(&self, x: int, y: int) -> bool;

    /// Nothing comes before itself.
    proof fn irreflexive(&self, x: int)
        requires
            0 <= x < self.count(),
        ensures
            !self.before(x, x),
    ;

    /// Of two different numbers, one comes before the other.
    proof fn total(&self, x: int, y: int)
        requires
            0 <= x < self.count(),
            0 <= y < self.count(),
            x != y,
        ensures
            self.before(x, y) || self.before(y, x),
    ;

    /// What comes before something comes before everything after it.
    proof fn transitive(&self, x: int, y: int, z: int)
        requires
            0 <= x < self.count(),
            0 <= y < self.count(),
            0 <= z < self.count(),
            self.before(x, y),
            self.before(y, z),
        ensures
            self.before(x, z),
    ;

    /// Whether `x` comes before `y`.
    fn precedes(&self, x: usize, y: usize) -> (out: bool)
        requires
            x < self.count(),
            y < self.count(),
        ensures
            out == self.before(x as int, y as int),
    ;
}

/// Every number is ranked, and none occurs twice.
pub open spec fn ranked<R: Ranking>(ranking: &R, items: Seq<usize>) -> bool {
    &&& forall|i: int| 0 <= i < items.len() ==> (#[trigger] items[i]) < ranking.count()
    &&& items.no_duplicates()
}

/// Each number comes before all that follow it.
pub open spec fn in_order<R: Ranking>(ranking: &R, items: Seq<usize>) -> bool {
    forall|i: int, j: int|
        0 <= i < j < items.len() ==> ranking.before(
            (#[trigger] items[i]) as int,
            (#[trigger] items[j]) as int,
        )
}

/// Two lists hold the same numbers.
pub open spec fn same_items(a: Seq<usize>, b: Seq<usize>) -> bool {
    forall|k: usize| #[trigger] a.contains(k) <==> b.contains(k)
}

/// Both lists, merged: each in order, nothing in common.
fn merge<R: Ranking>(ranking: &R, a: &Vec<usize>, b: &Vec<usize>) -> (out: Vec<usize>)
    requires
        ranked(ranking, a@),
        ranked(ranking, b@),
        in_order(ranking, a@),
        in_order(ranking, b@),
        forall|k: usize| !(a@.contains(k) && b@.contains(k)),
    ensures
        in_order(ranking, out@),
        forall|k: usize| #[trigger] out@.contains(k) <==> a@.contains(k) || b@.contains(k),
{
    let mut out: Vec<usize> = Vec::new();
    let mut i: usize = 0;
    let mut j: usize = 0;
    while i < a.len() || j < b.len()
        invariant
            i <= a@.len(),
            j <= b@.len(),
            ranked(ranking, a@),
            ranked(ranking, b@),
            in_order(ranking, a@),
            in_order(ranking, b@),
            forall|k: usize| !(a@.contains(k) && b@.contains(k)),
            in_order(ranking, out@),
            forall|n: int| 0 <= n < out@.len() ==> (#[trigger] out@[n]) < ranking.count(),
            forall|n: int, m: int|
                0 <= n < out@.len() && i <= m < a@.len() ==> ranking.before(
                    (#[trigger] out@[n]) as int,
                    (#[trigger] a@[m]) as int,
                ),
            forall|n: int, m: int|
                0 <= n < out@.len() && j <= m < b@.len() ==> ranking.before(
                    (#[trigger] out@[n]) as int,
                    (#[trigger] b@[m]) as int,
                ),
            forall|n: int| 0 <= n < out@.len() ==> a@.contains(#[trigger] out@[n]) || b@.contains(
                out@[n],
            ),
            forall|m: int| 0 <= m < i ==> out@.contains(#[trigger] a@[m]),
            forall|m: int| 0 <= m < j ==> out@.contains(#[trigger] b@[m]),
        decreases a@.len() - i + b@.len() - j,
    {
        let take_a = if i == a.len() {
            false
        } else if j == b.len() {
            true
        } else {
            ranking.precedes(a[i], b[j])
        };
        let ghost before = out@;
        if take_a {
            let item: usize = a[i];
            proof {
                assert(a@.contains(item));
                assert forall|m: int| j <= m < b@.len() implies ranking.before(
                    item as int,
                    (#[trigger] b@[m]) as int,
                ) by {
                    if j < m {
                        ranking.transitive(item as int, b@[j as int] as int, b@[m] as int);
                    }
                }
            }
            out.push(item);
            i += 1;
        } else {
            let item: usize = b[j];
            proof {
                assert(b@.contains(item));
                if i < a@.len() {
                    assert(a@.contains(a@[i as int]));
                    ranking.total(item as int, a@[i as int] as int);
                }
                assert forall|m: int| i <= m < a@.len() implies ranking.before(
                    item as int,
                    (#[trigger] a@[m]) as int,
                ) by {
                    if i < m {
                        ranking.transitive(item as int, a@[i as int] as int, a@[m] as int);
                    }
                }
            }
            out.push(item);
            j += 1;
        }
        proof {
            let item = out@.last();
            assert(out@ =~= before.push(item));
            assert(out@[out@.len() - 1] == item);
            assert forall|k: usize| before.contains(k) implies out@.contains(k) by {
                let n = choose|n: int| 0 <= n < before.len() && before[n] == k;
                assert(out@[n] == k);
            }
        }
    }
    assert forall|k: usize| a@.contains(k) implies out@.contains(k) by {
        let m = choose|m: int| 0 <= m < a@.len() && a@[m] == k;
        assert(out@.contains(a@[m]));
    }
    assert forall|k: usize| b@.contains(k) implies out@.contains(k) by {
        let m = choose|m: int| 0 <= m < b@.len() && b@[m] == k;
        assert(out@.contains(b@[m]));
    }
    out
}

/// Numbers in order are ranked where the list they were taken from is.
pub proof fn lemma_order_keeps_ranked<R: Ranking>(ranking: &R, items: Seq<usize>, out: Seq<usize>)
    requires
        ranked(ranking, items),
        in_order(ranking, out),
        same_items(out, items),
    ensures
        ranked(ranking, out),
{
    assert forall|i: int| 0 <= i < out.len() implies (#[trigger] out[i]) < ranking.count() by {
        assert(out.contains(out[i]));
        let n = choose|n: int| 0 <= n < items.len() && items[n] == out[i];
        assert(items[n] < ranking.count());
    }
    assert forall|i: int, j: int| 0 <= i < out.len() && 0 <= j < out.len() && i != j implies out[i]
        != out[j] by {
        ranking.irreflexive(out[i] as int);
        if i < j {
            assert(ranking.before(out[i] as int, out[j] as int));
        } else {
            assert(ranking.before(out[j] as int, out[i] as int));
        }
    }
}

/// `items` in order.
pub fn sorted<R: Ranking>(ranking: &R, items: Vec<usize>) -> (out: Vec<usize>)
    requires
        ranked(ranking, items@),
    ensures
        in_order(ranking, out@),
        same_items(out@, items@),
    decreases items@.len(),
{
    if items.len() <= 1 {
        return items;
    }
    let middle: usize = items.len() / 2;
    let mut left: Vec<usize> = Vec::new();
    let mut right: Vec<usize> = Vec::new();
    let mut i: usize = 0;
    while i < items.len()
        invariant
            i <= items@.len(),
            middle <= items@.len(),
            left@ == items@.take(if i <= middle {
                i as int
            } else {
                middle as int
            }),
            right@ == items@.subrange(middle as int, if i <= middle {
                middle as int
            } else {
                i as int
            }),
        decreases items@.len() - i,
    {
        if i < middle {
            left.push(items[i]);
        } else {
            right.push(items[i]);
        }
        i += 1;
    }
    proof {
        assert forall|k: usize| !(left@.contains(k) && right@.contains(k)) by {
            if left@.contains(k) && right@.contains(k) {
                let n = choose|n: int| 0 <= n < left@.len() && left@[n] == k;
                let m = choose|m: int| 0 <= m < right@.len() && right@[m] == k;
                assert(items@[n] == items@[m + middle]);
            }
        }
        assert forall|k: usize| #[trigger] items@.contains(k) implies left@.contains(k)
            || right@.contains(k) by {
            let n = choose|n: int| 0 <= n < items@.len() && items@[n] == k;
            if n < middle {
                assert(left@[n] == k);
            } else {
                assert(right@[n - middle] == k);
            }
        }
        assert forall|k: usize| left@.contains(k) || right@.contains(k) implies items@.contains(
            k,
        ) by {
            if left@.contains(k) {
                let n = choose|n: int| 0 <= n < left@.len() && left@[n] == k;
                assert(items@[n] == k);
            } else {
                let n = choose|n: int| 0 <= n < right@.len() && right@[n] == k;
                assert(items@[n + middle] == k);
            }
        }
        assert forall|n: int, m: int|
            0 <= n < left@.len() && 0 <= m < left@.len() && n != m implies left@[n]
            != left@[m] by {
            assert(items@[n] != items@[m]);
        }
        assert forall|n: int, m: int|
            0 <= n < right@.len() && 0 <= m < right@.len() && n != m implies right@[n]
            != right@[m] by {
            assert(items@[n + middle] != items@[m + middle]);
        }
    }
    let ghost (had_left, had_right) = (left@, right@);
    let left = sorted(ranking, left);
    let right = sorted(ranking, right);
    proof {
        lemma_order_keeps_ranked(ranking, had_left, left@);
        lemma_order_keeps_ranked(ranking, had_right, right@);
        assert forall|k: usize| !(left@.contains(k) && right@.contains(k)) by {
            assert(left@.contains(k) <==> had_left.contains(k));
            assert(right@.contains(k) <==> had_right.contains(k));
        }
    }
    let out = merge(ranking, &left, &right);
    assert forall|k: usize| #[trigger] out@.contains(k) <==> items@.contains(k) by {
        assert(left@.contains(k) <==> had_left.contains(k));
        assert(right@.contains(k) <==> had_right.contains(k));
    }
    out
}

/// As many different numbers as there are below a bound are all of them.
pub proof fn lemma_none_is_left_out(items: Seq<usize>, k: usize)
    requires
        items.no_duplicates(),
        forall|i: int| 0 <= i < items.len() ==> (#[trigger] items[i]) < items.len(),
        k < items.len(),
    ensures
        items.contains(k),
{
    let whole = items.map_values(|item: usize| item as int);
    assert(whole.no_duplicates()) by {
        assert forall|i: int, j: int|
            0 <= i < whole.len() && 0 <= j < whole.len() && i != j implies whole[i] != whole[j] by {
            assert(items[i] != items[j]);
        }
    }
    whole.unique_seq_to_set();
    let all = vstd::set_lib::set_int_range(0, items.len() as int);
    vstd::set_lib::lemma_int_range(0, items.len() as int);
    assert(whole.to_set().subset_of(all)) by {
        assert forall|x: int| whole.to_set().contains(x) implies all.contains(x) by {
            let i = choose|i: int| 0 <= i < whole.len() && whole[i] == x;
            assert(items[i] < items.len());
        }
    }
    vstd::set_lib::lemma_subset_equality(whole.to_set(), all);
    assert(all.contains(k as int));
    let i = choose|i: int| 0 <= i < whole.len() && whole[i] == k as int;
    assert(items[i] == k);
}

} // verus!
