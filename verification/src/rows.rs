//! Rows of numbers in ascending order.

use vstd::prelude::*;

verus! {

/// Numbers in strictly ascending order.
pub open spec fn rising(row: Seq<u32>) -> bool {
    forall|i: int, j: int| 0 <= i < j < row.len() ==> #[trigger] row[i] < #[trigger] row[j]
}

/// Where `n` stands in the ascending row, or where it would have to.
pub fn place_of(row: &Vec<u32>, n: u32) -> (at: usize)
    requires
        rising(row@),
    ensures
        at <= row@.len(),
        forall|k: int| 0 <= k < at ==> #[trigger] row@[k] < n,
        forall|k: int| at <= k < row@.len() ==> #[trigger] row@[k] >= n,
{
    let mut at: usize = 0;
    while at < row.len() && row[at] < n
        invariant
            at <= row@.len(),
            rising(row@),
            forall|k: int| 0 <= k < at ==> #[trigger] row@[k] < n,
        decreases row@.len() - at,
    {
        at += 1;
    }
    proof {
        assert forall|k: int| at <= k < row@.len() implies #[trigger] row@[k] >= n by {
            if k > at {
                assert(row@[at as int] < row@[k]);
            }
        }
    }
    at
}

/// Put a number into an ascending row, unless it stands there.
pub fn put_number(row: &mut Vec<u32>, n: u32)
    requires
        rising(old(row)@),
    ensures
        rising(final(row)@),
        forall|s: u32| #[trigger] final(row)@.contains(s) <==> s == n || old(row)@.contains(s),
{
    let ghost was = row@;
    let at = place_of(row, n);
    if at == row.len() || row[at] != n {
        row.insert(at, n);
        proof {
            assert forall|a: int, b: int| 0 <= a < b < row@.len() implies #[trigger] row@[a]
                < #[trigger] row@[b] by {
                let x = if a < at { a } else { a - 1 };
                let y = if b < at { b } else { b - 1 };
                if a != at && b != at {
                    assert(was[x] < was[y]);
                }
            }
            assert forall|s: u32| #[trigger] row@.contains(s) <==> s == n || was.contains(s) by {
                if row@.contains(s) {
                    let k = choose|k: int| 0 <= k < row@.len() && row@[k] == s;
                    if k != at {
                        let x = if k < at { k } else { k - 1 };
                        assert(was[x] == s);
                    }
                }
                if s == n {
                    assert(row@[at as int] == s);
                }
                if was.contains(s) {
                    let k = choose|k: int| 0 <= k < was.len() && was[k] == s;
                    let k2 = if k < at { k } else { k + 1 };
                    assert(row@[k2] == s);
                }
            }
        }
    } else {
        assert(row@[at as int] == n);
    }
}

} // verus!
