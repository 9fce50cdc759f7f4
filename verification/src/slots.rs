//! Row bookkeeping of the quaternion slots: which deduplicated row each
//! slot belongs to, and the first slot value of each row.
use vstd::prelude::*;

verus! {

/// Number of `j` in `1..=i` with `changed[j]`: the deduplicated row of the
/// `i`-th slot in time order.
pub open spec fn row_of(changed: Seq<bool>, i: int) -> nat
    decreases i,
{
    if i <= 0 {
        0
    } else {
        row_of(changed, i - 1) + (if changed[i] {
            1nat
        } else {
            0nat
        })
    }
}

/// The number of rows a slot is past the first is the number of changes up
/// to it: `row_of(changed, i)` counts the `true` entries of `changed[1..=i]`.
pub proof fn lemma_row_of_counts_changes(changed: Seq<bool>, i: int)
    requires
        0 <= i < changed.len(),
    ensures
        row_of(changed, i) == changed.subrange(1, i + 1).filter(|b: bool| b).len(),
    decreases i,
{
    reveal(Seq::filter);
    let s = changed.subrange(1, i + 1);
    if i == 0 {
        assert(s.len() == 0);
    } else {
        lemma_row_of_counts_changes(changed, i - 1);
        assert(s.drop_last() =~= changed.subrange(1, i));
        assert(s.last() == changed[i]);
    }
}

/// `order` lists each of `0..order.len()` once.
pub open spec fn is_permutation(order: Seq<usize>) -> bool {
    &&& forall|i: int| 0 <= i < order.len() ==> #[trigger] order[i] < order.len()
    &&& forall|i: int, j: int| 0 <= i < j < order.len() ==> order[i] != order[j]
}

proof fn lemma_row_of_bound(changed: Seq<bool>, i: int)
    requires
        0 <= i,
    ensures
        row_of(changed, i) <= i,
    decreases i,
{
    if i > 0 {
        lemma_row_of_bound(changed, i - 1);
    }
}

/// For slots listed in time order by `order`, with `changed[i]` telling
/// whether the `i`-th slot in time order differs from the one before it:
/// each slot's deduplicated row (`d_file[order[i]] == row_of(changed, i)`)
/// and the number of rows.
pub fn dedup_index(order: &[usize], changed: &[bool]) -> (r: (Vec<usize>, usize))
    requires
        order.len() >= 1,
        changed.len() == order.len(),
        is_permutation(order@),
    ensures
        r.0.len() == order.len(),
        forall|i: int| 0 <= i < order.len() ==> r.0@[#[trigger] order@[i] as int] == row_of(changed@, i),
        r.1 == row_of(changed@, order.len() - 1) + 1,
        r.0@[order@[0] as int] == 0,
        forall|i: int|
            1 <= i < order.len() ==> r.0@[#[trigger] order@[i] as int] == r.0@[order@[i - 1] as int]
                + (if changed@[i] {
                1int
            } else {
                0int
            }),
        r.1 == 1 + changed@.subrange(1, order.len() as int).filter(|b: bool| b).len(),
{
    let n = order.len();
    let mut d_sorted: Vec<usize> = Vec::new();
    d_sorted.push(0);
    let mut i: usize = 1;
    while i < n
        invariant
            1 <= i <= n,
            n == order.len(),
            n == changed.len(),
            d_sorted@.len() == i,
            forall|j: int| 0 <= j < i ==> d_sorted@[j] == row_of(changed@, j),
        decreases n - i,
    {
        proof {
            lemma_row_of_bound(changed@, i - 1);
        }
        let prev = d_sorted[i - 1];
        let next = if changed[i] {
            prev + 1
        } else {
            prev
        };
        d_sorted.push(next);
        i = i + 1;
    }
    let mut d_file: Vec<usize> = Vec::new();
    let mut k: usize = 0;
    while k < n
        invariant
            k <= n,
            d_file@.len() == k,
            forall|j: int| 0 <= j < k ==> d_file@[j] == 0,
        decreases n - k,
    {
        d_file.push(0);
        k = k + 1;
    }
    let mut i: usize = 0;
    while i < n
        invariant
            i <= n,
            n == order.len(),
            d_file@.len() == n,
            d_sorted@.len() == n,
            is_permutation(order@),
            forall|j: int| 0 <= j < n ==> d_sorted@[j] == row_of(changed@, j),
            forall|j: int| 0 <= j < i ==> d_file@[#[trigger] order@[j] as int] == row_of(changed@, j),
        decreases n - i,
    {
        let ghost before = d_file@;
        d_file.set(order[i], d_sorted[i]);
        proof {
            assert forall|j: int| 0 <= j < i + 1 implies d_file@[#[trigger] order@[j] as int]
                == row_of(changed@, j) by {
                if j < i {
                    assert(order@[j] != order@[i as int]);
                }
            }
        }
        i = i + 1;
    }
    proof {
        lemma_row_of_bound(changed@, n - 1);
    }
    proof {
        lemma_row_of_counts_changes(changed@, n - 1);
        assert(d_file@[order@[0] as int] == row_of(changed@, 0));
        assert forall|i: int| 1 <= i < n implies d_file@[#[trigger] order@[i] as int]
            == d_file@[order@[i - 1] as int] + (if changed@[i] {
            1int
        } else {
            0int
        }) by {
            assert(d_file@[order@[i - 1] as int] == row_of(changed@, i - 1));
        }
    }
    let n_dedup = d_sorted[n - 1] + 1;
    (d_file, n_dedup)
}

/// The value of the first slot `j >= i` (in slot order) whose row is `d`,
/// or `fill` when there is none.
pub open spec fn first_from<T>(rows: Seq<usize>, vals: Seq<T>, fill: T, d: int, i: int) -> T
    decreases rows.len() - i,
{
    if i < 0 || i >= rows.len() {
        fill
    } else if rows[i] == d {
        vals[i]
    } else {
        first_from(rows, vals, fill, d, i + 1)
    }
}

/// The value of the first slot of each row (`rows[i]` is slot `i`'s row):
/// `r[d] == first_from(rows, vals, fill, d, 0)`.
pub fn first_values<T: Copy>(rows: &[usize], vals: &[T], fill: T, n_rows: usize) -> (r: Vec<T>)
    requires
        rows.len() == vals.len(),
        forall|i: int| 0 <= i < rows.len() ==> #[trigger] rows[i] < n_rows,
    ensures
        r@.len() == n_rows,
        forall|d: int| 0 <= d < n_rows ==> #[trigger] r@[d] == first_from(rows@, vals@, fill, d, 0),
{
    let mut out: Vec<T> = Vec::new();
    let mut k: usize = 0;
    while k < n_rows
        invariant
            k <= n_rows,
            out@.len() == k,
            forall|j: int| 0 <= j < k ==> out@[j] == fill,
        decreases n_rows - k,
    {
        out.push(fill);
        k = k + 1;
    }
    // later slots first, so that the earliest slot of a row is written last
    let mut i: usize = rows.len();
    while i > 0
        invariant
            i <= rows.len(),
            rows.len() == vals.len(),
            out@.len() == n_rows,
            forall|j: int| 0 <= j < rows.len() ==> #[trigger] rows@[j] < n_rows,
            forall|d: int|
                0 <= d < n_rows ==> #[trigger] out@[d] == first_from(
                    rows@,
                    vals@,
                    fill,
                    d,
                    i as int,
                ),
        decreases i,
    {
        i = i - 1;
        out.set(rows[i], vals[i]);
    }
    out
}

} // verus!
