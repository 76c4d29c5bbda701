//! Small helpers shared by the tree builder and the search algorithms.

use vstd::prelude::*;

verus! {

/// Return the index and value of the minimum value in the given slice of
/// values.  When several positions hold the minimum, the first one is
/// returned.  Returns `None` exactly when the slice is empty.
pub fn arg_min(values: &Vec<u64>) -> (r: Option<(usize, u64)>)
    ensures
        r is None <==> values@.len() == 0,
        r matches Some((i, v)) ==> {
            &&& i < values@.len()
            &&& values@[i as int] == v
            &&& forall|j: int| 0 <= j < values@.len() ==> v <= values@[j]
            &&& forall|j: int| 0 <= j < i ==> v < values@[j]
        },
{
    if values.len() == 0 {
        return None;
    }
    let mut best_i: usize = 0;
    let mut best_v: u64 = values[0];
    let mut j: usize = 1;
    while j < values.len()
        invariant
            0 < j <= values@.len(),
            best_i < j,
            values@[best_i as int] == best_v,
            forall|t: int| 0 <= t < j ==> best_v <= values@[t],
            forall|t: int| 0 <= t < best_i ==> best_v < values@[t],
        decreases values@.len() - j,
    {
        if values[j] < best_v {
            best_i = j;
            best_v = values[j];
        }
        j = j + 1;
    }
    Some((best_i, best_v))
}

/// Return the index and value of the maximum value in the given slice of
/// values.  When several positions hold the maximum, the last one is
/// returned.  Returns `None` exactly when the slice is empty.
pub fn arg_max(values: &Vec<u64>) -> (r: Option<(usize, u64)>)
    ensures
        r is None <==> values@.len() == 0,
        r matches Some((i, v)) ==> {
            &&& i < values@.len()
            &&& values@[i as int] == v
            &&& forall|j: int| 0 <= j < values@.len() ==> values@[j] <= v
            &&& forall|j: int| i < j < values@.len() ==> values@[j] < v
        },
{
    if values.len() == 0 {
        return None;
    }
    let mut best_i: usize = 0;
    let mut best_v: u64 = values[0];
    let mut j: usize = 1;
    while j < values.len()
        invariant
            0 < j <= values@.len(),
            best_i < j,
            values@[best_i as int] == best_v,
            forall|t: int| 0 <= t < j ==> values@[t] <= best_v,
            forall|t: int| best_i < t < j ==> values@[t] < best_v,
        decreases values@.len() - j,
    {
        if values[j] >= best_v {
            best_i = j;
            best_v = values[j];
        }
        j = j + 1;
    }
    Some((best_i, best_v))
}

/// Return the position and value of the first occurrence of `v` in the given
/// slice of values, or `None` when `v` does not occur.
pub fn pos_val(values: &Vec<usize>, v: usize) -> (r: Option<(usize, usize)>)
    ensures
        r is None <==> !values@.contains(v),
        r matches Some((i, x)) ==> {
            &&& x == v
            &&& i < values@.len()
            &&& values@[i as int] == v
            &&& forall|j: int| 0 <= j < i ==> values@[j] != v
        },
{
    let mut j: usize = 0;
    while j < values.len()
        invariant
            j <= values@.len(),
            forall|t: int| 0 <= t < j ==> values@[t] != v,
        decreases values@.len() - j,
    {
        if values[j] == v {
            return Some((j, v));
        }
        j = j + 1;
    }
    None
}

/// Transpose a matrix given as a list of rows of width 6 into its list of 6
/// columns.
pub fn rows_to_cols(values: &Vec<Vec<i64>>) -> (r: Vec<Vec<i64>>)
    requires
        forall|t: int| 0 <= t < values@.len() ==> #[trigger] values@[t]@.len() == 6,
    ensures
        r@.len() == 6,
        forall|s: int| 0 <= s < 6 ==> #[trigger] r@[s]@.len() == values@.len(),
        forall|s: int, t: int|
            0 <= s < 6 && 0 <= t < values@.len() ==> #[trigger] r@[s]@[t] == values@[t]@[s],
{
    let mut cols: Vec<Vec<i64>> = Vec::new();
    let mut s: usize = 0;
    while s < 6
        invariant
            s <= 6,
            cols@.len() == s,
            forall|t: int| 0 <= t < values@.len() ==> #[trigger] values@[t]@.len() == 6,
            forall|u: int| 0 <= u < s ==> #[trigger] cols@[u]@.len() == values@.len(),
            forall|u: int, t: int|
                0 <= u < s && 0 <= t < values@.len() ==> #[trigger] cols@[u]@[t] == values@[t]@[u],
        decreases 6 - s,
    {
        let mut col: Vec<i64> = Vec::new();
        let mut t: usize = 0;
        while t < values.len()
            invariant
                t <= values@.len(),
                s < 6,
                col@.len() == t,
                forall|w: int| 0 <= w < values@.len() ==> #[trigger] values@[w]@.len() == 6,
                forall|w: int| 0 <= w < t ==> #[trigger] col@[w] == values@[w]@[s as int],
            decreases values@.len() - t,
        {
            col.push(values[t][s]);
            t = t + 1;
        }
        cols.push(col);
        s = s + 1;
    }
    cols
}

} // verus!
