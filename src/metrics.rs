//! The integer parts of the per-cluster quality scores, checked row by row.
//!
//! Modularity is `m / L - gamma * (vol / (2 L))^2` and CPM is
//! `m - gamma * pairs(n)`. What is exact here is every integer that enters
//! them: the volume `2 m + c` and the pair count `n (n - 1) / 2`, taken from
//! table columns whose rows may be absent.
use crate::bitmap::{union_of, views, BitmapSet};
use vstd::prelude::*;

verus! {

/// Why a metric could not be evaluated over a table.
#[derive(Debug, Clone, Copy, PartialEq, Eq, Structural)]
pub enum MetricError {
    /// A column that the metric needs is absent.
    MissingColumn,
    /// This row has no value in a column that the metric needs.
    MissingValue(usize),
    /// The columns have different lengths.
    LengthMismatch,
    /// A value of this row does not fit in 64 bits.
    Overflow(usize),
}

/// The number of unordered pairs among `n` nodes.
pub open spec fn pairs_of(n: int) -> int {
    if n <= 1 {
        0
    } else {
        n * (n - 1) / 2
    }
}

/// The number of unordered pairs among `n` nodes: zero for `n <= 1`.
pub fn pair_count(n: u64) -> (r: u128)
    ensures
        r == pairs_of(n as int),
{
    if n <= 1 {
        0
    } else {
        let a = n as u128;
        assert(a * (a - 1) <= u128::MAX) by (nonlinear_arith)
            requires
                a <= u64::MAX,
                a >= 2,
        ;
        a * (a - 1) / 2
    }
}

/// The volume `2 m + c`, or `None` where it does not fit in 64 bits.
pub fn volume(m: u64, c: u64) -> (r: Option<u64>)
    ensures
        r == (if 2 * m + c <= u64::MAX {
            Some((2 * m + c) as u64)
        } else {
            None::<u64>
        }),
{
    if m > (u64::MAX - c) / 2 {
        None
    } else {
        Some(2 * m + c)
    }
}

/// The inputs of the modularity of each row: its internal edge count and its
/// volume, in row order. Fails on the first row with a missing value.
pub fn modularity_inputs(m: Option<&Vec<Option<u64>>>, c: Option<&Vec<Option<u64>>>) -> (r: Result<
    Vec<(u64, u64)>,
    MetricError,
>)
    ensures
        (m is None || c is None) <==> r == Err::<Vec<(u64, u64)>, MetricError>(
            MetricError::MissingColumn,
        ),
        m is Some && c is Some && m.unwrap()@.len() != c.unwrap()@.len() ==> r
            == Err::<Vec<(u64, u64)>, MetricError>(MetricError::LengthMismatch),
        r matches Ok(rows) ==> m is Some && c is Some && rows@.len() == m.unwrap()@.len()
            && rows@.len() == c.unwrap()@.len() && forall|i: int|
            0 <= i < rows@.len() ==> {
                &&& m.unwrap()@[i] == Some(#[trigger] rows@[i].0)
                &&& c.unwrap()@[i] is Some
                &&& rows@[i].1 == 2 * rows@[i].0 + c.unwrap()@[i].unwrap()
            },
        r matches Err(MetricError::MissingValue(i)) ==> m is Some && c is Some && i < m.unwrap()@.len()
            && (m.unwrap()@[i as int] is None || c.unwrap()@[i as int] is None),
        r matches Err(MetricError::Overflow(i)) ==> m is Some && c is Some && i < m.unwrap()@.len()
            && m.unwrap()@[i as int] is Some && c.unwrap()@[i as int] is Some && 2
            * m.unwrap()@[i as int].unwrap() + c.unwrap()@[i as int].unwrap() > u64::MAX,
        m is Some && c is Some && m.unwrap()@.len() == c.unwrap()@.len() && (forall|i: int|
            0 <= i < m.unwrap()@.len() ==> #[trigger] m.unwrap()@[i] is Some && c.unwrap()@[i] is Some
                && 2 * m.unwrap()@[i].unwrap() + c.unwrap()@[i].unwrap() <= u64::MAX) ==> r is Ok,
{
    let (mv, cv) = match (m, c) {
        (Some(mv), Some(cv)) => (mv, cv),
        _ => {
            return Err(MetricError::MissingColumn);
        },
    };
    if mv.len() != cv.len() {
        return Err(MetricError::LengthMismatch);
    }
    let mut rows: Vec<(u64, u64)> = Vec::new();
    let mut i: usize = 0;
    while i < mv.len()
        invariant
            m == Some(mv),
            c == Some(cv),
            mv@.len() == cv@.len(),
            i <= mv@.len(),
            rows@.len() == i,
            forall|j: int|
                0 <= j < i ==> {
                    &&& mv@[j] == Some(#[trigger] rows@[j].0)
                    &&& cv@[j] is Some
                    &&& rows@[j].1 == 2 * rows@[j].0 + cv@[j].unwrap()
                },
        decreases mv@.len() - i,
    {
        let mi = match mv[i] {
            Some(v) => v,
            None => {
                return Err(MetricError::MissingValue(i));
            },
        };
        let ci = match cv[i] {
            Some(v) => v,
            None => {
                return Err(MetricError::MissingValue(i));
            },
        };
        let vol = match volume(mi, ci) {
            Some(v) => v,
            None => {
                return Err(MetricError::Overflow(i));
            },
        };
        rows.push((mi, vol));
        i = i + 1;
    }
    Ok(rows)
}

/// The inputs of the CPM score of each row: its internal edge count and its
/// pair count, in row order. Fails on the first row with a missing value.
pub fn cpm_inputs(n: Option<&Vec<Option<u32>>>, m: Option<&Vec<Option<u64>>>) -> (r: Result<
    Vec<(u64, u128)>,
    MetricError,
>)
    ensures
        (n is None || m is None) <==> r == Err::<Vec<(u64, u128)>, MetricError>(
            MetricError::MissingColumn,
        ),
        n is Some && m is Some && n.unwrap()@.len() != m.unwrap()@.len() ==> r
            == Err::<Vec<(u64, u128)>, MetricError>(MetricError::LengthMismatch),
        r matches Ok(rows) ==> n is Some && m is Some && rows@.len() == n.unwrap()@.len()
            && rows@.len() == m.unwrap()@.len() && forall|i: int|
            0 <= i < rows@.len() ==> {
                &&& m.unwrap()@[i] == Some(#[trigger] rows@[i].0)
                &&& n.unwrap()@[i] is Some
                &&& rows@[i].1 == pairs_of(n.unwrap()@[i].unwrap() as int)
            },
        r matches Err(MetricError::MissingValue(i)) ==> n is Some && m is Some && i < n.unwrap()@.len()
            && (n.unwrap()@[i as int] is None || m.unwrap()@[i as int] is None),
        !(r matches Err(MetricError::Overflow(_))),
        n is Some && m is Some && n.unwrap()@.len() == m.unwrap()@.len() && (forall|i: int|
            0 <= i < n.unwrap()@.len() ==> #[trigger] n.unwrap()@[i] is Some && m.unwrap()@[i] is Some) ==> r is Ok,
{
    let (nv, mv) = match (n, m) {
        (Some(nv), Some(mv)) => (nv, mv),
        _ => {
            return Err(MetricError::MissingColumn);
        },
    };
    if nv.len() != mv.len() {
        return Err(MetricError::LengthMismatch);
    }
    let mut rows: Vec<(u64, u128)> = Vec::new();
    let mut i: usize = 0;
    while i < nv.len()
        invariant
            n == Some(nv),
            m == Some(mv),
            nv@.len() == mv@.len(),
            i <= nv@.len(),
            rows@.len() == i,
            forall|j: int|
                0 <= j < i ==> {
                    &&& mv@[j] == Some(#[trigger] rows@[j].0)
                    &&& nv@[j] is Some
                    &&& rows@[j].1 == pairs_of(nv@[j].unwrap() as int)
                },
        decreases nv@.len() - i,
    {
        let ni = match nv[i] {
            Some(v) => v,
            None => {
                return Err(MetricError::MissingValue(i));
            },
        };
        let mi = match mv[i] {
            Some(v) => v,
            None => {
                return Err(MetricError::MissingValue(i));
            },
        };
        rows.push((mi, pair_count(ni as u64)));
        i = i + 1;
    }
    Ok(rows)
}

/// The sum of the present values of a column, as an integer.
pub open spec fn column_sum(s: Seq<Option<u32>>) -> int
    decreases s.len(),
{
    if s.len() == 0 {
        0
    } else {
        column_sum(s.drop_last()) + match s.last() {
            Some(v) => v as int,
            None => 0,
        }
    }
}

/// The number of nodes that a table of clusters covers. With a column of
/// member sets it is the size of their union, which is right under overlap;
/// without one it is the sum of the `n` column, which is right only when the
/// clusters are disjoint.
pub fn covered_num_nodes(nodes: Option<&Vec<BitmapSet>>, n: Option<&Vec<Option<u32>>>) -> (r: Result<
    u64,
    MetricError,
>)
    requires
        nodes matches Some(v) ==> forall|i: int| 0 <= i < v@.len() ==> (#[trigger] v@[i]).wf(),
    ensures
        nodes matches Some(v) ==> r == Ok::<u64, MetricError>(union_of(views(v@)).len() as u64),
        nodes is None && n is None ==> r == Err::<u64, MetricError>(MetricError::MissingColumn),
        nodes is None && n is Some ==> match r {
            Ok(total) => (forall|i: int| 0 <= i < n.unwrap()@.len() ==> #[trigger] n.unwrap()@[i] is Some)
                && total == column_sum(n.unwrap()@),
            Err(MetricError::MissingValue(i)) => i < n.unwrap()@.len() && n.unwrap()@[i as int] is None,
            Err(MetricError::Overflow(_)) => column_sum(n.unwrap()@) > u64::MAX,
            _ => false,
        },
{
    match nodes {
        Some(v) => {
            let u = BitmapSet::union_all(v);
            return Ok(u.len());
        },
        None => {},
    }
    let nv = match n {
        Some(nv) => nv,
        None => {
            return Err(MetricError::MissingColumn);
        },
    };
    let mut total: u64 = 0;
    let mut i: usize = 0;
    while i < nv.len()
        invariant
            nodes is None,
            n == Some(nv),
            i <= nv@.len(),
            total == column_sum(nv@.take(i as int)),
            forall|j: int| 0 <= j < i ==> #[trigger] nv@[j] is Some,
        decreases nv@.len() - i,
    {
        assert(nv@.take(i + 1 as int).drop_last() =~= nv@.take(i as int));
        let v = match nv[i] {
            Some(v) => v,
            None => {
                return Err(MetricError::MissingValue(i));
            },
        };
        if total > u64::MAX - v as u64 {
            proof {
                lemma_column_sum_grows(nv@, i + 1, nv@.len() as int);
                assert(nv@.take(i + 1 as int).last() == Some(v));
                assert(column_sum(nv@.take(i + 1 as int)) == total + v);
                assert(nv@.take(nv@.len() as int) =~= nv@);
            }
            return Err(MetricError::Overflow(i));
        }
        total = total + v as u64;
        i = i + 1;
    }
    assert(nv@.take(nv@.len() as int) =~= nv@);
    Ok(total)
}

/// The sum of a column over a prefix is at most the sum over a longer one.
pub proof fn lemma_column_sum_grows(s: Seq<Option<u32>>, j: int, k: int)
    requires
        0 <= j <= k <= s.len(),
    ensures
        column_sum(s.take(j)) <= column_sum(s.take(k)),
    decreases k - j,
{
    if j < k {
        lemma_column_sum_grows(s, j, k - 1);
        assert(s.take(k).drop_last() =~= s.take(k - 1));
    }
    assert(s.take(s.len() as int) =~= s);
}

} // verus!
