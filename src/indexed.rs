//! Sparse grid addressed by explicit sorted row and column keys.
use vstd::prelude::*;
use crate::grid::{lemma_flat_index, Orientation};

verus! {

/// Why an indexed grid could not be built or addressed.
#[derive(Debug, Clone, Copy, PartialEq, Eq, Structural)]
pub enum GridError {
    /// A row or column that is not one of the grid's keys.
    InvalidIndex,
    /// Two points given for one coordinate.
    DuplicatePoint,
}

/// Keys strictly increase.
pub open spec fn keys_sorted(k: Seq<usize>) -> bool {
    forall|i: int, j: int| 0 <= i < j < k.len() ==> #[trigger] k[i] < #[trigger] k[j]
}

/// Two points of `p` share a coordinate.
pub open spec fn has_duplicate_point<T>(p: Seq<(usize, usize, T)>) -> bool {
    exists|i: int, j: int|
        0 <= i < j < p.len() && (#[trigger] p[i]).0 == (#[trigger] p[j]).0 && p[i].1 == p[j].1
}

/// Inserts `k` at its place in a strictly increasing key list, unless present.
fn insert_key(keys: &mut Vec<usize>, k: usize)
    requires
        keys_sorted(old(keys)@),
    ensures
        keys_sorted(final(keys)@),
        forall|q: usize| final(keys)@.contains(q) <==> (old(keys)@.contains(q) || q == k),
        final(keys)@.len() <= old(keys)@.len() + 1,
{
    let mut i: usize = 0;
    while i < keys.len() && keys[i] < k
        invariant
            i <= keys@.len(),
            forall|m: int| 0 <= m < i ==> #[trigger] keys@[m] < k,
        decreases keys@.len() - i,
    {
        i = i + 1;
    }
    if i < keys.len() && keys[i] == k {
        return;
    }
    let ghost before = keys@;
    proof {
        assert forall|m: int| i <= m < before.len() implies k < #[trigger] before[m] by {
            if m > i {
                assert(before[i as int] < before[m]);
            }
        }
    }
    keys.insert(i, k);
    proof {
        before.insert_ensures(i as int, k);
        let after = keys@;
        assert forall|a: int, b: int| 0 <= a < b < after.len() implies #[trigger] after[a] < #[trigger] after[b] by {
            if a < i && b < i {
                assert(after[a] == before[a] && after[b] == before[b]);
            } else if a < i && b == i {
                assert(after[a] == before[a]);
            } else if a < i {
                assert(after[a] == before[a] && after[b] == before[b - 1]);
            } else if a == i {
                assert(after[b] == before[b - 1]);
            } else {
                assert(after[a] == before[a - 1] && after[b] == before[b - 1]);
            }
        }
        assert forall|q: usize| after.contains(q) <==> (before.contains(q) || q == k) by {
            if after.contains(q) {
                let m = choose|m: int| 0 <= m < after.len() && after[m] == q;
                if m < i {
                    assert(before[m] == q);
                } else if m > i {
                    assert(before[m - 1] == q);
                }
            }
            if before.contains(q) {
                let m = choose|m: int| 0 <= m < before.len() && before[m] == q;
                if m < i {
                    assert(after[m] == q);
                } else {
                    assert(after[m + 1] == q);
                }
            }
            if q == k {
                assert(after[i as int] == q);
            }
        }
    }
}

/// Position of `k` in a strictly increasing key list, found by binary search.
pub fn key_position(keys: &Vec<usize>, k: usize) -> (r: Option<usize>)
    requires
        keys_sorted(keys@),
    ensures
        r matches Some(i) ==> i < keys@.len() && keys@[i as int] == k,
        r is None ==> !keys@.contains(k),
{
    let mut lo: usize = 0;
    let mut hi: usize = keys.len();
    while lo < hi
        invariant
            keys_sorted(keys@),
            lo <= hi <= keys@.len(),
            forall|m: int| 0 <= m < lo ==> #[trigger] keys@[m] < k,
            forall|m: int| hi <= m < keys@.len() ==> #[trigger] keys@[m] > k,
        decreases hi - lo,
    {
        let mid = lo + (hi - lo) / 2;
        if keys[mid] == k {
            return Some(mid);
        } else if keys[mid] < k {
            proof {
                assert forall|m: int| 0 <= m < mid + 1 implies #[trigger] keys@[m] < k by {
                    if m < mid {
                        assert(keys@[m] < keys@[mid as int]);
                    }
                }
            }
            lo = mid + 1;
        } else {
            proof {
                assert forall|m: int| mid <= m < keys@.len() implies #[trigger] keys@[m] > k by {
                    if m > mid {
                        assert(keys@[mid as int] < keys@[m]);
                    }
                }
            }
            hi = mid;
        }
    }
    proof {
        if keys@.contains(k) {
            let m = choose|m: int| 0 <= m < keys@.len() && keys@[m] == k;
        }
    }
    None
}

/// A grid that stores only the rows and columns named by its keys.
#[derive(Debug, Clone)]
pub struct IndexedGrid<T> {
    row_idxs: Vec<usize>,
    col_idxs: Vec<usize>,
    data: Vec<T>,
}

impl<T: Copy> IndexedGrid<T> {
    pub closed spec fn row_keys(&self) -> Seq<usize> {
        self.row_idxs@
    }

    pub closed spec fn col_keys(&self) -> Seq<usize> {
        self.col_idxs@
    }

    pub closed spec fn values(&self) -> Seq<T> {
        self.data@
    }

    pub open spec fn wf(&self) -> bool {
        &&& keys_sorted(self.row_keys())
        &&& keys_sorted(self.col_keys())
        &&& self.values().len() == self.row_keys().len() * self.col_keys().len()
    }

    /// Value stored for the `i`-th row key and the `j`-th column key.
    pub open spec fn at(&self, i: int, j: int) -> T {
        self.values()[i * self.col_keys().len() + j]
    }

    /// `(row, col)` is a known coordinate holding `v`.
    pub open spec fn holds(&self, row: usize, col: usize, v: T) -> bool {
        exists|i: int, j: int|
            0 <= i < self.row_keys().len() && 0 <= j < self.col_keys().len() && self.row_keys()[i] == row
                && self.col_keys()[j] == col && #[trigger] self.at(i, j) == v
    }

    pub fn rows(&self) -> (r: usize)
        ensures
            r == self.row_keys().len(),
    {
        self.row_idxs.len()
    }

    pub fn cols(&self) -> (r: usize)
        ensures
            r == self.col_keys().len(),
    {
        self.col_idxs.len()
    }

    /// Offset of `(row, col)` in the store, or `InvalidIndex` for an unknown key.
    pub fn get_index(&self, row: usize, col: usize) -> (r: Result<usize, GridError>)
        requires
            self.wf(),
        ensures
            (self.row_keys().contains(row) && self.col_keys().contains(col)) <==> r is Ok,
            r is Err ==> r == Err::<usize, _>(GridError::InvalidIndex),
            r matches Ok(k) ==> exists|i: int, j: int|
                0 <= i < self.row_keys().len() && 0 <= j < self.col_keys().len() && self.row_keys()[i]
                    == row && self.col_keys()[j] == col && #[trigger] (i * self.col_keys().len() + j) == k
                    && k < self.values().len(),
    {
        let real_row = match key_position(&self.row_idxs, row) {
            Some(i) => i,
            None => {
                return Err(GridError::InvalidIndex);
            },
        };
        let real_col = match key_position(&self.col_idxs, col) {
            Some(j) => j,
            None => {
                return Err(GridError::InvalidIndex);
            },
        };
        let _n = self.data.len();
        proof {
            lemma_flat_index(
                self.row_idxs@.len() as int,
                self.col_idxs@.len() as int,
                Orientation::RowMajor,
                real_row as int,
                real_col as int,
                real_row as int,
                real_col as int,
            );
        }
        Ok(real_row * self.col_idxs.len() + real_col)
    }

    /// The value at `(row, col)`, or `InvalidIndex` for an unknown key.
    pub fn get(&self, row: usize, col: usize) -> (r: Result<T, GridError>)
        requires
            self.wf(),
        ensures
            (self.row_keys().contains(row) && self.col_keys().contains(col)) <==> r is Ok,
            r is Err ==> r == Err::<T, _>(GridError::InvalidIndex),
            r matches Ok(v) ==> self.holds(row, col, v),
    {
        let k = match self.get_index(row, col) {
            Ok(k) => k,
            Err(e) => {
                return Err(e);
            },
        };
        proof {
            let (i, j) = choose|i: int, j: int|
                0 <= i < self.row_keys().len() && 0 <= j < self.col_keys().len() && self.row_keys()[i]
                    == row && self.col_keys()[j] == col && #[trigger] (i * self.col_keys().len() + j) == k
                    && k < self.values().len();
            assert(self.at(i, j) == self.data@[k as int]);
        }
        Ok(self.data[k])
    }

    /// Stores `v` at `(row, col)`, or reports `InvalidIndex` for an unknown key.
    pub fn set(&mut self, row: usize, col: usize, v: T) -> (r: Result<(), GridError>)
        requires
            old(self).wf(),
        ensures
            (old(self).row_keys().contains(row) && old(self).col_keys().contains(col)) <==> r is Ok,
            r is Err ==> r == Err::<(), _>(GridError::InvalidIndex) && *final(self) == *old(self),
            final(self).wf(),
            final(self).row_keys() == old(self).row_keys(),
            final(self).col_keys() == old(self).col_keys(),
            r is Ok ==> final(self).holds(row, col, v),
            r is Ok ==> forall|i: int, j: int|
                0 <= i < old(self).row_keys().len() && 0 <= j < old(self).col_keys().len() && !(old(
                    self,
                ).row_keys()[i] == row && old(self).col_keys()[j] == col) ==> #[trigger] final(self).at(i, j)
                    == old(self).at(i, j),
    {
        let k = match self.get_index(row, col) {
            Ok(k) => k,
            Err(e) => {
                return Err(e);
            },
        };
        let ghost before = *self;
        let ghost nr = self.row_idxs@.len() as int;
        let ghost nc = self.col_idxs@.len() as int;
        let ghost (pi, pj) = choose|i: int, j: int|
            0 <= i < nr && 0 <= j < nc && self.row_keys()[i] == row && self.col_keys()[j] == col
                && #[trigger] (i * nc + j) == k;
        self.data.set(k, v);
        proof {
            assert(self.at(pi, pj) == v);
            assert forall|i: int, j: int|
                0 <= i < nr && 0 <= j < nc && !(before.row_keys()[i] == row && before.col_keys()[j]
                    == col) implies #[trigger] self.at(i, j) == before.at(i, j) by {
                assert(i != pi || j != pj);
                lemma_flat_index(nr, nc, Orientation::RowMajor, i, j, pi, pj);
            }
        }
        Ok(())
    }

    /// Builds a grid keyed by the rows and columns of `points`, holding each
    /// point's value and `default` at every other key pair.
    pub fn from(points: Vec<(usize, usize, T)>, default: T) -> (r: Result<Self, GridError>)
        requires
            (points@.len() as int) * (points@.len() as int) <= usize::MAX,
        ensures
            has_duplicate_point(points@) <==> r is Err,
            r is Err ==> r == Err::<Self, _>(GridError::DuplicatePoint),
            r matches Ok(g) ==> ({
                &&& g.wf()
                &&& forall|q: usize| g.row_keys().contains(q) <==> exists|i: int| 0 <= i < points@.len() && (#[trigger] points@[i]).0 == q
                &&& forall|q: usize| g.col_keys().contains(q) <==> exists|i: int| 0 <= i < points@.len() && (#[trigger] points@[i]).1 == q
                &&& forall|i: int| 0 <= i < points@.len() ==> g.holds((#[trigger] points@[i]).0, points@[i].1, points@[i].2)
                &&& forall|i: int, j: int|
                    0 <= i < g.row_keys().len() && 0 <= j < g.col_keys().len() && !(exists|k: int|
                        0 <= k < points@.len() && (#[trigger] points@[k]).0 == g.row_keys()[i] && points@[k].1
                            == g.col_keys()[j]) ==> #[trigger] g.at(i, j) == default
            }),
    {
        let n = points.len();
        let mut a: usize = 0;
        while a < n
            invariant
                n == points@.len(),
                a <= n,
                forall|x: int, y: int|
                    0 <= x < a && x < y < n ==> !((#[trigger] points@[x]).0 == (#[trigger] points@[y]).0
                        && points@[x].1 == points@[y].1),
            decreases n - a,
        {
            let mut b: usize = a + 1;
            while b < n
                invariant
                    n == points@.len(),
                    a < n,
                    a + 1 <= b <= n,
                    forall|x: int, y: int|
                        0 <= x < a && x < y < n ==> !((#[trigger] points@[x]).0 == (#[trigger] points@[y]).0
                            && points@[x].1 == points@[y].1),
                    forall|y: int| a < y < b ==> !((#[trigger] points@[y]).0 == points@[a as int].0
                        && points@[y].1 == points@[a as int].1),
                decreases n - b,
            {
                if points[a].0 == points[b].0 && points[a].1 == points[b].1 {
                    proof {
                        assert((points@[a as int]).0 == (points@[b as int]).0 && points@[a as int].1
                            == points@[b as int].1);
                    }
                    return Err(GridError::DuplicatePoint);
                }
                b = b + 1;
            }
            a = a + 1;
        }
        let mut row_idxs: Vec<usize> = Vec::new();
        let mut col_idxs: Vec<usize> = Vec::new();
        let mut i: usize = 0;
        while i < n
            invariant
                n == points@.len(),
                i <= n,
                keys_sorted(row_idxs@),
                keys_sorted(col_idxs@),
                row_idxs@.len() <= i,
                col_idxs@.len() <= i,
                forall|q: usize| row_idxs@.contains(q) <==> exists|k: int| 0 <= k < i && (#[trigger] points@[k]).0 == q,
                forall|q: usize| col_idxs@.contains(q) <==> exists|k: int| 0 <= k < i && (#[trigger] points@[k]).1 == q,
            decreases n - i,
        {
            let p = points[i];
            insert_key(&mut row_idxs, p.0);
            insert_key(&mut col_idxs, p.1);
            proof {
                assert forall|q: usize| row_idxs@.contains(q) <==> exists|k: int| 0 <= k < i + 1 && (#[trigger] points@[k]).0 == q by {
                    if q == p.0 {
                        assert(points@[i as int].0 == q);
                    }
                }
                assert forall|q: usize| col_idxs@.contains(q) <==> exists|k: int| 0 <= k < i + 1 && (#[trigger] points@[k]).1 == q by {
                    if q == p.1 {
                        assert(points@[i as int].1 == q);
                    }
                }
            }
            i = i + 1;
        }
        let nr = row_idxs.len();
        let nc = col_idxs.len();
        proof {
            assert((nr as int) * (nc as int) <= (n as int) * (n as int)) by (nonlinear_arith)
                requires
                    0 <= nr <= n,
                    0 <= nc <= n,
            ;
        }
        let cap = nr * nc;
        let mut data: Vec<T> = Vec::new();
        let mut f: usize = 0;
        while f < cap
            invariant
                f <= cap,
                data@ == Seq::new(f as nat, |x: int| default),
            decreases cap - f,
        {
            data.push(default);
            f = f + 1;
            assert(data@ =~= Seq::new(f as nat, |x: int| default));
        }
        let mut g = IndexedGrid { row_idxs, col_idxs, data };
        proof {
            assert forall|i: int, j: int| 0 <= i < nr && 0 <= j < nc implies #[trigger] g.at(i, j) == default by {
                lemma_flat_index(nr as int, nc as int, Orientation::RowMajor, i, j, i, j);
            }
        }
        let mut k: usize = 0;
        while k < n
            invariant
                n == points@.len(),
                k <= n,
                g.wf(),
                g.row_keys().len() == nr,
                g.col_keys().len() == nc,
                forall|q: usize| g.row_keys().contains(q) <==> exists|x: int| 0 <= x < n && (#[trigger] points@[x]).0 == q,
                forall|q: usize| g.col_keys().contains(q) <==> exists|x: int| 0 <= x < n && (#[trigger] points@[x]).1 == q,
                !has_duplicate_point(points@),
                forall|x: int| 0 <= x < k ==> g.holds((#[trigger] points@[x]).0, points@[x].1, points@[x].2),
                forall|i: int, j: int|
                    0 <= i < nr && 0 <= j < nc && !(exists|x: int|
                        0 <= x < k && (#[trigger] points@[x]).0 == g.row_keys()[i] && points@[x].1
                            == g.col_keys()[j]) ==> #[trigger] g.at(i, j) == default,
            decreases n - k,
        {
            let p = points[k];
            proof {
                assert(g.row_keys().contains(p.0) && g.col_keys().contains(p.1)) by {
                    assert(points@[k as int].0 == p.0);
                    assert(points@[k as int].1 == p.1);
                }
            }
            let idx = match g.get_index(p.0, p.1) {
                Ok(x) => x,
                Err(_) => {
                    return Err(GridError::InvalidIndex);
                },
            };
            let ghost before = g;
            let ghost (pi, pj) = choose|i: int, j: int|
                0 <= i < nr && 0 <= j < nc && g.row_keys()[i] == p.0 && g.col_keys()[j] == p.1
                    && #[trigger] (i * (nc as int) + j) == idx;
            g.data.set(idx, p.2);
            proof {
                assert(g.at(pi, pj) == p.2);
                assert forall|x: int| 0 <= x < k + 1 implies g.holds((#[trigger] points@[x]).0, points@[x].1, points@[x].2) by {
                    if x < k {
                        let q = points@[x];
                        assert(before.holds(q.0, q.1, q.2));
                        let (qi, qj) = choose|i: int, j: int|
                            0 <= i < nr && 0 <= j < nc && before.row_keys()[i] == q.0 && before.col_keys()[j]
                                == q.1 && #[trigger] before.at(i, j) == q.2;
                        assert(!(q.0 == p.0 && q.1 == p.1)) by {
                            assert(points@[k as int] == p);
                        }
                        assert(qi != pi || qj != pj);
                        lemma_flat_index(nr as int, nc as int, Orientation::RowMajor, qi, qj, pi, pj);
                        assert(g.at(qi, qj) == before.at(qi, qj));
                    } else {
                        assert(points@[x] == p);
                    }
                }
                assert forall|i: int, j: int|
                    0 <= i < nr && 0 <= j < nc && !(exists|x: int|
                        0 <= x < k + 1 && (#[trigger] points@[x]).0 == g.row_keys()[i] && points@[x].1
                            == g.col_keys()[j]) implies #[trigger] g.at(i, j) == default by {
                    assert(!(g.row_keys()[i] == p.0 && g.col_keys()[j] == p.1)) by {
                        if g.row_keys()[i] == p.0 && g.col_keys()[j] == p.1 {
                            assert(points@[k as int] == p);
                        }
                    }
                    assert(i != pi || j != pj);
                    lemma_flat_index(nr as int, nc as int, Orientation::RowMajor, i, j, pi, pj);
                    assert(before.at(i, j) == default);
                }
            }
            k = k + 1;
        }
        Ok(g)
    }
}

} // verus!
