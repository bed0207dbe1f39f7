//! Per-row candidate reduction: the K columns of smallest distance, in
//! ascending order, plus the true row minimum over all columns.
//!
//! Ties between equal distances are broken by column index, so runs are
//! reproducible. The row minimum is taken before truncation: it is the
//! per-row contribution to the admissible lower bound.

use vstd::prelude::*;

verus! {

/// Strict ordering of columns `a`, `b` by (distance, column index).
pub open spec fn key_lt(row: Seq<u64>, a: u16, b: u16) -> bool {
    row[a as int] < row[b as int] || (row[a as int] == row[b as int] && a < b)
}

pub open spec fn min2(a: int, b: int) -> int {
    if a <= b {
        a
    } else {
        b
    }
}

/// `c` is the width-`k` candidate list of a row with distances `row`:
/// strictly ascending by (distance, column), every entry a valid
/// column, and every column left out ranks above every entry kept.
pub open spec fn row_reduced(row: Seq<u64>, c: Seq<u16>, k: int) -> bool {
    &&& c.len() == min2(k, row.len() as int)
    &&& forall|x: int, y: int| 0 <= x < y < c.len() ==> key_lt(row, c[x], c[y])
    &&& forall|x: int| 0 <= x < c.len() ==> (c[x] as int) < row.len()
    &&& forall|j: u16, x: int|
        (j as int) < row.len() && 0 <= x < c.len() && !c.contains(j) ==> #[trigger] key_lt(
            row,
            c[x],
            j,
        )
}

/// `v` is the smallest distance of the row.
pub open spec fn is_row_min(row: Seq<u64>, v: u64) -> bool {
    &&& forall|j: int| 0 <= j < row.len() ==> v <= row[j]
    &&& exists|j: int| 0 <= j < row.len() && v == row[j]
}

proof fn lemma_key_total(row: Seq<u64>, a: u16, b: u16)
    requires
        a != b,
        (a as int) < row.len(),
        (b as int) < row.len(),
    ensures
        key_lt(row, a, b) || key_lt(row, b, a),
{
}

proof fn lemma_insert_contains(s: Seq<u16>, i: int, v: u16, c: u16)
    requires
        0 <= i <= s.len(),
        s.contains(c),
    ensures
        s.insert(i, v).contains(c),
{
    let x = choose|x: int| 0 <= x < s.len() && s[x] == c;
    if x < i {
        assert(s.insert(i, v)[x] == c);
    } else {
        assert(s.insert(i, v)[x + 1] == c);
    }
}

/// True when column `a` ranks strictly before column `b` in the row.
fn col_before(row: &Vec<u64>, a: u16, b: u16) -> (r: bool)
    requires
        (a as int) < row@.len(),
        (b as int) < row@.len(),
    ensures
        r == key_lt(row@, a, b),
{
    row[a as usize] < row[b as usize] || (row[a as usize] == row[b as usize] && a < b)
}

/// Computes the candidate list and the true minimum of one row.
pub fn reduce_row(row: &Vec<u64>, k: usize) -> (res: (Vec<u16>, u64))
    requires
        1 <= row@.len() <= 0xFFFF,
        k >= 1,
    ensures
        row_reduced(row@, res.0@, k as int),
        is_row_min(row@, res.1),
{
    let m = row.len();
    let mut cands: Vec<u16> = Vec::new();
    let mut rmin: u64 = row[0];
    let mut j: usize = 0;
    while j < m
        invariant
            row@.len() == m,
            1 <= m <= 0xFFFF,
            k >= 1,
            j <= m,
            cands@.len() == min2(k as int, j as int),
            forall|x: int, y: int| 0 <= x < y < cands@.len() ==> key_lt(row@, cands@[x], cands@[y]),
            forall|x: int| 0 <= x < cands@.len() ==> (cands@[x] as int) < j,
            forall|c: u16| #![trigger cands@.contains(c)]
                (c as int) < j && !cands@.contains(c) ==> cands@.len() == k && (forall|x: int|
                    0 <= x < cands@.len() ==> #[trigger] key_lt(row@, cands@[x], c)),
            forall|t: int| 0 <= t < j ==> rmin <= row@[t],
            exists|t: int| 0 <= t < m && rmin == row@[t],
        decreases m - j,
    {
        let d = row[j];
        if d < rmin {
            rmin = d;
        }
        let cj = j as u16;
        let ghost old_cands = cands@;
        let mut p: usize = 0;
        while p < cands.len() && col_before(row, cands[p], cj)
            invariant
                row@.len() == m,
                j < m,
                cj == j as u16,
                d == row@[j as int],
                cands@ == old_cands,
                forall|x: int| 0 <= x < cands@.len() ==> (cands@[x] as int) < j,
                p <= cands@.len(),
                forall|x: int| 0 <= x < p ==> key_lt(row@, cands@[x], cj),
            decreases cands@.len() - p,
        {
            p = p + 1;
        }
        proof {
            if p < old_cands.len() {
                lemma_key_total(row@, old_cands[p as int], cj);
                assert(key_lt(row@, cj, old_cands[p as int]));
            }
        }
        cands.insert(p, cj);
        proof {
            assert(cands@ == old_cands.insert(p as int, cj));
            assert(cands@[p as int] == cj);
            assert forall|x: int, y: int|
                0 <= x < y < cands@.len() implies key_lt(row@, cands@[x], cands@[y]) by {
                if y < p {
                    assert(key_lt(row@, old_cands[x], old_cands[y]));
                } else if x > p {
                    assert(key_lt(row@, old_cands[x - 1], old_cands[y - 1]));
                } else if x < p && y == p {
                    assert(key_lt(row@, old_cands[x], cj));
                } else if x == p {
                    assert(cands@[y] == old_cands[y - 1]);
                    assert(key_lt(row@, cj, old_cands[p as int]));
                    if y - 1 > p {
                        assert(key_lt(row@, old_cands[p as int], old_cands[y - 1]));
                    }
                } else {
                    // x < p < y
                    assert(key_lt(row@, old_cands[x], cj));
                    assert(cands@[y] == old_cands[y - 1]);
                    assert(key_lt(row@, cj, old_cands[p as int]));
                    if y - 1 > p {
                        assert(key_lt(row@, old_cands[p as int], old_cands[y - 1]));
                    }
                }
            }
        }
        let ghost full_cands = cands@;
        if cands.len() > k {
            let dropped = cands.pop();
            proof {
                let dr = full_cands.last();
                assert(full_cands.len() == k + 1);
                assert(cands@ =~= full_cands.drop_last());
                // every kept entry ranks below the dropped one
                assert forall|x: int| 0 <= x < cands@.len() implies key_lt(row@, cands@[x], dr) by {
                    assert(key_lt(row@, full_cands[x], full_cands[k as int]));
                }
                assert forall|c: u16| #![trigger cands@.contains(c)]
                    (c as int) < j + 1 && !cands@.contains(c) implies cands@.len() == k && (
                forall|x: int|
                    0 <= x < cands@.len() ==> #[trigger] key_lt(row@, cands@[x], c)) by {
                    if c == dr {
                    } else if full_cands.contains(c) {
                        let ci = choose|ci: int|
                            0 <= ci < full_cands.len() && full_cands[ci] == c;
                        if ci < k {
                            assert(cands@[ci] == c);
                            assert(cands@.contains(c));
                        }
                        assert(c == dr);
                    } else {
                        // c was already excluded before this step
                        assert(c != cj);
                        assert((c as int) < j);
                        if old_cands.contains(c) {
                            lemma_insert_contains(old_cands, p as int, cj, c);
                            assert(false);
                        }
                        assert(old_cands.len() == k);
                        assert forall|x: int|
                            0 <= x < cands@.len() implies #[trigger] key_lt(row@, cands@[x], c) by {
                            if cands@[x] == cj {
                                // cj kept, dr is an old element ranked below c
                                assert(key_lt(row@, cands@[x], dr));
                                let di = choose|di: int|
                                    0 <= di < old_cands.len() && old_cands[di] == dr;
                                assert(key_lt(row@, old_cands[di], c));
                            } else {
                                let xi = choose|xi: int|
                                    0 <= xi < full_cands.len() && full_cands[xi] == cands@[x];
                                if xi == p {
                                    assert(cands@[x] == cj);
                                } else if xi < p {
                                    assert(old_cands[xi] == cands@[x]);
                                    assert(key_lt(row@, old_cands[xi], c));
                                } else {
                                    assert(old_cands[xi - 1] == cands@[x]);
                                    assert(key_lt(row@, old_cands[xi - 1], c));
                                }
                            }
                        }
                    }
                }
            }
        } else {
            proof {
                assert forall|c: u16| #![trigger cands@.contains(c)]
                    (c as int) < j + 1 && !cands@.contains(c) implies cands@.len() == k && (
                forall|x: int|
                    0 <= x < cands@.len() ==> #[trigger] key_lt(row@, cands@[x], c)) by {
                    // the list was not full before, so nothing was excluded
                    assert(old_cands.len() < k);
                    if (c as int) < j {
                        if old_cands.contains(c) {
                            lemma_insert_contains(old_cands, p as int, cj, c);
                        }
                        assert(false);
                    } else {
                        assert(c == cj);
                        assert(cands@[p as int] == cj);
                        assert(cands@.contains(c));
                        assert(false);
                    }
                }
            }
        }
        proof {
            assert forall|x: int| 0 <= x < cands@.len() implies (cands@[x] as int) < j + 1 by {
                assert(cands@[x] == full_cands[x]);
                if x < p {
                    assert(full_cands[x] == old_cands[x]);
                } else if x > p {
                    assert(full_cands[x] == old_cands[x - 1]);
                }
            }
        }
        j = j + 1;
    }
    proof {
        assert forall|jj: u16, x: int|
            (jj as int) < row@.len() && 0 <= x < cands@.len() && !cands@.contains(jj)
                implies #[trigger] key_lt(row@, cands@[x], jj) by {
            assert(cands@.contains(jj) || cands@.len() == k);
        }
    }
    (cands, rmin)
}

} // verus!
