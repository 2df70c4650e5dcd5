//! Longest common blocks of two word sequences, the way `difflib`'s
//! sequence matcher finds them (without its junk heuristics).
use vstd::prelude::*;
use crate::text::{chars_eq, views};
use std::collections::HashMap;

verus! {

/// A matching block: `a[i..i + k] == b[j..j + k]`.
pub type Block = (int, int, int);

/// Length of the common run of `a` and `b` that ends at `a[i]`, `b[j]` and
/// starts no earlier than `a[alo]`, `b[blo]`.
pub open spec fn run_len(
    a: Seq<Seq<char>>,
    b: Seq<Seq<char>>,
    alo: int,
    blo: int,
    i: int,
    j: int,
) -> nat
    decreases i + 1 - alo,
{
    if i < alo || j < blo || i >= a.len() || j >= b.len() || a[i] != b[j] {
        0
    } else {
        1 + run_len(a, b, alo, blo, i - 1, j - 1)
    }
}

/// The best block after the cells `(i, j..bhi)` of row `i`, starting from `best`:
/// a run ending at a cell replaces the best one only when strictly longer.
pub open spec fn scan_row(
    a: Seq<Seq<char>>,
    b: Seq<Seq<char>>,
    alo: int,
    blo: int,
    bhi: int,
    i: int,
    j: int,
    best: Block,
) -> Block
    decreases bhi - j,
{
    if j >= bhi {
        best
    } else {
        let k = run_len(a, b, alo, blo, i, j);
        let nb = if k > best.2 {
            (i + 1 - k, j + 1 - k, k as int)
        } else {
            best
        };
        scan_row(a, b, alo, blo, bhi, i, j + 1, nb)
    }
}

/// The best block after the rows `i..ahi`, starting from `best`.
pub open spec fn scan_rows(
    a: Seq<Seq<char>>,
    b: Seq<Seq<char>>,
    alo: int,
    ahi: int,
    blo: int,
    bhi: int,
    i: int,
    best: Block,
) -> Block
    decreases ahi - i,
{
    if i >= ahi {
        best
    } else {
        scan_rows(a, b, alo, ahi, blo, bhi, i + 1, scan_row(a, b, alo, blo, bhi, i, blo, best))
    }
}

/// The longest block within `a[alo..ahi]` and `b[blo..bhi]`; among the
/// longest, the one that ends first (row by row), and `(alo, blo, 0)` when
/// nothing matches.
pub open spec fn longest_match(
    a: Seq<Seq<char>>,
    b: Seq<Seq<char>>,
    alo: int,
    ahi: int,
    blo: int,
    bhi: int,
) -> Block {
    scan_rows(a, b, alo, ahi, blo, bhi, alo, (alo, blo, 0))
}

pub proof fn lemma_run_len_bounds(
    a: Seq<Seq<char>>,
    b: Seq<Seq<char>>,
    alo: int,
    blo: int,
    i: int,
    j: int,
)
    requires
        0 <= alo <= i + 1,
        0 <= blo <= j + 1,
    ensures
        run_len(a, b, alo, blo, i, j) <= i + 1 - alo,
        run_len(a, b, alo, blo, i, j) <= j + 1 - blo,
        forall|p: int|
            i + 1 - run_len(a, b, alo, blo, i, j) <= p <= i ==> #[trigger] a[p] == b[p + j - i] && 0 <= p
                < a.len() && 0 <= p + j - i < b.len(),
    decreases i + 1 - alo,
{
    if !(i < alo || j < blo || i >= a.len() || j >= b.len() || a[i] != b[j]) {
        lemma_run_len_bounds(a, b, alo, blo, i - 1, j - 1);
        assert forall|p: int| i + 1 - run_len(a, b, alo, blo, i, j) <= p <= i implies #[trigger] a[p]
            == b[p + j - i] && 0 <= p < a.len() && 0 <= p + j - i < b.len() by {
            if p < i {
                assert(a[p] == b[p + (j - 1) - (i - 1)]);
            }
        }
    }
}

/// Whether `blk` is a matching block inside `a[alo..ahi]`, `b[blo..bhi]`.
pub open spec fn block_in(
    a: Seq<Seq<char>>,
    b: Seq<Seq<char>>,
    blk: Block,
    alo: int,
    ahi: int,
    blo: int,
    bhi: int,
) -> bool {
    &&& alo <= blk.0
    &&& blk.0 + blk.2 <= ahi
    &&& blo <= blk.1
    &&& blk.1 + blk.2 <= bhi
    &&& blk.2 >= 0
    &&& forall|p: int| blk.0 <= p < blk.0 + blk.2 ==> #[trigger] a[p] == b[p - blk.0 + blk.1]
}

/// The run length a map from positions holds for `t`: its value, or 0
/// where it has none.
pub open spec fn run_of(m: Map<usize, usize>, t: int) -> int {
    if 0 <= t && m.contains_key(t as usize) {
        m[t as usize] as int
    } else {
        0
    }
}

/// The longest block within `a[alo..ahi]` and `b[blo..bhi]`, see [`longest_match`].
pub fn find_longest_match(
    a: &Vec<Vec<char>>,
    b: &Vec<Vec<char>>,
    alo: usize,
    ahi: usize,
    blo: usize,
    bhi: usize,
) -> (r: (usize, usize, usize))
    requires
        alo <= ahi <= a@.len(),
        blo <= bhi <= b@.len(),
    ensures
        (r.0 as int, r.1 as int, r.2 as int) == longest_match(
            views(a@),
            views(b@),
            alo as int,
            ahi as int,
            blo as int,
            bhi as int,
        ),
        block_in(
            views(a@),
            views(b@),
            (r.0 as int, r.1 as int, r.2 as int),
            alo as int,
            ahi as int,
            blo as int,
            bhi as int,
        ),
        forall|i: int, j: int|
            alo <= i < ahi && blo <= j < bhi ==> #[trigger] run_len(
                views(a@),
                views(b@),
                alo as int,
                blo as int,
                i,
                j,
            ) <= r.2,
{
    broadcast use vstd::std_specs::hash::group_hash_axioms;
    let ghost va = views(a@);
    let ghost vb = views(b@);
    let m = bhi - blo;
    // j2len: the length of the run ending at (previous row, j), for the j
    // where it is not 0.
    let mut j2len: HashMap<usize, usize> = HashMap::new();
    let mut besti = alo;
    let mut bestj = blo;
    let mut bestsize: usize = 0;
    let mut i = alo;
    while i < ahi
        invariant
            alo <= i <= ahi <= a@.len(),
            blo <= bhi <= b@.len(),
            m == bhi - blo,
            va == views(a@),
            vb == views(b@),
            forall|t: int| blo <= t < bhi ==> #[trigger] run_of(j2len@, t) == run_len(va, vb, alo as int, blo as int, i - 1, t),
            longest_match(va, vb, alo as int, ahi as int, blo as int, bhi as int) == scan_rows(
                va, vb, alo as int, ahi as int, blo as int, bhi as int, i as int,
                (besti as int, bestj as int, bestsize as int),
            ),
            block_in(va, vb, (besti as int, bestj as int, bestsize as int), alo as int, ahi as int, blo as int, bhi as int),
            forall|ii: int, jj: int| alo <= ii < i && blo <= jj < bhi ==> #[trigger] run_len(va, vb, alo as int, blo as int, ii, jj) <= bestsize,
        decreases ahi - i,
    {
        let ghost row_best = (besti as int, bestj as int, bestsize as int);
        let mut newj2len: HashMap<usize, usize> = HashMap::new();
        let mut jj: usize = 0;
        while jj < m
            invariant
                alo <= i < ahi <= a@.len(),
                blo <= bhi <= b@.len(),
                m == bhi - blo,
                jj <= m,
                va == views(a@),
                vb == views(b@),
                forall|t: int| blo <= t < bhi ==> #[trigger] run_of(j2len@, t) == run_len(va, vb, alo as int, blo as int, i - 1, t),
                forall|t: int| blo <= t < blo + jj ==> #[trigger] run_of(newj2len@, t) == run_len(va, vb, alo as int, blo as int, i as int, t),
                forall|t: usize| #[trigger] newj2len@.contains_key(t) ==> t < blo + jj,
                scan_row(va, vb, alo as int, blo as int, bhi as int, i as int, blo as int, row_best)
                    == scan_row(va, vb, alo as int, blo as int, bhi as int, i as int, blo + jj,
                    (besti as int, bestj as int, bestsize as int)),
                block_in(va, vb, (besti as int, bestj as int, bestsize as int), alo as int, ahi as int, blo as int, bhi as int),
                forall|ii: int, jx: int| alo <= ii < i && blo <= jx < bhi ==> #[trigger] run_len(va, vb, alo as int, blo as int, ii, jx) <= bestsize,
                forall|jx: int| blo <= jx < blo + jj ==> #[trigger] run_len(va, vb, alo as int, blo as int, i as int, jx) <= bestsize,
            decreases m - jj,
        {
            let j = blo + jj;
            proof {
                lemma_run_len_bounds(va, vb, alo as int, blo as int, i as int, j as int);
                lemma_run_len_bounds(va, vb, alo as int, blo as int, i - 1, j - 1);
                assert(va[i as int] == a@[i as int]@);
                assert(vb[j as int] == b@[j as int]@);
            }
            let ghost before = newj2len@;
            if chars_eq(a[i].as_slice(), b[j].as_slice()) {
                let k: usize = if j > blo {
                    assert(run_of(j2len@, j - 1) == run_len(va, vb, alo as int, blo as int, i - 1, j - 1));
                    match j2len.get(&(j - 1)) {
                        Some(v) => *v + 1,
                        None => 1,
                    }
                } else {
                    1
                };
                assert(k == run_len(va, vb, alo as int, blo as int, i as int, j as int));
                newj2len.insert(j, k);
                if k > bestsize {
                    besti = i + 1 - k;
                    bestj = j + 1 - k;
                    bestsize = k;
                    proof {
                        assert forall|p: int| besti <= p < besti + bestsize implies #[trigger] va[p] == vb[p - besti + bestj] by {
                            assert(va[p] == vb[p + j - i]);
                        }
                    }
                }
            } else {
                assert(!newj2len@.contains_key(j));
            }
            proof {
                assert forall|t: int| blo <= t < blo + jj + 1 implies #[trigger] run_of(newj2len@, t) == run_len(va, vb, alo as int, blo as int, i as int, t) by {
                    if t < j {
                        assert(run_of(before, t) == run_len(va, vb, alo as int, blo as int, i as int, t));
                    }
                }
            }
            jj += 1;
        }
        j2len = newj2len;
        i += 1;
    }
    (besti, bestj, bestsize)
}


/// The matching blocks of `a[alo..ahi]` and `b[blo..bhi]`, in order: the
/// longest block, with the blocks before it and after it found the same way.
pub open spec fn blocks_in(
    a: Seq<Seq<char>>,
    b: Seq<Seq<char>>,
    alo: int,
    ahi: int,
    blo: int,
    bhi: int,
) -> Seq<Block>
    decreases (ahi - alo) + (bhi - blo),
{
    let m = longest_match(a, b, alo, ahi, blo, bhi);
    let (i, j, k) = m;
    if k > 0 && alo <= i && i + k <= ahi && blo <= j && j + k <= bhi {
        (if alo < i && blo < j {
            blocks_in(a, b, alo, i, blo, j)
        } else {
            seq![]
        }) + seq![m] + (if i + k < ahi && j + k < bhi {
            blocks_in(a, b, i + k, ahi, j + k, bhi)
        } else {
            seq![]
        })
    } else {
        seq![]
    }
}

/// The views of blocks.
pub open spec fn block_views(v: Seq<(usize, usize, usize)>) -> Seq<Block> {
    v.map_values(|x: (usize, usize, usize)| (x.0 as int, x.1 as int, x.2 as int))
}

fn blocks_in_exec(
    a: &Vec<Vec<char>>,
    b: &Vec<Vec<char>>,
    alo: usize,
    ahi: usize,
    blo: usize,
    bhi: usize,
    out: &mut Vec<(usize, usize, usize)>,
)
    requires
        alo <= ahi <= a@.len(),
        blo <= bhi <= b@.len(),
    ensures
        block_views(final(out)@) == block_views(old(out)@) + blocks_in(
            views(a@),
            views(b@),
            alo as int,
            ahi as int,
            blo as int,
            bhi as int,
        ),
        forall|t: int|
            old(out)@.len() <= t < final(out)@.len() ==> block_in(
                views(a@),
                views(b@),
                #[trigger] block_views(final(out)@)[t],
                alo as int,
                ahi as int,
                blo as int,
                bhi as int,
            ) && block_views(final(out)@)[t].2 > 0,
        forall|t: int| 0 <= t < old(out)@.len() ==> #[trigger] final(out)@[t] == old(out)@[t],
    decreases (ahi - alo) + (bhi - blo),
{
    let (i, j, k) = find_longest_match(a, b, alo, ahi, blo, bhi);
    let ghost va = views(a@);
    let ghost vb = views(b@);
    let ghost o = block_views(out@);
    if k > 0 {
        let ghost n0 = out@.len();
        if alo < i && blo < j {
            blocks_in_exec(a, b, alo, i, blo, j, out);
        }
        let ghost o1 = block_views(out@);
        let ghost n1 = out@.len();
        out.push((i, j, k));
        assert(block_views(out@) =~= o1.push((i as int, j as int, k as int)));
        let ghost n2 = out@.len();
        if i + k < ahi && j + k < bhi {
            blocks_in_exec(a, b, i + k, ahi, j + k, bhi, out);
        }
        proof {
            assert(block_views(out@) =~= o + blocks_in(va, vb, alo as int, ahi as int, blo as int, bhi as int));
            assert forall|t: int| n0 <= t < out@.len() implies block_in(va, vb,
                #[trigger] block_views(out@)[t], alo as int, ahi as int, blo as int, bhi as int)
                && block_views(out@)[t].2 > 0 by {
                let x = block_views(out@)[t];
                if t < n1 {
                    assert(block_in(va, vb, x, alo as int, i as int, blo as int, j as int));
                } else if t == n1 {
                } else {
                    assert(block_in(va, vb, x, i + k, ahi as int, j + k, bhi as int));
                }
            }
        }
    } else {
        assert(block_views(out@) =~= o + blocks_in(va, vb, alo as int, ahi as int, blo as int, bhi as int));
    }
}

/// The state of merging adjacent blocks: finished blocks and the current one.
pub type MergeBlocks = (Seq<Block>, Block);

/// Blocks `bs`, in order, merged where one continues the previous.
pub open spec fn merge_blocks(bs: Seq<Block>) -> MergeBlocks
    decreases bs.len(),
{
    if bs.len() == 0 {
        (seq![], (0, 0, 0))
    } else {
        let (m, cur) = merge_blocks(bs.drop_last());
        let nb = bs.last();
        if cur.0 + cur.2 == nb.0 && cur.1 + cur.2 == nb.1 {
            (m, (cur.0, cur.1, cur.2 + nb.2))
        } else {
            (
                if cur.2 > 0 {
                    m.push(cur)
                } else {
                    m
                },
                nb,
            )
        }
    }
}

/// The matching blocks of `a` and `b`: in order, adjacent ones merged, and
/// ending with `(a.len(), b.len(), 0)`.
pub open spec fn matching_blocks_spec(a: Seq<Seq<char>>, b: Seq<Seq<char>>) -> Seq<Block> {
    let (m, cur) = merge_blocks(blocks_in(a, b, 0, a.len() as int, 0, b.len() as int));
    (if cur.2 > 0 {
        m.push(cur)
    } else {
        m
    }).push((a.len() as int, b.len() as int, 0))
}

/// The matching blocks of `a` and `b`, see [`matching_blocks_spec`].
pub fn matching_blocks(a: &Vec<Vec<char>>, b: &Vec<Vec<char>>) -> (r: Vec<(usize, usize, usize)>)
    ensures
        block_views(r@) == matching_blocks_spec(views(a@), views(b@)),
        r@.len() > 0,
        forall|t: int| 0 <= t < r@.len() ==> block_in(views(a@), views(b@),
            #[trigger] block_views(r@)[t], 0, a@.len() as int, 0, b@.len() as int),
{
    let ghost va = views(a@);
    let ghost vb = views(b@);
    let mut raw: Vec<(usize, usize, usize)> = Vec::new();
    blocks_in_exec(a, b, 0, a.len(), 0, b.len(), &mut raw);
    assert(block_views(raw@) =~= blocks_in(va, vb, 0, a@.len() as int, 0, b@.len() as int));
    let mut merged: Vec<(usize, usize, usize)> = Vec::new();
    let mut i1: usize = 0;
    let mut j1: usize = 0;
    let mut k1: usize = 0;
    let mut t: usize = 0;
    while t < raw.len()
        invariant
            t <= raw@.len(),
            va == views(a@),
            vb == views(b@),
            merge_blocks(block_views(raw@).take(t as int)) == (block_views(merged@), (i1 as int, j1 as int, k1 as int)),
            forall|x: int| 0 <= x < raw@.len() ==> block_in(va, vb, #[trigger] block_views(raw@)[x], 0, a@.len() as int, 0, b@.len() as int),
            forall|x: int| 0 <= x < merged@.len() ==> block_in(va, vb, #[trigger] block_views(merged@)[x], 0, a@.len() as int, 0, b@.len() as int),
            block_in(va, vb, (i1 as int, j1 as int, k1 as int), 0, a@.len() as int, 0, b@.len() as int),
        decreases raw.len() - t,
    {
        let (i2, j2, k2) = raw[t];
        proof {
            assert(block_views(raw@).take(t + 1).drop_last() =~= block_views(raw@).take(t as int));
            assert(block_views(raw@).take(t + 1).last() == block_views(raw@)[t as int]);
            assert(block_in(va, vb, block_views(raw@)[t as int], 0, a@.len() as int, 0, b@.len() as int));
        }
        assert(i1 + k1 <= a.len() && j1 + k1 <= b.len());
        if i1 + k1 == i2 && j1 + k1 == j2 {
            proof {
                let nb = (i1 as int, j1 as int, (k1 + k2) as int);
                assert forall|p: int| nb.0 <= p < nb.0 + nb.2 implies #[trigger] va[p] == vb[p - nb.0 + nb.1] by {
                    if p < i1 + k1 {
                    } else {
                        assert(va[p] == vb[p - i2 + j2]);
                    }
                }
            }
            k1 = k1 + k2;
        } else {
            if k1 > 0 {
                let ghost before = block_views(merged@);
                merged.push((i1, j1, k1));
                assert(block_views(merged@) =~= before.push((i1 as int, j1 as int, k1 as int)));
            }
            i1 = i2;
            j1 = j2;
            k1 = k2;
        }
        t += 1;
    }
    assert(block_views(raw@).take(raw@.len() as int) =~= block_views(raw@));
    if k1 > 0 {
        let ghost before = block_views(merged@);
        merged.push((i1, j1, k1));
        assert(block_views(merged@) =~= before.push((i1 as int, j1 as int, k1 as int)));
    }
    let ghost before = block_views(merged@);
    merged.push((a.len(), b.len(), 0));
    assert(block_views(merged@) =~= before.push((a@.len() as int, b@.len() as int, 0)));
    merged
}

} // verus!
