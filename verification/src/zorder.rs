use vstd::prelude::*;

use crate::error::DeltaError;
use crate::log::{entries_map, lemma_entries_map_domain, lemma_entries_map_index, OperationKind};
use crate::maintain::concat_group_rows;
use crate::paths::{lemma_path_for_injective, path_for};
use crate::rows::{cell_value, clone_row, row_wf, rows_view, DataFile, Row, RowV, Value, ValueV};
use crate::stats::{files_view, FileStatsV};
use crate::table::{find_file_index, fresh_path, lemma_store_rows_is, path_removed, store_file_wf,
    store_has, store_rows, DeltaTable};

verus! {

/// The order embedding of a cell for clustering: integers keep their order,
/// nulls and strings sort first.
pub open spec fn cell_order_key(v: ValueV) -> nat {
    match v {
        ValueV::Int(x) => (x + 0x8000_0000_0000_0000) as nat,
        _ => 0,
    }
}

/// Bit interleaving of two keys: bit `i` of each operand lands at positions
/// `2i` and `2i + 1` of the result.
pub open spec fn spec_interleave(a: nat, b: nat) -> nat
    decreases a + b,
{
    if a == 0 && b == 0 {
        0
    } else {
        (a % 2) + 2 * (b % 2) + 4 * spec_interleave(a / 2, b / 2)
    }
}

/// The interleaved-bit clustering key of a row over one or two columns.
pub open spec fn zkey(sv: Seq<Seq<char>>, cols: Seq<Seq<char>>, row: RowV) -> nat {
    if cols.len() == 1 {
        cell_order_key(cell_value(sv, row.values, cols[0]))
    } else {
        spec_interleave(
            cell_order_key(cell_value(sv, row.values, cols[0])),
            cell_order_key(cell_value(sv, row.values, cols[1])),
        )
    }
}

/// Interleaving keys below `2^n` stays below `2^(2n)`.
proof fn lemma_interleave_bound(a: nat, b: nat, n: nat)
    requires
        a < vstd::arithmetic::power2::pow2(n),
        b < vstd::arithmetic::power2::pow2(n),
    ensures
        spec_interleave(a, b) < vstd::arithmetic::power2::pow2(2 * n),
    decreases n,
{
    vstd::arithmetic::power2::lemma_pow2_pos(n);
    vstd::arithmetic::power2::lemma_pow2_pos(2 * n);
    if n == 0 {
        assert(vstd::arithmetic::power2::pow2(0) == 1) by {
            vstd::arithmetic::power2::lemma2_to64();
        }
        assert(spec_interleave(0, 0) == 0);
    } else {
        assert(vstd::arithmetic::power2::pow2(n) == 2 * vstd::arithmetic::power2::pow2((n - 1) as nat))
            by {
            vstd::arithmetic::power2::lemma_pow2_unfold(n);
        }
        assert(a / 2 < vstd::arithmetic::power2::pow2((n - 1) as nat));
        assert(b / 2 < vstd::arithmetic::power2::pow2((n - 1) as nat));
        lemma_interleave_bound(a / 2, b / 2, (n - 1) as nat);
        assert(vstd::arithmetic::power2::pow2(2 * n) == 4 * vstd::arithmetic::power2::pow2(
            (2 * (n - 1)) as nat,
        )) by {
            vstd::arithmetic::power2::lemma_pow2_unfold(2 * n);
            vstd::arithmetic::power2::lemma_pow2_unfold((2 * n - 1) as nat);
        }
        assert(spec_interleave(a, b) == (a % 2) + 2 * (b % 2) + 4 * spec_interleave(a / 2, b / 2));
        assert((a % 2) + 2 * (b % 2) <= 3);
        assert(4 * spec_interleave(a / 2, b / 2) <= 4 * (vstd::arithmetic::power2::pow2(
            (2 * (n - 1)) as nat,
        ) - 1)) by (nonlinear_arith)
            requires
                spec_interleave(a / 2, b / 2) < vstd::arithmetic::power2::pow2((2 * (n - 1)) as nat),
        ;
    }
}

/// The order key of one cell.
fn order_key(v: &Value) -> (k: u64)
    ensures
        k as nat == cell_order_key(v@),
{
    match v {
        Value::Int(x) => {
            if *x >= 0 {
                (*x as u64) + 0x8000_0000_0000_0000u64
            } else {
                (*x - i64::MIN) as u64
            }
        },
        _ => 0u64,
    }
}

/// Interleaves the bits of two keys.
fn interleave(a: u64, b: u64) -> (r: u128)
    ensures
        r as nat == spec_interleave(a as nat, b as nat),
    decreases a + b,
{
    proof {
        assert(vstd::arithmetic::power2::pow2(64) == 0x1_0000_0000_0000_0000) by {
            vstd::arithmetic::power2::lemma2_to64();
        }
        assert(vstd::arithmetic::power2::pow2(128) == 0x1_0000_0000_0000_0000_0000_0000_0000_0000)
            by {
            vstd::arithmetic::power2::lemma_pow2_adds(64, 64);
            assert(0x1_0000_0000_0000_0000 * 0x1_0000_0000_0000_0000
                == 0x1_0000_0000_0000_0000_0000_0000_0000_0000) by (nonlinear_arith);
        }
        lemma_interleave_bound(a as nat, b as nat, 64);
    }
    if a == 0 && b == 0 {
        0
    } else {
        let rest = interleave(a / 2, b / 2);
        proof {
            lemma_interleave_bound((a / 2) as nat, (b / 2) as nat, 64);
        }
        (a % 2) as u128 + 2 * ((b % 2) as u128) + 4 * rest
    }
}

/// The clustering key of one row.
fn key_of(schema: &Vec<String>, cols: &Vec<String>, row: &Row) -> (k: u128)
    requires
        row_wf(*row, schema@),
        1 <= cols@.len() <= 2,
    ensures
        k as nat == zkey(
            crate::rows::schema_view(schema@),
            cols@.map_values(|s: String| s@),
            row@,
        ),
{
    let k0 = order_key(&crate::skipping::eval_cell(schema, row, &cols[0]));
    proof {
        assert(cols@.map_values(|s: String| s@)[0] == cols@[0]@);
    }
    if cols.len() == 1 {
        k0 as u128
    } else {
        proof {
            assert(cols@.map_values(|s: String| s@)[1] == cols@[1]@);
        }
        let k1 = order_key(&crate::skipping::eval_cell(schema, row, &cols[1]));
        interleave(k0, k1)
    }
}

/// Clustering on a single column orders that column's integer values
/// themselves: rows in key order have non-decreasing column values, so the
/// statistic ranges of output files written in key order are non-decreasing
/// in file creation order. With two interleaved columns no single column
/// need be ordered.
pub proof fn lemma_single_column_order(
    sv: Seq<Seq<char>>,
    cols: Seq<Seq<char>>,
    r1: RowV,
    r2: RowV,
    x1: i64,
    x2: i64,
)
    requires
        cols.len() == 1,
        zkey(sv, cols, r1) <= zkey(sv, cols, r2),
        cell_value(sv, r1.values, cols[0]) == ValueV::Int(x1),
        cell_value(sv, r2.values, cols[0]) == ValueV::Int(x2),
    ensures
        x1 <= x2,
{
}

/// Sorted ascending by clustering key.
pub open spec fn zsorted(sv: Seq<Seq<char>>, cols: Seq<Seq<char>>, rows: Seq<RowV>) -> bool {
    forall|i: int, j: int|
        0 <= i < j < rows.len() ==> zkey(sv, cols, #[trigger] rows[i]) <= zkey(
            sv,
            cols,
            #[trigger] rows[j],
        )
}

/// Sorts rows by their clustering key, preserving them as a multiset.
fn sort_rows(schema: &Vec<String>, cols: &Vec<String>, rows: Vec<Row>) -> (out: Vec<Row>)
    requires
        forall|i: int| 0 <= i < rows@.len() ==> row_wf(#[trigger] rows@[i], schema@),
        1 <= cols@.len() <= 2,
    ensures
        rows_view(out@).to_multiset() == rows_view(rows@).to_multiset(),
        zsorted(
            crate::rows::schema_view(schema@),
            cols@.map_values(|s: String| s@),
            rows_view(out@),
        ),
        forall|i: int| 0 <= i < out@.len() ==> row_wf(#[trigger] out@[i], schema@),
{
    broadcast use vstd::seq_lib::group_seq_properties;

    let ghost sv = crate::rows::schema_view(schema@);
    let ghost cv = cols@.map_values(|s: String| s@);
    let ghost orig = rows_view(rows@);
    let mut remaining = rows;
    let mut out: Vec<Row> = Vec::new();
    proof {
        rows_view(out@).to_multiset_ensures();
        rows_view(remaining@).to_multiset_ensures();
        assert(rows_view(out@) =~= Seq::<RowV>::empty());
        assert(rows_view(out@).to_multiset().add(rows_view(remaining@).to_multiset())
            =~= orig.to_multiset());
    }
    while remaining.len() > 0
        invariant
            sv == crate::rows::schema_view(schema@),
            cv == cols@.map_values(|s: String| s@),
            1 <= cols@.len() <= 2,
            forall|i: int| 0 <= i < remaining@.len() ==> row_wf(#[trigger] remaining@[i], schema@),
            forall|i: int| 0 <= i < out@.len() ==> row_wf(#[trigger] out@[i], schema@),
            rows_view(out@).to_multiset().add(rows_view(remaining@).to_multiset())
                == orig.to_multiset(),
            zsorted(sv, cv, rows_view(out@)),
            forall|i: int, j: int|
                0 <= i < out@.len() && 0 <= j < remaining@.len() ==> zkey(
                    sv,
                    cv,
                    #[trigger] rows_view(out@)[i],
                ) <= zkey(sv, cv, #[trigger] rows_view(remaining@)[j]),
        decreases remaining@.len(),
    {
        let mut mi: usize = 0;
        let mut mk: u128 = key_of(schema, cols, &remaining[0]);
        proof {
            assert(rows_view(remaining@)[0] == remaining@[0]@);
        }
        let mut t: usize = 1;
        while t < remaining.len()
            invariant
                remaining@.len() > 0,
                mi < remaining@.len(),
                t <= remaining@.len(),
                sv == crate::rows::schema_view(schema@),
                cv == cols@.map_values(|s: String| s@),
                1 <= cols@.len() <= 2,
                forall|i: int|
                    0 <= i < remaining@.len() ==> row_wf(#[trigger] remaining@[i], schema@),
                mk as nat == zkey(sv, cv, rows_view(remaining@)[mi as int]),
                forall|i: int|
                    0 <= i < t ==> mk as nat <= zkey(sv, cv, #[trigger] rows_view(remaining@)[i]),
            decreases remaining@.len() - t,
        {
            let k = key_of(schema, cols, &remaining[t]);
            proof {
                assert(rows_view(remaining@)[t as int] == remaining@[t as int]@);
            }
            if k < mk {
                mi = t;
                mk = k;
            }
            t = t + 1;
        }
        let ghost rem0 = rows_view(remaining@);
        let ghost out0 = rows_view(out@);
        let picked = remaining.remove(mi);
        out.push(picked);
        proof {
            rem0.to_multiset_ensures();
            out0.to_multiset_ensures();
            assert(rows_view(remaining@) =~= rem0.remove(mi as int));
            assert(rows_view(out@) =~= out0.push(picked@));
            assert(picked@ == rem0[mi as int]);
            assert(rows_view(out@).to_multiset() =~= out0.to_multiset().insert(picked@));
            assert(rows_view(remaining@).to_multiset() =~= rem0.to_multiset().remove(picked@));
            assert(rem0.to_multiset().count(picked@) > 0);
            assert(rows_view(out@).to_multiset().add(rows_view(remaining@).to_multiset())
                =~= out0.to_multiset().add(rem0.to_multiset()));
            assert forall|i: int, j: int|
                0 <= i < rows_view(out@).len() && 0 <= j < rows_view(remaining@).len() implies
                zkey(sv, cv, #[trigger] rows_view(out@)[i]) <= zkey(
                sv,
                cv,
                #[trigger] rows_view(remaining@)[j],
            ) by {
                let j0 = if j < mi {
                    j
                } else {
                    j + 1
                };
                assert(rows_view(remaining@)[j] == rem0[j0]);
                if i < out0.len() {
                    assert(rows_view(out@)[i] == out0[i]);
                } else {
                    assert(rows_view(out@)[i] == picked@);
                }
            }
            assert forall|i: int, j: int|
                0 <= i < j < rows_view(out@).len() implies zkey(
                sv,
                cv,
                #[trigger] rows_view(out@)[i],
            ) <= zkey(sv, cv, #[trigger] rows_view(out@)[j]) by {
                assert(rows_view(out@)[i] == if i < out0.len() {
                    out0[i]
                } else {
                    picked@
                });
                if j < out0.len() {
                    assert(rows_view(out@)[j] == out0[j]);
                } else {
                    assert(rows_view(out@)[j] == picked@);
                    assert(picked@ == rem0[mi as int]);
                }
            }
            assert forall|i: int| 0 <= i < out@.len() implies row_wf(
                #[trigger] out@[i],
                schema@,
            ) by {
                if i < out0.len() {
                } else {
                    assert(out@[i] == picked);
                    assert(picked == if mi < remaining@.len() + 1 {
                        picked
                    } else {
                        picked
                    });
                }
            }
        }
    }
    proof {
        assert(rows_view(remaining@).len() == 0);
        rows_view(remaining@).to_multiset_ensures();
        assert(rows_view(remaining@) =~= Seq::<RowV>::empty());
        assert(rows_view(remaining@).to_multiset() =~= vstd::multiset::Multiset::<RowV>::empty());
        assert(rows_view(out@).to_multiset() =~= orig.to_multiset());
    }
    out
}

/// A clustering group: all live paths, each exactly once.
pub open spec fn covers_live(live0: Map<Seq<char>, FileStatsV>, group: Seq<Seq<char>>) -> bool {
    &&& forall|k: int| 0 <= k < group.len() ==> live0.contains_key(#[trigger] group[k])
    &&& forall|p: Seq<char>| #[trigger] live0.contains_key(p) ==> group.contains(p)
    &&& forall|k1: int, k2: int| 0 <= k1 < k2 < group.len() ==> group[k1] != group[k2]
}

/// A strictly increasing boundary sequence is monotone across any span.
pub(crate) proof fn lemma_starts_mono(starts: Seq<int>, x: int, y: int)
    requires
        forall|k: int| 0 <= k < starts.len() - 1 ==> #[trigger] starts[k] < starts[k + 1],
        0 <= x <= y < starts.len(),
    ensures
        starts[x] <= starts[y],
    decreases y - x,
{
    if x < y {
        lemma_starts_mono(starts, x, y - 1);
        assert(starts[y - 1] < starts[y]);
    }
}

impl DeltaTable {
    /// Clusters the whole table by the interleaved-bit key of the listed
    /// columns: every live file is rewritten; the rows, preserved as a
    /// multiset, are sorted by the key and split into files of at most
    /// `target_rows` rows, so that every row of an earlier output file has a
    /// key no greater than every row of a later one, and each output file is
    /// itself sorted. Committed atomically with `data_change` false. The key
    /// is 128 bits wide — two interleaved 64-bit column keys — which is the
    /// machine limit behind the two-column bound below.
    #[verifier::rlimit(100)]
    pub fn zorder_table(&mut self, columns: &Vec<String>, target_rows: usize, now: u64) -> (r:
        Result<u64, DeltaError>)
        requires
            old(self).wf(),
            old(self).log@.len() < u64::MAX,
            1 <= columns@.len() <= 2,
            target_rows >= 1,
        ensures
            final(self).wf(),
            final(self).schema@ == old(self).schema@,
            match r {
                Ok(v) => {
                    let sv = crate::rows::schema_view(old(self).schema@);
                    let cv = columns@.map_values(|s: String| s@);
                    let base = old(self).next_file_id;
                    let count = final(self).next_file_id - base;
                    &&& v as int == old(self).log@.len()
                    &&& final(self).log@.len() == old(self).log@.len() + 1
                    &&& forall|p: Seq<char>|
                        #[trigger] old(self).live().contains_key(p)
                            ==> !final(self).live().contains_key(p)
                    &&& forall|bb: int|
                        0 <= bb < count ==> zsorted(
                            sv,
                            cv,
                            #[trigger] store_rows(final(self).store@, path_for((base + bb) as nat)),
                        )
                    &&& forall|b1: int, b2: int, i: int, j: int|
                        0 <= b1 < b2 < count && 0 <= i < store_rows(
                            final(self).store@,
                            path_for((base + b1) as nat),
                        ).len() && 0 <= j < store_rows(
                            final(self).store@,
                            path_for((base + b2) as nat),
                        ).len() ==> zkey(
                            sv,
                            cv,
                            #[trigger] store_rows(final(self).store@, path_for((base + b1) as nat))[i],
                        ) <= zkey(
                            sv,
                            cv,
                            #[trigger] store_rows(final(self).store@, path_for((base + b2) as nat))[j],
                        )
                    &&& forall|bb: int|
                        0 <= bb < count ==> final(self).live().contains_key(
                            #[trigger] path_for((base + bb) as nat),
                        )
                    &&& exists|group: Seq<Seq<char>>, allv: Seq<RowV>|
                        covers_live(old(self).live(), group) && allv.to_multiset()
                            == concat_group_rows(old(self).store@, group).to_multiset() && zsorted(
                            sv,
                            cv,
                            allv,
                        ) && crate::table::concat_fresh_rows(final(self).store@, base, count as int)
                            == allv
                },
                Err(e) => {
                    &&& e == DeltaError::IoFailure
                    &&& final(self).log@ == old(self).log@
                    &&& final(self).store@ == old(self).store@
                    &&& final(self).next_file_id == old(self).next_file_id
                    &&& exists|group: Seq<Seq<char>>|
                        covers_live(old(self).live(), group) && old(self).next_file_id as int
                            + concat_group_rows(old(self).store@, group).len() > u64::MAX
                },
            },
    {
        let ghost live0 = old(self).live();
        let ghost sv = crate::rows::schema_view(old(self).schema@);
        let ghost cv = columns@.map_values(|s: String| s@);
        let ghost store0 = old(self).store@;
        let snapshot = match self.log.read_snapshot(None) {
            Ok(s) => s,
            Err(_) => {
                proof {
                    assert(false);
                }
                return Err(DeltaError::Corruption);
            },
        };
        let ghost fv = files_view(snapshot@);
        proof {
            assert(entries_map(fv) == live0);
        }
        let mut removals: Vec<String> = Vec::new();
        let ghost mut gseq: Seq<Seq<char>> = Seq::empty();
        let mut all_rows: Vec<Row> = Vec::new();
        proof {
            assert(rows_view(all_rows@) =~= Seq::<RowV>::empty());
            assert(rows_view(all_rows@) =~= concat_group_rows(store0, gseq));
        }
        let mut i: usize = 0;
        while i < snapshot.len()
            invariant
                i <= snapshot.len(),
                self == old(self),
                old(self).wf(),
                live0 == old(self).live(),
                store0 == old(self).store@,
                fv == files_view(snapshot@),
                fv.len() == snapshot@.len(),
                crate::log::unique_paths(fv),
                entries_map(fv) == live0,
                gseq.len() == removals@.len(),
                gseq.len() == i,
                forall|k: int| 0 <= k < gseq.len() ==> #[trigger] gseq[k] == removals@[k]@,
                forall|k: int| 0 <= k < i ==> #[trigger] gseq[k] == fv[k].path,
                rows_view(all_rows@) == concat_group_rows(store0, gseq),
                forall|k: int|
                    0 <= k < all_rows@.len() ==> row_wf(#[trigger] all_rows@[k], old(self).schema@),
            decreases snapshot.len() - i,
        {
            let ghost p = fv[i as int].path;
            proof {
                lemma_entries_map_index(fv, i as int);
                assert(live0.contains_key(p) && live0[p] == fv[i as int]);
                assert(store_has(store0, p));
                assert(fv[i as int] == snapshot@[i as int]@);
            }
            let j = match find_file_index(&self.store, &snapshot[i].path) {
                Some(j) => j,
                None => {
                    proof {
                        assert(false);
                    }
                    return Err(DeltaError::NotFound);
                },
            };
            proof {
                lemma_store_rows_is(store0, j as int);
                assert(store_rows(store0, p) == rows_view(self.store@[j as int].rows@));
                assert(store_file_wf(self.store@[j as int], self.schema@, self.next_file_id));
            }
            let ghost crows0 = rows_view(all_rows@);
            let mut k: usize = 0;
            while k < self.store[j].rows.len()
                invariant
                    (j as int) < self.store@.len(),
                    k <= self.store@[j as int].rows@.len(),
                    self == old(self),
                    old(self).wf(),
                    store0 == old(self).store@,
                    forall|kk: int|
                        0 <= kk < self.store@[j as int].rows@.len() ==> row_wf(
                            #[trigger] self.store@[j as int].rows@[kk],
                            old(self).schema@,
                        ),
                    rows_view(all_rows@) == crows0 + rows_view(self.store@[j as int].rows@).take(
                        k as int,
                    ),
                    forall|kk: int|
                        0 <= kk < all_rows@.len() ==> row_wf(
                            #[trigger] all_rows@[kk],
                            old(self).schema@,
                        ),
                decreases self.store@[j as int].rows@.len() - k,
            {
                let ghost av0 = rows_view(all_rows@);
                let ghost frv = rows_view(self.store@[j as int].rows@);
                let copy = clone_row(&self.store[j].rows[k]);
                proof {
                    assert(copy@ == frv[k as int]);
                    assert(copy@.values.len() == copy.values@.len());
                    assert(frv[k as int].values.len() == self.store@[j as int].rows@[k
                        as int].values@.len());
                    assert(row_wf(copy, old(self).schema@));
                }
                all_rows.push(copy);
                proof {
                    assert(rows_view(all_rows@) =~= av0.push(frv[k as int]));
                    assert(rows_view(all_rows@) =~= crows0 + frv.take(k + 1));
                }
                k = k + 1;
            }
            removals.push(snapshot[i].path.clone());
            proof {
                assert(removals@[removals@.len() - 1]@ == p);
                let gseq0 = gseq;
                gseq = gseq.push(p);
                assert(gseq.last() == p);
                assert(gseq.drop_last() =~= gseq0);
                let frv = rows_view(self.store@[j as int].rows@);
                assert(frv.take(frv.len() as int) =~= frv);
                assert(rows_view(all_rows@) == crows0 + store_rows(store0, p));
                assert(concat_group_rows(store0, gseq) == concat_group_rows(store0, gseq0)
                    + store_rows(store0, p));
            }
            i = i + 1;
        }
        let ghost allv0 = rows_view(all_rows@);
        proof {
            assert(covers_live(live0, gseq)) by {
                assert forall|pp: Seq<char>| #[trigger] live0.contains_key(pp) implies
                    gseq.contains(pp) by {
                    lemma_entries_map_domain(fv, pp);
                    let ii = choose|ii: int| 0 <= ii < fv.len() && fv[ii].path == pp;
                    assert(gseq[ii] == pp);
                }
                assert forall|k1: int, k2: int| 0 <= k1 < k2 < gseq.len() implies gseq[k1]
                    != gseq[k2] by {
                    assert(gseq[k1] == fv[k1].path);
                    assert(gseq[k2] == fv[k2].path);
                }
                assert forall|k: int| 0 <= k < gseq.len() implies live0.contains_key(
                    #[trigger] gseq[k],
                ) by {
                    lemma_entries_map_index(fv, k);
                }
            }
        }
        // A fresh file id is drawn per output file, and no more output files
        // are written than rows exist; refuse the rewrite if the id counter
        // cannot cover that.
        if all_rows.len() as u64 > u64::MAX - self.next_file_id {
            proof {
                assert(allv0.len() == all_rows@.len());
                assert(allv0 == concat_group_rows(store0, gseq));
            }
            return Err(DeltaError::IoFailure);
        }
        let n_headroom = all_rows.len();
        let sorted = sort_rows(&self.schema, columns, all_rows);
        let ghost allv = rows_view(sorted@);
        let n = sorted.len();
        proof {
            allv.to_multiset_ensures();
            allv0.to_multiset_ensures();
            assert(allv.len() == allv0.len());
            assert(n == n_headroom);
        }
        let mut batches: Vec<Vec<Row>> = Vec::new();
        let ghost mut starts: Seq<int> = seq![0int];
        let mut start: usize = 0;
        while start < n
            invariant
                start <= n,
                n == sorted@.len(),
                target_rows >= 1,
                sv == crate::rows::schema_view(self.schema@),
                self == old(self),
                allv == rows_view(sorted@),
                allv.len() == n,
                forall|k: int| 0 <= k < sorted@.len() ==> row_wf(#[trigger] sorted@[k], old(self).schema@),
                starts.len() == batches@.len() + 1,
                starts[0] == 0,
                starts.last() == start as int,
                forall|k: int| 0 <= k < starts.len() - 1 ==> #[trigger] starts[k] < starts[k + 1],
                forall|k: int| 0 <= k < starts.len() ==> 0 <= #[trigger] starts[k] <= n,
                forall|bb: int|
                    0 <= bb < batches@.len() ==> rows_view(#[trigger] batches@[bb]@)
                        == allv.subrange(starts[bb], starts[bb + 1]),
                forall|bb: int, ii: int|
                    0 <= bb < batches@.len() && 0 <= ii < batches@[bb]@.len() ==> row_wf(
                        #[trigger] batches@[bb]@[ii],
                        old(self).schema@,
                    ),
                batches@.len() <= start as int,
            decreases n - start,
        {
            let end = if n - start < target_rows {
                n
            } else {
                start + target_rows
            };
            let mut chunk: Vec<Row> = Vec::new();
            let mut k: usize = start;
            proof {
                assert(rows_view(chunk@) =~= allv.subrange(start as int, start as int));
            }
            while k < end
                invariant
                    start <= k <= end,
                    end <= n,
                    n == sorted@.len(),
                    allv == rows_view(sorted@),
                    forall|kk: int|
                        0 <= kk < sorted@.len() ==> row_wf(#[trigger] sorted@[kk], old(self).schema@),
                    self == old(self),
                    rows_view(chunk@) == allv.subrange(start as int, k as int),
                    forall|kk: int|
                        0 <= kk < chunk@.len() ==> row_wf(#[trigger] chunk@[kk], old(self).schema@),
                decreases end - k,
            {
                let ghost ch0 = rows_view(chunk@);
                let copy = clone_row(&sorted[k]);
                proof {
                    assert(copy@ == allv[k as int]);
                    assert(copy@.values.len() == copy.values@.len());
                    assert(allv[k as int].values.len() == sorted@[k as int].values@.len());
                    assert(row_wf(copy, old(self).schema@));
                }
                chunk.push(copy);
                proof {
                    assert(rows_view(chunk@) =~= ch0.push(allv[k as int]));
                    assert(rows_view(chunk@) =~= allv.subrange(start as int, k + 1));
                }
                k = k + 1;
            }
            batches.push(chunk);
            proof {
                let starts0 = starts;
                starts = starts.push(end as int);
                assert(starts.drop_last() =~= starts0);
                assert(starts.last() == end as int);
                assert(rows_view(batches@[batches@.len() - 1]@) == allv.subrange(
                    start as int,
                    end as int,
                ));
                assert forall|bb: int| 0 <= bb < batches@.len() implies rows_view(
                    #[trigger] batches@[bb]@,
                ) == allv.subrange(starts[bb], starts[bb + 1]) by {
                    if bb < batches@.len() - 1 {
                        assert(starts[bb] == starts0[bb]);
                        assert(starts[bb + 1] == starts0[bb + 1]);
                    } else {
                        assert(starts[bb] == start as int);
                        assert(starts[bb + 1] == end as int);
                    }
                }
            }
            start = end;
        }
        proof {
            assert(batches@.len() <= n_headroom);
            assert(self.next_file_id + batches@.len() <= u64::MAX);
        }
        let ghost base_id = self.next_file_id;
        let ghost count = batches@.len() as int;
        let ghost bseq = batches@;
        match self.apply_rewrite(&removals, batches, OperationKind::Optimize, false, now) {
            Ok(v) => {
                proof {
                    assert forall|p: Seq<char>| #[trigger] old(self).live().contains_key(p) implies
                        !self.live().contains_key(p) by {
                        assert(live0.contains_key(p));
                        lemma_entries_map_domain(fv, p);
                        let ii = choose|ii: int| 0 <= ii < fv.len() && fv[ii].path == p;
                        assert(gseq[ii] == fv[ii].path);
                        assert(removals@[ii]@ == p);
                        assert(path_removed(removals@, p));
                        assert(!fresh_path(base_id, count, p)) by {
                            if fresh_path(base_id, count, p) {
                                assert(store_has(store0, p));
                                let jj = choose|jj: int|
                                    0 <= jj < store0.len() && #[trigger] store0[jj].path@ == p;
                                assert(store_file_wf(
                                    old(self).store@[jj],
                                    old(self).schema@,
                                    base_id,
                                ));
                                let id0 = choose|id0: nat|
                                    id0 < base_id && old(self).store@[jj].path@ == path_for(id0);
                                let id1 = choose|id1: nat|
                                    base_id <= id1 < base_id + count && p == #[trigger] path_for(
                                        id1,
                                    );
                                lemma_path_for_injective(id0, id1);
                            }
                        }
                    }
                    let fresh_count = self.next_file_id - base_id;
                    assert(fresh_count == count);
                    assert forall|bb: int| 0 <= bb < count implies zsorted(
                        sv,
                        cv,
                        #[trigger] store_rows(self.store@, path_for((base_id + bb) as nat)),
                    ) by {
                        assert(store_rows(self.store@, path_for((base_id + bb) as nat))
                            == rows_view(bseq[bb]@));
                        assert(rows_view(bseq[bb]@) == allv.subrange(starts[bb], starts[bb + 1]));
                    }
                    assert forall|b1: int, b2: int, i2: int, j2: int|
                        0 <= b1 < b2 < count && 0 <= i2 < store_rows(
                            self.store@,
                            path_for((base_id + b1) as nat),
                        ).len() && 0 <= j2 < store_rows(
                            self.store@,
                            path_for((base_id + b2) as nat),
                        ).len() implies zkey(
                        sv,
                        cv,
                        #[trigger] store_rows(self.store@, path_for((base_id + b1) as nat))[i2],
                    ) <= zkey(
                        sv,
                        cv,
                        #[trigger] store_rows(self.store@, path_for((base_id + b2) as nat))[j2],
                    ) by {
                        assert(store_rows(self.store@, path_for((base_id + b1) as nat))
                            == rows_view(bseq[b1]@));
                        assert(store_rows(self.store@, path_for((base_id + b2) as nat))
                            == rows_view(bseq[b2]@));
                        assert(rows_view(bseq[b1]@) == allv.subrange(starts[b1], starts[b1 + 1]));
                        assert(rows_view(bseq[b2]@) == allv.subrange(starts[b2], starts[b2 + 1]));
                        lemma_starts_mono(starts, b1 + 1, b2);
                        assert(rows_view(bseq[b1]@)[i2] == allv[starts[b1] + i2]);
                        assert(rows_view(bseq[b2]@)[j2] == allv[starts[b2] + j2]);
                        assert(starts[b1] + i2 < starts[b1 + 1]);
                        assert(starts[b1] + i2 < starts[b2] + j2);
                    }
                    assert(covers_live(live0, gseq)) by {
                        assert forall|p: Seq<char>| #[trigger] live0.contains_key(p) implies
                            gseq.contains(p) by {
                            lemma_entries_map_domain(fv, p);
                            let ii = choose|ii: int| 0 <= ii < fv.len() && fv[ii].path == p;
                            assert(gseq[ii] == p);
                        }
                        assert forall|k1: int, k2: int| 0 <= k1 < k2 < gseq.len() implies gseq[k1]
                            != gseq[k2] by {
                            assert(gseq[k1] == fv[k1].path);
                            assert(gseq[k2] == fv[k2].path);
                        }
                        assert forall|k: int| 0 <= k < gseq.len() implies live0.contains_key(
                            #[trigger] gseq[k],
                        ) by {
                            lemma_entries_map_index(fv, k);
                        }
                    }
                    assert(allv.to_multiset() == concat_group_rows(store0, gseq).to_multiset()) by {
                        assert(allv0 == concat_group_rows(store0, gseq));
                    }
                    assert forall|bb: int| 0 <= bb < count implies self.live().contains_key(
                        #[trigger] path_for((base_id + bb) as nat),
                    ) by {
                        assert(base_id <= (base_id + bb) as nat && ((base_id + bb) as nat)
                            < base_id + count);
                        assert(fresh_path(base_id, count, path_for((base_id + bb) as nat)));
                    }
                    assert forall|bb: int|
                        0 <= bb < starts.len() - 1 implies #[trigger] store_rows(
                        self.store@,
                        path_for((base_id + bb) as nat),
                    ) == allv.subrange(starts[bb], starts[bb + 1]) by {
                        assert(store_rows(self.store@, path_for((base_id + bb) as nat))
                            == rows_view(bseq[bb]@));
                        assert(rows_view(bseq[bb]@) == allv.subrange(starts[bb], starts[bb + 1]));
                    }
                    crate::table::lemma_concat_fresh(self.store@, base_id, starts, allv, count);
                    assert(starts[count] == n as int);
                    assert(allv.take(n as int) =~= allv);
                    assert(crate::table::concat_fresh_rows(self.store@, base_id, count) == allv);
                    assert((self.next_file_id - base_id) as int == count);
                }
                Ok(v)
            },
            Err(_) => {
                proof {
                    assert(false);
                }
                Err(DeltaError::IoFailure)
            },
        }
    }
}

} // verus!
