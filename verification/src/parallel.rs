//! The partitioned query executor: it cuts the block list of a range
//! query into contiguous parts of near-equal length and runs one range
//! query per part.  Because the parts are contiguous in position space,
//! the concatenation of their results equals the single-threaded scan;
//! workers that run the parts on separate file handles inherit the same
//! bounds and therefore the same result.
use vstd::prelude::*;
use vstd::string::StringExecFns;
use crate::DbError;
use crate::query::RowReader;
use crate::query::entries_sorted;
use crate::query::first_above;
use crate::query::first_at_or_above;
use crate::query::lemma_first_above;
use crate::query::lemma_first_at_or_above;
use crate::query::spec_get_range;
use crate::rows::CellModel;
use crate::rows::Row;
use crate::rows::lemma_rows_in_range_none;
use crate::rows::row_pos;
use crate::rows::rows_in_range;
use crate::rows::rows_sorted;

verus! {

/// For sorted rows, a range scan can be cut at any midpoint: the rows
/// in `[s, e)` are the rows in `[s, m)` followed by the rows in `[m, e)`.
pub proof fn lemma_rows_in_range_split(rows: Seq<Seq<CellModel>>, s: int, m: int, e: int)
    requires
        rows_sorted(rows),
        s <= m <= e,
    ensures
        rows_in_range(rows, s, e) == rows_in_range(rows, s, m) + rows_in_range(rows, m, e),
    decreases rows.len(),
{
    if rows.len() == 0 {
        assert(rows_in_range(rows, s, m) + rows_in_range(rows, m, e) =~= Seq::<
            Seq<CellModel>,
        >::empty());
    } else {
        let r = rows.first();
        let p = row_pos(r);
        assert(rows_sorted(rows.drop_first())) by {
            assert(forall|i: int, j: int|
                0 <= i <= j < rows.drop_first().len() ==> row_pos(
                    #[trigger] rows.drop_first()[i],
                ) <= row_pos(#[trigger] rows.drop_first()[j]));
        };
        lemma_rows_in_range_split(rows.drop_first(), s, m, e);
        if s <= p < m {
            assert(seq![r] + (rows_in_range(rows.drop_first(), s, m) + rows_in_range(
                rows.drop_first(),
                m,
                e,
            )) =~= (seq![r] + rows_in_range(rows.drop_first(), s, m)) + rows_in_range(
                rows.drop_first(),
                m,
                e,
            ));
        } else if m <= p < e {
            // every later row is at or past `p`, hence at or past `m`
            assert forall|i: int| 0 <= i < rows.drop_first().len() implies !(s <= row_pos(
                #[trigger] rows.drop_first()[i],
            ) < m) by {
                assert(row_pos(rows[0]) <= row_pos(rows[i + 1]));
            };
            lemma_rows_in_range_none(rows.drop_first(), s, m);
            assert(rows_in_range(rows, s, m) =~= Seq::<Seq<CellModel>>::empty());
            assert(Seq::<Seq<CellModel>>::empty() + (seq![r] + rows_in_range(
                rows.drop_first(),
                m,
                e,
            )) =~= seq![r] + rows_in_range(rows.drop_first(), m, e));
        }
    }
}

/// A well-formed table's rows stand in ascending position order, and the
/// rows of blocks `k` onward all lie at or past block `k`'s key.
proof fn lemma_rows_from_sorted(r: &RowReader, k: int)
    requires
        r.wf(),
        0 <= k <= r.n_blocks(),
    ensures
        rows_sorted(r.rows_from(k)),
        k < r.n_blocks() ==> forall|j: int|
            0 <= j < r.rows_from(k).len() ==> row_pos(#[trigger] r.rows_from(k)[j])
                >= r.index.inner@[k].0 as int,
    decreases r.n_blocks() - k,
{
    if k < r.n_blocks() {
        assert(r.block_wf(k));
        lemma_rows_from_sorted(r, k + 1);
        let b = r.block_rows(k);
        let rest = r.rows_from(k + 1);
        assert(r.rows_from(k) == b + rest);
        assert forall|i: int, j: int| 0 <= i <= j < r.rows_from(k).len() implies row_pos(
            #[trigger] r.rows_from(k)[i],
        ) <= row_pos(#[trigger] r.rows_from(k)[j]) by {
            if j < b.len() {
                assert(r.rows_from(k)[i] == b[i]);
                assert(r.rows_from(k)[j] == b[j]);
            } else if i >= b.len() {
                assert(r.rows_from(k)[i] == rest[i - b.len()]);
                assert(r.rows_from(k)[j] == rest[j - b.len()]);
            } else {
                assert(r.rows_from(k)[i] == b[i]);
                assert(r.rows_from(k)[j] == rest[j - b.len()]);
                assert(row_pos(b[i]) < r.index.inner@[k + 1].0 as int);
                assert(row_pos(rest[j - b.len()]) >= r.index.inner@[k + 1].0 as int);
            }
        };
        assert forall|j: int| 0 <= j < r.rows_from(k).len() implies row_pos(
            #[trigger] r.rows_from(k)[j],
        ) >= r.index.inner@[k].0 as int by {
            if j < b.len() {
                assert(r.rows_from(k)[j] == b[j]);
            } else {
                assert(r.rows_from(k)[j] == rest[j - b.len()]);
                assert(row_pos(rest[j - b.len()]) >= r.index.inner@[k + 1].0 as int);
                assert(r.index.inner@[k].0 < r.index.inner@[k + 1].0);
            }
        };
    }
}

/// A well-formed table's rows stand in ascending position order.
pub proof fn lemma_table_rows_sorted(r: &RowReader)
    requires
        r.wf(),
    ensures
        rows_sorted(r.table_rows()),
{
    lemma_rows_from_sorted(r, 0);
}

/// How many blocks the first `p` parts cover when `rem` of them carry
/// one extra block.
#[verifier::opaque]
pub open spec fn part_prefix(p: int, base: int, rem: int) -> int {
    p * base + if p <= rem {
        p
    } else {
        rem
    }
}

impl RowReader {
    /// Cut a range query into up to `num_parts` contiguous sub-queries
    /// of near-equal block count.  The first pair starts at the query
    /// start, the last ends at the query end, consecutive pairs share
    /// their boundary, and every interior boundary lies strictly inside
    /// the queried interval.
    #[verifier::rlimit(100)]
    #[verifier::spinoff_prover]
    pub fn partition_bounds(
        &self,
        position_value_start: u64,
        position_value_end: u64,
        num_parts: usize,
    ) -> (r: Vec<(u64, u64)>)
        requires
            num_parts >= 1,
        ensures
            self.wf() ==> {
                &&& r@.len() >= 1
                &&& r@[0].0 == position_value_start
                &&& r@[r@.len() - 1].1 == position_value_end
                &&& forall|k: int| 0 <= k < r@.len() - 1 ==> (#[trigger] r@[k]).1 == r@[k + 1].0
                &&& forall|k: int|
                    0 < k < r@.len() ==> position_value_start < (#[trigger] r@[k]).0
                        < position_value_end
                &&& forall|k: int|
                    0 <= k < r@.len() - 1 ==> (#[trigger] r@[k]).0 as int <= r@[k].1 as int
                &&& ({
                    let sel = spec_get_range(
                        self.index.inner@,
                        position_value_start,
                        position_value_end,
                    );
                    &&& ((sel.len() <= 1 || num_parts == 1) ==> r@.len() == 1)
                    &&& (sel.len() > 1 && num_parts > 1 ==> {
                        let np = if num_parts < sel.len() {
                            num_parts as int
                        } else {
                            sel.len() as int
                        };
                        &&& r@.len() == np
                        &&& forall|k: int|
                            0 < k < np ==> (#[trigger] r@[k]).0 == sel[part_prefix(
                                k,
                                sel.len() as int / np,
                                sel.len() as int % np,
                            )].0
                    })
                })
            },
    {
        let mut out: Vec<(u64, u64)> = Vec::new();
        if !self.index.check_sorted() {
            out.push((position_value_start, position_value_end));
            return out;
        }
        let sel = self.index.get_range(position_value_start, position_value_end);
        let ghost es = self.index.inner@;
        let ghost above = first_above(es, position_value_start);
        let ghost lo: int = if above == 0 {
            0
        } else {
            above - 1
        };
        let ghost hi = first_at_or_above(es, position_value_end);
        proof {
            lemma_first_above(es, position_value_start);
            lemma_first_at_or_above(es, position_value_end);
        }
        if sel.len() <= 1 || num_parts == 1 {
            out.push((position_value_start, position_value_end));
            return out;
        }
        proof {
            assert(hi > lo);
            assert(sel@ == es.subrange(lo, hi));
        }
        let n_parts = if num_parts < sel.len() {
            num_parts
        } else {
            sel.len()
        };
        let base = sel.len() / n_parts;
        let rem = sel.len() % n_parts;
        let mut cur: u64 = position_value_start;
        let mut cum: usize = 0;
        let mut p: usize = 0;
        proof {
            assert(part_prefix(0, base as int, rem as int) == 0) by {
                reveal(part_prefix);
            };
        }
        while p < n_parts
            invariant
                p <= n_parts <= sel@.len(),
                2 <= n_parts,
                base == sel@.len() as int / n_parts as int,
                rem == sel@.len() as int % n_parts as int,
                sel@.len() <= usize::MAX,
                cum <= sel@.len(),
                cum as int == part_prefix(p as int, base as int, rem as int),
                out@.len() == p,
                p >= 1 ==> out@[p - 1].1 == cur,
                p == 0 ==> cur == position_value_start,
                p == n_parts ==> cur == position_value_end,
                p >= 1 ==> out@[0].0 == position_value_start,
                forall|k: int| 0 <= k < p - 1 ==> (#[trigger] out@[k]).1 == out@[k + 1].0,
                entries_sorted(es),
                es == self.index.inner@,
                above == first_above(es, position_value_start),
                lo == (if above == 0 { 0int } else { above - 1 }),
                hi == first_at_or_above(es, position_value_end),
                lo + sel@.len() == hi,
                hi <= es.len(),
                sel@ == es.subrange(lo, hi),
                forall|k: int|
                    0 < k < p ==> position_value_start < (#[trigger] out@[k]).0
                        < position_value_end,
                forall|k: int|
                    0 <= k < p ==> (#[trigger] out@[k]).0 as int <= out@[k].1 as int,
                p >= 1 && p < n_parts ==> position_value_start < cur < position_value_end,
                p >= 1 && p < n_parts ==> lo + cum < hi && 1 <= cum && cur == es[lo + cum].0,
                p >= 1 ==> position_value_start <= cur,
                forall|k: int|
                    0 < k < p ==> (#[trigger] out@[k]).0 == sel@[part_prefix(
                        k,
                        base as int,
                        rem as int,
                    )].0,
                p >= 1 && p < n_parts ==> cum as int == part_prefix(p as int, base as int, rem as int),
            decreases n_parts - p,
        {
            proof {
                lemma_first_above(es, position_value_start);
                lemma_first_at_or_above(es, position_value_end);
                lemma_part_prefix_step(
                    p as int,
                    base as int,
                    rem as int,
                    n_parts as int,
                    sel@.len() as int,
                );
            }
            let size = if p < rem {
                base + 1
            } else {
                base
            };
            let next_cum = cum + size;
            let next: u64 = if p + 1 == n_parts {
                position_value_end
            } else {
                sel[next_cum].0
            };
            proof {
                if p + 1 < n_parts {
                    assert(next_cum as int == part_prefix(p as int + 1, base as int, rem as int));
                    assert((next_cum as int) < sel@.len());
                    assert(next_cum as int >= 1);
                    assert(sel@[next_cum as int] == es.subrange(lo, hi)[next_cum as int]);
                    assert(sel@[next_cum as int] == es[lo + next_cum]);
                    assert(lo + next_cum >= above);
                    assert(es[lo + next_cum].0 > position_value_start);
                    assert(lo + next_cum < hi);
                    assert(es[lo + next_cum].0 < position_value_end);
                }
                if p >= 1 && p + 1 < n_parts {
                    assert(es[lo + cum].0 < es[lo + next_cum].0);
                }
                assert(cur <= next);
            }
            out.push((cur, next));
            cur = next;
            cum = next_cum;
            p = p + 1;
        }
        proof {
            assert(out@[out@.len() - 1].1 == position_value_end);
        }
        out
    }

    /// Run one range query as up to `num_parts` contiguous sub-queries
    /// and concatenate their results: the outcome equals the
    /// single-threaded scan, row for row and in the same order.
    pub fn query_range_parallel(
        &self,
        position_value_start: u64,
        position_value_end: u64,
        num_parts: usize,
    ) -> (r: Result<Vec<Row>, DbError>)
        requires
            num_parts >= 1,
        ensures
            self.wf() ==> (r matches Ok(out) && out.deep_view() == rows_in_range(
                self.table_rows(),
                position_value_start as int,
                position_value_end as int,
            )),
    {
        let ghost s = position_value_start as int;
        let ghost e = position_value_end as int;
        let bounds = self.partition_bounds(position_value_start, position_value_end, num_parts);
        if bounds.len() == 0 {
            proof {
                if self.wf() {
                    assert(false);
                }
            }
            return Err(DbError::OutOfRange(String::from_str("no query partitions")));
        }
        let mut out: Vec<Row> = Vec::new();
        let mut k: usize = 0;
        proof {
            if self.wf() {
                lemma_table_rows_sorted(self);
                crate::rows::lemma_rows_in_range_degenerate(self.table_rows(), s, s);
                assert(out.deep_view() =~= Seq::<Seq<CellModel>>::empty());
            }
        }
        while k < bounds.len()
            invariant
                k <= bounds@.len(),
                bounds@.len() >= 1,
                s == position_value_start as int,
                e == position_value_end as int,
                self.wf() ==> {
                    &&& bounds@[0].0 == position_value_start
                    &&& bounds@[bounds@.len() - 1].1 == position_value_end
                    &&& (forall|t: int|
                        0 <= t < bounds@.len() - 1 ==> (#[trigger] bounds@[t]).1 == bounds@[t
                            + 1].0)
                    &&& (forall|t: int|
                        0 < t < bounds@.len() ==> position_value_start < (
                        #[trigger] bounds@[t]).0 < position_value_end)
                    &&& (forall|t: int|
                        0 <= t < bounds@.len() - 1 ==> (#[trigger] bounds@[t]).0 as int
                            <= bounds@[t].1 as int)
                    &&& rows_sorted(self.table_rows())
                    &&& out.deep_view() == rows_in_range(
                        self.table_rows(),
                        s,
                        if k == 0 {
                            s
                        } else {
                            bounds@[k - 1].1 as int
                        },
                    )
                    &&& (k >= 1 && k < bounds@.len() ==> bounds@[k - 1].1 == bounds@[k as int].0)
                },
            decreases bounds@.len() - k,
        {
            let pair = bounds[k];
            let mut part = match self.query_range(pair.0, pair.1) {
                Ok(rows) => rows,
                Err(err) => {
                    proof {
                        if self.wf() {
                            assert(false);
                        }
                    }
                    return Err(err);
                },
            };
            let ghost out_before = out.deep_view();
            let ghost part_deep = part.deep_view();
            out.append(&mut part);
            k = k + 1;
            proof {
                if self.wf() {
                    assert(out.deep_view() =~~= out_before + part_deep);
                    let a = if k == 1 {
                        s
                    } else {
                        bounds@[k - 2].1 as int
                    };
                    let b = bounds@[k - 1].0 as int;
                    let c = bounds@[k - 1].1 as int;
                    assert(a == b);
                    if k < bounds@.len() {
                        assert(s <= b <= c <= e) by {
                            if k >= 2 {
                                assert(position_value_start < bounds@[k - 1].0);
                            }
                            assert(bounds@[k - 1].1 == bounds@[k as int].0);
                            if k == bounds@.len() - 1 {
                                assert(position_value_start < bounds@[k as int].0
                                    < position_value_end);
                            } else {
                                assert(position_value_start < bounds@[k as int].0
                                    < position_value_end);
                            }
                        };
                        lemma_rows_in_range_split(self.table_rows(), s, b, c);
                    } else {
                        assert(c == e);
                        assert(s <= b) by {
                            if k >= 2 {
                                assert(position_value_start < bounds@[k - 1].0);
                            }
                        };
                        if b <= e {
                            lemma_rows_in_range_split(self.table_rows(), s, b, c);
                        } else {
                            // a query whose start exceeds its end selects nothing
                            crate::rows::lemma_rows_in_range_degenerate(
                                self.table_rows(),
                                b,
                                c,
                            );
                            crate::rows::lemma_rows_in_range_degenerate(
                                self.table_rows(),
                                s,
                                c,
                            );
                            crate::rows::lemma_rows_in_range_degenerate(
                                self.table_rows(),
                                s,
                                b,
                            );
                            assert(out.deep_view() =~~= rows_in_range(self.table_rows(), s, c));
                        }
                    }
                    assert(out.deep_view() =~~= rows_in_range(self.table_rows(), s, c));
                }
            }
        }
        proof {
            if self.wf() {
                assert(out.deep_view() == rows_in_range(self.table_rows(), s, e));
            }
        }
        Ok(out)
    }
}

/// One partition step: the covered prefix grows by this part's size and
/// stays within the block count, strictly within it while parts remain.
proof fn lemma_part_prefix_step(p: int, base: int, rem: int, n_parts: int, len: int)
    requires
        0 <= p < n_parts,
        2 <= n_parts <= len,
        base == len / n_parts,
        rem == len % n_parts,
    ensures
        base >= 1,
        base + 1 <= len,
        part_prefix(p + 1, base, rem) == part_prefix(p, base, rem) + (if p < rem {
            base + 1
        } else {
            base
        }),
        part_prefix(p + 1, base, rem) <= len,
        p + 1 < n_parts ==> part_prefix(p + 1, base, rem) < len,
        part_prefix(p, base, rem) >= 0,
        p >= 1 ==> part_prefix(p, base, rem) >= 1,
        part_prefix(p + 1, base, rem) >= 1,
        p + 1 == n_parts ==> part_prefix(p + 1, base, rem) == len,
{
    reveal(part_prefix);
    vstd::arithmetic::div_mod::lemma_fundamental_div_mod(len, n_parts);
    vstd::arithmetic::div_mod::lemma_mod_bound(len, n_parts);
    vstd::arithmetic::div_mod::lemma_div_pos_is_pos(len, n_parts);
    vstd::arithmetic::div_mod::lemma_div_non_zero(len, n_parts);
    assert((p + 1) * base == p * base + base) by {
        vstd::arithmetic::mul::lemma_mul_is_distributive_add_other_way(base, p, 1);
    };
    assert(len == n_parts * base + rem);
    assert((p + 1) * base <= n_parts * base) by {
        vstd::arithmetic::mul::lemma_mul_inequality(p + 1, n_parts, base);
    };
    assert(p * base >= 0) by {
        vstd::arithmetic::mul::lemma_mul_nonnegative(p, base);
    };
    if p + 1 < n_parts {
        assert((p + 1) * base + (n_parts - p - 1) * base == n_parts * base) by {
            vstd::arithmetic::mul::lemma_mul_is_distributive_add_other_way(
                base,
                p + 1,
                n_parts - p - 1,
            );
        };
        assert(1 * base <= (n_parts - p - 1) * base) by {
            vstd::arithmetic::mul::lemma_mul_inequality(1, n_parts - p - 1, base);
        };
        assert(1 * base == base) by {
            vstd::arithmetic::mul::lemma_mul_basics(base);
        };
    }
    if p + 1 == n_parts {
        assert((p + 1) * base == n_parts * base);
        if p + 1 <= rem {
            assert(rem < n_parts);
        }
    }
    if p >= 1 {
        assert(1 * base <= p * base) by {
            vstd::arithmetic::mul::lemma_mul_inequality(1, p, base);
        };
        assert(1 * base == base) by {
            vstd::arithmetic::mul::lemma_mul_basics(base);
        };
    }
    assert(1 * base <= (p + 1) * base) by {
        vstd::arithmetic::mul::lemma_mul_inequality(1, p + 1, base);
    };
    assert(1 * base == base) by {
        vstd::arithmetic::mul::lemma_mul_basics(base);
    };
}

} // verus!

