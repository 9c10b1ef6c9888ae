//! The whole run: plan chunks, aggregate each, merge the partial tables,
//! sort and render. The lemmas here show that splitting the input at a
//! line boundary neither loses, duplicates nor reorders any record.

use vstd::prelude::*;
use vstd::slice::slice_subrange;

use crate::agg::agg_map;
use crate::agg::aggregate_chunk;
use crate::agg::first_line_err;
use crate::agg::line_rec;
use crate::agg::lines_of;
use crate::agg::merge_models;
use crate::agg::merge_tables;
use crate::agg::model_wf;
use crate::agg::records_of;
use crate::agg::stats_at;
use crate::chunk::chunks_wf;
use crate::chunk::plan;
use crate::error::AggError;
use crate::num::lemma_num_val_bounded;
use crate::num::num_val_spec;
use crate::render::contains_entry;
use crate::render::entries_sorted;
use crate::render::entries_view;
use crate::render::render_summary;
use crate::render::render_summary_spec;
use crate::render::sort_entries;
use crate::scan::find_spec;
use crate::scan::lemma_find_spec;
use crate::scan::SEPARATOR;
use crate::scan::TERMINATOR;
use crate::source::Mmap;
use crate::stats::spec_add;
use crate::stats::spec_merge;
use crate::stats::StationResult;
use crate::stats::READING_BOUND;
use crate::table::empty_model;
use crate::table::table_entries;
use crate::table::table_new;

verus! {

/// Splitting the bytes right after a terminator splits the line list.
pub proof fn lemma_lines_split(s: Seq<u8>, b: int)
    requires
        0 < b <= s.len(),
        s[b - 1] == TERMINATOR,
    ensures
        lines_of(s) == lines_of(s.subrange(0, b)) + lines_of(s.subrange(b, s.len() as int)),
    decreases b,
{
    lemma_find_spec(s, TERMINATOR);
    let s1 = s.subrange(0, b);
    let s2 = s.subrange(b, s.len() as int);
    lemma_find_spec(s1, TERMINATOR);
    assert(forall|j: int| 0 <= j < b ==> s1[j] == s[j]);
    match find_spec(s, TERMINATOR) {
        None => {
            assert(false);
        },
        Some(p) => {
            assert(p <= b - 1);
            match find_spec(s1, TERMINATOR) {
                None => {
                    assert(s1[p] == TERMINATOR);
                    assert(false);
                },
                Some(p1) => {
                    assert(s1[p1] == s[p1]);
                    assert(p1 == p);
                },
            }
            assert(s1.subrange(0, p) =~= s.subrange(0, p));
            if p == b - 1 {
                assert(s1.subrange(p + 1, s1.len() as int) =~= Seq::<u8>::empty());
                assert(lines_of(s1.subrange(p + 1, s1.len() as int)) =~= Seq::<Seq<u8>>::empty());
                assert(lines_of(s1) =~= seq![s.subrange(0, p)]);
                assert(s.subrange(p + 1, s.len() as int) =~= s2);
                assert(lines_of(s) == seq![s.subrange(0, p)] + lines_of(s2));
                assert(lines_of(s) =~= lines_of(s1) + lines_of(s2));
            } else {
                let sp = s.subrange(p + 1, s.len() as int);
                let bp = b - p - 1;
                assert(sp[bp - 1] == s[b - 1]);
                lemma_lines_split(sp, bp);
                assert(sp.subrange(0, bp) =~= s.subrange(p + 1, b));
                assert(sp.subrange(bp, sp.len() as int) =~= s2);
                assert(s1.subrange(p + 1, s1.len() as int) =~= s.subrange(p + 1, b));
                assert(lines_of(s1) == seq![s.subrange(0, p)] + lines_of(s.subrange(p + 1, b)));
                assert(lines_of(s) == seq![s.subrange(0, p)] + (lines_of(s.subrange(p + 1, b))
                    + lines_of(s2)));
                assert(lines_of(s) =~= lines_of(s1) + lines_of(s2));
            }
        },
    }
}

/// The first error over concatenated line lists.
pub proof fn lemma_first_err_append(ls1: Seq<Seq<u8>>, ls2: Seq<Seq<u8>>)
    ensures
        first_line_err(ls1 + ls2) == match first_line_err(ls1) {
            Some(e) => Some(e),
            None => first_line_err(ls2),
        },
    decreases ls1.len(),
{
    if ls1.len() == 0 {
        assert(ls1 + ls2 =~= ls2);
    } else {
        assert((ls1 + ls2)[0] == ls1[0]);
        assert((ls1 + ls2).len() > 0);
        assert((ls1 + ls2).drop_first() =~= ls1.drop_first() + ls2);
        lemma_first_err_append(ls1.drop_first(), ls2);
    }
}

/// The records over concatenated line lists.
pub proof fn lemma_records_append(ls1: Seq<Seq<u8>>, ls2: Seq<Seq<u8>>)
    ensures
        records_of(ls1 + ls2) == records_of(ls1) + records_of(ls2),
    decreases ls1.len(),
{
    if ls1.len() == 0 {
        assert(ls1 + ls2 =~= ls2);
        assert(records_of(ls1) + records_of(ls2) =~= records_of(ls2));
    } else {
        assert((ls1 + ls2)[0] == ls1[0]);
        assert((ls1 + ls2).drop_first() =~= ls1.drop_first() + ls2);
        lemma_records_append(ls1.drop_first(), ls2);
        match line_rec(ls1[0]) {
            Ok(r) => {
                assert(records_of(ls1 + ls2) == seq![r] + (records_of(ls1.drop_first())
                    + records_of(ls2)));
                assert(records_of(ls1) == seq![r] + records_of(ls1.drop_first()));
                assert(records_of(ls1 + ls2) =~= records_of(ls1) + records_of(ls2));
            },
            Err(_) => {
            },
        }
    }
}

/// Every recorded reading lies within the reading bound.
pub proof fn lemma_records_bounded(ls: Seq<Seq<u8>>)
    ensures
        forall|i: int|
            0 <= i < records_of(ls).len() ==> -READING_BOUND < (#[trigger] records_of(ls)[i]).1
                < READING_BOUND,
    decreases ls.len(),
{
    if ls.len() > 0 {
        lemma_records_bounded(ls.drop_first());
        match find_spec(ls[0], SEPARATOR) {
            Some(p) => {
                lemma_num_val_bounded(ls[0].subrange(p + 1, ls[0].len() as int));
            },
            None => {
            },
        }
        match line_rec(ls[0]) {
            Ok(r) => {
                assert forall|i: int| 0 <= i < records_of(ls).len() implies -READING_BOUND < (
                #[trigger] records_of(ls)[i]).1 < READING_BOUND by {
                    if i == 0 {
                        assert(records_of(ls)[0] == r);
                    } else {
                        assert(records_of(ls)[i] == records_of(ls.drop_first())[i - 1]);
                    }
                }
            },
            Err(_) => {
                assert(records_of(ls) == records_of(ls.drop_first()));
            },
        }
    }
}

/// Each complete record occupies at least three bytes of the input.
pub proof fn lemma_records_len(s: Seq<u8>)
    ensures
        3 * records_of(lines_of(s)).len() <= s.len(),
    decreases s.len(),
{
    lemma_find_spec(s, TERMINATOR);
    match find_spec(s, TERMINATOR) {
        None => {
        },
        Some(p) => {
            let line = s.subrange(0, p);
            let rest = s.subrange(p + 1, s.len() as int);
            lemma_records_len(rest);
            assert(lines_of(s) == seq![line] + lines_of(rest));
            assert((seq![line] + lines_of(rest))[0] == line);
            assert((seq![line] + lines_of(rest)).drop_first() =~= lines_of(rest));
            match line_rec(line) {
                Ok(r) => {
                    lemma_find_spec(line, SEPARATOR);
                    match find_spec(line, SEPARATOR) {
                        None => {
                            assert(false);
                        },
                        Some(sp) => {
                            let num = line.subrange(sp + 1, line.len() as int);
                            if num.len() == 0 {
                                assert(find_spec(num, crate::num::DOT) is None);
                                assert(num_val_spec(num) is None);
                                assert(false);
                            }
                            assert(p >= 2);
                        },
                    }
                    assert(records_of(lines_of(s)) == seq![r] + records_of(lines_of(rest)));
                },
                Err(_) => {
                    assert(records_of(lines_of(s)) == records_of(lines_of(rest)));
                },
            }
        },
    }
}

/// Every aggregated value is well-formed, counts at least one reading,
/// and counts no more readings than there are records.
pub proof fn lemma_agg_map_wf(rs: Seq<(Seq<u8>, int)>)
    requires
        forall|i: int|
            0 <= i < rs.len() ==> -READING_BOUND < (#[trigger] rs[i]).1 < READING_BOUND,
        rs.len() <= u64::MAX,
    ensures
        forall|k: Seq<u8>|
            agg_map(rs).dom().contains(k) ==> (#[trigger] agg_map(rs)[k]).wf() && 1 <= agg_map(
                rs,
            )[k].count <= rs.len(),
    decreases rs.len(),
{
    if rs.len() > 0 {
        let d = rs.drop_last();
        assert(forall|i: int|
            0 <= i < d.len() ==> -READING_BOUND < (#[trigger] d[i]).1 < READING_BOUND);
        lemma_agg_map_wf(d);
        let m = agg_map(d);
        let k = rs.last().0;
        assert(rs.last() == rs[rs.len() - 1]);
        assert forall|kk: Seq<u8>| agg_map(rs).dom().contains(kk) implies (
        #[trigger] agg_map(rs)[kk]).wf() && 1 <= agg_map(rs)[kk].count <= rs.len() by {
            if kk != k {
                assert(agg_map(rs)[kk] == m[kk]);
            } else {
                assert(stats_at(m, k).wf());
            }
        }
    }
}

/// Aggregating two record groups separately and merging the mappings
/// pointwise gives exactly the aggregation of the concatenation.
pub proof fn lemma_agg_append(rs1: Seq<(Seq<u8>, int)>, rs2: Seq<(Seq<u8>, int)>)
    requires
        forall|i: int|
            0 <= i < rs1.len() ==> -READING_BOUND < (#[trigger] rs1[i]).1 < READING_BOUND,
        forall|i: int|
            0 <= i < rs2.len() ==> -READING_BOUND < (#[trigger] rs2[i]).1 < READING_BOUND,
        rs1.len() + rs2.len() <= u64::MAX,
    ensures
        agg_map(rs1 + rs2) == merge_models(agg_map(rs1), agg_map(rs2)),
    decreases rs2.len(),
{
    let a = agg_map(rs1);
    lemma_agg_map_wf(rs1);
    if rs2.len() == 0 {
        assert(rs1 + rs2 =~= rs1);
        assert forall|k: Seq<u8>|
            #[trigger] merge_models(a, empty_model()).dom().contains(k)
                == a.dom().contains(k) by {}
        assert forall|k: Seq<u8>| a.dom().contains(k) implies #[trigger] merge_models(
            a,
            empty_model(),
        )[k] == a[k] by {
            crate::stats::lemma_merge_identity(a[k]);
        }
        assert(merge_models(a, empty_model()) =~= a);
    } else {
        let d = rs2.drop_last();
        let x = rs2.last();
        let k = x.0;
        let v = x.1;
        assert(x == rs2[rs2.len() - 1]);
        assert(forall|i: int|
            0 <= i < d.len() ==> -READING_BOUND < (#[trigger] d[i]).1 < READING_BOUND);
        lemma_agg_append(rs1, d);
        lemma_agg_map_wf(d);
        lemma_agg_map_wf(rs1 + d);
        let b = agg_map(d);
        let m = agg_map(rs1 + d);
        assert((rs1 + rs2).drop_last() =~= rs1 + d);
        assert((rs1 + rs2).last() == x);
        assert(agg_map(rs1 + rs2) == m.insert(k, spec_add(stats_at(m, k), v)));
        assert((rs1 + d).len() < u64::MAX);
        assert(stats_at(m, k) == spec_merge(stats_at(a, k), stats_at(b, k)));
        let lhs = agg_map(rs1 + rs2);
        let rhs = merge_models(a, agg_map(rs2));
        assert(agg_map(rs2) == b.insert(k, spec_add(stats_at(b, k), v)));
        assert forall|kk: Seq<u8>| #[trigger] lhs.dom().contains(kk) == rhs.dom().contains(
            kk,
        ) by {}
        assert forall|kk: Seq<u8>| lhs.dom().contains(kk) implies #[trigger] lhs[kk]
            == rhs[kk] by {
            if kk == k {
                assert(lhs[k] == spec_add(spec_merge(stats_at(a, k), stats_at(b, k)), v));
                assert(rhs[k] == spec_merge(stats_at(a, k), spec_add(stats_at(b, k), v)));
                assert(stats_at(a, k).wf());
                assert(stats_at(b, k).wf());
                assert(stats_at(a, k).count + stats_at(b, k).count + 1 <= u64::MAX);
                assert(lhs[k] == rhs[k]);
            } else {
                assert(lhs[kk] == m[kk]);
                assert(stats_at(agg_map(rs2), kk) == stats_at(b, kk));
            }
        }
        assert(lhs =~= rhs);
    }
}

/// The final mapping the whole input denotes.
pub open spec fn final_model(s: Seq<u8>) -> Map<Seq<u8>, StationResult> {
    agg_map(records_of(lines_of(s)))
}

/// The error the whole run reports, if any: `Empty` for an input with no
/// bytes or no complete record, else the first line's error in order.
pub open spec fn summary_err(s: Seq<u8>) -> Option<AggError> {
    if s.len() == 0 {
        Some(AggError::Empty)
    } else {
        match first_line_err(lines_of(s)) {
            Some(e) => Some(e),
            None => if records_of(lines_of(s)).len() == 0 {
                Some(AggError::Empty)
            } else {
                None
            },
        }
    }
}

/// `es` lists exactly the entries of `m`, in ascending key order.
pub open spec fn sorted_model_entries(
    es: Seq<(Vec<u8>, StationResult)>,
    m: Map<Seq<u8>, StationResult>,
) -> bool {
    &&& entries_sorted(es)
    &&& forall|i: int| 0 <= i < es.len() ==> m.contains_pair((#[trigger] es[i]).0@, es[i].1)
    &&& forall|k: Seq<u8>|
        #[trigger] m.dom().contains(k) ==> exists|i: int|
            0 <= i < es.len() && (#[trigger] es[i]).0@ == k
}

/// The sorted entry list of a mapping is unique: any two lists that both
/// hold exactly the mapping's entries in ascending key order agree, so
/// the rendered summary is fully determined by the final mapping.
pub proof fn lemma_sorted_model_entries_unique(
    es1: Seq<(Vec<u8>, StationResult)>,
    es2: Seq<(Vec<u8>, StationResult)>,
    m: Map<Seq<u8>, StationResult>,
)
    requires
        sorted_model_entries(es1, m),
        sorted_model_entries(es2, m),
    ensures
        entries_view(es1) == entries_view(es2),
    decreases es1.len(),
{
    if es1.len() == 0 {
        if es2.len() > 0 {
            assert(m.contains_pair(es2[0].0@, es2[0].1));
            assert(m.dom().contains(es2[0].0@));
            assert(false);
        }
        assert(entries_view(es1) =~= entries_view(es2));
    } else {
        if es2.len() == 0 {
            assert(m.contains_pair(es1[0].0@, es1[0].1));
            assert(false);
        }
        let x1 = es1.last();
        let x2 = es2.last();
        assert(x1 == es1[es1.len() - 1]);
        assert(x2 == es2[es2.len() - 1]);
        let k1 = x1.0@;
        let k2 = x2.0@;
        assert(m.contains_pair(k1, x1.1));
        assert(m.contains_pair(k2, x2.1));
        let j2 = choose|j: int| 0 <= j < es2.len() && (#[trigger] es2[j]).0@ == k1;
        let j1 = choose|j: int| 0 <= j < es1.len() && (#[trigger] es1[j]).0@ == k2;
        crate::render::lemma_lex_irrefl(k1);
        crate::render::lemma_lex_irrefl(k2);
        if k1 != k2 {
            assert(j2 < es2.len() - 1);
            assert(crate::render::lex_lt(k1, k2));
            assert(j1 < es1.len() - 1);
            assert(crate::render::lex_lt(k2, k1));
            crate::render::lemma_lex_trans(k1, k2, k1);
            assert(false);
        }
        assert(x1.1 == m[k1] && x2.1 == m[k2]);
        let mp = m.remove(k1);
        let d1 = es1.drop_last();
        let d2 = es2.drop_last();
        assert forall|i: int| 0 <= i < d1.len() implies mp.contains_pair(
            (#[trigger] d1[i]).0@,
            d1[i].1,
        ) by {
            assert(d1[i] == es1[i]);
            assert(crate::render::lex_lt(es1[i].0@, k1));
            crate::render::lemma_lex_irrefl(es1[i].0@);
            assert(es1[i].0@ != k1);
        }
        assert forall|i: int| 0 <= i < d2.len() implies mp.contains_pair(
            (#[trigger] d2[i]).0@,
            d2[i].1,
        ) by {
            assert(d2[i] == es2[i]);
            assert(crate::render::lex_lt(es2[i].0@, k2));
            crate::render::lemma_lex_irrefl(es2[i].0@);
            assert(es2[i].0@ != k1);
        }
        assert forall|k: Seq<u8>| #[trigger] mp.dom().contains(k) implies exists|i: int|
            0 <= i < d1.len() && (#[trigger] d1[i]).0@ == k by {
            assert(m.dom().contains(k));
            let i = choose|i: int| 0 <= i < es1.len() && (#[trigger] es1[i]).0@ == k;
            assert(i < es1.len() - 1);
            assert(d1[i] == es1[i]);
        }
        assert forall|k: Seq<u8>| #[trigger] mp.dom().contains(k) implies exists|i: int|
            0 <= i < d2.len() && (#[trigger] d2[i]).0@ == k by {
            assert(m.dom().contains(k));
            let i = choose|i: int| 0 <= i < es2.len() && (#[trigger] es2[i]).0@ == k;
            assert(i < es2.len() - 1);
            assert(d2[i] == es2[i]);
        }
        assert(sorted_model_entries(d1, mp));
        assert(sorted_model_entries(d2, mp));
        lemma_sorted_model_entries_unique(d1, d2, mp);
        assert(entries_view(d1) =~= entries_view(es1).drop_last());
        assert(entries_view(d2) =~= entries_view(es2).drop_last());
        assert(entries_view(es1).last() == (k1, x1.1));
        assert(entries_view(es2).last() == (k2, x2.1));
        assert(entries_view(es1).drop_last() == entries_view(es2).drop_last());
        let v1 = entries_view(es1);
        let v2 = entries_view(es2);
        assert(v1.len() == v2.len());
        assert forall|i: int| 0 <= i < v1.len() implies v1[i] == v2[i] by {
            if i < v1.len() - 1 {
                assert(v1[i] == v1.drop_last()[i]);
                assert(v2[i] == v2.drop_last()[i]);
            } else {
                assert(v1[i] == v1.last());
                assert(v2[i] == v2.last());
            }
        }
        assert(entries_view(es1) =~= entries_view(es2));
    }
}

/// The entries of `m` in ascending key order; by
/// `lemma_sorted_model_entries_unique` its byte-string view, and so the
/// rendering below, is fully determined by `m`.
pub open spec fn sorted_entries_of(m: Map<Seq<u8>, StationResult>) -> Seq<(
    Vec<u8>,
    StationResult,
)> {
    choose|es: Seq<(Vec<u8>, StationResult)>| sorted_model_entries(es, m)
}

/// Run the whole pipeline over the byte view with `nthreads` chunks:
/// plan, aggregate each chunk, merge, sort, render.
pub fn summarize(m: &Mmap, nthreads: usize) -> (r: Result<Vec<u8>, AggError>)
    requires
        1 <= nthreads,
    ensures
        match r {
            Err(e) => summary_err(m@) == Some(e),
            Ok(out) => summary_err(m@) is None && sorted_model_entries(
                sorted_entries_of(final_model(m@)),
                final_model(m@),
            ) && out@ == render_summary_spec(
                entries_view(sorted_entries_of(final_model(m@))),
            ),
        },
{
    let bytes = m.as_bytes();
    let n = bytes.len();
    if n == 0 {
        return Err(AggError::Empty);
    }
    let chunks = plan(bytes, nthreads);
    let mut running = table_new();
    let ghost mut covered: int = 0;
    let ghost mut rs_all: Seq<(Seq<u8>, int)> = Seq::empty();
    let mut i: usize = 0;
    proof {
        assert(bytes@.subrange(0, n as int) =~= bytes@);
        assert(Seq::<(Seq<u8>, int)>::empty() + records_of(lines_of(bytes@)) =~= records_of(
            lines_of(bytes@),
        ));
    }
    while i < chunks.len()
        invariant
            n == bytes@.len(),
            bytes@ == m@,
            chunks@.len() == nthreads >= 1,
            chunks_wf(chunks@, bytes@),
            i <= chunks@.len(),
            covered == if i == 0 {
                0int
            } else {
                chunks@[i - 1].1 as int
            },
            0 <= covered <= n,
            first_line_err(lines_of(bytes@)) == first_line_err(
                lines_of(bytes@.subrange(covered, n as int)),
            ),
            records_of(lines_of(bytes@)) == rs_all + records_of(
                lines_of(bytes@.subrange(covered, n as int)),
            ),
            running.model() == agg_map(rs_all),
            model_wf(running.model(), covered),
            forall|ix: int|
                0 <= ix < rs_all.len() ==> -READING_BOUND < (#[trigger] rs_all[ix]).1
                    < READING_BOUND,
            3 * rs_all.len() <= covered,
        decreases chunks@.len() - i,
    {
        let (start, end) = *vstd::slice::slice_index_get(chunks.as_slice(), i);
        proof {
            if i > 0 {
                assert(chunks@[(i - 1) + 1].0 == chunks@[i - 1].1);
                assert(chunks@[i as int].0 == chunks@[i - 1].1);
            }
            assert(start as int == covered);
            assert(start <= end <= n);
        }
        if start == end {
            proof {
                covered = end as int;
            }
            i = i + 1;
            continue;
        }
        let cslice = slice_subrange(bytes, start, end);
        let ghost tail = bytes@.subrange(covered, n as int);
        let ghost rest2 = bytes@.subrange(end as int, n as int);
        proof {
            // split the unprocessed tail at this chunk's boundary
            if (end as int) == n {
                assert(cslice@ =~= tail);
                assert(rest2 =~= Seq::<u8>::empty());
                assert(lines_of(rest2) =~= Seq::<Seq<u8>>::empty());
                assert(lines_of(tail) =~= lines_of(cslice@) + lines_of(rest2));
            } else {
                assert(i < chunks@.len() - 1);
                assert((chunks@[i as int]).1 == bytes@.len() || bytes@[chunks@[i as int].1 - 1]
                    == TERMINATOR);
                assert(bytes@[end - 1] == TERMINATOR);
                assert(tail[end - covered - 1] == TERMINATOR);
                lemma_lines_split(tail, end - covered);
                assert(tail.subrange(0, end - covered) =~= cslice@);
                assert(tail.subrange(end - covered, tail.len() as int) =~= rest2);
            }
            lemma_first_err_append(lines_of(cslice@), lines_of(rest2));
            lemma_records_append(lines_of(cslice@), lines_of(rest2));
        }
        let part = match aggregate_chunk(cslice) {
            Err(e) => {
                return Err(e);
            },
            Ok(p) => p,
        };
        let ghost rs_chunk = records_of(lines_of(cslice@));
        proof {
            lemma_records_bounded(lines_of(cslice@));
            lemma_records_len(cslice@);
            assert(3 * rs_chunk.len() <= end - covered);
            assert forall|k: Seq<u8>|
                #![trigger stats_at(part.model(), k)]
                stats_at(running.model(), k).count + stats_at(part.model(), k).count
                    <= u64::MAX by {
                if running.model().dom().contains(k) {
                    assert(3 * running.model()[k].count <= covered);
                }
                if part.model().dom().contains(k) {
                    assert(3 * part.model()[k].count <= cslice@.len());
                }
            }
        }
        merge_tables(&mut running, &part);
        proof {
            lemma_agg_append(rs_all, rs_chunk);
            assert(running.model() == agg_map(rs_all + rs_chunk));
            assert(rs_all + (rs_chunk + records_of(lines_of(rest2))) =~= (rs_all + rs_chunk)
                + records_of(lines_of(rest2)));
            assert forall|k: Seq<u8>| running.model().dom().contains(k) implies (
            #[trigger] running.model()[k]).wf() && 3 * running.model()[k].count <= end as int by {
                assert(running.model()[k] == spec_merge(
                    stats_at(agg_map(rs_all), k),
                    stats_at(agg_map(rs_chunk), k),
                ));
            }
            assert(forall|ix: int|
                0 <= ix < rs_chunk.len() ==> -READING_BOUND < (#[trigger] rs_chunk[ix]).1
                    < READING_BOUND);
            rs_all = rs_all + rs_chunk;
            covered = end as int;
        }
        i = i + 1;
    }
    proof {
        assert(covered == chunks@[chunks@.len() - 1].1 as int);
        assert(covered == n);
        assert(bytes@.subrange(covered, n as int) =~= Seq::<u8>::empty());
        assert(lines_of(Seq::<u8>::empty()) =~= Seq::<Seq<u8>>::empty());
        assert(rs_all + Seq::<(Seq<u8>, int)>::empty() =~= rs_all);
        assert(records_of(lines_of(bytes@)) == rs_all);
        assert(first_line_err(lines_of(bytes@)) is None);
        lemma_agg_map_wf(rs_all);
    }
    let entries = table_entries(&running);
    if entries.len() == 0 {
        proof {
            if rs_all.len() > 0 {
                let last = rs_all.last();
                assert(rs_all.last() == rs_all[rs_all.len() - 1]);
                assert(final_model(m@).dom().contains(last.0));
            }
        }
        return Err(AggError::Empty);
    }
    proof {
        assert(running.model().contains_pair(entries@[0].0@, entries@[0].1));
        assert(rs_all.len() > 0);
    }
    let sorted = sort_entries(entries);
    proof {
        assert forall|ix: int| 0 <= ix < sorted@.len() implies (#[trigger] sorted@[ix]).1.wf()
            && sorted@[ix].1.count > 0 by {
            assert(contains_entry(entries@, sorted@[ix]));
            let jj = choose|jj: int|
                0 <= jj < entries@.len() && (#[trigger] entries@[jj]) == sorted@[ix];
            assert(running.model().contains_pair(entries@[jj].0@, entries@[jj].1));
        }
    }
    let out = render_summary(&sorted);
    proof {
        assert forall|ix: int| 0 <= ix < sorted@.len() implies final_model(m@).contains_pair(
            (#[trigger] sorted@[ix]).0@,
            sorted@[ix].1,
        ) by {
            assert(contains_entry(entries@, sorted@[ix]));
            let jj = choose|jj: int|
                0 <= jj < entries@.len() && (#[trigger] entries@[jj]) == sorted@[ix];
            assert(running.model().contains_pair(entries@[jj].0@, entries@[jj].1));
        }
        assert forall|k: Seq<u8>| #[trigger] final_model(m@).dom().contains(k) implies exists|ix: int|
            0 <= ix < sorted@.len() && (#[trigger] sorted@[ix]).0@ == k by {
            let j0 = choose|j0: int|
                0 <= j0 < entries@.len() && (#[trigger] entries@[j0]).0@ == k;
            assert(contains_entry(sorted@, entries@[j0]));
            let ix = choose|ix: int|
                0 <= ix < sorted@.len() && (#[trigger] sorted@[ix]) == entries@[j0];
            assert(sorted@[ix].0@ == k);
        }
        assert(sorted_model_entries(sorted@, final_model(m@)));
        let es = sorted_entries_of(final_model(m@));
        assert(sorted_model_entries(es, final_model(m@)));
        lemma_sorted_model_entries_unique(es, sorted@, final_model(m@));
    }
    Ok(out)
}

} // verus!
