//! Per-chunk parsing and aggregation, and the merge of partial tables
//! into one running result.

use vstd::prelude::*;
use vstd::slice::slice_subrange;

use crate::error::AggError;
use crate::num::num_val_spec;
use crate::num::parse_reading;
use crate::scan::find_separator;
use crate::scan::find_spec;
use crate::scan::find_terminator;
use crate::scan::lemma_find_spec;
use crate::scan::SEPARATOR;
use crate::scan::TERMINATOR;
use crate::stats::spec_add;
use crate::stats::spec_merge;
use crate::stats::stats_empty;
use crate::stats::StationResult;
use crate::table::empty_model;
use crate::table::table_entries;
use crate::table::table_get;
use crate::table::table_new;
use crate::table::table_set;
use crate::table::StationTable;

verus! {

/// The complete lines of `s`: each maximal piece ending in a terminator,
/// in order. A trailing piece with no terminator yields no line.
pub open spec fn lines_of(s: Seq<u8>) -> Seq<Seq<u8>>
    decreases s.len(),
{
    match find_spec(s, TERMINATOR) {
        Some(p) => if 0 <= p < s.len() {
            seq![s.subrange(0, p)] + lines_of(s.subrange(p + 1, s.len() as int))
        } else {
            Seq::<Seq<u8>>::empty()
        },
        None => Seq::<Seq<u8>>::empty(),
    }
}

/// What one line denotes: its key bytes and its reading, or the error
/// that aborts the whole run.
pub open spec fn line_rec(l: Seq<u8>) -> Result<(Seq<u8>, int), AggError> {
    match find_spec(l, SEPARATOR) {
        None => Err(AggError::MalformedLine),
        Some(p) => match num_val_spec(l.subrange(p + 1, l.len() as int)) {
            Some(v) => Ok((l.subrange(0, p), v)),
            None => Err(AggError::ParseError),
        },
    }
}

/// The first error among the lines, in line order, if any.
pub open spec fn first_line_err(ls: Seq<Seq<u8>>) -> Option<AggError>
    decreases ls.len(),
{
    if ls.len() == 0 {
        None
    } else {
        match line_rec(ls[0]) {
            Err(e) => Some(e),
            Ok(_) => first_line_err(ls.drop_first()),
        }
    }
}

/// The records of the well-formed lines, in line order.
pub open spec fn records_of(ls: Seq<Seq<u8>>) -> Seq<(Seq<u8>, int)>
    decreases ls.len(),
{
    if ls.len() == 0 {
        Seq::<(Seq<u8>, int)>::empty()
    } else {
        match line_rec(ls[0]) {
            Ok(r) => seq![r] + records_of(ls.drop_first()),
            Err(_) => records_of(ls.drop_first()),
        }
    }
}

/// The statistics stored for `k`, or fresh statistics when `k` is absent.
pub open spec fn stats_at(m: Map<Seq<u8>, StationResult>, k: Seq<u8>) -> StationResult {
    if m.dom().contains(k) {
        m[k]
    } else {
        stats_empty()
    }
}

/// The mapping that aggregates a sequence of records in order.
pub open spec fn agg_map(rs: Seq<(Seq<u8>, int)>) -> Map<Seq<u8>, StationResult>
    decreases rs.len(),
{
    if rs.len() == 0 {
        empty_model()
    } else {
        let m = agg_map(rs.drop_last());
        let k = rs.last().0;
        m.insert(k, spec_add(stats_at(m, k), rs.last().1))
    }
}

/// The pointwise merge of two partial mappings.
pub open spec fn merge_models(
    a: Map<Seq<u8>, StationResult>,
    b: Map<Seq<u8>, StationResult>,
) -> Map<Seq<u8>, StationResult> {
    Map::new(
        |k: Seq<u8>| a.dom().contains(k) || b.dom().contains(k),
        |k: Seq<u8>| spec_merge(stats_at(a, k), stats_at(b, k)),
    )
}

/// Every value of the mapping is well-formed and counts at most a third
/// of `budget` readings.
pub open spec fn model_wf(m: Map<Seq<u8>, StationResult>, budget: int) -> bool {
    forall|k: Seq<u8>|
        m.dom().contains(k) ==> (#[trigger] m[k]).wf() && 3 * m[k].count <= budget
}

/// Parse one chunk and fold every record of its complete lines into a
/// fresh table. The run aborts at the first malformed line.
pub fn aggregate_chunk(s: &[u8]) -> (r: Result<StationTable, AggError>)
    ensures
        match r {
            Ok(t) => {
                &&& first_line_err(lines_of(s@)) is None
                &&& t.model() == agg_map(records_of(lines_of(s@)))
                &&& model_wf(t.model(), s@.len() as int)
            },
            Err(e) => first_line_err(lines_of(s@)) == Some(e),
        },
{
    let mut t = table_new();
    let ghost mut rs: Seq<(Seq<u8>, int)> = Seq::empty();
    let n = s.len();
    let mut pos: usize = 0;
    proof {
        assert(s@.subrange(0, n as int) =~= s@);
        assert(Seq::<(Seq<u8>, int)>::empty() + records_of(lines_of(s@)) =~= records_of(
            lines_of(s@),
        ));
    }
    loop
        invariant
            n == s@.len(),
            pos <= n,
            first_line_err(lines_of(s@)) == first_line_err(
                lines_of(s@.subrange(pos as int, n as int)),
            ),
            records_of(lines_of(s@)) == rs + records_of(
                lines_of(s@.subrange(pos as int, n as int)),
            ),
            t.model() == agg_map(rs),
            forall|k: Seq<u8>|
                t.model().dom().contains(k) ==> (#[trigger] t.model()[k]).wf() && t.model()[k].count
                    <= rs.len(),
            3 * rs.len() <= pos,
        decreases n - pos,
    {
        let tail = slice_subrange(s, pos, n);
        let tr = find_terminator(tail);
        proof {
            lemma_find_spec(tail@, TERMINATOR);
        }
        match tr {
            None => {
                proof {
                    assert(lines_of(tail@) =~= Seq::<Seq<u8>>::empty());
                    assert(rs + Seq::<(Seq<u8>, int)>::empty() =~= rs);
                    assert(records_of(lines_of(s@)) == rs);
                }
                return Ok(t);
            },
            Some(j) => {
                let line = slice_subrange(tail, 0, j);
                let ghost rest = tail@.subrange(j + 1, tail@.len() as int);
                proof {
                    assert(lines_of(tail@) == seq![line@] + lines_of(rest));
                    assert((seq![line@] + lines_of(rest))[0] == line@);
                    assert((seq![line@] + lines_of(rest)).drop_first() =~= lines_of(rest));
                    assert(rest =~= s@.subrange(pos + j + 1, n as int));
                }
                let sp = match find_separator(line) {
                    None => {
                        proof {
                            assert(line_rec(line@) == Err::<(Seq<u8>, int), AggError>(
                                AggError::MalformedLine,
                            ));
                        }
                        return Err(AggError::MalformedLine);
                    },
                    Some(sp) => sp,
                };
                proof {
                    lemma_find_spec(line@, SEPARATOR);
                }
                let key = slice_subrange(line, 0, sp);
                let value = slice_subrange(line, sp + 1, j);
                proof {
                    assert(value@ =~= line@.subrange(sp + 1, line@.len() as int));
                    assert(key@ =~= line@.subrange(0, sp as int));
                }
                let v = match parse_reading(value) {
                    Err(e) => {
                        proof {
                            assert(line_rec(line@) == Err::<(Seq<u8>, int), AggError>(
                                AggError::ParseError,
                            ));
                        }
                        return Err(AggError::ParseError);
                    },
                    Ok(v) => v,
                };
                proof {
                    assert(line_rec(line@) == Ok::<(Seq<u8>, int), AggError>((key@, v as int)));
                    // the numeric field is never empty, so the line spans
                    // at least the separator and one value byte
                    if value@.len() == 0 {
                        assert(find_spec(value@, crate::num::DOT) is None);
                        assert(num_val_spec(value@) is None);
                    }
                    assert(j >= sp + 2);
                }
                let cur = match table_get(&t, key) {
                    Some(c) => c,
                    None => StationResult::new(),
                };
                proof {
                    assert(cur == stats_at(t.model(), key@));
                    assert(cur.wf());
                    assert(3 * rs.len() <= pos < n <= usize::MAX);
                    assert(cur.count < u64::MAX);
                }
                let mut st = cur;
                st.add_reading(v);
                table_set(&mut t, key, st);
                proof {
                    let ghost rec = (key@, v as int);
                    assert(records_of(lines_of(tail@)) == seq![rec] + records_of(lines_of(rest)));
                    assert(rs + (seq![rec] + records_of(lines_of(rest))) =~= (rs.push(rec))
                        + records_of(lines_of(rest)));
                    let ghost rs2 = rs.push(rec);
                    assert(rs2.drop_last() =~= rs);
                    assert(rs2.last() == rec);
                    assert(agg_map(rs2) == agg_map(rs).insert(
                        key@,
                        spec_add(stats_at(agg_map(rs), key@), v as int),
                    ));
                    assert(t.model() == agg_map(rs2));
                    assert forall|k: Seq<u8>| t.model().dom().contains(k) implies (
                    #[trigger] t.model()[k]).wf() && t.model()[k].count <= rs2.len() by {
                        if k != key@ {
                            assert(t.model()[k] == agg_map(rs)[k]);
                        }
                    }
                    rs = rs2;
                }
                pos = pos + j + 1;
            },
        }
    }
}

/// Fold every entry of `src` into `dst`, key by key. Afterwards `dst`
/// holds the pointwise merge of the two mappings.
pub fn merge_tables(dst: &mut StationTable, src: &StationTable)
    requires
        forall|k: Seq<u8>|
            old(dst).model().dom().contains(k) ==> (#[trigger] old(dst).model()[k]).wf(),
        forall|k: Seq<u8>| src.model().dom().contains(k) ==> (#[trigger] src.model()[k]).wf(),
        forall|k: Seq<u8>|
            #![trigger stats_at(src.model(), k)]
            stats_at(old(dst).model(), k).count + stats_at(src.model(), k).count <= u64::MAX,
    ensures
        final(dst).model() == merge_models(old(dst).model(), src.model()),
{
    let mut entries = table_entries(src);
    let ghost es = entries@;
    while entries.len() > 0
        invariant
            entries@ =~= es.take(entries@.len() as int),
            entries@.len() <= es.len(),
            forall|i: int, j: int|
                #![trigger es[i], es[j]]
                0 <= i < j < es.len() ==> es[i].0@ != es[j].0@,
            forall|i: int|
                0 <= i < es.len() ==> src.model().contains_pair((#[trigger] es[i]).0@, es[i].1),
            forall|k: Seq<u8>|
                #[trigger] src.model().dom().contains(k) ==> exists|i: int|
                    0 <= i < es.len() && (#[trigger] es[i]).0@ == k,
            forall|k: Seq<u8>|
                old(dst).model().dom().contains(k) ==> (#[trigger] old(dst).model()[k]).wf(),
            forall|k: Seq<u8>| src.model().dom().contains(k) ==> (#[trigger] src.model()[k]).wf(),
            forall|k: Seq<u8>|
                #![trigger stats_at(src.model(), k)]
                stats_at(old(dst).model(), k).count + stats_at(src.model(), k).count <= u64::MAX,
            forall|k: Seq<u8>|
                #[trigger] dst.model().dom().contains(k) <==> old(dst).model().dom().contains(k)
                    || exists|a: int|
                    entries@.len() <= a < es.len() && (#[trigger] es[a]).0@ == k,
            forall|a: int|
                entries@.len() <= a < es.len() ==> dst.model()[(#[trigger] es[a]).0@] == spec_merge(
                    stats_at(old(dst).model(), es[a].0@),
                    stats_at(src.model(), es[a].0@),
                ),
            forall|k: Seq<u8>|
                (forall|a: int| entries@.len() <= a < es.len() ==> (#[trigger] es[a]).0@ != k)
                    ==> #[trigger] stats_at(dst.model(), k) == stats_at(old(dst).model(), k),
        decreases entries@.len(),
    {
        let pair = match entries.pop() {
            Some(p) => p,
            None => {
                proof {
                    assert(false);
                }
                unreached()
            },
        };
        let ghost idx = entries@.len() as int;
        proof {
            assert(pair == es[idx]);
        }
        let (kv, v) = pair;
        let key = kv.as_slice();
        let ghost m_head = dst.model();
        let cur = match table_get(dst, key) {
            Some(c) => c,
            None => StationResult::new(),
        };
        proof {
            assert(key@ == es[idx].0@);
            assert forall|a: int| idx + 1 <= a < es.len() implies (#[trigger] es[a]).0@
                != key@ by {
                assert(es[idx].0@ == key@);
            }
            assert(cur == stats_at(m_head, key@));
            assert(cur == stats_at(old(dst).model(), key@));
            assert(src.model().contains_pair(key@, v));
            assert(v == stats_at(src.model(), key@));
        }
        let merged = StationResult::merged(cur, v);
        table_set(dst, key, merged);
        proof {
            let m2 = dst.model();
            assert(m2 == m_head.insert(key@, merged));
            assert(merged == spec_merge(
                stats_at(old(dst).model(), key@),
                stats_at(src.model(), key@),
            ));
            assert forall|k: Seq<u8>| #[trigger] m2.dom().contains(k) implies old(
                dst,
            ).model().dom().contains(k) || (exists|a: int|
                idx <= a < es.len() && (#[trigger] es[a]).0@ == k) by {
                if k == key@ {
                    assert(idx <= idx < es.len() && es[idx].0@ == k);
                } else {
                    assert(m_head.dom().contains(k));
                }
            }
            assert forall|k: Seq<u8>|
                old(dst).model().dom().contains(k) || (exists|a: int|
                    idx <= a < es.len() && (#[trigger] es[a]).0@ == k) implies #[trigger] m2.dom().contains(
                k,
            ) by {
                if old(dst).model().dom().contains(k) {
                    assert(m_head.dom().contains(k));
                } else {
                    let a = choose|a: int| idx <= a < es.len() && (#[trigger] es[a]).0@ == k;
                    if a == idx {
                        assert(k == key@);
                    } else {
                        assert(m_head.dom().contains(k));
                    }
                }
            }
            assert forall|a: int| idx <= a < es.len() implies m2[(#[trigger] es[a]).0@]
                == spec_merge(
                stats_at(old(dst).model(), es[a].0@),
                stats_at(src.model(), es[a].0@),
            ) by {
                if a == idx {
                    assert(m2[key@] == merged);
                } else {
                    assert(es[idx].0@ == key@);
                    assert(es[a].0@ != key@);
                    assert(m2[es[a].0@] == m_head[es[a].0@]);
                }
            }
            assert forall|k: Seq<u8>|
                (forall|a: int|
                    idx <= a < es.len() ==> (#[trigger] es[a]).0@ != k) implies #[trigger] stats_at(
                m2,
                k,
            ) == stats_at(old(dst).model(), k) by {
                assert(es[idx].0@ != k);
                assert(k != key@);
                assert(stats_at(m2, k) == stats_at(m_head, k));
            }
        }
    }
    proof {
        let m1 = dst.model();
        let mm = merge_models(old(dst).model(), src.model());
        assert forall|k: Seq<u8>| #[trigger] m1.dom().contains(k) implies mm.dom().contains(k)
            && m1[k] == mm[k] by {
            lemma_entry_value(dst, src, old(dst).model(), es, k);
        }
        assert forall|k: Seq<u8>| #[trigger] mm.dom().contains(k) implies m1.dom().contains(k) by {
            if src.model().dom().contains(k) {
                let i = choose|i: int| 0 <= i < es.len() && (#[trigger] es[i]).0@ == k;
                assert(m1.dom().contains(k));
            }
        }
        assert(m1 =~= mm);
    }
}

/// Each key of the merged table carries exactly the merged statistics.
proof fn lemma_entry_value(
    dst: &StationTable,
    src: &StationTable,
    base: Map<Seq<u8>, StationResult>,
    es: Seq<(Vec<u8>, StationResult)>,
    k: Seq<u8>,
)
    requires
        forall|i: int|
            0 <= i < es.len() ==> src.model().contains_pair((#[trigger] es[i]).0@, es[i].1),
        forall|kk: Seq<u8>|
            #[trigger] src.model().dom().contains(kk) ==> exists|i: int|
                0 <= i < es.len() && (#[trigger] es[i]).0@ == kk,
        forall|kk: Seq<u8>| base.dom().contains(kk) ==> (#[trigger] base[kk]).wf(),
        forall|a: int|
            0 <= a < es.len() ==> dst.model()[(#[trigger] es[a]).0@] == spec_merge(
                stats_at(base, es[a].0@),
                stats_at(src.model(), es[a].0@),
            ),
        forall|kk: Seq<u8>|
            (forall|a: int| 0 <= a < es.len() ==> (#[trigger] es[a]).0@ != kk) ==> #[trigger] stats_at(
                dst.model(),
                kk,
            ) == stats_at(base, kk),
        forall|kk: Seq<u8>|
            #[trigger] dst.model().dom().contains(kk) <==> base.dom().contains(kk) || exists|a: int|
                0 <= a < es.len() && (#[trigger] es[a]).0@ == kk,
        dst.model().dom().contains(k),
    ensures
        merge_models(base, src.model()).dom().contains(k),
        dst.model()[k] == merge_models(base, src.model())[k],
{
    if exists|a: int| 0 <= a < es.len() && (#[trigger] es[a]).0@ == k {
        let a = choose|a: int| 0 <= a < es.len() && (#[trigger] es[a]).0@ == k;
        assert(src.model().contains_pair(es[a].0@, es[a].1));
        assert(dst.model()[k] == spec_merge(stats_at(base, k), stats_at(src.model(), k)));
    } else {
        assert(stats_at(dst.model(), k) == stats_at(base, k));
        assert(base.dom().contains(k));
        if src.model().dom().contains(k) {
            let i = choose|i: int| 0 <= i < es.len() && (#[trigger] es[i]).0@ == k;
            assert(false);
        }
        crate::stats::lemma_merge_identity(base[k]);
        assert(dst.model()[k] == spec_merge(stats_at(base, k), stats_at(src.model(), k)));
    }
}

} // verus!
