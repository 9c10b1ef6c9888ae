//! The presenter: ordering keys lexicographically and rendering the
//! summary line as bytes, each numeric field with one digit after the
//! decimal point (halves rounded away from zero).

use vstd::prelude::*;
use vstd::slice::slice_index_get;

use crate::stats::lemma_round_quotient_bound;
use crate::stats::round_div;
use crate::stats::StationResult;
use crate::stats::READING_BOUND;

verus! {

/// Strict byte-wise lexicographic order.
pub open spec fn lex_lt(a: Seq<u8>, b: Seq<u8>) -> bool
    decreases a.len(),
{
    if b.len() == 0 {
        false
    } else if a.len() == 0 {
        true
    } else if a[0] < b[0] {
        true
    } else if a[0] > b[0] {
        false
    } else {
        lex_lt(a.drop_first(), b.drop_first())
    }
}

/// Any two byte strings are equal or ordered one way.
pub proof fn lemma_lex_connex(a: Seq<u8>, b: Seq<u8>)
    ensures
        a == b || lex_lt(a, b) || lex_lt(b, a),
    decreases a.len(),
{
    if a.len() == 0 && b.len() == 0 {
        assert(a =~= b);
    } else if a.len() > 0 && b.len() > 0 && a[0] == b[0] {
        lemma_lex_connex(a.drop_first(), b.drop_first());
        if a.drop_first() == b.drop_first() {
            assert(a.drop_first().len() == b.drop_first().len());
            assert(a.len() == b.len());
            assert forall|k: int| 0 <= k < a.len() implies a[k] == b[k] by {
                if k > 0 {
                    assert(a[k] == a.drop_first()[k - 1]);
                    assert(b[k] == b.drop_first()[k - 1]);
                }
            }
            assert(a =~= b);
        }
    }
}

/// Lexicographic order is irreflexive.
pub proof fn lemma_lex_irrefl(a: Seq<u8>)
    ensures
        !lex_lt(a, a),
    decreases a.len(),
{
    if a.len() > 0 {
        lemma_lex_irrefl(a.drop_first());
    }
}

/// Lexicographic order is transitive.
pub proof fn lemma_lex_trans(a: Seq<u8>, b: Seq<u8>, c: Seq<u8>)
    requires
        lex_lt(a, b),
        lex_lt(b, c),
    ensures
        lex_lt(a, c),
    decreases a.len(),
{
    if a.len() > 0 && b.len() > 0 && c.len() > 0 && a[0] == b[0] && b[0] == c[0] {
        lemma_lex_trans(a.drop_first(), b.drop_first(), c.drop_first());
    }
}

/// Compare two byte strings lexicographically.
pub fn lex_less(a: &[u8], b: &[u8]) -> (r: bool)
    ensures
        r == lex_lt(a@, b@),
{
    let an = a.len();
    let bn = b.len();
    let n = if an < bn {
        an
    } else {
        bn
    };
    let mut i: usize = 0;
    proof {
        assert(a@.skip(0) =~= a@);
        assert(b@.skip(0) =~= b@);
    }
    while i < n
        invariant
            i <= n,
            n == if an < bn { an } else { bn },
            an == a@.len(),
            bn == b@.len(),
            lex_lt(a@, b@) == lex_lt(a@.skip(i as int), b@.skip(i as int)),
        decreases n - i,
    {
        let x = *slice_index_get(a, i);
        let y = *slice_index_get(b, i);
        proof {
            assert(a@.skip(i as int)[0] == a@[i as int]);
            assert(b@.skip(i as int)[0] == b@[i as int]);
        }
        if x < y {
            return true;
        }
        if x > y {
            return false;
        }
        proof {
            assert(a@.skip(i as int).drop_first() =~= a@.skip(i + 1));
            assert(b@.skip(i as int).drop_first() =~= b@.skip(i + 1));
        }
        i = i + 1;
    }
    proof {
        if an < bn {
            assert(a@.skip(i as int).len() == 0);
            assert(b@.skip(i as int).len() > 0);
        } else {
            assert(b@.skip(i as int).len() == 0);
        }
    }
    an < bn
}

/// Decimal digits of a non-negative number, most significant first.
pub open spec fn dec_digits(n: int) -> Seq<u8>
    decreases n,
{
    if n <= 9 {
        seq![(48 + if n >= 0 { n } else { 0 }) as u8]
    } else {
        dec_digits(n / 10).push((48 + n % 10) as u8)
    }
}

/// Append the decimal digits of `n`.
pub fn push_digits(n: u64, out: &mut Vec<u8>)
    ensures
        final(out)@ == old(out)@ + dec_digits(n as int),
    decreases n,
{
    if n <= 9 {
        out.push(48 + n as u8);
        proof {
            assert(out@ =~= old(out)@ + dec_digits(n as int));
        }
    } else {
        let ghost mid = out@;
        push_digits(n / 10, out);
        out.push(48 + (n % 10) as u8);
        proof {
            assert(out@ =~= old(out)@ + dec_digits(n as int));
        }
    }
}

/// The rendering of a count of tenths: optional sign, integer digits,
/// one fractional digit.
pub open spec fn render_tenths(t: int) -> Seq<u8> {
    if t < 0 {
        seq![45u8] + dec_digits(-t / 10) + seq![46u8, (48 + (-t) % 10) as u8]
    } else {
        dec_digits(t / 10) + seq![46u8, (48 + t % 10) as u8]
    }
}

/// Append the rendering of `t` tenths.
pub fn render_tenths_into(t: i64, out: &mut Vec<u8>)
    requires
        -READING_BOUND < t < READING_BOUND,
    ensures
        final(out)@ == old(out)@ + render_tenths(t as int),
{
    let a: u64 = if t < 0 {
        out.push(45);
        (-t) as u64
    } else {
        t as u64
    };
    push_digits(a / 10, out);
    out.push(46);
    out.push(48 + (a % 10) as u8);
    proof {
        assert(out@ =~= old(out)@ + render_tenths(t as int));
    }
}

/// Millis rounded to tenths, halves away from zero.
pub fn millis_to_tenths(m: i64) -> (t: i64)
    requires
        -READING_BOUND < m < READING_BOUND,
    ensures
        t as int == round_div(m as int, 100),
        -READING_BOUND < t < READING_BOUND,
{
    proof {
        lemma_round_quotient_bound(m as int, 100);
    }
    if m >= 0 {
        let a: u64 = m as u64;
        ((2 * a + 100) / 200) as i64
    } else {
        let a: u64 = (-m) as u64;
        -(((2 * a + 100) / 200) as i64)
    }
}

/// The mean in tenths, rounded once from the exact sum and count.
pub fn avg_tenths(st: &StationResult) -> (t: i64)
    requires
        st.wf(),
        st.count > 0,
    ensures
        t as int == round_div(st.sum as int, 100 * st.count as int),
        -READING_BOUND < t < READING_BOUND,
{
    proof {
        lemma_round_quotient_bound(st.sum as int, 100 * st.count as int);
    }
    let c: u128 = st.count as u128;
    let d: u128 = 100 * c;
    if st.sum >= 0 {
        let a: u128 = st.sum as u128;
        ((2 * a + d) / (2 * d)) as i64
    } else {
        let a: u128 = (-st.sum) as u128;
        -(((2 * a + d) / (2 * d)) as i64)
    }
}

/// The rendering of one entry: `key=min/avg/max`.
pub open spec fn render_entry(k: Seq<u8>, st: StationResult) -> Seq<u8> {
    k + seq![61u8] + render_tenths(round_div(st.min as int, 100)) + seq![47u8] + render_tenths(
        round_div(st.sum as int, 100 * st.count as int),
    ) + seq![47u8] + render_tenths(round_div(st.max as int, 100))
}

/// Append every byte of `s`.
pub fn push_bytes(out: &mut Vec<u8>, s: &[u8])
    ensures
        final(out)@ == old(out)@ + s@,
{
    let n = s.len();
    let mut i: usize = 0;
    while i < n
        invariant
            i <= n,
            n == s@.len(),
            out@ == old(out)@ + s@.subrange(0, i as int),
        decreases n - i,
    {
        let b = *slice_index_get(s, i);
        out.push(b);
        proof {
            assert(old(out)@ + s@.subrange(0, i + 1) =~= (old(out)@ + s@.subrange(0, i as int)).push(
                s@[i as int],
            ));
        }
        i = i + 1;
    }
    proof {
        assert(s@.subrange(0, n as int) =~= s@);
    }
}

/// Append the rendering of one entry.
pub fn render_entry_into(key: &[u8], st: &StationResult, out: &mut Vec<u8>)
    requires
        st.wf(),
        st.count > 0,
    ensures
        final(out)@ == old(out)@ + render_entry(key@, *st),
{
    push_bytes(out, key);
    out.push(61);
    let tmin = millis_to_tenths(st.min);
    render_tenths_into(tmin, out);
    out.push(47);
    let tavg = avg_tenths(st);
    render_tenths_into(tavg, out);
    out.push(47);
    let tmax = millis_to_tenths(st.max);
    render_tenths_into(tmax, out);
    proof {
        assert(out@ =~= old(out)@ + render_entry(key@, *st));
    }
}

/// Entries in strictly increasing key order.
pub open spec fn entries_sorted(es: Seq<(Vec<u8>, StationResult)>) -> bool {
    forall|i: int, j: int|
        #![trigger es[i], es[j]]
        0 <= i < j < es.len() ==> lex_lt(es[i].0@, es[j].0@)
}

/// `e` occurs among the entries of `s`.
pub open spec fn contains_entry(s: Seq<(Vec<u8>, StationResult)>, e: (Vec<u8>, StationResult)) -> bool {
    exists|j: int| 0 <= j < s.len() && (#[trigger] s[j]) == e
}

/// `e` occurs among the entries of `s` at index `from` or later.
pub open spec fn in_suffix(
    s: Seq<(Vec<u8>, StationResult)>,
    from: int,
    e: (Vec<u8>, StationResult),
) -> bool {
    exists|j: int| from <= j < s.len() && (#[trigger] s[j]) == e
}

/// Sort entries with pairwise distinct keys into ascending key order.
/// The result holds exactly the entries of the input.
pub fn sort_entries(src: Vec<(Vec<u8>, StationResult)>) -> (r: Vec<(Vec<u8>, StationResult)>)
    requires
        forall|i: int, j: int|
            #![trigger src@[i], src@[j]]
            0 <= i < j < src@.len() ==> src@[i].0@ != src@[j].0@,
    ensures
        r@.len() == src@.len(),
        entries_sorted(r@),
        forall|i: int| 0 <= i < r@.len() ==> contains_entry(src@, #[trigger] r@[i]),
        forall|j: int| 0 <= j < src@.len() ==> contains_entry(r@, #[trigger] src@[j]),
{
    let mut r: Vec<(Vec<u8>, StationResult)> = Vec::new();
    let mut rem = src;
    let ghost orig = rem@;
    while rem.len() > 0
        invariant
            rem@ =~= orig.take(rem@.len() as int),
            rem@.len() <= orig.len(),
            r@.len() + rem@.len() == orig.len(),
            forall|i: int, j: int|
                #![trigger orig[i], orig[j]]
                0 <= i < j < orig.len() ==> orig[i].0@ != orig[j].0@,
            entries_sorted(r@),
            forall|i: int| 0 <= i < r@.len() ==> in_suffix(orig, rem@.len() as int, #[trigger] r@[i]),
            forall|j: int| rem@.len() <= j < orig.len() ==> contains_entry(r@, #[trigger] orig[j]),
        decreases rem@.len(),
    {
        let e = match rem.pop() {
            Some(p) => p,
            None => {
                proof {
                    assert(false);
                }
                unreached()
            },
        };
        let ghost lp = rem@.len() as int;
        proof {
            assert(e == orig[lp]);
        }
        let ghost r_old = r@;
        let mut k: usize = 0;
        while k < r.len() && lex_less(r[k].0.as_slice(), e.0.as_slice())
            invariant
                k <= r@.len(),
                r@ == r_old,
                forall|i: int| 0 <= i < k ==> lex_lt((#[trigger] r@[i]).0@, e.0@),
            decreases r@.len() - k,
        {
            k = k + 1;
        }
        proof {
            assert forall|i: int| k <= i < r@.len() implies lex_lt(e.0@, (#[trigger] r@[i]).0@) by {
                let j = choose|j: int| lp + 1 <= j < orig.len() && (#[trigger] orig[j]) == r@[i];
                assert(orig[lp].0@ != orig[j].0@);
                assert(e.0@ != r@[i].0@);
                lemma_lex_connex(e.0@, r@[k as int].0@);
                if i == k {
                } else {
                    let jk = choose|j: int|
                        lp + 1 <= j < orig.len() && (#[trigger] orig[j]) == r@[k as int];
                    assert(e.0@ != r@[k as int].0@);
                    assert(lex_lt(e.0@, r@[k as int].0@));
                    assert(lex_lt(r@[k as int].0@, r@[i].0@));
                    lemma_lex_trans(e.0@, r@[k as int].0@, r@[i].0@);
                }
            }
        }
        r.insert(k, e);
        proof {
            let rn = r@;
            assert(rn == r_old.insert(k as int, e));
            assert forall|i: int, j: int|
                #![trigger rn[i], rn[j]]
                0 <= i < j < rn.len() implies lex_lt(rn[i].0@, rn[j].0@) by {
                if i < k && j < k {
                    assert(rn[i] == r_old[i] && rn[j] == r_old[j]);
                } else if i < k && j == k {
                    assert(rn[i] == r_old[i] && rn[j] == e);
                } else if i < k && j > k {
                    assert(rn[i] == r_old[i] && rn[j] == r_old[j - 1]);
                } else if i == k {
                    assert(rn[i] == e && rn[j] == r_old[j - 1]);
                } else {
                    assert(rn[i] == r_old[i - 1] && rn[j] == r_old[j - 1]);
                }
            }
            assert forall|i: int| 0 <= i < rn.len() implies in_suffix(orig, lp, #[trigger] rn[i]) by {
                if i == k {
                    assert(orig[lp] == e);
                } else {
                    let ii: int = if i < k {
                        i
                    } else {
                        i - 1
                    };
                    assert(rn[i] == r_old[ii]);
                    let j = choose|j: int| lp + 1 <= j < orig.len() && (#[trigger] orig[j])
                        == r_old[ii];
                    assert(orig[j] == rn[i]);
                }
            }
            assert forall|j: int| lp <= j < orig.len() implies contains_entry(
                rn,
                #[trigger] orig[j],
            ) by {
                if j == lp {
                    assert(rn[k as int] == orig[j]);
                } else {
                    let i = choose|i: int| 0 <= i < r_old.len() && (#[trigger] r_old[i]) == orig[j];
                    let ni: int = if i < k {
                        i
                    } else {
                        i + 1
                    };
                    assert(rn[ni] == orig[j]);
                }
            }
        }
    }
    proof {
        assert forall|j: int| 0 <= j < orig.len() implies contains_entry(r@, #[trigger] orig[j]) by {
        }
    }
    r
}

/// The byte-string view of each entry.
pub open spec fn entries_view(es: Seq<(Vec<u8>, StationResult)>) -> Seq<(Seq<u8>, StationResult)> {
    es.map_values(|e: (Vec<u8>, StationResult)| (e.0@, e.1))
}

/// The concatenated rendering of the entries, separated by `, `.
pub open spec fn render_entries(es: Seq<(Seq<u8>, StationResult)>) -> Seq<u8>
    decreases es.len(),
{
    if es.len() == 0 {
        Seq::empty()
    } else if es.len() == 1 {
        render_entry(es[0].0, es[0].1)
    } else {
        render_entries(es.drop_last()) + seq![44u8, 32u8] + render_entry(es.last().0, es.last().1)
    }
}

/// The whole summary line: the entries wrapped in braces.
pub open spec fn render_summary_spec(es: Seq<(Seq<u8>, StationResult)>) -> Seq<u8> {
    seq![123u8] + render_entries(es) + seq![125u8]
}

/// Render the summary line for the given entries, in their order.
pub fn render_summary(es: &Vec<(Vec<u8>, StationResult)>) -> (out: Vec<u8>)
    requires
        forall|i: int|
            0 <= i < es@.len() ==> (#[trigger] es@[i]).1.wf() && es@[i].1.count > 0,
    ensures
        out@ == render_summary_spec(entries_view(es@)),
{
    let mut out: Vec<u8> = Vec::new();
    out.push(123);
    let n = es.len();
    let mut i: usize = 0;
    proof {
        assert(out@ =~= seq![123u8] + render_entries(entries_view(es@).take(0)));
    }
    while i < n
        invariant
            i <= n,
            n == es@.len(),
            forall|j: int|
                0 <= j < es@.len() ==> (#[trigger] es@[j]).1.wf() && es@[j].1.count > 0,
            out@ == seq![123u8] + render_entries(entries_view(es@).take(i as int)),
        decreases n - i,
    {
        if i > 0 {
            out.push(44);
            out.push(32);
        }
        render_entry_into(es[i].0.as_slice(), &es[i].1, &mut out);
        proof {
            let ev = entries_view(es@);
            assert(ev[i as int] == (es@[i as int].0@, es@[i as int].1));
            assert(ev.take(i + 1).drop_last() =~= ev.take(i as int));
            assert(ev.take(i + 1).last() == ev[i as int]);
            if i == 0 {
                assert(render_entries(ev.take(1)) == render_entry(ev[0].0, ev[0].1));
                assert(out@ =~= seq![123u8] + render_entries(ev.take(1)));
            } else {
                assert(render_entries(ev.take(i + 1)) == render_entries(ev.take(i as int)) + seq![
                    44u8,
                    32u8,
                ] + render_entry(ev[i as int].0, ev[i as int].1));
                assert(out@ =~= seq![123u8] + render_entries(ev.take(i + 1)));
            }
        }
        i = i + 1;
    }
    out.push(125);
    proof {
        assert(entries_view(es@).take(n as int) =~= entries_view(es@));
        assert(out@ =~= render_summary_spec(entries_view(es@)));
    }
    out
}

} // verus!
