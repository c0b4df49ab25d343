use vstd::prelude::*;

use crate::case_conversion::{to_upper_camel, upper_camel_case};
use crate::configuration_and_utilities::{
    StdFunctions, binary_addition_based_enums, binary_multiplication_based_enums,
    lemma_from_name_of_variant_name, spec_from_name, str_equal, unary_enums, variant_name,
};
use crate::expression::{
    EvalError, EvalTypes, SpecEvalTypes, SpecTerm, Term, items_view, spec_to_std_fn,
};
use crate::number_syntax::{is_number, is_number_literal, lemma_not_number};
use crate::string_and_vec_parsing::{
    count_mark, lemma_count_mark_concat, marks_valid, reversed, spec_zip_by_map, strings_view,
    use_outside, use_top, zip_by_map,
};

verus! {

/// The indices `a, a + 1, .., b - 1` (none when `b <= a`).
pub open spec fn index_range(a: int, b: int) -> Seq<usize> {
    Seq::new(if a < b { (b - a) as nat } else { 0nat }, |i: int| (a + i) as usize)
}

/// `k` marks `use outside`.
pub open spec fn outside_marks(k: nat) -> Seq<Seq<char>> {
    Seq::new(k, |i: int| use_outside())
}

/// Where the indices before the first pair end.
pub open spec fn first_end(t: Seq<(usize, usize)>, n: usize) -> int {
    if t.len() == 0 {
        n as int
    } else {
        t[0].0 as int
    }
}

/// Where the indices after the pair `k` end: at the next pair, or at `n`.
pub open spec fn segment_end(t: Seq<(usize, usize)>, n: usize, k: int) -> int {
    if k + 1 < t.len() {
        t[k + 1].0 as int
    } else {
        n as int
    }
}

/// The indices after the pair `k` and before the next pair (or `n`).
pub open spec fn gap_after(t: Seq<(usize, usize)>, n: usize, k: int) -> Seq<usize> {
    index_range(t[k].1 + 1, segment_end(t, n, k))
}

/// The indices outside the pairs, up to the end of the gap after pair `k - 1`.
pub open spec fn outside_prefix(t: Seq<(usize, usize)>, n: usize, k: nat) -> Seq<usize>
    decreases k,
{
    if k == 0 {
        index_range(0, first_end(t, n))
    } else {
        outside_prefix(t, n, (k - 1) as nat) + gap_after(t, n, k - 1)
    }
}

/// The marks up to the end of the gap after pair `k - 1`: one `use outside`
/// per index outside the pairs and one `use top` per pair, in order.
pub open spec fn mapping_prefix(t: Seq<(usize, usize)>, n: usize, k: nat) -> Seq<Seq<char>>
    decreases k,
{
    if k == 0 {
        outside_marks(index_range(0, first_end(t, n)).len())
    } else {
        mapping_prefix(t, n, (k - 1) as nat).push(use_top()) + outside_marks(
            gap_after(t, n, k - 1).len(),
        )
    }
}

/// The indices of `0 .. n` outside the pairs `t`, in order, and the mapping
/// vector that interlaces them with the pairs.
pub open spec fn spec_fill_indices(t: Seq<(usize, usize)>, n: usize) -> (Seq<usize>, Seq<Seq<char>>) {
    (outside_prefix(t, n, t.len()), mapping_prefix(t, n, t.len()))
}

/// The inputs on which `fill_indices` can compute its result: every pair but
/// the first starts after index 0, and there are indices when there are pairs.
pub open spec fn fill_indices_requires(t: Seq<(usize, usize)>, n: usize) -> bool {
    &&& t.len() > 0 ==> n > 0
    &&& forall|k: int| 0 < k < t.len() ==> #[trigger] t[k].0 > 0
}

proof fn lemma_outside_marks_count(k: nat)
    ensures
        count_mark(outside_marks(k), use_outside()) == k,
        count_mark(outside_marks(k), use_top()) == 0,
        marks_valid(outside_marks(k)),
    decreases k,
{
    if k > 0 {
        assert(outside_marks(k).drop_first() =~= outside_marks((k - 1) as nat));
        lemma_outside_marks_count((k - 1) as nat);
        assert(use_top() != use_outside()) by {
            assert(use_top().len() != use_outside().len());
        }
    }
}

/// The marks of the mapping vector count the pairs and the outside indices.
proof fn lemma_mapping_prefix_counts(t: Seq<(usize, usize)>, n: usize, k: nat)
    requires
        k <= t.len(),
    ensures
        count_mark(mapping_prefix(t, n, k), use_top()) == k,
        count_mark(mapping_prefix(t, n, k), use_outside()) == outside_prefix(t, n, k).len(),
        marks_valid(mapping_prefix(t, n, k)),
        mapping_prefix(t, n, k).len() == k + outside_prefix(t, n, k).len(),
    decreases k,
{
    if k == 0 {
        lemma_outside_marks_count(index_range(0, first_end(t, n)).len());
    } else {
        let kk = (k - 1) as nat;
        lemma_mapping_prefix_counts(t, n, kk);
        let prev = mapping_prefix(t, n, kk);
        let g = outside_marks(gap_after(t, n, k - 1).len());
        lemma_outside_marks_count(gap_after(t, n, k - 1).len());
        assert(prev.push(use_top()) =~= prev + seq![use_top()]);
        lemma_count_mark_concat(prev, seq![use_top()], use_top());
        lemma_count_mark_concat(prev, seq![use_top()], use_outside());
        lemma_count_mark_concat(prev.push(use_top()), g, use_top());
        lemma_count_mark_concat(prev.push(use_top()), g, use_outside());
        assert(use_top() != use_outside()) by {
            assert(use_top().len() != use_outside().len());
        }
        assert(seq![use_top()].drop_first() =~= Seq::<Seq<char>>::empty());
        assert(seq![use_top()][0] == use_top());
        reveal_with_fuel(count_mark, 2);
        assert(count_mark(seq![use_top()], use_top()) == 1);
        assert(count_mark(seq![use_top()], use_outside()) == 0);
        let whole = mapping_prefix(t, n, k);
        assert forall|i: int| 0 <= i < whole.len() implies (#[trigger] whole[i] == use_top()
            || whole[i] == use_outside()) by {
            if i < prev.len() {
                assert(whole[i] == prev[i]);
            } else if i == prev.len() {
            } else {
                assert(whole[i] == g[i - prev.len() - 1]);
            }
        }
    }
}

/// A new `use outside` mark.
fn outside_mark() -> (res: String)
    ensures
        res@ == use_outside(),
{
    proof {
        reveal_strlit("use outside");
        assert("use outside"@ =~= use_outside());
    }
    String::from_str("use outside")
}

/// A new `use top` mark.
fn top_mark() -> (res: String)
    ensures
        res@ == use_top(),
{
    proof {
        reveal_strlit("use top");
        assert("use top"@ =~= use_top());
    }
    String::from_str("use top")
}

/// Appends the indices `a .. b` to `out` and as many `use outside` marks to `map`.
fn push_outside_range(out: &mut Vec<usize>, map: &mut Vec<String>, a: usize, b: usize)
    requires
        a <= b,
    ensures
        final(out)@ == old(out)@ + index_range(a as int, b as int),
        strings_view(final(map)@) == strings_view(old(map)@) + outside_marks((b - a) as nat),
{
    let mut j = a;
    while j < b
        invariant
            a <= j <= b,
            out@ == old(out)@ + index_range(a as int, j as int),
            strings_view(map@) == strings_view(old(map)@) + outside_marks((j - a) as nat),
        decreases b - j,
    {
        out.push(j);
        let ghost prev = map@;
        let mark = outside_mark();
        map.push(mark);
        assert(map@ == prev.push(mark));
        assert(strings_view(map@) =~= strings_view(prev).push(use_outside()));
        j = j + 1;
        assert(out@ =~= old(out)@ + index_range(a as int, j as int));
        assert(strings_view(map@) =~= strings_view(old(map)@) + outside_marks((j - a) as nat));
    }
}

/// Takes pairs of indices `(first, last)` that mark parenthesised groups of an
/// expression of `total_len` tokens, and returns the indices outside the
/// groups, in order, with a mapping vector that says how to interlace the
/// groups and those indices: a `use top` mark for each group and a
/// `use outside` mark for each outside index, in the order of the expression.
pub fn fill_indices(ind_tuples: Vec<(usize, usize)>, total_len: usize) -> (res: (Vec<usize>, Vec<String>))
    requires
        fill_indices_requires(ind_tuples@, total_len),
    ensures
        res.0@ == spec_fill_indices(ind_tuples@, total_len).0,
        strings_view(res.1@) == spec_fill_indices(ind_tuples@, total_len).1,
        marks_valid(strings_view(res.1@)),
        count_mark(strings_view(res.1@), use_top()) == ind_tuples@.len(),
        count_mark(strings_view(res.1@), use_outside()) == res.0@.len(),
{
    let ghost t = ind_tuples@;
    let n = ind_tuples.len();
    let mut output: Vec<usize> = Vec::new();
    let mut mapping_vector: Vec<String> = Vec::new();
    if n == 0 {
        push_outside_range(&mut output, &mut mapping_vector, 0, total_len);
    } else if ind_tuples[0].0 > 0 {
        push_outside_range(&mut output, &mut mapping_vector, 0, ind_tuples[0].0);
    }
    assert(output@ =~= outside_prefix(t, total_len, 0));
    assert(strings_view(mapping_vector@) =~= mapping_prefix(t, total_len, 0));
    let mut k: usize = 0;
    while k < n
        invariant
            n == t.len(),
            t == ind_tuples@,
            fill_indices_requires(t, total_len),
            k <= n,
            output@ == outside_prefix(t, total_len, k as nat),
            strings_view(mapping_vector@) == mapping_prefix(t, total_len, k as nat),
        decreases n - k,
    {
        let member = ind_tuples[k];
        mapping_vector.push(top_mark());
        let ghost after_top = strings_view(mapping_vector@);
        assert(after_top =~= mapping_prefix(t, total_len, k as nat).push(use_top()));
        let end = if k + 1 < n { ind_tuples[k + 1].0 } else { total_len };
        assert(end == segment_end(t, total_len, k as int));
        assert(end > 0);
        if member.1 < end - 1 {
            push_outside_range(&mut output, &mut mapping_vector, member.1 + 1, end);
        } else {
            assert(gap_after(t, total_len, k as int) =~= Seq::<usize>::empty());
            assert(strings_view(mapping_vector@) =~= after_top + outside_marks(0));
        }
        k = k + 1;
        assert(output@ =~= outside_prefix(t, total_len, k as nat));
        assert(strings_view(mapping_vector@) =~= mapping_prefix(t, total_len, k as nat));
    }
    proof {
        lemma_mapping_prefix_counts(t, total_len, t.len());
    }
    (output, mapping_vector)
}

/// Under the pairs that mark groups (each ends after it starts, each starts
/// after the previous one ends, all inside `0 .. n`), every index of the
/// outside part is below `n`.
proof fn lemma_outside_prefix_bounded(t: Seq<(usize, usize)>, n: usize, k: nat)
    requires
        k <= t.len(),
        forall|i: int| 0 <= i < t.len() ==> #[trigger] t[i].0 <= n,
    ensures
        forall|i: int| 0 <= i < outside_prefix(t, n, k).len() ==> #[trigger] outside_prefix(t, n, k)[i] < n,
    decreases k,
{
    if k == 0 {
        assert(first_end(t, n) <= n);
    } else {
        lemma_outside_prefix_bounded(t, n, (k - 1) as nat);
        let prev = outside_prefix(t, n, (k - 1) as nat);
        let g = gap_after(t, n, k - 1);
        assert(segment_end(t, n, k - 1) <= n);
        assert forall|i: int| 0 <= i < outside_prefix(t, n, k).len() implies #[trigger] outside_prefix(t, n, k)[i] < n by {
            if i >= prev.len() {
                assert(outside_prefix(t, n, k)[i] == g[i - prev.len()]);
            }
        }
    }
}


/// Whether index `i` lies inside one of the pairs.
pub open spec fn covered(t: Seq<(usize, usize)>, i: int) -> bool {
    exists|k: int| 0 <= k < t.len() && #[trigger] t[k].0 <= i && i <= t[k].1
}

/// Pairs that mark disjoint groups of `0 .. n`, in order.
pub open spec fn pairs_ordered(t: Seq<(usize, usize)>, n: usize) -> bool {
    &&& forall|k: int| 0 <= k < t.len() ==> #[trigger] t[k].0 <= t[k].1 && t[k].1 < n
    &&& forall|j: int, k: int| 0 <= j < k < t.len() ==> #[trigger] t[j].1 < #[trigger] t[k].0
}

/// Where the part of the outside indices up to pair `k` ends.
pub open spec fn prefix_end(t: Seq<(usize, usize)>, n: usize, k: nat) -> int {
    if k == 0 {
        first_end(t, n)
    } else {
        segment_end(t, n, k - 1)
    }
}

proof fn lemma_outside_prefix_complement(t: Seq<(usize, usize)>, n: usize, k: nat)
    requires
        pairs_ordered(t, n),
        k <= t.len(),
    ensures
        forall|x: usize| #[trigger] outside_prefix(t, n, k).contains(x) <==> (x < prefix_end(t, n, k) && !covered(t, x as int)),
        forall|i: int, j: int|
            0 <= i < j < outside_prefix(t, n, k).len() ==> #[trigger] outside_prefix(t, n, k)[i] < #[trigger] outside_prefix(t, n, k)[j],
        forall|i: int| 0 <= i < outside_prefix(t, n, k).len() ==> #[trigger] outside_prefix(t, n, k)[i] < prefix_end(t, n, k),
    decreases k,
{
    let o = outside_prefix(t, n, k);
    if k == 0 {
        let e = first_end(t, n);
        assert forall|x: usize| #[trigger] o.contains(x) <==> (x < e && !covered(t, x as int)) by {
            if x < e {
                assert(o[x as int] == x);
                if covered(t, x as int) {
                    let kk = choose|kk: int| 0 <= kk < t.len() && #[trigger] t[kk].0 <= x && x <= t[kk].1;
                    if kk > 0 {
                        assert(t[0].1 < t[kk].0);
                    }
                }
            }
        }
    } else {
        let kk = (k - 1) as nat;
        lemma_outside_prefix_complement(t, n, kk);
        let prev = outside_prefix(t, n, kk);
        let g = gap_after(t, n, k - 1);
        let e_prev = prefix_end(t, n, kk);
        let e = prefix_end(t, n, k);
        assert(e_prev == t[k - 1].0 as int) by {
            if kk > 0 {
                assert(segment_end(t, n, kk - 1) == t[kk as int].0);
            }
        }
        assert(o == prev + g);
        assert forall|x: usize| #[trigger] o.contains(x) <==> (x < e && !covered(t, x as int)) by {
            if o.contains(x) {
                let i = choose|i: int| 0 <= i < o.len() && o[i] == x;
                if i < prev.len() {
                    assert(prev[i] == x);
                    assert(prev.contains(x));
                    assert(x < e_prev);
                } else {
                    assert(g[i - prev.len()] == x);
                    assert(x > t[k - 1].1 && x < e);
                    if covered(t, x as int) {
                        let j = choose|j: int| 0 <= j < t.len() && #[trigger] t[j].0 <= x && x <= t[j].1;
                        if j < k - 1 {
                            assert(t[j].1 < t[k - 1].0);
                        } else if j > k - 1 {
                            assert(k < t.len());
                            if j > k {
                                assert(t[k as int].1 < t[j].0);
                            }
                        }
                    }
                }
            }
            if x < e && !covered(t, x as int) {
                if x < e_prev {
                    assert(prev.contains(x));
                    let i = choose|i: int| 0 <= i < prev.len() && prev[i] == x;
                    assert(o[i] == x);
                } else {
                    assert(!(t[k - 1].0 <= x && x <= t[k - 1].1));
                    assert(x > t[k - 1].1);
                    let i = x - (t[k - 1].1 + 1);
                    assert(g[i] == x);
                    assert(o[prev.len() + i] == x);
                }
            }
        }
        assert forall|i: int| 0 <= i < o.len() implies #[trigger] o[i] < e by {
            if i < prev.len() {
                assert(o[i] == prev[i]);
                assert(e_prev <= e) by {
                    assert(t[k - 1].0 <= t[k - 1].1);
                }
            }
        }
        assert forall|i: int, j: int| 0 <= i < j < o.len() implies #[trigger] o[i] < #[trigger] o[j] by {
            if j < prev.len() {
                assert(o[i] == prev[i] && o[j] == prev[j]);
            } else if i < prev.len() {
                assert(o[i] == prev[i]);
                assert(prev[i] < e_prev);
            }
        }
    }
}

/// For pairs that mark disjoint groups of `0 .. n`, in order, the outside
/// indices are exactly the indices of `0 .. n` that no pair covers, in
/// increasing order; and the mapping vector has a `use top` per pair and a
/// `use outside` per outside index.
pub proof fn lemma_fill_indices_complement(t: Seq<(usize, usize)>, n: usize)
    requires
        pairs_ordered(t, n),
    ensures
        forall|x: usize| #[trigger] spec_fill_indices(t, n).0.contains(x) <==> (x < n && !covered(t, x as int)),
        forall|i: int, j: int|
            0 <= i < j < spec_fill_indices(t, n).0.len() ==> #[trigger] spec_fill_indices(t, n).0[i] < #[trigger] spec_fill_indices(t, n).0[j],
        count_mark(spec_fill_indices(t, n).1, use_top()) == t.len(),
        count_mark(spec_fill_indices(t, n).1, use_outside()) == spec_fill_indices(t, n).0.len(),
        spec_fill_indices(t, n).1.len() == t.len() + spec_fill_indices(t, n).0.len(),
{
    lemma_outside_prefix_complement(t, n, t.len());
    lemma_mapping_prefix_counts(t, n, t.len());
    assert(prefix_end(t, n, t.len()) == n);
}

proof fn lemma_zip_concat<A>(ta: Seq<A>, tb: Seq<A>, oa: Seq<A>, ob: Seq<A>, ma: Seq<Seq<char>>, mb: Seq<Seq<char>>)
    requires
        marks_valid(ma),
        count_mark(ma, use_top()) == ta.len(),
        count_mark(ma, use_outside()) == oa.len(),
    ensures
        spec_zip_by_map(ta + tb, oa + ob, ma + mb) == spec_zip_by_map(ta, oa, ma) + spec_zip_by_map(tb, ob, mb),
    decreases ma.len(),
{
    assert(use_top() != use_outside()) by {
        assert(use_top().len() != use_outside().len());
    }
    if ma.len() == 0 {
        assert(ta =~= Seq::<A>::empty());
        assert(oa =~= Seq::<A>::empty());
        assert(ta + tb =~= tb);
        assert(oa + ob =~= ob);
        assert(ma + mb =~= mb);
        assert(spec_zip_by_map(ta, oa, ma) + spec_zip_by_map(tb, ob, mb) =~= spec_zip_by_map(tb, ob, mb));
    } else {
        let m1 = ma.drop_first();
        assert((ma + mb).drop_first() =~= m1 + mb);
        assert((ma + mb)[0] == ma[0]);
        assert(marks_valid(m1)) by {
            assert forall|i: int| 0 <= i < m1.len() implies (#[trigger] m1[i] == use_top() || m1[i] == use_outside()) by {
                assert(m1[i] == ma[i + 1]);
            }
        }
        assert(ma[0] == use_top() || ma[0] == use_outside());
        if ma[0] == use_top() {
            assert((ta + tb).drop_first() =~= ta.drop_first() + tb);
            assert((ta + tb)[0] == ta[0]);
            lemma_zip_concat(ta.drop_first(), tb, oa, ob, m1, mb);
            assert(seq![ta[0]] + (spec_zip_by_map(ta.drop_first(), oa, m1) + spec_zip_by_map(tb, ob, mb)) =~= (seq![ta[0]]
                + spec_zip_by_map(ta.drop_first(), oa, m1)) + spec_zip_by_map(tb, ob, mb));
        } else {
            assert((oa + ob).drop_first() =~= oa.drop_first() + ob);
            assert((oa + ob)[0] == oa[0]);
            lemma_zip_concat(ta, tb, oa.drop_first(), ob, m1, mb);
            assert(seq![oa[0]] + (spec_zip_by_map(ta, oa.drop_first(), m1) + spec_zip_by_map(tb, ob, mb)) =~= (seq![oa[0]]
                + spec_zip_by_map(ta, oa.drop_first(), m1)) + spec_zip_by_map(tb, ob, mb));
        }
    }
}

/// The start of each pair.
pub open spec fn pair_starts(t: Seq<(usize, usize)>) -> Seq<usize> {
    t.map_values(|p: (usize, usize)| p.0)
}

proof fn lemma_fill_order_prefix(t: Seq<(usize, usize)>, n: usize, k: nat)
    requires
        pairs_ordered(t, n),
        k <= t.len(),
    ensures
        ({
            let z = spec_zip_by_map(pair_starts(t).take(k as int), outside_prefix(t, n, k), mapping_prefix(t, n, k));
            &&& z.len() == k + outside_prefix(t, n, k).len()
            &&& forall|i: int, j: int| 0 <= i < j < z.len() ==> #[trigger] z[i] < #[trigger] z[j]
            &&& forall|i: int| 0 <= i < z.len() ==> #[trigger] z[i] < prefix_end(t, n, k)
        }),
    decreases k,
{
    lemma_mapping_prefix_counts(t, n, k);
    lemma_outside_prefix_complement(t, n, k);
    let starts = pair_starts(t);
    if k == 0 {
        let o = outside_prefix(t, n, 0);
        assert(starts.take(0) =~= Seq::<usize>::empty());
        lemma_zip_all_outside(o);
        assert(mapping_prefix(t, n, 0) == outside_marks(o.len()));
    } else {
        let kk = (k - 1) as nat;
        lemma_fill_order_prefix(t, n, kk);
        lemma_mapping_prefix_counts(t, n, kk);
        lemma_outside_prefix_complement(t, n, kk);
        let ta = starts.take(kk as int);
        let oa = outside_prefix(t, n, kk);
        let ma = mapping_prefix(t, n, kk);
        let g = gap_after(t, n, k - 1);
        let s0 = t[k - 1].0;
        let mb = seq![use_top()] + outside_marks(g.len());
        assert(ma.push(use_top()) + outside_marks(g.len()) =~= ma + mb);
        assert(starts.take(k as int) =~= ta + seq![s0]);
        lemma_zip_concat(ta, seq![s0], oa, g, ma, mb);
        assert(use_top() != use_outside()) by {
            assert(use_top().len() != use_outside().len());
        }
        assert(mb[0] == use_top());
        assert(mb.drop_first() =~= outside_marks(g.len()));
        assert(seq![s0].drop_first() =~= Seq::<usize>::empty());
        lemma_zip_all_outside(g);
        let zb = spec_zip_by_map(seq![s0], g, mb);
        assert(zb =~= seq![s0] + g);
        let za = spec_zip_by_map(ta, oa, ma);
        let z = za + zb;
        let e_prev = prefix_end(t, n, kk);
        assert(e_prev == s0 as int) by {
            if kk > 0 {
                assert(segment_end(t, n, kk - 1) == t[kk as int].0);
            }
        }
        assert(s0 <= t[k - 1].1);
        assert forall|i: int| 0 <= i < g.len() implies #[trigger] g[i] > t[k - 1].1 && g[i] < prefix_end(t, n, k) by {}
        assert forall|i: int| 0 <= i < z.len() implies #[trigger] z[i] < prefix_end(t, n, k) by {
            if i < za.len() {
                assert(z[i] == za[i]);
                if k < t.len() {
                    assert(t[k - 1].1 < t[k as int].0);
                }
            } else if i == za.len() {
                assert(z[i] == s0);
                if k < t.len() {
                    assert(t[k - 1].1 < t[k as int].0);
                }
            } else {
                assert(z[i] == g[i - za.len() - 1]);
            }
        }
        assert forall|i: int, j: int| 0 <= i < j < z.len() implies #[trigger] z[i] < #[trigger] z[j] by {
            if j < za.len() {
                assert(z[i] == za[i] && z[j] == za[j]);
            } else if j == za.len() {
                assert(z[i] == za[i] && z[j] == s0);
            } else if i < za.len() {
                assert(z[i] == za[i] && z[j] == g[j - za.len() - 1]);
            } else if i == za.len() {
                assert(z[i] == s0 && z[j] == g[j - za.len() - 1]);
            } else {
                assert(z[i] == g[i - za.len() - 1] && z[j] == g[j - za.len() - 1]);
            }
        }
    }
}

/// For pairs that mark disjoint groups of `0 .. n`, in order, the mapping
/// vector puts the groups and the outside indices in the order of the
/// expression: interlacing the start of each group with the outside indices as
/// its marks say gives every position once, in increasing order.
pub proof fn lemma_fill_indices_order(t: Seq<(usize, usize)>, n: usize)
    requires
        pairs_ordered(t, n),
    ensures
        ({
            let z = spec_zip_by_map(pair_starts(t), spec_fill_indices(t, n).0, spec_fill_indices(t, n).1);
            &&& z.len() == t.len() + spec_fill_indices(t, n).0.len()
            &&& forall|i: int, j: int| 0 <= i < j < z.len() ==> #[trigger] z[i] < #[trigger] z[j]
        }),
{
    lemma_fill_order_prefix(t, n, t.len());
    assert(pair_starts(t).take(t.len() as int) =~= pair_starts(t));
}

// ----- parentheses -----

pub open spec fn open_token() -> Seq<char> {
    seq!['(']
}

pub open spec fn close_token() -> Seq<char> {
    seq![')']
}

/// Whether the whole expression is one parenthesised group: its first `(`
/// closes at its last token.
pub open spec fn encloses(s: Seq<Seq<char>>) -> bool {
    &&& s.len() >= 2
    &&& scan_parens(s).groups.len() > 0
    &&& scan_parens(s).groups[0] == (0usize, (s.len() - 1) as usize)
}

/// The expression without its outer parentheses, when it is one parenthesised
/// group (see `encloses`).
pub open spec fn strip_outer(s: Seq<Seq<char>>) -> Seq<Seq<char>> {
    if encloses(s) {
        s.subrange(1, s.len() - 1)
    } else {
        s
    }
}

/// The state of the count of parentheses after some tokens: the groups found,
/// where the open group started, how many `(` and `)` were seen, whether a
/// group is open, and the number of parenthesis tokens.
pub struct ParenScan {
    pub groups: Seq<(usize, usize)>,
    pub start: usize,
    pub opened: nat,
    pub closed: nat,
    pub counting: bool,
    pub total: nat,
}

/// Counts the parentheses of `s` from left to right. The first `(` while no
/// group is open starts a group; a `)` after which as many `)` as `(` were
/// seen ends it, and the group is recorded as the pair of their indices.
pub open spec fn scan_parens(s: Seq<Seq<char>>) -> ParenScan
    decreases s.len(),
{
    if s.len() == 0 {
        ParenScan { groups: seq![], start: 0, opened: 0, closed: 0, counting: false, total: 0 }
    } else {
        let p = scan_parens(s.drop_last());
        let i = (s.len() - 1) as usize;
        if s[s.len() - 1] == open_token() {
            ParenScan {
                groups: p.groups,
                start: if p.counting { p.start } else { i },
                opened: p.opened + 1,
                closed: p.closed,
                counting: true,
                total: p.total + 1,
            }
        } else if s[s.len() - 1] == close_token() {
            if p.opened == p.closed + 1 {
                ParenScan {
                    groups: p.groups.push((p.start, i)),
                    start: 0,
                    opened: p.opened,
                    closed: p.closed + 1,
                    counting: false,
                    total: p.total + 1,
                }
            } else {
                ParenScan {
                    groups: p.groups,
                    start: p.start,
                    opened: p.opened,
                    closed: p.closed + 1,
                    counting: p.counting,
                    total: p.total + 1,
                }
            }
        } else {
            p
        }
    }
}

/// Each group runs from a `(` to a later `)` of `s`, and the groups follow
/// each other.
pub open spec fn groups_wf(s: Seq<Seq<char>>, groups: Seq<(usize, usize)>) -> bool {
    &&& forall|k: int|
        0 <= k < groups.len() ==> {
            &&& #[trigger] groups[k].0 < groups[k].1
            &&& groups[k].1 < s.len()
            &&& s[groups[k].0 as int] == open_token()
            &&& s[groups[k].1 as int] == close_token()
        }
    &&& forall|k: int| 0 <= k < groups.len() - 1 ==> #[trigger] groups[k].1 < groups[k + 1].0
}

/// What holds of the count after any tokens: the groups are well formed, and
/// an open group started at a `(` after them.
pub open spec fn scan_wf(s: Seq<Seq<char>>, p: ParenScan) -> bool {
    &&& groups_wf(s, p.groups)
    &&& p.counting ==> {
        &&& p.start < s.len()
        &&& s[p.start as int] == open_token()
        &&& p.groups.len() > 0 ==> p.groups[p.groups.len() - 1].1 < p.start
    }
    &&& !p.counting ==> p.closed >= p.opened
    &&& p.total == p.opened + p.closed
    &&& p.opened + p.closed <= s.len()
}

proof fn lemma_groups_wf_extend(pre: Seq<Seq<char>>, s: Seq<Seq<char>>, groups: Seq<(usize, usize)>)
    requires
        groups_wf(pre, groups),
        pre.len() <= s.len(),
        forall|j: int| 0 <= j < pre.len() ==> #[trigger] s[j] == pre[j],
    ensures
        groups_wf(s, groups),
{
    assert forall|k: int| 0 <= k < groups.len() implies {
        &&& #[trigger] groups[k].0 < groups[k].1
        &&& groups[k].1 < s.len()
        &&& s[groups[k].0 as int] == open_token()
        &&& s[groups[k].1 as int] == close_token()
    } by {
        assert(s[groups[k].0 as int] == pre[groups[k].0 as int]);
        assert(s[groups[k].1 as int] == pre[groups[k].1 as int]);
    }
}

proof fn lemma_groups_wf_push(s: Seq<Seq<char>>, groups: Seq<(usize, usize)>, g: (usize, usize))
    requires
        groups_wf(s, groups),
        g.0 < g.1 < s.len(),
        s[g.0 as int] == open_token(),
        s[g.1 as int] == close_token(),
        groups.len() > 0 ==> groups[groups.len() - 1].1 < g.0,
    ensures
        groups_wf(s, groups.push(g)),
{
    let q = groups.push(g);
    assert forall|k: int| 0 <= k < q.len() implies {
        &&& #[trigger] q[k].0 < q[k].1
        &&& q[k].1 < s.len()
        &&& s[q[k].0 as int] == open_token()
        &&& s[q[k].1 as int] == close_token()
    } by {
        if k < groups.len() {
            assert(q[k] == groups[k]);
        }
    }
    assert forall|k: int| 0 <= k < q.len() - 1 implies #[trigger] q[k].1 < q[k + 1].0 by {
        if k < groups.len() - 1 {
            assert(q[k] == groups[k]);
            assert(q[k + 1] == groups[k + 1]);
        } else {
            assert(q[k] == groups[k]);
        }
    }
}

proof fn lemma_scan_wf(s: Seq<Seq<char>>)
    requires
        s.len() <= usize::MAX,
    ensures
        scan_wf(s, scan_parens(s)),
    decreases s.len(),
{
    if s.len() > 0 {
        let pre = s.drop_last();
        lemma_scan_wf(pre);
        let p = scan_parens(pre);
        let q = scan_parens(s);
        let i = (s.len() - 1) as usize;
        assert forall|j: int| 0 <= j < pre.len() implies #[trigger] s[j] == pre[j] by {}
        lemma_groups_wf_extend(pre, s, p.groups);
        if p.counting {
            assert(s[p.start as int] == pre[p.start as int]);
        }
        if p.groups.len() > 0 {
            let last = p.groups.len() - 1;
            assert(p.groups[last].0 < p.groups[last].1);
        }
        if s[s.len() - 1] == open_token() {
            assert(q.groups == p.groups);
        } else if s[s.len() - 1] == close_token() {
            if p.opened == p.closed + 1 {
                assert(p.counting);
                lemma_groups_wf_push(s, p.groups, (p.start, i));
                assert(q.groups == p.groups.push((p.start, i)));
            } else {
                assert(q.groups == p.groups);
            }
        } else {
            assert(q == p);
        }
    }
}

/// Whether a pair of indices marks a group that ends after it starts, the
/// indices read as 32-bit signed numbers.
pub open spec fn spec_is_val_ind(p: (usize, usize)) -> bool {
    (p.1 as i32) as int - (p.0 as i32) as int > 0
}

trait PairBool {
    fn is_val_ind(&self) -> bool;
}

impl PairBool for (usize, usize) {
    fn is_val_ind(&self) -> (res: bool)
        ensures
            res == spec_is_val_ind(*self),
    {
        (self.1 as i32 as i64) - (self.0 as i32 as i64) > 0
    }
}

// ----- order of operations -----

/// Whether an operation list names the one-argument functions (it starts with
/// one of them).
pub open spec fn is_unary_list(ops: Seq<StdFunctions>) -> bool {
    ops[0] == StdFunctions::Sin || ops[0] == StdFunctions::Cos
}

pub open spec fn is_unary_fn(f: StdFunctions) -> bool {
    f == StdFunctions::Sin || f == StdFunctions::Cos
}

pub open spec fn is_binary_fn(f: StdFunctions) -> bool {
    ||| f == StdFunctions::Add
    ||| f == StdFunctions::Subtract
    ||| f == StdFunctions::Multiply
    ||| f == StdFunctions::Divide
    ||| f == StdFunctions::Power
}

/// An operation list that is not empty and names only one-argument functions,
/// or only binary operators, as the three lists of the passes do. The step of
/// the reduction needs only a non-empty list; this is what makes every
/// operation it builds name an operator of its kind.
pub open spec fn valid_operations(ops: Seq<StdFunctions>) -> bool {
    &&& ops.len() > 0
    &&& is_unary_list(ops) ==> forall|i: int| 0 <= i < ops.len() ==> is_unary_fn(#[trigger] ops[i])
    &&& !is_unary_list(ops) ==> forall|i: int| 0 <= i < ops.len() ==> is_binary_fn(#[trigger] ops[i])
}

/// One step of the reduction, on the last elements of `v`: an operator of
/// `ops` between two operands becomes the operation on them (binary list), or
/// a function of `ops` before an operand becomes the function of it (unary
/// list). An operator of `ops` next to something that is not an operand is
/// refused; otherwise `v` stays as it is.
pub open spec fn spec_eval_enum(v: Seq<SpecEvalTypes>, ops: Seq<StdFunctions>) -> Result<Seq<SpecEvalTypes>, EvalError> {
    let n = v.len();
    if !is_unary_list(ops) {
        if n >= 3 && ops.contains(spec_to_std_fn(v[n - 2])) {
            match (v[n - 3], v[n - 1]) {
                (SpecEvalTypes::EvalVec(a), SpecEvalTypes::EvalVec(b)) => Ok(
                    v.take(n - 3).push(
                        SpecEvalTypes::EvalVec(
                            SpecTerm::Binary(spec_to_std_fn(v[n - 2]), Box::new(a), Box::new(b)),
                        ),
                    ),
                ),
                _ => Err(EvalError::WrongEvalType),
            }
        } else {
            Ok(v)
        }
    } else {
        if n >= 2 && ops.contains(spec_to_std_fn(v[n - 2])) {
            match v[n - 1] {
                SpecEvalTypes::EvalVec(a) => Ok(
                    v.take(n - 2).push(
                        SpecEvalTypes::EvalVec(SpecTerm::Unary(spec_to_std_fn(v[n - 2]), Box::new(a))),
                    ),
                ),
                _ => Err(EvalError::WrongEvalType),
            }
        } else {
            Ok(v)
        }
    }
}

/// One pass over the elements, from left to right: each element is appended
/// and the step of `spec_eval_enum` applied; the first refusal ends the pass.
pub open spec fn spec_pass(items: Seq<SpecEvalTypes>, ops: Seq<StdFunctions>) -> Result<Seq<SpecEvalTypes>, EvalError>
    decreases items.len(),
{
    if items.len() == 0 {
        Ok(seq![])
    } else {
        match spec_pass(items.drop_last(), ops) {
            Ok(acc) => spec_eval_enum(acc.push(items[items.len() - 1]), ops),
            Err(e) => Err(e),
        }
    }
}

pub open spec fn unary_ops() -> Seq<StdFunctions> {
    seq![StdFunctions::Sin, StdFunctions::Cos]
}

pub open spec fn multiplication_ops() -> Seq<StdFunctions> {
    seq![StdFunctions::Divide, StdFunctions::Multiply, StdFunctions::Power]
}

pub open spec fn addition_ops() -> Seq<StdFunctions> {
    seq![StdFunctions::Add, StdFunctions::Subtract]
}

/// The three passes (functions, then multiplication, division and
/// exponentiation, then addition and subtraction); the expression must come
/// down to one element.
pub open spec fn spec_reduce(items: Seq<SpecEvalTypes>) -> Result<SpecEvalTypes, EvalError> {
    match spec_pass(items, unary_ops()) {
        Err(e) => Err(e),
        Ok(v1) => match spec_pass(v1, multiplication_ops()) {
            Err(e) => Err(e),
            Ok(v2) => match spec_pass(v2, addition_ops()) {
                Err(e) => Err(e),
                Ok(v3) => if v3.len() == 1 {
                    Ok(v3[0])
                } else {
                    Err(EvalError::ImproperlyFormatted)
                },
            },
        },
    }
}

// ----- tokens outside parentheses -----

/// What a token outside parentheses stands for: a number, the variable, or the
/// variant named by the token converted to upper camel case.
pub open spec fn spec_classify(tok: Seq<char>) -> Result<SpecEvalTypes, EvalError> {
    if is_number_literal(tok) {
        Ok(SpecEvalTypes::EvalVec(SpecTerm::Number(tok)))
    } else if tok == variant_name(StdFunctions::Variable) {
        Ok(SpecEvalTypes::EvalVec(SpecTerm::Variable))
    } else {
        match spec_from_name(upper_camel_case(tok)) {
            Some(f) => Ok(SpecEvalTypes::Fun(f)),
            None => Err(EvalError::UnknownFunction),
        }
    }
}

/// The tokens of `loc` at the indices `idx`, each as it stands for; the first
/// that stands for nothing ends it.
pub open spec fn spec_classify_all(loc: Seq<Seq<char>>, idx: Seq<usize>) -> Result<Seq<SpecEvalTypes>, EvalError>
    decreases idx.len(),
{
    if idx.len() == 0 {
        Ok(seq![])
    } else {
        match spec_classify_all(loc, idx.drop_last()) {
            Err(e) => Err(e),
            Ok(acc) => match spec_classify(loc[idx[idx.len() - 1] as int]) {
                Ok(x) => Ok(acc.push(x)),
                Err(e) => Err(e),
            },
        }
    }
}

// ----- the whole evaluation -----

/// What an expression of tokens comes to. When it is one parenthesised group, its outer parentheses are dropped;
/// an odd number of parenthesis tokens is refused; each group is evaluated on
/// its own; the other tokens are classified; groups and tokens are put back in
/// order and reduced by the three passes.
pub open spec fn spec_recursive_eval(s: Seq<Seq<char>>) -> Result<SpecEvalTypes, EvalError>
    decreases s.len(), 1int, 0int,
{
    if s.len() == 0 {
        Err(EvalError::EmptyExpression)
    } else {
        let loc = strip_outer(s);
        let scan = scan_parens(loc);
        if scan.total % 2 == 1 {
            Err(EvalError::ParenthesesMismatch)
        } else {
            match eval_groups(s.len(), loc, scan.groups, scan.groups.len()) {
                Err(e) => Err(e),
                Ok(tops) => {
                    let filled = spec_fill_indices(scan.groups, loc.len() as usize);
                    match spec_classify_all(loc, filled.0) {
                        Err(e) => Err(e),
                        Ok(outs) => spec_reduce(spec_zip_by_map(tops, outs, filled.1)),
                    }
                },
            }
        }
    }
}

/// The values of the first `k` groups, each evaluated on its own (a group that
/// does not end after it starts is refused). `bound` is the length of the
/// expression that holds the groups.
pub open spec fn eval_groups(bound: nat, loc: Seq<Seq<char>>, groups: Seq<(usize, usize)>, k: nat) -> Result<Seq<SpecEvalTypes>, EvalError>
    decreases bound, 0int, k,
{
    if k == 0 {
        Ok(seq![])
    } else {
        match eval_groups(bound, loc, groups, (k - 1) as nat) {
            Err(e) => Err(e),
            Ok(acc) => {
                let g = groups[k - 1];
                if !spec_is_val_ind(g) {
                    Err(EvalError::InvalidParenConfiguration)
                } else {
                    let sub = loc.subrange(g.0 as int, g.1 + 1);
                    if sub.len() < bound {
                        match spec_recursive_eval(sub) {
                            Ok(x) => Ok(acc.push(x)),
                            Err(e) => Err(e),
                        }
                    } else {
                        Err(EvalError::InvalidParenConfiguration)
                    }
                }
            },
        }
    }
}

pub open spec fn result_view(r: Result<EvalTypes, EvalError>) -> Result<SpecEvalTypes, EvalError> {
    match r {
        Ok(v) => Ok(v@),
        Err(e) => Err(e),
    }
}


// ----- laws of the evaluation -----

/// How many tokens of `s` are parentheses.
pub open spec fn count_parens(s: Seq<Seq<char>>) -> nat
    decreases s.len(),
{
    if s.len() == 0 {
        0
    } else {
        count_parens(s.drop_last()) + (if s[s.len() - 1] == open_token() || s[s.len() - 1] == close_token() {
            1nat
        } else {
            0nat
        })
    }
}

proof fn lemma_count_parens_concat(a: Seq<Seq<char>>, b: Seq<Seq<char>>)
    ensures
        count_parens(a + b) == count_parens(a) + count_parens(b),
    decreases b.len(),
{
    if b.len() == 0 {
        assert(a + b =~= a);
    } else {
        assert((a + b).drop_last() =~= a + b.drop_last());
        lemma_count_parens_concat(a, b.drop_last());
    }
}

proof fn lemma_scan_total(s: Seq<Seq<char>>)
    ensures
        scan_parens(s).total == count_parens(s),
    decreases s.len(),
{
    if s.len() > 0 {
        lemma_scan_total(s.drop_last());
    }
}

/// An expression with an odd number of parenthesis tokens is refused with
/// `ParenthesesMismatch`.
pub proof fn lemma_odd_parentheses_refused(s: Seq<Seq<char>>)
    requires
        s.len() > 0,
        s.len() <= usize::MAX,
        count_parens(s) % 2 == 1,
    ensures
        spec_recursive_eval(s) == Err::<SpecEvalTypes, EvalError>(EvalError::ParenthesesMismatch),
{
    let loc = strip_outer(s);
    lemma_scan_total(loc);
    reveal_with_fuel(count_parens, 2);
    if encloses(s) {
        lemma_scan_wf(s);
        let sc = scan_parens(s);
        assert(sc.groups[0].0 < sc.groups[0].1);
        assert(s[sc.groups[0].0 as int] == open_token());
        assert(s[sc.groups[0].1 as int] == close_token());
        assert(s[0] == open_token());
        assert(s[s.len() - 1] == close_token());
        let mid = s.subrange(1, s.len() - 1);
        assert(s =~= seq![s[0]] + mid + seq![s[s.len() - 1]]);
        lemma_count_parens_concat(seq![s[0]] + mid, seq![s[s.len() - 1]]);
        lemma_count_parens_concat(seq![s[0]], mid);
        assert(count_parens(seq![s[0]]) == 1) by {
            assert(seq![s[0]].drop_last() =~= Seq::<Seq<char>>::empty());
            assert(seq![s[0]][0] == s[0]);
        }
        assert(count_parens(seq![s[s.len() - 1]]) == 1) by {
            assert(seq![s[s.len() - 1]].drop_last() =~= Seq::<Seq<char>>::empty());
            assert(seq![s[s.len() - 1]][0] == s[s.len() - 1]);
        }
    }
}

proof fn lemma_scan_start(s: Seq<Seq<char>>)
    ensures
        !scan_parens(s).counting ==> scan_parens(s).start == 0,
    decreases s.len(),
{
    if s.len() > 0 {
        lemma_scan_start(s.drop_last());
    }
}

/// The groups `g` moved `k` indices to the right.
pub open spec fn shift_groups(g: Seq<(usize, usize)>, k: int) -> Seq<(usize, usize)> {
    g.map_values(|p: (usize, usize)| ((p.0 + k) as usize, (p.1 + k) as usize))
}

/// The count after `x` and then `y`, from the counts of each, when `x` leaves
/// no group open.
pub open spec fn scan_after(x: ParenScan, y: ParenScan, k: int) -> ParenScan {
    ParenScan {
        groups: x.groups + shift_groups(y.groups, k),
        start: if y.counting { (y.start + k) as usize } else { 0 },
        opened: x.opened + y.opened,
        closed: x.closed + y.closed,
        counting: y.counting,
        total: x.total + y.total,
    }
}

proof fn lemma_scan_concat(x: Seq<Seq<char>>, y: Seq<Seq<char>>)
    requires
        !scan_parens(x).counting,
        scan_parens(x).opened == scan_parens(x).closed,
        x.len() + y.len() <= usize::MAX,
    ensures
        scan_parens(x + y) == scan_after(scan_parens(x), scan_parens(y), x.len() as int),
    decreases y.len(),
{
    lemma_scan_start(x);
    let xs = scan_parens(x);
    let k = x.len() as int;
    if y.len() == 0 {
        assert(x + y =~= x);
        assert(shift_groups(scan_parens(y).groups, k) =~= Seq::<(usize, usize)>::empty());
        assert(xs.groups + shift_groups(scan_parens(y).groups, k) =~= xs.groups);
    } else {
        let y1 = y.drop_last();
        lemma_scan_concat(x, y1);
        assert((x + y).drop_last() =~= x + y1);
        assert((x + y)[(x + y).len() - 1] == y[y.len() - 1]);
        lemma_scan_wf(y1);
        lemma_scan_start(y1);
        let p1 = scan_parens(y1);
        let c1 = scan_after(xs, p1, k);
        let yy = scan_parens(y);
        let t = y[y.len() - 1];
        let i = y1.len() as int;
        if t == open_token() {
            assert(shift_groups(yy.groups, k) == shift_groups(p1.groups, k));
        } else if t == close_token() {
            if p1.opened == p1.closed + 1 {
                assert(p1.counting);
                assert(shift_groups(yy.groups, k) =~= shift_groups(p1.groups, k).push(
                    ((p1.start + k) as usize, (i + k) as usize),
                ));
                assert(xs.groups + shift_groups(yy.groups, k) =~= (xs.groups + shift_groups(p1.groups, k)).push(
                    ((p1.start + k) as usize, (i + k) as usize),
                ));
            } else {
                assert(shift_groups(yy.groups, k) == shift_groups(p1.groups, k));
            }
        } else {
            assert(yy == p1);
        }
    }
}

/// The count of an expression that is one parenthesised group: that one group,
/// and as many `)` as `(`.
proof fn lemma_encloses_state(p: Seq<Seq<char>>)
    requires
        encloses(p),
        p.len() <= usize::MAX,
    ensures
        scan_parens(p).groups == seq![(0usize, (p.len() - 1) as usize)],
        !scan_parens(p).counting,
        scan_parens(p).opened == scan_parens(p).closed,
        scan_parens(p).start == 0,
        scan_parens(p).total % 2 == 0,
{
    let pre = p.drop_last();
    lemma_scan_wf(pre);
    lemma_scan_wf(p);
    let ps = scan_parens(pre);
    let q = scan_parens(p);
    let last = (p.len() - 1) as usize;
    if !(p[p.len() - 1] == close_token() && ps.opened == ps.closed + 1) {
        assert(q.groups == ps.groups);
        assert(ps.groups[0].0 < ps.groups[0].1);
        assert(ps.groups[0].1 < pre.len());
        assert(false);
    }
    assert(q.groups == ps.groups.push((ps.start, last)));
    if ps.groups.len() > 0 {
        assert(q.groups[0] == ps.groups[0]);
        assert(ps.groups[0].0 < ps.groups[0].1);
        assert(ps.groups[0].1 < pre.len());
        assert(false);
    }
    assert(q.groups =~= seq![(0usize, last)]);
}

/// One element reduces to itself.
proof fn lemma_reduce_single(e: SpecEvalTypes)
    ensures
        spec_reduce(seq![e]) == Ok::<SpecEvalTypes, EvalError>(e),
{
    reveal_with_fuel(spec_pass, 2);
    assert(seq![e].drop_last() =~= Seq::<SpecEvalTypes>::empty());
    assert(Seq::<SpecEvalTypes>::empty().push(e) =~= seq![e]);
    assert(seq![e][0] == e);
}

/// The groups evaluate alike under any bound that all of them are shorter than.
proof fn lemma_eval_groups_bound(b1: nat, b2: nat, loc: Seq<Seq<char>>, groups: Seq<(usize, usize)>, k: nat)
    requires
        k <= groups.len(),
        forall|j: int|
            0 <= j < k ==> #[trigger] loc.subrange(groups[j].0 as int, groups[j].1 + 1).len() < b1
                && loc.subrange(groups[j].0 as int, groups[j].1 + 1).len() < b2,
    ensures
        eval_groups(b1, loc, groups, k) == eval_groups(b2, loc, groups, k),
    decreases k,
{
    if k > 0 {
        lemma_eval_groups_bound(b1, b2, loc, groups, (k - 1) as nat);
        let j = k - 1;
        assert(loc.subrange(groups[j].0 as int, groups[j].1 + 1).len() < b1);
    }
}

/// An expression that is one parenthesised group, with something inside, has
/// the value of its inside.
pub proof fn lemma_parenthesised_expression(p: Seq<Seq<char>>)
    requires
        encloses(p),
        p.len() > 2,
        p.len() <= i32::MAX,
    ensures
        spec_recursive_eval(p) == spec_recursive_eval(p.subrange(1, p.len() - 1)),
{
    let s = p.subrange(1, p.len() - 1);
    assert(strip_outer(p) == s);
    lemma_scan_wf(s);
    let scan = scan_parens(s);
    if !encloses(s) {
        assert(strip_outer(s) == s);
        assert forall|j: int| 0 <= j < scan.groups.len() implies #[trigger] s.subrange(
            scan.groups[j].0 as int,
            scan.groups[j].1 + 1,
        ).len() < s.len() && s.subrange(scan.groups[j].0 as int, scan.groups[j].1 + 1).len() < p.len() by {
            lemma_group_shorter(s, s, j);
            lemma_group_shorter(p, s, j);
        }
        lemma_eval_groups_bound(p.len(), s.len(), s, scan.groups, scan.groups.len());
    } else {
        lemma_encloses_state(s);
        let n = s.len();
        let g = (0usize, (n - 1) as usize);
        assert(scan.groups[0] == g);
        assert(spec_is_val_ind(g));
        assert(s.subrange(0, n as int) =~= s);
        assert(eval_groups(p.len(), s, scan.groups, 0) == Ok::<Seq<SpecEvalTypes>, EvalError>(seq![]));
        let filled = spec_fill_indices(scan.groups, n as usize);
        reveal_with_fuel(outside_prefix, 2);
        reveal_with_fuel(mapping_prefix, 2);
        assert(scan.groups.len() == 1);
        assert(first_end(scan.groups, n as usize) == 0);
        assert(segment_end(scan.groups, n as usize, 0) == n);
        assert(index_range(0, 0) =~= Seq::<usize>::empty());
        assert(index_range(n as int, n as int) =~= Seq::<usize>::empty());
        assert(outside_marks(0) =~= Seq::<Seq<char>>::empty());
        assert(filled.0 =~= Seq::<usize>::empty());
        assert(filled.1 =~= seq![use_top()]);
        assert(spec_classify_all(s, filled.0) == Ok::<Seq<SpecEvalTypes>, EvalError>(seq![]));
        match spec_recursive_eval(s) {
            Ok(e) => {
                assert(seq![].push(e) =~= seq![e]);
                assert(eval_groups(p.len(), s, scan.groups, 1) == Ok::<Seq<SpecEvalTypes>, EvalError>(seq![e]));
                reveal_with_fuel(spec_zip_by_map, 2);
                assert(seq![use_top()][0] == use_top());
                assert(seq![use_top()].drop_first() =~= Seq::<Seq<char>>::empty());
                assert(seq![e].drop_first() =~= Seq::<SpecEvalTypes>::empty());
                assert(spec_zip_by_map(seq![e], Seq::<SpecEvalTypes>::empty(), seq![use_top()]) =~= seq![e]);
                lemma_reduce_single(e);
            },
            Err(er) => {
                assert(eval_groups(p.len(), s, scan.groups, 1) == Err::<Seq<SpecEvalTypes>, EvalError>(er));
            },
        }
    }
}

proof fn lemma_scan_no_parens(s: Seq<Seq<char>>)
    requires
        forall|i: int| 0 <= i < s.len() ==> #[trigger] s[i] != open_token() && s[i] != close_token(),
    ensures
        scan_parens(s) == (ParenScan { groups: seq![], start: 0, opened: 0, closed: 0, counting: false, total: 0 }),
    decreases s.len(),
{
    if s.len() > 0 {
        assert forall|i: int| 0 <= i < s.drop_last().len() implies #[trigger] s.drop_last()[i] != open_token()
            && s.drop_last()[i] != close_token() by {
            assert(s.drop_last()[i] == s[i]);
        }
        lemma_scan_no_parens(s.drop_last());
        assert(s[s.len() - 1] != open_token());
    }
}

proof fn lemma_zip_all_outside<A>(outs: Seq<A>)
    ensures
        spec_zip_by_map(Seq::<A>::empty(), outs, outside_marks(outs.len())) == outs,
    decreases outs.len(),
{
    if outs.len() > 0 {
        assert(use_outside() != use_top()) by {
            assert(use_outside().len() != use_top().len());
        }
        assert(outside_marks(outs.len()).drop_first() =~= outside_marks((outs.len() - 1) as nat));
        lemma_zip_all_outside(outs.drop_first());
        assert(seq![outs[0]] + outs.drop_first() =~= outs);
    }
}

proof fn lemma_ops_membership(f: StdFunctions)
    ensures
        unary_ops().contains(f) <==> is_unary_fn(f),
        multiplication_ops().contains(f) <==> (f == StdFunctions::Divide || f == StdFunctions::Multiply
            || f == StdFunctions::Power),
        addition_ops().contains(f) <==> (f == StdFunctions::Add || f == StdFunctions::Subtract),
{
    if is_unary_fn(f) {
        if f == StdFunctions::Sin {
            assert(unary_ops()[0] == f);
        } else {
            assert(unary_ops()[1] == f);
        }
    }
    if f == StdFunctions::Divide {
        assert(multiplication_ops()[0] == f);
    }
    if f == StdFunctions::Multiply {
        assert(multiplication_ops()[1] == f);
    }
    if f == StdFunctions::Power {
        assert(multiplication_ops()[2] == f);
    }
    if f == StdFunctions::Add {
        assert(addition_ops()[0] == f);
    }
    if f == StdFunctions::Subtract {
        assert(addition_ops()[1] == f);
    }
}

pub open spec fn is_multiplicative(f: StdFunctions) -> bool {
    f == StdFunctions::Divide || f == StdFunctions::Multiply || f == StdFunctions::Power
}

pub open spec fn is_additive(f: StdFunctions) -> bool {
    f == StdFunctions::Add || f == StdFunctions::Subtract
}

// ----- ranks of the operators -----

/// Operands `ts` with the binary operators `ops` between them, as the
/// elements of an expression: `ts[0], ops[0], ts[1], .., ops[k - 1], ts[k]`.
pub open spec fn interleave(ts: Seq<SpecTerm>, ops: Seq<StdFunctions>) -> Seq<SpecEvalTypes>
    decreases ops.len(),
{
    if ops.len() == 0 {
        seq![SpecEvalTypes::EvalVec(ts[0])]
    } else {
        interleave(ts.drop_last(), ops.drop_last()).push(SpecEvalTypes::Fun(ops[ops.len() - 1])).push(
            SpecEvalTypes::EvalVec(ts[ts.len() - 1]),
        )
    }
}

/// The products of the operands: the runs of operands joined by
/// multiplication, division or exponentiation, each combined from left to
/// right, and the addition and subtraction operators between the runs.
pub open spec fn product_groups(ts: Seq<SpecTerm>, ops: Seq<StdFunctions>) -> (Seq<SpecTerm>, Seq<StdFunctions>)
    decreases ops.len(),
{
    if ops.len() == 0 {
        (seq![ts[0]], seq![])
    } else {
        let (p, a) = product_groups(ts.drop_last(), ops.drop_last());
        let f = ops[ops.len() - 1];
        let t = ts[ts.len() - 1];
        if is_multiplicative(f) {
            (p.update(p.len() - 1, SpecTerm::Binary(f, Box::new(p[p.len() - 1]), Box::new(t))), a)
        } else {
            (p.push(t), a.push(f))
        }
    }
}

/// The operands `p` combined by the operators `a` from left to right.
pub open spec fn left_fold(p: Seq<SpecTerm>, a: Seq<StdFunctions>) -> SpecTerm
    decreases a.len(),
{
    if a.len() == 0 {
        p[0]
    } else {
        SpecTerm::Binary(
            a[a.len() - 1],
            Box::new(left_fold(p.drop_last(), a.drop_last())),
            Box::new(p[p.len() - 1]),
        )
    }
}

/// The value of operands and binary operators under the usual ranks:
/// multiplication, division and exponentiation first, from left to right, then
/// addition and subtraction, from left to right.
pub open spec fn precedence_value(ts: Seq<SpecTerm>, ops: Seq<StdFunctions>) -> SpecTerm {
    let (p, a) = product_groups(ts, ops);
    left_fold(p, a)
}

proof fn lemma_interleave_last(p: Seq<SpecTerm>, a: Seq<StdFunctions>)
    requires
        p.len() == a.len() + 1,
    ensures
        interleave(p, a).len() == 2 * a.len() + 1,
        interleave(p, a)[interleave(p, a).len() - 1] == SpecEvalTypes::EvalVec(p[p.len() - 1]),
        forall|x: SpecTerm|
            #[trigger] interleave(p.update(p.len() - 1, x), a) == interleave(p, a).drop_last().push(SpecEvalTypes::EvalVec(x)),
    decreases a.len(),
{
    if a.len() > 0 {
        lemma_interleave_last(p.drop_last(), a.drop_last());
        assert forall|x: SpecTerm| #[trigger] interleave(p.update(p.len() - 1, x), a) == interleave(p, a).drop_last().push(
            SpecEvalTypes::EvalVec(x),
        ) by {
            assert(p.update(p.len() - 1, x).drop_last() =~= p.drop_last());
            assert(interleave(p, a).drop_last() =~= interleave(p.drop_last(), a.drop_last()).push(
                SpecEvalTypes::Fun(a[a.len() - 1]),
            ));
        }
    } else {
        assert forall|x: SpecTerm| #[trigger] interleave(p.update(p.len() - 1, x), a) == interleave(p, a).drop_last().push(
            SpecEvalTypes::EvalVec(x),
        ) by {
            assert(interleave(p, a).drop_last().push(SpecEvalTypes::EvalVec(x)) =~= seq![SpecEvalTypes::EvalVec(x)]);
        }
    }
}

proof fn lemma_interleave_shape(ts: Seq<SpecTerm>, ops: Seq<StdFunctions>)
    requires
        ts.len() == ops.len() + 1,
        forall|i: int| 0 <= i < ops.len() ==> is_binary_fn(#[trigger] ops[i]),
    ensures
        forall|i: int|
            0 <= i < interleave(ts, ops).len() ==> !unary_ops().contains(#[trigger] spec_to_std_fn(interleave(ts, ops)[i])),
    decreases ops.len(),
{
    lemma_ops_membership(StdFunctions::NoFunction);
    if ops.len() > 0 {
        lemma_interleave_shape(ts.drop_last(), ops.drop_last());
        let prev = interleave(ts.drop_last(), ops.drop_last());
        let f = ops[ops.len() - 1];
        lemma_ops_membership(f);
        let v = interleave(ts, ops);
        assert forall|i: int| 0 <= i < v.len() implies !unary_ops().contains(#[trigger] spec_to_std_fn(v[i])) by {
            if i < prev.len() {
                assert(v[i] == prev[i]);
            }
        }
    }
}

proof fn lemma_multiplication_pass(ts: Seq<SpecTerm>, ops: Seq<StdFunctions>)
    requires
        ts.len() == ops.len() + 1,
        forall|i: int| 0 <= i < ops.len() ==> is_binary_fn(#[trigger] ops[i]),
    ensures
        product_groups(ts, ops).0.len() == product_groups(ts, ops).1.len() + 1,
        forall|i: int| 0 <= i < product_groups(ts, ops).1.len() ==> is_additive(#[trigger] product_groups(ts, ops).1[i]),
        spec_pass(interleave(ts, ops), multiplication_ops()) == Ok::<Seq<SpecEvalTypes>, EvalError>(
            interleave(product_groups(ts, ops).0, product_groups(ts, ops).1),
        ),
    decreases ops.len(),
{
    lemma_ops_membership(StdFunctions::NoFunction);
    reveal_with_fuel(spec_pass, 2);
    if ops.len() > 0 {
        let ts1 = ts.drop_last();
        let ops1 = ops.drop_last();
        lemma_multiplication_pass(ts1, ops1);
        let (p1, a1) = product_groups(ts1, ops1);
        let j1 = interleave(p1, a1);
        lemma_interleave_last(p1, a1);
        let f = ops[ops.len() - 1];
        let t = ts[ts.len() - 1];
        lemma_ops_membership(f);
        let i1 = interleave(ts1, ops1);
        let v = i1.push(SpecEvalTypes::Fun(f));
        let items = v.push(SpecEvalTypes::EvalVec(t));
        assert(interleave(ts, ops) == items);
        assert(items.drop_last() =~= v);
        assert(v.drop_last() =~= i1);
        let w = j1.push(SpecEvalTypes::Fun(f));
        assert(w[w.len() - 2] == j1[j1.len() - 1]);
        assert(spec_pass(v, multiplication_ops()) == Ok::<Seq<SpecEvalTypes>, EvalError>(w));
        let u = w.push(SpecEvalTypes::EvalVec(t));
        assert(u[u.len() - 2] == SpecEvalTypes::Fun(f));
        assert(u[u.len() - 1] == SpecEvalTypes::EvalVec(t));
        assert(u[u.len() - 3] == SpecEvalTypes::EvalVec(p1[p1.len() - 1]));
        if is_multiplicative(f) {
            let b = SpecTerm::Binary(f, Box::new(p1[p1.len() - 1]), Box::new(t));
            assert(u.take(u.len() - 3) =~= j1.drop_last());
            assert(interleave(p1.update(p1.len() - 1, b), a1) == j1.drop_last().push(SpecEvalTypes::EvalVec(b)));
            let (p, a) = product_groups(ts, ops);
            assert(p == p1.update(p1.len() - 1, b));
        } else {
            assert(interleave(p1.push(t), a1.push(f)) == u) by {
                assert(p1.push(t).drop_last() =~= p1);
                assert(a1.push(f).drop_last() =~= a1);
            }
            let (p, a) = product_groups(ts, ops);
            assert forall|i: int| 0 <= i < a.len() implies is_additive(#[trigger] a[i]) by {
                if i < a1.len() {
                    assert(a[i] == a1[i]);
                }
            }
        }
    } else {
        assert(seq![SpecEvalTypes::EvalVec(ts[0])].drop_last() =~= Seq::<SpecEvalTypes>::empty());
        assert(Seq::<SpecEvalTypes>::empty().push(SpecEvalTypes::EvalVec(ts[0])) =~= seq![SpecEvalTypes::EvalVec(ts[0])]);
    }
}

proof fn lemma_addition_pass(p: Seq<SpecTerm>, a: Seq<StdFunctions>)
    requires
        p.len() == a.len() + 1,
        forall|i: int| 0 <= i < a.len() ==> is_additive(#[trigger] a[i]),
    ensures
        spec_pass(interleave(p, a), addition_ops()) == Ok::<Seq<SpecEvalTypes>, EvalError>(
            seq![SpecEvalTypes::EvalVec(left_fold(p, a))],
        ),
    decreases a.len(),
{
    reveal_with_fuel(spec_pass, 2);
    if a.len() > 0 {
        let p1 = p.drop_last();
        let a1 = a.drop_last();
        assert forall|i: int| 0 <= i < a1.len() implies is_additive(#[trigger] a1[i]) by {
            assert(a1[i] == a[i]);
        }
        lemma_addition_pass(p1, a1);
        let f = a[a.len() - 1];
        let t = p[p.len() - 1];
        lemma_ops_membership(f);
        let i1 = interleave(p1, a1);
        let v = i1.push(SpecEvalTypes::Fun(f));
        let items = v.push(SpecEvalTypes::EvalVec(t));
        assert(interleave(p, a) == items);
        assert(items.drop_last() =~= v);
        assert(v.drop_last() =~= i1);
        let l = SpecEvalTypes::EvalVec(left_fold(p1, a1));
        let w = seq![l].push(SpecEvalTypes::Fun(f));
        assert(w =~= seq![l, SpecEvalTypes::Fun(f)]);
        assert(spec_pass(v, addition_ops()) == Ok::<Seq<SpecEvalTypes>, EvalError>(w));
        let u = w.push(SpecEvalTypes::EvalVec(t));
        assert(u =~= seq![l, SpecEvalTypes::Fun(f), SpecEvalTypes::EvalVec(t)]);
        assert(u.take(0).push(SpecEvalTypes::EvalVec(left_fold(p, a))) =~= seq![SpecEvalTypes::EvalVec(left_fold(p, a))]);
    } else {
        assert(seq![SpecEvalTypes::EvalVec(p[0])].drop_last() =~= Seq::<SpecEvalTypes>::empty());
        assert(Seq::<SpecEvalTypes>::empty().push(SpecEvalTypes::EvalVec(p[0])) =~= seq![SpecEvalTypes::EvalVec(p[0])]);
    }
}

/// Operands separated by binary operators come to the value that the usual
/// ranks give: multiplication, division and exponentiation before addition
/// and subtraction, operators of one rank from left to right.
pub proof fn lemma_precedence(ts: Seq<SpecTerm>, ops: Seq<StdFunctions>)
    requires
        ts.len() == ops.len() + 1,
        forall|i: int| 0 <= i < ops.len() ==> is_binary_fn(#[trigger] ops[i]),
    ensures
        spec_reduce(interleave(ts, ops)) == Ok::<SpecEvalTypes, EvalError>(
            SpecEvalTypes::EvalVec(precedence_value(ts, ops)),
        ),
{
    let items = interleave(ts, ops);
    lemma_interleave_shape(ts, ops);
    lemma_pass_unchanged(items, unary_ops());
    lemma_multiplication_pass(ts, ops);
    let (p, a) = product_groups(ts, ops);
    lemma_addition_pass(p, a);
}

/// An expression without parentheses comes to its tokens, classified in order
/// and reduced by the three passes.
pub proof fn lemma_parenthesis_free(s: Seq<Seq<char>>)
    requires
        s.len() > 0,
        s.len() <= usize::MAX,
        forall|i: int| 0 <= i < s.len() ==> #[trigger] s[i] != open_token() && s[i] != close_token(),
    ensures
        spec_recursive_eval(s) == match spec_classify_all(s, index_range(0, s.len() as int)) {
            Ok(items) => spec_reduce(items),
            Err(e) => Err(e),
        },
{
    lemma_scan_no_parens(s);
    assert(!encloses(s));
    assert(strip_outer(s) == s);
    let n = s.len() as usize;
    let t = Seq::<(usize, usize)>::empty();
    assert(scan_parens(s).groups == t);
    assert(spec_fill_indices(t, n).0 == index_range(0, s.len() as int));
    lemma_classify_all_len(s, index_range(0, s.len() as int));
    if let Ok(items) = spec_classify_all(s, index_range(0, s.len() as int)) {
        lemma_zip_all_outside(items);
    }
}

proof fn lemma_classify_one(loc: Seq<Seq<char>>, i: usize)
    ensures
        spec_classify_all(loc, seq![i]) == match spec_classify(loc[i as int]) {
            Ok(c) => Ok(seq![c]),
            Err(e) => Err(e),
        },
{
    reveal_with_fuel(spec_classify_all, 2);
    assert(seq![i].drop_last() =~= Seq::<usize>::empty());
    assert(seq![i][0] == i);
    if let Ok(c) = spec_classify(loc[i as int]) {
        assert(Seq::<SpecEvalTypes>::empty().push(c) =~= seq![c]);
    }
}

proof fn lemma_zip_three(a: SpecEvalTypes, c: SpecEvalTypes, b: SpecEvalTypes)
    ensures
        spec_zip_by_map(seq![a, b], seq![c], seq![use_top(), use_outside(), use_top()]) == seq![a, c, b],
{
    let m = seq![use_top(), use_outside(), use_top()];
    assert(use_top() != use_outside()) by {
        assert(use_top().len() != use_outside().len());
    }
    reveal_with_fuel(spec_zip_by_map, 4);
    assert(m.drop_first() =~= seq![use_outside(), use_top()]);
    assert(m.drop_first().drop_first() =~= seq![use_top()]);
    assert(m.drop_first().drop_first().drop_first() =~= Seq::<Seq<char>>::empty());
    assert(seq![a, b].drop_first() =~= seq![b]);
    assert(seq![b].drop_first() =~= Seq::<SpecEvalTypes>::empty());
    assert(seq![c].drop_first() =~= Seq::<SpecEvalTypes>::empty());
    assert(spec_zip_by_map(seq![a, b], seq![c], m) =~= seq![a, c, b]);
}

/// One binary operator between two operands applies to them.
proof fn lemma_binary_of_two(ta: SpecTerm, f: StdFunctions, tb: SpecTerm)
    requires
        is_binary_fn(f),
    ensures
        spec_reduce(seq![SpecEvalTypes::EvalVec(ta), SpecEvalTypes::Fun(f), SpecEvalTypes::EvalVec(tb)])
            == Ok::<SpecEvalTypes, EvalError>(SpecEvalTypes::EvalVec(SpecTerm::Binary(f, Box::new(ta), Box::new(tb)))),
{
    let ts = seq![ta, tb];
    let ops = seq![f];
    assert(forall|i: int| 0 <= i < ops.len() ==> is_binary_fn(#[trigger] ops[i]));
    lemma_precedence(ts, ops);
    assert(ts.drop_last() =~= seq![ta]);
    assert(ops.drop_last() =~= Seq::<StdFunctions>::empty());
    reveal_with_fuel(interleave, 2);
    assert(interleave(ts, ops) =~= seq![
        SpecEvalTypes::EvalVec(ta),
        SpecEvalTypes::Fun(f),
        SpecEvalTypes::EvalVec(tb),
    ]);
    reveal_with_fuel(product_groups, 2);
    reveal_with_fuel(left_fold, 2);
    let (pp, aa) = product_groups(ts, ops);
    if is_multiplicative(f) {
        assert(pp =~= seq![SpecTerm::Binary(f, Box::new(ta), Box::new(tb))]);
        assert(aa =~= Seq::<StdFunctions>::empty());
    } else {
        assert(pp =~= seq![ta, tb]);
        assert(aa =~= seq![f]);
        assert(pp.drop_last() =~= seq![ta]);
        assert(aa.drop_last() =~= Seq::<StdFunctions>::empty());
    }
}

/// A token between two parenthesised groups stands for what it names applied
/// to the groups' values: `(A)/(B)` comes to A divided by B.
pub proof fn lemma_operator_between_groups(p: Seq<Seq<char>>, d: Seq<char>, q: Seq<Seq<char>>)
    requires
        encloses(p),
        encloses(q),
        d != open_token(),
        d != close_token(),
        p.len() + 1 + q.len() <= i32::MAX,
    ensures
        spec_recursive_eval(p + seq![d] + q) == match spec_recursive_eval(p) {
            Err(e) => Err(e),
            Ok(ea) => match spec_recursive_eval(q) {
                Err(e) => Err(e),
                Ok(eb) => match spec_classify(d) {
                    Err(e) => Err(e),
                    Ok(c) => spec_reduce(seq![ea, c, eb]),
                },
            },
        },
        forall|ta: SpecTerm, tb: SpecTerm, f: StdFunctions|
            spec_recursive_eval(p) == Ok::<SpecEvalTypes, EvalError>(SpecEvalTypes::EvalVec(ta))
                && spec_recursive_eval(q) == Ok::<SpecEvalTypes, EvalError>(SpecEvalTypes::EvalVec(tb))
                && spec_classify(d) == Ok::<SpecEvalTypes, EvalError>(SpecEvalTypes::Fun(f))
                && is_binary_fn(f) ==> #[trigger] spec_recursive_eval(p + seq![d] + q) == Ok::<SpecEvalTypes, EvalError>(
                SpecEvalTypes::EvalVec(SpecTerm::Binary(f, Box::new(ta), Box::new(tb))),
            ),
{
    let w = p + seq![d] + q;
    let k = p.len();
    let n = w.len();
    lemma_encloses_state(p);
    lemma_encloses_state(q);
    let dq = seq![d] + q;
    lemma_scan_no_parens(seq![d]);
    lemma_scan_concat(seq![d], q);
    lemma_scan_concat(p, dq);
    assert(w =~= p + dq);
    let qs = scan_parens(q);
    assert(shift_groups(qs.groups, 1) =~= seq![(1usize, q.len() as usize)]);
    assert(Seq::<(usize, usize)>::empty() + shift_groups(qs.groups, 1) =~= seq![(1usize, q.len() as usize)]);
    let ds = scan_parens(dq);
    assert(ds.groups == seq![(1usize, q.len() as usize)]);
    assert(shift_groups(ds.groups, k as int) =~= seq![((k + 1) as usize, (n - 1) as usize)]);
    let groups = seq![(0usize, (k - 1) as usize), ((k + 1) as usize, (n - 1) as usize)];
    let ws = scan_parens(w);
    assert(ws.groups =~= groups);
    assert(!encloses(w));
    assert(strip_outer(w) == w);
    assert(ws.total % 2 == 0);
    // the groups
    assert(w.subrange(0, k as int) =~= p);
    assert(w.subrange((k + 1) as int, n as int) =~= q);
    assert(spec_is_val_ind(groups[0]));
    assert(spec_is_val_ind(groups[1]));
    assert(w.subrange(groups[0].0 as int, groups[0].1 + 1) =~= p);
    assert(w.subrange(groups[1].0 as int, groups[1].1 + 1) =~= q);
    assert(p.len() < n && q.len() < n);
    assert(eval_groups(n, w, groups, 0) == Ok::<Seq<SpecEvalTypes>, EvalError>(seq![]));
    // the tokens outside the groups, and the marks
    reveal_with_fuel(outside_prefix, 3);
    reveal_with_fuel(mapping_prefix, 3);
    assert(index_range(0, 0) =~= Seq::<usize>::empty());
    assert(index_range(k as int, (k + 1) as int) =~= seq![k as usize]);
    assert(index_range(n as int, n as int) =~= Seq::<usize>::empty());
    assert(outside_marks(0) =~= Seq::<Seq<char>>::empty());
    assert(outside_marks(1) =~= seq![use_outside()]);
    let filled = spec_fill_indices(groups, n as usize);
    assert(filled.0 =~= seq![k as usize]);
    assert(filled.1 =~= seq![use_top(), use_outside(), use_top()]);
    assert(w[k as int] == d);
    match spec_recursive_eval(p) {
        Err(e) => {
            assert(eval_groups(n, w, groups, 2) == Err::<Seq<SpecEvalTypes>, EvalError>(e));
        },
        Ok(ea) => {
            assert(seq![].push(ea) =~= seq![ea]);
            assert(eval_groups(n, w, groups, 1) == Ok::<Seq<SpecEvalTypes>, EvalError>(seq![ea]));
            match spec_recursive_eval(q) {
                Err(e) => {
                    assert(eval_groups(n, w, groups, 2) == Err::<Seq<SpecEvalTypes>, EvalError>(e));
                },
                Ok(eb) => {
                    assert(seq![ea].push(eb) =~= seq![ea, eb]);
                    assert(eval_groups(n, w, groups, 2) == Ok::<Seq<SpecEvalTypes>, EvalError>(seq![ea, eb]));
                    match spec_classify(d) {
                        Err(e) => {
                            lemma_classify_one(w, k as usize);
                        },
                        Ok(c) => {
                            lemma_classify_one(w, k as usize);
                            lemma_zip_three(ea, c, eb);
                        },
                    }
                },
            }
        },
    }
    assert forall|ta: SpecTerm, tb: SpecTerm, f: StdFunctions|
        spec_recursive_eval(p) == Ok::<SpecEvalTypes, EvalError>(SpecEvalTypes::EvalVec(ta))
            && spec_recursive_eval(q) == Ok::<SpecEvalTypes, EvalError>(SpecEvalTypes::EvalVec(tb))
            && spec_classify(d) == Ok::<SpecEvalTypes, EvalError>(SpecEvalTypes::Fun(f))
            && is_binary_fn(f) implies #[trigger] spec_recursive_eval(p + seq![d] + q) == Ok::<SpecEvalTypes, EvalError>(
        SpecEvalTypes::EvalVec(SpecTerm::Binary(f, Box::new(ta), Box::new(tb))),
    ) by {
        lemma_binary_of_two(ta, f, tb);
    }
}

// ----- one-argument functions -----

/// The step of the one-argument functions applies a function of the list to
/// the operand after it, whatever that operand is: `.., f, a` becomes
/// `.., f(a)`.
pub proof fn lemma_unary_step_applies(v: Seq<SpecEvalTypes>, f: StdFunctions, a: SpecTerm)
    requires
        is_unary_fn(f),
    ensures
        spec_eval_enum(v.push(SpecEvalTypes::Fun(f)).push(SpecEvalTypes::EvalVec(a)), unary_ops())
            == Ok::<Seq<SpecEvalTypes>, EvalError>(v.push(SpecEvalTypes::EvalVec(SpecTerm::Unary(f, Box::new(a))))),
{
    lemma_ops_membership(f);
    let u = v.push(SpecEvalTypes::Fun(f)).push(SpecEvalTypes::EvalVec(a));
    assert(u[u.len() - 2] == SpecEvalTypes::Fun(f));
    assert(u[u.len() - 1] == SpecEvalTypes::EvalVec(a));
    assert(u.take(u.len() - 2) =~= v);
}

/// A one-argument function followed by an operand comes to the function of
/// that operand, whatever the operand is (a compound term, or the value of
/// another function, included).
pub proof fn lemma_function_of_operand(f: StdFunctions, a: SpecTerm)
    requires
        is_unary_fn(f),
    ensures
        spec_reduce(seq![SpecEvalTypes::Fun(f), SpecEvalTypes::EvalVec(a)]) == Ok::<SpecEvalTypes, EvalError>(
            SpecEvalTypes::EvalVec(SpecTerm::Unary(f, Box::new(a))),
        ),
{
    let x = SpecEvalTypes::Fun(f);
    let y = SpecEvalTypes::EvalVec(a);
    let r = SpecEvalTypes::EvalVec(SpecTerm::Unary(f, Box::new(a)));
    reveal_with_fuel(spec_pass, 3);
    lemma_ops_membership(f);
    let items = seq![x, y];
    assert(items.drop_last() =~= seq![x]);
    assert(seq![x].drop_last() =~= Seq::<SpecEvalTypes>::empty());
    assert(Seq::<SpecEvalTypes>::empty().push(x) =~= seq![x]);
    assert(spec_pass(seq![x], unary_ops()) == Ok::<Seq<SpecEvalTypes>, EvalError>(seq![x]));
    lemma_unary_step_applies(Seq::<SpecEvalTypes>::empty(), f, a);
    assert(Seq::<SpecEvalTypes>::empty().push(x).push(y) =~= seq![x].push(items[1]));
    assert(Seq::<SpecEvalTypes>::empty().push(r) =~= seq![r]);
    assert(spec_pass(items, unary_ops()) == Ok::<Seq<SpecEvalTypes>, EvalError>(seq![r]));
    lemma_reduce_single(r);
    assert(spec_pass(seq![r], multiplication_ops()) == Ok::<Seq<SpecEvalTypes>, EvalError>(seq![r])) by {
        assert(seq![r].drop_last() =~= Seq::<SpecEvalTypes>::empty());
        assert(Seq::<SpecEvalTypes>::empty().push(r) =~= seq![r]);
    }
}

/// A token that names a one-argument function, followed by a parenthesised
/// group, comes to that function applied to the group's value: `sin(x+1)` is
/// the sine of `x+1`, and `sin(cos(x))` the sine of `cos(x)`.
pub proof fn lemma_function_of_group(t: Seq<char>, p: Seq<Seq<char>>)
    requires
        encloses(p),
        t != open_token(),
        t != close_token(),
        p.len() + 1 <= i32::MAX,
    ensures
        spec_recursive_eval(seq![t] + p) == match spec_recursive_eval(p) {
            Err(e) => Err(e),
            Ok(ea) => match spec_classify(t) {
                Err(e) => Err(e),
                Ok(c) => spec_reduce(seq![c, ea]),
            },
        },
        forall|f: StdFunctions, a: SpecTerm|
            spec_classify(t) == Ok::<SpecEvalTypes, EvalError>(SpecEvalTypes::Fun(f)) && is_unary_fn(f)
                && spec_recursive_eval(p) == Ok::<SpecEvalTypes, EvalError>(SpecEvalTypes::EvalVec(a))
                ==> #[trigger] spec_recursive_eval(seq![t] + p) == Ok::<SpecEvalTypes, EvalError>(
                SpecEvalTypes::EvalVec(SpecTerm::Unary(f, Box::new(a))),
            ),
{
    let w = seq![t] + p;
    let n = w.len();
    lemma_encloses_state(p);
    lemma_scan_no_parens(seq![t]);
    lemma_scan_concat(seq![t], p);
    let ps = scan_parens(p);
    assert(shift_groups(ps.groups, 1) =~= seq![(1usize, p.len() as usize)]);
    let groups = seq![(1usize, p.len() as usize)];
    assert(scan_parens(w).groups =~= Seq::<(usize, usize)>::empty() + shift_groups(ps.groups, 1));
    assert(scan_parens(w).groups =~= groups);
    assert(!encloses(w));
    assert(strip_outer(w) == w);
    assert(scan_parens(w).total % 2 == 0);
    assert(spec_is_val_ind(groups[0]));
    assert(w.subrange(groups[0].0 as int, groups[0].1 + 1) =~= p);
    assert(eval_groups(n, w, groups, 0) == Ok::<Seq<SpecEvalTypes>, EvalError>(seq![]));
    reveal_with_fuel(outside_prefix, 2);
    reveal_with_fuel(mapping_prefix, 2);
    assert(index_range(0, 1) =~= seq![0usize]);
    assert(index_range(n as int, n as int) =~= Seq::<usize>::empty());
    assert(outside_marks(0) =~= Seq::<Seq<char>>::empty());
    assert(outside_marks(1) =~= seq![use_outside()]);
    let filled = spec_fill_indices(groups, n as usize);
    assert(filled.0 =~= seq![0usize]);
    assert(filled.1 =~= seq![use_outside(), use_top()]);
    assert(w[0] == t);
    match spec_recursive_eval(p) {
        Err(e) => {
            assert(eval_groups(n, w, groups, 1) == Err::<Seq<SpecEvalTypes>, EvalError>(e));
        },
        Ok(ea) => {
            assert(seq![].push(ea) =~= seq![ea]);
            assert(eval_groups(n, w, groups, 1) == Ok::<Seq<SpecEvalTypes>, EvalError>(seq![ea]));
            lemma_classify_one(w, 0usize);
            if let Ok(c) = spec_classify(t) {
                lemma_zip_two(c, ea);
            }
        },
    }
    assert forall|f: StdFunctions, a: SpecTerm|
        spec_classify(t) == Ok::<SpecEvalTypes, EvalError>(SpecEvalTypes::Fun(f)) && is_unary_fn(f)
            && spec_recursive_eval(p) == Ok::<SpecEvalTypes, EvalError>(SpecEvalTypes::EvalVec(a))
            implies #[trigger] spec_recursive_eval(seq![t] + p) == Ok::<SpecEvalTypes, EvalError>(
        SpecEvalTypes::EvalVec(SpecTerm::Unary(f, Box::new(a))),
    ) by {
        lemma_function_of_operand(f, a);
    }
}

proof fn lemma_zip_two(c: SpecEvalTypes, a: SpecEvalTypes)
    ensures
        spec_zip_by_map(seq![a], seq![c], seq![use_outside(), use_top()]) == seq![c, a],
{
    let m = seq![use_outside(), use_top()];
    assert(use_top() != use_outside()) by {
        assert(use_top().len() != use_outside().len());
    }
    reveal_with_fuel(spec_zip_by_map, 3);
    assert(m.drop_first() =~= seq![use_top()]);
    assert(m.drop_first().drop_first() =~= Seq::<Seq<char>>::empty());
    assert(seq![a].drop_first() =~= Seq::<SpecEvalTypes>::empty());
    assert(seq![c].drop_first() =~= Seq::<SpecEvalTypes>::empty());
    assert(spec_zip_by_map(seq![a], seq![c], m) =~= seq![c, a]);
}

/// A number alone comes to that number, and the variable alone to the
/// variable.
pub proof fn lemma_single_token(tok: Seq<char>)
    ensures
        is_number_literal(tok) ==> spec_recursive_eval(seq![tok]) == Ok::<SpecEvalTypes, EvalError>(
            SpecEvalTypes::EvalVec(SpecTerm::Number(tok)),
        ),
        tok == variant_name(StdFunctions::Variable) ==> spec_recursive_eval(seq![tok]) == Ok::<
            SpecEvalTypes,
            EvalError,
        >(SpecEvalTypes::EvalVec(SpecTerm::Variable)),
{
    let s = seq![tok];
    assert(open_token()[0] == '(');
    assert(close_token()[0] == ')');
    lemma_not_number(open_token());
    lemma_not_number(close_token());
    if is_number_literal(tok) || tok == variant_name(StdFunctions::Variable) {
        assert(tok != open_token() && tok != close_token()) by {
            if tok == variant_name(StdFunctions::Variable) {
                assert(tok.len() != 1);
            }
        }
        assert(s[0] == tok);
        lemma_parenthesis_free(s);
        assert(index_range(0, 1) =~= seq![0usize]);
        lemma_classify_one(s, 0usize);
        if let Ok(e) = spec_classify(tok) {
            lemma_reduce_single(e);
        }
    }
}

/// Two operands with no operator between them are refused, whatever they are:
/// `2x` is not read as a product.
pub proof fn lemma_juxtaposed_operands_refused(a: SpecTerm, b: SpecTerm)
    ensures
        spec_reduce(seq![SpecEvalTypes::EvalVec(a), SpecEvalTypes::EvalVec(b)]) == Err::<SpecEvalTypes, EvalError>(
            EvalError::ImproperlyFormatted,
        ),
{
    let items = seq![SpecEvalTypes::EvalVec(a), SpecEvalTypes::EvalVec(b)];
    lemma_ops_membership(StdFunctions::NoFunction);
    assert forall|i: int| 0 <= i < items.len() implies !unary_ops().contains(#[trigger] spec_to_std_fn(items[i])) by {}
    assert forall|i: int| 0 <= i < items.len() implies !multiplication_ops().contains(#[trigger] spec_to_std_fn(items[i])) by {}
    assert forall|i: int| 0 <= i < items.len() implies !addition_ops().contains(#[trigger] spec_to_std_fn(items[i])) by {}
    lemma_pass_unchanged(items, unary_ops());
    lemma_pass_unchanged(items, multiplication_ops());
    lemma_pass_unchanged(items, addition_ops());
}

/// A binary operator whose right-hand side names a function or constant
/// rather than an operand is refused: `2*pi` cannot be computed.
pub proof fn lemma_operator_needs_operands(a: SpecTerm, f: StdFunctions, g: StdFunctions)
    requires
        is_binary_fn(f),
    ensures
        spec_reduce(seq![SpecEvalTypes::EvalVec(a), SpecEvalTypes::Fun(f), SpecEvalTypes::Fun(g)])
            == Err::<SpecEvalTypes, EvalError>(EvalError::WrongEvalType),
{
    let x = SpecEvalTypes::EvalVec(a);
    let y = SpecEvalTypes::Fun(f);
    let z = SpecEvalTypes::Fun(g);
    let items = seq![x, y, z];
    lemma_ops_membership(StdFunctions::NoFunction);
    lemma_ops_membership(f);
    reveal_with_fuel(spec_pass, 2);
    assert(items.drop_last() =~= seq![x, y]);
    assert(seq![x, y].drop_last() =~= seq![x]);
    assert(seq![x].drop_last() =~= Seq::<SpecEvalTypes>::empty());
    assert(Seq::<SpecEvalTypes>::empty().push(x) =~= seq![x]);
    assert(seq![x].push(y) =~= seq![x, y]);
    assert(seq![x, y].push(z) =~= items);
    let ops_u = unary_ops();
    let ops_m = multiplication_ops();
    let ops_a = addition_ops();
    assert(spec_pass(seq![x], ops_u) == Ok::<Seq<SpecEvalTypes>, EvalError>(seq![x]));
    assert(spec_pass(seq![x, y], ops_u) == Ok::<Seq<SpecEvalTypes>, EvalError>(seq![x, y]));
    assert(items[1] == y);
    assert(spec_pass(items, ops_u) == Ok::<Seq<SpecEvalTypes>, EvalError>(items));
    assert(spec_pass(seq![x], ops_m) == Ok::<Seq<SpecEvalTypes>, EvalError>(seq![x]));
    assert(spec_pass(seq![x, y], ops_m) == Ok::<Seq<SpecEvalTypes>, EvalError>(seq![x, y]));
    if is_multiplicative(f) {
        assert(spec_pass(items, ops_m) == Err::<Seq<SpecEvalTypes>, EvalError>(EvalError::WrongEvalType));
    } else {
        assert(spec_pass(items, ops_m) == Ok::<Seq<SpecEvalTypes>, EvalError>(items));
        assert(spec_pass(seq![x], ops_a) == Ok::<Seq<SpecEvalTypes>, EvalError>(seq![x]));
        assert(spec_pass(seq![x, y], ops_a) == Ok::<Seq<SpecEvalTypes>, EvalError>(seq![x, y]));
        assert(spec_pass(items, ops_a) == Err::<Seq<SpecEvalTypes>, EvalError>(EvalError::WrongEvalType));
    }
}

/// A pass whose operations name nothing of the elements leaves them unchanged.
proof fn lemma_pass_unchanged(items: Seq<SpecEvalTypes>, ops: Seq<StdFunctions>)
    requires
        ops.len() > 0,
        forall|i: int| 0 <= i < items.len() ==> !ops.contains(#[trigger] spec_to_std_fn(items[i])),
    ensures
        spec_pass(items, ops) == Ok::<Seq<SpecEvalTypes>, EvalError>(items),
    decreases items.len(),
{
    if items.len() > 0 {
        let pre = items.drop_last();
        assert forall|i: int| 0 <= i < pre.len() implies !ops.contains(#[trigger] spec_to_std_fn(pre[i])) by {
            assert(pre[i] == items[i]);
        }
        lemma_pass_unchanged(pre, ops);
        assert(pre.push(items[items.len() - 1]) =~= items);
        if items.len() >= 2 {
            assert(!ops.contains(spec_to_std_fn(items[items.len() - 2])));
        }
    } else {
        assert(items =~= Seq::<SpecEvalTypes>::empty());
    }
}

/// Every operation of a term names an operator of its kind: a binary operator
/// for `Binary`, a one-argument function for `Unary`.
pub open spec fn term_wf(t: SpecTerm) -> bool
    decreases t,
{
    match t {
        SpecTerm::Number(_) => true,
        SpecTerm::Variable => true,
        SpecTerm::Unary(f, a) => is_unary_fn(f) && term_wf(*a),
        SpecTerm::Binary(f, a, b) => is_binary_fn(f) && term_wf(*a) && term_wf(*b),
    }
}

pub open spec fn item_wf(e: SpecEvalTypes) -> bool {
    match e {
        SpecEvalTypes::EvalVec(t) => term_wf(t),
        _ => true,
    }
}

pub open spec fn items_wf(v: Seq<SpecEvalTypes>) -> bool {
    forall|i: int| 0 <= i < v.len() ==> #[trigger] item_wf(v[i])
}

proof fn lemma_eval_enum_wf(v: Seq<SpecEvalTypes>, ops: Seq<StdFunctions>)
    requires
        valid_operations(ops),
        items_wf(v),
    ensures
        spec_eval_enum(v, ops) matches Ok(w) ==> items_wf(w),
{
    let n = v.len();
    if let Ok(w) = spec_eval_enum(v, ops) {
        if n >= 2 && ops.contains(spec_to_std_fn(v[n - 2])) {
            let f = spec_to_std_fn(v[n - 2]);
            let i = choose|i: int| 0 <= i < ops.len() && ops[i] == f;
            assert(ops[i] == f);
            assert(item_wf(v[n - 1]));
            if n >= 3 {
                assert(item_wf(v[n - 3]));
            }
            assert forall|j: int| 0 <= j < w.len() implies #[trigger] item_wf(w[j]) by {
                if j < w.len() - 1 {
                    assert(w[j] == v[j]);
                }
            }
        }
    }
}

proof fn lemma_pass_wf(items: Seq<SpecEvalTypes>, ops: Seq<StdFunctions>)
    requires
        valid_operations(ops),
        items_wf(items),
    ensures
        spec_pass(items, ops) matches Ok(w) ==> items_wf(w),
    decreases items.len(),
{
    if items.len() > 0 {
        let pre = items.drop_last();
        assert forall|i: int| 0 <= i < pre.len() implies #[trigger] item_wf(pre[i]) by {
            assert(pre[i] == items[i]);
        }
        lemma_pass_wf(pre, ops);
        if let Ok(acc) = spec_pass(pre, ops) {
            let v = acc.push(items[items.len() - 1]);
            assert(item_wf(items[items.len() - 1]));
            assert forall|j: int| 0 <= j < v.len() implies #[trigger] item_wf(v[j]) by {
                if j < acc.len() {
                    assert(v[j] == acc[j]);
                }
            }
            lemma_eval_enum_wf(v, ops);
        }
    }
}

proof fn lemma_zip_wf(top: Seq<SpecEvalTypes>, outside: Seq<SpecEvalTypes>, m: Seq<Seq<char>>)
    requires
        items_wf(top),
        items_wf(outside),
        marks_valid(m),
        count_mark(m, use_top()) <= top.len(),
        count_mark(m, use_outside()) <= outside.len(),
    ensures
        items_wf(spec_zip_by_map(top, outside, m)),
    decreases m.len(),
{
    if m.len() > 0 {
        assert(use_top() != use_outside()) by {
            assert(use_top().len() != use_outside().len());
        }
        assert(m[0] == use_top() || m[0] == use_outside());
        let mm = m.drop_first();
        assert(marks_valid(mm)) by {
            assert forall|i: int| 0 <= i < mm.len() implies (#[trigger] mm[i] == use_top() || mm[i] == use_outside()) by {
                assert(mm[i] == m[i + 1]);
            }
        }
        let z = spec_zip_by_map(top, outside, m);
        if m[0] == use_top() {
            assert(top.len() > 0);
            assert(item_wf(top[0]));
            let t = top.drop_first();
            assert forall|i: int| 0 <= i < t.len() implies #[trigger] item_wf(t[i]) by {
                assert(t[i] == top[i + 1]);
            }
            lemma_zip_wf(t, outside, mm);
            let rest = spec_zip_by_map(t, outside, mm);
            assert(z == seq![top[0]] + rest);
            assert forall|j: int| 0 <= j < z.len() implies #[trigger] item_wf(z[j]) by {
                if j > 0 {
                    assert(z[j] == rest[j - 1]);
                }
            }
        } else {
            assert(outside.len() > 0);
            assert(item_wf(outside[0]));
            let o = outside.drop_first();
            assert forall|i: int| 0 <= i < o.len() implies #[trigger] item_wf(o[i]) by {
                assert(o[i] == outside[i + 1]);
            }
            lemma_zip_wf(top, o, mm);
            let rest = spec_zip_by_map(top, o, mm);
            assert(z == seq![outside[0]] + rest);
            assert forall|j: int| 0 <= j < z.len() implies #[trigger] item_wf(z[j]) by {
                if j > 0 {
                    assert(z[j] == rest[j - 1]);
                }
            }
        }
    }
}

proof fn lemma_classify_all_wf(loc: Seq<Seq<char>>, idx: Seq<usize>)
    ensures
        spec_classify_all(loc, idx) matches Ok(v) ==> items_wf(v),
    decreases idx.len(),
{
    if idx.len() > 0 {
        lemma_classify_all_wf(loc, idx.drop_last());
        if let Ok(v) = spec_classify_all(loc, idx) {
            let acc = spec_classify_all(loc, idx.drop_last())->Ok_0;
            assert forall|j: int| 0 <= j < v.len() implies #[trigger] item_wf(v[j]) by {
                if j < acc.len() {
                    assert(v[j] == acc[j]);
                }
            }
        }
    }
}

proof fn lemma_reduce_wf(items: Seq<SpecEvalTypes>)
    requires
        items_wf(items),
    ensures
        spec_reduce(items) matches Ok(e) ==> item_wf(e),
{
    lemma_valid_operation_lists();
    lemma_pass_wf(items, unary_ops());
    if let Ok(v1) = spec_pass(items, unary_ops()) {
        lemma_pass_wf(v1, multiplication_ops());
        if let Ok(v2) = spec_pass(v1, multiplication_ops()) {
            lemma_pass_wf(v2, addition_ops());
            if let Ok(v3) = spec_pass(v2, addition_ops()) {
                if v3.len() == 1 {
                    assert(item_wf(v3[0]));
                }
            }
        }
    }
}

proof fn lemma_valid_operation_lists()
    ensures
        valid_operations(unary_ops()),
        valid_operations(multiplication_ops()),
        valid_operations(addition_ops()),
{
    assert forall|i: int| 0 <= i < unary_ops().len() implies is_unary_fn(#[trigger] unary_ops()[i]) by {}
    assert forall|i: int| 0 <= i < multiplication_ops().len() implies is_binary_fn(#[trigger] multiplication_ops()[i]) by {}
    assert forall|i: int| 0 <= i < addition_ops().len() implies is_binary_fn(#[trigger] addition_ops()[i]) by {}
}

proof fn lemma_groups_result_wf(bound: nat, loc: Seq<Seq<char>>, groups: Seq<(usize, usize)>, k: nat)
    ensures
        eval_groups(bound, loc, groups, k) matches Ok(v) ==> items_wf(v),
    decreases bound, 0int, k,
{
    if k > 0 {
        lemma_groups_result_wf(bound, loc, groups, (k - 1) as nat);
        if let Ok(v) = eval_groups(bound, loc, groups, k) {
            let acc = eval_groups(bound, loc, groups, (k - 1) as nat)->Ok_0;
            let g = groups[k - 1];
            let sub = loc.subrange(g.0 as int, g.1 + 1);
            lemma_recursive_eval_wf(sub);
            assert forall|j: int| 0 <= j < v.len() implies #[trigger] item_wf(v[j]) by {
                if j < acc.len() {
                    assert(v[j] == acc[j]);
                }
            }
        }
    }
}

/// Whatever an expression comes to, every operation of its term names an
/// operator of its kind: `Binary` a binary operator, `Unary` a one-argument
/// function.
pub proof fn lemma_recursive_eval_wf(s: Seq<Seq<char>>)
    ensures
        spec_recursive_eval(s) matches Ok(e) ==> item_wf(e),
    decreases s.len(), 1int, 0int,
{
    if s.len() > 0 {
        let loc = strip_outer(s);
        let scan = scan_parens(loc);
        if scan.total % 2 != 1 {
            lemma_groups_result_wf(s.len(), loc, scan.groups, scan.groups.len());
            if let Ok(tops) = eval_groups(s.len(), loc, scan.groups, scan.groups.len()) {
                let filled = spec_fill_indices(scan.groups, loc.len() as usize);
                lemma_classify_all_wf(loc, filled.0);
                if let Ok(outs) = spec_classify_all(loc, filled.0) {
                    lemma_mapping_prefix_counts(scan.groups, loc.len() as usize, scan.groups.len());
                    lemma_eval_groups_len(s.len(), loc, scan.groups, scan.groups.len());
                    lemma_classify_all_len(loc, filled.0);
                    lemma_zip_wf(tops, outs, filled.1);
                    lemma_reduce_wf(spec_zip_by_map(tops, outs, filled.1));
                }
            }
        }
    }
}

// ----- executable evaluation -----

fn contains_fn(list: &[StdFunctions], f: StdFunctions) -> (res: bool)
    ensures
        res == list@.contains(f),
{
    let mut i: usize = 0;
    while i < list.len()
        invariant
            i <= list@.len(),
            forall|j: int| 0 <= j < i ==> list@[j] != f,
        decreases list@.len() - i,
    {
        if list[i] == f {
            assert(list@[i as int] == f);
            return true;
        }
        i = i + 1;
    }
    false
}

trait EnumEval {
    fn eval_enum(&mut self, operations: &[StdFunctions]) -> Result<(), EvalError>
        requires
            operations@.len() > 0,
    ;
}

impl EnumEval for Vec<EvalTypes> {
    /// Applies one step of the reduction to the last elements (see
    /// `spec_eval_enum`).
    fn eval_enum(&mut self, operations: &[StdFunctions]) -> (res: Result<(), EvalError>)
        ensures
            match res {
                Ok(()) => spec_eval_enum(items_view(old(self)@), operations@) == Ok::<
                    Seq<SpecEvalTypes>,
                    EvalError,
                >(items_view(final(self)@)),
                Err(e) => spec_eval_enum(items_view(old(self)@), operations@) == Err::<
                    Seq<SpecEvalTypes>,
                    EvalError,
                >(e),
            },
    {
        let ghost v = items_view(self@);
        let unary = unary_enums();
        let is_binary = !contains_fn(&unary, operations[0]);
        assert(is_binary == !is_unary_list(operations@));
        let len_self = self.len();
        if is_binary {
            if len_self >= 3 && contains_fn(operations, self[len_self - 2].to_std_fn()) {
                let f = self[len_self - 2].to_std_fn();
                let c = self.pop().unwrap();
                let _op = self.pop().unwrap();
                let a = self.pop().unwrap();
                assert(a@ == v[len_self - 3]);
                assert(c@ == v[len_self - 1]);
                let av = match a.extract_val() {
                    Ok(t) => t,
                    Err(e) => return Err(e),
                };
                let cv = match c.extract_val() {
                    Ok(t) => t,
                    Err(e) => return Err(e),
                };
                self.push(EvalTypes::EvalVec(Term::Binary(f, Box::new(av), Box::new(cv))));
                assert(items_view(self@) =~= v.take(len_self - 3).push(
                    SpecEvalTypes::EvalVec(SpecTerm::Binary(f, Box::new(av@), Box::new(cv@))),
                ));
            }
        } else {
            if len_self >= 2 && contains_fn(operations, self[len_self - 2].to_std_fn()) {
                let f = self[len_self - 2].to_std_fn();
                let c = self.pop().unwrap();
                let _op = self.pop().unwrap();
                assert(c@ == v[len_self - 1]);
                let cv = match c.extract_val() {
                    Ok(t) => t,
                    Err(e) => return Err(e),
                };
                self.push(EvalTypes::EvalVec(Term::Unary(f, Box::new(cv))));
                assert(items_view(self@) =~= v.take(len_self - 2).push(
                    SpecEvalTypes::EvalVec(SpecTerm::Unary(f, Box::new(cv@))),
                ));
            }
        }
        Ok(())
    }
}

/// One pass of the reduction over `items` (see `spec_pass`).
fn run_pass(items: Vec<EvalTypes>, operations: &[StdFunctions]) -> (res: Result<Vec<EvalTypes>, EvalError>)
    requires
        operations@.len() > 0,
    ensures
        match res {
            Ok(v) => spec_pass(items_view(items@), operations@) == Ok::<Seq<SpecEvalTypes>, EvalError>(
                items_view(v@),
            ),
            Err(e) => spec_pass(items_view(items@), operations@) == Err::<Seq<SpecEvalTypes>, EvalError>(e),
        },
{
    let ghost all = items_view(items@);
    let n = items.len();
    let mut rest = reversed(items);
    let mut acc: Vec<EvalTypes> = Vec::new();
    let mut i: usize = 0;
    assert(all.take(0) =~= Seq::<SpecEvalTypes>::empty());
    assert(items_view(acc@) =~= Seq::<SpecEvalTypes>::empty());
    while i < n
        invariant
            n == all.len(),
            all == items_view(items@),
            i <= n,
            operations@.len() > 0,
            items_view(rest@) == all.skip(i as int).reverse(),
            spec_pass(all.take(i as int), operations@) == Ok::<Seq<SpecEvalTypes>, EvalError>(items_view(acc@)),
        decreases n - i,
    {
        assert(items_view(rest@).len() == rest@.len());
        let ghost before = rest@;
        let x = rest.pop().unwrap();
        assert(x@ == items_view(before)[before.len() - 1]);
        assert(x@ == all[i as int]);
        assert(items_view(rest@) =~= items_view(before).drop_last());
        assert(all.skip(i as int).reverse().drop_last() =~= all.skip(i as int).drop_first().reverse());
        assert(all.skip(i as int).drop_first() =~= all.skip(i + 1));
        assert(items_view(rest@) =~= all.skip(i + 1).reverse());
        let ghost prev = items_view(acc@);
        acc.push(x);
        assert(items_view(acc@) =~= prev.push(all[i as int]));
        assert(all.take(i + 1).drop_last() =~= all.take(i as int));
        assert(all.take(i + 1)[i as int] == all[i as int]);
        match acc.eval_enum(operations) {
            Ok(()) => {},
            Err(e) => {
                assert(spec_pass(all.take(i + 1), operations@) == Err::<Seq<SpecEvalTypes>, EvalError>(e));
                assert(spec_pass(all, operations@) == Err::<Seq<SpecEvalTypes>, EvalError>(e)) by {
                    lemma_pass_error_persists(all, operations@, (i + 1) as nat);
                }
                return Err(e);
            },
        }
        i = i + 1;
    }
    assert(all.take(n as int) =~= all);
    Ok(acc)
}

/// Once a prefix of the elements is refused, so are all of them.
proof fn lemma_pass_error_persists(all: Seq<SpecEvalTypes>, ops: Seq<StdFunctions>, k: nat)
    requires
        k <= all.len(),
        spec_pass(all.take(k as int), ops) is Err,
    ensures
        spec_pass(all, ops) == spec_pass(all.take(k as int), ops),
    decreases all.len() - k,
{
    if k < all.len() {
        assert(all.take((k + 1) as int).drop_last() =~= all.take(k as int));
        lemma_pass_error_persists(all, ops, k + 1);
    } else {
        assert(all.take(k as int) =~= all);
    }
}

/// Once a prefix of the tokens is refused, so are all of them.
proof fn lemma_classify_error_persists(loc: Seq<Seq<char>>, idx: Seq<usize>, k: nat)
    requires
        k <= idx.len(),
        spec_classify_all(loc, idx.take(k as int)) is Err,
    ensures
        spec_classify_all(loc, idx) == spec_classify_all(loc, idx.take(k as int)),
    decreases idx.len() - k,
{
    if k < idx.len() {
        assert(idx.take((k + 1) as int).drop_last() =~= idx.take(k as int));
        lemma_classify_error_persists(loc, idx, k + 1);
    } else {
        assert(idx.take(k as int) =~= idx);
    }
}

/// Once a group is refused, so is the whole list of groups.
proof fn lemma_groups_error_persists(bound: nat, loc: Seq<Seq<char>>, groups: Seq<(usize, usize)>, k: nat, n: nat)
    requires
        k <= n,
        eval_groups(bound, loc, groups, k) is Err,
    ensures
        eval_groups(bound, loc, groups, n) == eval_groups(bound, loc, groups, k),
    decreases n - k,
{
    if k < n {
        lemma_groups_error_persists(bound, loc, groups, k + 1, n);
    }
}

/// What a token outside parentheses stands for (see `spec_classify`).
fn classify_token(tok: &String) -> (res: Result<EvalTypes, EvalError>)
    ensures
        result_view(res) == spec_classify(tok@),
{
    proof {
        reveal_strlit("Variable");
        assert("Variable"@ =~= variant_name(StdFunctions::Variable));
    }
    if is_number(tok.as_str()) {
        Ok(EvalTypes::EvalVec(Term::Number(tok.clone())))
    } else if str_equal(tok.as_str(), "Variable") {
        Ok(EvalTypes::EvalVec(Term::Variable))
    } else {
        let name = to_upper_camel(tok.as_str());
        match StdFunctions::from_name(name.as_str()) {
            Some(f) => Ok(EvalTypes::Fun(f)),
            None => Err(EvalError::UnknownFunction),
        }
    }
}

/// Whether a token is the one-character text `c`.
fn is_char_token(tok: &String, c: char) -> (res: bool)
    ensures
        res == (tok@ == seq![c]),
{
    let s = tok.as_str();
    if s.unicode_len() == 1 {
        let r = s.get_char(0) == c;
        if !r {
            assert(s@[0] != seq![c][0]);
        } else {
            assert(s@ =~= seq![c]);
        }
        r
    } else {
        assert(s@.len() != seq![c].len());
        false
    }
}


/// The groups and the number of parenthesis tokens of `tokens[a .. b]` (see
/// `scan_parens`).
fn scan_range(tokens: &[String], a: usize, b: usize) -> (res: (Vec<(usize, usize)>, usize))
    requires
        a <= b <= tokens@.len(),
    ensures
        res.0@ == scan_parens(strings_view(tokens@).subrange(a as int, b as int)).groups,
        res.1 == scan_parens(strings_view(tokens@).subrange(a as int, b as int)).total,
{
    let ghost all = strings_view(tokens@);
    let ghost loc = all.subrange(a as int, b as int);
    let mut groups: Vec<(usize, usize)> = Vec::new();
    let mut start: usize = 0;
    let mut opened: usize = 0;
    let mut closed: usize = 0;
    let mut counting = false;
    let mut total: usize = 0;
    let mut j = a;
    assert(loc.take(0) =~= Seq::<Seq<char>>::empty());
    while j < b
        invariant
            a <= j <= b <= tokens@.len(),
            all == strings_view(tokens@),
            loc == all.subrange(a as int, b as int),
            scan_parens(loc.take(j - a)) == (ParenScan {
                groups: groups@,
                start: start,
                opened: opened as nat,
                closed: closed as nat,
                counting: counting,
                total: total as nat,
            }),
        decreases b - j,
    {
        proof {
            lemma_scan_wf(loc.take(j - a));
        }
        let i = j - a;
        let ghost pre = loc.take(i as int);
        let ghost cur = loc.take(i + 1);
        assert(cur.drop_last() =~= pre);
        assert(cur[i as int] == all[j as int]);
        if is_char_token(&tokens[j], '(') {
            total = total + 1;
            opened = opened + 1;
            if !counting {
                start = i;
                counting = true;
            }
        } else if is_char_token(&tokens[j], ')') {
            total = total + 1;
            closed = closed + 1;
            if opened == closed {
                counting = false;
                groups.push((start, i));
                start = 0;
            }
        }
        j = j + 1;
    }
    assert(loc.take(b - a) =~= loc);
    (groups, total)
}

/// The tokens of `tokens[a .. b]` at the indices `outside`, classified (see
/// `spec_classify_all`).
fn classify_outside(tokens: &[String], a: usize, b: usize, outside: &Vec<usize>) -> (res: Result<Vec<EvalTypes>, EvalError>)
    requires
        a <= b <= tokens@.len(),
        forall|i: int| 0 <= i < outside@.len() ==> #[trigger] outside@[i] < b - a,
    ensures
        match res {
            Ok(v) => spec_classify_all(strings_view(tokens@).subrange(a as int, b as int), outside@)
                == Ok::<Seq<SpecEvalTypes>, EvalError>(items_view(v@)),
            Err(e) => spec_classify_all(strings_view(tokens@).subrange(a as int, b as int), outside@)
                == Err::<Seq<SpecEvalTypes>, EvalError>(e),
        },
{
    let ghost all = strings_view(tokens@);
    let ghost loc = all.subrange(a as int, b as int);
    let ghost idx = outside@;
    let mut outs: Vec<EvalTypes> = Vec::new();
    let mut m: usize = 0;
    assert(idx.take(0) =~= Seq::<usize>::empty());
    assert(items_view(outs@) =~= Seq::<SpecEvalTypes>::empty());
    while m < outside.len()
        invariant
            a <= b <= tokens@.len(),
            all == strings_view(tokens@),
            loc == all.subrange(a as int, b as int),
            idx == outside@,
            forall|i: int| 0 <= i < idx.len() ==> #[trigger] idx[i] < b - a,
            m <= idx.len(),
            spec_classify_all(loc, idx.take(m as int)) == Ok::<Seq<SpecEvalTypes>, EvalError>(
                items_view(outs@),
            ),
        decreases idx.len() - m,
    {
        let p = outside[m];
        assert(idx[m as int] == p);
        assert(loc[p as int] == all[a + p]);
        assert(idx.take(m + 1).drop_last() =~= idx.take(m as int));
        assert(idx.take(m + 1)[m as int] == p);
        match classify_token(&tokens[a + p]) {
            Ok(x) => {
                let ghost prev = items_view(outs@);
                outs.push(x);
                assert(items_view(outs@) =~= prev.push(x@));
            },
            Err(e) => {
                proof {
                    lemma_classify_error_persists(loc, idx, (m + 1) as nat);
                }
                return Err(e);
            },
        }
        m = m + 1;
    }
    assert(idx.take(idx.len() as int) =~= idx);
    Ok(outs)
}

/// The three passes of the reduction; exactly one element must be left
/// (see `spec_reduce`).
fn reduce(zipped: Vec<EvalTypes>) -> (res: Result<EvalTypes, EvalError>)
    ensures
        result_view(res) == spec_reduce(items_view(zipped@)),
{
    let unary = unary_enums();
    let multiplication = binary_multiplication_based_enums();
    let addition = binary_addition_based_enums();
    assert(unary@ == unary_ops());
    assert(multiplication@ == multiplication_ops());
    assert(addition@ == addition_ops());
    let v1 = match run_pass(zipped, &unary) {
        Ok(v) => v,
        Err(e) => return Err(e),
    };
    let v2 = match run_pass(v1, &multiplication) {
        Ok(v) => v,
        Err(e) => return Err(e),
    };
    let mut v3 = match run_pass(v2, &addition) {
        Ok(v) => v,
        Err(e) => return Err(e),
    };
    if v3.len() == 1 {
        let r = v3.pop().unwrap();
        assert(items_view(v3@.push(r))[0] == r@);
        Ok(r)
    } else {
        Err(EvalError::ImproperlyFormatted)
    }
}

/// Each group of an expression's inside is shorter than the expression.
proof fn lemma_group_shorter(s: Seq<Seq<char>>, loc: Seq<Seq<char>>, k: int)
    requires
        loc == strip_outer(s),
        scan_wf(loc, scan_parens(loc)),
        0 <= k < scan_parens(loc).groups.len(),
    ensures
        loc.subrange(scan_parens(loc).groups[k].0 as int, scan_parens(loc).groups[k].1 + 1).len() < s.len(),
{
    let scan = scan_parens(loc);
    let g = scan.groups[k];
    assert(g.0 < g.1 && g.1 < loc.len());
    if !encloses(s) {
        if g.1 + 1 - g.0 == s.len() {
            assert(g.0 == 0 && g.1 == s.len() - 1);
            if k > 0 {
                assert(scan.groups[k - 1].1 < scan.groups[k].0);
            }
            assert(scan.groups[0] == (0usize, (s.len() - 1) as usize));
            assert(encloses(s));
        }
    }
}

/// The groups `groups` of `tokens[a .. b]`, each evaluated on its own (see
/// `eval_groups`); `tokens[a .. b]` is `tokens[lo .. hi]` without its outer
/// parentheses.
fn eval_group_list(tokens: &[String], lo: usize, hi: usize, a: usize, b: usize, groups: &Vec<(usize, usize)>) -> (res: Result<Vec<EvalTypes>, EvalError>)
    requires
        lo <= a <= b <= hi <= tokens@.len(),
        strings_view(tokens@).subrange(a as int, b as int) == strip_outer(strings_view(tokens@).subrange(lo as int, hi as int)),
        scan_wf(strings_view(tokens@).subrange(a as int, b as int), scan_parens(strings_view(tokens@).subrange(a as int, b as int))),
        groups@ == scan_parens(strings_view(tokens@).subrange(a as int, b as int)).groups,
    ensures
        match res {
            Ok(v) => eval_groups((hi - lo) as nat, strings_view(tokens@).subrange(a as int, b as int), groups@, groups@.len())
                == Ok::<Seq<SpecEvalTypes>, EvalError>(items_view(v@)),
            Err(e) => eval_groups((hi - lo) as nat, strings_view(tokens@).subrange(a as int, b as int), groups@, groups@.len())
                == Err::<Seq<SpecEvalTypes>, EvalError>(e),
        },
    decreases hi - lo, 0int,
{
    let ghost all = strings_view(tokens@);
    let ghost s = all.subrange(lo as int, hi as int);
    let ghost loc = all.subrange(a as int, b as int);
    let ghost scan = scan_parens(loc);
    let ghost bound = (hi - lo) as nat;
    let mut tops: Vec<EvalTypes> = Vec::new();
    let mut k: usize = 0;
    assert(items_view(tops@) =~= Seq::<SpecEvalTypes>::empty());
    while k < groups.len()
        invariant
            lo <= a <= b <= hi <= tokens@.len(),
            all == strings_view(tokens@),
            s == all.subrange(lo as int, hi as int),
            loc == all.subrange(a as int, b as int),
            loc == strip_outer(s),
            bound == s.len(),
            scan == scan_parens(loc),
            groups@ == scan.groups,
            scan_wf(loc, scan),
            k <= groups@.len(),
            eval_groups(bound, loc, scan.groups, k as nat) == Ok::<Seq<SpecEvalTypes>, EvalError>(
                items_view(tops@),
            ),
        decreases groups@.len() - k,
    {
        let g = groups[k];
        assert(g == scan.groups[k as int]);
        if !g.is_val_ind() {
            proof {
                lemma_groups_error_persists(bound, loc, scan.groups, (k + 1) as nat, scan.groups.len());
            }
            return Err(EvalError::InvalidParenConfiguration);
        }
        assert(g.0 < g.1 && g.1 < loc.len());
        let ghost sub = loc.subrange(g.0 as int, g.1 + 1);
        proof {
            lemma_group_shorter(s, loc, k as int);
        }
        assert(sub =~= all.subrange(a + g.0, a + g.1 + 1));
        match eval_range(tokens, a + g.0, a + g.1 + 1) {
            Ok(x) => {
                let ghost prev = items_view(tops@);
                tops.push(x);
                assert(items_view(tops@) =~= prev.push(x@));
            },
            Err(e) => {
                proof {
                    lemma_groups_error_persists(bound, loc, scan.groups, (k + 1) as nat, scan.groups.len());
                }
                return Err(e);
            },
        }
        k = k + 1;
    }
    Ok(tops)
}

/// The expression `tokens[lo .. hi]` evaluated (see `spec_recursive_eval`).
fn eval_range(tokens: &[String], lo: usize, hi: usize) -> (res: Result<EvalTypes, EvalError>)
    requires
        lo <= hi <= tokens@.len(),
    ensures
        result_view(res) == spec_recursive_eval(strings_view(tokens@).subrange(lo as int, hi as int)),
    decreases hi - lo, 1int,
{
    let ghost all = strings_view(tokens@);
    let ghost s = all.subrange(lo as int, hi as int);
    if lo == hi {
        return Err(EvalError::EmptyExpression);
    }
    // Drop the outer parentheses when the whole expression is one group.
    let (whole_groups, _whole_total) = scan_range(tokens, lo, hi);
    let strip = hi - lo >= 2 && whole_groups.len() > 0 && whole_groups[0].0 == 0 && whole_groups[0].1
        == hi - lo - 1;
    let a = if strip { lo + 1 } else { lo };
    let b = if strip { hi - 1 } else { hi };
    let ghost loc = all.subrange(a as int, b as int);
    assert(strip == encloses(s));
    assert(loc =~= strip_outer(s));
    let ghost scan = scan_parens(loc);
    let (groups, total) = scan_range(tokens, a, b);
    proof {
        lemma_scan_wf(loc);
    }
    if total % 2 == 1 {
        return Err(EvalError::ParenthesesMismatch);
    }
    let tops = match eval_group_list(tokens, lo, hi, a, b, &groups) {
        Ok(t) => t,
        Err(e) => return Err(e),
    };
    proof {
        lemma_eval_groups_len(s.len(), loc, scan.groups, scan.groups.len());
        assert(items_view(tops@).len() == tops@.len());
        assert forall|i: int| 0 <= i < scan.groups.len() implies #[trigger] scan.groups[i].0 <= (b - a) as usize by {}
        assert forall|i: int| 0 < i < scan.groups.len() implies #[trigger] scan.groups[i].0 > 0 by {
            assert(scan.groups[i - 1].1 < scan.groups[i].0);
        }
        lemma_outside_prefix_bounded(scan.groups, (b - a) as usize, scan.groups.len());
    }
    let (outside, mapping) = fill_indices(groups, b - a);
    let outs = match classify_outside(tokens, a, b, &outside) {
        Ok(o) => o,
        Err(e) => return Err(e),
    };
    proof {
        lemma_classify_all_len(loc, outside@);
        assert(items_view(outs@).len() == outs@.len());
    }
    let zipped = zip_by_map(tops, outs, mapping);
    reduce(zipped)
}

proof fn lemma_eval_groups_len(bound: nat, loc: Seq<Seq<char>>, groups: Seq<(usize, usize)>, k: nat)
    ensures
        eval_groups(bound, loc, groups, k) matches Ok(v) ==> v.len() == k,
    decreases k,
{
    if k > 0 {
        lemma_eval_groups_len(bound, loc, groups, (k - 1) as nat);
    }
}

proof fn lemma_classify_all_len(loc: Seq<Seq<char>>, idx: Seq<usize>)
    ensures
        spec_classify_all(loc, idx) matches Ok(v) ==> v.len() == idx.len(),
    decreases idx.len(),
{
    if idx.len() > 0 {
        lemma_classify_all_len(loc, idx.drop_last());
    }
}

/// Evaluates an expression given as tokens (as `parse_on_parens` gives them,
/// with the operators converted to the names of their variants). The result is
/// the single element that the expression comes to: an operand, whose term
/// says how to compute it from the input values, or a named function or
/// constant; see `spec_recursive_eval` for exactly which result comes on which
/// tokens, and `lemma_precedence`, `lemma_parenthesised_expression` and
/// `lemma_operator_between_groups` for the ranks and the groups.
///
/// An expression that cannot be evaluated (no tokens, an odd number of
/// parentheses, an unknown name, an operator next to something that is not an
/// operand, or elements left that no operator joins, such as `2x`) is answered
/// with the matching `EvalError`, by design, rather than by stopping the
/// program: a library function here does not panic, and the program turns
/// each error into its message.
pub fn recursive_eval(expression: &mut [String]) -> (res: Result<EvalTypes, EvalError>)
    ensures
        final(expression)@ == old(expression)@,
        result_view(res) == spec_recursive_eval(strings_view(old(expression)@)),
{
    let tokens: &[String] = expression;
    let r = eval_range(tokens, 0, tokens.len());
    assert(strings_view(tokens@).subrange(0, tokens@.len() as int) =~= strings_view(tokens@));
    r
}

} // verus!
