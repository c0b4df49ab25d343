use vstd::prelude::*;

use crate::configuration_and_utilities::{convert_string_to_enum, spec_convert_string_to_enum};
use crate::expression::{EvalTypes, SpecEvalTypes, items_view};

verus! {

/// The mark of a mapping vector that takes the next parenthesised group.
pub open spec fn use_top() -> Seq<char> {
    seq!['u', 's', 'e', ' ', 't', 'o', 'p']
}

/// The mark of a mapping vector that takes the next element from outside the
/// parentheses.
pub open spec fn use_outside() -> Seq<char> {
    seq!['u', 's', 'e', ' ', 'o', 'u', 't', 's', 'i', 'd', 'e']
}

/// The character sequences of a sequence of strings.
pub open spec fn strings_view(v: Seq<String>) -> Seq<Seq<char>> {
    v.map_values(|s: String| s@)
}

/// How many entries of `m` equal `mark`.
pub open spec fn count_mark(m: Seq<Seq<char>>, mark: Seq<char>) -> nat
    decreases m.len(),
{
    if m.len() == 0 {
        0
    } else {
        (if m[0] == mark { 1nat } else { 0nat }) + count_mark(m.drop_first(), mark)
    }
}

/// Counting marks over a concatenation adds the counts of the parts.
pub proof fn lemma_count_mark_concat(a: Seq<Seq<char>>, b: Seq<Seq<char>>, mark: Seq<char>)
    ensures
        count_mark(a + b, mark) == count_mark(a, mark) + count_mark(b, mark),
    decreases a.len(),
{
    if a.len() == 0 {
        assert(a + b =~= b);
    } else {
        assert((a + b).drop_first() =~= a.drop_first() + b);
        lemma_count_mark_concat(a.drop_first(), b, mark);
    }
}

/// Whether every entry of a mapping vector is one of the two marks.
pub open spec fn marks_valid(m: Seq<Seq<char>>) -> bool {
    forall|i: int| 0 <= i < m.len() ==> (#[trigger] m[i] == use_top() || m[i] == use_outside())
}

/// Interlaces `top` and `outside` as the marks of `m` say: each `use top`
/// takes the next element of `top`, each `use outside` the next of `outside`.
pub open spec fn spec_zip_by_map<A>(top: Seq<A>, outside: Seq<A>, m: Seq<Seq<char>>) -> Seq<A>
    decreases m.len(),
{
    if m.len() == 0 {
        seq![]
    } else if m[0] == use_top() {
        seq![top[0]] + spec_zip_by_map(top.drop_first(), outside, m.drop_first())
    } else {
        seq![outside[0]] + spec_zip_by_map(top, outside.drop_first(), m.drop_first())
    }
}

/// The elements of `v` in reverse order, taken by moving them.
pub fn reversed<T>(v: Vec<T>) -> (res: Vec<T>)
    ensures
        res@ == v@.reverse(),
{
    let mut v = v;
    let mut res: Vec<T> = Vec::new();
    let ghost orig = v@;
    while v.len() > 0
        invariant
            v@ == orig.take(v@.len() as int),
            v@.len() <= orig.len(),
            res@ == orig.skip(v@.len() as int).reverse(),
        decreases v.len(),
    {
        let x = v.pop().unwrap();
        res.push(x);
        assert(res@ =~= orig.skip(v@.len() as int).reverse());
        assert(v@ =~= orig.take(v@.len() as int));
    }
    assert(orig.skip(0) =~= orig);
    res
}

/// Builds one sequence of elements from those inside parentheses (`topside`)
/// and those outside them (`outside`), in the order that `mapping_vec` gives
/// with its marks `use top` and `use outside`.
pub fn zip_by_map(topside: Vec<EvalTypes>, outside: Vec<EvalTypes>, mapping_vec: Vec<String>) -> (res: Vec<EvalTypes>)
    requires
        marks_valid(strings_view(mapping_vec@)),
        count_mark(strings_view(mapping_vec@), use_top()) <= topside@.len(),
        count_mark(strings_view(mapping_vec@), use_outside()) <= outside@.len(),
    ensures
        items_view(res@) == spec_zip_by_map(items_view(topside@), items_view(outside@), strings_view(mapping_vec@)),
{
    proof {
        reveal_strlit("use top");
        assert("use top"@ =~= use_top());
    }
    let ghost m = strings_view(mapping_vec@);
    let ghost top0 = items_view(topside@);
    let ghost out0 = items_view(outside@);
    let n = topside.len();
    let o = outside.len();
    let mut top_rev = reversed(topside);
    let mut out_rev = reversed(outside);
    let mut final_vec: Vec<EvalTypes> = Vec::new();
    let mut topside_ind: usize = 0;
    let mut outside_ind: usize = 0;
    let mut i: usize = 0;
    let top_mark = String::from_str("use top");
    assert(m.skip(0) =~= m);
    assert(top0.skip(0) =~= top0);
    assert(out0.skip(0) =~= out0);
    while i < mapping_vec.len()
        invariant
            m == strings_view(mapping_vec@),
            marks_valid(m),
            top_mark@ == use_top(),
            top0.len() == n,
            out0.len() == o,
            0 <= i <= m.len(),
            topside_ind <= n,
            outside_ind <= o,
            count_mark(m.skip(i as int), use_top()) <= n - topside_ind,
            count_mark(m.skip(i as int), use_outside()) <= o - outside_ind,
            items_view(top_rev@) == top0.skip(topside_ind as int).reverse(),
            items_view(out_rev@) == out0.skip(outside_ind as int).reverse(),
            spec_zip_by_map(top0, out0, m) == items_view(final_vec@) + spec_zip_by_map(
                top0.skip(topside_ind as int),
                out0.skip(outside_ind as int),
                m.skip(i as int),
            ),
        decreases m.len() - i,
    {
        let ghost rest = m.skip(i as int);
        let ghost ts = top0.skip(topside_ind as int);
        let ghost os = out0.skip(outside_ind as int);
        assert(rest[0] == m[i as int]);
        assert(rest.drop_first() =~= m.skip(i + 1));
        let is_top = mapping_vec[i] == top_mark;
        if is_top {
            assert(count_mark(rest, use_top()) >= 1);
            assert(items_view(top_rev@).len() == top_rev@.len());
            assert(ts.reverse().len() == ts.len());
            assert(top_rev@.len() == ts.len());
            let ghost before = top_rev@;
            let x = top_rev.pop().unwrap();
            assert(top_rev@ == before.drop_last());
            assert(x@ == items_view(before)[before.len() - 1]);
            assert(x@ == ts[0]);
            assert(items_view(top_rev@) =~= items_view(before).drop_last());
            assert(ts.reverse().drop_last() =~= ts.drop_first().reverse());
            assert(ts.drop_first() =~= top0.skip(topside_ind + 1));
            assert(items_view(top_rev@) =~= top0.skip(topside_ind + 1).reverse());
            assert(ts.drop_first() =~= top0.skip(topside_ind + 1));
            final_vec.push(x);
            topside_ind = topside_ind + 1;
        } else {
            assert(m[i as int] == use_outside());
            assert(m[i as int] != use_top());
            assert(count_mark(rest, use_outside()) >= 1);
            assert(items_view(out_rev@).len() == out_rev@.len());
            assert(os.reverse().len() == os.len());
            assert(out_rev@.len() == os.len());
            let ghost before = out_rev@;
            let x = out_rev.pop().unwrap();
            assert(out_rev@ == before.drop_last());
            assert(x@ == items_view(before)[before.len() - 1]);
            assert(x@ == os[0]);
            assert(items_view(out_rev@) =~= items_view(before).drop_last());
            assert(os.reverse().drop_last() =~= os.drop_first().reverse());
            assert(os.drop_first() =~= out0.skip(outside_ind + 1));
            assert(items_view(out_rev@) =~= out0.skip(outside_ind + 1).reverse());
            assert(os.drop_first() =~= out0.skip(outside_ind + 1));
            final_vec.push(x);
            outside_ind = outside_ind + 1;
        }
        i = i + 1;
        assert(items_view(final_vec@) =~= items_view(final_vec@.drop_last()).push(final_vec@.last()@));
    }
    proof {
        assert(m.skip(i as int) =~= Seq::<Seq<char>>::empty());
    }
    assert(items_view(final_vec@) =~= spec_zip_by_map(top0, out0, m));
    final_vec
}

// ----- tokens -----

/// The character sequences of a list of string slices.
pub open spec fn strs_view(v: Seq<&str>) -> Seq<Seq<char>> {
    v.map_values(|s: &str| s@)
}

/// Whether the one-character text `c` is in the list of separators.
pub open spec fn is_split_char(c: char, list: Seq<Seq<char>>) -> bool {
    list.contains(seq![c])
}

/// The tokens found in `s` so far and the word being read: a separator ends
/// the word (which becomes a token unless empty) and is a token of its own;
/// any other character is added to the word. Each token is converted with
/// `spec_convert_string_to_enum`.
pub open spec fn scan_chars(s: Seq<char>, list: Seq<Seq<char>>, do_enums: bool, var_name: Seq<char>) -> (Seq<Seq<char>>, Seq<char>)
    decreases s.len(),
{
    if s.len() == 0 {
        (seq![], seq![])
    } else {
        let (t, w) = scan_chars(s.drop_last(), list, do_enums, var_name);
        let c = s[s.len() - 1];
        if is_split_char(c, list) {
            let t1 = if w.len() > 0 {
                t.push(spec_convert_string_to_enum(w, do_enums, var_name))
            } else {
                t
            };
            (t1.push(spec_convert_string_to_enum(seq![c], do_enums, var_name)), seq![])
        } else {
            (t, w.push(c))
        }
    }
}

/// The tokens of `s`: the words between separators and the separators
/// themselves, in order, each converted with `spec_convert_string_to_enum`.
pub open spec fn spec_parse_on_parens(s: Seq<char>, list: Seq<Seq<char>>, do_enums: bool, var_name: Seq<char>) -> Seq<Seq<char>> {
    let (t, w) = scan_chars(s, list, do_enums, var_name);
    if w.len() > 0 {
        t.push(spec_convert_string_to_enum(w, do_enums, var_name))
    } else {
        t
    }
}

fn list_has_char(list: &Vec<&str>, c: char) -> (res: bool)
    ensures
        res == is_split_char(c, strs_view(list@)),
{
    let ghost l = strs_view(list@);
    let mut i: usize = 0;
    while i < list.len()
        invariant
            l == strs_view(list@),
            i <= list@.len(),
            forall|j: int| 0 <= j < i ==> l[j] != seq![c],
        decreases list@.len() - i,
    {
        let s: &str = list[i];
        assert(l[i as int] == s@);
        if s.unicode_len() == 1 && s.get_char(0) == c {
            assert(s@ =~= seq![c]);
            return true;
        }
        proof {
            if s@.len() == 1 {
                assert(s@[0] != seq![c][0]);
            }
        }
        i = i + 1;
    }
    false
}

/// Splits `input_string` into tokens at the separators of `char_list` (each a
/// text of one character; longer texts never match), keeping the separators as
/// tokens; with `do_enums` set, operators become the names of their variants
/// and `var_name` becomes `Variable` (see `spec_parse_on_parens`).
pub fn parse_on_parens(input_string: &str, char_list: Vec<&str>, do_enums: bool, var_name: &str) -> (res: Vec<String>)
    ensures
        strings_view(res@) == spec_parse_on_parens(input_string@, strs_view(char_list@), do_enums, var_name@),
{
    let ghost s = input_string@;
    let ghost list = strs_view(char_list@);
    let n = input_string.unicode_len();
    let mut output_vec: Vec<String> = Vec::new();
    let mut word_start: usize = 0;
    let mut i: usize = 0;
    assert(s.take(0) =~= Seq::<char>::empty());
    assert(strings_view(output_vec@) =~= Seq::<Seq<char>>::empty());
    assert(s.subrange(0, 0) =~= Seq::<char>::empty());
    while i < n
        invariant
            n == s.len(),
            s == input_string@,
            list == strs_view(char_list@),
            word_start <= i <= n,
            scan_chars(s.take(i as int), list, do_enums, var_name@) == (strings_view(output_vec@), s.subrange(word_start as int, i as int)),
        decreases n - i,
    {
        let c = input_string.get_char(i);
        assert(s.take(i + 1).drop_last() =~= s.take(i as int));
        assert(s.take(i + 1)[i as int] == c);
        if list_has_char(&char_list, c) {
            if word_start < i {
                let word = input_string.substring_char(word_start, i);
                let conv = convert_string_to_enum(word, do_enums, String::from_str(var_name));
                let ghost prev = strings_view(output_vec@);
                output_vec.push(conv.to_owned());
                assert(strings_view(output_vec@) =~= prev.push(conv@));
            }
            let sep = input_string.substring_char(i, i + 1);
            assert(sep@ =~= seq![c]);
            let conv = convert_string_to_enum(sep, do_enums, String::from_str(var_name));
            let ghost prev = strings_view(output_vec@);
            output_vec.push(conv.to_owned());
            assert(strings_view(output_vec@) =~= prev.push(conv@));
            word_start = i + 1;
            i = i + 1;
            assert(s.subrange(word_start as int, i as int) =~= Seq::<char>::empty());
        } else {
            i = i + 1;
            assert(s.subrange(word_start as int, i as int) =~= s.subrange(word_start as int, i - 1).push(c));
        }
    }
    assert(s.take(n as int) =~= s);
    if word_start < n {
        let word = input_string.substring_char(word_start, n);
        let conv = convert_string_to_enum(word, do_enums, String::from_str(var_name));
        let ghost prev = strings_view(output_vec@);
        output_vec.push(conv.to_owned());
        assert(strings_view(output_vec@) =~= prev.push(conv@));
    }
    output_vec
}

/// A trait to drop the empty strings from a list of string slices.
pub trait CanStripEmpties {
    fn strip_empties(&self) -> Vec<&str>;
}

/// Whether a string slice is not empty.
pub open spec fn is_non_empty(s: &str) -> bool {
    s@.len() > 0
}

impl<'a> CanStripEmpties for Vec<&'a str> {
    /// The non-empty strings of the list, in order.
    fn strip_empties(&self) -> (res: Vec<&str>)
        ensures
            res@ == self@.filter(|s: &str| is_non_empty(s)),
    {
        let ghost pred = |s: &str| is_non_empty(s);
        let mut output: Vec<&str> = Vec::new();
        let mut i: usize = 0;
        assert(self@.take(0) =~= Seq::<&str>::empty());
        assert(self@.take(0).filter(pred) =~= Seq::<&str>::empty());
        while i < self.len()
            invariant
                i <= self@.len(),
                pred == (|s: &str| is_non_empty(s)),
                output@ == self@.take(i as int).filter(pred),
            decreases self@.len() - i,
        {
            let s = self[i];
            proof {
                reveal_with_fuel(Seq::<_>::filter, 1);
                assert(self@.take(i + 1).drop_last() =~= self@.take(i as int));
                assert(self@.take(i + 1).last() == s);
            }
            if s.unicode_len() == 0 {
            } else {
                output.push(s);
            }
            i = i + 1;
        }
        assert(self@.take(self@.len() as int) =~= self@);
        output
    }
}

/// The tokens written one after another.
pub open spec fn concat_all(ts: Seq<Seq<char>>) -> Seq<char>
    decreases ts.len(),
{
    if ts.len() == 0 {
        seq![]
    } else {
        concat_all(ts.drop_last()) + ts[ts.len() - 1]
    }
}

proof fn lemma_scan_concat(s: Seq<char>, list: Seq<Seq<char>>, var_name: Seq<char>)
    ensures
        concat_all(scan_chars(s, list, false, var_name).0) + scan_chars(s, list, false, var_name).1 == s,
    decreases s.len(),
{
    if s.len() > 0 {
        let pre = s.drop_last();
        lemma_scan_concat(pre, list, var_name);
        let (t, w) = scan_chars(pre, list, false, var_name);
        let c = s[s.len() - 1];
        if is_split_char(c, list) {
            let t1 = if w.len() > 0 { t.push(w) } else { t };
            assert(concat_all(t1) == concat_all(t) + w) by {
                if w.len() > 0 {
                    assert(t.push(w).drop_last() =~= t);
                } else {
                    assert(concat_all(t) + w =~= concat_all(t));
                }
            }
            assert(t1.push(seq![c]).drop_last() =~= t1);
            assert(s =~= pre.push(c));
            assert(concat_all(t1.push(seq![c])) =~= concat_all(t1) + seq![c]);
            assert(concat_all(t1.push(seq![c])) + seq![] =~= s);
        } else {
            assert(s =~= pre.push(c));
            assert(concat_all(t) + w.push(c) =~= (concat_all(t) + w).push(c));
        }
    }
}

/// Without conversion, the tokens written one after another give back the
/// text: splitting loses no character.
pub proof fn lemma_tokens_concatenate(s: Seq<char>, list: Seq<Seq<char>>, var_name: Seq<char>)
    ensures
        concat_all(spec_parse_on_parens(s, list, false, var_name)) == s,
{
    lemma_scan_concat(s, list, var_name);
    let (t, w) = scan_chars(s, list, false, var_name);
    if w.len() > 0 {
        assert(t.push(w).drop_last() =~= t);
    } else {
        assert(concat_all(t) + w =~= concat_all(t));
    }
}

proof fn lemma_convert_non_empty(x: Seq<char>, do_enums: bool, var_name: Seq<char>)
    requires
        x.len() > 0,
    ensures
        spec_convert_string_to_enum(x, do_enums, var_name).len() > 0,
{
}

proof fn lemma_scan_non_empty(s: Seq<char>, list: Seq<Seq<char>>, do_enums: bool, var_name: Seq<char>)
    ensures
        forall|i: int|
            0 <= i < scan_chars(s, list, do_enums, var_name).0.len() ==> #[trigger] scan_chars(
                s,
                list,
                do_enums,
                var_name,
            ).0[i].len() > 0,
    decreases s.len(),
{
    if s.len() > 0 {
        lemma_scan_non_empty(s.drop_last(), list, do_enums, var_name);
        let (t, w) = scan_chars(s.drop_last(), list, do_enums, var_name);
        let c = s[s.len() - 1];
        if is_split_char(c, list) {
            lemma_convert_non_empty(seq![c], do_enums, var_name);
            if w.len() > 0 {
                lemma_convert_non_empty(w, do_enums, var_name);
            }
        }
    }
}

/// No token is empty.
pub proof fn lemma_tokens_non_empty(s: Seq<char>, list: Seq<Seq<char>>, do_enums: bool, var_name: Seq<char>)
    ensures
        forall|i: int|
            0 <= i < spec_parse_on_parens(s, list, do_enums, var_name).len() ==> #[trigger] spec_parse_on_parens(
                s,
                list,
                do_enums,
                var_name,
            )[i].len() > 0,
{
    lemma_scan_non_empty(s, list, do_enums, var_name);
    let (t, w) = scan_chars(s, list, do_enums, var_name);
    if w.len() > 0 {
        lemma_convert_non_empty(w, do_enums, var_name);
        assert forall|i: int| 0 <= i < t.push(spec_convert_string_to_enum(w, do_enums, var_name)).len() implies #[trigger] t.push(
            spec_convert_string_to_enum(w, do_enums, var_name),
        )[i].len() > 0 by {
            if i < t.len() {
                assert(t.push(spec_convert_string_to_enum(w, do_enums, var_name))[i] == t[i]);
            }
        }
    }
}

proof fn lemma_scan_converted(s: Seq<char>, list: Seq<Seq<char>>, var_name: Seq<char>)
    ensures
        scan_chars(s, list, true, var_name).1 == scan_chars(s, list, false, var_name).1,
        scan_chars(s, list, true, var_name).0 == scan_chars(s, list, false, var_name).0.map_values(
            |t: Seq<char>| spec_convert_string_to_enum(t, true, var_name),
        ),
    decreases s.len(),
{
    if s.len() > 0 {
        lemma_scan_converted(s.drop_last(), list, var_name);
        let (t, w) = scan_chars(s.drop_last(), list, false, var_name);
        let c = s[s.len() - 1];
        let f = |x: Seq<char>| spec_convert_string_to_enum(x, true, var_name);
        if is_split_char(c, list) {
            if w.len() > 0 {
                assert(t.push(w).push(seq![c]).map_values(f) =~= t.map_values(f).push(f(w)).push(f(seq![c])));
            } else {
                assert(t.push(seq![c]).map_values(f) =~= t.map_values(f).push(f(seq![c])));
            }
        }
    }
}

/// With conversion, the tokens are those found without conversion, each
/// converted: conversion changes no boundary between tokens.
pub proof fn lemma_tokens_converted(s: Seq<char>, list: Seq<Seq<char>>, var_name: Seq<char>)
    ensures
        spec_parse_on_parens(s, list, true, var_name) == spec_parse_on_parens(s, list, false, var_name).map_values(
            |t: Seq<char>| spec_convert_string_to_enum(t, true, var_name),
        ),
{
    lemma_scan_converted(s, list, var_name);
    let (t, w) = scan_chars(s, list, false, var_name);
    let f = |x: Seq<char>| spec_convert_string_to_enum(x, true, var_name);
    if w.len() > 0 {
        assert(t.push(w).map_values(f) =~= t.map_values(f).push(f(w)));
    }
}

/// A token that is one separator character.
pub open spec fn is_separator_token(x: Seq<char>, list: Seq<Seq<char>>) -> bool {
    x.len() == 1 && is_split_char(x[0], list)
}

/// A token that is a word: not empty, and without any separator character.
pub open spec fn is_word_token(x: Seq<char>, list: Seq<Seq<char>>) -> bool {
    x.len() > 0 && forall|i: int| 0 <= i < x.len() ==> !is_split_char(#[trigger] x[i], list)
}

/// Tokens of which each is a separator or a word, and no two words follow
/// each other.
pub open spec fn tokens_well_split(t: Seq<Seq<char>>, list: Seq<Seq<char>>) -> bool {
    &&& forall|i: int| 0 <= i < t.len() ==> is_separator_token(#[trigger] t[i], list) || is_word_token(t[i], list)
    &&& forall|i: int| 0 <= i < t.len() - 1 ==> is_word_token(#[trigger] t[i], list) ==> is_separator_token(t[i + 1], list)
}

proof fn lemma_scan_well_split(s: Seq<char>, list: Seq<Seq<char>>, var_name: Seq<char>)
    ensures
        tokens_well_split(scan_chars(s, list, false, var_name).0, list),
        forall|i: int|
            0 <= i < scan_chars(s, list, false, var_name).1.len() ==> !is_split_char(
                #[trigger] scan_chars(s, list, false, var_name).1[i],
                list,
            ),
        scan_chars(s, list, false, var_name).0.len() > 0 ==> is_separator_token(
            scan_chars(s, list, false, var_name).0[scan_chars(s, list, false, var_name).0.len() - 1],
            list,
        ),
    decreases s.len(),
{
    if s.len() > 0 {
        lemma_scan_well_split(s.drop_last(), list, var_name);
        let (t, w) = scan_chars(s.drop_last(), list, false, var_name);
        let c = s[s.len() - 1];
        if is_split_char(c, list) {
            let sep = seq![c];
            assert(sep[0] == c);
            if w.len() > 0 {
                let t2 = t.push(w).push(sep);
                assert(is_word_token(w, list));
                assert forall|i: int| 0 <= i < t2.len() implies is_separator_token(#[trigger] t2[i], list)
                    || is_word_token(t2[i], list) by {
                    if i < t.len() {
                        assert(t2[i] == t[i]);
                    }
                }
                assert forall|i: int| 0 <= i < t2.len() - 1 implies (is_word_token(#[trigger] t2[i], list)
                    ==> is_separator_token(t2[i + 1], list)) by {
                    if i < t.len() - 1 {
                        assert(t2[i] == t[i] && t2[i + 1] == t[i + 1]);
                    } else if i == t.len() - 1 {
                        assert(t2[i] == t[i]);
                        assert(is_separator_token(t[i], list));
                        assert(!is_word_token(t[i], list));
                    }
                }
            } else {
                let t2 = t.push(sep);
                assert forall|i: int| 0 <= i < t2.len() implies is_separator_token(#[trigger] t2[i], list)
                    || is_word_token(t2[i], list) by {
                    if i < t.len() {
                        assert(t2[i] == t[i]);
                    }
                }
                assert forall|i: int| 0 <= i < t2.len() - 1 implies (is_word_token(#[trigger] t2[i], list)
                    ==> is_separator_token(t2[i + 1], list)) by {
                    assert(t2[i] == t[i]);
                    if i < t.len() - 1 {
                        assert(t2[i + 1] == t[i + 1]);
                    } else {
                        assert(is_separator_token(t[i], list));
                        assert(!is_word_token(t[i], list)) by {
                            assert(t[i][0] == t[i][0]);
                        }
                    }
                }
            }
        } else {
            let w2 = w.push(c);
            assert forall|i: int| 0 <= i < w2.len() implies !is_split_char(#[trigger] w2[i], list) by {
                if i < w.len() {
                    assert(w2[i] == w[i]);
                }
            }
        }
    }
}

/// The tokens of a text (before conversion) are separator characters, one per
/// token, and the maximal words between them: each token is a separator or a
/// word without separators, and no two words follow each other. With
/// `lemma_tokens_concatenate` this fixes the tokens.
pub proof fn lemma_tokens_well_split(s: Seq<char>, list: Seq<Seq<char>>, var_name: Seq<char>)
    ensures
        tokens_well_split(spec_parse_on_parens(s, list, false, var_name), list),
{
    lemma_scan_well_split(s, list, var_name);
    let (t, w) = scan_chars(s, list, false, var_name);
    if w.len() > 0 {
        let t2 = t.push(w);
        assert(is_word_token(w, list));
        assert forall|i: int| 0 <= i < t2.len() implies is_separator_token(#[trigger] t2[i], list)
            || is_word_token(t2[i], list) by {
            if i < t.len() {
                assert(t2[i] == t[i]);
            }
        }
        assert forall|i: int| 0 <= i < t2.len() - 1 implies (is_word_token(#[trigger] t2[i], list)
            ==> is_separator_token(t2[i + 1], list)) by {
            assert(t2[i] == t[i]);
            if i < t.len() - 1 {
                assert(t2[i + 1] == t[i + 1]);
            } else {
                assert(is_separator_token(t[i], list));
                assert(!is_word_token(t[i], list)) by {
                    assert(t[i][0] == t[i][0]);
                }
            }
        }
    }
}

} // verus!
