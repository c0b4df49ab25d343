use vstd::prelude::*;

use crate::configuration_and_utilities::{StdFunctions, is_operator_text, lemma_variable_converted, variant_name};
use crate::string_and_vec_parsing::{
    CanStripEmpties, is_non_empty, is_split_char, parse_on_parens, spec_parse_on_parens,
    strings_view, strs_view,
};

verus! {

/// The pieces of `s` read so far and the piece being read: a separator ends
/// the piece being read.
pub open spec fn scan_split(s: Seq<char>, seps: Seq<char>) -> (Seq<Seq<char>>, Seq<char>)
    decreases s.len(),
{
    if s.len() == 0 {
        (seq![], seq![])
    } else {
        let (pieces, cur) = scan_split(s.drop_last(), seps);
        let c = s[s.len() - 1];
        if seps.contains(c) {
            (pieces.push(cur), seq![])
        } else {
            (pieces, cur.push(c))
        }
    }
}

/// The pieces of `s` between the separators `seps`, in order, empty pieces
/// included: one more piece than there are separators.
pub open spec fn spec_split(s: Seq<char>, seps: Seq<char>) -> Seq<Seq<char>> {
    let (pieces, cur) = scan_split(s, seps);
    pieces.push(cur)
}

/// The pieces joined again, the `i`-th separator between piece `i` and piece
/// `i + 1`.
pub open spec fn join_pieces(pieces: Seq<Seq<char>>, delims: Seq<char>) -> Seq<char>
    decreases pieces.len(),
{
    if pieces.len() == 0 {
        seq![]
    } else if pieces.len() == 1 {
        pieces[0]
    } else {
        join_pieces(pieces.drop_last(), delims.drop_last()) + seq![delims[delims.len() - 1]]
            + pieces[pieces.len() - 1]
    }
}

/// The separator characters of `s`, in order.
pub open spec fn separators_of(s: Seq<char>, seps: Seq<char>) -> Seq<char> {
    s.filter(|c: char| seps.contains(c))
}

proof fn lemma_scan_split_join(s: Seq<char>, seps: Seq<char>)
    ensures
        scan_split(s, seps).0.len() == separators_of(s, seps).len(),
        join_pieces(scan_split(s, seps).0.push(scan_split(s, seps).1), separators_of(s, seps)) == s,
        forall|i: int, j: int|
            0 <= i < scan_split(s, seps).0.len() && 0 <= j < scan_split(s, seps).0[i].len()
                ==> !seps.contains(#[trigger] scan_split(s, seps).0[i][j]),
        forall|j: int| 0 <= j < scan_split(s, seps).1.len() ==> !seps.contains(#[trigger] scan_split(s, seps).1[j]),
    decreases s.len(),
{
    reveal_with_fuel(Seq::<_>::filter, 1);
    if s.len() == 0 {
        assert(separators_of(s, seps) =~= Seq::<char>::empty());
        assert(seq![Seq::<char>::empty()][0] =~= s);
    } else {
        let pre = s.drop_last();
        lemma_scan_split_join(pre, seps);
        let (pieces, cur) = scan_split(pre, seps);
        let d = separators_of(pre, seps);
        let c = s[s.len() - 1];
        assert(separators_of(s, seps) == if seps.contains(c) { d.push(c) } else { d });
        if seps.contains(c) {
            let p2 = pieces.push(cur);
            let ds = d.push(c);
            let all = p2.push(Seq::<char>::empty());
            assert(all.drop_last() =~= p2);
            assert(ds.drop_last() =~= d);
            assert(join_pieces(all, ds) =~= join_pieces(p2, d) + seq![c] + Seq::<char>::empty());
            assert(s =~= pre.push(c));
            assert forall|i: int, j: int| 0 <= i < p2.len() && 0 <= j < p2[i].len() implies !seps.contains(
                #[trigger] p2[i][j],
            ) by {
                if i < pieces.len() {
                    assert(p2[i] == pieces[i]);
                }
            }
        } else {
            let c2 = cur.push(c);
            let before = pieces.push(cur);
            let after = pieces.push(c2);
            assert(s =~= pre.push(c));
            if pieces.len() == 0 {
                assert(join_pieces(after, d) == c2);
                assert(join_pieces(before, d) == cur);
            } else {
                assert(before.drop_last() =~= pieces);
                assert(after.drop_last() =~= pieces);
                assert(join_pieces(after, d) =~= join_pieces(before, d).push(c));
            }
            assert forall|j: int| 0 <= j < c2.len() implies !seps.contains(#[trigger] c2[j]) by {
                if j < cur.len() {
                    assert(c2[j] == cur[j]);
                }
            }
        }
    }
}

/// The pieces of a split hold no separator, there is one more piece than
/// there are separators in the text, and the pieces joined by those
/// separators, in order, give back the text.
pub proof fn lemma_split_rejoins(s: Seq<char>, seps: Seq<char>)
    ensures
        spec_split(s, seps).len() == separators_of(s, seps).len() + 1,
        join_pieces(spec_split(s, seps), separators_of(s, seps)) == s,
        forall|i: int, j: int|
            0 <= i < spec_split(s, seps).len() && 0 <= j < spec_split(s, seps)[i].len() ==> !seps.contains(
                #[trigger] spec_split(s, seps)[i][j],
            ),
{
    lemma_scan_split_join(s, seps);
    let (pieces, cur) = scan_split(s, seps);
    let all = pieces.push(cur);
    assert forall|i: int, j: int| 0 <= i < all.len() && 0 <= j < all[i].len() implies !seps.contains(
        #[trigger] all[i][j],
    ) by {
        if i < pieces.len() {
            assert(all[i] == pieces[i]);
        }
    }
}

fn char_in(seps: &[char], c: char) -> (res: bool)
    ensures
        res == seps@.contains(c),
{
    let mut i: usize = 0;
    while i < seps.len()
        invariant
            i <= seps@.len(),
            forall|j: int| 0 <= j < i ==> seps@[j] != c,
        decreases seps@.len() - i,
    {
        if seps[i] == c {
            assert(seps@[i as int] == c);
            return true;
        }
        i = i + 1;
    }
    false
}

/// Splits `s` at each of the characters `separators` (see `spec_split`).
pub fn split_on_chars(s: &str, separators: &[char]) -> (res: Vec<String>)
    ensures
        strings_view(res@) == spec_split(s@, separators@),
{
    let ghost t = s@;
    let n = s.unicode_len();
    let mut pieces: Vec<String> = Vec::new();
    let mut start: usize = 0;
    let mut i: usize = 0;
    assert(t.take(0) =~= Seq::<char>::empty());
    assert(strings_view(pieces@) =~= Seq::<Seq<char>>::empty());
    assert(t.subrange(0, 0) =~= Seq::<char>::empty());
    while i < n
        invariant
            n == t.len(),
            t == s@,
            start <= i <= n,
            scan_split(t.take(i as int), separators@) == (strings_view(pieces@), t.subrange(start as int, i as int)),
        decreases n - i,
    {
        let c = s.get_char(i);
        assert(t.take(i + 1).drop_last() =~= t.take(i as int));
        assert(t.take(i + 1)[i as int] == c);
        if char_in(separators, c) {
            let piece = s.substring_char(start, i);
            let ghost prev = strings_view(pieces@);
            pieces.push(piece.to_owned());
            assert(strings_view(pieces@) =~= prev.push(piece@));
            start = i + 1;
            i = i + 1;
            assert(t.subrange(start as int, i as int) =~= Seq::<char>::empty());
        } else {
            i = i + 1;
            assert(t.subrange(start as int, i as int) =~= t.subrange(start as int, i - 1).push(c));
        }
    }
    assert(t.take(n as int) =~= t);
    let piece = s.substring_char(start, n);
    let ghost prev = strings_view(pieces@);
    pieces.push(piece.to_owned());
    assert(strings_view(pieces@) =~= prev.push(piece@));
    pieces
}

/// A request: the name of the variable, the texts of its values, and the tokens
/// of the expression.
pub struct Request {
    pub var_name: String,
    pub values: Vec<String>,
    pub expression: Vec<String>,
}

/// Why a request cannot be read.
#[derive(Clone, Copy, Debug, PartialEq, Eq, Structural)]
pub enum RequestError {
    /// The request does not have exactly three parts separated by `:`.
    IncorrectFormatting,
}

/// The separators of an expression: the parentheses, the operator symbols and
/// the name of the variable.
pub open spec fn expression_separators(var_name: Seq<char>) -> Seq<Seq<char>> {
    seq![seq!['('], seq![')'], seq!['*'], seq!['-'], seq!['+'], seq!['^'], seq!['/'], var_name]
}

/// The non-empty texts of a list.
pub open spec fn non_empty(v: Seq<Seq<char>>) -> Seq<Seq<char>> {
    v.filter(|t: Seq<char>| t.len() > 0)
}

proof fn lemma_strs_view_filter(v: Seq<&str>)
    ensures
        strs_view(v.filter(|s: &str| is_non_empty(s))) == non_empty(strs_view(v)),
    decreases v.len(),
{
    reveal_with_fuel(Seq::<_>::filter, 1);
    if v.len() > 0 {
        lemma_strs_view_filter(v.drop_last());
        assert(strs_view(v).drop_last() =~= strs_view(v.drop_last()));
        let f = v.filter(|s: &str| is_non_empty(s));
        let g = v.drop_last().filter(|s: &str| is_non_empty(s));
        if is_non_empty(v.last()) {
            assert(strs_view(f) =~= strs_view(g).push(v.last()@));
        } else {
            assert(strs_view(f) =~= strs_view(g));
        }
    } else {
        assert(strs_view(v.filter(|s: &str| is_non_empty(s))) =~= non_empty(strs_view(v)));
    }
}

/// Whatever one-character name the variable has (other than a parenthesis or
/// an operator symbol), each occurrence
/// of it in an expression is a token of its own that reads `Variable`: the
/// tokens of any text ending in the variable end with `Variable`.
pub proof fn lemma_variable_token(s: Seq<char>, c: char)
    requires
        !is_operator_text(seq![c]),
        c != '(' && c != ')',
    ensures
        ({
            let tokens = spec_parse_on_parens(s.push(c), expression_separators(seq![c]), true, seq![c]);
            tokens.len() > 0 && tokens[tokens.len() - 1] == variant_name(StdFunctions::Variable)
        }),
{
    let seps = expression_separators(seq![c]);
    let t = s.push(c);
    assert(seps[7] == seq![c]);
    assert(is_split_char(c, seps));
    assert(t.drop_last() =~= s);
    assert(t[t.len() - 1] == c);
    lemma_variable_converted(seq![c], seq![c]);
}

/// Reads a request `name:values:expression`, such as `x:[0,1,2]:x*3-x+1` or
/// `x:2,4:sin(x)`: the values are the non-empty texts between `[`, `]` and
/// `,`; the expression is split into tokens at the parentheses, the operator
/// symbols and the name of the variable, and its operators and variable are
/// converted to the names of their variants.
pub fn parse_request(line: &str) -> (res: Result<Request, RequestError>)
    ensures
        match res {
            Ok(r) => {
                let fields = spec_split(line@, seq![':']);
                &&& fields.len() == 3
                &&& r.var_name@ == fields[0]
                &&& strings_view(r.values@) == non_empty(spec_split(fields[1], seq!['[', ']', ',']))
                &&& strings_view(r.expression@) == spec_parse_on_parens(
                    fields[2],
                    expression_separators(fields[0]),
                    true,
                    fields[0],
                )
            },
            Err(e) => e == RequestError::IncorrectFormatting && spec_split(line@, seq![':']).len() != 3,
        },
{
    let colon = [':'];
    assert(colon@ =~= seq![':']);
    let split_input = split_on_chars(line, &colon);
    if split_input.len() != 3 {
        return Err(RequestError::IncorrectFormatting);
    }
    let ghost fields = strings_view(split_input@);
    assert(fields[0] == split_input@[0]@);
    assert(fields[1] == split_input@[1]@);
    assert(fields[2] == split_input@[2]@);
    let var_name: &str = split_input[0].as_str();
    let input_vals: &str = split_input[1].as_str();
    let expression_string: &str = split_input[2].as_str();
    // The values.
    let brackets = ['[', ']', ','];
    assert(brackets@ =~= seq!['[', ']', ',']);
    let pieces = split_on_chars(input_vals, &brackets);
    let mut x: Vec<&str> = Vec::new();
    let mut i: usize = 0;
    while i < pieces.len()
        invariant
            i <= pieces@.len(),
            strs_view(x@) == strings_view(pieces@).take(i as int),
        decreases pieces@.len() - i,
    {
        let ghost prev = strs_view(x@);
        x.push(pieces[i].as_str());
        assert(strs_view(x@) =~= prev.push(pieces@[i as int]@));
        assert(strings_view(pieces@).take(i + 1) =~= strings_view(pieces@).take(i as int).push(pieces@[i as int]@));
        i = i + 1;
    }
    assert(strings_view(pieces@).take(pieces@.len() as int) =~= strings_view(pieces@));
    let kept = x.strip_empties();
    proof {
        lemma_strs_view_filter(x@);
    }
    let mut values: Vec<String> = Vec::new();
    let mut j: usize = 0;
    while j < kept.len()
        invariant
            j <= kept@.len(),
            strings_view(values@) == strs_view(kept@).take(j as int),
        decreases kept@.len() - j,
    {
        let ghost prev = strings_view(values@);
        let s: &str = kept[j];
        values.push(s.to_owned());
        assert(strings_view(values@) =~= prev.push(kept@[j as int]@));
        assert(strs_view(kept@).take(j + 1) =~= strs_view(kept@).take(j as int).push(kept@[j as int]@));
        j = j + 1;
    }
    assert(strs_view(kept@).take(kept@.len() as int) =~= strs_view(kept@));
    // The tokens of the expression.
    let mut split_vals: Vec<&str> = vec!["(", ")", "*", "-", "+", "^", "/"];
    split_vals.push(var_name);
    proof {
        reveal_strlit("(");
        reveal_strlit(")");
        reveal_strlit("*");
        reveal_strlit("-");
        reveal_strlit("+");
        reveal_strlit("^");
        reveal_strlit("/");
        assert("("@ =~= seq!['(']);
        assert(")"@ =~= seq![')']);
        assert("*"@ =~= seq!['*']);
        assert("-"@ =~= seq!['-']);
        assert("+"@ =~= seq!['+']);
        assert("^"@ =~= seq!['^']);
        assert("/"@ =~= seq!['/']);
        assert(split_vals@.len() == 8);
        assert(strs_view(split_vals@) =~= expression_separators(var_name@));
    }
    let expression = parse_on_parens(expression_string, split_vals, true, var_name);
    Ok(Request { var_name: split_input[0].clone(), values, expression })
}

} // verus!
