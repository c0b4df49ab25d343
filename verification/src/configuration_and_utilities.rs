use vstd::prelude::*;

verus! {

/// The functions, operators and constants that an expression may name.
///
/// `Add`, `Subtract`, `Multiply`, `Divide` and `Power` are binary operators;
/// `Sin` and `Cos` take one argument. `NumberOfBinaryFns` is a reserved marker,
/// `Variable` stands for the input variable, and `E` and `Pi` are reserved for
/// mathematical constants.
#[derive(Clone, Copy, Debug, PartialEq, Eq, Structural)]
pub enum StdFunctions {
    NoFunction,
    Add,
    Subtract,
    Multiply,
    Divide,
    Power,
    NumberOfBinaryFns,
    Sin,
    Cos,
    Variable,
    E,
    Pi,
}

/// The name by which a variant is written in an expression.
pub open spec fn variant_name(f: StdFunctions) -> Seq<char> {
    match f {
        StdFunctions::NoFunction => seq!['N', 'o', 'n', 'e'],
        StdFunctions::Add => seq!['A', 'd', 'd'],
        StdFunctions::Subtract => seq!['S', 'u', 'b', 't', 'r', 'a', 'c', 't'],
        StdFunctions::Multiply => seq!['M', 'u', 'l', 't', 'i', 'p', 'l', 'y'],
        StdFunctions::Divide => seq!['D', 'i', 'v', 'i', 'd', 'e'],
        StdFunctions::Power => seq!['P', 'o', 'w', 'e', 'r'],
        StdFunctions::NumberOfBinaryFns => seq![
            'N', 'u', 'm', 'b', 'e', 'r', 'O', 'f', 'B', 'i', 'n', 'a', 'r', 'y', 'F', 'n', 's'
        ],
        StdFunctions::Sin => seq!['S', 'i', 'n'],
        StdFunctions::Cos => seq!['C', 'o', 's'],
        StdFunctions::Variable => seq!['V', 'a', 'r', 'i', 'a', 'b', 'l', 'e'],
        StdFunctions::E => seq!['E'],
        StdFunctions::Pi => seq!['P', 'i'],
    }
}

/// Whether two strings hold the same characters.
pub fn str_equal(a: &str, b: &str) -> (res: bool)
    ensures
        res == (a@ == b@),
{
    let n = a.unicode_len();
    if n != b.unicode_len() {
        return false;
    }
    let mut i: usize = 0;
    while i < n
        invariant
            n == a@.len(),
            n == b@.len(),
            i <= n,
            forall|j: int| 0 <= j < i ==> a@[j] == b@[j],
        decreases n - i,
    {
        if a.get_char(i) != b.get_char(i) {
            return false;
        }
        i = i + 1;
    }
    assert(a@ =~= b@);
    true
}

/// The variant whose name is `name`, if there is one.
pub open spec fn spec_from_name(name: Seq<char>) -> Option<StdFunctions> {
    if name == variant_name(StdFunctions::NoFunction) {
        Some(StdFunctions::NoFunction)
    } else if name == variant_name(StdFunctions::Add) {
        Some(StdFunctions::Add)
    } else if name == variant_name(StdFunctions::Subtract) {
        Some(StdFunctions::Subtract)
    } else if name == variant_name(StdFunctions::Multiply) {
        Some(StdFunctions::Multiply)
    } else if name == variant_name(StdFunctions::Divide) {
        Some(StdFunctions::Divide)
    } else if name == variant_name(StdFunctions::Power) {
        Some(StdFunctions::Power)
    } else if name == variant_name(StdFunctions::NumberOfBinaryFns) {
        Some(StdFunctions::NumberOfBinaryFns)
    } else if name == variant_name(StdFunctions::Sin) {
        Some(StdFunctions::Sin)
    } else if name == variant_name(StdFunctions::Cos) {
        Some(StdFunctions::Cos)
    } else if name == variant_name(StdFunctions::Variable) {
        Some(StdFunctions::Variable)
    } else if name == variant_name(StdFunctions::E) {
        Some(StdFunctions::E)
    } else if name == variant_name(StdFunctions::Pi) {
        Some(StdFunctions::Pi)
    } else {
        None
    }
}

impl StdFunctions {
    /// Looks a variant up by its exact name (letter case included).
    pub fn from_name(name: &str) -> (res: Option<StdFunctions>)
        ensures
            res == spec_from_name(name@),
    {
        proof {
            reveal_strlit("None");
            assert("None"@ =~= variant_name(StdFunctions::NoFunction));
            reveal_strlit("Add");
            assert("Add"@ =~= variant_name(StdFunctions::Add));
            reveal_strlit("Subtract");
            assert("Subtract"@ =~= variant_name(StdFunctions::Subtract));
            reveal_strlit("Multiply");
            assert("Multiply"@ =~= variant_name(StdFunctions::Multiply));
            reveal_strlit("Divide");
            assert("Divide"@ =~= variant_name(StdFunctions::Divide));
            reveal_strlit("Power");
            assert("Power"@ =~= variant_name(StdFunctions::Power));
            reveal_strlit("NumberOfBinaryFns");
            assert("NumberOfBinaryFns"@ =~= variant_name(StdFunctions::NumberOfBinaryFns));
            reveal_strlit("Sin");
            assert("Sin"@ =~= variant_name(StdFunctions::Sin));
            reveal_strlit("Cos");
            assert("Cos"@ =~= variant_name(StdFunctions::Cos));
            reveal_strlit("Variable");
            assert("Variable"@ =~= variant_name(StdFunctions::Variable));
            reveal_strlit("E");
            assert("E"@ =~= variant_name(StdFunctions::E));
            reveal_strlit("Pi");
            assert("Pi"@ =~= variant_name(StdFunctions::Pi));
        }
        if str_equal(name, "None") {
            Some(StdFunctions::NoFunction)
        } else if str_equal(name, "Add") {
            Some(StdFunctions::Add)
        } else if str_equal(name, "Subtract") {
            Some(StdFunctions::Subtract)
        } else if str_equal(name, "Multiply") {
            Some(StdFunctions::Multiply)
        } else if str_equal(name, "Divide") {
            Some(StdFunctions::Divide)
        } else if str_equal(name, "Power") {
            Some(StdFunctions::Power)
        } else if str_equal(name, "NumberOfBinaryFns") {
            Some(StdFunctions::NumberOfBinaryFns)
        } else if str_equal(name, "Sin") {
            Some(StdFunctions::Sin)
        } else if str_equal(name, "Cos") {
            Some(StdFunctions::Cos)
        } else if str_equal(name, "Variable") {
            Some(StdFunctions::Variable)
        } else if str_equal(name, "E") {
            Some(StdFunctions::E)
        } else if str_equal(name, "Pi") {
            Some(StdFunctions::Pi)
        } else {
            None
        }
    }
}

/// A name is found only if it is the name of the variant found.
pub proof fn lemma_from_name_sound(name: Seq<char>)
    ensures
        spec_from_name(name) matches Some(f) ==> name == variant_name(f),
{
}

/// Every variant is found again by its own name.
pub proof fn lemma_from_name_of_variant_name(f: StdFunctions)
    ensures
        spec_from_name(variant_name(f)) == Some(f),
{
    let n = variant_name(f);
    assert(n[0] == n[0]);
    assert forall|g: StdFunctions| variant_name(g) == n implies g == f by {
        assert(variant_name(g)[0] == n[0]);
    }
}

/// The number that identifies a variant: the binary operators are negative
/// (`Add` -5, `Subtract` -4, `Multiply` -3, `Divide` -2, `Power` -1), so that
/// adding the number of `NumberOfBinaryFns` (5, the count of binary operators)
/// gives their position in a list of operators; `NoFunction` is 0; the
/// one-argument functions count from 1 (`Sin` 1, `Cos` 2); `Variable` is 10,
/// `E` 11 and `Pi` 12.
pub open spec fn spec_discriminant(f: StdFunctions) -> int {
    match f {
        StdFunctions::NoFunction => 0,
        StdFunctions::Add => -5,
        StdFunctions::Subtract => -4,
        StdFunctions::Multiply => -3,
        StdFunctions::Divide => -2,
        StdFunctions::Power => -1,
        StdFunctions::NumberOfBinaryFns => 5,
        StdFunctions::Sin => 1,
        StdFunctions::Cos => 2,
        StdFunctions::Variable => 10,
        StdFunctions::E => 11,
        StdFunctions::Pi => 12,
    }
}

impl StdFunctions {
    /// The number that identifies this variant (see `spec_discriminant`).
    pub fn discriminant(self) -> (res: i32)
        ensures
            res == spec_discriminant(self),
    {
        match self {
            StdFunctions::NoFunction => 0,
            StdFunctions::Add => -5,
            StdFunctions::Subtract => -4,
            StdFunctions::Multiply => -3,
            StdFunctions::Divide => -2,
            StdFunctions::Power => -1,
            StdFunctions::NumberOfBinaryFns => 5,
            StdFunctions::Sin => 1,
            StdFunctions::Cos => 2,
            StdFunctions::Variable => 10,
            StdFunctions::E => 11,
            StdFunctions::Pi => 12,
        }
    }
}

impl Default for StdFunctions {
    fn default() -> (res: StdFunctions)
        ensures
            res == StdFunctions::NoFunction,
    {
        StdFunctions::NoFunction
    }
}

/// The functions that take one argument; they are applied first, before any
/// binary operator.
pub fn unary_enums() -> (res: [StdFunctions; 2])
    ensures
        res@ == seq![StdFunctions::Sin, StdFunctions::Cos],
{
    let res = [StdFunctions::Sin, StdFunctions::Cos];
    assert(res@ =~= seq![StdFunctions::Sin, StdFunctions::Cos]);
    res
}

/// The operators applied second, from left to right: division, multiplication
/// and exponentiation.
pub fn binary_multiplication_based_enums() -> (res: [StdFunctions; 3])
    ensures
        res@ == seq![StdFunctions::Divide, StdFunctions::Multiply, StdFunctions::Power],
{
    let res = [StdFunctions::Divide, StdFunctions::Multiply, StdFunctions::Power];
    assert(res@ =~= seq![StdFunctions::Divide, StdFunctions::Multiply, StdFunctions::Power]);
    res
}

/// The operators applied last, from left to right: addition and subtraction.
pub fn binary_addition_based_enums() -> (res: [StdFunctions; 2])
    ensures
        res@ == seq![StdFunctions::Add, StdFunctions::Subtract],
{
    let res = [StdFunctions::Add, StdFunctions::Subtract];
    assert(res@ =~= seq![StdFunctions::Add, StdFunctions::Subtract]);
    res
}

/// What a token becomes: with `check` set, an operator symbol or the name of a
/// one-argument function becomes the name of its variant, and the variable's
/// name becomes `Variable`; anything else, and everything when `check` is off,
/// stays as it is.
pub open spec fn spec_convert_string_to_enum(input: Seq<char>, check: bool, var_name: Seq<char>) -> Seq<char> {
    if !check {
        input
    } else if input == seq!['+'] {
        variant_name(StdFunctions::Add)
    } else if input == seq!['/'] {
        variant_name(StdFunctions::Divide)
    } else if input == seq!['-'] {
        variant_name(StdFunctions::Subtract)
    } else if input == seq!['^'] {
        variant_name(StdFunctions::Power)
    } else if input == seq!['*'] {
        variant_name(StdFunctions::Multiply)
    } else if input == seq!['s', 'i', 'n'] {
        variant_name(StdFunctions::Sin)
    } else if input == seq!['c', 'o', 's'] {
        variant_name(StdFunctions::Cos)
    } else if input == var_name {
        variant_name(StdFunctions::Variable)
    } else {
        input
    }
}

/// Whether a token is one of the texts that conversion turns into the name of
/// an operator or function: `+`, `/`, `-`, `^`, `*`, `sin`, `cos`.
pub open spec fn is_operator_text(w: Seq<char>) -> bool {
    ||| w == seq!['+']
    ||| w == seq!['/']
    ||| w == seq!['-']
    ||| w == seq!['^']
    ||| w == seq!['*']
    ||| w == seq!['s', 'i', 'n']
    ||| w == seq!['c', 'o', 's']
}

/// Whatever the variable is named (unless its name is an operator symbol,
/// `sin` or `cos`), its name converts to `Variable`; any other token that is
/// not an operator text is left as it is.
pub proof fn lemma_variable_converted(w: Seq<char>, var_name: Seq<char>)
    requires
        !is_operator_text(w),
    ensures
        w == var_name ==> spec_convert_string_to_enum(w, true, var_name) == variant_name(StdFunctions::Variable),
        w != var_name ==> spec_convert_string_to_enum(w, true, var_name) == w,
        spec_convert_string_to_enum(w, false, var_name) == w,
{
}

/// Each operator symbol, `sin` and `cos` converts to the name of its variant,
/// whatever the variable is named.
pub proof fn lemma_operators_converted(var_name: Seq<char>)
    ensures
        spec_convert_string_to_enum(seq!['+'], true, var_name) == variant_name(StdFunctions::Add),
        spec_convert_string_to_enum(seq!['-'], true, var_name) == variant_name(StdFunctions::Subtract),
        spec_convert_string_to_enum(seq!['*'], true, var_name) == variant_name(StdFunctions::Multiply),
        spec_convert_string_to_enum(seq!['/'], true, var_name) == variant_name(StdFunctions::Divide),
        spec_convert_string_to_enum(seq!['^'], true, var_name) == variant_name(StdFunctions::Power),
        spec_convert_string_to_enum(seq!['s', 'i', 'n'], true, var_name) == variant_name(StdFunctions::Sin),
        spec_convert_string_to_enum(seq!['c', 'o', 's'], true, var_name) == variant_name(StdFunctions::Cos),
{
    assert(seq!['+'] != seq!['/']) by { assert(seq!['+'][0] != seq!['/'][0]); }
    assert(seq!['-'] != seq!['+']) by { assert(seq!['-'][0] != seq!['+'][0]); }
    assert(seq!['-'] != seq!['/']) by { assert(seq!['-'][0] != seq!['/'][0]); }
    assert(seq!['^'] != seq!['+']) by { assert(seq!['^'][0] != seq!['+'][0]); }
    assert(seq!['^'] != seq!['/']) by { assert(seq!['^'][0] != seq!['/'][0]); }
    assert(seq!['^'] != seq!['-']) by { assert(seq!['^'][0] != seq!['-'][0]); }
    assert(seq!['*'] != seq!['+']) by { assert(seq!['*'][0] != seq!['+'][0]); }
    assert(seq!['*'] != seq!['/']) by { assert(seq!['*'][0] != seq!['/'][0]); }
    assert(seq!['*'] != seq!['-']) by { assert(seq!['*'][0] != seq!['-'][0]); }
    assert(seq!['*'] != seq!['^']) by { assert(seq!['*'][0] != seq!['^'][0]); }
    assert(seq!['c', 'o', 's'] != seq!['s', 'i', 'n']) by {
        assert(seq!['c', 'o', 's'][0] != seq!['s', 'i', 'n'][0]);
    }
}

/// Converts a token to the name of the variant it stands for, so that the
/// variant can then be looked up by name (see `spec_convert_string_to_enum`).
pub fn convert_string_to_enum(input: &str, check: bool, var_name: String) -> (res: &str)
    ensures
        res@ == spec_convert_string_to_enum(input@, check, var_name@),
{
    proof {
        reveal_strlit("+");
        reveal_strlit("/");
        reveal_strlit("-");
        reveal_strlit("^");
        reveal_strlit("*");
        reveal_strlit("sin");
        reveal_strlit("cos");
        reveal_strlit("Add");
        reveal_strlit("Divide");
        reveal_strlit("Subtract");
        reveal_strlit("Power");
        reveal_strlit("Multiply");
        reveal_strlit("Sin");
        reveal_strlit("Cos");
        reveal_strlit("Variable");
        assert("+"@ =~= seq!['+']);
        assert("/"@ =~= seq!['/']);
        assert("-"@ =~= seq!['-']);
        assert("^"@ =~= seq!['^']);
        assert("*"@ =~= seq!['*']);
        assert("sin"@ =~= seq!['s', 'i', 'n']);
        assert("cos"@ =~= seq!['c', 'o', 's']);
        assert("Add"@ =~= variant_name(StdFunctions::Add));
        assert("Divide"@ =~= variant_name(StdFunctions::Divide));
        assert("Subtract"@ =~= variant_name(StdFunctions::Subtract));
        assert("Power"@ =~= variant_name(StdFunctions::Power));
        assert("Multiply"@ =~= variant_name(StdFunctions::Multiply));
        assert("Sin"@ =~= variant_name(StdFunctions::Sin));
        assert("Cos"@ =~= variant_name(StdFunctions::Cos));
        assert("Variable"@ =~= variant_name(StdFunctions::Variable));
    }
    if check {
        if str_equal(input, "+") {
            "Add"
        } else if str_equal(input, "/") {
            "Divide"
        } else if str_equal(input, "-") {
            "Subtract"
        } else if str_equal(input, "^") {
            "Power"
        } else if str_equal(input, "*") {
            "Multiply"
        } else if str_equal(input, "sin") {
            "Sin"
        } else if str_equal(input, "cos") {
            "Cos"
        } else if str_equal(input, var_name.as_str()) {
            "Variable"
        } else {
            input
        }
    } else {
        input
    }
}

} // verus!
