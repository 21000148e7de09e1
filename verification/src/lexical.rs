//! Tokens as the parser consumes them.
//!
//! The character-level scanner that produces tokens from source text is
//! a collaborator outside this library; here live the token type itself,
//! the synthetic tokens the parser and the quad evaluator make, and the
//! fixed mapping from terminal spellings to symbol indices that the
//! precedence tables are laid out by.

use vstd::prelude::*;

verus! {

/// The classification a token carries from the scanner.
#[derive(Debug, Clone, Copy, PartialEq, Eq, Structural)]
pub enum TokenClass {
    Identifier,
    ReservedWord,
    Literal,
    Delimiter,
    Op,
    Unknown,
}

/// One scanned token: its spelling and its class.
#[derive(Debug, Clone, PartialEq, Eq)]
pub struct Token {
    pub name: String,
    pub class: TokenClass,
}

/// The mathematical value of a token: its spelling as a character
/// sequence, and its class.
pub struct TokenView {
    pub name: Seq<char>,
    pub class: TokenClass,
}

impl View for Token {
    type V = TokenView;

    open spec fn view(&self) -> TokenView {
        TokenView { name: self.name@, class: self.class }
    }
}

/// The spellings of a token list, in order.
pub open spec fn views_of(s: Seq<Token>) -> Seq<TokenView> {
    s.map_values(|t: Token| t@)
}

/// The view of the placeholder token.
pub open spec fn empty_view() -> TokenView {
    TokenView { name: "Empty"@, class: TokenClass::Unknown }
}

/// The view of the synthetic start-of-input token.
pub open spec fn terminator_view() -> TokenView {
    TokenView { name: "Terminator"@, class: TokenClass::Delimiter }
}

/// The decimal digits of `n`, most significant first.
pub open spec fn dec_digits(n: nat) -> Seq<char>
    decreases n,
{
    if n < 10 {
        seq![digit_char(n)]
    } else {
        dec_digits(n / 10).push(digit_char(n % 10))
    }
}

/// The character for one decimal digit.
pub open spec fn digit_char(d: nat) -> char {
    if d == 0 {
        '0'
    } else if d == 1 {
        '1'
    } else if d == 2 {
        '2'
    } else if d == 3 {
        '3'
    } else if d == 4 {
        '4'
    } else if d == 5 {
        '5'
    } else if d == 6 {
        '6'
    } else if d == 7 {
        '7'
    } else if d == 8 {
        '8'
    } else {
        '9'
    }
}

/// The spelling of the `id`-th generated temporary.
pub open spec fn temp_name(id: nat) -> Seq<char> {
    "temp"@ + dec_digits(id)
}

/// The view of the `id`-th generated temporary token.
pub open spec fn temp_view(id: nat) -> TokenView {
    TokenView { name: temp_name(id), class: TokenClass::Identifier }
}

fn digit_str(d: u32) -> (r: &'static str)
    requires
        d < 10,
    ensures
        r@ == seq![digit_char(d as nat)],
{
    proof {
        reveal_strlit("0");
        reveal_strlit("1");
        reveal_strlit("2");
        reveal_strlit("3");
        reveal_strlit("4");
        reveal_strlit("5");
        reveal_strlit("6");
        reveal_strlit("7");
        reveal_strlit("8");
        reveal_strlit("9");
    }
    let r = match d {
        0 => "0",
        1 => "1",
        2 => "2",
        3 => "3",
        4 => "4",
        5 => "5",
        6 => "6",
        7 => "7",
        8 => "8",
        _ => "9",
    };
    proof {
        assert(r@ =~= seq![digit_char(d as nat)]);
    }
    r
}

/// Renders `n` in decimal.
pub fn dec_string(n: u32) -> (r: String)
    ensures
        r@ == dec_digits(n as nat),
    decreases n,
{
    if n < 10 {
        let s = String::from_str(digit_str(n));
        proof {
            assert(s@ =~= dec_digits(n as nat));
        }
        s
    } else {
        let mut s = dec_string(n / 10);
        s.append(digit_str(n % 10));
        proof {
            assert(s@ =~= dec_digits(n as nat));
        }
        s
    }
}

impl Token {
    /// The placeholder token: an unclassified token spelled `Empty`.
    pub fn empty() -> (t: Token)
        ensures
            t@ == empty_view(),
    {
        Token { name: String::from_str("Empty"), class: TokenClass::Unknown }
    }

    /// The synthetic token that marks the start of the input; it is the
    /// initial previous-operator cursor of a parse.
    pub fn terminator() -> (t: Token)
        ensures
            t@ == terminator_view(),
    {
        Token { name: String::from_str("Terminator"), class: TokenClass::Delimiter }
    }

    /// The `id`-th generated temporary: an identifier spelled `temp`
    /// followed by `id` in decimal.
    pub fn temp_gen(id: i32) -> (t: Token)
        requires
            id >= 0,
        ensures
            t@ == temp_view(id as nat),
    {
        let mut name = String::from_str("temp");
        let digits = dec_string(id as u32);
        name.append(digits.as_str());
        proof {
            assert(name@ == temp_name(id as nat));
        }
        Token { name, class: TokenClass::Identifier }
    }

    /// A structural copy of the token.
    pub fn duplicate(&self) -> (t: Token)
        ensures
            t == *self,
    {
        Token { name: self.name.clone(), class: self.class }
    }
}

/// Character-by-character string equality.
pub fn str_eq(a: &str, b: &str) -> (r: bool)
    ensures
        r == (a@ == b@),
{
    let alen = a.unicode_len();
    let blen = b.unicode_len();
    if alen != blen {
        return false;
    }
    let mut i: usize = 0;
    while i < alen
        invariant
            alen == a@.len(),
            blen == b@.len(),
            alen == blen,
            i <= alen,
            forall|i2: int| 0 <= i2 < i ==> a@[i2] == b@[i2],
        decreases alen - i,
    {
        if a.get_char(i) != b.get_char(i) {
            return false;
        }
        i += 1;
    }
    proof {
        assert(a@ =~= b@);
    }
    true
}

/// The number of grammar symbols the precedence tables are laid out
/// over: the twenty-three terminal spellings, and the reserved `Nil`
/// index `0` for everything else.
pub open spec fn symbol_count() -> int {
    24
}

/// The fixed mapping from a terminal spelling to its symbol index.
/// Spellings outside the table map to the reserved `Nil` index `0`.
pub open spec fn sym_idx(name: Seq<char>) -> int {
    if name == "="@ {
        1
    } else if name == "+"@ {
        2
    } else if name == "-"@ {
        3
    } else if name == "("@ {
        4
    } else if name == ")"@ {
        5
    } else if name == "*"@ {
        6
    } else if name == "/"@ {
        7
    } else if name == "IF"@ {
        8
    } else if name == "THEN"@ {
        9
    } else if name == "ODD"@ {
        10
    } else if name == "=="@ {
        11
    } else if name == "!="@ {
        12
    } else if name == ">"@ {
        13
    } else if name == "<"@ {
        14
    } else if name == ">="@ {
        15
    } else if name == "<="@ {
        16
    } else if name == "{"@ {
        17
    } else if name == "}"@ {
        18
    } else if name == "CLASS"@ {
        19
    } else if name == "VAR"@ {
        20
    } else if name == "CONST"@ {
        21
    } else if name == ";"@ {
        22
    } else if name == ","@ {
        23
    } else {
        0
    }
}

/// Looks a spelling up in the fixed symbol table.
pub fn symbol_index(name: &str) -> (i: usize)
    ensures
        i == sym_idx(name@),
        i < symbol_count(),
{
    if str_eq(name, "=") {
        1
    } else if str_eq(name, "+") {
        2
    } else if str_eq(name, "-") {
        3
    } else if str_eq(name, "(") {
        4
    } else if str_eq(name, ")") {
        5
    } else if str_eq(name, "*") {
        6
    } else if str_eq(name, "/") {
        7
    } else if str_eq(name, "IF") {
        8
    } else if str_eq(name, "THEN") {
        9
    } else if str_eq(name, "ODD") {
        10
    } else if str_eq(name, "==") {
        11
    } else if str_eq(name, "!=") {
        12
    } else if str_eq(name, ">") {
        13
    } else if str_eq(name, "<") {
        14
    } else if str_eq(name, ">=") {
        15
    } else if str_eq(name, "<=") {
        16
    } else if str_eq(name, "{") {
        17
    } else if str_eq(name, "}") {
        18
    } else if str_eq(name, "CLASS") {
        19
    } else if str_eq(name, "VAR") {
        20
    } else if str_eq(name, "CONST") {
        21
    } else if str_eq(name, ";") {
        22
    } else if str_eq(name, ",") {
        23
    } else {
        0
    }
}

} // verus!
