//! Loading relation matrices from their text form.
//!
//! The input is a sequence of blocks separated by blank lines.  Each
//! block is a `"<dim> <dim>"` line whose two numbers must be equal, a
//! matrix-name line matched case-insensitively, and `<dim>` rows of
//! space-separated `0`/`1` entries.  Handle construction reads FIRST,
//! FIRST TERM, LAST, LAST TERM and EQUAL; direct precedence loading
//! reads YIELDS, TAKES and EQUAL.

use vstd::prelude::*;

use crate::matrix::{mat_view, Matrix};
use crate::precedence::{OPG, SPG};

verus! {

/// A fault in the matrix text: a bad dimension line, unequal declared
/// dimensions, an unrecognized matrix name, or a row that is not made
/// of `0`/`1` entries of the declared width.
#[derive(Debug, Clone, Copy, PartialEq, Eq, Structural)]
pub enum LoadError {
    MalformedMatrixInput,
}

/// Which matrix a block carries.
#[derive(Debug, Clone, Copy, PartialEq, Eq, Structural)]
pub enum MatrixKind {
    First,
    FirstTerm,
    Last,
    LastTerm,
    Equal,
    Yields,
    Takes,
}

/// Which set of matrix names a load accepts.
#[derive(Debug, Clone, Copy, PartialEq, Eq, Structural)]
pub enum LoadMode {
    /// FIRST, FIRST TERM, LAST, LAST TERM, EQUAL.
    OpgHandles,
    /// FIRST, LAST, EQUAL.
    SpgHandles,
    /// YIELDS, TAKES, EQUAL.
    Direct,
}

/// The input split at every newline; the text after the last newline
/// is a line too, so the result is never empty.
pub open spec fn spec_lines(s: Seq<char>) -> Seq<Seq<char>>
    decreases s.len(),
{
    if s.len() == 0 {
        seq![Seq::empty()]
    } else if s[0] == '\n' {
        seq![Seq::<char>::empty()] + spec_lines(s.skip(1))
    } else {
        let rest = spec_lines(s.skip(1));
        seq![seq![s[0]] + rest[0]] + rest.skip(1)
    }
}

/// The views of a list of line slices.
pub open spec fn line_views(s: Seq<&str>) -> Seq<Seq<char>> {
    s.map_values(|x: &str| x@)
}

/// A segment without a newline, ended by a newline or the end of the
/// input, is the first line of the suffix it starts.
proof fn lemma_line_split(s: Seq<char>, i: int, j: int)
    requires
        0 <= i <= j <= s.len(),
        forall|k: int| i <= k < j ==> s[k] != '\n',
        j < s.len() ==> s[j] == '\n',
    ensures
        j < s.len() ==> spec_lines(s.skip(i)) == seq![s.subrange(i, j)] + spec_lines(
            s.skip(j + 1),
        ),
        j == s.len() ==> spec_lines(s.skip(i)) == seq![s.subrange(i, j)],
    decreases j - i,
{
    if i == j {
        if j < s.len() {
            assert(s.skip(i)[0] == s[i]);
            assert(s.skip(i).skip(1) =~= s.skip(j + 1));
            assert(seq![Seq::<char>::empty()] + spec_lines(s.skip(j + 1)) =~~= seq![s.subrange(
                i,
                j,
            )] + spec_lines(s.skip(j + 1)));
        } else {
            assert(s.skip(i) =~= Seq::<char>::empty());
            assert(spec_lines(s.skip(i)) =~~= seq![s.subrange(i, j)]);
        }
    } else {
        lemma_line_split(s, i + 1, j);
        assert(s.skip(i)[0] == s[i]);
        assert(s.skip(i).skip(1) =~= s.skip(i + 1));
        let rest = spec_lines(s.skip(i + 1));
        if j < s.len() {
            assert(rest[0] == s.subrange(i + 1, j));
            assert(rest.skip(1) =~= spec_lines(s.skip(j + 1)));
            assert(seq![s[i]] + s.subrange(i + 1, j) =~= s.subrange(i, j));
            assert(spec_lines(s.skip(i)) =~~= seq![s.subrange(i, j)] + spec_lines(s.skip(j + 1)));
        } else {
            assert(rest[0] == s.subrange(i + 1, j));
            assert(rest.skip(1) =~= Seq::<Seq<char>>::empty());
            assert(seq![s[i]] + s.subrange(i + 1, j) =~= s.subrange(i, j));
            assert(spec_lines(s.skip(i)) =~~= seq![s.subrange(i, j)]);
        }
    }
}

proof fn lemma_line_views_push(s: Seq<&str>, x: &str)
    ensures
        line_views(s.push(x)) == line_views(s).push(x@),
{
    assert(line_views(s.push(x)) =~= line_views(s).push(x@));
}

/// Splits the input into its lines.
pub fn split_lines<'a>(s: &'a str) -> (r: Vec<&'a str>)
    ensures
        line_views(r@) == spec_lines(s@),
{
    let n = s.unicode_len();
    let mut r: Vec<&'a str> = Vec::new();
    let mut i: usize = 0;
    proof {
        assert(s@.skip(0) =~= s@);
        assert(line_views(r@) =~= Seq::<Seq<char>>::empty());
    }
    loop
        invariant_except_break
            spec_lines(s@) == line_views(r@) + spec_lines(s@.skip(i as int)),
        invariant
            i <= n,
            n == s@.len(),
        ensures
            line_views(r@) == spec_lines(s@),
        decreases n - i,
    {
        let mut j: usize = i;
        while j < n && s.get_char(j) != '\n'
            invariant
                i <= j <= n,
                n == s@.len(),
                forall|k: int| i <= k < j ==> s@[k] != '\n',
            decreases n - j,
        {
            j += 1;
        }
        let line = s.substring_char(i, j);
        let ghost r_pre = r@;
        r.push(line);
        proof {
            lemma_line_views_push(r_pre, line);
            lemma_line_split(s@, i as int, j as int);
        }
        if j >= n {
            proof {
                assert(line_views(r@) =~~= line_views(r_pre) + spec_lines(s@.skip(i as int)));
                assert(line_views(r@) == spec_lines(s@));
            }
            break ;
        } else {
            proof {
                assert(line_views(r@) + spec_lines(s@.skip(j as int + 1)) =~~= line_views(r_pre)
                    + spec_lines(s@.skip(i as int)));
            }
            i = j + 1;
        }
    }
    r
}

/// A decimal digit.
pub open spec fn is_digit(c: char) -> bool {
    48 <= c as u32 <= 57
}

/// A non-empty run of decimal digits.
pub open spec fn is_digits(s: Seq<char>) -> bool {
    s.len() > 0 && forall|i: int| 0 <= i < s.len() ==> is_digit(#[trigger] s[i])
}

/// The number a run of decimal digits denotes.
pub open spec fn digits_val(s: Seq<char>) -> int
    decreases s.len(),
{
    if s.len() == 0 {
        0
    } else {
        digits_val(s.drop_last()) * 10 + (s.last() as u32 - 48)
    }
}

/// The position of the first space at or after `i`, or the length
/// where there is none.
pub open spec fn find_space(s: Seq<char>, i: int) -> int
    decreases s.len() - i,
{
    if i < 0 || i >= s.len() {
        s.len() as int
    } else if s[i] == ' ' {
        i
    } else {
        find_space(s, i + 1)
    }
}

/// What a dimension line denotes: two numbers separated by one space,
/// each fitting the machine, or nothing.
pub open spec fn spec_dims(line: Seq<char>) -> Option<(int, int)> {
    let k = find_space(line, 0);
    if k >= line.len() {
        None
    } else {
        let a = line.subrange(0, k);
        let b = line.subrange(k + 1, line.len() as int);
        if is_digits(a) && is_digits(b) && digits_val(a) <= usize::MAX && digits_val(b)
            <= usize::MAX {
            Some((digits_val(a), digits_val(b)))
        } else {
            None
        }
    }
}

proof fn lemma_find_space_bounds(s: Seq<char>, i: int)
    requires
        0 <= i <= s.len(),
    ensures
        i <= find_space(s, i) <= s.len(),
        find_space(s, i) < s.len() ==> s[find_space(s, i)] == ' ',
        forall|k: int| i <= k < find_space(s, i) ==> s[k] != ' ',
    decreases s.len() - i,
{
    if i < s.len() && s[i] != ' ' {
        lemma_find_space_bounds(s, i + 1);
    }
}

/// A scan that stopped at `k` pins down `find_space`.
pub proof fn lemma_find_space_pins(s: Seq<char>, k: int)
    requires
        0 <= k <= s.len(),
        forall|k2: int| 0 <= k2 < k ==> s[k2] != ' ',
        k < s.len() ==> s[k] == ' ',
    ensures
        find_space(s, 0) == k,
{
    lemma_find_space_bounds(s, 0);
    let f = find_space(s, 0);
    if f < k {
        assert(s[f] == ' ');
    }
    if f > k {
        assert(k < s.len());
    }
}

/// Parses a run of digits; the caller has already checked the shape.
fn parse_number(line: &str, from: usize, to: usize) -> (r: Option<usize>)
    requires
        from <= to <= line@.len(),
    ensures
        (match r {
            Some(v) => is_digits(line@.subrange(from as int, to as int)) && v == digits_val(
                line@.subrange(from as int, to as int),
            ),
            None => !(is_digits(line@.subrange(from as int, to as int)) && digits_val(
                line@.subrange(from as int, to as int),
            ) <= usize::MAX),
        }),
{
    if from == to {
        proof {
            assert(line@.subrange(from as int, to as int).len() == 0);
        }
        return None;
    }
    let mut val: usize = 0;
    let mut i: usize = from;
    while i < to
        invariant
            from <= i <= to,
            to <= line@.len(),
            from < to,
            is_digits(line@.subrange(from as int, i as int)) || i == from,
            val == digits_val(line@.subrange(from as int, i as int)),
        decreases to - i,
    {
        let c = line.get_char(i);
        let cv = c as u32;
        if cv < 48 || cv > 57 {
            proof {
                assert(line@.subrange(from as int, to as int)[i - from] == line@[i as int]);
                assert(!is_digits(line@.subrange(from as int, to as int)));
            }
            return None;
        }
        let d = (cv - 48) as usize;
        if val > (usize::MAX - d) / 10 {
            proof {
                let whole = line@.subrange(from as int, to as int);
                if is_digits(whole) {
                    let sub = line@.subrange(from as int, i as int + 1);
                    assert(sub.drop_last() =~= line@.subrange(from as int, i as int));
                    assert(sub.last() == line@[i as int]);
                    assert(val * 10 + d > usize::MAX) by (nonlinear_arith)
                        requires
                            val > (usize::MAX - d) / 10,
                            0 <= d < 10,
                    ;
                    assert(whole.subrange(0, i + 1 - from) =~= sub);
                    lemma_digits_val_grows(whole, i + 1 - from);
                    assert(digits_val(whole) > usize::MAX);
                }
            }
            return None;
        }
        val = val * 10 + d;
        proof {
            let sub = line@.subrange(from as int, i as int + 1);
            assert(sub.drop_last() =~= line@.subrange(from as int, i as int));
            assert(sub.last() == line@[i as int]);
            assert(forall|k: int| 0 <= k < sub.len() ==> is_digit(#[trigger] sub[k]));
        }
        i += 1;
    }
    proof {
        assert(line@.subrange(from as int, to as int) =~= line@.subrange(from as int, i as int));
    }
    Some(val)
}

/// Over digit characters, a longer prefix never denotes a smaller
/// number.
proof fn lemma_digits_val_grows(s: Seq<char>, i: int)
    requires
        0 <= i <= s.len(),
        forall|k: int| 0 <= k < s.len() ==> is_digit(#[trigger] s[k]),
    ensures
        digits_val(s.subrange(0, i)) <= digits_val(s),
        digits_val(s) >= 0,
    decreases s.len() - i,
{
    if i == s.len() {
        assert(s.subrange(0, i) =~= s);
        lemma_digits_val_nonneg(s);
    } else {
        lemma_digits_val_grows(s, i + 1);
        let a = s.subrange(0, i);
        let b = s.subrange(0, i + 1);
        assert(b.drop_last() =~= a);
        assert(forall|k: int| 0 <= k < a.len() ==> is_digit(#[trigger] a[k]));
        lemma_digits_val_nonneg(a);
        assert(is_digit(b.last()));
    }
}

proof fn lemma_digits_val_nonneg(s: Seq<char>)
    requires
        forall|k: int| 0 <= k < s.len() ==> is_digit(#[trigger] s[k]),
    ensures
        digits_val(s) >= 0,
    decreases s.len(),
{
    if s.len() > 0 {
        assert(forall|k: int| 0 <= k < s.len() - 1 ==> is_digit(#[trigger] s.drop_last()[k]));
        lemma_digits_val_nonneg(s.drop_last());
        assert(is_digit(s.last()));
    }
}

/// Parses a `"<dim> <dim>"` line.
pub fn parse_dims(line: &str) -> (r: Option<(usize, usize)>)
    ensures
        (match r {
            Some(v) => spec_dims(line@) == Some((v.0 as int, v.1 as int)),
            None => spec_dims(line@) is None,
        }),
{
    let n = line.unicode_len();
    let mut k: usize = 0;
    while k < n && line.get_char(k) != ' '
        invariant
            k <= n,
            n == line@.len(),
            forall|k2: int| 0 <= k2 < k ==> line@[k2] != ' ',
        decreases n - k,
    {
        k += 1;
    }
    proof {
        lemma_find_space_bounds(line@, 0);
        assert(find_space(line@, 0) == k) by {
            if k < n {
                assert(line@[k as int] == ' ');
            }
        }
    }
    if k >= n {
        return None;
    }
    let a = parse_number(line, 0, k);
    let b = parse_number(line, k + 1, n);
    match (a, b) {
        (Some(x), Some(y)) => Some((x, y)),
        _ => None,
    }
}

/// Case-insensitive equality against a lower-case name.
pub open spec fn name_matches(line: Seq<char>, name: Seq<char>) -> bool {
    line.len() == name.len() && forall|i: int|
        0 <= i < line.len() ==> char_ci_eq(#[trigger] line[i], name[i])
}

/// The line character equals the name character, directly or as its
/// upper-case form.
pub open spec fn char_ci_eq(c: char, d: char) -> bool {
    c == d || (65 <= c as u32 <= 90 && c as u32 + 32 == d as u32)
}

/// Compares a line against a lower-case name, ignoring ASCII case.
pub fn name_eq_ci(line: &str, name: &str) -> (r: bool)
    ensures
        r == name_matches(line@, name@),
{
    let n = line.unicode_len();
    if n != name.unicode_len() {
        return false;
    }
    let mut i: usize = 0;
    while i < n
        invariant
            i <= n,
            n == line@.len(),
            n == name@.len(),
            forall|i2: int| 0 <= i2 < i ==> char_ci_eq(#[trigger] line@[i2], name@[i2]),
        decreases n - i,
    {
        let c = line.get_char(i) as u32;
        let d = name.get_char(i) as u32;
        if !(c == d || (65 <= c && c <= 90 && c + 32 == d)) {
            proof {
                assert(!char_ci_eq(line@[i as int], name@[i as int])) by {
                    assert(line@[i as int] as u32 == c);
                    assert(name@[i as int] as u32 == d);
                    assert(line@[i as int] == name@[i as int] ==> c == d);
                }
            }
            return false;
        }
        proof {
            assert(char_ci_eq(line@[i as int], name@[i as int])) by {
                if c != d {
                    assert(line@[i as int] as u32 + 32 == name@[i as int] as u32);
                }
            }
        }
        i += 1;
    }
    true
}

/// Which matrix a name line announces, under the given mode.
pub open spec fn spec_name_kind(line: Seq<char>, mode: LoadMode) -> Option<MatrixKind> {
    match mode {
        LoadMode::OpgHandles => if name_matches(line, "first"@) {
            Some(MatrixKind::First)
        } else if name_matches(line, "first term"@) {
            Some(MatrixKind::FirstTerm)
        } else if name_matches(line, "last"@) {
            Some(MatrixKind::Last)
        } else if name_matches(line, "last term"@) {
            Some(MatrixKind::LastTerm)
        } else if name_matches(line, "equal"@) {
            Some(MatrixKind::Equal)
        } else {
            None
        },
        LoadMode::SpgHandles => if name_matches(line, "first"@) {
            Some(MatrixKind::First)
        } else if name_matches(line, "last"@) {
            Some(MatrixKind::Last)
        } else if name_matches(line, "equal"@) {
            Some(MatrixKind::Equal)
        } else {
            None
        },
        LoadMode::Direct => if name_matches(line, "yields"@) {
            Some(MatrixKind::Yields)
        } else if name_matches(line, "takes"@) {
            Some(MatrixKind::Takes)
        } else if name_matches(line, "equal"@) {
            Some(MatrixKind::Equal)
        } else {
            None
        },
    }
}

/// Looks a name line up under the given mode.
pub fn name_kind(line: &str, mode: LoadMode) -> (r: Option<MatrixKind>)
    ensures
        r == spec_name_kind(line@, mode),
{
    match mode {
        LoadMode::OpgHandles => {
            if name_eq_ci(line, "first") {
                Some(MatrixKind::First)
            } else if name_eq_ci(line, "first term") {
                Some(MatrixKind::FirstTerm)
            } else if name_eq_ci(line, "last") {
                Some(MatrixKind::Last)
            } else if name_eq_ci(line, "last term") {
                Some(MatrixKind::LastTerm)
            } else if name_eq_ci(line, "equal") {
                Some(MatrixKind::Equal)
            } else {
                None
            }
        },
        LoadMode::SpgHandles => {
            if name_eq_ci(line, "first") {
                Some(MatrixKind::First)
            } else if name_eq_ci(line, "last") {
                Some(MatrixKind::Last)
            } else if name_eq_ci(line, "equal") {
                Some(MatrixKind::Equal)
            } else {
                None
            }
        },
        LoadMode::Direct => {
            if name_eq_ci(line, "yields") {
                Some(MatrixKind::Yields)
            } else if name_eq_ci(line, "takes") {
                Some(MatrixKind::Takes)
            } else if name_eq_ci(line, "equal") {
                Some(MatrixKind::Equal)
            } else {
                None
            }
        },
    }
}

/// What a row line denotes: its `0`/`1` entries, read left to right
/// with spaces between and around them, or nothing where any other
/// character occurs.
pub open spec fn spec_row(line: Seq<char>, i: int) -> Option<Seq<bool>>
    decreases line.len() - i,
{
    if i < 0 || i >= line.len() {
        Some(Seq::empty())
    } else if line[i] == ' ' {
        spec_row(line, i + 1)
    } else if (line[i] == '0' || line[i] == '1') && (i + 1 >= line.len() || line[i + 1] == ' ') {
        match spec_row(line, i + 1) {
            Option::None => Option::None,
            Option::Some(rest) => Option::Some(seq![line[i] == '1'] + rest),
        }
    } else {
        None
    }
}

/// Parses one row of space-separated `0`/`1` entries.
pub fn parse_row(line: &str) -> (r: Option<Vec<bool>>)
    ensures
        (match r {
            Some(v) => spec_row(line@, 0) == Some(v.deep_view()),
            None => spec_row(line@, 0) is None,
        }),
{
    let n = line.unicode_len();
    let mut v: Vec<bool> = Vec::new();
    let mut i: usize = 0;
    proof {
        assert(v.deep_view() =~= Seq::<bool>::empty());
    }
    while i < n
        invariant
            i <= n,
            n == line@.len(),
            (match spec_row(line@, 0) {
                Option::None => spec_row(line@, i as int) is None,
                Option::Some(all) => (match spec_row(line@, i as int) {
                    Option::None => false,
                    Option::Some(rest) => all == v.deep_view() + rest,
                }),
            }),
        decreases n - i,
    {
        let ghost here = spec_row(line@, i as int);
        let c = line.get_char(i);
        if c == ' ' {
            i += 1;
        } else if c == '0' || c == '1' {
            if i + 1 < n && line.get_char(i + 1) != ' ' {
                return None;
            }
            let ghost v_pre = v.deep_view();
            v.push(c == '1');
            proof {
                assert(v.deep_view() =~= v_pre.push(line@[i as int] == '1'));
                if spec_row(line@, i as int + 1) is Some {
                    let rest = spec_row(line@, i as int + 1)->Some_0;
                    assert(v_pre + (seq![line@[i as int] == '1'] + rest) =~= v.deep_view()
                        + rest);
                }
            }
            i += 1;
        } else {
            return None;
        }
    }
    proof {
        assert(v.deep_view() + Seq::<bool>::empty() =~= v.deep_view());
    }
    Some(v)
}


/// The rows of one block: `d` consecutive lines, each denoting a row
/// of exactly `w` entries.
pub open spec fn spec_block_rows(ls: Seq<Seq<char>>, i: int, d: int, w: int) -> Option<
    Seq<Seq<bool>>,
>
    decreases d,
{
    if d <= 0 {
        Some(Seq::empty())
    } else {
        match spec_row(ls[i], 0) {
            Option::None => Option::None,
            Option::Some(row) => {
                if row.len() != w {
                    Option::None
                } else {
                    match spec_block_rows(ls, i + 1, d - 1, w) {
                        Option::None => Option::None,
                        Option::Some(rest) => Option::Some(seq![row] + rest),
                    }
                }
            },
        }
    }
}

/// The blocks the lines denote, in order: blank lines are skipped;
/// each block is a square dimension line, a recognized name, and its
/// rows; anything else is a fault.
pub open spec fn spec_blocks(ls: Seq<Seq<char>>, li: int, mode: LoadMode) -> Option<
    Seq<(MatrixKind, Seq<Seq<bool>>)>,
>
    decreases ls.len() - li,
{
    if li < 0 || li >= ls.len() {
        Some(Seq::empty())
    } else if ls[li].len() == 0 {
        spec_blocks(ls, li + 1, mode)
    } else {
        match spec_dims(ls[li]) {
            Option::None => Option::None,
            Option::Some(dims) => {
                if dims.0 != dims.1 || dims.0 < 0 || li + 2 + dims.0 > ls.len() {
                    Option::None
                } else {
                    match spec_name_kind(ls[li + 1], mode) {
                        Option::None => Option::None,
                        Option::Some(kind) => match spec_block_rows(
                            ls,
                            li + 2,
                            dims.0,
                            dims.0,
                        ) {
                            Option::None => Option::None,
                            Option::Some(rows) => match spec_blocks(ls, li + 2 + dims.0, mode) {
                                Option::None => Option::None,
                                Option::Some(rest) => Option::Some(seq![(kind, rows)] + rest),
                            },
                        },
                    }
                }
            },
        }
    }
}

/// The views of parsed blocks.
pub open spec fn block_views(s: Seq<(MatrixKind, Matrix)>) -> Seq<(MatrixKind, Seq<Seq<bool>>)> {
    s.map_values(|b: (MatrixKind, Matrix)| (b.0, mat_view(&b.1)))
}

/// The content of the last block of a kind, where one occurs.
pub open spec fn last_of(blocks: Seq<(MatrixKind, Seq<Seq<bool>>)>, kind: MatrixKind) -> Option<
    Seq<Seq<bool>>,
>
    decreases blocks.len(),
{
    if blocks.len() == 0 {
        None
    } else if blocks.last().0 == kind {
        Some(blocks.last().1)
    } else {
        last_of(blocks.drop_last(), kind)
    }
}

/// A field after loading: overwritten by the last block of its kind,
/// untouched where the input carries none.
pub open spec fn assigned(now: Matrix, pre: Matrix, v: Option<Seq<Seq<bool>>>) -> bool {
    match v {
        Option::None => now == pre,
        Option::Some(m) => mat_view(&now) == m,
    }
}

proof fn lemma_last_of_cons(
    b: (MatrixKind, Seq<Seq<bool>>),
    t: Seq<(MatrixKind, Seq<Seq<bool>>)>,
    k: MatrixKind,
)
    ensures
        last_of(seq![b] + t, k) == (if last_of(t, k) is Some {
            last_of(t, k)
        } else if b.0 == k {
            Some(b.1)
        } else {
            None
        }),
    decreases t.len(),
{
    if t.len() == 0 {
        assert(seq![b] + t =~= seq![b]);
        assert((seq![b]).last() == b);
    } else {
        assert((seq![b] + t).last() == t.last());
        assert((seq![b] + t).drop_last() =~= seq![b] + t.drop_last());
        lemma_last_of_cons(b, t.drop_last(), k);
    }
}

proof fn lemma_block_views_push(s: Seq<(MatrixKind, Matrix)>, b: (MatrixKind, Matrix))
    ensures
        block_views(s.push(b)) == block_views(s).push((b.0, mat_view(&b.1))),
{
    assert(block_views(s.push(b)) =~= block_views(s).push((b.0, mat_view(&b.1))));
}

/// Parses the whole input into its blocks.
fn parse_blocks(src: &str, mode: LoadMode) -> (r: Result<Vec<(MatrixKind, Matrix)>, LoadError>)
    ensures
        (match spec_blocks(spec_lines(src@), 0, mode) {
            Option::None => r == Err::<Vec<(MatrixKind, Matrix)>, LoadError>(
                LoadError::MalformedMatrixInput,
            ),
            Option::Some(bs) => r is Ok && block_views(r->Ok_0@) == bs,
        }),
{
    let lines = split_lines(src);
    let ghost lv = line_views(lines@);
    let ghost target = spec_blocks(lv, 0, mode);
    let mut blocks: Vec<(MatrixKind, Matrix)> = Vec::new();
    let mut li: usize = 0;
    let n = lines.len();
    proof {
        assert(block_views(blocks@) =~= Seq::<(MatrixKind, Seq<Seq<bool>>)>::empty());
    }
    while li < n
        invariant
            li <= n,
            n == lines@.len(),
            lv == line_views(lines@),
            lv == spec_lines(src@),
            target == spec_blocks(lv, 0, mode),
            (match target {
                Option::None => spec_blocks(lv, li as int, mode) is None,
                Option::Some(all) => (match spec_blocks(lv, li as int, mode) {
                    Option::None => false,
                    Option::Some(rest) => all == block_views(blocks@) + rest,
                }),
            }),
        decreases n - li,
    {
        let ghost s_here = spec_blocks(lv, li as int, mode);
        let line = lines[li];
        proof {
            assert(lv[li as int] == line@);
        }
        if line.unicode_len() == 0 {
            li += 1;
        } else {
            let dims = match parse_dims(line) {
                Some(v) => v,
                None => {
                    return Err(LoadError::MalformedMatrixInput);
                },
            };
            if dims.0 != dims.1 {
                return Err(LoadError::MalformedMatrixInput);
            }
            let d = dims.0;
            let rem = n - li;
            if rem < 2 || d > rem - 2 {
                proof {
                    assert(li as int + 2 + d > lv.len());
                }
                return Err(LoadError::MalformedMatrixInput);
            }
            proof {
                assert(li as int + 2 + d <= lv.len());
                assert(lv[li as int + 1] == lines@[li as int + 1]@);
            }
            let kind = match name_kind(lines[li + 1], mode) {
                Some(k) => k,
                None => {
                    return Err(LoadError::MalformedMatrixInput);
                },
            };
            let ghost target_rows = spec_block_rows(lv, li as int + 2, d as int, d as int);
            let mut rows: Matrix = Vec::new();
            let mut row_i: usize = 0;
            proof {
                assert(mat_view(&rows) =~= Seq::<Seq<bool>>::empty());
            }
            while row_i < d
                invariant
                    row_i <= d,
                    li < n,
                    li + 2 + d <= n,
                    n == lines@.len(),
                    lv == line_views(lines@),
                    lv == spec_lines(src@),
                    target == spec_blocks(lv, 0, mode),
                    lv[li as int].len() != 0,
                    spec_dims(lv[li as int]) == Some((d as int, d as int)),
                    spec_name_kind(lv[li as int + 1], mode) == Some(kind),
                    (match target {
                        Option::None => spec_blocks(lv, li as int, mode) is None,
                        Option::Some(all) => (match spec_blocks(lv, li as int, mode) {
                            Option::None => false,
                            Option::Some(rest) => all == block_views(blocks@) + rest,
                        }),
                    }),
                    target_rows == spec_block_rows(lv, li as int + 2, d as int, d as int),
                    rows@.len() == row_i,
                    (match target_rows {
                        Option::None => spec_block_rows(
                            lv,
                            li as int + 2 + row_i,
                            d - row_i,
                            d as int,
                        ) is None,
                        Option::Some(all) => (match spec_block_rows(
                            lv,
                            li as int + 2 + row_i,
                            d - row_i,
                            d as int,
                        ) {
                            Option::None => false,
                            Option::Some(rest) => all == mat_view(&rows) + rest,
                        }),
                    }),
                decreases d - row_i,
            {
                proof {
                    assert(lv[li as int + 2 + row_i] == lines@[li as int + 2 + row_i]@);
                }
                let row = match parse_row(lines[li + 2 + row_i]) {
                    Some(v) => v,
                    None => {
                        return Err(LoadError::MalformedMatrixInput);
                    },
                };
                if row.len() != d {
                    proof {
                        assert(row.deep_view().len() == row@.len());
                    }
                    return Err(LoadError::MalformedMatrixInput);
                }
                let ghost rows_pre = mat_view(&rows);
                let ghost rv = row.deep_view();
                proof {
                    assert(rv.len() == row@.len());
                }
                rows.push(row);
                proof {
                    assert(mat_view(&rows) =~~= rows_pre.push(rv));
                    if spec_block_rows(lv, li as int + 2 + row_i + 1, d - row_i - 1, d as int)
                        is Some {
                        let rest = spec_block_rows(
                            lv,
                            li as int + 2 + row_i + 1,
                            d - row_i - 1,
                            d as int,
                        )->Some_0;
                        assert(rows_pre + (seq![rv] + rest) =~= mat_view(&rows) + rest);
                    }
                }
                row_i += 1;
            }
            proof {
                assert(mat_view(&rows) + Seq::<Seq<bool>>::empty() =~= mat_view(&rows));
            }
            let ghost blocks_pre = blocks@;
            let ghost rows_view = mat_view(&rows);
            blocks.push((kind, rows));
            proof {
                lemma_block_views_push(blocks_pre, blocks@.last());
                assert(mat_view(&blocks@.last().1) == rows_view);
                if spec_blocks(lv, li as int + 2 + d, mode) is Some {
                    let rest = spec_blocks(lv, li as int + 2 + d, mode)->Some_0;
                    assert(block_views(blocks_pre) + (seq![(kind, rows_view)] + rest)
                        =~= block_views(blocks@) + rest);
                }
            }
            li = li + 2 + d;
        }
    }
    proof {
        assert(block_views(blocks@) + Seq::<(MatrixKind, Seq<Seq<bool>>)>::empty()
            =~= block_views(blocks@));
    }
    Ok(blocks)
}

impl OPG {
    /// Loads matrices from their text form: the five source matrices
    /// for handle construction, or YIELDS, TAKES and EQUAL directly.
    /// The last block of a kind wins; the dimension is taken from the
    /// last block.  On a fault nothing changes.
    pub fn parse_input(&mut self, src: &str, compute_handles: bool) -> (r: Result<(), LoadError>)
        ensures
            final(self).rtc == old(self).rtc,
            final(self).f == old(self).f,
            final(self).g == old(self).g,
            ({
                let mode = if compute_handles {
                    LoadMode::OpgHandles
                } else {
                    LoadMode::Direct
                };
                match spec_blocks(spec_lines(src@), 0, mode) {
                    Option::None => r == Err::<(), LoadError>(LoadError::MalformedMatrixInput)
                        && *final(self) == *old(self),
                    Option::Some(bs) => {
                        &&& r == Ok::<(), LoadError>(())
                        &&& assigned(final(self).first, old(self).first, last_of(bs, MatrixKind::First))
                        &&& assigned(final(self).first_term, old(self).first_term, last_of(bs, MatrixKind::FirstTerm))
                        &&& assigned(final(self).last, old(self).last, last_of(bs, MatrixKind::Last))
                        &&& assigned(final(self).last_term, old(self).last_term, last_of(bs, MatrixKind::LastTerm))
                        &&& assigned(final(self).equal, old(self).equal, last_of(bs, MatrixKind::Equal))
                        &&& assigned(final(self).yields, old(self).yields, last_of(bs, MatrixKind::Yields))
                        &&& assigned(final(self).takes, old(self).takes, last_of(bs, MatrixKind::Takes))
                        &&& (bs.len() == 0 ==> final(self).m_dimension == old(self).m_dimension)
                        &&& (bs.len() > 0 ==> final(self).m_dimension == bs.last().1.len())
                    },
                }
            }),
    {
        let mode = if compute_handles {
            LoadMode::OpgHandles
        } else {
            LoadMode::Direct
        };
        let mut blocks = match parse_blocks(src, mode) {
            Ok(v) => v,
            Err(e) => {
                return Err(e);
            },
        };
        let ghost bviews = block_views(blocks@);
        let total_count = blocks.len();
        let ghost total = total_count as int;
        let mut done: usize = 0;
        proof {
            assert(bviews.take(0) =~= Seq::<(MatrixKind, Seq<Seq<bool>>)>::empty());
            assert(bviews.skip(0) =~= bviews);
        }
        while blocks.len() > 0
            invariant
                done as int + blocks@.len() == total,
                total <= usize::MAX,
                bviews.len() == total,
                bviews.skip(done as int) == block_views(blocks@),
                assigned(self.first, old(self).first, last_of(bviews.take(done as int), MatrixKind::First)),
                assigned(self.first_term, old(self).first_term, last_of(bviews.take(done as int), MatrixKind::FirstTerm)),
                assigned(self.last, old(self).last, last_of(bviews.take(done as int), MatrixKind::Last)),
                assigned(self.last_term, old(self).last_term, last_of(bviews.take(done as int), MatrixKind::LastTerm)),
                assigned(self.equal, old(self).equal, last_of(bviews.take(done as int), MatrixKind::Equal)),
                assigned(self.yields, old(self).yields, last_of(bviews.take(done as int), MatrixKind::Yields)),
                assigned(self.takes, old(self).takes, last_of(bviews.take(done as int), MatrixKind::Takes)),
                self.rtc == old(self).rtc,
                self.f == old(self).f,
                self.g == old(self).g,
                done == 0 ==> self.m_dimension == old(self).m_dimension,
                done > 0 ==> self.m_dimension == bviews[done as int - 1].1.len(),
            decreases blocks@.len(),
        {
            let ghost blocks_pre = blocks@;
            let b = blocks.remove(0);
            let ghost bv = (b.0, mat_view(&b.1));
            proof {
                assert(block_views(blocks_pre)[0] == bv);
                assert(bviews[done as int] == bv);
                assert(block_views(blocks@) =~= block_views(blocks_pre).skip(1));
                assert(bviews.skip(done as int + 1) =~= block_views(blocks_pre).skip(1));
                assert(bviews.take(done as int + 1) =~= bviews.take(done as int).push(bv));
                assert(bviews.take(done as int + 1).last() == bv);
                assert(bviews.take(done as int + 1).drop_last() =~= bviews.take(done as int));
            }
            self.m_dimension = b.1.len();
            match b.0 {
                MatrixKind::First => {
                    self.first = b.1;
                },
                MatrixKind::FirstTerm => {
                    self.first_term = b.1;
                },
                MatrixKind::Last => {
                    self.last = b.1;
                },
                MatrixKind::LastTerm => {
                    self.last_term = b.1;
                },
                MatrixKind::Equal => {
                    self.equal = b.1;
                },
                MatrixKind::Yields => {
                    self.yields = b.1;
                },
                MatrixKind::Takes => {
                    self.takes = b.1;
                },
            }
            done += 1;
        }
        proof {
            assert(bviews.take(total) =~= bviews);
            if total > 0 {
                assert(bviews[total - 1] == bviews.last());
            }
        }
        Ok(())
    }
}


impl SPG {
    /// Loads matrices from their text form: FIRST, LAST and EQUAL for
    /// handle construction, or YIELDS, TAKES and EQUAL directly.  The
    /// last block of a kind wins; the dimension is taken from the last
    /// block.  On a fault nothing changes.
    pub fn parse_input(&mut self, src: &str, compute_handles: bool) -> (r: Result<(), LoadError>)
        ensures
            final(self).rtc == old(self).rtc,
            final(self).f == old(self).f,
            final(self).g == old(self).g,
            ({
                let mode = if compute_handles {
                    LoadMode::SpgHandles
                } else {
                    LoadMode::Direct
                };
                match spec_blocks(spec_lines(src@), 0, mode) {
                    Option::None => r == Err::<(), LoadError>(LoadError::MalformedMatrixInput)
                        && *final(self) == *old(self),
                    Option::Some(bs) => {
                        &&& r == Ok::<(), LoadError>(())
                        &&& assigned(final(self).first, old(self).first, last_of(bs, MatrixKind::First))
                        &&& assigned(final(self).last, old(self).last, last_of(bs, MatrixKind::Last))
                        &&& assigned(final(self).equal, old(self).equal, last_of(bs, MatrixKind::Equal))
                        &&& assigned(final(self).yields, old(self).yields, last_of(bs, MatrixKind::Yields))
                        &&& assigned(final(self).takes, old(self).takes, last_of(bs, MatrixKind::Takes))
                        &&& (bs.len() == 0 ==> final(self).m_dimension == old(self).m_dimension)
                        &&& (bs.len() > 0 ==> final(self).m_dimension == bs.last().1.len())
                    },
                }
            }),
    {
        let mode = if compute_handles {
            LoadMode::SpgHandles
        } else {
            LoadMode::Direct
        };
        let mut blocks = match parse_blocks(src, mode) {
            Ok(v) => v,
            Err(e) => {
                return Err(e);
            },
        };
        let ghost bviews = block_views(blocks@);
        let total_count = blocks.len();
        let ghost total = total_count as int;
        let mut done: usize = 0;
        proof {
            assert(bviews.take(0) =~= Seq::<(MatrixKind, Seq<Seq<bool>>)>::empty());
            assert(bviews.skip(0) =~= bviews);
        }
        while blocks.len() > 0
            invariant
                done as int + blocks@.len() == total,
                total <= usize::MAX,
                bviews.len() == total,
                bviews.skip(done as int) == block_views(blocks@),
                assigned(self.first, old(self).first, last_of(bviews.take(done as int), MatrixKind::First)),
                assigned(self.last, old(self).last, last_of(bviews.take(done as int), MatrixKind::Last)),
                assigned(self.equal, old(self).equal, last_of(bviews.take(done as int), MatrixKind::Equal)),
                assigned(self.yields, old(self).yields, last_of(bviews.take(done as int), MatrixKind::Yields)),
                assigned(self.takes, old(self).takes, last_of(bviews.take(done as int), MatrixKind::Takes)),
                self.rtc == old(self).rtc,
                self.f == old(self).f,
                self.g == old(self).g,
                done == 0 ==> self.m_dimension == old(self).m_dimension,
                done > 0 ==> self.m_dimension == bviews[done as int - 1].1.len(),
            decreases blocks@.len(),
        {
            let ghost blocks_pre = blocks@;
            let b = blocks.remove(0);
            let ghost bv = (b.0, mat_view(&b.1));
            proof {
                assert(block_views(blocks_pre)[0] == bv);
                assert(bviews[done as int] == bv);
                assert(block_views(blocks@) =~= block_views(blocks_pre).skip(1));
                assert(bviews.skip(done as int + 1) =~= block_views(blocks_pre).skip(1));
                assert(bviews.take(done as int + 1) =~= bviews.take(done as int).push(bv));
                assert(bviews.take(done as int + 1).last() == bv);
                assert(bviews.take(done as int + 1).drop_last() =~= bviews.take(done as int));
            }
            self.m_dimension = b.1.len();
            match b.0 {
                MatrixKind::First => {
                    self.first = b.1;
                },
                MatrixKind::Last => {
                    self.last = b.1;
                },
                MatrixKind::Equal => {
                    self.equal = b.1;
                },
                MatrixKind::Yields => {
                    self.yields = b.1;
                },
                MatrixKind::Takes => {
                    self.takes = b.1;
                },
                _ => {},
            }
            done += 1;
        }
        proof {
            assert(bviews.take(total) =~= bviews);
            if total > 0 {
                assert(bviews[total - 1] == bviews.last());
            }
        }
        Ok(())
    }
}

} // verus!
