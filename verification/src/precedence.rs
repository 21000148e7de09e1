//! Precedence-function construction.
//!
//! The relation matrices YIELDS, TAKES and EQUAL are folded into a
//! doubled graph `B` over `2N` nodes: nodes `[0, N)` are the `f`-side
//! copies of the symbols, nodes `[N, 2N)` the `g`-side copies.  An edge
//! runs from `f(a)` to `g(b)` where `a` takes or equals `b`, and from
//! `g(b)` to `f(a)` where `a` yields or equals `b`.  The
//! reflexive-transitive closure of `B` is then compressed into the two
//! integer arrays `f` and `g` by counting the reachable nodes of each
//! row: comparing `f[a]` with `g[b]` reproduces the source relation
//! wherever the closure has no path back against the edge.

use vstd::prelude::*;

use crate::matrix::{
    is_square, mat_closure, mat_identity, mat_product, mat_sum, mat_transpose, mat_view,
    product, reach, sum, transitive_closure, transpose, create_identity, Matrix,
};
use crate::matrix::{lemma_reach_contains, lemma_reach_trans};

verus! {

/// The doubled graph `B` over `2n` nodes built from the three relation
/// matrices: `B[a][n+b]` where `a` takes or equals `b`, and
/// `B[n+b][a]` where `a` yields or equals `b`.
pub open spec fn b_graph(
    takes: Seq<Seq<bool>>,
    yields: Seq<Seq<bool>>,
    equal: Seq<Seq<bool>>,
    n: nat,
) -> Seq<Seq<bool>> {
    Seq::new(
        2 * n,
        |r: int|
            Seq::new(
                2 * n,
                |c: int|
                    if r < n && c >= n {
                        takes[r][c - n] || equal[r][c - n]
                    } else if r >= n && c < n {
                        yields[c][r - n] || equal[c][r - n]
                    } else {
                        false
                    },
            ),
    )
}

/// The reflexive-transitive closure of the doubled graph.
pub open spec fn rtc_of(
    takes: Seq<Seq<bool>>,
    yields: Seq<Seq<bool>>,
    equal: Seq<Seq<bool>>,
    n: nat,
) -> Seq<Seq<bool>> {
    mat_sum(mat_closure(b_graph(takes, yields, equal, n)), mat_identity(2 * n))
}

/// How many entries of a row are true.
pub open spec fn count_true(row: Seq<bool>) -> int
    decreases row.len(),
{
    if row.len() == 0 {
        0
    } else {
        count_true(row.drop_last()) + if row.last() {
            1int
        } else {
            0int
        }
    }
}

/// What the compression step leaves behind: each `f` entry counts the
/// true entries of the matching upper row of the closure, each `g`
/// entry those of the matching lower row.
pub open spec fn precedence_functions_of(rtc: Seq<Seq<bool>>, f: Seq<i32>, g: Seq<i32>) -> bool {
    let n = rtc.len() / 2;
    &&& f.len() == n
    &&& g.len() == n
    &&& forall|a: int| 0 <= a < n ==> #[trigger] f[a] == count_true(rtc[a])
    &&& forall|b: int| 0 <= b < n ==> #[trigger] g[b] == count_true(rtc[n + b])
}

/// A row with at most the entries of another has at most its count.
proof fn lemma_count_subset(r1: Seq<bool>, r2: Seq<bool>)
    requires
        r1.len() == r2.len(),
        forall|j: int| 0 <= j < r1.len() && r1[j] ==> r2[j],
    ensures
        count_true(r1) <= count_true(r2),
    decreases r1.len(),
{
    if r1.len() > 0 {
        lemma_count_subset(r1.drop_last(), r2.drop_last());
    }
}

/// A row with at most the entries of another, and strictly missing one
/// of them, has a strictly smaller count.
proof fn lemma_count_strict(r1: Seq<bool>, r2: Seq<bool>, w: int)
    requires
        r1.len() == r2.len(),
        forall|j: int| 0 <= j < r1.len() && r1[j] ==> r2[j],
        0 <= w < r1.len(),
        r2[w],
        !r1[w],
    ensures
        count_true(r1) < count_true(r2),
    decreases r1.len(),
{
    if w == r1.len() - 1 {
        lemma_count_subset(r1.drop_last(), r2.drop_last());
    } else {
        lemma_count_strict(r1.drop_last(), r2.drop_last(), w);
    }
}

/// Builds the doubled graph, closes it, and adds the diagonal.
fn build_rtc(takes: &Matrix, yields: &Matrix, equal: &Matrix, n: usize) -> (r: Matrix)
    requires
        is_square(mat_view(takes)),
        is_square(mat_view(yields)),
        is_square(mat_view(equal)),
        takes@.len() == n,
        yields@.len() == n,
        equal@.len() == n,
        n <= 0x3FFF_FFFFusize,
    ensures
        mat_view(&r) == rtc_of(mat_view(takes), mat_view(yields), mat_view(equal), n as nat),
{
    let ghost tv = mat_view(takes);
    let ghost yv = mat_view(yields);
    let ghost ev = mat_view(equal);
    let ghost bg = b_graph(tv, yv, ev, n as nat);
    let bn = 2 * n;
    let mut b: Matrix = Vec::new();
    let mut r: usize = 0;
    while r < bn
        invariant
            r <= bn,
            bn == 2 * n,
            tv == mat_view(takes),
            yv == mat_view(yields),
            ev == mat_view(equal),
            bg == b_graph(tv, yv, ev, n as nat),
            is_square(tv),
            is_square(yv),
            is_square(ev),
            tv.len() == n,
            yv.len() == n,
            ev.len() == n,
            b@.len() == r,
            forall|r2: int| 0 <= r2 < r ==> (#[trigger] b@[r2])@ == bg[r2],
        decreases bn - r,
    {
        let mut row: Vec<bool> = Vec::new();
        let mut c: usize = 0;
        while c < bn
            invariant
                c <= bn,
                r < bn,
                bn == 2 * n,
                tv == mat_view(takes),
                yv == mat_view(yields),
                ev == mat_view(equal),
                bg == b_graph(tv, yv, ev, n as nat),
                is_square(tv),
                is_square(yv),
                is_square(ev),
                tv.len() == n,
                yv.len() == n,
                ev.len() == n,
                row@.len() == c,
                forall|c2: int| 0 <= c2 < c ==> row@[c2] == bg[r as int][c2],
            decreases bn - c,
        {
            let val: bool = if r < n && c >= n {
                proof {
                    assert(tv[r as int] == takes@[r as int]@);
                    assert(ev[r as int] == equal@[r as int]@);
                }
                takes[r][c - n] || equal[r][c - n]
            } else if r >= n && c < n {
                proof {
                    assert(yv[c as int] == yields@[c as int]@);
                    assert(ev[c as int] == equal@[c as int]@);
                }
                yields[c][r - n] || equal[c][r - n]
            } else {
                false
            };
            proof {
                assert(val == bg[r as int][c as int]);
            }
            row.push(val);
            c += 1;
        }
        proof {
            assert(row@ =~= bg[r as int]);
        }
        b.push(row);
        r += 1;
    }
    proof {
        assert(mat_view(&b) =~~= bg);
        assert(is_square(bg));
    }
    let closed = transitive_closure(&b);
    let ident = create_identity(bn);
    proof {
        assert(is_square(mat_closure(bg)));
        assert(is_square(mat_identity(bn as nat)));
        assert(mat_closure(bg).len() == bn);
        assert(mat_identity(bn as nat).len() == bn);
    }
    let summed = match sum(&closed, &ident) {
        Ok(v) => v,
        Err(_) => {
            proof {
                assert(false);
            }
            Vec::new()
        },
    };
    summed
}

/// Counts the true entries of each closure row: the upper rows give
/// `f`, the lower rows give `g`.
fn popcounts(rtc: &Matrix, n: usize) -> (r: (Vec<i32>, Vec<i32>))
    requires
        rtc@.len() == 2 * n,
        is_square(mat_view(rtc)),
        2 * n <= 0x7FFF_FFFFusize,
    ensures
        precedence_functions_of(mat_view(rtc), r.0@, r.1@),
{
    let ghost rv = mat_view(rtc);
    let bn = 2 * n;
    let mut f: Vec<i32> = Vec::new();
    let mut g: Vec<i32> = Vec::new();
    let mut row: usize = 0;
    while row < bn
        invariant
            row <= bn,
            bn == 2 * n,
            2 * n <= 0x7FFF_FFFFusize,
            rv == mat_view(rtc),
            rv.len() == bn,
            is_square(rv),
            f@.len() == if row <= n {
                row as int
            } else {
                n as int
            },
            g@.len() == if row <= n {
                0int
            } else {
                row - n
            },
            forall|a: int| 0 <= a < f@.len() ==> #[trigger] f@[a] == count_true(rv[a]),
            forall|b: int| 0 <= b < g@.len() ==> #[trigger] g@[b] == count_true(rv[n + b]),
        decreases bn - row,
    {
        let mut count: i32 = 0;
        let mut col: usize = 0;
        proof {
            assert(rv[row as int] == rtc@[row as int]@);
            assert(rv[row as int].len() == bn);
        }
        while col < bn
            invariant
                col <= bn,
                row < bn,
                bn == 2 * n,
                2 * n <= 0x7FFF_FFFFusize,
                rv == mat_view(rtc),
                rv.len() == bn,
                is_square(rv),
                rv[row as int] == rtc@[row as int]@,
                rv[row as int].len() == bn,
                count == count_true(rv[row as int].subrange(0, col as int)),
                count <= col,
            decreases bn - col,
        {
            let ghost pre = rv[row as int].subrange(0, col as int);
            let ghost post = rv[row as int].subrange(0, col as int + 1);
            proof {
                assert(post.drop_last() =~= pre);
                assert(post.last() == rv[row as int][col as int]);
            }
            if rtc[row][col] {
                count += 1;
            }
            col += 1;
        }
        proof {
            assert(rv[row as int].subrange(0, bn as int) =~= rv[row as int]);
        }
        if row < n {
            f.push(count);
        } else {
            g.push(count);
        }
        row += 1;
    }
    (f, g)
}


/// An operator-precedence grammar: the five loaded matrices, the two
/// derived relations, the closed doubled graph, and the compressed
/// precedence functions.
pub struct OPG {
    pub first: Matrix,
    pub first_term: Matrix,
    pub last: Matrix,
    pub last_term: Matrix,
    pub takes: Matrix,
    pub yields: Matrix,
    pub equal: Matrix,
    pub rtc: Matrix,
    pub f: Vec<i32>,
    pub g: Vec<i32>,
    pub m_dimension: usize,
}

/// A simple-precedence grammar: as `OPG`, but its handles are derived
/// from FIRST and LAST alone.
pub struct SPG {
    pub first: Matrix,
    pub last: Matrix,
    pub takes: Matrix,
    pub yields: Matrix,
    pub equal: Matrix,
    pub rtc: Matrix,
    pub f: Vec<i32>,
    pub g: Vec<i32>,
    pub m_dimension: usize,
}

/// The steps a precedence grammar offers: folding its relations into
/// the `f`/`g` arrays, and deriving YIELDS/TAKES from its source
/// matrices.  Each implementor says in its spec functions exactly what
/// the steps need and leave behind.
pub trait PrecedenceGrammar: Sized {
    /// The starting state of a freshly created grammar.
    spec fn fresh(self) -> bool;

    /// When the relation matrices are in place for compression.
    spec fn shrink_ready(self) -> bool;

    /// What compression leaves behind.
    spec fn shrunk(self, pre: Self) -> bool;

    /// When the source matrices are in place for handle construction.
    spec fn handles_ready(self) -> bool;

    /// What handle construction leaves behind.
    spec fn handles_computed(self, pre: Self) -> bool;

    fn new() -> (g: Self)
        ensures
            g.fresh();

    fn shrink_precedence(&mut self)
        requires
            old(self).shrink_ready(),
        ensures
            final(self).shrunk(*old(self));

    fn compute_handles(&mut self)
        requires
            old(self).handles_ready(),
        ensures
            final(self).handles_computed(*old(self));
}

impl OPG {
    /// Folds TAKES, YIELDS and EQUAL into the doubled graph, closes
    /// it, adds the diagonal, and stores the result.
    pub fn create_b_matrix(&mut self)
        requires
            old(self).shrink_ready(),
        ensures
            *final(self) == (OPG {
                rtc: final(self).rtc,
                ..*old(self)
            }),
            mat_view(&final(self).rtc) == rtc_of(
                mat_view(&old(self).takes),
                mat_view(&old(self).yields),
                mat_view(&old(self).equal),
                old(self).m_dimension as nat,
            ),
    {
        let r = build_rtc(&self.takes, &self.yields, &self.equal, self.m_dimension);
        self.rtc = r;
    }
}

impl SPG {
    /// Folds TAKES, YIELDS and EQUAL into the doubled graph, closes
    /// it, adds the diagonal, and stores the result.
    pub fn create_b_matrix(&mut self)
        requires
            old(self).shrink_ready(),
        ensures
            *final(self) == (SPG {
                rtc: final(self).rtc,
                ..*old(self)
            }),
            mat_view(&final(self).rtc) == rtc_of(
                mat_view(&old(self).takes),
                mat_view(&old(self).yields),
                mat_view(&old(self).equal),
                old(self).m_dimension as nat,
            ),
    {
        let r = build_rtc(&self.takes, &self.yields, &self.equal, self.m_dimension);
        self.rtc = r;
    }
}

impl PrecedenceGrammar for OPG {
    open spec fn fresh(self) -> bool {
        &&& self.first@ == Seq::<Vec<bool>>::empty()
        &&& self.first_term@ == Seq::<Vec<bool>>::empty()
        &&& self.last@ == Seq::<Vec<bool>>::empty()
        &&& self.last_term@ == Seq::<Vec<bool>>::empty()
        &&& self.takes@ == Seq::<Vec<bool>>::empty()
        &&& self.yields@ == Seq::<Vec<bool>>::empty()
        &&& self.equal@ == Seq::<Vec<bool>>::empty()
        &&& self.rtc@ == Seq::<Vec<bool>>::empty()
        &&& self.f@ == Seq::<i32>::empty()
        &&& self.g@ == Seq::<i32>::empty()
        &&& self.m_dimension == 0
    }

    open spec fn shrink_ready(self) -> bool {
        &&& is_square(mat_view(&self.takes))
        &&& is_square(mat_view(&self.yields))
        &&& is_square(mat_view(&self.equal))
        &&& self.takes@.len() == self.m_dimension
        &&& self.yields@.len() == self.m_dimension
        &&& self.equal@.len() == self.m_dimension
        &&& self.m_dimension <= 0x3FFF_FFFFusize
    }

    open spec fn shrunk(self, pre: Self) -> bool {
        &&& self == (OPG { rtc: self.rtc, f: self.f, g: self.g, ..pre })
        &&& mat_view(&self.rtc) == rtc_of(
            mat_view(&pre.takes),
            mat_view(&pre.yields),
            mat_view(&pre.equal),
            pre.m_dimension as nat,
        )
        &&& precedence_functions_of(mat_view(&self.rtc), self.f@, self.g@)
    }

    open spec fn handles_ready(self) -> bool {
        &&& is_square(mat_view(&self.first))
        &&& is_square(mat_view(&self.first_term))
        &&& is_square(mat_view(&self.last))
        &&& is_square(mat_view(&self.last_term))
        &&& is_square(mat_view(&self.equal))
        &&& self.first@.len() == self.m_dimension
        &&& self.first_term@.len() == self.m_dimension
        &&& self.last@.len() == self.m_dimension
        &&& self.last_term@.len() == self.m_dimension
        &&& self.equal@.len() == self.m_dimension
    }

    open spec fn handles_computed(self, pre: Self) -> bool {
        let n = pre.m_dimension as nat;
        let e = mat_view(&pre.equal);
        let first_s = mat_sum(mat_identity(n), mat_closure(mat_view(&pre.first)));
        let last_s = mat_sum(mat_identity(n), mat_closure(mat_view(&pre.last)));
        &&& self == (OPG { yields: self.yields, takes: self.takes, ..pre })
        &&& mat_view(&self.yields) == mat_product(
            mat_product(e, first_s),
            mat_view(&pre.first_term),
        )
        &&& mat_view(&self.takes) == mat_product(
            mat_transpose(mat_product(last_s, mat_view(&pre.last_term))),
            e,
        )
    }

    fn new() -> (g: Self) {
        OPG {
            first: Vec::new(),
            first_term: Vec::new(),
            last: Vec::new(),
            last_term: Vec::new(),
            takes: Vec::new(),
            yields: Vec::new(),
            equal: Vec::new(),
            rtc: Vec::new(),
            f: Vec::new(),
            g: Vec::new(),
            m_dimension: 0,
        }
    }

    fn shrink_precedence(&mut self) {
        self.create_b_matrix();
        proof {
            let tv = mat_view(&old(self).takes);
            let yv = mat_view(&old(self).yields);
            let ev = mat_view(&old(self).equal);
            let nd = old(self).m_dimension as nat;
            assert(mat_view(&self.rtc) == rtc_of(tv, yv, ev, nd));
            assert(rtc_of(tv, yv, ev, nd).len() == 2 * nd);
            assert(self.rtc@.len() == mat_view(&self.rtc).len());
            assert(self.m_dimension == old(self).m_dimension);
            assert(is_square(mat_view(&self.rtc)));
            assert(self.rtc@.len() == 2 * self.m_dimension);
        }
        let counts = popcounts(&self.rtc, self.m_dimension);
        self.f = counts.0;
        self.g = counts.1;
    }

    fn compute_handles(&mut self) {
        let n = self.m_dimension;
        let first_p = transitive_closure(&self.first);
        let identity = create_identity(n);
        proof {
            assert(is_square(mat_identity(n as nat)));
            assert(is_square(mat_closure(mat_view(&self.first))));
            assert(mat_identity(n as nat).len() == n);
            assert(mat_closure(mat_view(&self.first)).len() == n);
        }
        let first_s = unwrap_square(sum(&identity, &first_p));
        proof {
            assert(is_square(mat_view(&first_s)));
            assert(mat_view(&first_s).len() == n);
            assert(first_s@.len() == mat_view(&first_s).len());
        }
        let eq_firsts = unwrap_square(product(&self.equal, &first_s));
        proof {
            assert(is_square(mat_view(&eq_firsts)));
            assert(mat_view(&eq_firsts).len() == n);
            assert(eq_firsts@.len() == mat_view(&eq_firsts).len());
        }
        let yields = unwrap_square(product(&eq_firsts, &self.first_term));
        self.yields = yields;

        let last_p = transitive_closure(&self.last);
        proof {
            assert(is_square(mat_closure(mat_view(&self.last))));
            assert(mat_closure(mat_view(&self.last)).len() == n);
        }
        let last_s = unwrap_square(sum(&identity, &last_p));
        proof {
            assert(is_square(mat_view(&last_s)));
            assert(mat_view(&last_s).len() == n);
            assert(last_s@.len() == mat_view(&last_s).len());
        }
        let last_lt = unwrap_square(product(&last_s, &self.last_term));
        proof {
            assert(is_square(mat_view(&last_lt)));
            assert(mat_view(&last_lt).len() == n);
            assert(last_lt@.len() == mat_view(&last_lt).len());
        }
        let flipped = transpose(&last_lt);
        proof {
            assert(is_square(mat_view(&flipped)));
            assert(mat_view(&flipped).len() == n);
            assert(flipped@.len() == mat_view(&flipped).len());
        }
        let takes = unwrap_square(product(&flipped, &self.equal));
        self.takes = takes;
    }
}

impl PrecedenceGrammar for SPG {
    open spec fn fresh(self) -> bool {
        &&& self.first@ == Seq::<Vec<bool>>::empty()
        &&& self.last@ == Seq::<Vec<bool>>::empty()
        &&& self.takes@ == Seq::<Vec<bool>>::empty()
        &&& self.yields@ == Seq::<Vec<bool>>::empty()
        &&& self.equal@ == Seq::<Vec<bool>>::empty()
        &&& self.rtc@ == Seq::<Vec<bool>>::empty()
        &&& self.f@ == Seq::<i32>::empty()
        &&& self.g@ == Seq::<i32>::empty()
        &&& self.m_dimension == 0
    }

    open spec fn shrink_ready(self) -> bool {
        &&& is_square(mat_view(&self.takes))
        &&& is_square(mat_view(&self.yields))
        &&& is_square(mat_view(&self.equal))
        &&& self.takes@.len() == self.m_dimension
        &&& self.yields@.len() == self.m_dimension
        &&& self.equal@.len() == self.m_dimension
        &&& self.m_dimension <= 0x3FFF_FFFFusize
    }

    open spec fn shrunk(self, pre: Self) -> bool {
        &&& self == (SPG { rtc: self.rtc, f: self.f, g: self.g, ..pre })
        &&& mat_view(&self.rtc) == rtc_of(
            mat_view(&pre.takes),
            mat_view(&pre.yields),
            mat_view(&pre.equal),
            pre.m_dimension as nat,
        )
        &&& precedence_functions_of(mat_view(&self.rtc), self.f@, self.g@)
    }

    open spec fn handles_ready(self) -> bool {
        &&& is_square(mat_view(&self.first))
        &&& is_square(mat_view(&self.last))
        &&& is_square(mat_view(&self.equal))
        &&& self.first@.len() == self.m_dimension
        &&& self.last@.len() == self.m_dimension
        &&& self.equal@.len() == self.m_dimension
    }

    open spec fn handles_computed(self, pre: Self) -> bool {
        let n = pre.m_dimension as nat;
        let e = mat_view(&pre.equal);
        let first_p = mat_closure(mat_view(&pre.first));
        let first_s = mat_sum(mat_identity(n), first_p);
        let last_p = mat_closure(mat_view(&pre.last));
        &&& self == (SPG { yields: self.yields, takes: self.takes, ..pre })
        &&& mat_view(&self.yields) == mat_product(e, first_p)
        &&& mat_view(&self.takes) == mat_product(mat_product(mat_transpose(last_p), e), first_s)
    }

    fn new() -> (g: Self) {
        SPG {
            first: Vec::new(),
            last: Vec::new(),
            takes: Vec::new(),
            yields: Vec::new(),
            equal: Vec::new(),
            rtc: Vec::new(),
            f: Vec::new(),
            g: Vec::new(),
            m_dimension: 0,
        }
    }

    fn shrink_precedence(&mut self) {
        self.create_b_matrix();
        proof {
            let tv = mat_view(&old(self).takes);
            let yv = mat_view(&old(self).yields);
            let ev = mat_view(&old(self).equal);
            let nd = old(self).m_dimension as nat;
            assert(mat_view(&self.rtc) == rtc_of(tv, yv, ev, nd));
            assert(rtc_of(tv, yv, ev, nd).len() == 2 * nd);
            assert(self.rtc@.len() == mat_view(&self.rtc).len());
            assert(self.m_dimension == old(self).m_dimension);
            assert(is_square(mat_view(&self.rtc)));
            assert(self.rtc@.len() == 2 * self.m_dimension);
        }
        let counts = popcounts(&self.rtc, self.m_dimension);
        self.f = counts.0;
        self.g = counts.1;
    }

    fn compute_handles(&mut self) {
        let n = self.m_dimension;
        let first_p = transitive_closure(&self.first);
        proof {
            assert(is_square(mat_closure(mat_view(&self.first))));
            assert(mat_closure(mat_view(&self.first)).len() == n);
        }
        let yields = unwrap_square(product(&self.equal, &first_p));
        self.yields = yields;

        let last_p = transitive_closure(&self.last);
        let identity = create_identity(n);
        proof {
            assert(is_square(mat_identity(n as nat)));
            assert(mat_identity(n as nat).len() == n);
            assert(is_square(mat_closure(mat_view(&self.last))));
            assert(mat_closure(mat_view(&self.last)).len() == n);
        }
        let first_s = unwrap_square(sum(&identity, &first_p));
        proof {
            assert(is_square(mat_view(&first_s)));
            assert(mat_view(&first_s).len() == n);
            assert(first_s@.len() == mat_view(&first_s).len());
        }
        let flipped = transpose(&last_p);
        proof {
            assert(is_square(mat_view(&flipped)));
            assert(mat_view(&flipped).len() == n);
            assert(flipped@.len() == mat_view(&flipped).len());
        }
        let t_eq = unwrap_square(product(&flipped, &self.equal));
        proof {
            assert(is_square(mat_view(&t_eq)));
            assert(mat_view(&t_eq).len() == n);
            assert(t_eq@.len() == mat_view(&t_eq).len());
        }
        let takes = unwrap_square(product(&t_eq, &first_s));
        self.takes = takes;
    }
}

/// Takes the matrix out of an operation that its caller has already
/// shown cannot fail.
fn unwrap_square(r: Result<Matrix, crate::matrix::MatrixError>) -> (m: Matrix)
    requires
        r is Ok,
    ensures
        Ok::<Matrix, crate::matrix::MatrixError>(m) == r,
{
    match r {
        Ok(v) => v,
        Err(_) => {
            proof {
                assert(false);
            }
            Vec::new()
        },
    }
}

/// The compressed precedence functions, owned by the parser for one
/// compilation.
pub struct PFunc {
    pub f: Vec<i32>,
    pub g: Vec<i32>,
}

fn copy_i32_vec(v: &Vec<i32>) -> (r: Vec<i32>)
    ensures
        r@ == v@,
{
    let mut r: Vec<i32> = Vec::new();
    let mut i: usize = 0;
    while i < v.len()
        invariant
            i <= v@.len(),
            r@ == v@.subrange(0, i as int),
        decreases v@.len() - i,
    {
        r.push(v[i]);
        proof {
            assert(r@ =~= v@.subrange(0, i as int + 1));
        }
        i += 1;
    }
    proof {
        assert(v@.subrange(0, v@.len() as int) =~= v@);
    }
    r
}

impl PFunc {
    /// Takes the precedence functions out of a grammar whose
    /// compression step has run.
    pub fn new(grammar: &OPG) -> (p: PFunc)
        ensures
            p.f@ == grammar.f@,
            p.g@ == grammar.g@,
    {
        let funcs = PFunc::get_precedence_func(grammar);
        PFunc { f: funcs.0, g: funcs.1 }
    }

    /// The two integer arrays of a grammar, as a pair.
    pub fn get_precedence_func(grammar: &OPG) -> (r: (Vec<i32>, Vec<i32>))
        ensures
            r.0@ == grammar.f@,
            r.1@ == grammar.g@,
    {
        (copy_i32_vec(&grammar.f), copy_i32_vec(&grammar.g))
    }
}

/// The precedence functions reproduce each source relation: where `a`
/// equals `b`, the counts agree; where `a` yields `b` and the closure
/// has no path from `f(a)` to `g(b)`, the `f` count is smaller; where
/// `a` takes `b` and the closure has no path from `g(b)` to `f(a)`,
/// the `f` count is larger.  The two side conditions hold exactly when
/// the source relations are consistent with some precedence function;
/// a relation with a cycle through a strict edge satisfies neither.
pub proof fn lemma_precedence_round_trip(
    takes: Seq<Seq<bool>>,
    yields: Seq<Seq<bool>>,
    equal: Seq<Seq<bool>>,
    n: nat,
    a: int,
    b: int,
)
    requires
        is_square(takes),
        is_square(yields),
        is_square(equal),
        takes.len() == n,
        yields.len() == n,
        equal.len() == n,
        0 <= a < n,
        0 <= b < n,
    ensures
        equal[a][b] ==> count_true(rtc_of(takes, yields, equal, n)[a]) == count_true(
            rtc_of(takes, yields, equal, n)[n + b],
        ),
        yields[a][b] && !rtc_of(takes, yields, equal, n)[a][n + b] ==> count_true(
            rtc_of(takes, yields, equal, n)[a],
        ) < count_true(rtc_of(takes, yields, equal, n)[n + b]),
        takes[a][b] && !rtc_of(takes, yields, equal, n)[n + b][a] ==> count_true(
            rtc_of(takes, yields, equal, n)[a],
        ) > count_true(rtc_of(takes, yields, equal, n)[n + b]),
{
    let bg = b_graph(takes, yields, equal, n);
    let c = mat_closure(bg);
    let r = rtc_of(takes, yields, equal, n);
    let nn = 2 * n as int;
    assert(bg.len() == nn);
    assert(r.len() == nn);
    assert(forall|u: int| 0 <= u < nn ==> (#[trigger] r[u]).len() == nn);
    assert forall|u: int| 0 <= u < nn implies #[trigger] r[u][u] by {
        assert(mat_identity((2 * n) as nat)[u][u]);
    }
    assert forall|u: int, v: int| 0 <= u < nn && 0 <= v < nn && bg[u][v] implies #[trigger] r[u][v] by {
        lemma_reach_contains(bg, u, v, nn);
        assert(c[u][v]);
    }
    if equal[a][b] {
        assert(bg[a][n + b]);
        assert(bg[n + b][a]);
        assert(r[a][n + b]);
        assert(r[n + b][a]);
        assert forall|w: int| 0 <= w < nn implies #[trigger] r[a][w] == r[n + b][w] by {
            if r[n + b][w] {
                rtc_step(takes, yields, equal, n, a, n + b, w);
            }
            if r[a][w] {
                rtc_step(takes, yields, equal, n, n + b, a, w);
            }
        }
        assert(r[a] =~= r[n + b]);
    }
    if yields[a][b] && !r[a][n + b] {
        assert(bg[n + b][a]);
        assert(r[n + b][a]);
        assert forall|w: int| 0 <= w < r[a].len() && r[a][w] implies r[n + b][w] by {
            rtc_step(takes, yields, equal, n, n + b, a, w);
        }
        assert(r[n + b][n + b]);
        lemma_count_strict(r[a], r[n + b], n + b);
    }
    if takes[a][b] && !r[n + b][a] {
        assert(bg[a][n + b]);
        assert(r[a][n + b]);
        assert forall|w: int| 0 <= w < r[n + b].len() && r[n + b][w] implies r[a][w] by {
            rtc_step(takes, yields, equal, n, a, n + b, w);
        }
        assert(r[a][a]);
        lemma_count_strict(r[n + b], r[a], a);
    }
}

/// One transitivity step inside the closed doubled graph.
proof fn rtc_step(
    takes: Seq<Seq<bool>>,
    yields: Seq<Seq<bool>>,
    equal: Seq<Seq<bool>>,
    n: nat,
    u: int,
    v: int,
    w: int,
)
    requires
        0 <= u < 2 * n,
        0 <= v < 2 * n,
        0 <= w < 2 * n,
        rtc_of(takes, yields, equal, n)[u][v],
        rtc_of(takes, yields, equal, n)[v][w],
    ensures
        rtc_of(takes, yields, equal, n)[u][w],
{
    let bg = b_graph(takes, yields, equal, n);
    let c = mat_closure(bg);
    let r = rtc_of(takes, yields, equal, n);
    let nn = 2 * n as int;
    if u == v || v == w {
    } else {
        assert(c[u][v]);
        assert(c[v][w]);
        assert(reach(bg, u, v, nn));
        assert(reach(bg, v, w, nn));
        lemma_reach_trans(bg, u, v, w, nn);
        assert(c[u][w]);
        assert(r[u][w]);
    }
}

/// Rebuilding the precedence functions from the same closed graph
/// gives bit-identical arrays: the compression step is deterministic.
pub proof fn lemma_precedence_functions_deterministic(
    rtc: Seq<Seq<bool>>,
    f1: Seq<i32>,
    g1: Seq<i32>,
    f2: Seq<i32>,
    g2: Seq<i32>,
)
    requires
        precedence_functions_of(rtc, f1, g1),
        precedence_functions_of(rtc, f2, g2),
    ensures
        f1 == f2,
        g1 == g2,
{
    assert(f1 =~= f2);
    assert(g1 =~= g2);
}

} // verus!
