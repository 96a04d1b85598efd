//! The length-minimising optimizer: a contiguous fold of `Add`/`Move` runs,
//! and an exponential-chunk compression that rewrites one large `Add` as a
//! nest of multiplication loops when that is textually shorter.
use crate::ast::BInstr;
use crate::ast::abs_of;
use crate::ast::lemma_recon_push;
use crate::ast::spec_recon;
use crate::ast::spec_recon_one;
use vstd::prelude::*;

verus! {

broadcast use vstd::std_specs::vec::group_vec_axioms;

/// Opt-in behaviours that change what the optimizer may rewrite.
#[derive(Debug, Clone, Copy, PartialEq, Eq, Structural)]
pub enum AdvOptions {
    /// Fold long runs of `.` or `,` through a scratch cell; observable when
    /// the scratch cell is live in the caller, hence opt-in.
    UnsafeFoldIO,
}

/// The optimizer: a level from 0 to 5 selecting passes, and the opt-in
/// behaviours in force.
pub struct Optimizer {
    pub level: u8,
    pub adv_opt: Vec<AdvOptions>,
}

// ===== Pass A: the contiguous fold =====

/// Both instructions are of the same variant.
pub open spec fn kind_matches(a: BInstr, b: BInstr) -> bool {
    match (a, b) {
        (BInstr::Add(_), BInstr::Add(_)) => true,
        (BInstr::Move(_), BInstr::Move(_)) => true,
        (BInstr::PutC, BInstr::PutC) => true,
        (BInstr::GetC, BInstr::GetC) => true,
        (BInstr::LoopStart, BInstr::LoopStart) => true,
        (BInstr::LoopEnd, BInstr::LoopEnd) => true,
        _ => false,
    }
}

/// An instruction whose runs Pass A sums up.
pub open spec fn foldable(b: BInstr) -> bool {
    b is Add || b is Move
}

pub open spec fn amount(b: BInstr) -> int {
    match b {
        BInstr::Add(n) => n as int,
        BInstr::Move(n) => n as int,
        _ => 0,
    }
}

/// The length of the run at the head of `p` whose elements share `head`'s
/// variant.
pub open spec fn run_end(p: Seq<BInstr>, head: BInstr) -> nat
    decreases p.len(),
{
    if p.len() == 0 || !kind_matches(head, p[0]) {
        0
    } else {
        1 + run_end(p.drop_first(), head)
    }
}

/// The sum of the counts of the first `n` elements, as an unbounded integer.
pub open spec fn run_sum(p: Seq<BInstr>, n: int) -> int
    decreases n,
{
    if n <= 0 {
        0
    } else {
        run_sum(p, n - 1) + amount(p[n - 1])
    }
}

pub open spec fn amount32(b: BInstr) -> i32 {
    match b {
        BInstr::Add(n) => n,
        BInstr::Move(n) => n,
        _ => 0,
    }
}

/// One wrapping addition, as the machine performs it.
pub open spec fn wadd(x: i32, y: i32) -> i32 {
    vstd::wrapping::i32_specs::wrapping_add(x, y)
}

/// The counts of the first `n` elements summed with wrapping additions: what
/// an accumulator register ends up holding.
pub open spec fn run_wsum(p: Seq<BInstr>, n: int) -> i32
    decreases n,
{
    if n <= 0 {
        0i32
    } else {
        wadd(run_wsum(p, n - 1), amount32(p[n - 1]))
    }
}

/// What `run_end` returns: a maximal matching prefix.
pub proof fn lemma_run_end(p: Seq<BInstr>, head: BInstr)
    ensures
        run_end(p, head) <= p.len(),
        forall|m: int| 0 <= m < run_end(p, head) ==> kind_matches(head, #[trigger] p[m]),
        run_end(p, head) < p.len() ==> !kind_matches(head, p[run_end(p, head) as int]),
    decreases p.len(),
{
    if p.len() > 0 && kind_matches(head, p[0]) {
        lemma_run_end(p.drop_first(), head);
        let re = run_end(p, head);
        assert(re == 1 + run_end(p.drop_first(), head));
        assert forall|m: int| 0 <= m < re implies kind_matches(head, #[trigger] p[m]) by {
            if m > 0 {
                assert(p.drop_first()[m - 1] == p[m]);
            }
        }
        if re < p.len() {
            assert(p.drop_first()[re - 1] == p[re as int]);
        }
    }
}

/// One folded run: a single instruction holding the wrapped sum, or nothing
/// when the sum wraps to zero.
pub open spec fn folded_piece(head: BInstr, w: i32) -> Seq<BInstr> {
    if w == 0 {
        Seq::empty()
    } else if head is Add {
        seq![BInstr::Add(w)]
    } else {
        seq![BInstr::Move(w)]
    }
}

/// Pass A: sum each contiguous run of `Add` (or of `Move`) into one
/// instruction, dropping runs whose sum is zero; everything else is kept.
pub open spec fn fold_a(p: Seq<BInstr>) -> Seq<BInstr>
    decreases p.len()
        via fold_a_dec
{
    if p.len() == 0 {
        Seq::empty()
    } else {
        let h = p[0];
        if foldable(h) {
            let j = run_end(p, h);
            folded_piece(h, run_wsum(p, j as int)) + fold_a(p.skip(j as int))
        } else {
            seq![h] + fold_a(p.drop_first())
        }
    }
}

#[via_fn]
proof fn fold_a_dec(p: Seq<BInstr>) {
    if p.len() > 0 && foldable(p[0]) {
        lemma_run_end(p, p[0]);
        assert(kind_matches(p[0], p[0]));
        assert(run_end(p, p[0]) >= 1);
    }
}

// ===== Pass B: exponential-chunk compression =====

pub open spec fn pow_int(b: int, e: nat) -> int
    decreases e,
{
    if e == 0 {
        1
    } else {
        b * pow_int(b, (e - 1) as nat)
    }
}

/// The largest exponent `e` with `c^e <= n` (for `c >= 2`, `n >= 1`).
pub open spec fn ilog(c: int, n: int) -> nat
    decreases n
        via ilog_dec
{
    if c <= 1 || n < c || n <= 0 {
        0
    } else {
        1 + ilog(c, n / c)
    }
}

#[via_fn]
proof fn ilog_dec(c: int, n: int) {
    if !(c <= 1 || n < c || n <= 0) {
        assert(0 <= n / c < n) by (nonlinear_arith)
            requires
                c >= 2,
                n >= c,
        ;
    }
}

pub open spec fn ceil_div(a: int, b: int) -> int
    recommends
        b > 0,
{
    (a + b - 1) / b
}

/// The constants of one compression candidate, all exact integers.
#[derive(Debug)]
pub struct CompressConst {
    pub chunk: i64,
    pub sign: i64,
    pub remainder: i64,
    pub inner_count: i64,
    pub outer_fact: i64,
    pub weight: i64,
}

/// The candidate constants for count `count` and base `c`: with `N = |count|`
/// and `e` the largest exponent with `c^e <= N`, nest `e - 1` loops scaled by
/// `c`, seed the scratch cell with `N·c/c^e` rounded up (down in the lower
/// variant), and fix the difference up with a remainder.  The weight
/// `outer + inner·c + |remainder|` is a cheap proxy for the reconstructed
/// length, used to pick a base.
pub open spec fn spec_constants(count: int, c: int, upper: bool) -> CompressConst
    recommends
        count != 0,
        2 <= c,
{
    let sign: int = if count > 0 {
        1
    } else {
        -1
    };
    let n: int = if count > 0 {
        count
    } else {
        -count
    };
    let e = ilog(c, n);
    let p = pow_int(c, e);
    let outer: int = if upper {
        ceil_div(n * c, p)
    } else {
        (n * c) / p
    };
    let total: int = (outer * p) / c;
    let remainder: int = n - total;
    let weight: int = outer + (e - 1) * c + (if remainder >= 0 {
        remainder
    } else {
        -remainder
    });
    CompressConst {
        chunk: c as i64,
        sign: sign as i64,
        remainder: remainder as i64,
        inner_count: (e - 1) as i64,
        outer_fact: outer as i64,
        weight: weight as i64,
    }
}

/// The best constants over integer bases `from ..= k`, earliest base winning
/// ties.
pub open spec fn spec_best_upto(count: int, from: int, k: int, upper: bool) -> CompressConst
    decreases k - from,
{
    if k <= from {
        spec_constants(count, from, upper)
    } else {
        let prev = spec_best_upto(count, from, k - 1, upper);
        let cur = spec_constants(count, k, upper);
        if cur.weight < prev.weight {
            cur
        } else {
            prev
        }
    }
}

/// The nested multiplication loops: `k` levels of `[ < Add(fact) ... > - ]`.
pub open spec fn spec_helper(fact: int, k: int) -> Seq<BInstr>
    decreases (if k > 0 {
        k
    } else {
        0
    }),
{
    if k <= 0 {
        Seq::empty()
    } else {
        seq![
            BInstr::LoopStart,
            BInstr::Move(-1i32),
            BInstr::Add(#[verifier::truncate] (fact as i32)),
        ] + spec_helper(fact, k - 1) + seq![
            BInstr::Move(1i32),
            BInstr::Add(-1i32),
            BInstr::LoopEnd,
        ]
    }
}

/// The whole candidate stream for one `Add(count)`: walk right, seed the
/// scratch cell, run the nested loops, walk back, fix the remainder up.
pub open spec fn spec_compress_incr(count: i32, chunk: Option<i64>, upper: bool) -> Seq<BInstr> {
    if count == 0 {
        Seq::empty()
    } else {
        let cc = match chunk {
            Some(c) => spec_constants(count as int, c as int, upper),
            None => spec_best_upto(count as int, 2, 100, upper),
        };
        seq![
            BInstr::Move(#[verifier::truncate] (cc.inner_count as i32)),
            BInstr::Add(#[verifier::truncate] (cc.outer_fact as i32)),
        ] + spec_helper(cc.sign * cc.chunk, cc.inner_count as int) + seq![
            BInstr::Move(#[verifier::truncate] ((-cc.inner_count) as i32)),
            BInstr::Add(#[verifier::truncate] ((cc.sign * cc.remainder) as i32)),
        ]
    }
}

/// The number of characters a stream reconstructs to.
pub open spec fn recon_len(p: Seq<BInstr>) -> nat {
    spec_recon(p).len()
}

/// The scratch-cell loop that folds a run of `k` output (or input)
/// instructions, in the opt-in unsafe mode.
pub open spec fn spec_io_candidate(head: BInstr, k: int, level: u8) -> Seq<BInstr> {
    let chunk: Option<i64> = if level == 2 {
        Some(5)
    } else {
        None
    };
    seq![BInstr::Move(1i32)] + spec_compress_incr(#[verifier::truncate] (k as i32), chunk, false)
        + seq![
        BInstr::LoopStart,
        BInstr::Add(-1i32),
        BInstr::Move(-1i32),
        (if head is PutC {
            BInstr::PutC
        } else {
            BInstr::GetC
        }),
        BInstr::Move(1i32),
        BInstr::LoopEnd,
        BInstr::Move(-1i32),
    ]
}

/// A run of `k` copies of one instruction.
pub open spec fn repeated(head: BInstr, k: int) -> Seq<BInstr> {
    Seq::new((if k >= 0 {
        k
    } else {
        0
    }) as nat, |i: int| head)
}

/// Pass B: replace each sufficiently large `Add` by the shorter of itself and
/// its compression candidate; with the unsafe opt-in, treat runs of `.`/`,`
/// the same way.  Below level 2 the pass changes nothing.
pub open spec fn spec_smort(level: u8, fold_io: bool, p: Seq<BInstr>) -> Seq<BInstr>
    decreases p.len()
        via spec_smort_dec
{
    if level < 2 {
        p
    } else if p.len() == 0 {
        Seq::empty()
    } else {
        let h = p[0];
        match h {
            BInstr::Add(n) => {
                if n == 0 {
                    spec_smort(level, fold_io, p.drop_first())
                } else {
                    let chunk: Option<i64> = if level == 2 {
                        Some(5)
                    } else {
                        None
                    };
                    let cand = spec_compress_incr(n, chunk, true);
                    if recon_len(cand) < abs_of(n) {
                        cand + spec_smort(level, fold_io, p.drop_first())
                    } else {
                        seq![h] + spec_smort(level, fold_io, p.drop_first())
                    }
                }
            },
            BInstr::PutC | BInstr::GetC => {
                if !fold_io {
                    seq![h] + spec_smort(level, fold_io, p.drop_first())
                } else {
                    let k = run_end(p, h);
                    let cand = spec_io_candidate(h, k as int, level);
                    if recon_len(cand) < k {
                        cand + spec_smort(level, fold_io, p.skip(k as int))
                    } else {
                        repeated(h, k as int) + spec_smort(level, fold_io, p.skip(k as int))
                    }
                }
            },
            _ => seq![h] + spec_smort(level, fold_io, p.drop_first()),
        }
    }
}

#[via_fn]
proof fn spec_smort_dec(level: u8, fold_io: bool, p: Seq<BInstr>) {
    if level >= 2 && p.len() > 0 && (p[0] is PutC || p[0] is GetC) {
        lemma_run_end(p, p[0]);
        assert(kind_matches(p[0], p[0]));
        assert(run_end(p, p[0]) >= 1);
    }
}

/// What the whole optimizer computes at a given level.
pub open spec fn spec_apply(level: u8, fold_io: bool, p: Seq<BInstr>) -> Seq<BInstr> {
    if level == 0 {
        p
    } else {
        let p1 = fold_a(p);
        let p2 = spec_smort(level, fold_io, p1);
        if level >= 4 {
            fold_a(spec_smort(level, fold_io, p2))
        } else {
            p2
        }
    }
}

// ===== Arithmetic support =====

proof fn lemma_pow_pos(b: int, e: nat)
    requires
        b >= 1,
    ensures
        pow_int(b, e) >= 1,
    decreases e,
{
    if e > 0 {
        lemma_pow_pos(b, (e - 1) as nat);
        assert(b * pow_int(b, (e - 1) as nat) >= 1) by (nonlinear_arith)
            requires
                b >= 1,
                pow_int(b, (e - 1) as nat) >= 1,
        ;
    }
}

proof fn lemma_pow_mono_base(a: int, b: int, e: nat)
    requires
        1 <= a <= b,
    ensures
        pow_int(a, e) <= pow_int(b, e),
    decreases e,
{
    if e > 0 {
        lemma_pow_mono_base(a, b, (e - 1) as nat);
        lemma_pow_pos(a, (e - 1) as nat);
        assert(a * pow_int(a, (e - 1) as nat) <= b * pow_int(b, (e - 1) as nat))
            by (nonlinear_arith)
            requires
                1 <= a <= b,
                1 <= pow_int(a, (e - 1) as nat) <= pow_int(b, (e - 1) as nat),
        ;
    }
}

/// The sandwich that characterises `ilog`.
proof fn lemma_ilog_bounds(c: int, n: int)
    requires
        c >= 2,
        n >= 1,
    ensures
        pow_int(c, ilog(c, n)) <= n,
        n < pow_int(c, ilog(c, n) + 1),
    decreases n,
{
    let e = ilog(c, n);
    if n < c {
        assert(pow_int(c, 1) == c * pow_int(c, 0));
    } else {
        let q = n / c;
        assert(1 <= q && q < n) by (nonlinear_arith)
            requires
                c >= 2,
                n >= c,
                q == n / c,
        ;
        lemma_ilog_bounds(c, q);
        let e1 = ilog(c, q);
        assert(e == e1 + 1);
        assert(pow_int(c, e) == c * pow_int(c, e1));
        assert(pow_int(c, e + 1) == c * pow_int(c, e1 + 1));
        assert(c * pow_int(c, e1) <= n) by (nonlinear_arith)
            requires
                c >= 2,
                pow_int(c, e1) <= n / c,
                n >= 0,
        ;
        assert(n < c * pow_int(c, e1 + 1)) by (nonlinear_arith)
            requires
                c >= 2,
                n / c < pow_int(c, e1 + 1),
                n >= 0,
        ;
    }
}

/// The sandwich pins the exponent down.
proof fn lemma_ilog_unique(c: int, n: int, e: nat)
    requires
        c >= 2,
        n >= 1,
        pow_int(c, e) <= n,
        n < pow_int(c, e + 1),
    ensures
        e == ilog(c, n),
{
    lemma_ilog_bounds(c, n);
    let e0 = ilog(c, n);
    if e < e0 {
        lemma_pow_mono_exp(c, (e + 1) as nat, e0);
        assert(false);
    }
    if e > e0 {
        lemma_pow_mono_exp(c, (e0 + 1) as nat, e);
        assert(false);
    }
}

proof fn lemma_pow_mono_exp(c: int, e1: nat, e2: nat)
    requires
        c >= 1,
        e1 <= e2,
    ensures
        pow_int(c, e1) <= pow_int(c, e2),
    decreases e2,
{
    if e1 < e2 {
        lemma_pow_mono_exp(c, e1, (e2 - 1) as nat);
        lemma_pow_pos(c, (e2 - 1) as nat);
        assert(pow_int(c, (e2 - 1) as nat) <= c * pow_int(c, (e2 - 1) as nat))
            by (nonlinear_arith)
            requires
                c >= 1,
                pow_int(c, (e2 - 1) as nat) >= 1,
        ;
    }
}

/// The exponent never exceeds 31 for counts that fit an `i32`'s magnitude.
proof fn lemma_ilog_small(c: int, n: int)
    requires
        2 <= c,
        1 <= n <= 0x8000_0000,
    ensures
        ilog(c, n) <= 31,
{
    let e = ilog(c, n);
    lemma_ilog_bounds(c, n);
    if e > 31 {
        lemma_pow_mono_exp(2, 32, e);
        lemma_pow_mono_base(2, c, e);
        assert(pow_int(2, 32) == 0x1_0000_0000) by {
            reveal_with_fuel(pow_int, 33);
        }
        assert(false);
    }
}

/// Division facts used throughout: the quotient is bounded by the dividend,
/// and multiplying it back comes within one divisor of the dividend.
proof fn lemma_div_bounds(a: int, b: int)
    requires
        a >= 0,
        b >= 1,
    ensures
        0 <= a / b,
        a / b <= a,
        (a / b) * b <= a,
        a < (a / b) * b + b,
{
    vstd::arithmetic::div_mod::lemma_fundamental_div_mod(a, b);
    vstd::arithmetic::div_mod::lemma_remainder_upper(a, b);
    vstd::arithmetic::div_mod::lemma_remainder_lower(a, b);
    vstd::arithmetic::div_mod::lemma_div_pos_is_pos(a, b);
    vstd::arithmetic::div_mod::lemma_div_nonincreasing(a, b);
}

/// Multiplying both sides of `x <= y` by a nonnegative factor keeps the order.
proof fn lemma_mul_le(x: int, y: int, f: int)
    requires
        x <= y,
        f >= 0,
    ensures
        x * f <= y * f,
{
    assert(x * f <= y * f) by (nonlinear_arith)
        requires
            x <= y,
            f >= 0,
    ;
}

/// Coarse ranges of the candidate constants, enough to compute with `i64`.
proof fn lemma_constants_range(count: int, c: int, upper: bool)
    requires
        count != 0,
        -0x8000_0000 <= count <= 0x7fff_ffff,
        2 <= c <= 100,
    ensures
        ({
            let cc = spec_constants(count, c, upper);
            &&& (cc.sign == 1 || cc.sign == -1)
            &&& cc.chunk == c
            &&& -1 <= cc.inner_count <= 31
            &&& 0 <= cc.outer_fact <= 0x200_0000_0000
            &&& -0x200_0000_0000 <= cc.remainder <= 0x200_0000_0000
            &&& -0x8000 <= cc.weight <= 0x500_0000_0000
        }),
{
    let n: int = if count > 0 {
        count
    } else {
        -count
    };
    let e = ilog(c, n);
    let p = pow_int(c, e);
    lemma_ilog_small(c, n);
    lemma_pow_pos(c, e);
    lemma_ilog_bounds(c, n);
    let a = n * c;
    assert(c <= a <= 0x8000_0000 * 100) by (nonlinear_arith)
        requires
            1 <= n <= 0x8000_0000,
            2 <= c <= 100,
            a == n * c,
    ;
    let q = if upper {
        ceil_div(a, p)
    } else {
        a / p
    };
    lemma_div_bounds(a, p);
    lemma_div_bounds(a + p - 1, p);
    assert(0 <= q <= a + p - 1);
    assert(q * p <= a + p - 1) by {
        if upper {
            lemma_mul_le(q, (a + p - 1) / p, p);
        } else {
            vstd::arithmetic::div_mod::lemma_div_is_ordered(a, a + p - 1, p);
            lemma_mul_le(q, (a + p - 1) / p, p);
        }
    }
    assert(0 <= q * p) by (nonlinear_arith)
        requires
            q >= 0,
            p >= 1,
    ;
    let total = (q * p) / c;
    lemma_div_bounds(q * p, c);
    assert(p <= n);
    let remainder = n - total;
    assert(-0x200_0000_0000 <= remainder <= 0x200_0000_0000);
    assert(0 <= (e - 1) * c + 100) by (nonlinear_arith)
        requires
            0 <= e <= 31,
            2 <= c <= 100,
    ;
    assert((e - 1) * c <= 3100) by (nonlinear_arith)
        requires
            0 <= e <= 31,
            2 <= c <= 100,
    ;
}

/// The exponent and the matching power, computed by repeated multiplication.
#[verifier::loop_isolation(false)]
fn ilog_exec(c: i64, n: i64) -> (r: (u32, i64))
    requires
        2 <= c <= 100,
        1 <= n <= 0x8000_0000,
    ensures
        r.0 == ilog(c as int, n as int),
        r.1 == pow_int(c as int, ilog(c as int, n as int)),
        r.0 <= 31,
        1 <= r.1 <= n,
{
    let mut e: u32 = 0;
    let mut p: i64 = 1;
    while p <= n / c
        invariant
            1 <= p <= n,
            p == pow_int(c as int, e as nat),
            e <= 31,
        decreases n - p,
    {
        proof {
            lemma_div_bounds(n as int, c as int);
            assert(p * c <= (n / c) * c) by (nonlinear_arith)
                requires
                    p <= n / c,
                    c >= 1,
            ;
            assert((n as int / c as int) * c <= n);
            assert(p < p * c) by (nonlinear_arith)
                requires
                    p >= 1,
                    c >= 2,
            ;
            assert(pow_int(c as int, (e + 1) as nat) == c * pow_int(c as int, e as nat));
            assert(c * p == p * c) by (nonlinear_arith);
            if e + 1 > 31 {
                assert(pow_int(2, (e + 1) as nat) <= pow_int(c as int, (e + 1) as nat)) by {
                    lemma_pow_mono_base(2, c as int, (e + 1) as nat);
                }
                assert(pow_int(2, 32) <= pow_int(2, (e + 1) as nat)) by {
                    lemma_pow_mono_exp(2, 32, (e + 1) as nat);
                }
                assert(pow_int(2, 32) == 0x1_0000_0000) by {
                    reveal_with_fuel(pow_int, 33);
                }
                assert(false);
            }
        }
        p = p * c;
        e = e + 1;
    }
    proof {
        lemma_div_bounds(n as int, c as int);
        assert(n < p * c) by (nonlinear_arith)
            requires
                p > n / c,
                c >= 1,
                n < (n / c) * c + c,
        ;
        assert(pow_int(c as int, (e + 1) as nat) == c * pow_int(c as int, e as nat));
        assert(p * c == c * p) by (nonlinear_arith);
        lemma_ilog_unique(c as int, n as int, e as nat);
    }
    (e, p)
}

/// The candidate constants for one base (see `spec_constants`).
#[verifier::loop_isolation(false)]
fn compress_incr_constants(count: i32, chunk: i64, upper: bool) -> (r: CompressConst)
    requires
        count != 0,
        2 <= chunk <= 100,
    ensures
        r == spec_constants(count as int, chunk as int, upper),
{
    proof {
        lemma_constants_range(count as int, chunk as int, upper);
    }
    let c = chunk;
    let sign: i64 = if count > 0 {
        1
    } else {
        -1
    };
    let n: i64 = if count > 0 {
        count as i64
    } else {
        -(count as i64)
    };
    let (e, p) = ilog_exec(c, n);
    proof {
        lemma_pow_pos(c as int, e as nat);
        assert(n * c <= 0x8000_0000 * 100) by (nonlinear_arith)
            requires
                1 <= n <= 0x8000_0000,
                2 <= c <= 100,
        ;
        assert(n * c >= c) by (nonlinear_arith)
            requires
                n >= 1,
                c >= 2,
        ;
    }
    let a: i64 = n * c;
    proof {
        lemma_div_bounds(a as int, p as int);
        lemma_div_bounds(a as int + p - 1, p as int);
    }
    let q: i64 = if upper {
        (a + p - 1) / p
    } else {
        a / p
    };
    proof {
        assert(0 <= q);
        assert(q <= a + p - 1);
        assert(q * p <= (a as int) + p - 1) by {
            if upper {
                lemma_mul_le(q as int, (a as int + p - 1) / (p as int), p as int);
            } else {
                vstd::arithmetic::div_mod::lemma_div_is_ordered(
                    a as int,
                    a as int + p - 1,
                    p as int,
                );
                lemma_mul_le(q as int, (a as int + p - 1) / (p as int), p as int);
            }
        }
        assert(0 <= q * p) by (nonlinear_arith)
            requires
                q >= 0,
                p >= 1,
        ;
    }
    let outer: i64 = q;
    let qp: i64 = q * p;
    proof {
        lemma_div_bounds(qp as int, c as int);
    }
    let total: i64 = qp / c;
    let remainder: i64 = n - total;
    let rabs: i64 = if remainder >= 0 {
        remainder
    } else {
        -remainder
    };
    proof {
        assert(((e as int) - 1) * c <= 3100) by (nonlinear_arith)
            requires
                0 <= e <= 31,
                2 <= c <= 100,
        ;
        assert(-100 <= ((e as int) - 1) * c) by (nonlinear_arith)
            requires
                0 <= e <= 31,
                2 <= c <= 100,
        ;
    }
    let weight: i64 = outer + ((e as i64) - 1) * c + rabs;
    CompressConst {
        chunk: c,
        sign,
        remainder,
        inner_count: (e as i64) - 1,
        outer_fact: outer,
        weight,
    }
}


/// The best base in `from ..= to` by weight, ties broken towards the smaller
/// base (the search runs upward from `from`).
#[verifier::loop_isolation(false)]
pub fn find_best_parameters(count: i32, from: u32, to: u32, upper: bool) -> (r: CompressConst)
    requires
        count != 0,
        2 <= from,
        from <= to,
        to <= 100,
    ensures
        r == spec_best_upto(count as int, from as int, to as int, upper),
{
    let mut best = compress_incr_constants(count, from as i64, upper);
    let mut chunk: u32 = from + 1;
    while chunk <= to
        invariant
            from + 1 <= chunk <= to + 1,
            best == spec_best_upto(count as int, from as int, (chunk - 1) as int, upper),
        decreases to + 1 - chunk,
    {
        let current = compress_incr_constants(count, chunk as i64, upper);
        if current.weight < best.weight {
            best = current;
        }
        chunk = chunk + 1;
    }
    best
}

/// Coarse ranges of the best constants over a base range.
proof fn lemma_best_range(count: int, from: int, k: int, upper: bool)
    requires
        count != 0,
        -0x8000_0000 <= count <= 0x7fff_ffff,
        2 <= from <= k <= 100,
    ensures
        ({
            let cc = spec_best_upto(count, from, k, upper);
            &&& (cc.sign == 1 || cc.sign == -1)
            &&& 2 <= cc.chunk <= 100
            &&& -1 <= cc.inner_count <= 31
            &&& 0 <= cc.outer_fact <= 0x200_0000_0000
            &&& -0x200_0000_0000 <= cc.remainder <= 0x200_0000_0000
        }),
    decreases k - from,
{
    lemma_constants_range(count, k, upper);
    if k > from {
        lemma_best_range(count, from, k - 1, upper);
    }
}

/// The nested multiplication loops (see `spec_helper`).
fn compress_incr_helper(out: Vec<BInstr>, fact: i64, loop_count: i64) -> (r: Vec<BInstr>)
    ensures
        r@ == out@ + spec_helper(fact as int, loop_count as int),
    decreases (if loop_count > 0 {
        loop_count
    } else {
        0
    }),
{
    if loop_count <= 0 {
        proof {
            assert(out@ + spec_helper(fact as int, loop_count as int) =~= out@);
        }
        return out;
    }
    let ghost orig = out@;
    let mut out = out;
    out.push(BInstr::LoopStart);
    out.push(BInstr::Move(-1));
    out.push(BInstr::Add(#[verifier::truncate] (fact as i32)));
    out = compress_incr_helper(out, fact, loop_count - 1);
    out.push(BInstr::Move(1));
    out.push(BInstr::Add(-1));
    out.push(BInstr::LoopEnd);
    proof {
        assert(out@ =~= orig + spec_helper(fact as int, loop_count as int));
    }
    out
}

/// The candidate stream for one `Add(count)` (see `spec_compress_incr`).
fn compress_incr(count: i32, chunk: Option<i64>, upper: bool) -> (r: Vec<BInstr>)
    requires
        match chunk {
            Some(c) => 2 <= c <= 100,
            None => true,
        },
    ensures
        r@ == spec_compress_incr(count, chunk, upper),
{
    if count == 0 {
        let r: Vec<BInstr> = Vec::new();
        proof {
            assert(r@ =~= spec_compress_incr(count, chunk, upper));
        }
        return r;
    }
    let cc = match chunk {
        Some(c) => compress_incr_constants(count, c, upper),
        None => find_best_parameters(count, 2, 100, upper),
    };
    proof {
        match chunk {
            Some(c) => {
                lemma_constants_range(count as int, c as int, upper);
            },
            None => {
                lemma_best_range(count as int, 2, 100, upper);
            },
        }
        assert(cc.sign == 1 || cc.sign == -1);
        assert(2 <= cc.chunk <= 100);
        assert(-1 <= cc.inner_count <= 31);
        assert(-0x200_0000_0000 <= cc.remainder <= 0x200_0000_0000);
        assert(-100 <= cc.sign * cc.chunk <= 100) by (nonlinear_arith)
            requires
                cc.sign == 1 || cc.sign == -1,
                2 <= cc.chunk <= 100,
        ;
        assert(-0x200_0000_0000 <= cc.sign * cc.remainder <= 0x200_0000_0000)
            by (nonlinear_arith)
            requires
                cc.sign == 1 || cc.sign == -1,
                -0x200_0000_0000 <= cc.remainder <= 0x200_0000_0000,
        ;
    }
    let mut out: Vec<BInstr> = Vec::new();
    out.push(BInstr::Move(#[verifier::truncate] (cc.inner_count as i32)));
    out.push(BInstr::Add(#[verifier::truncate] (cc.outer_fact as i32)));
    out = compress_incr_helper(out, cc.sign * cc.chunk, cc.inner_count);
    out.push(BInstr::Move(#[verifier::truncate] ((-cc.inner_count) as i32)));
    out.push(BInstr::Add(#[verifier::truncate] ((cc.sign * cc.remainder) as i32)));
    proof {
        assert(out@ =~= spec_compress_incr(count, chunk, upper));
    }
    out
}

/// The reconstructed length of a stream, counted without building the text.
#[verifier::loop_isolation(false)]
fn recon_len_exec(v: &Vec<BInstr>) -> (r: u128)
    ensures
        r == recon_len(v@),
{
    proof {
        assert(v@.take(0) =~= Seq::<BInstr>::empty());
    }
    let mut r: u128 = 0;
    let mut i: usize = 0;
    while i < v.len()
        invariant
            i <= v@.len(),
            r == recon_len(v@.take(i as int)),
            r <= i * 0x8000_0000,
        decreases v@.len() - i,
    {
        proof {
            lemma_recon_push(v@.take(i as int), v@[i as int]);
            assert(v@.take(i as int).push(v@[i as int]) =~= v@.take(i + 1int));
        }
        let piece: u64 = match v[i] {
            BInstr::Add(n) => {
                if n >= 0 {
                    n as u64
                } else {
                    (-(n as i64)) as u64
                }
            },
            BInstr::Move(n) => {
                if n >= 0 {
                    n as u64
                } else {
                    (-(n as i64)) as u64
                }
            },
            _ => 1u64,
        };
        proof {
            assert(spec_recon_one(v@[i as int]).len() == piece);
        }
        r = r + piece as u128;
        i = i + 1;
    }
    proof {
        assert(v@.take(v@.len() as int) =~= v@);
    }
    r
}

/// Append the whole of `v` to `out`.
#[verifier::loop_isolation(false)]
fn push_all(out: &mut Vec<BInstr>, v: &Vec<BInstr>)
    ensures
        final(out)@ == old(out)@ + v@,
{
    let mut k: usize = 0;
    while k < v.len()
        invariant
            k <= v@.len(),
            out@ == old(out)@ + v@.take(k as int),
        decreases v@.len() - k,
    {
        out.push(v[k]);
        proof {
            assert(old(out)@ + v@.take(k + 1int) =~= (old(out)@ + v@.take(k as int)).push(
                v@[k as int],
            ));
        }
        k = k + 1;
    }
    proof {
        assert(v@.take(v@.len() as int) =~= v@);
    }
}

/// Append `k` copies of `h` to `out`.
#[verifier::loop_isolation(false)]
fn push_repeat(out: &mut Vec<BInstr>, h: BInstr, k: usize)
    ensures
        final(out)@ == old(out)@ + repeated(h, k as int),
{
    let mut t: usize = 0;
    while t < k
        invariant
            t <= k,
            out@ == old(out)@ + repeated(h, t as int),
        decreases k - t,
    {
        out.push(h);
        proof {
            assert(old(out)@ + repeated(h, t + 1int) =~= (old(out)@ + repeated(h, t as int)).push(
                h,
            ));
        }
        t = t + 1;
    }
}

impl Optimizer {
    /// Whether the unsafe I/O folding opt-in is in force.
    pub open spec fn spec_fold_io(&self) -> bool {
        self.adv_opt@.contains(AdvOptions::UnsafeFoldIO)
    }

    #[verifier::loop_isolation(false)]
    fn fold_io_enabled(&self) -> (r: bool)
        ensures
            r == self.spec_fold_io(),
    {
        let mut i: usize = 0;
        while i < self.adv_opt.len()
            invariant
                i <= self.adv_opt@.len(),
                forall|j: int| 0 <= j < i ==> self.adv_opt@[j] != AdvOptions::UnsafeFoldIO,
            decreases self.adv_opt@.len() - i,
        {
            if self.adv_opt[i] == AdvOptions::UnsafeFoldIO {
                return true;
            }
            i = i + 1;
        }
        false
    }

    /// Run the passes that the level selects, in order.
    pub fn apply(&self, program: Vec<BInstr>) -> (r: Vec<BInstr>)
        ensures
            r@ == spec_apply(self.level, self.spec_fold_io(), program@),
    {
        if self.level == 0 {
            return program;
        }
        let mut program = self.pass1_fold(program);
        program = self.pass2_smort_fold(program);
        if self.level >= 4 {
            program = self.pass2_smort_fold(program);
            program = self.pass1_fold(program);
        }
        program
    }

    /// Pass A (see `fold_a`).
    #[verifier::loop_isolation(false)]
    fn pass1_fold(&self, program: Vec<BInstr>) -> (out: Vec<BInstr>)
        ensures
            out@ == fold_a(program@),
    {
        let p = program;
        let ghost p0 = p@;
        let mut out: Vec<BInstr> = Vec::new();
        let mut i: usize = 0;
        proof {
            assert(p0.skip(0) =~= p0);
        }
        while i < p.len()
            invariant
                i <= p0.len(),
                fold_a(p0) == out@ + fold_a(p0.skip(i as int)),
            decreases p0.len() - i,
        {
            let h = p[i];
            let ghost su = p0.skip(i as int);
            match h {
                BInstr::Add(_) | BInstr::Move(_) => {
                    proof {
                        lemma_run_end(su, h);
                        assert(forall|m: int|
                            0 <= m < su.len() ==> #[trigger] su[m] == p0[i + m]);
                    }
                    let mut agg: i32 = 0;
                    let mut j: usize = i;
                    while j < p.len() && kind_eq(h, p[j])
                        invariant
                            i <= j <= p0.len(),
                            j - i <= run_end(su, h),
                            agg == run_wsum(su, j - i),
                        decreases p0.len() - j,
                    {
                        proof {
                            assert(su[(j - i) as int] == p0[j as int]);
                        }
                        let m: i32 = match p[j] {
                            BInstr::Add(n) => n,
                            BInstr::Move(n) => n,
                            _ => 0,
                        };
                        agg = agg.wrapping_add(m);
                        j = j + 1;
                    }
                    proof {
                        if (j - i) < run_end(su, h) {
                            assert(kind_matches(h, su[(j - i) as int]));
                            assert(su[(j - i) as int] == p0[j as int]);
                            assert(false);
                        }
                        assert(j - i == run_end(su, h));
                    }
                    let w: i32 = agg;
                    if w != 0 {
                        match h {
                            BInstr::Add(_) => out.push(BInstr::Add(w)),
                            _ => out.push(BInstr::Move(w)),
                        }
                    }
                    proof {
                        let je = run_end(su, h) as int;
                        assert(fold_a(su) == folded_piece(h, run_wsum(su, je)) + fold_a(
                            su.skip(je),
                        ));
                        assert(su.skip(je) =~= p0.skip(j as int));
                        assert(fold_a(p0) =~= out@ + fold_a(p0.skip(j as int)));
                    }
                    i = j;
                },
                _ => {
                    out.push(h);
                    proof {
                        assert(fold_a(su) == seq![h] + fold_a(su.drop_first()));
                        assert(su.drop_first() =~= p0.skip(i + 1int));
                        assert(fold_a(p0) =~= out@ + fold_a(p0.skip(i + 1int)));
                    }
                    i = i + 1;
                },
            }
        }
        proof {
            assert(p0.skip(i as int).len() == 0);
            assert(fold_a(p0.skip(i as int)) =~= Seq::<BInstr>::empty());
            assert(out@ =~= fold_a(p0));
        }
        out
    }

    /// Pass B (see `spec_smort`).
    #[verifier::rlimit(100)]
    #[verifier::loop_isolation(false)]
    fn pass2_smort_fold(&self, program: Vec<BInstr>) -> (out: Vec<BInstr>)
        ensures
            out@ == spec_smort(self.level, self.spec_fold_io(), program@),
    {
        if self.level < 2 {
            return program;
        }
        let fold_io = self.fold_io_enabled();
        let p = program;
        let ghost p0 = p@;
        let ghost lv = self.level;
        let mut out: Vec<BInstr> = Vec::new();
        let mut i: usize = 0;
        proof {
            assert(p0.skip(0) =~= p0);
        }
        while i < p.len()
            invariant
                i <= p0.len(),
                fold_io == self.spec_fold_io(),
                lv == self.level,
                lv >= 2,
                spec_smort(lv, fold_io, p0) == out@ + spec_smort(lv, fold_io, p0.skip(i as int)),
            decreases p0.len() - i,
        {
            let h = p[i];
            let ghost su = p0.skip(i as int);
            proof {
                assert(su[0] == p0[i as int]);
                assert(su.drop_first() =~= p0.skip(i + 1int));
            }
            match h {
                BInstr::Add(n) => {
                    if n == 0 {
                        i = i + 1;
                        continue;
                    }
                    let chunk: Option<i64> = if self.level == 2 {
                        Some(5)
                    } else {
                        None
                    };
                    let compr = compress_incr(n, chunk, true);
                    let clen = recon_len_exec(&compr);
                    let nabs: u64 = if n >= 0 {
                        n as u64
                    } else {
                        (-(n as i64)) as u64
                    };
                    if clen < nabs as u128 {
                        push_all(&mut out, &compr);
                    } else {
                        out.push(h);
                    }
                    proof {
                        assert(spec_smort(lv, fold_io, p0) =~= out@ + spec_smort(
                            lv,
                            fold_io,
                            p0.skip(i + 1int),
                        ));
                    }
                    i = i + 1;
                },
                BInstr::PutC | BInstr::GetC => {
                    if !fold_io {
                        out.push(h);
                        proof {
                            assert(spec_smort(lv, fold_io, p0) =~= out@ + spec_smort(
                                lv,
                                fold_io,
                                p0.skip(i + 1int),
                            ));
                        }
                        i = i + 1;
                    } else {
                        proof {
                            lemma_run_end(su, h);
                            assert(forall|m: int|
                                0 <= m < su.len() ==> #[trigger] su[m] == p0[i + m]);
                        }
                        let mut j: usize = i;
                        while j < p.len() && kind_eq(h, p[j])
                            invariant
                                i <= j <= p0.len(),
                                j - i <= run_end(su, h),
                            decreases p0.len() - j,
                        {
                            j = j + 1;
                        }
                        proof {
                            if (j - i) < run_end(su, h) {
                                assert(kind_matches(h, su[(j - i) as int]));
                                assert(su[(j - i) as int] == p0[j as int]);
                                assert(false);
                            }
                            assert(j - i == run_end(su, h));
                        }
                        let k = j - i;
                        let mut compr: Vec<BInstr> = Vec::new();
                        compr.push(BInstr::Move(1));
                        let chunk: Option<i64> = if self.level == 2 {
                            Some(5)
                        } else {
                            None
                        };
                        let inner = compress_incr(#[verifier::truncate] (k as i32), chunk, false);
                        push_all(&mut compr, &inner);
                        compr.push(BInstr::LoopStart);
                        compr.push(BInstr::Add(-1));
                        compr.push(BInstr::Move(-1));
                        match h {
                            BInstr::PutC => compr.push(BInstr::PutC),
                            _ => compr.push(BInstr::GetC),
                        }
                        compr.push(BInstr::Move(1));
                        compr.push(BInstr::LoopEnd);
                        compr.push(BInstr::Move(-1));
                        proof {
                            assert(compr@ =~= spec_io_candidate(h, k as int, lv));
                        }
                        let clen = recon_len_exec(&compr);
                        if clen < k as u128 {
                            push_all(&mut out, &compr);
                        } else {
                            push_repeat(&mut out, h, k);
                        }
                        proof {
                            assert(su.skip(k as int) =~= p0.skip(j as int));
                            assert(spec_smort(lv, fold_io, p0) =~= out@ + spec_smort(
                                lv,
                                fold_io,
                                p0.skip(j as int),
                            ));
                        }
                        i = j;
                    }
                },
                _ => {
                    out.push(h);
                    proof {
                        assert(spec_smort(lv, fold_io, p0) =~= out@ + spec_smort(
                            lv,
                            fold_io,
                            p0.skip(i + 1int),
                        ));
                    }
                    i = i + 1;
                },
            }
        }
        proof {
            assert(spec_smort(lv, fold_io, p0.skip(i as int)) =~= Seq::<BInstr>::empty());
            assert(out@ =~= spec_smort(lv, fold_io, p0));
        }
        out
    }
}


// ===== Laws of the optimizer =====

pub proof fn lemma_recon_len_app(a: Seq<BInstr>, b: Seq<BInstr>)
    ensures
        recon_len(a + b) == recon_len(a) + recon_len(b),
{
    crate::ast::lemma_recon_app(a, b);
}

/// The textual length of one instruction.
pub open spec fn recon_len_one(b: BInstr) -> nat {
    spec_recon_one(b).len()
}

proof fn lemma_recon_len_one(b: BInstr)
    ensures
        recon_len(seq![b]) == recon_len_one(b),
        foldable(b) ==> recon_len_one(b) == (if amount(b) >= 0 {
            amount(b)
        } else {
            -amount(b)
        }),
        recon_len_one(b) <= 0x8000_0000,
{
    assert(seq![b].drop_first() =~= Seq::<BInstr>::empty());
    assert(spec_recon(seq![b]) =~= spec_recon_one(b) + spec_recon(Seq::<BInstr>::empty()));
}

/// The wrapped sum of a foldable run is bounded by the run's textual length:
/// either no addition wrapped and the triangle inequality applies, or one
/// did, and then the plain sum was already a full register's worth.
proof fn lemma_wsum_bound(p: Seq<BInstr>, n: int)
    requires
        0 <= n <= p.len(),
        forall|m: int| 0 <= m < n ==> foldable(#[trigger] p[m]),
    ensures
        -(recon_len(p.take(n)) as int) <= run_wsum(p, n) <= recon_len(p.take(n)) as int,
    decreases n,
{
    if n == 0 {
        assert(p.take(0) =~= Seq::<BInstr>::empty());
    } else {
        lemma_wsum_bound(p, n - 1);
        lemma_recon_len_one(p[n - 1]);
        assert(p.take(n) =~= p.take(n - 1) + seq![p[n - 1]]);
        lemma_recon_len_app(p.take(n - 1), seq![p[n - 1]]);
        assert(amount(p[n - 1]) == amount32(p[n - 1]) as int);
    }
}

/// A folded run reconstructs to exactly the magnitude of its wrapped sum.
proof fn lemma_folded_piece_len(h: BInstr, w: i32)
    requires
        foldable(h),
    ensures
        recon_len(folded_piece(h, w)) == (if w >= 0 {
            w as int
        } else {
            -(w as int)
        }),
{
    if w == 0 {
        assert(spec_recon(Seq::<BInstr>::empty()).len() == 0);
    } else {
        let piece = folded_piece(h, w);
        lemma_recon_len_one(piece[0]);
        assert(piece =~= seq![piece[0]]);
    }
}

/// Pass A never lengthens the reconstructed text.
pub proof fn lemma_fold_a_shrinks(p: Seq<BInstr>)
    ensures
        recon_len(fold_a(p)) <= recon_len(p),
    decreases p.len(),
{
    if p.len() > 0 {
        let h = p[0];
        if foldable(h) {
            lemma_run_end(p, h);
            assert(kind_matches(h, h));
            let j = run_end(p, h) as int;
            assert(1 <= j <= p.len());
            lemma_fold_a_shrinks(p.skip(j));
            assert(forall|m: int| 0 <= m < j ==> foldable(#[trigger] p[m]));
            lemma_wsum_bound(p, j);
            lemma_folded_piece_len(h, run_wsum(p, j));
            lemma_recon_len_app(folded_piece(h, run_wsum(p, j)), fold_a(p.skip(j)));
            assert(p =~= p.take(j) + p.skip(j));
            lemma_recon_len_app(p.take(j), p.skip(j));
        } else {
            lemma_fold_a_shrinks(p.drop_first());
            lemma_recon_len_app(seq![h], fold_a(p.drop_first()));
            assert(p =~= seq![h] + p.drop_first());
            lemma_recon_len_app(seq![h], p.drop_first());
        }
    }
}

/// A run of `k` output instructions reconstructs to `k` characters.
proof fn lemma_repeated_len(h: BInstr, k: int)
    requires
        k >= 0,
        recon_len_one(h) == 1,
    ensures
        recon_len(repeated(h, k)) == k,
    decreases k,
{
    if k == 0 {
        assert(repeated(h, 0) =~= Seq::<BInstr>::empty());
    } else {
        lemma_repeated_len(h, k - 1);
        assert(repeated(h, k) =~= repeated(h, k - 1) + seq![h]);
        lemma_recon_len_app(repeated(h, k - 1), seq![h]);
        lemma_recon_len_one(h);
    }
}

/// Pass B never lengthens the reconstructed text: a candidate replaces an
/// instruction or a run only when it is strictly shorter.
pub proof fn lemma_smort_shrinks(level: u8, fold_io: bool, p: Seq<BInstr>)
    ensures
        recon_len(spec_smort(level, fold_io, p)) <= recon_len(p),
    decreases p.len(),
{
    if level < 2 || p.len() == 0 {
    } else {
        let h = p[0];
        let rest = p.drop_first();
        assert(p =~= seq![h] + rest);
        lemma_recon_len_app(seq![h], rest);
        match h {
            BInstr::Add(n) => {
                lemma_smort_shrinks(level, fold_io, rest);
                lemma_recon_len_one(h);
                if n == 0 {
                } else {
                    let chunk: Option<i64> = if level == 2 {
                        Some(5)
                    } else {
                        None
                    };
                    let cand = spec_compress_incr(n, chunk, true);
                    if recon_len(cand) < abs_of(n) {
                        lemma_recon_len_app(cand, spec_smort(level, fold_io, rest));
                    } else {
                        lemma_recon_len_app(seq![h], spec_smort(level, fold_io, rest));
                    }
                }
            },
            BInstr::PutC | BInstr::GetC => {
                if !fold_io {
                    lemma_smort_shrinks(level, fold_io, rest);
                    lemma_recon_len_app(seq![h], spec_smort(level, fold_io, rest));
                } else {
                    lemma_run_end(p, h);
                    assert(kind_matches(h, h));
                    let k = run_end(p, h) as int;
                    assert(1 <= k <= p.len());
                    lemma_smort_shrinks(level, fold_io, p.skip(k));
                    assert(p =~= p.take(k) + p.skip(k));
                    lemma_recon_len_app(p.take(k), p.skip(k));
                    lemma_recon_len_one(h);
                    assert(p.take(k) =~= repeated(h, k)) by {
                        assert(forall|m: int| 0 <= m < k ==> kind_matches(h, #[trigger] p[m]));
                        assert(forall|m: int| 0 <= m < k ==> #[trigger] p.take(k)[m] == p[m]);
                        assert(forall|m: int|
                            0 <= m < k ==> kind_matches(h, #[trigger] p.take(k)[m]) && (
                            #[trigger] p.take(k)[m]) == h);
                    }
                    lemma_repeated_len(h, k);
                    let cand = spec_io_candidate(h, k, level);
                    if recon_len(cand) < k {
                        lemma_recon_len_app(cand, spec_smort(level, fold_io, p.skip(k)));
                    } else {
                        lemma_recon_len_app(repeated(h, k), spec_smort(level, fold_io, p.skip(k)));
                    }
                }
            },
            _ => {
                lemma_smort_shrinks(level, fold_io, rest);
                lemma_recon_len_app(seq![h], spec_smort(level, fold_io, rest));
            },
        }
    }
}

/// Length monotonicity: at any level, the optimised stream reconstructs to at
/// most as many characters as the input stream, so level 0 is never beaten by
/// accident.
pub proof fn lemma_optimizer_shrinks(level: u8, fold_io: bool, p: Seq<BInstr>)
    ensures
        recon_len(spec_apply(level, fold_io, p)) <= recon_len(p),
{
    if level != 0 {
        lemma_fold_a_shrinks(p);
        lemma_smort_shrinks(level, fold_io, fold_a(p));
        if level >= 4 {
            lemma_smort_shrinks(level, fold_io, spec_smort(level, fold_io, fold_a(p)));
            lemma_fold_a_shrinks(
                spec_smort(level, fold_io, spec_smort(level, fold_io, fold_a(p))),
            );
        }
    }
}

// ===== Idempotence of Pass A =====

/// A stream in Pass A normal form: no zero counts, and no two adjacent
/// instructions that a fold would merge.
pub open spec fn normalized(s: Seq<BInstr>) -> bool {
    &&& forall|i: int| 0 <= i < s.len() && foldable(#[trigger] s[i]) ==> amount(s[i]) != 0
    &&& forall|i: int|
        0 <= i < s.len() - 1 && foldable(#[trigger] s[i]) ==> !kind_matches(s[i], s[i + 1])
}

/// A stream none of whose `Add`/`Move` runs sums (after wrapping) to zero.
/// These are the streams on which Pass A loses nothing.
pub open spec fn no_vanishing_runs(p: Seq<BInstr>) -> bool
    decreases p.len()
        via no_vanishing_runs_dec
{
    if p.len() == 0 {
        true
    } else if foldable(p[0]) {
        let j = run_end(p, p[0]);
        &&& run_wsum(p, j as int) != 0
        &&& no_vanishing_runs(p.skip(j as int))
    } else {
        no_vanishing_runs(p.drop_first())
    }
}

#[via_fn]
proof fn no_vanishing_runs_dec(p: Seq<BInstr>) {
    if p.len() > 0 && foldable(p[0]) {
        lemma_run_end(p, p[0]);
        assert(kind_matches(p[0], p[0]));
        assert(run_end(p, p[0]) >= 1);
    }
}

/// Pass A leaves a normalized stream untouched.
pub proof fn lemma_fold_a_normal_id(s: Seq<BInstr>)
    requires
        normalized(s),
    ensures
        fold_a(s) == s,
    decreases s.len(),
{
    if s.len() > 0 {
        let h = s[0];
        if foldable(h) {
            lemma_run_end(s, h);
            assert(kind_matches(h, h));
            let j = run_end(s, h);
            if j >= 2 {
                assert(kind_matches(h, s[1]));
                assert(false);
            }
            assert(j == 1);
            assert(run_wsum(s, 0) == 0);
            assert(run_wsum(s, 1) == amount32(h));
            assert(forall|i: int|
                0 <= i < s.len() - 1 ==> #[trigger] s.skip(1)[i] == s[i + 1]);
            lemma_fold_a_normal_id(s.skip(1));
            let piece = folded_piece(h, amount32(h));
            assert(amount32(h) as int == amount(h));
            assert(amount32(h) != 0);
            assert(piece =~= seq![h]);
            assert(fold_a(s) =~= seq![h] + s.skip(1));
            assert(fold_a(s) =~= s);
        } else {
            assert(forall|i: int|
                0 <= i < s.len() - 1 ==> #[trigger] s.drop_first()[i] == s[i + 1]);
            lemma_fold_a_normal_id(s.drop_first());
            assert(fold_a(s) =~= seq![h] + s.drop_first());
            assert(fold_a(s) =~= s);
        }
    } else {
        assert(fold_a(s) =~= s);
    }
}

/// On a stream without vanishing runs, Pass A's output is normalized, and it
/// opens with the same kind of instruction as the input.
proof fn lemma_fold_a_normalizes(p: Seq<BInstr>)
    requires
        no_vanishing_runs(p),
    ensures
        normalized(fold_a(p)),
        fold_a(p).len() > 0 <==> p.len() > 0,
        p.len() > 0 ==> kind_matches(fold_a(p)[0], p[0]),
    decreases p.len(),
{
    if p.len() > 0 {
        let h = p[0];
        if foldable(h) {
            lemma_run_end(p, h);
            assert(kind_matches(h, h));
            let j = run_end(p, h);
            let w = run_wsum(p, j as int);
            let piece = folded_piece(h, w);
            assert(w != 0);
            assert(piece.len() == 1);
            assert(kind_matches(piece[0], h));
            assert(foldable(piece[0]) && amount(piece[0]) != 0);
            let rest = p.skip(j as int);
            lemma_fold_a_normalizes(rest);
            let fr = fold_a(rest);
            assert(fold_a(p) == piece + fr);
            if fr.len() > 0 {
                assert(rest.len() > 0);
                assert(rest[0] == p[j as int]);
                assert(!kind_matches(h, p[j as int]));
                assert(kind_matches(fr[0], rest[0]));
                assert(!kind_matches(piece[0], fr[0]));
            }
            assert forall|i: int|
                0 <= i < (piece + fr).len() && foldable(#[trigger] (piece + fr)[i]) implies amount(
                (piece + fr)[i],
            ) != 0 by {
                if i >= 1 {
                    assert((piece + fr)[i] == fr[i - 1]);
                }
            }
            assert forall|i: int|
                0 <= i < (piece + fr).len() - 1 && foldable(#[trigger] (piece + fr)[i]) implies
                !kind_matches((piece + fr)[i], (piece + fr)[i + 1]) by {
                if i == 0 {
                    assert((piece + fr)[1] == fr[0]);
                } else {
                    assert((piece + fr)[i] == fr[i - 1]);
                    assert((piece + fr)[i + 1] == fr[i]);
                }
            }
        } else {
            let rest = p.drop_first();
            lemma_fold_a_normalizes(rest);
            let fr = fold_a(rest);
            assert(fold_a(p) == seq![h] + fr);
            assert((seq![h] + fr)[0] == h);
            assert forall|i: int|
                0 <= i < (seq![h] + fr).len() && foldable(#[trigger] (seq![h] + fr)[i]) implies
                amount((seq![h] + fr)[i]) != 0 by {
                if i >= 1 {
                    assert((seq![h] + fr)[i] == fr[i - 1]);
                }
            }
            assert forall|i: int|
                0 <= i < (seq![h] + fr).len() - 1 && foldable(#[trigger] (seq![h] + fr)[i])
                implies !kind_matches((seq![h] + fr)[i], (seq![h] + fr)[i + 1]) by {
                if i >= 1 {
                    assert((seq![h] + fr)[i] == fr[i - 1]);
                    assert((seq![h] + fr)[i + 1] == fr[i]);
                }
            }
        }
    }
}

/// Fold idempotence: on any stream without vanishing runs, applying Pass A
/// twice yields the same result as applying it once.  (On a stream where a
/// run sums to zero the law can fail: dropping the run may make the two
/// neighbouring runs adjacent, and only the second application merges them.)
pub proof fn lemma_fold_a_idempotent(p: Seq<BInstr>)
    requires
        no_vanishing_runs(p),
    ensures
        fold_a(fold_a(p)) == fold_a(p),
{
    lemma_fold_a_normalizes(p);
    lemma_fold_a_normal_id(fold_a(p));
}


/// Executable variant-equality test, mirroring `kind_matches`.
fn kind_eq(a: BInstr, b: BInstr) -> (r: bool)
    ensures
        r == kind_matches(a, b),
{
    match (a, b) {
        (BInstr::Add(_), BInstr::Add(_)) => true,
        (BInstr::Move(_), BInstr::Move(_)) => true,
        (BInstr::PutC, BInstr::PutC) => true,
        (BInstr::GetC, BInstr::GetC) => true,
        (BInstr::LoopStart, BInstr::LoopStart) => true,
        (BInstr::LoopEnd, BInstr::LoopEnd) => true,
        _ => false,
    }
}

} // verus!
