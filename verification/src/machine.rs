//! A tape-machine model of the output language, for straight-line (loop-free)
//! streams, and the proof that the contiguous fold preserves what such a
//! stream does: the same cells, the same pointer, and the same bytes read and
//! written.
//!
//! The model stops at straight-line code on purpose.  The exponential-chunk
//! passes (levels two and above) rewrite through scratch cells to the right
//! of the current one without tracking whether those cells are live, so they
//! preserve behaviour only on tapes whose scratch cells are dead; that
//! analysis is outside this model.
use crate::ast::BInstr;
use crate::optimizer::fold_a;
use crate::optimizer::folded_piece;
use crate::optimizer::foldable;
use crate::optimizer::kind_matches;
use crate::optimizer::lemma_run_end;
use crate::optimizer::run_end;
use crate::optimizer::run_sum;
use crate::optimizer::run_wsum;
use crate::optimizer::spec_apply;
use crate::optimizer::wadd;
use vstd::prelude::*;

verus! {

/// The whole machine: the byte tape, the cell pointer, the input bytes not
/// yet read, and the bytes written so far.
#[verifier::ext_equal]
pub struct MachineState {
    pub tape: Map<int, u8>,
    pub ptr: int,
    pub input: Seq<u8>,
    pub output: Seq<u8>,
}

/// The tape assigns a byte to every cell.
pub open spec fn total_tape(st: MachineState) -> bool {
    forall|p: int| st.tape.dom().contains(p)
}

pub open spec fn cell(t: Map<int, u8>, p: int) -> u8
    recommends
        t.dom().contains(p),
{
    if t.dom().contains(p) {
        t[p]
    } else {
        0
    }
}

/// A cell changed by `n`, wrapping at a byte.
pub open spec fn add8(v: u8, n: int) -> u8 {
    (((v as int) + n) % 256) as u8
}

/// One straight-line step; reading past the end of the input leaves the cell
/// unchanged, and bracket instructions (never straight-line) do nothing.
pub open spec fn step(st: MachineState, b: BInstr) -> MachineState {
    match b {
        BInstr::Add(n) => MachineState {
            tape: st.tape.insert(st.ptr, add8(cell(st.tape, st.ptr), n as int)),
            ..st
        },
        BInstr::Move(n) => MachineState { ptr: st.ptr + n, ..st },
        BInstr::PutC => MachineState { output: st.output.push(cell(st.tape, st.ptr)), ..st },
        BInstr::GetC => {
            if st.input.len() > 0 {
                MachineState {
                    tape: st.tape.insert(st.ptr, st.input[0]),
                    input: st.input.drop_first(),
                    ..st
                }
            } else {
                st
            }
        },
        _ => st,
    }
}

/// Run a straight-line stream from a state.
pub open spec fn run_straight(p: Seq<BInstr>, st: MachineState) -> MachineState
    decreases p.len(),
{
    if p.len() == 0 {
        st
    } else {
        run_straight(p.drop_first(), step(st, p[0]))
    }
}

/// A stream with no bracket instructions.
pub open spec fn loop_free(p: Seq<BInstr>) -> bool {
    forall|i: int| 0 <= i < p.len() ==> !(#[trigger] p[i] is LoopStart) && !(p[i] is LoopEnd)
}

/// No `Move` run wraps while it is summed: every partial sum stays inside an
/// `i32`.  A cell wraps at a byte, so wrapped `Add` runs are harmless, but
/// the pointer does not wrap at a register, so a wrapped `Move` run would
/// genuinely walk somewhere else.
pub open spec fn move_sums_fit(p: Seq<BInstr>) -> bool
    decreases p.len()
        via move_sums_fit_dec
{
    if p.len() == 0 {
        true
    } else if foldable(p[0]) {
        let j = run_end(p, p[0]);
        &&& (p[0] is Move ==> forall|m: int|
            0 <= m <= j ==> -0x8000_0000 <= #[trigger] run_sum(p, m) <= 0x7fff_ffff)
        &&& move_sums_fit(p.skip(j as int))
    } else {
        move_sums_fit(p.drop_first())
    }
}

#[via_fn]
proof fn move_sums_fit_dec(p: Seq<BInstr>) {
    if p.len() > 0 && foldable(p[0]) {
        lemma_run_end(p, p[0]);
        assert(kind_matches(p[0], p[0]));
        assert(run_end(p, p[0]) >= 1);
    }
}

/// The wrapped sum agrees with the plain sum modulo 256: each wrap shifts
/// the value by a multiple of 2^32, itself a multiple of 256.
proof fn lemma_wsum_mod(p: Seq<BInstr>, n: int)
    ensures
        (run_wsum(p, n) as int) % 256 == run_sum(p, n) % 256,
    decreases n,
{
    if n > 0 {
        lemma_wsum_mod(p, n - 1);
        let x = run_wsum(p, n - 1) as int;
        let s = run_sum(p, n - 1);
        let y = crate::optimizer::amount32(p[n - 1]) as int;
        let r = wadd(run_wsum(p, n - 1), crate::optimizer::amount32(p[n - 1])) as int;
        assert(r == x + y || r == x + y - 0x1_0000_0000 || r == x + y + 0x1_0000_0000);
        vstd::arithmetic::div_mod::lemma_mod_multiples_vanish(-0x100_0000, x + y, 256);
        vstd::arithmetic::div_mod::lemma_mod_multiples_vanish(0x100_0000, x + y, 256);
        assert(r % 256 == (x + y) % 256);
        vstd::arithmetic::div_mod::lemma_add_mod_noop(x, y, 256);
        vstd::arithmetic::div_mod::lemma_add_mod_noop(s, y, 256);
        assert(crate::optimizer::amount(p[n - 1]) == y);
    }
}

/// When no partial sum leaves the range of an `i32`, nothing wraps and the
/// two sums coincide.
proof fn lemma_wsum_exact(p: Seq<BInstr>, n: int)
    requires
        forall|m: int| 0 <= m <= n ==> -0x8000_0000 <= #[trigger] run_sum(p, m) <= 0x7fff_ffff,
    ensures
        run_wsum(p, n) as int == run_sum(p, n),
    decreases n,
{
    if n > 0 {
        lemma_wsum_exact(p, n - 1);
        assert(run_sum(p, n - 1) == run_wsum(p, n - 1) as int);
        assert(crate::optimizer::amount(p[n - 1]) == crate::optimizer::amount32(p[n - 1]) as int);
    }
}

/// Congruent counts change a byte the same way.
proof fn lemma_add8_congruent(v: u8, a: int, b: int)
    requires
        a % 256 == b % 256,
    ensures
        add8(v, a) == add8(v, b),
{
    vstd::arithmetic::div_mod::lemma_add_mod_noop(v as int, a, 256);
    vstd::arithmetic::div_mod::lemma_add_mod_noop(v as int, b, 256);
    vstd::arithmetic::div_mod::lemma_mod_bound(v as int, 256);
    vstd::arithmetic::div_mod::lemma_small_mod(v as nat, 256);
}

// ===== Supporting lemmas =====

proof fn lemma_run_straight_app(a: Seq<BInstr>, b: Seq<BInstr>, st: MachineState)
    ensures
        run_straight(a + b, st) == run_straight(b, run_straight(a, st)),
    decreases a.len(),
{
    if a.len() == 0 {
        assert(a + b =~= b);
    } else {
        assert((a + b).drop_first() =~= a.drop_first() + b);
        lemma_run_straight_app(a.drop_first(), b, step(st, a[0]));
    }
}

/// Adding twice to a byte is adding the sum once.
proof fn lemma_add8_assoc(v: u8, a: int, b: int)
    ensures
        add8(add8(v, a), b) == add8(v, a + b),
{
    let u = ((v as int) + a) % 256;
    vstd::arithmetic::div_mod::lemma_mod_bound((v as int) + a, 256);
    vstd::arithmetic::div_mod::lemma_small_mod(u as nat, 256);
    vstd::arithmetic::div_mod::lemma_add_mod_noop(u, b, 256);
    vstd::arithmetic::div_mod::lemma_add_mod_noop((v as int) + a, b, 256);
}

/// Adding zero to a byte changes nothing.
proof fn lemma_add8_zero(v: u8)
    ensures
        add8(v, 0) == v,
{
    vstd::arithmetic::div_mod::lemma_small_mod(v as nat, 256);
}

/// A run of `Add` instructions writes the run's summed count into the
/// current cell and changes nothing else.
proof fn lemma_add_run(p: Seq<BInstr>, k: int, st: MachineState)
    requires
        1 <= k <= p.len(),
        forall|m: int| 0 <= m < k ==> (#[trigger] p[m]) is Add,
    ensures
        run_straight(p.take(k), st) == (MachineState {
            tape: st.tape.insert(st.ptr, add8(cell(st.tape, st.ptr), run_sum(p, k))),
            ..st
        }),
    decreases k,
{
    reveal_with_fuel(run_straight, 3);
    let v = cell(st.tape, st.ptr);
    if k == 1 {
        assert(run_sum(p, 0) == 0);
        assert(run_sum(p, 1) == amount_of(p[0]));
        let one = p.take(1);
        assert(one.drop_first() =~= Seq::<BInstr>::empty());
        assert(run_straight(one, st) == step(st, p[0]));
    } else {
        lemma_add_run(p, k - 1, st);
        let st1 = run_straight(p.take(k - 1), st);
        assert(p.take(k) =~= p.take(k - 1) + seq![p[k - 1]]);
        lemma_run_straight_app(p.take(k - 1), seq![p[k - 1]], st);
        assert(seq![p[k - 1]].drop_first() =~= Seq::<BInstr>::empty());
        assert(run_straight(seq![p[k - 1]], st1) == step(st1, p[k - 1]));
        assert(cell(st1.tape, st1.ptr) == add8(v, run_sum(p, k - 1)));
        lemma_add8_assoc(v, run_sum(p, k - 1), amount_of(p[k - 1]));
        assert(step(st1, p[k - 1]).tape =~= st.tape.insert(st.ptr, add8(v, run_sum(p, k))));
        assert(run_straight(p.take(k), st) =~= MachineState {
            tape: st.tape.insert(st.ptr, add8(v, run_sum(p, k))),
            ..st
        });
    }
}

spec fn amount_of(b: BInstr) -> int {
    crate::optimizer::amount(b)
}

/// A run of `Move` instructions walks the pointer by the run's summed count
/// and changes nothing else.
proof fn lemma_move_run(p: Seq<BInstr>, k: int, st: MachineState)
    requires
        0 <= k <= p.len(),
        forall|m: int| 0 <= m < k ==> (#[trigger] p[m]) is Move,
    ensures
        run_straight(p.take(k), st) == (MachineState { ptr: st.ptr + run_sum(p, k), ..st }),
    decreases k,
{
    reveal_with_fuel(run_straight, 3);
    if k == 0 {
        assert(p.take(0) =~= Seq::<BInstr>::empty());
        assert(run_straight(p.take(0), st) =~= MachineState { ptr: st.ptr + 0, ..st });
    } else {
        lemma_move_run(p, k - 1, st);
        let st1 = run_straight(p.take(k - 1), st);
        assert(p.take(k) =~= p.take(k - 1) + seq![p[k - 1]]);
        lemma_run_straight_app(p.take(k - 1), seq![p[k - 1]], st);
        assert(seq![p[k - 1]].drop_first() =~= Seq::<BInstr>::empty());
        assert(run_straight(seq![p[k - 1]], st1) == step(st1, p[k - 1]));
        assert(run_straight(p.take(k), st) =~= MachineState {
            ptr: st.ptr + run_sum(p, k),
            ..st
        });
    }
}

/// Stepping keeps the tape total.
proof fn lemma_step_total(st: MachineState, b: BInstr)
    requires
        total_tape(st),
    ensures
        total_tape(step(st, b)),
{
}

proof fn lemma_run_total(p: Seq<BInstr>, st: MachineState)
    requires
        total_tape(st),
    ensures
        total_tape(run_straight(p, st)),
    decreases p.len(),
{
    if p.len() > 0 {
        lemma_step_total(st, p[0]);
        lemma_run_total(p.drop_first(), step(st, p[0]));
    }
}

// ===== The preservation theorem =====

/// The contiguous fold preserves straight-line behaviour: on any total tape,
/// the folded stream leaves the very same machine state — same cells, same
/// pointer, same bytes read and written — as the stream it came from.  Only
/// `Move` runs whose summation wraps an `i32` are excluded (see
/// `move_sums_fit`): there the fold genuinely changes where the pointer
/// lands.
pub proof fn lemma_fold_preserves_straight(p: Seq<BInstr>, st: MachineState)
    requires
        loop_free(p),
        move_sums_fit(p),
        total_tape(st),
    ensures
        run_straight(fold_a(p), st) == run_straight(p, st),
    decreases p.len(),
{
    reveal_with_fuel(run_straight, 3);
    if p.len() > 0 {
        let h = p[0];
        if foldable(h) {
            lemma_run_end(p, h);
            assert(kind_matches(h, h));
            let j = run_end(p, h) as int;
            assert(1 <= j <= p.len());
            let s = run_sum(p, j);
            let w = run_wsum(p, j);
            let piece = folded_piece(h, w);
            let rest = p.skip(j);
            assert(p =~= p.take(j) + rest);
            lemma_run_straight_app(p.take(j), rest, st);
            let st1 = run_straight(p.take(j), st);
            assert(forall|m: int|
                0 <= m < rest.len() ==> #[trigger] rest[m] == p[m + j]);
            assert(loop_free(rest));
            assert(move_sums_fit(rest));
            lemma_run_total(p.take(j), st);
            lemma_fold_preserves_straight(rest, st1);
            lemma_run_straight_app(piece, fold_a(rest), st);
            let stp = run_straight(piece, st);
            if h is Add {
                lemma_add_run(p, j, st);
                lemma_wsum_mod(p, j);
                lemma_add8_congruent(cell(st.tape, st.ptr), w as int, s);
                if w == 0 {
                    lemma_add8_zero(cell(st.tape, st.ptr));
                    assert(add8(cell(st.tape, st.ptr), s) == cell(st.tape, st.ptr));
                    assert(st1.tape =~= st.tape);
                    assert(st1 =~= st);
                    assert(piece =~= Seq::<BInstr>::empty());
                    assert(stp == st1);
                } else {
                    assert(piece =~= seq![BInstr::Add(w)]);
                    assert(piece.drop_first() =~= Seq::<BInstr>::empty());
                    assert(stp == step(st, BInstr::Add(w)));
                    assert(stp =~= st1);
                }
            } else {
                lemma_move_run(p, j, st);
                lemma_wsum_exact(p, j);
                assert(w as int == s);
                if w == 0 {
                    assert(st1 =~= st);
                    assert(piece =~= Seq::<BInstr>::empty());
                    assert(stp == st1);
                } else {
                    assert(piece =~= seq![BInstr::Move(w)]);
                    assert(piece.drop_first() =~= Seq::<BInstr>::empty());
                    assert(stp == step(st, BInstr::Move(w)));
                    assert(stp =~= st1);
                }
            }
            assert(run_straight(fold_a(p), st) == run_straight(fold_a(rest), stp));
            assert(run_straight(p, st) == run_straight(rest, st1));
        } else {
            let rest = p.drop_first();
            assert(forall|m: int|
                0 <= m < rest.len() ==> #[trigger] rest[m] == p[m + 1]);
            assert(loop_free(rest));
            lemma_step_total(st, h);
            lemma_fold_preserves_straight(rest, step(st, h));
            assert(fold_a(p) == seq![h] + fold_a(rest));
            lemma_run_straight_app(seq![h], fold_a(rest), st);
            assert(seq![h].drop_first() =~= Seq::<BInstr>::empty());
            assert(run_straight(seq![h], st) == step(st, h));
        }
    } else {
        assert(fold_a(p) =~= p);
    }
}

/// Semantic preservation at the levels that run only the contiguous fold:
/// the optimised stream executes exactly as the input stream does.
pub proof fn lemma_optimizer_preserves_straight(
    level: u8,
    fold_io: bool,
    p: Seq<BInstr>,
    st: MachineState,
)
    requires
        level <= 1,
        loop_free(p),
        move_sums_fit(p),
        total_tape(st),
    ensures
        run_straight(spec_apply(level, fold_io, p), st) == run_straight(p, st),
{
    if level == 1 {
        lemma_fold_preserves_straight(p, st);
    }
}

} // verus!
