//! Point budget: uniform-stride sampling that always keeps the final point.

use vstd::prelude::*;
use vstd::arithmetic::div_mod::lemma_fundamental_div_mod;
use vstd::arithmetic::div_mod::lemma_fundamental_div_mod_converse;

verus! {

/// The distance between sampled positions when `len` points are cut down to
/// `cap`: the quotient `len / cap`, rounded up. A cap of zero asks for the
/// coarsest stride, which takes the first point only.
pub open spec fn stride(len: int, cap: int) -> int {
    if cap <= 0 {
        len
    } else if len % cap == 0 {
        len / cap
    } else {
        len / cap + 1
    }
}

/// How many of the positions `0, step, 2 * step, ..` lie below `len`.
pub open spec fn stride_count(len: int, step: int) -> int {
    if len <= 0 {
        0
    } else {
        (len - 1) / step + 1
    }
}

/// Every `step`-th element of `s`, starting with the first.
pub open spec fn every_nth<T>(s: Seq<T>, step: int) -> Seq<T>
    recommends
        step > 0,
{
    Seq::new(stride_count(s.len() as int, step) as nat, |k: int| s[k * step])
}

/// Whether the positions `0, step, 2 * step, ..` include `len - 1`.
pub open spec fn reaches_last(len: int, step: int) -> bool {
    (len - 1) % step == 0
}

/// The budgeted form of `s`: `s` itself when it has at most `cap` elements,
/// otherwise every `stride`-th element, followed by the last element of `s`
/// unless the stride already reached it.
pub open spec fn sampled<T>(s: Seq<T>, cap: int) -> Seq<T> {
    if s.len() <= cap {
        s
    } else {
        let step = stride(s.len() as int, cap);
        if reaches_last(s.len() as int, step) {
            every_nth(s, step)
        } else {
            every_nth(s, step).push(s.last())
        }
    }
}

/// A sequence longer than its cap has a positive stride.
pub proof fn lemma_stride_positive(len: int, cap: int)
    requires
        0 <= cap < len,
    ensures
        1 <= stride(len, cap) <= len,
{
    if cap > 0 {
        lemma_fundamental_div_mod(len, cap);
        let q = len / cap;
        let r = len % cap;
        assert(0 <= r < cap);
        assert(q >= 1) by (nonlinear_arith)
            requires
                len == cap * q + r,
                0 <= r < cap,
                cap < len,
        ;
        assert(q <= len && (r != 0 ==> q < len)) by (nonlinear_arith)
            requires
                len == cap * q + r,
                0 <= r < cap,
                q >= 1,
        ;
    }
}

/// The last sampled position: `(count - 1) * step` is the largest multiple
/// of `step` below `len`.
proof fn lemma_last_stride(len: int, step: int)
    requires
        0 < len,
        0 < step,
    ensures
        stride_count(len, step) >= 1,
        (stride_count(len, step) - 1) * step <= len - 1,
        reaches_last(len, step) <==> (stride_count(len, step) - 1) * step == len - 1,
        forall|k: int| 0 <= k < stride_count(len, step) ==> 0 <= #[trigger] (k * step) < len,
{
    let q = (len - 1) / step;
    let r = (len - 1) % step;
    lemma_fundamental_div_mod(len - 1, step);
    assert(0 <= r < step);
    assert(q >= 0) by (nonlinear_arith)
        requires
            len - 1 == step * q + r,
            0 <= r < step,
            len - 1 >= 0,
    ;
    assert(q * step == step * q) by (nonlinear_arith);
    assert forall|k: int| 0 <= k < q + 1 implies 0 <= #[trigger] (k * step) < len by {
        assert(0 <= k * step <= q * step) by (nonlinear_arith)
            requires
                0 <= k <= q,
                0 < step,
        ;
    }
}

/// Caps `points` at `max_points` by taking every `stride`-th point, and
/// appends the true last point when the stride did not reach it.
pub fn sample_points<T: Copy>(points: &[T], max_points: usize) -> (out: Vec<T>)
    ensures
        out@ == sampled(points@, max_points as int),
{
    let len: usize = points.len();
    if len <= max_points {
        let whole = vstd::slice::slice_to_vec(points);
        assert(whole@ =~= points@);
        return whole;
    }
    proof {
        lemma_stride_positive(len as int, max_points as int);
    }
    let step: usize = if max_points == 0 {
        len
    } else if len % max_points == 0 {
        len / max_points
    } else {
        len / max_points + 1
    };
    proof {
        lemma_last_stride(len as int, step as int);
        assert(0 * step == 0);
    }
    let mut out: Vec<T> = Vec::new();
    let mut i: usize = 0;
    loop
        invariant_except_break
            i == out.len() * step,
        invariant
            0 < step,
            len == points.len(),
            i < len,
            forall|k: int| 0 <= k < out.len() ==> 0 <= #[trigger] (k * step) < len,
            forall|k: int| 0 <= k < out.len() ==> out[k] == points[#[trigger] (k * step)],
        ensures
            out.len() >= 1,
            i == (out.len() - 1) * step,
            len - 1 - i < step,
        decreases len - i,
    {
        let ghost taken = out.len() as int;
        out.push(points[i]);
        assert((taken + 1) * step == taken * step + step) by (nonlinear_arith);
        assert((taken + 1 - 1) * step == taken * step);
        if len - 1 - i < step {
            break ;
        }
        i = i + step;
    }
    proof {
        let last = out.len() as int - 1;
        lemma_fundamental_div_mod_converse(len as int - 1, step as int, last, len as int - 1 - i);
        assert(out.len() == stride_count(len as int, step as int));
        assert(out@ =~= every_nth(points@, step as int));
    }
    if i != len - 1 {
        out.push(points[len - 1]);
    }
    out
}

/// Budgeting a non-empty sequence keeps its first and its last element,
/// whatever the cap.
pub proof fn lemma_sampled_keeps_ends<T>(s: Seq<T>, cap: nat)
    requires
        s.len() > 0,
    ensures
        sampled(s, cap as int).len() > 0,
        sampled(s, cap as int).first() == s.first(),
        sampled(s, cap as int).last() == s.last(),
{
    if s.len() > cap {
        let len = s.len() as int;
        let step = stride(len, cap as int);
        lemma_stride_positive(len, cap as int);
        lemma_last_stride(len, step);
        assert(0 * step == 0);
    }
}

/// Budgeting never yields more than one element above the cap, never more
/// than the sequence had, and never fewer than two where it had two.
pub proof fn lemma_sampled_len<T>(s: Seq<T>, cap: nat)
    ensures
        sampled(s, cap as int).len() <= s.len(),
        cap >= 1 ==> sampled(s, cap as int).len() <= cap + 1,
        cap == 0 ==> sampled(s, cap as int).len() <= 2,
        s.len() >= 2 ==> sampled(s, cap as int).len() >= 2,
{
    if s.len() > cap {
        let len = s.len() as int;
        let step = stride(len, cap as int);
        lemma_stride_positive(len, cap as int);
        lemma_last_stride(len, step);
        let count = stride_count(len, step);
        if cap >= 1 {
            lemma_fundamental_div_mod(len, cap as int);
            assert(cap * step >= len) by (nonlinear_arith)
                requires
                    len == cap * (len / (cap as int)) + len % (cap as int),
                    0 <= len % (cap as int) < cap,
                    step == stride(len, cap as int),
                    cap >= 1,
            ;
            assert(count <= cap) by (nonlinear_arith)
                requires
                    (count - 1) * step <= len - 1,
                    cap * step >= len,
                    step >= 1,
            ;
        } else {
            assert(count == 1) by (nonlinear_arith)
                requires
                    (count - 1) * step <= len - 1,
                    step == len,
                    len >= 1,
                    count >= 1,
            ;
        }
        if len >= 2 && reaches_last(len, step) {
            assert(count >= 2) by (nonlinear_arith)
                requires
                    (count - 1) * step == len - 1,
                    len >= 2,
                    step >= 1,
                    count >= 1,
            ;
        }
        if !reaches_last(len, step) {
            assert(count < len) by (nonlinear_arith)
                requires
                    (count - 1) * step <= len - 1,
                    (count - 1) * step != len - 1,
                    step >= 1,
                    count >= 1,
            ;
        } else {
            assert(count <= len) by (nonlinear_arith)
                requires
                    (count - 1) * step <= len - 1,
                    step >= 1,
                    count >= 1,
            ;
        }
    }
}

/// Budgeting twice with one cap gives what budgeting once gives, wherever
/// the first pass came out within the cap, and for every cap below two.
pub proof fn lemma_sampled_idempotent<T>(s: Seq<T>, cap: nat)
    requires
        cap <= 1 || sampled(s, cap as int).len() <= cap,
    ensures
        sampled(sampled(s, cap as int), cap as int) == sampled(s, cap as int),
{
    let once = sampled(s, cap as int);
    if once.len() > cap {
        lemma_sampled_len(s, cap);
        lemma_sampled_keeps_ends(s, cap);
        let len = once.len() as int;
        let step = stride(len, cap as int);
        assert(step == len) by {
            if cap == 1 {
                assert(len % 1 == 0 && len / 1 == len);
            }
        }
        lemma_last_stride(len, step);
        let count = stride_count(len, step);
        assert(count == 1) by (nonlinear_arith)
            requires
                (count - 1) * step <= len - 1,
                step == len,
                len >= 1,
                count >= 1,
        ;
        assert(0 * step == 0);
        assert(sampled(once, cap as int) =~= once);
    }
}

/// Where the first pass came out above a cap of two or more, a second pass
/// with the same cap takes points away again: beyond these inputs budgeting
/// twice is not budgeting once.
pub proof fn lemma_sampled_shrinks<T>(s: Seq<T>, cap: nat)
    requires
        cap >= 2,
        sampled(s, cap as int).len() > cap,
    ensures
        sampled(sampled(s, cap as int), cap as int).len() < sampled(s, cap as int).len(),
{
    let once = sampled(s, cap as int);
    lemma_sampled_len(s, cap);
    let len = once.len() as int;
    assert(len == cap + 1);
    lemma_fundamental_div_mod_converse(len, cap as int, 1, 1);
    let step = stride(len, cap as int);
    assert(step == 2);
    lemma_last_stride(len, step);
    let count = stride_count(len, step);
    lemma_fundamental_div_mod(len - 1, 2);
    assert(count - 1 == (len - 1) / 2);
}

} // verus!
