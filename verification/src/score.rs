//! Time-decay scoring: turns a placement history into a workspace choice.
//!
//! Each placement is weighted by how long ago it happened and the weights
//! are summed per workspace; the workspace with the greatest sum wins.  The
//! weight approximates the exponential decay `e^(-age/tau)` in fixed-point
//! integer arithmetic at a scale of one million: the whole-multiples-of-tau
//! part is a repeated multiplication by `e^(-1)`, the remainder is bridged
//! linearly.  The weight is 1.0 at age zero (and for timestamps in the
//! future), never negative, and never above 1.0.
//!
//! Ties between workspaces with equal summed scores break toward the lowest
//! workspace id, so the choice is deterministic.

use vstd::prelude::*;

use crate::codec::Workspace;

verus! {

/// Fixed-point scale: this weight stands for 1.0.
pub const SCALE: i64 = 1_000_000;

/// `e^(-1)` at the fixed-point scale.
pub const E_INV: i64 = 367_879;

/// `e^(-k)` at the fixed-point scale, by repeated multiplication.
pub open spec fn expneg(k: nat) -> int
    decreases k,
{
    if k == 0 {
        SCALE as int
    } else {
        expneg((k - 1) as nat) * E_INV / (SCALE as int)
    }
}

/// The linear bridge between `e^(-k)` and `e^(-(k+1))` for the remainder
/// `r` of the age modulo `tau`.
pub open spec fn frac_weight(r: int, tau: int) -> int {
    SCALE - (SCALE - E_INV) * r / tau
}

/// The decay weight of a placement of age `age` seconds under decay
/// constant `tau`: a fixed-point approximation of `e^(-age/tau)`.
/// An age at or below zero (a timestamp in the future) weighs 1.0.
pub open spec fn decay_weight(age: int, tau: int) -> int {
    if age <= 0 {
        SCALE as int
    } else {
        expneg((age / tau) as nat) * frac_weight(age % tau, tau) / (SCALE as int)
    }
}

/// `expneg` stays within the fixed-point unit interval.
proof fn lemma_expneg_bounds(k: nat)
    ensures
        0 <= expneg(k) <= SCALE,
    decreases k,
{
    if k > 0 {
        lemma_expneg_bounds((k - 1) as nat);
        let e = expneg((k - 1) as nat);
        assert(e * E_INV <= SCALE * E_INV);
        assert(e * E_INV >= 0);
        assert(e * E_INV / (SCALE as int) <= SCALE * E_INV / (SCALE as int));
    }
}

/// Once `expneg` reaches zero it stays zero.
proof fn lemma_expneg_absorb(i: nat, k: nat)
    requires
        i <= k,
        expneg(i) == 0,
    ensures
        expneg(k) == 0,
    decreases k - i,
{
    if i < k {
        assert(expneg(i + 1) == expneg(i) * E_INV / (SCALE as int));
        lemma_expneg_absorb(i + 1, k);
    }
}

/// The remainder bridge stays within `E_INV ..= SCALE` for remainders in
/// `0 .. tau`.
proof fn lemma_frac_weight_bounds(r: int, tau: int)
    requires
        0 <= r < tau,
    ensures
        E_INV <= frac_weight(r, tau) <= SCALE,
{
    let d = (SCALE - E_INV) as int;
    assert(d * r >= 0);
    assert(d * r <= d * tau) by (nonlinear_arith)
        requires 0 <= r < tau, d >= 0;
    vstd::arithmetic::div_mod::lemma_div_is_ordered(d * r, d * tau, tau);
    assert(d * tau == tau * d) by (nonlinear_arith);
    vstd::arithmetic::div_mod::lemma_div_multiples_vanish(d, tau);
    assert(d * tau / tau == d);
    assert(d * r / tau <= d);
    vstd::arithmetic::div_mod::lemma_div_pos_is_pos(d * r, tau);
}

/// Computes the decay weight of a placement made at `timestamp`, seen from
/// `now`, under decay constant `tau`.
pub fn weight(now: i64, timestamp: i64, tau: i64) -> (w: i64)
    requires
        tau >= 1,
    ensures
        w as int == decay_weight(now - timestamp, tau as int),
        0 <= w <= SCALE,
{
    let age: i128 = now as i128 - timestamp as i128;
    if age <= 0 {
        return SCALE;
    }
    let k: i128 = age / (tau as i128);
    let r: i128 = age % (tau as i128);
    proof {
        assert(k as int == (now - timestamp) as int / (tau as int));
        assert(r as int == (now - timestamp) as int % (tau as int));
        vstd::arithmetic::div_mod::lemma_mod_bound(age as int, tau as int);
        vstd::arithmetic::div_mod::lemma_div_pos_is_pos(age as int, tau as int);
    }
    let mut w: i64 = SCALE;
    let mut i: i128 = 0;
    while i < k && w > 0
        invariant
            0 <= i <= k,
            w as int == expneg(i as nat),
            0 <= w <= SCALE,
            k as int == (now - timestamp) as int / (tau as int),
        decreases k - i,
    {
        proof {
            lemma_expneg_bounds((i + 1) as nat);
            assert(expneg((i + 1) as nat) == expneg(i as nat) * E_INV / (SCALE as int));
        }
        w = ((w as i128) * (E_INV as i128) / (SCALE as i128)) as i64;
        i = i + 1;
    }
    proof {
        if w == 0 {
            lemma_expneg_absorb(i as nat, k as nat);
        }
        assert(w as int == expneg(k as nat));
        lemma_frac_weight_bounds(r as int, tau as int);
    }
    let f: i64 = SCALE - (((SCALE - E_INV) as i128) * r / (tau as i128)) as i64;
    proof {
        assert(f as int == frac_weight(r as int, tau as int));
        assert((w as int) * (f as int) >= 0);
        assert((w as int) * (f as int) <= SCALE * SCALE) by (nonlinear_arith)
            requires 0 <= w as int <= SCALE, 0 <= f as int <= SCALE;
        vstd::arithmetic::div_mod::lemma_div_is_ordered(
            (w as int) * (f as int),
            SCALE * (SCALE as int),
            SCALE as int,
        );
        vstd::arithmetic::div_mod::lemma_div_multiples_vanish(SCALE as int, SCALE as int);
        vstd::arithmetic::div_mod::lemma_div_pos_is_pos((w as int) * (f as int), SCALE as int);
    }
    let res: i64 = ((w as i128) * (f as i128) / (SCALE as i128)) as i64;
    res
}

/// The summed decay score of workspace `id` over a placement history.
pub open spec fn score_of(ws: Seq<Workspace>, id: i32, now: int, tau: int) -> int
    decreases ws.len(),
{
    if ws.len() == 0 {
        0
    } else {
        score_of(ws.drop_last(), id, now, tau) + if ws.last().workspace_id == id {
            decay_weight(now - ws.last().timestamp, tau)
        } else {
            0
        }
    }
}

/// True iff some placement of the history is on workspace `id`.
pub open spec fn has_id(ws: Seq<Workspace>, id: i32) -> bool {
    exists|i: int| 0 <= i < ws.len() && ws[i].workspace_id == id
}

/// The choice the score engine owes: nothing for an empty history, else
/// the workspace with the greatest summed score, lowest id on a tie.
pub open spec fn is_selected(ws: Seq<Workspace>, now: int, tau: int, r: Option<i32>) -> bool {
    match r {
        None => ws.len() == 0,
        Some(w) => ws.len() > 0 && has_id(ws, w) && forall|o: i32|
            #[trigger] has_id(ws, o) ==> score_of(ws, o, now, tau) < score_of(ws, w, now, tau) || (
            score_of(ws, o, now, tau) == score_of(ws, w, now, tau) && w <= o),
    }
}

/// Appending one placement adds its weight to exactly its workspace's
/// score.
proof fn lemma_score_step(s: Seq<Workspace>, e: Workspace, id: i32, now: int, tau: int)
    ensures
        score_of(s.push(e), id, now, tau) == score_of(s, id, now, tau) + if e.workspace_id == id {
            decay_weight(now - e.timestamp, tau)
        } else {
            0
        },
{
    assert(s.push(e).drop_last() =~= s);
    assert(s.push(e).last() == e);
}

/// A workspace no placement mentions has score zero.
proof fn lemma_score_absent(ws: Seq<Workspace>, id: i32, now: int, tau: int)
    requires
        !has_id(ws, id),
    ensures
        score_of(ws, id, now, tau) == 0,
    decreases ws.len(),
{
    if ws.len() > 0 {
        assert(!has_id(ws.drop_last(), id)) by {
            if has_id(ws.drop_last(), id) {
                let i = choose|i: int|
                    0 <= i < ws.drop_last().len() && ws.drop_last()[i].workspace_id == id;
                assert(ws[i].workspace_id == id);
            }
        }
        lemma_score_absent(ws.drop_last(), id, now, tau);
        assert(ws.last().workspace_id != id) by {
            if ws.last().workspace_id == id {
                assert(ws[ws.len() - 1].workspace_id == id);
            }
        }
    }
}

/// An empty history selects nothing.  (`selectWorkspace([], tau)` is none.)
pub proof fn lemma_select_empty(now: int, tau: int, r: Option<i32>)
    requires
        is_selected(Seq::empty(), now, tau, r),
    ensures
        r is None,
{
}

/// A one-placement history selects that placement's workspace, whatever
/// the decay constant.  (`selectWorkspace([(w, t)], tau)` is `w`.)
pub proof fn lemma_select_singleton(w: Workspace, now: int, tau: int, r: Option<i32>)
    requires
        is_selected(seq![w], now, tau, r),
    ensures
        r == Some(w.workspace_id),
{
    match r {
        None => {
            assert(seq![w].len() == 1);
        },
        Some(x) => {
            let i = choose|i: int| 0 <= i < seq![w].len() && seq![w][i].workspace_id == x;
            assert(i == 0);
        },
    }
}

/// True iff `id` is one of the accumulated ids.
spec fn in_acc(a: Seq<(i32, i128)>, id: i32) -> bool {
    exists|j: int| 0 <= j < a.len() && a[j].0 == id
}

/// Chooses the workspace a new window of this history belongs on: the
/// workspace with the greatest summed decay score.  Returns `None` for an
/// empty history.  Ties break toward the lowest workspace id, so the
/// choice is deterministic.
pub fn calculate_workspace(workspaces: &Vec<Workspace>, tau: i64, now: i64) -> (r: Option<i32>)
    requires
        tau >= 1,
    ensures
        is_selected(workspaces@, now as int, tau as int, r),
{
    let ghost full = workspaces@;
    let mut acc: Vec<(i32, i128)> = Vec::new();
    let mut i: usize = 0;
    while i < workspaces.len()
        invariant
            0 <= i <= full.len(),
            full == workspaces@,
            tau >= 1,
            forall|j1: int, j2: int|
                0 <= j1 < j2 < acc@.len() ==> (#[trigger] acc@[j1]).0 != (#[trigger] acc@[j2]).0,
            forall|j: int|
                0 <= j < acc@.len() ==> (#[trigger] acc@[j]).1 == score_of(
                    full.take(i as int),
                    acc@[j].0,
                    now as int,
                    tau as int,
                ),
            forall|j: int| 0 <= j < acc@.len() ==> has_id(full.take(i as int), (#[trigger] acc@[j]).0),
            forall|idx: int| 0 <= idx < i ==> in_acc(acc@, full[idx].workspace_id),
            forall|j: int| 0 <= j < acc@.len() ==> 0 <= (#[trigger] acc@[j]).1 <= (i as i128)
                * 1_000_000,
        decreases full.len() - i,
    {
        let entry = workspaces[i];
        let wgt: i128 = weight(now, entry.timestamp, tau) as i128;
        let ghost pre = full.take(i as int);
        let ghost post = full.take(i + 1);
        proof {
            assert(post =~= pre.push(entry));
            assert forall|id: i32| true implies score_of(post, id, now as int, tau as int)
                == score_of(pre, id, now as int, tau as int) + (if entry.workspace_id == id {
                decay_weight(now - entry.timestamp, tau as int)
            } else {
                0
            }) by {
                lemma_score_step(pre, entry, id, now as int, tau as int);
            }
        }
        // find the slot of this workspace id, if any
        let mut j: usize = 0;
        let mut found = false;
        while j < acc.len() && !found
            invariant
                0 <= j <= acc@.len(),
                found ==> j < acc@.len() && acc@[j as int].0 == entry.workspace_id,
                !found ==> forall|j2: int| 0 <= j2 < j ==> (#[trigger] acc@[j2]).0
                    != entry.workspace_id,
            decreases acc@.len() - j + if found { 0int } else { 1int },
        {
            if acc[j].0 == entry.workspace_id {
                found = true;
            } else {
                j = j + 1;
            }
        }
        let ghost acc0 = acc@;
        if found {
            let old_entry = acc.remove(j);
            acc.insert(j, (old_entry.0, old_entry.1 + wgt));
            proof {
                assert(acc@ =~= acc0.update(j as int, (old_entry.0, (old_entry.1 + wgt) as i128)));
            }
        } else {
            acc.push((entry.workspace_id, wgt));
            proof {
                assert(!has_id(pre, entry.workspace_id)) by {
                    if has_id(pre, entry.workspace_id) {
                        let idx = choose|idx: int|
                            0 <= idx < pre.len() && pre[idx].workspace_id == entry.workspace_id;
                        assert(in_acc(acc0, full[idx].workspace_id));
                        let j2 = choose|j2: int|
                            0 <= j2 < acc0.len() && acc0[j2].0 == entry.workspace_id;
                    }
                }
                lemma_score_absent(pre, entry.workspace_id, now as int, tau as int);
            }
        }
        proof {
            assert forall|jj: int| 0 <= jj < acc@.len() implies (#[trigger] acc@[jj]).1
                == score_of(post, acc@[jj].0, now as int, tau as int) && 0 <= acc@[jj].1 <= ((i
                + 1) as i128) * 1_000_000 by {
                if found {
                    if jj == j {
                        assert(acc@[jj].0 == entry.workspace_id);
                        assert(acc0[jj].1 == score_of(pre, entry.workspace_id, now as int, tau as int));
                    } else {
                        assert(acc@[jj] == acc0[jj]);
                        assert(acc0[j as int].0 == entry.workspace_id);
                        assert(acc0[jj].0 != entry.workspace_id);
                    }
                } else {
                    if jj == acc@.len() - 1 {
                        assert(acc@[jj].0 == entry.workspace_id);
                        assert(score_of(pre, entry.workspace_id, now as int, tau as int) == 0);
                    } else {
                        assert(acc@[jj] == acc0[jj]);
                        assert(acc0[jj].0 != entry.workspace_id);
                    }
                }
            }
        }
        proof {
            assert forall|idx: int| 0 <= idx < i + 1 implies in_acc(
                acc@,
                full[idx].workspace_id,
            ) by {
                if idx < i {
                    let jw = choose|jw: int|
                        0 <= jw < acc0.len() && acc0[jw].0 == full[idx].workspace_id;
                    assert(acc@[jw].0 == full[idx].workspace_id);
                } else {
                    if found {
                        assert(acc@[j as int].0 == full[idx].workspace_id);
                    } else {
                        assert(acc@[acc@.len() - 1].0 == full[idx].workspace_id);
                    }
                }
            }
            assert forall|jj: int| 0 <= jj < acc@.len() implies has_id(post, (#[trigger] acc@[jj]).0)
            by {
                if !found && jj == acc@.len() - 1 {
                    assert(post[i as int].workspace_id == acc@[jj].0);
                } else {
                    let iw = choose|iw: int|
                        0 <= iw < pre.len() && pre[iw].workspace_id == acc@[jj].0;
                    assert(post[iw].workspace_id == acc@[jj].0);
                }
            }
        }
        i = i + 1;
    }
    proof {
        assert(full.take(full.len() as int) =~= full);
    }
    if acc.len() == 0 {
        proof {
            if full.len() > 0 {
                assert(in_acc(acc@, full[0].workspace_id));
            }
        }
        return None;
    }
    let mut best: (i32, i128) = acc[0];
    let mut j: usize = 1;
    while j < acc.len()
        invariant
            1 <= j <= acc@.len(),
            acc@.len() > 0,
            in_acc(acc@, best.0),
            exists|jb: int| 0 <= jb < acc@.len() && acc@[jb] == best,
            forall|j2: int|
                0 <= j2 < j ==> (#[trigger] acc@[j2]).1 < best.1 || (acc@[j2].1 == best.1 && best.0
                    <= acc@[j2].0),
        decreases acc@.len() - j,
    {
        let cand = acc[j];
        if cand.1 > best.1 || (cand.1 == best.1 && cand.0 < best.0) {
            best = cand;
        }
        j = j + 1;
    }
    proof {
        let jb = choose|jb: int| 0 <= jb < acc@.len() && acc@[jb] == best;
        assert(best.1 == score_of(full, best.0, now as int, tau as int));
        assert(has_id(full, best.0));
        assert(full.len() > 0);
        assert forall|o: i32| #[trigger] has_id(full, o) implies score_of(
            full,
            o,
            now as int,
            tau as int,
        ) < score_of(full, best.0, now as int, tau as int) || (score_of(full, o, now as int, tau as int)
            == score_of(full, best.0, now as int, tau as int) && best.0 <= o) by {
            let idx = choose|idx: int| 0 <= idx < full.len() && full[idx].workspace_id == o;
            assert(in_acc(acc@, o));
            let jo = choose|jo: int| 0 <= jo < acc@.len() && acc@[jo].0 == o;
            assert(acc@[jo].1 == score_of(full, o, now as int, tau as int));
            assert(acc@[jo].1 < best.1 || (acc@[jo].1 == best.1 && best.0 <= acc@[jo].0));
        }
    }
    Some(best.0)
}

} // verus!
