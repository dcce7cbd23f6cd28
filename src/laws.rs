use crate::manager::{
    cycle_client_done, drag_client_done, focus_workspace_done, visibility, Action, Manager,
};
use crate::workspace::{
    dragged_times, lemma_drag_round_trip, lemma_drag_times_last, Direction,
};
use vstd::prelude::*;

verus! {

/// Step `i` of a run of managers: `ms[i]` is well formed and `cycle_client` took it to
/// `ms[i + 1]`.
pub open spec fn cycle_step(ms: Seq<Manager>, rs: Seq<Seq<Action>>, dirs: Seq<Direction>, i: int) -> bool {
    ms[i].wf() && cycle_client_done(ms[i], ms[i + 1], dirs[i], rs[i])
}

/// Any run of `cycle_client` calls changes nothing but the focus: every workspace keeps its
/// clients in order, its layout and its parameters, and the screens stay as they were.
pub proof fn lemma_cycles_keep_all_but_focus(
    ms: Seq<Manager>,
    rs: Seq<Seq<Action>>,
    dirs: Seq<Direction>,
)
    requires
        ms.len() == dirs.len() + 1,
        rs.len() == dirs.len(),
        forall|i: int| 0 <= i < dirs.len() ==> #[trigger] cycle_step(ms, rs, dirs, i),
    ensures
        ms.last().screens@ == ms[0].screens@,
        ms.last().active == ms[0].active,
        ms.last().clients@ == ms[0].clients@,
        ms.last().layouts@ == ms[0].layouts@,
        ms.last().workspaces@.len() == ms[0].workspaces@.len(),
        forall|w: int|
            0 <= w < ms[0].workspaces@.len() ==> (#[trigger] ms.last().workspaces@[w]).clients@
                == ms[0].workspaces@[w].clients@ && ms.last().workspaces@[w].layout
                == ms[0].workspaces@[w].layout && ms.last().workspaces@[w].params@
                == ms[0].workspaces@[w].params@,
    decreases dirs.len(),
{
    let n = dirs.len() as int;
    if n > 0 {
        let pm = ms.drop_last();
        let pr = rs.drop_last();
        let pd = dirs.drop_last();
        assert forall|i: int| 0 <= i < pd.len() implies #[trigger] cycle_step(pm, pr, pd, i) by {
            assert(cycle_step(ms, rs, dirs, i));
            assert(pm[i] == ms[i] && pm[i + 1] == ms[i + 1]);
        }
        lemma_cycles_keep_all_but_focus(pm, pr, pd);
        assert(cycle_step(ms, rs, dirs, n - 1));
        assert(pm.last() == ms[n - 1]);
        let a = ms[n - 1];
        let b = ms[n];
        assert forall|w: int| 0 <= w < ms[0].workspaces@.len() implies (#[trigger] ms.last().workspaces@[w]).clients@
            == ms[0].workspaces@[w].clients@ && ms.last().workspaces@[w].layout
            == ms[0].workspaces@[w].layout && ms.last().workspaces@[w].params@
            == ms[0].workspaces@[w].params@ by {
            assert(pm.last().workspaces@[w].clients@ == ms[0].workspaces@[w].clients@);
            if w != a.current() {
                assert(b.workspaces@[w] == a.workspaces@[w]);
            }
        }
    }
}

/// Order and focus of workspace `w` of `m`.
pub open spec fn order_of(m: Manager, w: int) -> (Seq<u32>, int) {
    (m.workspaces@[w].clients@, m.workspaces@[w].focus as int)
}

/// The direction of drag `i` of `k` drags one way followed by `k` the other way.
pub open spec fn drag_leg(d: Direction, k: nat, i: int) -> Direction {
    if i < k {
        d
    } else {
        d.reversed()
    }
}

/// Step `i` of a run of managers: `ms[i]` is well formed and `drag_client` in direction `d`
/// took it to `ms[i + 1]`.
pub open spec fn drag_step(ms: Seq<Manager>, rs: Seq<Seq<Action>>, d: Direction, i: int) -> bool {
    ms[i].wf() && drag_client_done(ms[i], ms[i + 1], d, rs[i])
}

proof fn lemma_drag_steps(
    ms: Seq<Manager>,
    rs: Seq<Seq<Action>>,
    d: Direction,
    from: int,
    j: nat,
)
    requires
        0 <= from,
        from + j < ms.len(),
        ms[from].wf(),
        forall|i: int| from <= i < from + j ==> #[trigger] drag_step(ms, rs, d, i),
    ensures
        ms[from + j].current() == ms[from].current(),
        order_of(ms[from + j], ms[from].current()) == dragged_times(
            order_of(ms[from], ms[from].current()).0,
            order_of(ms[from], ms[from].current()).1,
            d,
            j,
        ),
    decreases j,
{
    let w = ms[from].current();
    ms[from].lemma_current_ok();
    if j > 0 {
        let jm = (j - 1) as nat;
        lemma_drag_steps(ms, rs, d, from, jm);
        let i = from + jm;
        assert(drag_step(ms, rs, d, i));
        let o = order_of(ms[from], w);
        lemma_drag_times_last(o.0, o.1, d, jm);
    }
}

/// Dragging the focused client `k` times one way and then `k` times the other way through the
/// manager gives back the current workspace's order and focus.
pub proof fn lemma_manager_drag_round_trip(
    ms: Seq<Manager>,
    rs: Seq<Seq<Action>>,
    d: Direction,
    k: nat,
)
    requires
        ms.len() == 2 * k + 1,
        ms[0].wf(),
        forall|i: int| 0 <= i < 2 * k ==> #[trigger] drag_step(ms, rs, drag_leg(d, k, i), i),
    ensures
        ms[2 * k as int].current() == ms[0].current(),
        order_of(ms[2 * k as int], ms[0].current()) == order_of(ms[0], ms[0].current()),
{
    let w = ms[0].current();
    assert forall|i: int| 0 <= i < 0 + k implies #[trigger] drag_step(ms, rs, d, i) by {
        assert(drag_step(ms, rs, drag_leg(d, k, i), i));
    }
    lemma_drag_steps(ms, rs, d, 0, k);
    if k > 0 {
        assert(drag_step(ms, rs, drag_leg(d, k, k as int), k as int));
    }
    assert forall|i: int| k <= i < k + k implies #[trigger] drag_step(ms, rs, d.reversed(), i) by {
        assert(drag_step(ms, rs, drag_leg(d, k, i), i));
    }
    lemma_drag_steps(ms, rs, d.reversed(), k as int, k);
    let o = order_of(ms[0], w);
    ms[0].lemma_current_ok();
    lemma_drag_round_trip(o.0, o.1, d, k);
}

/// No action of `r` launches a program.
pub open spec fn launches_nothing(r: Seq<Action>) -> bool {
    forall|i: int| 0 <= i < r.len() ==> !(#[trigger] r[i] is Spawn)
}

proof fn lemma_arrangement_launches_nothing(m: Manager, k: int)
    ensures
        launches_nothing(m.arrangement_upto(k)),
    decreases k,
{
    if k > 0 {
        lemma_arrangement_launches_nothing(m, k - 1);
        let a = m.arrangement_upto(k - 1);
        let b = m.screen_arrangement(k - 1);
        assert forall|i: int| 0 <= i < (a + b).len() implies !(#[trigger] (a + b)[i] is Spawn) by {
            if i >= a.len() {
                assert((a + b)[i] == b[i - a.len()]);
            }
        }
    }
}

/// Laying out the screens and setting the focus launches no program.
pub proof fn lemma_refresh_launches_nothing(m: Manager)
    ensures
        launches_nothing(m.refresh_spec()),
{
    let a = m.arrangement_upto(m.screens@.len() as int);
    lemma_arrangement_launches_nothing(m, m.screens@.len() as int);
    let b = m.focus_action();
    assert forall|i: int| 0 <= i < (a + b).len() implies !(#[trigger] (a + b)[i] is Spawn) by {
        if i >= a.len() {
            assert((a + b)[i] == b[i - a.len()]);
        }
    }
}

/// Switching to a workspace that holds clients launches no program: default-workspace hooks
/// act only on an empty workspace.
pub proof fn lemma_occupied_switch_launches_nothing(
    before: Manager,
    after: Manager,
    target: usize,
    r: Seq<Action>,
)
    requires
        focus_workspace_done(before, after, target, r),
        target < before.workspaces@.len(),
        before.workspaces@[target as int].clients@.len() > 0,
    ensures
        launches_nothing(r),
{
    lemma_refresh_launches_nothing(after);
    if target != before.current() {
        let ows = before.workspaces@;
        let v = if crate::manager::shown(before.screens@, target) {
            Seq::empty()
        } else {
            visibility(ows[before.current()].clients@, false) + visibility(
                ows[target as int].clients@,
                true,
            )
        };
        let e = Seq::<Action>::empty();
        let f = after.refresh_spec();
        assert(r == v + e + f);
        assert forall|i: int| 0 <= i < r.len() implies !(#[trigger] r[i] is Spawn) by {
            if i < v.len() {
                assert(r[i] == v[i]);
            } else {
                assert(r[i] == f[i - v.len()]);
            }
        }
    }
}

} // verus!
