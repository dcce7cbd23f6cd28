use crate::layout::LayoutParams;
use vstd::prelude::*;

verus! {

/// Which way to move through an ordered list.
#[derive(Clone, Copy, Debug, PartialEq, Eq, Structural)]
pub enum Direction {
    Forward,
    Backward,
}

/// Which way to adjust a layout parameter.
#[derive(Clone, Copy, Debug, PartialEq, Eq, Structural)]
pub enum Change {
    More,
    Less,
}

impl Direction {
    pub open spec fn reversed(self) -> Direction {
        match self {
            Direction::Forward => Direction::Backward,
            Direction::Backward => Direction::Forward,
        }
    }
}

/// The index after `i` in a list of `len` items going `dir`; past an end it wraps round when
/// `wrap` holds and stays put otherwise.
pub open spec fn step_index(len: int, i: int, dir: Direction, wrap: bool) -> int {
    match dir {
        Direction::Forward => if i + 1 < len {
            i + 1
        } else if wrap {
            0
        } else {
            i
        },
        Direction::Backward => if i > 0 {
            i - 1
        } else if wrap {
            len - 1
        } else {
            i
        },
    }
}

pub fn step_index_of(len: usize, i: usize, dir: Direction, wrap: bool) -> (r: usize)
    requires
        i < len,
    ensures
        r == step_index(len as int, i as int, dir, wrap),
        r < len,
{
    match dir {
        Direction::Forward => if i + 1 < len {
            i + 1
        } else if wrap {
            0
        } else {
            i
        },
        Direction::Backward => if i > 0 {
            i - 1
        } else if wrap {
            len - 1
        } else {
            i
        },
    }
}

/// The order of clients with their focus: what a workspace's client operations act on.
pub open spec fn no_duplicates(s: Seq<u32>) -> bool {
    forall|i: int, j: int| 0 <= i < s.len() && 0 <= j < s.len() && i != j ==> s[i] != s[j]
}

/// Focus after cycling: it moves to the neighbour in `dir` when there are two clients or more.
pub open spec fn cycled_focus(len: int, focus: int, dir: Direction, wrap: bool) -> int {
    if len <= 1 {
        focus
    } else {
        step_index(len, focus, dir, wrap)
    }
}

/// Swap the items at `i` and `j`.
pub open spec fn swapped(s: Seq<u32>, i: int, j: int) -> Seq<u32> {
    s.update(i, s[j]).update(j, s[i])
}

/// Order and focus after dragging the focused client one place in `dir` (wrapping round at
/// either end); the focus follows the client.
pub open spec fn dragged(s: Seq<u32>, focus: int, dir: Direction) -> (Seq<u32>, int) {
    if s.len() <= 1 {
        (s, focus)
    } else {
        let j = step_index(s.len() as int, focus, dir, true);
        (swapped(s, focus, j), j)
    }
}

/// `k` drags in a row.
pub open spec fn dragged_times(s: Seq<u32>, focus: int, dir: Direction, k: nat) -> (
    Seq<u32>,
    int,
)
    decreases k,
{
    if k == 0 {
        (s, focus)
    } else {
        let (t, g) = dragged(s, focus, dir);
        dragged_times(t, g, dir, (k - 1) as nat)
    }
}

/// A named workspace: its clients in order, which one has the focus, which layout of the shared
/// list it shows, and its own parameters for each of those layouts.
pub struct Workspace {
    pub name: String,
    pub clients: Vec<u32>,
    pub focus: usize,
    pub layout: usize,
    pub params: Vec<LayoutParams>,
}

impl Workspace {
    /// Clients are distinct, the focus points at one of them (or is 0 when there are none), and
    /// the selected layout exists.
    pub open spec fn wf(&self) -> bool {
        &&& no_duplicates(self.clients@)
        &&& (self.clients@.len() == 0 ==> self.focus == 0)
        &&& (self.clients@.len() > 0 ==> self.focus < self.clients@.len())
        &&& self.layout < self.params@.len()
    }

    pub open spec fn focused_spec(&self) -> Option<u32> {
        if self.clients@.len() == 0 {
            None
        } else {
            Some(self.clients@[self.focus as int])
        }
    }

    /// An empty workspace showing the first layout, with a copy of each layout's parameters.
    pub fn new(name: String, params: Vec<LayoutParams>) -> (w: Workspace)
        requires
            params@.len() > 0,
        ensures
            w.wf(),
            w.name@ == name@,
            w.clients@.len() == 0,
            w.layout == 0,
            w.params@ == params@,
    {
        Workspace { name, clients: Vec::new(), focus: 0, layout: 0, params }
    }

    pub fn len(&self) -> (n: usize)
        ensures
            n == self.clients@.len(),
    {
        self.clients.len()
    }

    pub fn focused_client(&self) -> (c: Option<u32>)
        requires
            self.wf(),
        ensures
            c == self.focused_spec(),
    {
        if self.clients.len() == 0 {
            None
        } else {
            Some(self.clients[self.focus])
        }
    }

    /// Position of `id` in the client order.
    pub fn index_of(&self, id: u32) -> (r: Option<usize>)
        ensures
            r is None <==> !self.clients@.contains(id),
            r matches Some(i) ==> i < self.clients@.len() && self.clients@[i as int] == id,
    {
        let mut i: usize = 0;
        while i < self.clients.len()
            invariant
                i <= self.clients@.len(),
                forall|j: int| 0 <= j < i ==> self.clients@[j] != id,
            decreases self.clients@.len() - i,
        {
            if self.clients[i] == id {
                return Some(i);
            }
            i = i + 1;
        }
        None
    }

    /// Replaces the parameters of the selected layout.
    pub fn set_params(&mut self, p: LayoutParams)
        requires
            old(self).wf(),
        ensures
            final(self).wf(),
            final(self).params@ == old(self).params@.update(old(self).layout as int, p),
            final(self).clients@ == old(self).clients@,
            final(self).focus == old(self).focus,
            final(self).layout == old(self).layout,
            final(self).name@ == old(self).name@,
    {
        let l = self.layout;
        self.params.set(l, p);
    }

    /// Moves the focus to the next or previous client.
    pub fn cycle_client(&mut self, dir: Direction, wrap: bool)
        requires
            old(self).wf(),
        ensures
            final(self).wf(),
            final(self).clients@ == old(self).clients@,
            final(self).layout == old(self).layout,
            final(self).params@ == old(self).params@,
            final(self).name@ == old(self).name@,
            final(self).focus == cycled_focus(
                old(self).clients@.len() as int,
                old(self).focus as int,
                dir,
                wrap,
            ),
    {
        if self.clients.len() > 1 {
            self.focus = step_index_of(self.clients.len(), self.focus, dir, wrap);
        }
    }

    /// Swaps the focused client with its neighbour in `dir`, wrapping round at either end; the
    /// focus stays on the moved client.
    pub fn drag_client(&mut self, dir: Direction)
        requires
            old(self).wf(),
        ensures
            final(self).wf(),
            (final(self).clients@, final(self).focus as int) == dragged(
                old(self).clients@,
                old(self).focus as int,
                dir,
            ),
            forall|x: u32| final(self).clients@.contains(x) <==> old(self).clients@.contains(x),
            final(self).layout == old(self).layout,
            final(self).params@ == old(self).params@,
            final(self).name@ == old(self).name@,
    {
        let n = self.clients.len();
        if n > 1 {
            let i = self.focus;
            let j = step_index_of(n, i, dir, true);
            let a = self.clients[i];
            let b = self.clients[j];
            let ghost s = self.clients@;
            self.clients.set(i, b);
            self.clients.set(j, a);
            self.focus = j;
            proof {
                assert(self.clients@ =~= swapped(s, i as int, j as int));
                lemma_swap_keeps(s, i as int, j as int);
            }
        }
    }

    /// Appends `id` to the order and gives it the focus.
    pub fn add_client(&mut self, id: u32)
        requires
            old(self).wf(),
            !old(self).clients@.contains(id),
            old(self).clients@.len() < usize::MAX,
        ensures
            final(self).wf(),
            final(self).clients@ == old(self).clients@.push(id),
            final(self).focus == old(self).clients@.len(),
            final(self).layout == old(self).layout,
            final(self).params@ == old(self).params@,
            final(self).name@ == old(self).name@,
    {
        self.focus = self.clients.len();
        self.clients.push(id);
    }

    /// Takes `id` out of the order; the focus stays on the same client where it can, and moves
    /// to the previous place when that client was the one removed at the end.
    pub fn remove_client(&mut self, id: u32) -> (found: bool)
        requires
            old(self).wf(),
        ensures
            final(self).wf(),
            found == old(self).clients@.contains(id),
            !final(self).clients@.contains(id),
            forall|x: u32|
                x != id ==> (final(self).clients@.contains(x) <==> old(self).clients@.contains(x)),
            found ==> exists|i: int|
                0 <= i < old(self).clients@.len() && old(self).clients@[i] == id
                    && final(self).clients@ == old(self).clients@.remove(i),
            !found ==> final(self).clients@ == old(self).clients@ && final(self).focus == old(
                self,
            ).focus,
            final(self).layout == old(self).layout,
            final(self).params@ == old(self).params@,
            final(self).name@ == old(self).name@,
    {
        match self.index_of(id) {
            None => false,
            Some(i) => {
                let ghost s = self.clients@;
                self.clients.remove(i);
                proof {
                    lemma_remove_keeps(s, i as int);
                }
                if self.focus > i || (self.focus == i && i == self.clients.len() && i > 0) {
                    self.focus = self.focus - 1;
                }
                true
            },
        }
    }
}

proof fn lemma_swap_keeps(s: Seq<u32>, i: int, j: int)
    requires
        no_duplicates(s),
        0 <= i < s.len(),
        0 <= j < s.len(),
    ensures
        no_duplicates(swapped(s, i, j)),
        swapped(s, i, j).len() == s.len(),
        forall|x: u32| swapped(s, i, j).contains(x) <==> s.contains(x),
{
    let t = swapped(s, i, j);
    assert forall|a: int, b: int| 0 <= a < t.len() && 0 <= b < t.len() && a != b implies t[a]
        != t[b] by {
        let sa = if a == i {
            j
        } else if a == j {
            i
        } else {
            a
        };
        let sb = if b == i {
            j
        } else if b == j {
            i
        } else {
            b
        };
        assert(t[a] == s[sa] && t[b] == s[sb]);
    }
    assert forall|x: u32| t.contains(x) implies s.contains(x) by {
        let a = choose|a: int| 0 <= a < t.len() && t[a] == x;
        let sa = if a == i {
            j
        } else if a == j {
            i
        } else {
            a
        };
        assert(s[sa] == x);
    }
    assert forall|x: u32| s.contains(x) implies t.contains(x) by {
        let a = choose|a: int| 0 <= a < s.len() && s[a] == x;
        let ta = if a == i {
            j
        } else if a == j {
            i
        } else {
            a
        };
        assert(t[ta] == x);
    }
}

proof fn lemma_remove_keeps(s: Seq<u32>, i: int)
    requires
        no_duplicates(s),
        0 <= i < s.len(),
    ensures
        no_duplicates(s.remove(i)),
        !s.remove(i).contains(s[i]),
        forall|x: u32| x != s[i] ==> (s.remove(i).contains(x) <==> s.contains(x)),
{
    let t = s.remove(i);
    assert forall|x: u32| x != s[i] && s.contains(x) implies t.contains(x) by {
        let k = choose|k: int| 0 <= k < s.len() && s[k] == x;
        if k < i {
            assert(t[k] == x);
        } else {
            assert(t[k - 1] == x);
        }
    }
}

/// Cycling the focus forward and then backward puts it back on the client it started on,
/// whenever the first step moved it (the list wraps, or the focus is not on the last client),
/// and the order of the clients is never touched.
pub proof fn lemma_cycle_round_trip(clients: Seq<u32>, focus: int, wrap: bool)
    requires
        0 <= focus < clients.len(),
        wrap || focus + 1 < clients.len(),
    ensures
        cycled_focus(
            clients.len() as int,
            cycled_focus(clients.len() as int, focus, Direction::Forward, wrap),
            Direction::Backward,
            wrap,
        ) == focus,
{
}

proof fn lemma_drag_inverse(s: Seq<u32>, focus: int, dir: Direction)
    requires
        s.len() == 0 || 0 <= focus < s.len(),
    ensures
        dragged(dragged(s, focus, dir).0, dragged(s, focus, dir).1, dir.reversed()) == (s, focus),
        s.len() == 0 || 0 <= dragged(s, focus, dir).1 < s.len(),
        dragged(s, focus, dir).0.len() == s.len(),
{
    if s.len() > 1 {
        let j = step_index(s.len() as int, focus, dir, true);
        let back = step_index(s.len() as int, j, dir.reversed(), true);
        assert(back == focus);
        assert(swapped(swapped(s, focus, j), j, focus) =~= s);
    }
}

pub proof fn lemma_drag_times_last(s: Seq<u32>, focus: int, dir: Direction, k: nat)
    requires
        s.len() == 0 || 0 <= focus < s.len(),
    ensures
        dragged_times(s, focus, dir, k + 1) == dragged(
            dragged_times(s, focus, dir, k).0,
            dragged_times(s, focus, dir, k).1,
            dir,
        ),
        s.len() == 0 || 0 <= dragged_times(s, focus, dir, k).1 < s.len(),
        dragged_times(s, focus, dir, k).0.len() == s.len(),
    decreases k,
{
    lemma_drag_inverse(s, focus, dir);
    let t = dragged(s, focus, dir).0;
    let g = dragged(s, focus, dir).1;
    assert(dragged_times(s, focus, dir, k + 1) == dragged_times(t, g, dir, k));
    if k > 0 {
        lemma_drag_times_last(t, g, dir, (k - 1) as nat);
        assert(dragged_times(s, focus, dir, k) == dragged_times(t, g, dir, (k - 1) as nat));
    } else {
        assert(dragged_times(t, g, dir, 0) == (t, g));
    }
}

/// Dragging the focused client `k` times one way and then `k` times the other way gives back
/// the order and focus it started from.
pub proof fn lemma_drag_round_trip(clients: Seq<u32>, focus: int, dir: Direction, k: nat)
    requires
        clients.len() == 0 || 0 <= focus < clients.len(),
    ensures
        dragged_times(
            dragged_times(clients, focus, dir, k).0,
            dragged_times(clients, focus, dir, k).1,
            dir.reversed(),
            k,
        ) == (clients, focus),
    decreases k,
{
    if k > 0 {
        let km = (k - 1) as nat;
        lemma_drag_times_last(clients, focus, dir, km);
        let (t, g) = dragged_times(clients, focus, dir, km);
        lemma_drag_inverse(t, g, dir);
        lemma_drag_round_trip(clients, focus, dir, km);
    }
}

} // verus!
