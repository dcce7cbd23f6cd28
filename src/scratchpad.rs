use crate::geometry::Region;
use crate::manager::Action;
use vstd::prelude::*;

verus! {

/// A program kept at hand: one toggle launches it (or shows it), the next hides it, and its
/// window floats centred on the screen at a fixed share of the screen's size.
pub struct Scratchpad {
    pub program: String,
    /// Window class by which its window is recognised.
    pub wm_class: String,
    /// Width and height, in percent of the screen's.
    pub w_pct: u32,
    pub h_pct: u32,
    /// Its window, once mapped.
    pub client: Option<u32>,
    /// Launched, and its window not seen yet.
    pub pending: bool,
    pub visible: bool,
}

/// `pct` percent of `len`, with percentages above 100 taken as 100.
pub open spec fn share(len: int, pct: int) -> int {
    (len * (if pct > 100 { 100 } else { pct })) / 100
}

/// The window's place on `screen`: centred, at the configured share of its size.
pub open spec fn scratch_region(screen: Region, w_pct: int, h_pct: int) -> Region {
    let w = share(screen.w as int, w_pct);
    let h = share(screen.h as int, h_pct);
    Region {
        x: (screen.x + (screen.w - w) / 2) as u32,
        y: (screen.y + (screen.h - h) / 2) as u32,
        w: w as u32,
        h: h as u32,
    }
}

fn share_of(len: u32, pct: u32) -> (r: u32)
    ensures
        r == share(len as int, pct as int),
        r <= len,
{
    let p: u64 = if pct > 100 {
        100
    } else {
        pct as u64
    };
    proof {
        vstd::arithmetic::mul::lemma_mul_upper_bound(len as int, u32::MAX as int, p as int, 100);
        vstd::arithmetic::mul::lemma_mul_inequality(p as int, 100, len as int);
        assert(p * len == len * p) by (nonlinear_arith);
        assert(100 * len == len * 100) by (nonlinear_arith);
        vstd::arithmetic::div_mod::lemma_div_is_ordered(len * p, len * 100, 100);
        vstd::arithmetic::div_mod::lemma_div_multiples_vanish(len as int, 100);
    }
    (len as u64 * p / 100) as u32
}

impl Scratchpad {
    pub fn new(program: String, wm_class: String, w_pct: u32, h_pct: u32) -> (s: Scratchpad)
        ensures
            s.program@ == program@,
            s.wm_class@ == wm_class@,
            s.w_pct == w_pct,
            s.h_pct == h_pct,
            s.client is None,
            !s.pending,
            !s.visible,
    {
        Scratchpad { program, wm_class, w_pct, h_pct, client: None, pending: false, visible: false }
    }

    /// Launches the program when it has no window (once, until the window appears), hides a
    /// visible window, and shows a hidden one. The window is never closed.
    pub fn toggle(&mut self) -> (r: Vec<Action>)
        ensures
            final(self).program == old(self).program,
            final(self).wm_class == old(self).wm_class,
            final(self).client == old(self).client,
            match old(self).client {
                None => {
                    &&& final(self).pending
                    &&& final(self).visible == old(self).visible
                    &&& r@ == if old(self).pending {
                        Seq::empty()
                    } else {
                        seq![Action::Spawn(old(self).program)]
                    }
                },
                Some(id) => {
                    &&& final(self).pending == old(self).pending
                    &&& final(self).visible == !old(self).visible
                    &&& r@ == if old(self).visible {
                        seq![Action::Hide(id)]
                    } else {
                        seq![Action::Show(id), Action::Focus(id)]
                    }
                },
            },
    {
        let mut out: Vec<Action> = Vec::new();
        match self.client {
            None => {
                if !self.pending {
                    self.pending = true;
                    out.push(Action::Spawn(self.program.clone()));
                }
            },
            Some(id) => {
                if self.visible {
                    self.visible = false;
                    out.push(Action::Hide(id));
                } else {
                    self.visible = true;
                    out.push(Action::Show(id));
                    out.push(Action::Focus(id));
                }
            },
        }
        out
    }

    /// A new window appeared. When the scratchpad is waiting for its window and the class
    /// matches, it takes the window and returns where the window goes on `screen`.
    pub fn claim(&mut self, id: u32, wm_class: &String, screen: Region) -> (r: Option<Region>)
        requires
            screen.wf(),
        ensures
            final(self).program == old(self).program,
            final(self).wm_class == old(self).wm_class,
            old(self).pending && wm_class@ == old(self).wm_class@ ==> {
                &&& r == Some(scratch_region(screen, old(self).w_pct as int, old(self).h_pct as int))
                &&& final(self).client == Some(id)
                &&& !final(self).pending
                &&& final(self).visible
            },
            !(old(self).pending && wm_class@ == old(self).wm_class@) ==> r is None && final(self).client == old(self).client && final(self).pending == old(self).pending
                && final(self).visible == old(self).visible,
            r matches Some(g) ==> g.within(screen),
    {
        if self.pending && *wm_class == self.wm_class {
            let w = share_of(screen.w, self.w_pct);
            let h = share_of(screen.h, self.h_pct);
            self.client = Some(id);
            self.pending = false;
            self.visible = true;
            Some(
                Region {
                    x: screen.x + (screen.w - w) / 2,
                    y: screen.y + (screen.h - h) / 2,
                    w,
                    h,
                },
            )
        } else {
            None
        }
    }

    /// A window went away; if it was the scratchpad's, the next toggle launches the program
    /// again.
    pub fn forget(&mut self, id: u32)
        ensures
            final(self).program == old(self).program,
            final(self).wm_class == old(self).wm_class,
            old(self).client == Some(id) ==> final(self).client is None && !final(self).visible,
            old(self).client != Some(id) ==> final(self).client == old(self).client
                && final(self).visible == old(self).visible,
            final(self).pending == old(self).pending,
    {
        if self.client == Some(id) {
            self.client = None;
            self.visible = false;
        }
    }
}

} // verus!
