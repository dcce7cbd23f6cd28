use crate::geometry::Region;
use crate::layout::{arrange, arrange_spec, Layout, LayoutKind, LayoutParams};
use crate::workspace::{
    cycled_focus, dragged, step_index, step_index_of, Change, Direction, Workspace,
};
use vstd::prelude::*;

verus! {

/// Where a client is, and where it goes back to when it leaves fullscreen.
#[derive(Clone, Copy, Debug, PartialEq, Eq, Structural)]
pub struct Placement {
    pub geometry: Region,
    pub saved: Region,
    pub fullscreen: bool,
}

/// A managed window.
pub struct Client {
    pub id: u32,
    pub wm_class: String,
    pub floating: bool,
    pub place: Placement,
}

/// A physical output and the workspace it shows.
#[derive(Clone, Copy, Debug, PartialEq, Eq, Structural)]
pub struct Screen {
    pub region: Region,
    pub workspace: usize,
}

/// A command for the windowing connection, or for the process spawner.
#[derive(Debug)]
pub enum Action {
    /// Move and resize a window.
    Place(u32, Region),
    /// Map a window.
    Show(u32),
    /// Unmap a window.
    Hide(u32),
    /// Give a window the input focus.
    Focus(u32),
    /// Ask a window to close.
    Close(u32),
    /// Launch a program, detached.
    Spawn(String),
    /// Leave the event loop.
    Quit,
    /// Query the outputs and report them through `Manager::detect_screens`.
    QueryOutputs,
    /// Set the name of the root window (which status bars show).
    SetRootName(String),
}

/// On entering the named workspace while it has no clients: select the named layout and
/// launch the programs, in order.
pub struct DefaultWorkspace {
    pub workspace: String,
    pub layout: String,
    pub programs: Vec<String>,
}

/// The whole state of the window manager.
pub struct Manager {
    pub layouts: Vec<Layout>,
    pub workspaces: Vec<Workspace>,
    pub screens: Vec<Screen>,
    /// The screen that has the focus.
    pub active: usize,
    /// The workspace shown on the active screen before the last switch.
    pub previous: usize,
    pub clients: Vec<Client>,
    pub floating_classes: Vec<String>,
    pub default_workspaces: Vec<DefaultWorkspace>,
    /// When the layout changes, its symbol becomes the root window's name.
    pub layout_symbol_as_root_name: bool,
    pub running: bool,
}

/// Every screen has a valid region and shows one existing workspace, and no workspace is
/// shown on two screens.
pub open spec fn screens_ok(screens: Seq<Screen>, n_workspaces: nat) -> bool {
    &&& screens.len() >= 1
    &&& forall|i: int| 0 <= i < screens.len() ==> #[trigger] screens[i].workspace < n_workspaces
    &&& forall|i: int| 0 <= i < screens.len() ==> #[trigger] screens[i].region.wf()
    &&& forall|i: int, j: int|
        0 <= i < screens.len() && 0 <= j < screens.len() && i != j ==> #[trigger] screens[i].workspace
            != #[trigger] screens[j].workspace
}

/// Every workspace is well formed and holds parameters for each of `n_layouts` layouts.
pub open spec fn workspaces_ok(ws: Seq<Workspace>, n_layouts: nat) -> bool {
    forall|i: int| 0 <= i < ws.len() ==> #[trigger] ws[i].wf() && ws[i].params@.len() == n_layouts
}

/// Client `id` has a record.
pub open spec fn has_record(clients: Seq<Client>, id: u32) -> bool {
    exists|k: int| 0 <= k < clients.len() && #[trigger] clients[k].id == id
}

/// Every client of every workspace has a record.
pub open spec fn records_cover(ws: Seq<Workspace>, clients: Seq<Client>) -> bool {
    forall|w: int, x: u32|
        0 <= w < ws.len() && #[trigger] ws[w].clients@.contains(x) ==> has_record(clients, x)
}

/// Records are kept for every client of a workspace when the workspaces lose clients.
proof fn lemma_cover_shrunk(before: Seq<Workspace>, after: Seq<Workspace>, w: int, clients: Seq<Client>)
    requires
        records_cover(before, clients),
        shrunk(before, after, w),
    ensures
        records_cover(after, clients),
{
    assert forall|v: int, x: u32| 0 <= v < after.len() && #[trigger] after[v].clients@.contains(x) implies has_record(
        clients,
        x,
    ) by {
        if v != w {
            assert(after[v] == before[v]);
        }
        assert(before[v].clients@.contains(x));
    }
}

/// Records are kept for every client of a workspace when the records change but for the one
/// of `gone`, which no workspace holds.
proof fn lemma_cover_records(ws: Seq<Workspace>, before: Seq<Client>, after: Seq<Client>, gone: Option<u32>)
    requires
        records_cover(ws, before),
        forall|x: u32| has_record(before, x) && Some(x) != gone ==> has_record(after, x),
        gone matches Some(id) ==> forall|v: int| 0 <= v < ws.len() ==> !(#[trigger] ws[v]).clients@.contains(id),
    ensures
        records_cover(ws, after),
{
    assert forall|v: int, x: u32| 0 <= v < ws.len() && #[trigger] ws[v].clients@.contains(x) implies has_record(
        after,
        x,
    ) by {
        assert(has_record(before, x));
    }
}

/// Records with the same ids in the same places cover the same clients.
proof fn lemma_same_ids(before: Seq<Client>, after: Seq<Client>)
    requires
        before.len() == after.len(),
        forall|k: int| 0 <= k < before.len() ==> #[trigger] after[k].id == before[k].id,
    ensures
        forall|x: u32| has_record(before, x) ==> has_record(after, x),
{
    assert forall|x: u32| has_record(before, x) implies has_record(after, x) by {
        let k = choose|k: int| 0 <= k < before.len() && #[trigger] before[k].id == x;
        assert(after[k].id == x);
    }
}

/// No client belongs to two workspaces.
pub open spec fn owned_once(ws: Seq<Workspace>) -> bool {
    forall|a: int, b: int, x: u32|
        0 <= a < ws.len() && 0 <= b < ws.len() && a != b && #[trigger] ws[a].clients@.contains(x)
            ==> !#[trigger] ws[b].clients@.contains(x)
}

/// Workspace `w` lost clients, or kept the same ones, and the others did not change.
pub open spec fn shrunk(before: Seq<Workspace>, after: Seq<Workspace>, w: int) -> bool {
    &&& others_kept(before, after, w)
    &&& forall|x: u32|
        0 <= w < after.len() && #[trigger] after[w].clients@.contains(x) ==> before[w].clients@.contains(x)
}

proof fn lemma_owned_shrunk(before: Seq<Workspace>, after: Seq<Workspace>, w: int)
    requires
        owned_once(before),
        shrunk(before, after, w),
    ensures
        owned_once(after),
{
    assert forall|a: int, b: int, x: u32|
        0 <= a < after.len() && 0 <= b < after.len() && a != b && #[trigger] after[a].clients@.contains(x)
            implies !#[trigger] after[b].clients@.contains(x) by {
        if a != w {
            assert(after[a] == before[a]);
        }
        if b != w {
            assert(after[b] == before[b]);
        }
        if after[b].clients@.contains(x) {
            assert(before[a].clients@.contains(x));
            assert(before[b].clients@.contains(x));
        }
    }
}

proof fn lemma_owned_added(before: Seq<Workspace>, after: Seq<Workspace>, w: int, id: u32)
    requires
        owned_once(before),
        others_kept(before, after, w),
        0 <= w < before.len(),
        forall|x: u32|
            #[trigger] after[w].clients@.contains(x) ==> before[w].clients@.contains(x) || x == id,
        forall|v: int| 0 <= v < before.len() && v != w ==> !(#[trigger] before[v]).clients@.contains(id),
    ensures
        owned_once(after),
{
    assert forall|a: int, b: int, x: u32|
        0 <= a < after.len() && 0 <= b < after.len() && a != b && #[trigger] after[a].clients@.contains(x)
            implies !#[trigger] after[b].clients@.contains(x) by {
        if a != w {
            assert(after[a] == before[a]);
        }
        if b != w {
            assert(after[b] == before[b]);
        }
        if after[b].clients@.contains(x) {
            if x == id {
                if a == w {
                    assert(!before[b].clients@.contains(id));
                } else {
                    assert(!before[a].clients@.contains(id));
                }
            } else {
                assert(before[a].clients@.contains(x));
                assert(before[b].clients@.contains(x));
            }
        }
    }
}

/// No two client records share an id.
pub open spec fn ids_unique(clients: Seq<Client>) -> bool {
    forall|a: int, b: int|
        0 <= a < clients.len() && 0 <= b < clients.len() && a != b ==> #[trigger] clients[a].id
            != #[trigger] clients[b].id
}

/// The client `id` has a record and takes part in tiling: it neither floats nor fills the
/// screen.
pub open spec fn is_tiled(clients: Seq<Client>, id: u32) -> bool {
    exists|k: int|
        0 <= k < clients.len() && #[trigger] clients[k].id == id && !clients[k].floating
            && !clients[k].place.fullscreen
}

/// The clients of `ids` that take part in tiling, in order.
pub open spec fn tiled_ids(ids: Seq<u32>, clients: Seq<Client>) -> Seq<u32>
    decreases ids.len(),
{
    if ids.len() == 0 {
        Seq::empty()
    } else {
        let rest = tiled_ids(ids.drop_last(), clients);
        if is_tiled(clients, ids.last()) {
            rest.push(ids.last())
        } else {
            rest
        }
    }
}

impl Manager {
    /// There are layouts and workspaces; each workspace is well formed; every screen shows
    /// one workspace and no workspace is on two screens; the active screen and the previous
    /// workspace exist; client ids are unique, no client is in two workspaces, and every client
    /// of a workspace has a record.
    pub open spec fn wf(&self) -> bool {
        &&& self.layouts@.len() > 0
        &&& self.workspaces@.len() > 0
        &&& workspaces_ok(self.workspaces@, self.layouts@.len())
        &&& screens_ok(self.screens@, self.workspaces@.len())
        &&& self.active < self.screens@.len()
        &&& self.previous < self.workspaces@.len()
        &&& ids_unique(self.clients@)
        &&& owned_once(self.workspaces@)
        &&& records_cover(self.workspaces@, self.clients@)
    }

    /// The workspace on the active screen.
    pub open spec fn current(&self) -> int {
        self.screens@[self.active as int].workspace as int
    }

    /// Where the focused client of workspace `w` stands among its tiled clients.
    pub open spec fn focus_position(&self, w: int) -> int {
        let ws = self.workspaces@[w];
        let n = tiled_ids(ws.clients@, self.clients@).len();
        let c = tiled_ids(ws.clients@.take(ws.focus as int), self.clients@).len();
        if c < n {
            c as int
        } else {
            0
        }
    }

    /// The placements that the layout of the workspace on screen `s` gives its tiled clients.
    pub open spec fn screen_arrangement(&self, s: int) -> Seq<Action> {
        let w = self.screens@[s].workspace as int;
        let ws = self.workspaces@[w];
        let ids = tiled_ids(ws.clients@, self.clients@);
        let rects = arrange_spec(
            self.layouts@[ws.layout as int].kind,
            ids.len(),
            self.focus_position(w),
            ws.params@[ws.layout as int],
            self.screens@[s].region,
        );
        Seq::new(rects.len(), |i: int| Action::Place(ids[i], rects[i]))
    }

    /// The placements on the first `k` screens.
    pub open spec fn arrangement_upto(&self, k: int) -> Seq<Action>
        decreases k,
    {
        if k <= 0 {
            Seq::empty()
        } else {
            self.arrangement_upto(k - 1) + self.screen_arrangement(k - 1)
        }
    }

    /// Input focus to the focused client of the current workspace, if it has one.
    pub open spec fn focus_action(&self) -> Seq<Action> {
        match self.workspaces@[self.current()].focused_spec() {
            Some(id) => seq![Action::Focus(id)],
            None => Seq::empty(),
        }
    }

    /// What brings the windowing system in line with the model: every screen laid out, then
    /// the focus set.
    pub open spec fn refresh_spec(&self) -> Seq<Action> {
        self.arrangement_upto(self.screens@.len() as int) + self.focus_action()
    }

    /// Index of the record of client `id`.
    pub fn record_index(&self, id: u32) -> (r: Option<usize>)
        ensures
            r is None <==> forall|k: int| 0 <= k < self.clients@.len() ==> self.clients@[k].id != id,
            r matches Some(k) ==> k < self.clients@.len() && self.clients@[k as int].id == id,
    {
        let mut k: usize = 0;
        while k < self.clients.len()
            invariant
                k <= self.clients@.len(),
                forall|j: int| 0 <= j < k ==> self.clients@[j].id != id,
            decreases self.clients@.len() - k,
        {
            if self.clients[k].id == id {
                return Some(k);
            }
            k = k + 1;
        }
        None
    }

    fn tiled(&self, id: u32) -> (r: bool)
        requires
            ids_unique(self.clients@),
        ensures
            r == is_tiled(self.clients@, id),
    {
        match self.record_index(id) {
            None => false,
            Some(k) => !self.clients[k].floating && !self.clients[k].place.fullscreen,
        }
    }

    /// The tiled clients of workspace `w` and the focused one's place among them.
    fn tiled_of(&self, w: usize) -> (r: (Vec<u32>, usize))
        requires
            self.wf(),
            w < self.workspaces@.len(),
        ensures
            r.0@ == tiled_ids(self.workspaces@[w as int].clients@, self.clients@),
            r.1 == self.focus_position(w as int),
    {
        let ws = &self.workspaces[w];
        assert(self.workspaces@[w as int].wf());
        let ghost ids = ws.clients@;
        let mut out: Vec<u32> = Vec::new();
        let mut before: usize = 0;
        let mut i: usize = 0;
        while i < ws.clients.len()
            invariant
                w < self.workspaces@.len(),
                ws == self.workspaces@[w as int],
                ws.wf(),
                ids == ws.clients@,
                ids_unique(self.clients@),
                i <= ids.len(),
                out@ == tiled_ids(ids.take(i as int), self.clients@),
                i <= ws.focus ==> before == 0,
                i > ws.focus ==> before == tiled_ids(ids.take(ws.focus as int), self.clients@).len(),
                out@.len() <= i,
            decreases ids.len() - i,
        {
            if i == ws.focus {
                before = out.len();
            }
            let id = ws.clients[i];
            assert(ids.take(i + 1).drop_last() =~= ids.take(i as int));
            if self.tiled(id) {
                out.push(id);
            }
            i = i + 1;
        }
        assert(ids.take(i as int) =~= ids);
        proof {
            if ws.focus >= ids.len() {
                assert(ws.focus == 0 && ids.len() == 0);
                assert(ids.take(0) =~= ids);
            }
        }
        let pos = if before < out.len() {
            before
        } else {
            0
        };
        (out, pos)
    }

    /// The placements for screen `s`.
    pub fn arrange_screen(&self, s: usize) -> (r: Vec<Action>)
        requires
            self.wf(),
            s < self.screens@.len(),
        ensures
            r@ == self.screen_arrangement(s as int),
    {
        let screen = self.screens[s];
        let w = screen.workspace;
        assert(self.screens@[s as int].workspace < self.workspaces@.len());
        let (ids, pos) = self.tiled_of(w);
        let ws = &self.workspaces[w];
        assert(self.workspaces@[w as int].wf());
        assert(ws.wf() && ws.params@.len() == self.layouts@.len());
        let layout = &self.layouts[ws.layout];
        let rects = arrange(layout.kind, ids.len(), pos, ws.params[ws.layout], screen.region);
        let mut out: Vec<Action> = Vec::new();
        let mut i: usize = 0;
        while i < rects.len()
            invariant
                i <= rects@.len(),
                rects@ == arrange_spec(
                    layout.kind,
                    ids@.len(),
                    pos as int,
                    ws.params@[ws.layout as int],
                    screen.region,
                ),
                layout.kind != LayoutKind::Floating ==> rects@.len() == ids@.len(),
                layout.kind == LayoutKind::Floating ==> rects@.len() == 0,
                out@ =~= Seq::new(i as nat, |j: int| Action::Place(ids@[j], rects@[j])),
            decreases rects@.len() - i,
        {
            out.push(Action::Place(ids[i], rects[i]));
            i = i + 1;
        }
        out
    }

    /// Every screen laid out, then the focus set.
    pub fn refresh(&self) -> (r: Vec<Action>)
        requires
            self.wf(),
        ensures
            r@ == self.refresh_spec(),
    {
        let mut out: Vec<Action> = Vec::new();
        let mut s: usize = 0;
        while s < self.screens.len()
            invariant
                self.wf(),
                s <= self.screens@.len(),
                out@ == self.arrangement_upto(s as int),
            decreases self.screens@.len() - s,
        {
            let mut a = self.arrange_screen(s);
            out.append(&mut a);
            s = s + 1;
        }
        let ws = &self.workspaces[self.screens[self.active].workspace];
        match ws.focused_client() {
            Some(id) => out.push(Action::Focus(id)),
            None => {},
        }
        assert(out@ =~= self.refresh_spec());
        out
    }
}

/// Chooses a client of the current workspace.
pub enum Selector {
    /// The focused client.
    Focused,
    /// The client at this place in the workspace's order.
    Index(usize),
    /// The first client, in the workspace's order, with this window class.
    WmClass(String),
}

/// A client's placement after fullscreen is toggled on a screen `full`.
pub open spec fn toggled(p: Placement, full: Region) -> Placement {
    if p.fullscreen {
        Placement { geometry: p.saved, saved: p.saved, fullscreen: false }
    } else {
        Placement { geometry: full, saved: p.geometry, fullscreen: true }
    }
}

/// Toggling fullscreen twice gives the client back the geometry it had before, and takes it
/// out of fullscreen again.
pub proof fn lemma_fullscreen_round_trip(p: Placement, full: Region)
    requires
        !p.fullscreen,
    ensures
        toggled(toggled(p, full), full).geometry == p.geometry,
        !toggled(toggled(p, full), full).fullscreen,
{
}

/// All workspaces but `w` are as they were.
pub open spec fn others_kept(a: Seq<Workspace>, b: Seq<Workspace>, w: int) -> bool {
    &&& a.len() == b.len()
    &&& forall|i: int| 0 <= i < a.len() && i != w ==> #[trigger] b[i] == a[i]
}

impl Manager {
    /// Asks the connection to close the focused client. The model is left alone: the client
    /// goes away only when the connection reports its window unmapped.
    pub fn kill_client(&self) -> (r: Option<Action>)
        requires
            self.wf(),
        ensures
            r == match self.workspaces@[self.current()].focused_spec() {
                Some(id) => Some(Action::Close(id)),
                None => None,
            },
    {
        let w = self.screens[self.active].workspace;
        assert(self.workspaces@[w as int].wf());
        match self.workspaces[w].focused_client() {
            Some(id) => Some(Action::Close(id)),
            None => None,
        }
    }

    pub proof fn lemma_current_ok(&self)
        requires
            self.wf(),
        ensures
            0 <= self.current() < self.workspaces@.len(),
            self.workspaces@[self.current()].wf(),
            self.workspaces@[self.current()].params@.len() == self.layouts@.len(),
            self.workspaces@[self.current()].layout < self.layouts@.len(),
    {
        assert(self.screens@[self.active as int].workspace < self.workspaces@.len());
        assert(self.workspaces@[self.current()].wf());
    }

    /// Moves the focus along the current workspace's order, wrapping where its layout allows.
    /// Only a layout that follows the focus is run again.
    pub fn cycle_client(&mut self, dir: Direction) -> (r: Vec<Action>)
        requires
            old(self).wf(),
        ensures
            final(self).wf(),
            cycle_client_done(*old(self), *final(self), dir, r@),
    {
        proof {
            self.lemma_current_ok();
        }
        let w = self.screens[self.active].workspace;
        let conf = self.layouts[self.workspaces[w].layout].conf;
        self.workspaces[w].cycle_client(dir, conf.allow_wrapping);
        assert(self.workspaces@[w as int].wf());
        if conf.follow_focus {
            self.refresh()
        } else {
            let mut out: Vec<Action> = Vec::new();
            match self.workspaces[w].focused_client() {
                Some(id) => out.push(Action::Focus(id)),
                None => {},
            }
            assert(out@ =~= self.focus_action());
            out
        }
    }

    /// Swaps the focused client with its neighbour in the current workspace's order and lays
    /// the screens out again.
    pub fn drag_client(&mut self, dir: Direction) -> (r: Vec<Action>)
        requires
            old(self).wf(),
        ensures
            final(self).wf(),
            drag_client_done(*old(self), *final(self), dir, r@),
    {
        proof {
            self.lemma_current_ok();
        }
        let w = self.screens[self.active].workspace;
        self.workspaces[w].drag_client(dir);
        self.refresh()
    }

    /// The client of the current workspace that `sel` picks, if any.
    pub fn select(&self, sel: &Selector) -> (r: Option<u32>)
        requires
            self.wf(),
        ensures
            r == self.selected(sel),
    {
        proof {
            self.lemma_current_ok();
        }
        let ws = &self.workspaces[self.screens[self.active].workspace];
        match sel {
            Selector::Focused => ws.focused_client(),
            Selector::Index(i) => if *i < ws.clients.len() {
                Some(ws.clients[*i])
            } else {
                None
            },
            Selector::WmClass(class) => {
                let mut i: usize = 0;
                assert(ws.clients@.skip(0) =~= ws.clients@);
                assert(self.selected(sel) == first_with_class(ws.clients@, self.clients@, class@));
                while i < ws.clients.len()
                    invariant
                        i <= ws.clients@.len(),
                        0 <= self.current() < self.workspaces@.len(),
                        ws == self.workspaces@[self.current()],
                        self.selected(sel) == first_with_class(ws.clients@, self.clients@, class@),
                        ids_unique(self.clients@),
                        first_with_class(ws.clients@, self.clients@, class@) == first_with_class(
                            ws.clients@.skip(i as int),
                            self.clients@,
                            class@,
                        ),
                    decreases ws.clients@.len() - i,
                {
                    let id = ws.clients[i];
                    assert(ws.clients@.skip(i as int).skip(1) =~= ws.clients@.skip(i + 1));
                    assert(ws.clients@.skip(i as int)[0] == id);
                    match self.record_index(id) {
                        Some(k) => {
                            if self.clients[k].wm_class == *class {
                                assert(has_class(self.clients@, id, class@));
                                assert(first_with_class(
                                    ws.clients@.skip(i as int),
                                    self.clients@,
                                    class@,
                                ) == Some(id));
                                return Some(id);
                            }
                            assert(!has_class(self.clients@, id, class@));
                        },
                        None => {},
                    }
                    i = i + 1;
                }
                None
            },
        }
    }

    /// Toggles fullscreen on the selected client: it is made to fill its screen, or given back
    /// the geometry it had before. A selector that picks nothing changes nothing.
    pub fn toggle_client_fullscreen(&mut self, sel: &Selector) -> (r: Vec<Action>)
        requires
            old(self).wf(),
        ensures
            final(self).wf(),
            toggle_client_fullscreen_done(*old(self), *final(self), *sel, r@),
    {
        let k = match self.select(sel) {
            None => return Vec::new(),
            Some(id) => match self.record_index(id) {
                None => return Vec::new(),
                Some(k) => k,
            },
        };
        let full = self.screens[self.active].region;
        let p = self.clients[k].place;
        let np = if p.fullscreen {
            Placement { geometry: p.saved, saved: p.saved, fullscreen: false }
        } else {
            Placement { geometry: full, saved: p.geometry, fullscreen: true }
        };
        let id = self.clients[k].id;
        let ghost before = self.clients@;
        self.clients[k].place = np;
        assert(ids_unique(self.clients@));
        proof {
            lemma_same_ids(before, self.clients@);
            lemma_cover_records(self.workspaces@, before, self.clients@, None);
        }
        let mut out: Vec<Action> = Vec::new();
        out.push(Action::Place(id, np.geometry));
        let mut rest = self.refresh();
        out.append(&mut rest);
        out
    }

    /// The client of the current workspace that `sel` picks.
    pub open spec fn selected(&self, sel: &Selector) -> Option<u32> {
        let ws = self.workspaces@[self.current()];
        match sel {
            Selector::Focused => ws.focused_spec(),
            Selector::Index(i) => if *i < ws.clients@.len() {
                Some(ws.clients@[*i as int])
            } else {
                None
            },
            Selector::WmClass(class) => first_with_class(ws.clients@, self.clients@, class@),
        }
    }

    /// The index of the record of the client that `sel` picks, where it has one.
    pub open spec fn target_record(&self, sel: &Selector) -> Option<int> {
        match self.selected(sel) {
            None => None,
            Some(id) => if exists|k: int| 0 <= k < self.clients@.len() && self.clients@[k].id == id {
                Some(choose|k: int| 0 <= k < self.clients@.len() && self.clients@[k].id == id)
            } else {
                None
            },
        }
    }
}

/// The record of client `id` has window class `class`.
pub open spec fn has_class(clients: Seq<Client>, id: u32, class: Seq<char>) -> bool {
    exists|k: int| 0 <= k < clients.len() && #[trigger] clients[k].id == id && clients[k].wm_class@ == class
}

/// The first client of `ids` whose window class is `class`.
pub open spec fn first_with_class(ids: Seq<u32>, clients: Seq<Client>, class: Seq<char>) -> Option<
    u32,
>
    decreases ids.len(),
{
    if ids.len() == 0 {
        None
    } else if has_class(clients, ids[0], class) {
        Some(ids[0])
    } else {
        first_with_class(ids.skip(1), clients, class)
    }
}

/// A `Spawn` for each program, in order.
pub open spec fn spawns_of(programs: Seq<String>) -> Seq<Action> {
    Seq::new(programs.len(), |i: int| Action::Spawn(programs[i]))
}

/// The launches that the default-workspace hooks for workspace `name` ask for, in the order
/// in which the hooks were registered.
pub open spec fn hook_spawns(hooks: Seq<DefaultWorkspace>, name: Seq<char>) -> Seq<Action>
    decreases hooks.len(),
{
    if hooks.len() == 0 {
        Seq::empty()
    } else {
        let rest = hook_spawns(hooks.drop_last(), name);
        if hooks.last().workspace@ == name {
            rest + spawns_of(hooks.last().programs@)
        } else {
            rest
        }
    }
}

/// The first layout from index `from` on named `symbol`.
pub open spec fn layout_named_from(layouts: Seq<Layout>, symbol: Seq<char>, from: int) -> Option<
    int,
>
    decreases layouts.len() - from,
{
    if from < 0 || from >= layouts.len() {
        None
    } else if layouts[from].symbol@ == symbol {
        Some(from)
    } else {
        layout_named_from(layouts, symbol, from + 1)
    }
}

/// The first layout named `symbol`.
pub open spec fn layout_named(layouts: Seq<Layout>, symbol: Seq<char>) -> Option<int> {
    layout_named_from(layouts, symbol, 0)
}

proof fn lemma_layout_named_from(layouts: Seq<Layout>, symbol: Seq<char>, from: int)
    ensures
        layout_named_from(layouts, symbol, from) matches Some(k) ==> 0 <= k < layouts.len(),
    decreases layouts.len() - from,
{
    if 0 <= from < layouts.len() && layouts[from].symbol@ != symbol {
        lemma_layout_named_from(layouts, symbol, from + 1);
    }
}

proof fn lemma_hook_layout(hooks: Seq<DefaultWorkspace>, name: Seq<char>, layouts: Seq<Layout>)
    ensures
        hook_layout(hooks, name, layouts) matches Some(k) ==> 0 <= k < layouts.len(),
    decreases hooks.len(),
{
    if hooks.len() > 0 {
        lemma_hook_layout(hooks.drop_last(), name, layouts);
        lemma_layout_named_from(layouts, hooks.last().layout@, 0);
    }
}

/// The layout that the default-workspace hooks for workspace `name` select: that of the last
/// matching hook whose layout exists.
pub open spec fn hook_layout(hooks: Seq<DefaultWorkspace>, name: Seq<char>, layouts: Seq<Layout>) -> Option<int>
    decreases hooks.len(),
{
    if hooks.len() == 0 {
        None
    } else {
        let before = hook_layout(hooks.drop_last(), name, layouts);
        if hooks.last().workspace@ == name {
            match layout_named(layouts, hooks.last().layout@) {
                Some(k) => Some(k),
                None => before,
            }
        } else {
            before
        }
    }
}

/// A `Show` or a `Hide` for each client.
pub open spec fn visibility(ids: Seq<u32>, show: bool) -> Seq<Action> {
    Seq::new(ids.len(), |i: int| if show { Action::Show(ids[i]) } else { Action::Hide(ids[i]) })
}

/// The screens after the active one switches to workspace `target`: a screen that showed
/// `target` takes the active screen's workspace in exchange.
pub open spec fn switched(screens: Seq<Screen>, active: int, target: usize) -> Seq<Screen> {
    let cur = screens[active].workspace;
    Seq::new(
        screens.len(),
        |i: int|
            if i == active {
                Screen { region: screens[i].region, workspace: target }
            } else if screens[i].workspace == target {
                Screen { region: screens[i].region, workspace: cur }
            } else {
                screens[i]
            },
    )
}

/// A screen shows `w`.
pub open spec fn shown(screens: Seq<Screen>, w: usize) -> bool {
    exists|i: int| 0 <= i < screens.len() && #[trigger] screens[i].workspace == w
}

/// A `Spawn` for each program, in order.
pub fn spawn_all(programs: &Vec<String>) -> (r: Vec<Action>)
    ensures
        r@ == spawns_of(programs@),
{
    let mut out: Vec<Action> = Vec::new();
    let mut p: usize = 0;
    while p < programs.len()
        invariant
            p <= programs@.len(),
            out@ =~= spawns_of(programs@.take(p as int)),
        decreases programs@.len() - p,
    {
        out.push(Action::Spawn(programs[p].clone()));
        p = p + 1;
    }
    assert(programs@.take(p as int) =~= programs@);
    out
}

impl Manager {
    /// Index of the first layout named `symbol`.
    pub fn layout_index(&self, symbol: &String) -> (r: Option<usize>)
        ensures
            r == match layout_named(self.layouts@, symbol@) {
                Some(k) => Some(k as usize),
                None => None::<usize>,
            },
            r matches Some(k) ==> k < self.layouts@.len(),
    {
        let mut k: usize = 0;
        while k < self.layouts.len()
            invariant
                k <= self.layouts@.len(),
                layout_named(self.layouts@, symbol@) == layout_named_from(
                    self.layouts@,
                    symbol@,
                    k as int,
                ),
            decreases self.layouts@.len() - k,
        {
            if self.layouts[k].symbol == *symbol {
                return Some(k);
            }
            k = k + 1;
        }
        None
    }

    /// Workspace `w` shows layout `k` of the shared list.
    pub fn set_layout(&mut self, w: usize, k: usize)
        requires
            old(self).wf(),
            w < old(self).workspaces@.len(),
            k < old(self).layouts@.len(),
        ensures
            final(self).wf(),
            others_kept(old(self).workspaces@, final(self).workspaces@, w as int),
            final(self).workspaces@[w as int].layout == k,
            final(self).workspaces@[w as int].clients@ == old(self).workspaces@[w as int].clients@,
            final(self).workspaces@[w as int].focus == old(self).workspaces@[w as int].focus,
            final(self).workspaces@[w as int].params@ == old(self).workspaces@[w as int].params@,
            final(self).workspaces@[w as int].name@ == old(self).workspaces@[w as int].name@,
            final(self).screens@ == old(self).screens@,
            final(self).active == old(self).active,
            final(self).previous == old(self).previous,
            final(self).clients@ == old(self).clients@,
            final(self).layouts@ == old(self).layouts@,
            final(self).default_workspaces@ == old(self).default_workspaces@,
            final(self).layout_symbol_as_root_name == old(self).layout_symbol_as_root_name,
    {
        assert(self.workspaces@[w as int].wf());
        self.workspaces[w].layout = k;
        assert forall|i: int| 0 <= i < self.workspaces@.len() implies #[trigger] self.workspaces@[i].wf()
            && self.workspaces@[i].params@.len() == self.layouts@.len() by {
            if i != w {
                assert(old(self).workspaces@[i].wf());
            }
        }
    }

    /// What the default-workspace hooks for workspace `w` ask for: a layout to select, and
    /// programs to launch in registration order.
    pub fn default_workspace_plan(&self, w: usize) -> (r: (Option<usize>, Vec<Action>))
        requires
            w < self.workspaces@.len(),
        ensures
            r.1@ == hook_spawns(self.default_workspaces@, self.workspaces@[w as int].name@),
            r.0 == match hook_layout(
                self.default_workspaces@,
                self.workspaces@[w as int].name@,
                self.layouts@,
            ) {
                Some(k) => Some(k as usize),
                None => None::<usize>,
            },
            r.0 matches Some(k) ==> k < self.layouts@.len(),
    {
        let ghost hooks = self.default_workspaces@;
        let ghost name = self.workspaces@[w as int].name@;
        let mut out: Vec<Action> = Vec::new();
        let mut chosen: Option<usize> = None;
        let mut h: usize = 0;
        while h < self.default_workspaces.len()
            invariant
                w < self.workspaces@.len(),
                hooks == self.default_workspaces@,
                h <= hooks.len(),
                name == self.workspaces@[w as int].name@,
                out@ == hook_spawns(hooks.take(h as int), name),
                chosen == match hook_layout(hooks.take(h as int), name, self.layouts@) {
                    Some(k) => Some(k as usize),
                    None => None::<usize>,
                },
                chosen matches Some(k) ==> k < self.layouts@.len(),
            decreases hooks.len() - h,
        {
            assert(hooks.take(h + 1).drop_last() =~= hooks.take(h as int));
            assert(hooks.take(h + 1).last() == hooks[h as int]);
            if self.default_workspaces[h].workspace == self.workspaces[w].name {
                match self.layout_index(&self.default_workspaces[h].layout) {
                    Some(k) => {
                        chosen = Some(k);
                    },
                    None => {},
                }
                let mut spawned = spawn_all(&self.default_workspaces[h].programs);
                out.append(&mut spawned);
            }
            h = h + 1;
        }
        assert(hooks.take(h as int) =~= hooks);
        (chosen, out)
    }

    /// The screen that shows workspace `w`.
    pub fn screen_showing(&self, w: usize) -> (r: Option<usize>)
        ensures
            r is None <==> !shown(self.screens@, w),
            r matches Some(s) ==> s < self.screens@.len() && self.screens@[s as int].workspace == w,
    {
        let mut s: usize = 0;
        while s < self.screens.len()
            invariant
                s <= self.screens@.len(),
                forall|j: int| 0 <= j < s ==> self.screens@[j].workspace != w,
            decreases self.screens@.len() - s,
        {
            if self.screens[s].workspace == w {
                return Some(s);
            }
            s = s + 1;
        }
        None
    }
}

/// Switching the active screen to any existing workspace keeps every screen on one workspace
/// and no workspace on two screens.
pub proof fn lemma_switched_ok(screens: Seq<Screen>, n: nat, active: int, target: usize)
    requires
        screens_ok(screens, n),
        0 <= active < screens.len(),
        target < n,
    ensures
        screens_ok(switched(screens, active, target), n),
{
    let t = switched(screens, active, target);
    assert forall|i: int| 0 <= i < t.len() implies #[trigger] t[i].workspace < n && t[i].region.wf() by {
        assert(screens[i].workspace < n);
        assert(screens[active].workspace < n);
        assert(screens[i].region.wf());
    }
    assert forall|i: int, j: int| 0 <= i < t.len() && 0 <= j < t.len() && i != j implies #[trigger] t[i].workspace
        != #[trigger] t[j].workspace by {
        assert(screens[i].workspace != screens[j].workspace);
        assert(i != active ==> screens[i].workspace != screens[active].workspace);
        assert(j != active ==> screens[j].workspace != screens[active].workspace);
    }
}

/// A `Show` (or a `Hide`) for each client.
pub fn visibility_of(ids: &Vec<u32>, show: bool) -> (r: Vec<Action>)
    ensures
        r@ == visibility(ids@, show),
{
    let mut out: Vec<Action> = Vec::new();
    let mut i: usize = 0;
    while i < ids.len()
        invariant
            i <= ids@.len(),
            out@ =~= visibility(ids@.take(i as int), show),
        decreases ids@.len() - i,
    {
        if show {
            out.push(Action::Show(ids[i]));
        } else {
            out.push(Action::Hide(ids[i]));
        }
        i = i + 1;
    }
    assert(ids@.take(i as int) =~= ids@);
    out
}

impl Manager {
    /// Shows workspace `target` on the active screen; where another screen showed it, that
    /// screen takes the active screen's workspace instead. Entering a workspace with no clients
    /// runs its default-workspace hooks. An unknown index, or the workspace already shown
    /// there, changes nothing.
    #[verifier::rlimit(50)]
    pub fn focus_workspace(&mut self, target: usize) -> (r: Vec<Action>)
        requires
            old(self).wf(),
        ensures
            final(self).wf(),
            focus_workspace_done(*old(self), *final(self), target, r@),
    {
        if target >= self.workspaces.len() {
            return Vec::new();
        }
        proof {
            self.lemma_current_ok();
        }
        let active = self.active;
        let cur = self.screens[active].workspace;
        if target == cur {
            return Vec::new();
        }
        let mut out: Vec<Action> = Vec::new();
        let ghost old_screens = self.screens@;
        proof {
            lemma_switched_ok(old_screens, self.workspaces@.len(), active as int, target);
        }
        let ghost ows = self.workspaces@;
        match self.screen_showing(target) {
            Some(s2) => {
                let region = self.screens[s2].region;
                self.screens.set(s2, Screen { region, workspace: cur });
                assert(out@ =~= Seq::empty());
            },
            None => {
                let mut hidden = visibility_of(&self.workspaces[cur].clients, false);
                let mut showing = visibility_of(&self.workspaces[target].clients, true);
                out.append(&mut hidden);
                out.append(&mut showing);
                assert(out@ =~= visibility(ows[cur as int].clients@, false) + visibility(
                    ows[target as int].clients@,
                    true,
                ));
            },
        }
        let ghost vis = out@;
        let region = self.screens[active].region;
        self.screens.set(active, Screen { region, workspace: target });
        self.previous = cur;
        assert(self.screens@ =~= switched(old_screens, active as int, target));
        if self.workspaces[target].clients.len() == 0 {
            proof {
                lemma_hook_layout(self.default_workspaces@, self.workspaces@[target as int].name@, self.layouts@);
            }
            let plan = self.default_workspace_plan(target);
            let layout = plan.0;
            let mut spawned = plan.1;
            let ghost hl = hook_layout(self.default_workspaces@, self.workspaces@[target as int].name@, self.layouts@);
            // the vector's length bounds the index that the hooks chose
            let _n_layouts = self.layouts.len();
            match layout {
                Some(k) => self.set_layout(target, k),
                None => {},
            }
            out.append(&mut spawned);
        } else {
            assert(out@ =~= vis + Seq::empty());
        }
        let ghost mid = out@;
        let mut rest = self.refresh();
        out.append(&mut rest);
        assert(out@ =~= mid + self.refresh_spec());
        out
    }

    /// Shows again the workspace that the active screen showed before the last switch.
    pub fn toggle_workspace(&mut self) -> (r: Vec<Action>)
        requires
            old(self).wf(),
        ensures
            final(self).wf(),
            focus_workspace_done(*old(self), *final(self), old(self).previous, r@),
    {
        let p = self.previous;
        self.focus_workspace(p)
    }
}

/// The first workspace, from `from` on, that no screen of `screens` shows.
pub open spec fn first_unused(screens: Seq<Screen>, n: int, from: int) -> Option<int>
    decreases n - from,
{
    if from < 0 || from >= n {
        None
    } else if !shown(screens, from as usize) {
        Some(from)
    } else {
        first_unused(screens, n, from + 1)
    }
}

proof fn lemma_first_unused(screens: Seq<Screen>, n: int, from: int)
    requires
        n <= usize::MAX,
    ensures
        first_unused(screens, n, from) matches Some(w) ==> from <= w < n && 0 <= w && !shown(
            screens,
            w as usize,
        ),
    decreases n - from,
{
    if 0 <= from < n && shown(screens, from as usize) {
        lemma_first_unused(screens, n, from + 1);
    }
}

/// The screens after the outputs were found to be `regions`: the first screens keep their
/// workspaces, each new one takes the first workspace that no screen shows yet, and an output
/// for which none is left gets no screen.
pub open spec fn reconciled(before: Seq<Screen>, regions: Seq<Region>, n: int) -> Seq<Screen>
    decreases regions.len(),
{
    if regions.len() == 0 {
        Seq::empty()
    } else {
        let prev = reconciled(before, regions.drop_last(), n);
        let i = regions.len() - 1;
        if i < before.len() {
            prev.push(Screen { region: regions[i], workspace: before[i].workspace })
        } else {
            match first_unused(prev, n, 0) {
                Some(w) => prev.push(Screen { region: regions[i], workspace: w as usize }),
                None => prev,
            }
        }
    }
}

/// The first workspace of `n` that none of `screens` shows.
pub fn first_free(screens: &Vec<Screen>, n: usize) -> (r: Option<usize>)
    ensures
        r == match first_unused(screens@, n as int, 0) {
            Some(w) => Some(w as usize),
            None => None::<usize>,
        },
        r matches Some(w) ==> w < n && !shown(screens@, w),
{
    proof {
        lemma_first_unused(screens@, n as int, 0);
    }
    let mut w: usize = 0;
    while w < n
        invariant
            w <= n,
            first_unused(screens@, n as int, 0) == first_unused(screens@, n as int, w as int),
        decreases n - w,
    {
        let mut used = false;
        let mut j: usize = 0;
        while j < screens.len()
            invariant
                j <= screens@.len(),
                used <==> exists|k: int| 0 <= k < j && #[trigger] screens@[k].workspace == w,
            decreases screens@.len() - j,
        {
            if screens[j].workspace == w {
                used = true;
            }
            j = j + 1;
        }
        if !used {
            return Some(w);
        }
        w = w + 1;
    }
    None
}

impl Manager {
    /// Replaces the screens by those of the outputs found, `regions`, keeping each existing
    /// screen's workspace and giving each new screen a workspace that none shows. With no
    /// outputs found the screens stay as they are.
    pub fn detect_screens(&mut self, regions: &Vec<Region>) -> (r: Vec<Action>)
        requires
            old(self).wf(),
            forall|i: int| 0 <= i < regions@.len() ==> #[trigger] regions@[i].wf(),
        ensures
            final(self).wf(),
            screens_ok(final(self).screens@, final(self).workspaces@.len()),
            regions@.len() == 0 ==> final(self).screens@ == old(self).screens@,
            regions@.len() > 0 ==> final(self).screens@ == reconciled(
                old(self).screens@,
                regions@,
                old(self).workspaces@.len() as int,
            ),
            final(self).workspaces@ == old(self).workspaces@,
            final(self).clients@ == old(self).clients@,
            r@ == final(self).refresh_spec(),
    {
        if regions.len() == 0 {
            return self.refresh();
        }
        let n = self.workspaces.len();
        let mut screens: Vec<Screen> = Vec::new();
        let mut i: usize = 0;
        while i < regions.len()
            invariant
                i <= regions@.len(),
                n == self.workspaces@.len(),
                self.wf(),
                forall|j: int| 0 <= j < regions@.len() ==> #[trigger] regions@[j].wf(),
                screens@ == reconciled(self.screens@, regions@.take(i as int), n as int),
                screens@.len() <= i,
                forall|j: int| 0 <= j < screens@.len() ==> #[trigger] screens@[j].workspace < n,
                forall|j: int| 0 <= j < screens@.len() ==> #[trigger] screens@[j].region.wf(),
                forall|a: int, b: int|
                    0 <= a < screens@.len() && 0 <= b < screens@.len() && a != b
                        ==> #[trigger] screens@[a].workspace != #[trigger] screens@[b].workspace,
                i > 0 ==> screens@.len() > 0,
                i <= self.screens@.len() ==> screens@.len() == i && forall|j: int|
                    0 <= j < i ==> #[trigger] screens@[j].workspace == self.screens@[j].workspace,
            decreases regions@.len() - i,
        {
            assert(regions@.take(i + 1).drop_last() =~= regions@.take(i as int));
            assert(regions@.take(i + 1)[i as int] == regions@[i as int]);
            assert(regions@[i as int].wf());
            if i < self.screens.len() {
                let w = self.screens[i].workspace;
                proof {
                    assert(self.screens@[i as int].workspace < n);
                    assert forall|j: int| 0 <= j < screens@.len() implies #[trigger] screens@[j].workspace != w by {
                        assert(self.screens@[j].workspace != self.screens@[i as int].workspace);
                    }
                }
                screens.push(Screen { region: regions[i], workspace: w });
            } else {
                proof {
                    lemma_first_unused(screens@, n as int, 0);
                }
                let found = first_free(&screens, n);
                match found {
                    Some(w) => {
                        screens.push(Screen { region: regions[i], workspace: w });
                    },
                    None => {},
                }
            }
            i = i + 1;
        }
        assert(regions@.take(i as int) =~= regions@);
        self.screens = screens;
        if self.active >= self.screens.len() {
            self.active = 0;
        }
        self.refresh()
    }

    /// Ends the event loop.
    pub fn exit(&mut self) -> (r: Vec<Action>)
        requires
            old(self).wf(),
        ensures
            final(self).wf(),
            exit_done(*old(self), *final(self), r@),
    {
        self.running = false;
        let mut out: Vec<Action> = Vec::new();
        out.push(Action::Quit);
        out
    }
}

/// How far one step moves the main area's share of the screen, in percent.
pub const RATIO_STEP: u32 = 10;

/// Parameters after one step of `change` to the main-area count.
pub open spec fn max_main_changed(p: LayoutParams, change: Change) -> LayoutParams {
    LayoutParams {
        max_main: match change {
            Change::More => if p.max_main == u32::MAX {
                p.max_main
            } else {
                (p.max_main + 1) as u32
            },
            Change::Less => if p.max_main == 0 {
                0
            } else {
                (p.max_main - 1) as u32
            },
        },
        ratio: p.ratio,
    }
}

/// Parameters after one step of `change` to the split ratio, kept within 0 to 100 percent.
pub open spec fn ratio_changed(p: LayoutParams, change: Change) -> LayoutParams {
    let r = if p.ratio > 100 { 100 } else { p.ratio as int };
    LayoutParams {
        max_main: p.max_main,
        ratio: match change {
            Change::More => if r + RATIO_STEP > 100 {
                100
            } else {
                (r + RATIO_STEP) as u32
            },
            Change::Less => if r < RATIO_STEP {
                0
            } else {
                (r - RATIO_STEP) as u32
            },
        },
    }
}

/// The window class is one of those that always float.
pub open spec fn floats(classes: Seq<String>, class: Seq<char>) -> bool {
    exists|i: int| 0 <= i < classes.len() && #[trigger] classes[i]@ == class
}

pub fn is_floating_class(classes: &Vec<String>, class: &String) -> (r: bool)
    ensures
        r == floats(classes@, class@),
{
    let mut i: usize = 0;
    while i < classes.len()
        invariant
            i <= classes@.len(),
            forall|j: int| 0 <= j < i ==> classes@[j]@ != class@,
        decreases classes@.len() - i,
    {
        if classes[i] == *class {
            return true;
        }
        i = i + 1;
    }
    false
}

impl Manager {
    /// Replaces the parameters of the current workspace's selected layout.
    fn set_current_params(&mut self, p: LayoutParams)
        requires
            old(self).wf(),
        ensures
            final(self).wf(),
            others_kept(old(self).workspaces@, final(self).workspaces@, old(self).current()),
            final(self).workspaces@[old(self).current()].params@ == old(self).workspaces@[old(self).current()].params@.update(
                old(self).workspaces@[old(self).current()].layout as int,
                p,
            ),
            final(self).workspaces@[old(self).current()].clients@ == old(self).workspaces@[old(self).current()].clients@,
            final(self).workspaces@[old(self).current()].layout == old(self).workspaces@[old(self).current()].layout,
            final(self).workspaces@[old(self).current()].focus == old(self).workspaces@[old(self).current()].focus,
            final(self).screens@ == old(self).screens@,
            final(self).active == old(self).active,
            final(self).previous == old(self).previous,
            final(self).clients@ == old(self).clients@,
            final(self).layouts@ == old(self).layouts@,
    {
        proof {
            self.lemma_current_ok();
        }
        let w = self.screens[self.active].workspace;
        self.workspaces[w].set_params(p);
        assert forall|i: int| 0 <= i < self.workspaces@.len() implies #[trigger] self.workspaces@[i].wf()
            && self.workspaces@[i].params@.len() == self.layouts@.len() by {
            if i != w {
                assert(old(self).workspaces@[i].wf());
            }
        }
    }

    /// The parameters of the current workspace's selected layout.
    pub fn current_params(&self) -> (p: LayoutParams)
        requires
            self.wf(),
        ensures
            p == self.workspaces@[self.current()].params@[self.workspaces@[self.current()].layout as int],
    {
        proof {
            self.lemma_current_ok();
        }
        let ws = &self.workspaces[self.screens[self.active].workspace];
        ws.params[ws.layout]
    }

    /// One more (or one fewer) client in the main area of the current workspace's layout.
    pub fn update_max_main(&mut self, change: Change) -> (r: Vec<Action>)
        requires
            old(self).wf(),
        ensures
            final(self).wf(),
            update_max_main_done(*old(self), *final(self), change, r@),
    {
        let p = self.current_params();
        let m = match change {
            Change::More => if p.max_main == u32::MAX {
                p.max_main
            } else {
                p.max_main + 1
            },
            Change::Less => if p.max_main == 0 {
                0
            } else {
                p.max_main - 1
            },
        };
        self.set_current_params(LayoutParams { max_main: m, ratio: p.ratio });
        self.refresh()
    }

    /// A larger (or smaller) main area on the current workspace's layout.
    pub fn update_main_ratio(&mut self, change: Change) -> (r: Vec<Action>)
        requires
            old(self).wf(),
        ensures
            final(self).wf(),
            update_main_ratio_done(*old(self), *final(self), change, r@),
    {
        let p = self.current_params();
        let c = if p.ratio > 100 {
            100
        } else {
            p.ratio
        };
        let ratio = match change {
            Change::More => if c + RATIO_STEP > 100 {
                100
            } else {
                c + RATIO_STEP
            },
            Change::Less => if c < RATIO_STEP {
                0
            } else {
                c - RATIO_STEP
            },
        };
        self.set_current_params(LayoutParams { max_main: p.max_main, ratio });
        self.refresh()
    }

    /// Selects the next (or previous) layout of the shared list on the current workspace,
    /// wrapping round.
    pub fn cycle_layout(&mut self, dir: Direction) -> (r: Vec<Action>)
        requires
            old(self).wf(),
        ensures
            final(self).wf(),
            cycle_layout_done(*old(self), *final(self), dir, r@),
    {
        proof {
            self.lemma_current_ok();
        }
        let w = self.screens[self.active].workspace;
        let k = step_index_of(self.layouts.len(), self.workspaces[w].layout, dir, true);
        self.set_layout(w, k);
        let mut out: Vec<Action> = Vec::new();
        if self.layout_symbol_as_root_name {
            out.push(Action::SetRootName(self.layouts[k].symbol.clone()));
        }
        let mut rest = self.refresh();
        out.append(&mut rest);
        out
    }
}

/// The screens with the workspaces of screens `a` and `b` exchanged.
pub open spec fn exchanged(screens: Seq<Screen>, a: int, b: int) -> Seq<Screen> {
    screens.update(a, Screen { region: screens[a].region, workspace: screens[b].workspace }).update(
        b,
        Screen { region: screens[b].region, workspace: screens[a].workspace },
    )
}

/// Changing one workspace in a way that keeps it well formed keeps them all well formed.
proof fn lemma_workspaces_kept(before: Seq<Workspace>, after: Seq<Workspace>, w: int, n: nat)
    requires
        workspaces_ok(before, n),
        others_kept(before, after, w),
        0 <= w < before.len() ==> after[w].wf() && after[w].params@.len() == n,
    ensures
        workspaces_ok(after, n),
{
    assert forall|i: int| 0 <= i < after.len() implies #[trigger] after[i].wf() && after[i].params@.len() == n by {
        if i != w {
            assert(after[i] == before[i]);
            assert(before[i].wf());
        }
    }
}

impl Manager {
    proof fn lemma_workspaces_ok(&self, before: Seq<Workspace>, w: int)
        requires
            workspaces_ok(before, self.layouts@.len()),
            others_kept(before, self.workspaces@, w),
            0 <= w < before.len() ==> self.workspaces@[w].wf() && self.workspaces@[w].params@.len()
                == self.layouts@.len(),
        ensures
            workspaces_ok(self.workspaces@, self.layouts@.len()),
    {
        lemma_workspaces_kept(before, self.workspaces@, w, self.layouts@.len());
    }

    /// The workspace that holds client `id`.
    pub fn owner_of(&self, id: u32) -> (r: Option<usize>)
        ensures
            r is None <==> forall|v: int|
                0 <= v < self.workspaces@.len() ==> !(#[trigger] self.workspaces@[v]).clients@.contains(id),
            r matches Some(v) ==> v < self.workspaces@.len() && self.workspaces@[v as int].clients@.contains(id),
    {
        let mut v: usize = 0;
        while v < self.workspaces.len()
            invariant
                v <= self.workspaces@.len(),
                forall|u: int| 0 <= u < v ==> !(#[trigger] self.workspaces@[u]).clients@.contains(id),
            decreases self.workspaces@.len() - v,
        {
            if self.workspaces[v].index_of(id).is_some() {
                return Some(v);
            }
            v = v + 1;
        }
        None
    }

    /// A window was mapped: it becomes a client of the current workspace, at the end of its
    /// order and with the focus, floating when its class is one that always floats. A window
    /// already known changes nothing.
    pub fn handle_mapped(&mut self, id: u32, wm_class: String, geometry: Region) -> (r: Vec<
        Action,
    >)
        requires
            old(self).wf(),
        ensures
            final(self).wf(),
            final(self).screens@ == old(self).screens@,
            final(self).active == old(self).active,
            (exists|k: int| 0 <= k < old(self).clients@.len() && old(self).clients@[k].id == id)
                || (exists|v: int|
                0 <= v < old(self).workspaces@.len() && (#[trigger] old(self).workspaces@[v]).clients@.contains(
                    id,
                )) ==> {
                &&& final(self).clients@ == old(self).clients@
                &&& final(self).workspaces@ == old(self).workspaces@
                &&& r@.len() == 0
            },
            !has_record(old(self).clients@, id) && (forall|v: int|
                0 <= v < old(self).workspaces@.len() ==> !(#[trigger] old(self).workspaces@[v]).clients@.contains(
                    id,
                )) && old(self).workspaces@[old(self).current()].clients@.len() < usize::MAX ==> {
                let w = old(self).current();
                let c = final(self).clients@.last();
                &&& final(self).clients@.len() == old(self).clients@.len() + 1
                &&& final(self).clients@.drop_last() == old(self).clients@
                &&& c.id == id
                &&& c.wm_class@ == wm_class@
                &&& c.floating == floats(old(self).floating_classes@, wm_class@)
                &&& c.place == (Placement { geometry, saved: geometry, fullscreen: false })
                &&& others_kept(old(self).workspaces@, final(self).workspaces@, w)
                &&& final(self).workspaces@[w].clients@ == old(self).workspaces@[w].clients@.push(id)
                &&& final(self).workspaces@[w].focus == old(self).workspaces@[w].clients@.len()
                &&& r@ == seq![Action::Show(id)] + final(self).refresh_spec()
            },
    {
        proof {
            self.lemma_current_ok();
        }
        let w = self.screens[self.active].workspace;
        match self.record_index(id) {
            Some(_) => {
                return Vec::new();
            },
            None => {},
        }
        match self.owner_of(id) {
            Some(_) => {
                return Vec::new();
            },
            None => {},
        }
        assert(!self.workspaces@[w as int].clients@.contains(id));
        if self.workspaces[w].clients.len() == usize::MAX {
            // cannot happen for a vector of non-zero-sized items; nothing is changed
            return Vec::new();
        }
        let floating = is_floating_class(&self.floating_classes, &wm_class);
        let ghost before = self.workspaces@;
        let ghost old_clients = self.clients@;
        self.clients.push(
            Client {
                id,
                wm_class,
                floating,
                place: Placement { geometry, saved: geometry, fullscreen: false },
            },
        );
        assert(self.clients@.drop_last() =~= old_clients);
        assert(ids_unique(self.clients@));
        proof {
            assert forall|x: u32| has_record(old_clients, x) implies has_record(self.clients@, x) by {
                let k = choose|k: int| 0 <= k < old_clients.len() && #[trigger] old_clients[k].id == x;
                assert(self.clients@[k].id == x);
            }
            lemma_cover_records(before, old_clients, self.clients@, None);
            assert(self.clients@[old_clients.len() as int].id == id);
            assert(has_record(self.clients@, id));
        }
        self.workspaces[w].add_client(id);
        proof {
            self.lemma_workspaces_ok(before, w as int);
            assert forall|x: u32| #[trigger] self.workspaces@[w as int].clients@.contains(x) implies before[w as int].clients@.contains(x) || x == id by {
                let i = choose|i: int| 0 <= i < self.workspaces@[w as int].clients@.len() && self.workspaces@[w as int].clients@[i] == x;
                if i < before[w as int].clients@.len() {
                    assert(before[w as int].clients@[i] == x);
                }
            }
            lemma_owned_added(before, self.workspaces@, w as int, id);
            assert forall|v: int, x: u32| 0 <= v < self.workspaces@.len() && #[trigger] self.workspaces@[v].clients@.contains(x) implies has_record(
                self.clients@,
                x,
            ) by {
                if v != w {
                    assert(self.workspaces@[v] == before[v]);
                }
                if x != id {
                    assert(before[v].clients@.contains(x));
                }
            }
        }
        let mut out: Vec<Action> = Vec::new();
        out.push(Action::Show(id));
        let mut rest = self.refresh();
        out.append(&mut rest);
        out
    }

    /// A window was unmapped or destroyed: its client leaves the model.
    pub fn handle_unmapped(&mut self, id: u32) -> (r: Vec<Action>)
        requires
            old(self).wf(),
        ensures
            final(self).wf(),
            final(self).screens@ == old(self).screens@,
            final(self).active == old(self).active,
            forall|k: int| 0 <= k < final(self).clients@.len() ==> #[trigger] final(self).clients@[k].id != id,
            forall|k: int|
                0 <= k < old(self).clients@.len() && #[trigger] old(self).clients@[k].id != id
                    ==> final(self).clients@.contains(old(self).clients@[k]),
            final(self).workspaces@.len() == old(self).workspaces@.len(),
            forall|w: int|
                0 <= w < final(self).workspaces@.len() ==> !(#[trigger] final(self).workspaces@[w]).clients@.contains(id),
            forall|w: int, x: u32|
                0 <= w < final(self).workspaces@.len() && x != id ==> (#[trigger] final(self).workspaces@[w].clients@.contains(x)
                    <==> old(self).workspaces@[w].clients@.contains(x)),
            r@ == final(self).refresh_spec(),
    {
        let ghost ows = self.workspaces@;
        let mut w: usize = 0;
        while w < self.workspaces.len()
            invariant
                self.wf(),
                w <= self.workspaces@.len(),
                ows.len() == self.workspaces@.len(),
                self.screens@ == old(self).screens@,
                self.active == old(self).active,
                self.clients@ == old(self).clients@,
                ows == old(self).workspaces@,
                forall|v: int| 0 <= v < w ==> !(#[trigger] self.workspaces@[v]).clients@.contains(id),
                forall|v: int| w <= v < self.workspaces@.len() ==> #[trigger] self.workspaces@[v] == ows[v],
                forall|v: int, x: u32|
                    0 <= v < self.workspaces@.len() && x != id ==> (#[trigger] self.workspaces@[v].clients@.contains(x)
                        <==> ows[v].clients@.contains(x)),
            decreases self.workspaces@.len() - w,
        {
            let ghost before = self.workspaces@;
            assert(self.workspaces@[w as int].wf());
            self.workspaces[w].remove_client(id);
            proof {
                self.lemma_workspaces_ok(before, w as int);
                assert forall|x: u32| 0 <= w < self.workspaces@.len() && #[trigger] self.workspaces@[w as int].clients@.contains(x)
                    implies before[w as int].clients@.contains(x) by {}
                lemma_owned_shrunk(before, self.workspaces@, w as int);
                lemma_cover_shrunk(before, self.workspaces@, w as int, self.clients@);
            }
            w = w + 1;
        }
        let ghost old_clients = self.clients@;
        match self.record_index(id) {
            Some(k) => {
                self.clients.remove(k);
                assert forall|j: int|
                    0 <= j < old_clients.len() && #[trigger] old_clients[j].id != id implies self.clients@.contains(
                        old_clients[j],
                    ) by {
                    if j < k {
                        assert(self.clients@[j] == old_clients[j]);
                    } else {
                        assert(self.clients@[j - 1] == old_clients[j]);
                    }
                }
                assert forall|x: u32| has_record(old_clients, x) && Some(x) != Some(id) implies has_record(
                    self.clients@,
                    x,
                ) by {
                    let j = choose|j: int| 0 <= j < old_clients.len() && #[trigger] old_clients[j].id == x;
                    if j < k {
                        assert(self.clients@[j] == old_clients[j]);
                    } else {
                        assert(self.clients@[j - 1] == old_clients[j]);
                    }
                }
                proof {
                    lemma_cover_records(self.workspaces@, old_clients, self.clients@, Some(id));
                }
                assert forall|a: int, b: int|
                    0 <= a < self.clients@.len() && 0 <= b < self.clients@.len() && a != b implies #[trigger] self.clients@[a].id
                        != #[trigger] self.clients@[b].id by {
                    let oa = if a < k { a } else { a + 1 };
                    let ob = if b < k { b } else { b + 1 };
                    assert(self.clients@[a] == old_clients[oa]);
                    assert(self.clients@[b] == old_clients[ob]);
                }
            },
            None => {
                assert forall|j: int|
                    0 <= j < old_clients.len() && #[trigger] old_clients[j].id != id implies self.clients@.contains(
                        old_clients[j],
                    ) by {
                    assert(self.clients@[j] == old_clients[j]);
                }
            },
        }
        self.refresh()
    }

    /// Moves the focused client to workspace `target`, at the end of its order. An unknown
    /// index, the current workspace, or an empty one changes nothing.
    pub fn client_to_workspace(&mut self, target: usize) -> (r: Vec<Action>)
        requires
            old(self).wf(),
        ensures
            final(self).wf(),
            client_to_workspace_done(*old(self), *final(self), target, r@),
    {
        proof {
            self.lemma_current_ok();
        }
        let w = self.screens[self.active].workspace;
        if target >= self.workspaces.len() || target == w {
            return Vec::new();
        }
        let id = match self.workspaces[w].focused_client() {
            Some(id) => id,
            None => {
                return Vec::new();
            },
        };
        assert(self.workspaces@[target as int].wf());
        assert(self.workspaces@[w as int].clients@.contains(id));
        assert(!self.workspaces@[target as int].clients@.contains(id));
        match self.workspaces[target].index_of(id) {
            Some(_) => {
                return Vec::new();
            },
            None => {},
        }
        if self.workspaces[target].clients.len() == usize::MAX {
            return Vec::new();
        }
        let ghost ows = self.workspaces@;
        let focus = self.workspaces[w].focus;
        self.workspaces[w].remove_client(id);
        proof {
            self.lemma_workspaces_ok(ows, w as int);
            let s = ows[w as int].clients@;
            assert(s[focus as int] == id);
            let i = choose|i: int| 0 <= i < s.len() && s[i] == id && self.workspaces@[w as int].clients@ == s.remove(i);
            assert(i == focus);
        }
        let ghost mid = self.workspaces@;
        proof {
            lemma_owned_shrunk(ows, mid, w as int);
            assert forall|v: int| 0 <= v < mid.len() && v != target implies !(#[trigger] mid[v]).clients@.contains(id) by {
                if v != w {
                    assert(ows[w as int].clients@.contains(id));
                    assert(mid[v] == ows[v]);
                }
            }
        }
        self.workspaces[target].add_client(id);
        proof {
            self.lemma_workspaces_ok(mid, target as int);
            let t = target as int;
            assert forall|x: u32| #[trigger] self.workspaces@[t].clients@.contains(x) implies mid[t].clients@.contains(x) || x == id by {
                let i = choose|i: int| 0 <= i < self.workspaces@[t].clients@.len() && self.workspaces@[t].clients@[i] == x;
                if i < mid[t].clients@.len() {
                    assert(mid[t].clients@[i] == x);
                }
            }
            lemma_owned_added(mid, self.workspaces@, t, id);
        }
        let mut out: Vec<Action> = Vec::new();
        match self.screen_showing(target) {
            Some(_) => {},
            None => out.push(Action::Hide(id)),
        }
        let mut rest = self.refresh();
        out.append(&mut rest);
        out
    }

    /// Moves the focus to the next (or previous) screen, wrapping round.
    pub fn cycle_screen(&mut self, dir: Direction) -> (r: Vec<Action>)
        requires
            old(self).wf(),
        ensures
            final(self).wf(),
            cycle_screen_done(*old(self), *final(self), dir, r@),
    {
        self.active = step_index_of(self.screens.len(), self.active, dir, true);
        proof {
            self.lemma_current_ok();
        }
        let mut out: Vec<Action> = Vec::new();
        match self.workspaces[self.screens[self.active].workspace].focused_client() {
            Some(id) => out.push(Action::Focus(id)),
            None => {},
        }
        assert(out@ =~= self.focus_action());
        out
    }

    /// Moves the current workspace to the next (or previous) screen, which takes the active
    /// screen's place in exchange; the focus goes with the workspace.
    pub fn drag_workspace(&mut self, dir: Direction) -> (r: Vec<Action>)
        requires
            old(self).wf(),
        ensures
            final(self).wf(),
            drag_workspace_done(*old(self), *final(self), dir, r@),
    {
        let a = self.active;
        let b = step_index_of(self.screens.len(), a, dir, true);
        let sa = self.screens[a];
        let sb = self.screens[b];
        let ghost before = self.screens@;
        self.screens.set(a, Screen { region: sa.region, workspace: sb.workspace });
        self.screens.set(b, Screen { region: sb.region, workspace: sa.workspace });
        self.active = b;
        assert(self.screens@ =~= exchanged(before, a as int, b as int));
        proof {
            let t = self.screens@;
            assert forall|i: int| 0 <= i < t.len() implies #[trigger] t[i].workspace < self.workspaces@.len() && t[i].region.wf() by {
                assert(before[i].workspace < self.workspaces@.len() && before[i].region.wf());
                assert(before[a as int].workspace < self.workspaces@.len());
                assert(before[b as int].workspace < self.workspaces@.len());
            }
            assert forall|i: int, j: int| 0 <= i < t.len() && 0 <= j < t.len() && i != j implies #[trigger] t[i].workspace
                != #[trigger] t[j].workspace by {
                let oi = if i == a { b as int } else if i == b { a as int } else { i };
                let oj = if j == a { b as int } else if j == b { a as int } else { j };
                if a == b {
                    assert(before[i].workspace != before[j].workspace);
                } else {
                    assert(t[i].workspace == before[oi].workspace);
                    assert(t[j].workspace == before[oj].workspace);
                    assert(before[oi].workspace != before[oj].workspace);
                }
            }
        }
        self.refresh()
    }
}

/// A screen for each of the first outputs, the `i`-th showing workspace `i`, as far as there
/// are workspaces.
pub open spec fn initial_screens(outputs: Seq<Region>, n: nat) -> Seq<Screen> {
    let k = if outputs.len() < n { outputs.len() } else { n };
    Seq::new(k, |i: int| Screen { region: outputs[i], workspace: i as usize })
}

impl Manager {
    /// A manager with one empty workspace per name, each with its own copy of the layouts'
    /// parameters, showing the first workspaces on the outputs. `None` when there is no
    /// workspace, no layout or no output, or an output does not fit in the coordinate space.
    pub fn new(
        names: &Vec<String>,
        layouts: Vec<Layout>,
        floating_classes: Vec<String>,
        default_workspaces: Vec<DefaultWorkspace>,
        outputs: &Vec<Region>,
    ) -> (r: Option<Manager>)
        ensures
            r is Some <==> names@.len() > 0 && layouts@.len() > 0 && outputs@.len() > 0 && forall|
                i: int,
            | 0 <= i < outputs@.len() ==> #[trigger] outputs@[i].wf(),
            r matches Some(m) ==> {
                &&& m.wf()
                &&& m.workspaces@.len() == names@.len()
                &&& forall|i: int|
                    0 <= i < names@.len() ==> (#[trigger] m.workspaces@[i]).name@ == names@[i]@
                        && m.workspaces@[i].clients@.len() == 0 && m.workspaces@[i].layout == 0
                        && m.workspaces@[i].params@ == layouts@.map_values(|l: Layout| l.params)
                &&& m.layouts@ == layouts@
                &&& m.screens@ == initial_screens(outputs@, names@.len())
                &&& m.active == 0
                &&& m.previous == 0
                &&& m.clients@.len() == 0
                &&& m.floating_classes@ == floating_classes@
                &&& m.default_workspaces@ == default_workspaces@
                &&& !m.layout_symbol_as_root_name
                &&& m.running
            },
    {
        if names.len() == 0 || layouts.len() == 0 || outputs.len() == 0 {
            return None;
        }
        let mut j: usize = 0;
        while j < outputs.len()
            invariant
                j <= outputs@.len(),
                forall|i: int| 0 <= i < j ==> #[trigger] outputs@[i].wf(),
            decreases outputs@.len() - j,
        {
            if outputs[j].x as u64 + outputs[j].w as u64 > u32::MAX as u64 || outputs[j].y as u64
                + outputs[j].h as u64 > u32::MAX as u64 {
                assert(!outputs@[j as int].wf());
                return None;
            }
            j = j + 1;
        }
        let mut params: Vec<LayoutParams> = Vec::new();
        let mut l: usize = 0;
        while l < layouts.len()
            invariant
                l <= layouts@.len(),
                params@ =~= layouts@.take(l as int).map_values(|x: Layout| x.params),
            decreases layouts@.len() - l,
        {
            params.push(layouts[l].params);
            l = l + 1;
        }
        assert(layouts@.take(l as int) =~= layouts@);
        let mut workspaces: Vec<Workspace> = Vec::new();
        let mut i: usize = 0;
        while i < names.len()
            invariant
                i <= names@.len(),
                params@ == layouts@.map_values(|x: Layout| x.params),
                params@.len() == layouts@.len(),
                layouts@.len() > 0,
                workspaces@.len() == i,
                forall|k: int|
                    0 <= k < i ==> (#[trigger] workspaces@[k]).name@ == names@[k]@
                        && workspaces@[k].clients@.len() == 0 && workspaces@[k].layout == 0
                        && workspaces@[k].params@ == params@ && workspaces@[k].wf(),
            decreases names@.len() - i,
        {
            let copy = params.clone();
            assert(copy@ == params@);
            workspaces.push(Workspace::new(names[i].clone(), copy));
            i = i + 1;
        }
        let n = names.len();
        let mut screens: Vec<Screen> = Vec::new();
        let mut s: usize = 0;
        while s < outputs.len() && s < n
            invariant
                s <= outputs@.len(),
                s <= n,
                n == names@.len(),
                forall|i: int| 0 <= i < outputs@.len() ==> #[trigger] outputs@[i].wf(),
                screens@ =~= Seq::new(s as nat, |i: int| Screen { region: outputs@[i], workspace: i as usize }),
            decreases outputs@.len() - s,
        {
            screens.push(Screen { region: outputs[s], workspace: s });
            s = s + 1;
        }
        assert(screens@ =~= initial_screens(outputs@, n as nat));
        let m = Manager {
            layouts,
            workspaces,
            screens,
            active: 0,
            previous: 0,
            clients: Vec::new(),
            floating_classes,
            default_workspaces,
            layout_symbol_as_root_name: false,
            running: true,
        };
        assert(m.screens@[0].workspace == 0);
        Some(m)
    }
}

/// A key combination: modifier mask and key code.
#[derive(Clone, Copy, Debug, PartialEq, Eq, Structural)]
pub struct KeyCode {
    pub mask: u16,
    pub code: u8,
}

/// What a key binding does.
pub enum Command {
    CycleClient(Direction),
    DragClient(Direction),
    KillClient,
    ToggleClientFullscreen(Selector),
    ToggleWorkspace,
    CycleScreen(Direction),
    DragWorkspace(Direction),
    CycleLayout(Direction),
    UpdateMaxMain(Change),
    UpdateMainRatio(Change),
    DetectScreens,
    Exit,
    FocusWorkspace(usize),
    ClientToWorkspace(usize),
    /// Launch a program; the manager's state is not touched.
    Spawn(String),
}

/// The table from key combinations to commands, built once at startup.
pub struct KeyBindings {
    pub entries: Vec<(KeyCode, Command)>,
}

/// The first binding of `key` in `entries`.
pub open spec fn binding_index(entries: Seq<(KeyCode, Command)>, key: KeyCode, from: int) -> Option<int>
    decreases entries.len() - from,
{
    if from < 0 || from >= entries.len() {
        None
    } else if entries[from].0 == key {
        Some(from)
    } else {
        binding_index(entries, key, from + 1)
    }
}

impl KeyBindings {
    pub fn new() -> (k: KeyBindings)
        ensures
            k.entries@.len() == 0,
    {
        KeyBindings { entries: Vec::new() }
    }

    /// Binds `key` to `cmd`, after any earlier binding of the same key, which keeps priority.
    pub fn bind(&mut self, key: KeyCode, cmd: Command)
        ensures
            final(self).entries@ == old(self).entries@.push((key, cmd)),
    {
        self.entries.push((key, cmd));
    }

    /// Index of the command bound to `key`; unbound keys give `None`.
    pub fn lookup(&self, key: KeyCode) -> (r: Option<usize>)
        ensures
            r == match binding_index(self.entries@, key, 0) {
                Some(i) => Some(i as usize),
                None => None::<usize>,
            },
            r matches Some(i) ==> i < self.entries@.len() && self.entries@[i as int].0 == key
                && binding_index(self.entries@, key, 0) == Some(i as int),
    {
        let mut i: usize = 0;
        while i < self.entries.len()
            invariant
                i <= self.entries@.len(),
                binding_index(self.entries@, key, 0) == binding_index(self.entries@, key, i as int),
            decreases self.entries@.len() - i,
        {
            if self.entries[i].0 == key {
                return Some(i);
            }
            i = i + 1;
        }
        None
    }
}

/// What `Manager::cycle_client` does to `before`, giving `after` and the actions `r`.
pub open spec fn cycle_client_done(before: Manager, after: Manager, dir: Direction, r: Seq<Action>) -> bool {
    &&& (({
        let w = before.current();
        let ows = before.workspaces@[w];
        let conf = before.layouts@[ows.layout as int].conf;
        &&& others_kept(before.workspaces@, after.workspaces@, w)
        &&& after.workspaces@[w].clients@ == ows.clients@
        &&& after.workspaces@[w].layout == ows.layout
        &&& after.workspaces@[w].params@ == ows.params@
        &&& after.workspaces@[w].focus == cycled_focus(
            ows.clients@.len() as int,
            ows.focus as int,
            dir,
            conf.allow_wrapping,
        )
        &&& r == if conf.follow_focus {
            after.refresh_spec()
        } else {
            after.focus_action()
        }
    }))
    &&& (after.screens@ == before.screens@)
    &&& (after.active == before.active)
    &&& (after.previous == before.previous)
    &&& (after.clients@ == before.clients@)
    &&& (after.layouts@ == before.layouts@)
}

/// What `Manager::drag_client` does to `before`, giving `after` and the actions `r`.
pub open spec fn drag_client_done(before: Manager, after: Manager, dir: Direction, r: Seq<Action>) -> bool {
    &&& (({
        let w = before.current();
        let ows = before.workspaces@[w];
        &&& others_kept(before.workspaces@, after.workspaces@, w)
        &&& (after.workspaces@[w].clients@, after.workspaces@[w].focus as int)
            == dragged(ows.clients@, ows.focus as int, dir)
        &&& after.workspaces@[w].layout == ows.layout
        &&& after.workspaces@[w].params@ == ows.params@
    }))
    &&& (r == after.refresh_spec())
    &&& (after.screens@ == before.screens@)
    &&& (after.active == before.active)
    &&& (after.previous == before.previous)
    &&& (after.clients@ == before.clients@)
    &&& (after.layouts@ == before.layouts@)
}

/// What `Manager::toggle_client_fullscreen` does to `before`, giving `after` and the actions `r`.
pub open spec fn toggle_client_fullscreen_done(before: Manager, after: Manager, sel: Selector, r: Seq<Action>) -> bool {
    &&& (after.workspaces@ == before.workspaces@)
    &&& (after.screens@ == before.screens@)
    &&& (after.active == before.active)
    &&& (after.clients@.len() == before.clients@.len())
    &&& (match before.target_record(&sel) {
        None => after.clients@ == before.clients@ && r.len() == 0,
        Some(k) => {
            let full = before.screens@[before.active as int].region;
            let p = toggled(before.clients@[k].place, full);
            &&& after.clients@[k].place == p
            &&& after.clients@[k].id == before.clients@[k].id
            &&& after.clients@[k].floating == before.clients@[k].floating
            &&& after.clients@[k].wm_class == before.clients@[k].wm_class
            &&& forall|j: int|
                0 <= j < before.clients@.len() && j != k ==> #[trigger] after.clients@[j]
                    == before.clients@[j]
            &&& r == seq![Action::Place(before.clients@[k].id, p.geometry)]
                + after.refresh_spec()
        },
    })
}

/// What `Manager::focus_workspace` does to `before`, giving `after` and the actions `r`.
pub open spec fn focus_workspace_done(before: Manager, after: Manager, target: usize, r: Seq<Action>) -> bool {
    &&& (after.active == before.active)
    &&& (after.clients@ == before.clients@)
    &&& (after.layouts@ == before.layouts@)
    &&& (target >= before.workspaces@.len() || target == before.current() ==> {
        &&& after.screens@ == before.screens@
        &&& after.workspaces@ == before.workspaces@
        &&& after.previous == before.previous
        &&& r.len() == 0
    })
    &&& (target < before.workspaces@.len() && target != before.current() ==> {
        let ows = before.workspaces@;
        let empty = ows[target as int].clients@.len() == 0;
        let name = ows[target as int].name@;
        let hooks = before.default_workspaces@;
        &&& after.screens@ == switched(
            before.screens@,
            before.active as int,
            target,
        )
        &&& after.previous == before.current()
        &&& others_kept(ows, after.workspaces@, target as int)
        &&& after.workspaces@[target as int].clients@ == ows[target as int].clients@
        &&& after.workspaces@[target as int].layout == if empty {
            match hook_layout(hooks, name, before.layouts@) {
                Some(k) => k,
                None => ows[target as int].layout as int,
            }
        } else {
            ows[target as int].layout as int
        }
        &&& r == (if shown(before.screens@, target) {
            Seq::empty()
        } else {
            visibility(ows[before.current()].clients@, false) + visibility(
                ows[target as int].clients@,
                true,
            )
        }) + (if empty {
            hook_spawns(hooks, name)
        } else {
            Seq::empty()
        }) + after.refresh_spec()
    })
}

/// What `Manager::cycle_screen` does to `before`, giving `after` and the actions `r`.
pub open spec fn cycle_screen_done(before: Manager, after: Manager, dir: Direction, r: Seq<Action>) -> bool {
    &&& (after.active == step_index(before.screens@.len() as int, before.active as int, dir, true))
    &&& (after.screens@ == before.screens@)
    &&& (after.clients@ == before.clients@)
    &&& (after.layouts@ == before.layouts@)
    &&& (after.previous == before.previous)
    &&& (after.workspaces@ == before.workspaces@)
    &&& (r == after.focus_action())
}

/// What `Manager::drag_workspace` does to `before`, giving `after` and the actions `r`.
pub open spec fn drag_workspace_done(before: Manager, after: Manager, dir: Direction, r: Seq<Action>) -> bool {
    &&& (after.active == step_index(before.screens@.len() as int, before.active as int, dir, true))
    &&& (after.screens@ == exchanged(before.screens@, before.active as int, after.active as int))
    &&& (after.current() == before.current())
    &&& (after.clients@ == before.clients@)
    &&& (after.layouts@ == before.layouts@)
    &&& (after.previous == before.previous)
    &&& (after.workspaces@ == before.workspaces@)
    &&& (r == after.refresh_spec())
}

/// What `Manager::cycle_layout` does to `before`, giving `after` and the actions `r`.
pub open spec fn cycle_layout_done(before: Manager, after: Manager, dir: Direction, r: Seq<Action>) -> bool {
    &&& (({
        let w = before.current();
        let ows = before.workspaces@[w];
        &&& others_kept(before.workspaces@, after.workspaces@, w)
        &&& after.workspaces@[w].layout == step_index(
            before.layouts@.len() as int,
            ows.layout as int,
            dir,
            true,
        )
        &&& after.workspaces@[w].clients@ == ows.clients@
        &&& after.workspaces@[w].params@ == ows.params@
        &&& r == (if before.layout_symbol_as_root_name {
            seq![
                Action::SetRootName(
                    before.layouts@[after.workspaces@[w].layout as int].symbol,
                ),
            ]
        } else {
            Seq::empty()
        }) + after.refresh_spec()
    }))
    &&& (after.screens@ == before.screens@)
    &&& (after.active == before.active)
    &&& (after.previous == before.previous)
    &&& (after.clients@ == before.clients@)
    &&& (after.layouts@ == before.layouts@)
    &&& (after.layout_symbol_as_root_name == before.layout_symbol_as_root_name)
}

/// What `Manager::update_max_main` does to `before`, giving `after` and the actions `r`.
pub open spec fn update_max_main_done(before: Manager, after: Manager, change: Change, r: Seq<Action>) -> bool {
    &&& (({
        let w = before.current();
        let ows = before.workspaces@[w];
        &&& others_kept(before.workspaces@, after.workspaces@, w)
        &&& after.workspaces@[w].params@ == ows.params@.update(
            ows.layout as int,
            max_main_changed(ows.params@[ows.layout as int], change),
        )
        &&& after.workspaces@[w].clients@ == ows.clients@
        &&& after.workspaces@[w].layout == ows.layout
    }))
    &&& (after.screens@ == before.screens@)
    &&& (after.active == before.active)
    &&& (after.previous == before.previous)
    &&& (after.clients@ == before.clients@)
    &&& (after.layouts@ == before.layouts@)
    &&& (r == after.refresh_spec())
}

/// What `Manager::update_main_ratio` does to `before`, giving `after` and the actions `r`.
pub open spec fn update_main_ratio_done(before: Manager, after: Manager, change: Change, r: Seq<Action>) -> bool {
    &&& (({
        let w = before.current();
        let ows = before.workspaces@[w];
        &&& others_kept(before.workspaces@, after.workspaces@, w)
        &&& after.workspaces@[w].params@ == ows.params@.update(
            ows.layout as int,
            ratio_changed(ows.params@[ows.layout as int], change),
        )
        &&& after.workspaces@[w].clients@ == ows.clients@
        &&& after.workspaces@[w].layout == ows.layout
    }))
    &&& (after.screens@ == before.screens@)
    &&& (after.active == before.active)
    &&& (after.previous == before.previous)
    &&& (after.clients@ == before.clients@)
    &&& (after.layouts@ == before.layouts@)
    &&& (r == after.refresh_spec())
}

/// What `Manager::client_to_workspace` does to `before`, giving `after` and the actions `r`.
pub open spec fn client_to_workspace_done(before: Manager, after: Manager, target: usize, r: Seq<Action>) -> bool {
    &&& (after.screens@ == before.screens@)
    &&& (after.clients@ == before.clients@)
    &&& (({
        let w = before.current();
        let ows = before.workspaces@;
        target < ows.len() && target != w && ows[w].clients@.len() > 0 && ows[
            target as int
        ].clients@.len() < usize::MAX
    }) ==> {
        let w = before.current();
        let ows = before.workspaces@;
        let id = ows[w].clients@[ows[w].focus as int];
        &&& after.workspaces@[w].clients@ == ows[w].clients@.remove(ows[w].focus as int)
        &&& after.workspaces@[target as int].clients@ == ows[target as int].clients@.push(id)
        &&& forall|v: int| 0 <= v < ows.len() && v != w && v != target ==> #[trigger] after.workspaces@[v] == ows[v]
        &&& r == (if shown(before.screens@, target) {
            Seq::empty()
        } else {
            seq![Action::Hide(id)]
        }) + after.refresh_spec()
    })
    &&& (!({
        let w = before.current();
        let ows = before.workspaces@;
        target < ows.len() && target != w && ows[w].clients@.len() > 0 && ows[
            target as int
        ].clients@.len() < usize::MAX
    }) ==> after.workspaces@ == before.workspaces@ && r.len() == 0)
}

/// What `Manager::exit` does to `before`, giving `after` and the actions `r`.
pub open spec fn exit_done(before: Manager, after: Manager, r: Seq<Action>) -> bool {
    &&& (!after.running)
    &&& (after.screens@ == before.screens@)
    &&& (after.workspaces@ == before.workspaces@)
    &&& (after.clients@ == before.clients@)
    &&& (r == seq![Action::Quit])
}

/// What carrying out `cmd` does to the manager `before`, giving `after` and the actions `r`.
pub open spec fn command_done(before: Manager, after: Manager, cmd: Command, r: Seq<Action>) -> bool {
    match cmd {
        Command::CycleClient(d) => cycle_client_done(before, after, d, r),
        Command::DragClient(d) => drag_client_done(before, after, d, r),
        Command::KillClient => {
            &&& after == before
            &&& r == match before.workspaces@[before.current()].focused_spec() {
                Some(id) => seq![Action::Close(id)],
                None => Seq::empty(),
            }
        },
        Command::ToggleClientFullscreen(sel) => toggle_client_fullscreen_done(before, after, sel, r),
        Command::ToggleWorkspace => focus_workspace_done(before, after, before.previous, r),
        Command::CycleScreen(d) => cycle_screen_done(before, after, d, r),
        Command::DragWorkspace(d) => drag_workspace_done(before, after, d, r),
        Command::CycleLayout(d) => cycle_layout_done(before, after, d, r),
        Command::UpdateMaxMain(c) => update_max_main_done(before, after, c, r),
        Command::UpdateMainRatio(c) => update_main_ratio_done(before, after, c, r),
        Command::DetectScreens => after == before && r == seq![Action::QueryOutputs],
        Command::Exit => exit_done(before, after, r),
        Command::FocusWorkspace(t) => focus_workspace_done(before, after, t, r),
        Command::ClientToWorkspace(t) => client_to_workspace_done(before, after, t, r),
        Command::Spawn(p) => after == before && r == seq![Action::Spawn(p)],
    }
}

impl Manager {
    /// Carries out a command.
    pub fn run_command(&mut self, cmd: &Command) -> (r: Vec<Action>)
        requires
            old(self).wf(),
        ensures
            final(self).wf(),
            command_done(*old(self), *final(self), *cmd, r@),
    {
        match cmd {
            Command::CycleClient(d) => self.cycle_client(*d),
            Command::DragClient(d) => self.drag_client(*d),
            Command::KillClient => {
                let mut out: Vec<Action> = Vec::new();
                match self.kill_client() {
                    Some(a) => out.push(a),
                    None => {},
                }
                out
            },
            Command::ToggleClientFullscreen(sel) => self.toggle_client_fullscreen(sel),
            Command::ToggleWorkspace => self.toggle_workspace(),
            Command::CycleScreen(d) => self.cycle_screen(*d),
            Command::DragWorkspace(d) => self.drag_workspace(*d),
            Command::CycleLayout(d) => self.cycle_layout(*d),
            Command::UpdateMaxMain(c) => self.update_max_main(*c),
            Command::UpdateMainRatio(c) => self.update_main_ratio(*c),
            Command::DetectScreens => {
                let mut out: Vec<Action> = Vec::new();
                out.push(Action::QueryOutputs);
                out
            },
            Command::Exit => self.exit(),
            Command::FocusWorkspace(w) => self.focus_workspace(*w),
            Command::ClientToWorkspace(w) => self.client_to_workspace(*w),
            Command::Spawn(p) => {
                let mut out: Vec<Action> = Vec::new();
                out.push(Action::Spawn(p.clone()));
                out
            },
        }
    }

    /// A key was pressed: runs the command bound to it, if any.
    pub fn handle_key(&mut self, bindings: &KeyBindings, key: KeyCode) -> (r: Vec<Action>)
        requires
            old(self).wf(),
        ensures
            final(self).wf(),
            binding_index(bindings.entries@, key, 0) is None ==> r@.len() == 0
                && final(self).clients@ == old(self).clients@ && final(self).workspaces@ == old(self).workspaces@ && final(self).screens@ == old(self).screens@,
            binding_index(bindings.entries@, key, 0) matches Some(i) ==> command_done(
                *old(self),
                *final(self),
                bindings.entries@[i].1,
                r@,
            ),
    {
        match bindings.lookup(key) {
            None => Vec::new(),
            Some(i) => self.run_command(&bindings.entries[i].1),
        }
    }
}

impl Manager {
    /// Makes client `id` float at `region`, out of tiling; an unknown client changes nothing.
    pub fn float_client(&mut self, id: u32, region: Region) -> (r: Vec<Action>)
        requires
            old(self).wf(),
        ensures
            final(self).wf(),
            final(self).workspaces@ == old(self).workspaces@,
            final(self).screens@ == old(self).screens@,
            final(self).clients@.len() == old(self).clients@.len(),
            forall|k: int|
                0 <= k < old(self).clients@.len() ==> {
                    let c = old(self).clients@[k];
                    let d = #[trigger] final(self).clients@[k];
                    &&& d.id == c.id
                    &&& d.wm_class == c.wm_class
                    &&& c.id == id ==> d.floating && d.place == (Placement {
                        geometry: region,
                        saved: region,
                        fullscreen: false,
                    })
                    &&& c.id != id ==> d == c
                },
            (forall|k: int| 0 <= k < old(self).clients@.len() ==> old(self).clients@[k].id != id)
                ==> r@.len() == 0,
            (exists|k: int| 0 <= k < old(self).clients@.len() && old(self).clients@[k].id == id)
                ==> r@ == seq![Action::Place(id, region)] + final(self).refresh_spec(),
    {
        match self.record_index(id) {
            None => Vec::new(),
            Some(k) => {
                let ghost before = self.clients@;
                self.clients[k].floating = true;
                self.clients[k].place = Placement { geometry: region, saved: region, fullscreen: false };
                assert(ids_unique(self.clients@));
                proof {
                    lemma_same_ids(before, self.clients@);
                    lemma_cover_records(self.workspaces@, before, self.clients@, None);
                }
                let mut out: Vec<Action> = Vec::new();
                out.push(Action::Place(id, region));
                let mut rest = self.refresh();
                out.append(&mut rest);
                out
            },
        }
    }
}

} // verus!
