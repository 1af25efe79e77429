use vstd::prelude::*;

verus! {

use vstd::multiset::Multiset;

/// One workspace as the compositor reports it: a stable numeric id, a display
/// index that orders workspaces on screen, an optional display name (UTF-8
/// bytes), and whether the workspace currently holds the focus.
#[derive(Clone, Debug, PartialEq, Eq)]
pub struct Workspace {
    pub id: u64,
    pub index: u32,
    pub name: Option<Vec<u8>>,
    pub is_focused: bool,
}

/// Mathematical model of a `Workspace`.
pub struct WsView {
    pub id: u64,
    pub index: u32,
    pub name: Option<Seq<u8>>,
    pub is_focused: bool,
}

impl View for Workspace {
    type V = WsView;

    open spec fn view(&self) -> WsView {
        WsView {
            id: self.id,
            index: self.index,
            name: match self.name {
                Some(n) => Some(n@),
                None => None,
            },
            is_focused: self.is_focused,
        }
    }
}

/// The models of a sequence of workspaces, element by element.
pub open spec fn wviews(s: Seq<Workspace>) -> Seq<WsView> {
    Seq::new(s.len(), |i: int| s[i]@)
}

/// Where `x` belongs in `s`: after every element whose index is not greater,
/// so that inserting each element of a list in turn sorts it stably.
pub open spec fn insert_sorted(x: WsView, s: Seq<WsView>) -> Seq<WsView>
    decreases s.len(),
{
    if s.len() == 0 {
        seq![x]
    } else if s[0].index <= x.index {
        seq![s[0]] + insert_sorted(x, s.drop_first())
    } else {
        seq![x] + s
    }
}

/// Stable insertion sort by `index`, ascending: the snapshot order the
/// reconciler maintains.
pub open spec fn sort_by_index(s: Seq<WsView>) -> Seq<WsView>
    decreases s.len(),
{
    if s.len() == 0 {
        Seq::empty()
    } else {
        insert_sorted(s.last(), sort_by_index(s.drop_last()))
    }
}

/// Every element no later in the sequence has an index no greater.
pub open spec fn sorted_by_index(s: Seq<WsView>) -> bool {
    forall|i: int, j: int| 0 <= i <= j < s.len() ==> s[i].index <= s[j].index
}

/// Focus assignment after a `WorkspaceActivated { id, focused: true }` event:
/// each workspace is focused exactly when its id is the activated one.
pub open spec fn refocus(s: Seq<WsView>, id: u64) -> Seq<WsView> {
    Seq::new(s.len(), |i: int| WsView { is_focused: s[i].id == id, ..s[i] })
}

/// No two workspaces share an id.
pub open spec fn unique_ids(s: Seq<WsView>) -> bool {
    forall|i: int, j: int| 0 <= i < j < s.len() ==> s[i].id != s[j].id
}

/// At most one workspace holds the focus.
pub open spec fn at_most_one_focused(s: Seq<WsView>) -> bool {
    forall|i: int, j: int|
        0 <= i < s.len() && 0 <= j < s.len() && s[i].is_focused && s[j].is_focused ==> i == j
}

proof fn lemma_insert_sorted_at(x: WsView, s: Seq<WsView>, pos: int)
    requires
        0 <= pos <= s.len(),
        forall|i: int| 0 <= i < pos ==> s[i].index <= x.index,
        pos < s.len() ==> s[pos].index > x.index,
    ensures
        insert_sorted(x, s) == s.insert(pos, x),
    decreases s.len(),
{
    if pos == 0 {
        if s.len() == 0 {
            assert(insert_sorted(x, s) =~= s.insert(0, x));
        } else {
            assert(insert_sorted(x, s) =~= s.insert(0, x));
        }
    } else {
        lemma_insert_sorted_at(x, s.drop_first(), pos - 1);
        assert(insert_sorted(x, s) =~= s.insert(pos, x));
    }
}

proof fn lemma_insert_sorted_len(x: WsView, s: Seq<WsView>)
    ensures
        insert_sorted(x, s).len() == s.len() + 1,
    decreases s.len(),
{
    if s.len() > 0 && s[0].index <= x.index {
        lemma_insert_sorted_len(x, s.drop_first());
    }
}

proof fn lemma_insert_sorted_sorted(x: WsView, s: Seq<WsView>)
    requires
        sorted_by_index(s),
    ensures
        sorted_by_index(insert_sorted(x, s)),
    decreases s.len(),
{
    lemma_insert_sorted_len(x, s);
    if s.len() == 0 {
    } else if s[0].index <= x.index {
        assert(sorted_by_index(s.drop_first()));
        lemma_insert_sorted_sorted(x, s.drop_first());
        lemma_insert_sorted_len(x, s.drop_first());
        let r = seq![s[0]] + insert_sorted(x, s.drop_first());
        let t = insert_sorted(x, s.drop_first());
        assert forall|i: int, j: int| 0 <= i <= j < r.len() implies r[i].index <= r[j].index by {
            if i == 0 && j > 0 {
                lemma_insert_sorted_min(x, s.drop_first(), j - 1);
            }
        }
    } else {
    }
}

/// Every element of `insert_sorted(x, s)` is either `x` or an element of `s`.
proof fn lemma_insert_sorted_min(x: WsView, s: Seq<WsView>, k: int)
    requires
        0 <= k < insert_sorted(x, s).len(),
    ensures
        insert_sorted(x, s)[k] == x || exists|i: int| 0 <= i < s.len() && s[i] == insert_sorted(x, s)[k],
    decreases s.len(),
{
    if s.len() == 0 {
    } else if s[0].index <= x.index {
        if k == 0 {
            assert(s[0] == insert_sorted(x, s)[0]);
        } else {
            lemma_insert_sorted_min(x, s.drop_first(), k - 1);
            let t = insert_sorted(x, s.drop_first());
            if t[k - 1] == x {
            } else {
                let i = choose|i: int| 0 <= i < s.drop_first().len() && s.drop_first()[i] == t[k - 1];
                assert(s[i + 1] == insert_sorted(x, s)[k]);
            }
        }
    } else {
    }
}

proof fn lemma_insert_sorted_multiset(x: WsView, s: Seq<WsView>)
    ensures
        insert_sorted(x, s).to_multiset() == s.to_multiset().insert(x),
    decreases s.len(),
{
    broadcast use vstd::seq_lib::group_to_multiset_ensures;

    if s.len() == 0 {
        assert(seq![x] =~= Seq::empty().push(x));
        assert(Seq::<WsView>::empty().to_multiset() =~= Multiset::empty());
        assert(insert_sorted(x, s).to_multiset() =~= s.to_multiset().insert(x));
    } else if s[0].index <= x.index {
        lemma_insert_sorted_multiset(x, s.drop_first());
        let t = insert_sorted(x, s.drop_first());
        assert(seq![s[0]] + t =~= (seq![s[0]] + t));
        lemma_cons_multiset(s[0], t);
        lemma_cons_multiset(s[0], s.drop_first());
        assert(seq![s[0]] + s.drop_first() =~= s);
        assert(insert_sorted(x, s).to_multiset() =~= s.to_multiset().insert(x));
    } else {
        lemma_cons_multiset(x, s);
        assert(insert_sorted(x, s).to_multiset() =~= s.to_multiset().insert(x));
    }
}

proof fn lemma_cons_multiset(x: WsView, s: Seq<WsView>)
    ensures
        (seq![x] + s).to_multiset() == s.to_multiset().insert(x),
    decreases s.len(),
{
    broadcast use vstd::seq_lib::group_to_multiset_ensures;

    if s.len() == 0 {
        assert(seq![x] + s =~= Seq::empty().push(x));
        assert((seq![x] + s).to_multiset() =~= s.to_multiset().insert(x));
    } else {
        lemma_cons_multiset(x, s.drop_last());
        assert(seq![x] + s =~= (seq![x] + s.drop_last()).push(s.last()));
        assert(s =~= s.drop_last().push(s.last()));
        assert((seq![x] + s).to_multiset() =~= s.to_multiset().insert(x));
    }
}

/// Sorting a list of workspaces keeps exactly its elements and orders them
/// ascending by index.
pub proof fn lemma_sort_by_index_ensures(s: Seq<WsView>)
    ensures
        sort_by_index(s).to_multiset() == s.to_multiset(),
        sorted_by_index(sort_by_index(s)),
        sort_by_index(s).len() == s.len(),
    decreases s.len(),
{
    broadcast use vstd::seq_lib::group_to_multiset_ensures;

    if s.len() == 0 {
    } else {
        lemma_sort_by_index_ensures(s.drop_last());
        lemma_insert_sorted_sorted(s.last(), sort_by_index(s.drop_last()));
        lemma_insert_sorted_multiset(s.last(), sort_by_index(s.drop_last()));
        lemma_insert_sorted_len(s.last(), sort_by_index(s.drop_last()));
        assert(s =~= s.drop_last().push(s.last()));
        assert(s.to_multiset() =~= s.drop_last().to_multiset().insert(s.last()));
    }
}

fn clone_bytes(v: &Vec<u8>) -> (r: Vec<u8>)
    ensures
        r@ == v@,
{
    let r = v.clone();
    proof {
        assert(r@ =~= v@);
    }
    r
}

impl Workspace {
    /// A copy with the same model.
    pub fn duplicate(&self) -> (r: Workspace)
        ensures
            r@ == self@,
    {
        Workspace {
            id: self.id,
            index: self.index,
            name: match &self.name {
                Some(n) => Some(clone_bytes(n)),
                None => None,
            },
            is_focused: self.is_focused,
        }
    }
}

/// A copy of a workspace list with the same models.
pub fn duplicate_list(v: &Vec<Workspace>) -> (r: Vec<Workspace>)
    ensures
        wviews(r@) == wviews(v@),
{
    let mut r: Vec<Workspace> = Vec::new();
    let mut k: usize = 0;
    while k < v.len()
        invariant
            k <= v.len(),
            r@.len() == k,
            forall|i: int| 0 <= i < k ==> r@[i]@ == v@[i]@,
        decreases v.len() - k,
    {
        r.push(v[k].duplicate());
        k += 1;
    }
    proof {
        assert(wviews(r@) =~= wviews(v@));
    }
    r
}

/// Sorts a workspace list ascending by `index`, stably.
pub fn sort_workspaces(v: Vec<Workspace>) -> (r: Vec<Workspace>)
    ensures
        wviews(r@) == sort_by_index(wviews(v@)),
{
    let mut r: Vec<Workspace> = Vec::new();
    let mut k: usize = 0;
    while k < v.len()
        invariant
            k <= v.len(),
            wviews(r@) == sort_by_index(wviews(v@.subrange(0, k as int))),
        decreases v.len() - k,
    {
        let w = v[k].duplicate();
        let ghost pre = wviews(r@);
        let mut pos: usize = 0;
        while pos < r.len() && r[pos].index <= w.index
            invariant
                pos <= r.len(),
                forall|i: int| 0 <= i < pos ==> pre[i].index <= w@.index,
                wviews(r@) == pre,
            decreases r.len() - pos,
        {
            pos += 1;
        }
        r.insert(pos, w);
        proof {
            lemma_insert_sorted_at(w@, pre, pos as int);
            assert(wviews(r@) =~= pre.insert(pos as int, w@));
            assert(wviews(v@.subrange(0, k + 1 as int)).drop_last() =~= wviews(v@.subrange(0, k as int)));
            assert(wviews(v@.subrange(0, k + 1 as int)).last() == w@);
            assert(wviews(r@) == sort_by_index(wviews(v@.subrange(0, k + 1 as int))));
        }
        k += 1;
    }
    proof {
        assert(v@.subrange(0, v@.len() as int) =~= v@);
    }
    r
}


/// The text a consumer shows for a workspace: its name when it has one,
/// else its index in decimal, as the presentation layer labels buttons.
pub fn workspace_label(w: &Workspace) -> (r: Vec<u8>)
    ensures
        (match w@.name {
            Some(n) => r@ == n,
            None => r@ == crate::codec::dec_digits(w@.index as u64),
        }),
{
    match &w.name {
        Some(n) => clone_bytes(n),
        None => {
            let mut v: Vec<u8> = Vec::new();
            crate::codec::push_decimal(w.index as u64, &mut v);
            proof {
                assert(v@ =~= crate::codec::dec_digits(w@.index as u64));
            }
            v
        },
    }
}

/// A state-change notification pushed by the compositor. The wire protocol is
/// an open union: kinds this client does not handle decode as `Other` and are
/// dropped without effect, so newer servers stay compatible.
#[derive(Debug, PartialEq, Eq)]
pub enum Event {
    WorkspacesChanged { workspaces: Vec<Workspace> },
    WorkspaceActivated { id: u64, focused: bool },
    Other,
}

/// Mathematical model of an `Event`.
pub enum EventView {
    WorkspacesChanged { workspaces: Seq<WsView> },
    WorkspaceActivated { id: u64, focused: bool },
    Other,
}

impl View for Event {
    type V = EventView;

    open spec fn view(&self) -> EventView {
        match self {
            Event::WorkspacesChanged { workspaces } => EventView::WorkspacesChanged {
                workspaces: wviews(workspaces@),
            },
            Event::WorkspaceActivated { id, focused } => EventView::WorkspaceActivated {
                id: *id,
                focused: *focused,
            },
            Event::Other => EventView::Other,
        }
    }
}

/// The only two notifications a consumer ever receives.
#[derive(Debug, PartialEq, Eq)]
pub enum WorkspaceUpdate {
    WorkspaceChanged(Vec<Workspace>),
    FocusChanged(u64),
}

/// Mathematical model of a `WorkspaceUpdate`.
pub enum UpdateView {
    WorkspaceChanged(Seq<WsView>),
    FocusChanged(u64),
}

impl View for WorkspaceUpdate {
    type V = UpdateView;

    open spec fn view(&self) -> UpdateView {
        match self {
            WorkspaceUpdate::WorkspaceChanged(l) => UpdateView::WorkspaceChanged(wviews(l@)),
            WorkspaceUpdate::FocusChanged(id) => UpdateView::FocusChanged(*id),
        }
    }
}

/// The snapshot after one event is applied, in arrival order:
/// a `WorkspacesChanged` replaces it wholesale (sorted by index); an
/// activation with `focused: true` moves the focus flag; everything else
/// leaves it untouched.
pub open spec fn apply_event_snapshot(snap: Seq<WsView>, e: EventView) -> Seq<WsView> {
    match e {
        EventView::WorkspacesChanged { workspaces } => sort_by_index(workspaces),
        EventView::WorkspaceActivated { id, focused } => if focused {
            refocus(snap, id)
        } else {
            snap
        },
        EventView::Other => snap,
    }
}

/// The outward update one event produces: zero or one per event, and
/// focus-loss events are not surfaced.
pub open spec fn event_update(e: EventView) -> Option<UpdateView> {
    match e {
        EventView::WorkspacesChanged { workspaces } => Some(
            UpdateView::WorkspaceChanged(sort_by_index(workspaces)),
        ),
        EventView::WorkspaceActivated { id, focused } => if focused {
            Some(UpdateView::FocusChanged(id))
        } else {
            None
        },
        EventView::Other => None,
    }
}


/// The whole consumer-visible model after one event: snapshot rule plus the
/// focused-id bookkeeping (only a focus gain changes it).
pub open spec fn apply_event_model(m: ModelView, e: EventView) -> ModelView {
    ModelView {
        workspaces: apply_event_snapshot(m.workspaces, e),
        focused: (match e {
            EventView::WorkspaceActivated { id, focused: true } => id,
            _ => m.focused,
        }),
    }
}

/// Mathematical model of a `WorkspaceModel`.
pub struct ModelView {
    pub workspaces: Seq<WsView>,
    pub focused: u64,
}

/// The reconciled in-memory state a consumer observes: the ordered workspace
/// snapshot and the id of the workspace that last gained focus (0 before any
/// focus event).
pub struct WorkspaceModel {
    pub workspaces: Vec<Workspace>,
    pub focused: u64,
}

impl View for WorkspaceModel {
    type V = ModelView;

    open spec fn view(&self) -> ModelView {
        ModelView { workspaces: wviews(self.workspaces@), focused: self.focused }
    }
}

/// The model after one outward update is applied.
pub open spec fn apply_update_spec(m: ModelView, u: UpdateView) -> ModelView {
    match u {
        UpdateView::WorkspaceChanged(l) => ModelView {
            workspaces: sort_by_index(l),
            focused: m.focused,
        },
        UpdateView::FocusChanged(id) => ModelView { workspaces: refocus(m.workspaces, id), focused: id },
    }
}

fn refocus_list(v: &Vec<Workspace>, id: u64) -> (r: Vec<Workspace>)
    ensures
        wviews(r@) == refocus(wviews(v@), id),
{
    let mut r: Vec<Workspace> = Vec::new();
    let mut k: usize = 0;
    while k < v.len()
        invariant
            k <= v.len(),
            r@.len() == k,
            forall|i: int| 0 <= i < k ==> r@[i]@ == (WsView { is_focused: v@[i]@.id == id, ..v@[i]@ }),
        decreases v.len() - k,
    {
        let w = v[k].duplicate();
        let focus = w.id == id;
        r.push(Workspace { is_focused: focus, ..w });
        k += 1;
    }
    proof {
        assert(wviews(r@) =~= refocus(wviews(v@), id));
    }
    r
}

impl WorkspaceModel {
    /// The state before the first event: no workspaces, no focus seen.
    pub fn new() -> (m: WorkspaceModel)
        ensures
            m@.workspaces == Seq::<WsView>::empty(),
            m@.focused == 0,
    {
        let m = WorkspaceModel { workspaces: Vec::new(), focused: 0 };
        proof {
            assert(wviews(m.workspaces@) =~= Seq::<WsView>::empty());
        }
        m
    }

    /// Applies one outward update, as the consumer-side model does: a
    /// `WorkspaceChanged` replaces the list (sorted by index); a
    /// `FocusChanged` records the id and moves the focus flag to it.
    pub fn apply_update(&mut self, u: WorkspaceUpdate)
        ensures
            final(self)@ == apply_update_spec(old(self)@, u@),
    {
        match u {
            WorkspaceUpdate::WorkspaceChanged(l) => {
                self.workspaces = sort_workspaces(l);
            },
            WorkspaceUpdate::FocusChanged(id) => {
                let nw = refocus_list(&self.workspaces, id);
                self.workspaces = nw;
                self.focused = id;
            },
        }
    }

    /// The reconciler: applies one decoded event to the snapshot and returns
    /// the outward update it produces, if any.
    pub fn apply_event(&mut self, e: Event) -> (u: Option<WorkspaceUpdate>)
        ensures
            final(self)@.workspaces == apply_event_snapshot(old(self)@.workspaces, e@),
            final(self)@.focused == (match e@ {
                EventView::WorkspaceActivated { id, focused: true } => id,
                _ => old(self)@.focused,
            }),
            (match (event_update(e@), u) {
                (Some(uv), Some(x)) => x@ == uv,
                (None, None) => true,
                _ => false,
            }),
    {
        match e {
            Event::WorkspacesChanged { workspaces } => {
                let sorted = sort_workspaces(workspaces);
                self.workspaces = duplicate_list(&sorted);
                Some(WorkspaceUpdate::WorkspaceChanged(sorted))
            },
            Event::WorkspaceActivated { id, focused } => {
                if focused {
                    let nw = refocus_list(&self.workspaces, id);
                    self.workspaces = nw;
                    self.focused = id;
                    Some(WorkspaceUpdate::FocusChanged(id))
                } else {
                    None
                }
            },
            Event::Other => None,
        }
    }
}

/// How many workspaces hold the focus.
pub open spec fn focused_count(s: Seq<WsView>) -> nat
    decreases s.len(),
{
    if s.len() == 0 {
        0
    } else {
        (if s[0].is_focused {
            1nat
        } else {
            0nat
        }) + focused_count(s.drop_first())
    }
}

proof fn lemma_focused_count_push(s: Seq<WsView>, x: WsView)
    ensures
        focused_count(s.push(x)) == focused_count(s) + (if x.is_focused {
            1nat
        } else {
            0nat
        }),
    decreases s.len(),
{
    if s.len() == 0 {
        reveal_with_fuel(focused_count, 3);
        assert(s.push(x)[0] == x);
        assert(s.push(x).drop_first() =~= Seq::<WsView>::empty());
        assert(focused_count(s) == 0);
        assert(focused_count(s.push(x).drop_first()) == 0);
    } else {
        assert(s.push(x)[0] == s[0]);
        assert(s.push(x).drop_first() =~= s.drop_first().push(x));
        lemma_focused_count_push(s.drop_first(), x);
    }
}

proof fn lemma_focused_count_none(s: Seq<WsView>)
    ensures
        focused_count(s) == 0 <==> (forall|i: int| 0 <= i < s.len() ==> !s[i].is_focused),
    decreases s.len(),
{
    if s.len() > 0 {
        lemma_focused_count_none(s.drop_first());
        if focused_count(s) == 0 {
            assert forall|i: int| 0 <= i < s.len() implies !s[i].is_focused by {
                if i > 0 {
                    assert(s.drop_first()[i - 1] == s[i]);
                }
            }
        } else {
            if !s[0].is_focused {
                let i = choose|i: int| 0 <= i < s.drop_first().len() && s.drop_first()[i].is_focused;
                assert(s[i + 1].is_focused);
            }
        }
    }
}

proof fn lemma_focused_count_at_most_one(s: Seq<WsView>)
    ensures
        focused_count(s) <= 1 <==> at_most_one_focused(s),
    decreases s.len(),
{
    if s.len() > 0 {
        let t = s.drop_first();
        lemma_focused_count_at_most_one(t);
        lemma_focused_count_none(t);
        if focused_count(s) <= 1 {
            assert forall|i: int, j: int|
                0 <= i < s.len() && 0 <= j < s.len() && s[i].is_focused && s[j].is_focused implies i
                == j by {
                if i > 0 {
                    assert(t[i - 1] == s[i]);
                }
                if j > 0 {
                    assert(t[j - 1] == s[j]);
                }
            }
        } else {
            if s[0].is_focused {
                assert(focused_count(t) >= 1);
                let i = choose|i: int| 0 <= i < t.len() && t[i].is_focused;
                assert(s[i + 1].is_focused && s[0].is_focused);
                assert(!at_most_one_focused(s));
            } else {
                assert(focused_count(t) > 1);
                assert(!at_most_one_focused(t));
                let (i, j) = choose|i: int, j: int|
                    0 <= i < t.len() && 0 <= j < t.len() && t[i].is_focused && t[j].is_focused && i
                        != j;
                assert(s[i + 1].is_focused && s[j + 1].is_focused);
                assert(!at_most_one_focused(s));
            }
        }
    }
}

proof fn lemma_focused_count_cons(x: WsView, s: Seq<WsView>)
    ensures
        focused_count(seq![x] + s) == focused_count(s) + (if x.is_focused {
            1nat
        } else {
            0nat
        }),
{
    assert((seq![x] + s).drop_first() =~= s);
}

proof fn lemma_insert_sorted_focused_count(x: WsView, s: Seq<WsView>)
    ensures
        focused_count(insert_sorted(x, s)) == focused_count(s) + (if x.is_focused {
            1nat
        } else {
            0nat
        }),
    decreases s.len(),
{
    if s.len() == 0 {
        lemma_focused_count_cons(x, Seq::empty());
        assert(seq![x] + Seq::<WsView>::empty() =~= seq![x]);
    } else if s[0].index <= x.index {
        lemma_insert_sorted_focused_count(x, s.drop_first());
        lemma_focused_count_cons(s[0], insert_sorted(x, s.drop_first()));
        lemma_focused_count_cons(s[0], s.drop_first());
        assert(seq![s[0]] + s.drop_first() =~= s);
    } else {
        lemma_focused_count_cons(x, s);
    }
}

proof fn lemma_sort_focused_count(s: Seq<WsView>)
    ensures
        focused_count(sort_by_index(s)) == focused_count(s),
    decreases s.len(),
{
    if s.len() > 0 {
        lemma_sort_focused_count(s.drop_last());
        lemma_insert_sorted_focused_count(s.last(), sort_by_index(s.drop_last()));
        lemma_focused_count_push(s.drop_last(), s.last());
        assert(s.drop_last().push(s.last()) =~= s);
    }
}

/// Law: a `WorkspacesChanged` event replaces the snapshot with exactly the
/// event's workspaces, sorted ascending by index, whatever the snapshot held
/// before; applying the same event again changes nothing further.
pub proof fn lemma_workspaces_changed_replaces(snap: Seq<WsView>, l: Seq<WsView>)
    ensures
        apply_event_snapshot(snap, EventView::WorkspacesChanged { workspaces: l }) == sort_by_index(
            l,
        ),
        sorted_by_index(sort_by_index(l)),
        sort_by_index(l).to_multiset() == l.to_multiset(),
        apply_event_snapshot(
            apply_event_snapshot(snap, EventView::WorkspacesChanged { workspaces: l }),
            EventView::WorkspacesChanged { workspaces: l },
        ) == apply_event_snapshot(snap, EventView::WorkspacesChanged { workspaces: l }),
{
    lemma_sort_by_index_ensures(l);
}

/// Law: activating an id that is present in a snapshot with unique ids leaves
/// exactly one workspace focused, and that workspace carries the activated id.
pub proof fn lemma_activation_focuses_present(snap: Seq<WsView>, id: u64)
    requires
        unique_ids(snap),
        exists|i: int| 0 <= i < snap.len() && snap[i].id == id,
    ensures
        ({
            let r = apply_event_snapshot(
                snap,
                EventView::WorkspaceActivated { id, focused: true },
            );
            &&& forall|i: int| 0 <= i < r.len() ==> (r[i].is_focused <==> r[i].id == id)
            &&& exists|i: int| 0 <= i < r.len() && r[i].is_focused && r[i].id == id
            &&& at_most_one_focused(r)
        }),
{
    let r = refocus(snap, id);
    let w = choose|i: int| 0 <= i < snap.len() && snap[i].id == id;
    assert(r[w].is_focused && r[w].id == id);
}

/// Law: activating an id that no workspace in the snapshot carries leaves
/// every workspace unfocused.
pub proof fn lemma_activation_absent(snap: Seq<WsView>, id: u64)
    requires
        forall|i: int| 0 <= i < snap.len() ==> snap[i].id != id,
    ensures
        ({
            let r = apply_event_snapshot(
                snap,
                EventView::WorkspaceActivated { id, focused: true },
            );
            forall|i: int| 0 <= i < r.len() ==> !r[i].is_focused
        }),
{
}

/// Law: applying any event preserves the snapshot invariant that at most one
/// workspace holds the focus, as long as a `WorkspacesChanged` event itself
/// carries at most one focused workspace and the snapshot has unique ids.
pub proof fn lemma_event_preserves_focus_invariant(snap: Seq<WsView>, e: EventView)
    requires
        at_most_one_focused(snap),
        unique_ids(snap),
        (match e {
            EventView::WorkspacesChanged { workspaces } => at_most_one_focused(workspaces),
            _ => true,
        }),
    ensures
        at_most_one_focused(apply_event_snapshot(snap, e)),
{
    match e {
        EventView::WorkspacesChanged { workspaces } => {
            lemma_focused_count_at_most_one(workspaces);
            lemma_sort_focused_count(workspaces);
            lemma_focused_count_at_most_one(sort_by_index(workspaces));
        },
        EventView::WorkspaceActivated { id, focused } => {
            if focused {
                let r = refocus(snap, id);
                assert forall|i: int, j: int|
                    0 <= i < r.len() && 0 <= j < r.len() && r[i].is_focused && r[j].is_focused
                        implies i == j by {
                    assert(snap[i].id == id && snap[j].id == id);
                }
            }
        },
        EventView::Other => {},
    }
}

} // verus!

