use vstd::prelude::*;

use crate::text::str_equal;

verus! {

/// What closing a window through its close button does.
#[derive(Clone, Copy, Debug, PartialEq, Eq, Structural)]
pub enum ClosePolicy {
    /// The window and every window it owns close.
    Exit,
    /// The window is hidden, with the windows it owns.
    Hide,
    /// The application's close handler decides.
    Notify,
}

/// What the window host keeps of one open window.
#[derive(Clone, Debug)]
pub struct WindowRecord {
    pub id: String,
    pub owner: Option<String>,
    /// Whether the application wants the window shown.
    pub visible: bool,
    /// Whether a hidden owner keeps the window out of sight.
    pub owner_suppressed: bool,
    pub close_policy: ClosePolicy,
}

/// A window record as the contracts see it.
pub struct RecordView {
    pub id: Seq<char>,
    pub owner: Option<Seq<char>>,
    pub visible: bool,
    pub owner_suppressed: bool,
    pub close_policy: ClosePolicy,
}

pub open spec fn owner_view(owner: Option<String>) -> Option<Seq<char>> {
    match owner {
        Some(o) => Some(o@),
        None => None,
    }
}

pub open spec fn record_view(r: WindowRecord) -> RecordView {
    RecordView {
        id: r.id@,
        owner: owner_view(r.owner),
        visible: r.visible,
        owner_suppressed: r.owner_suppressed,
        close_policy: r.close_policy,
    }
}

/// The open windows of an application, each under its own id.
pub struct WindowRegistry {
    windows: Vec<WindowRecord>,
}

impl View for WindowRegistry {
    type V = Seq<RecordView>;

    closed spec fn view(&self) -> Seq<RecordView> {
        self.windows@.map_values(|r: WindowRecord| record_view(r))
    }
}

/// No two windows share an id.
pub open spec fn ids_distinct(ws: Seq<RecordView>) -> bool {
    forall|i: int, j: int| 0 <= i < j < ws.len() ==> ws[i].id != ws[j].id
}

/// The position of the window `id`, searching from `i`; the length when there is none.
pub open spec fn window_position(ws: Seq<RecordView>, id: Seq<char>, i: int) -> int
    decreases ws.len() - i,
{
    if i >= ws.len() {
        ws.len() as int
    } else if ws[i].id == id {
        i
    } else {
        window_position(ws, id, i + 1)
    }
}

/// The position of the owner of window `i`, when it names an open window.
pub open spec fn owner_position(ws: Seq<RecordView>, i: int) -> Option<int> {
    match ws[i].owner {
        Some(owner) => {
            let p = window_position(ws, owner, 0);
            if p < ws.len() {
                Some(p)
            } else {
                None
            }
        },
        None => None,
    }
}

/// Whether window `i` is owned by `root` through a chain of at most `n` owners.
pub open spec fn owned_within(ws: Seq<RecordView>, root: Seq<char>, i: int, n: int) -> bool
    decreases n,
{
    if n <= 0 {
        false
    } else {
        match ws[i].owner {
            None => false,
            Some(owner) => owner == root || match owner_position(ws, i) {
                Some(p) => owned_within(ws, root, p, n - 1),
                None => false,
            },
        }
    }
}

/// Whether window `i` is owned by `root`, directly or through its owners.
pub open spec fn owned_by(ws: Seq<RecordView>, root: Seq<char>, i: int) -> bool {
    owned_within(ws, root, i, ws.len() as int)
}

/// Whether a window is on screen: wanted visible and not suppressed by a hidden owner.
pub open spec fn shown(r: RecordView) -> bool {
    r.visible && !r.owner_suppressed
}

/// The windows after every window owned by `root` is suppressed (or released).
pub open spec fn owned_suppressed(ws: Seq<RecordView>, root: Seq<char>, suppressed: bool) -> Seq<
    RecordView,
> {
    Seq::new(
        ws.len(),
        |i: int|
            if owned_by(ws, root, i) {
                RecordView { owner_suppressed: suppressed, ..ws[i] }
            } else {
                ws[i]
            },
    )
}

/// The windows after window `id` is shown or hidden: the windows it owns follow.
pub open spec fn visibility_set(ws: Seq<RecordView>, id: Seq<char>, visible: bool) -> Seq<
    RecordView,
> {
    let p = window_position(ws, id, 0);
    let updated = if p < ws.len() {
        ws.update(p, RecordView { visible, ..ws[p] })
    } else {
        ws
    };
    owned_suppressed(updated, id, !visible)
}

/// Whether window `i` goes when window `id` closes: it is that window or one it owns.
pub open spec fn closes_with(ws: Seq<RecordView>, id: Seq<char>, i: int) -> bool {
    ws[i].id == id || owned_by(ws, id, i)
}

/// The windows of `ws` for which `drop` is false, in order.
pub open spec fn kept(ws: Seq<RecordView>, drop: Seq<bool>) -> Seq<RecordView>
    decreases ws.len(),
{
    if ws.len() == 0 {
        Seq::empty()
    } else {
        let rest = kept(ws.drop_last(), drop);
        if drop[ws.len() - 1] {
            rest
        } else {
            rest.push(ws.last())
        }
    }
}

/// The windows after window `id` closes with every window it owns; nothing closes when
/// no window has that id.
pub open spec fn removed(ws: Seq<RecordView>, id: Seq<char>) -> Seq<RecordView> {
    if window_position(ws, id, 0) < ws.len() {
        kept(ws, Seq::new(ws.len(), |i: int| closes_with(ws, id, i)))
    } else {
        ws
    }
}

/// The ids of the windows `mask` marks, in order.
pub open spec fn ids_where(ws: Seq<RecordView>, mask: Seq<bool>) -> Seq<Seq<char>>
    decreases ws.len(),
{
    if ws.len() == 0 {
        Seq::empty()
    } else {
        let rest = ids_where(ws.drop_last(), mask);
        if mask[ws.len() - 1] {
            rest.push(ws.last().id)
        } else {
            rest
        }
    }
}

/// The ids of the windows owned by `root`, in order.
pub open spec fn owned_ids(ws: Seq<RecordView>, root: Seq<char>) -> Seq<Seq<char>> {
    ids_where(ws, Seq::new(ws.len(), |i: int| owned_by(ws, root, i)))
}

pub open spec fn string_views(s: Seq<String>) -> Seq<Seq<char>> {
    s.map_values(|x: String| x@)
}

proof fn lemma_position(ws: Seq<RecordView>, id: Seq<char>, i: int)
    requires
        0 <= i <= ws.len(),
    ensures
        i <= window_position(ws, id, i) <= ws.len(),
        window_position(ws, id, i) < ws.len() ==> ws[window_position(ws, id, i)].id == id,
        forall|j: int| i <= j < window_position(ws, id, i) ==> ws[j].id != id,
    decreases ws.len() - i,
{
    if i < ws.len() && ws[i].id != id {
        lemma_position(ws, id, i + 1);
    }
}

proof fn lemma_kept_len(ws: Seq<RecordView>, drop: Seq<bool>)
    ensures
        kept(ws, drop).len() <= ws.len(),
    decreases ws.len(),
{
    if ws.len() > 0 {
        lemma_kept_len(ws.drop_last(), drop);
    }
}

impl WindowRegistry {
    #[verifier::type_invariant]
    closed spec fn ids_unique(self) -> bool {
        ids_distinct(self@)
    }

    /// A registry with no windows.
    pub fn new() -> (r: WindowRegistry)
        ensures
            r@ == Seq::<RecordView>::empty(),
    {
        let r = WindowRegistry { windows: Vec::new() };
        assert(r@ =~= Seq::<RecordView>::empty());
        r
    }

    /// The number of open windows.
    pub fn len(&self) -> (r: usize)
        ensures
            r == self@.len(),
    {
        self.windows.len()
    }

    /// The record of window `id`, if it is open.
    pub fn get(&self, id: &str) -> (r: Option<&WindowRecord>)
        ensures
            r is None <==> window_position(self@, id@, 0) == self@.len(),
            r is Some ==> record_view(*r.unwrap()) == self@[window_position(self@, id@, 0)],
    {
        let p = self.find(id);
        proof {
            lemma_position(self@, id@, 0);
        }
        if p < self.windows.len() {
            let record = &self.windows[p];
            assert(self@[p as int] == record_view(self.windows@[p as int]));
            Some(record)
        } else {
            None
        }
    }

    fn find(&self, id: &str) -> (r: usize)
        ensures
            r == window_position(self@, id@, 0),
    {
        let ghost all = self@;
        proof {
            lemma_position(all, id@, 0);
        }
        let mut i: usize = 0;
        while i < self.windows.len()
            invariant
                i <= self.windows@.len(),
                all == self@,
                window_position(all, id@, 0) == window_position(all, id@, i as int),
            decreases self.windows@.len() - i,
        {
            if str_equal(self.windows[i].id.as_str(), id) {
                return i;
            }
            i = i + 1;
        }
        i
    }

    fn owner_index(&self, i: usize) -> (r: Option<usize>)
        requires
            i < self@.len(),
        ensures
            match r {
                Some(p) => owner_position(self@, i as int) == Some(p as int),
                None => owner_position(self@, i as int) is None,
            },
    {
        match &self.windows[i].owner {
            Some(owner) => {
                let p = self.find(owner.as_str());
                if p < self.windows.len() {
                    Some(p)
                } else {
                    None
                }
            },
            None => None,
        }
    }

    /// Whether window `i` is owned by `root`, following its owners at most as many steps
    /// as there are windows.
    fn is_owned_by(&self, root: &str, i: usize) -> (r: bool)
        requires
            i < self@.len(),
        ensures
            r == owned_by(self@, root@, i as int),
    {
        proof {
            use_type_invariant(self);
        }
        let ghost all = self@;
        let mut current = i;
        let mut fuel = self.windows.len();
        while fuel > 0
            invariant
                all == self@,
                current < self@.len(),
                fuel <= self@.len(),
                owned_by(all, root@, i as int) == owned_within(all, root@, current as int, fuel as int),
            decreases fuel,
        {
            match &self.windows[current].owner {
                None => {
                    return false;
                },
                Some(owner) => {
                    if str_equal(owner.as_str(), root) {
                        return true;
                    }
                    match self.owner_index(current) {
                        Some(p) => {
                            current = p;
                            fuel = fuel - 1;
                        },
                        None => {
                            return false;
                        },
                    }
                },
            }
        }
        false
    }

    /// Which windows are owned by `root`.
    fn owned_mask(&self, root: &str) -> (r: Vec<bool>)
        ensures
            r@.len() == self@.len(),
            forall|i: int| 0 <= i < self@.len() ==> #[trigger] r@[i] == owned_by(self@, root@, i),
    {
        let mut mask: Vec<bool> = Vec::new();
        let mut i: usize = 0;
        while i < self.windows.len()
            invariant
                i <= self@.len(),
                mask@.len() == i,
                forall|j: int| 0 <= j < i ==> #[trigger] mask@[j] == owned_by(self@, root@, j),
            decreases self@.len() - i,
        {
            let owned = self.is_owned_by(root, i);
            mask.push(owned);
            i = i + 1;
        }
        mask
    }

    /// Suppresses (or releases) every window owned by `root`, directly or through its
    /// owners; returns the ids of those windows, in order.
    pub fn suppress_owned_windows(&mut self, root: &str, suppressed: bool) -> (affected: Vec<String>)
        ensures
            final(self)@ == owned_suppressed(old(self)@, root@, suppressed),
            string_views(affected@) == owned_ids(old(self)@, root@),
    {
        proof {
            use_type_invariant(&*self);
        }
        let ghost start = self@;
        let ghost marks = Seq::new(start.len(), |i: int| owned_by(start, root@, i));
        let mask = self.owned_mask(root);
        let mut affected: Vec<String> = Vec::new();
        let mut windows = Vec::new();
        std::mem::swap(&mut windows, &mut self.windows);
        let ghost initial = windows@;
        proof {
            assert(initial.map_values(|r: WindowRecord| record_view(r)) == start);
        }
        let mut i: usize = 0;
        while i < windows.len()
            invariant
                i <= windows@.len(),
                windows@.len() == initial.len(),
                start == initial.map_values(|r: WindowRecord| record_view(r)),
                ids_distinct(start),
                marks == Seq::new(start.len(), |i: int| owned_by(start, root@, i)),
                mask@.len() == start.len(),
                forall|j: int| 0 <= j < start.len() ==> #[trigger] mask@[j] == owned_by(start, root@, j),
                forall|j: int|
                    0 <= j < windows@.len() ==> #[trigger] record_view(windows@[j]) == if j < i {
                        owned_suppressed(start, root@, suppressed)[j]
                    } else {
                        start[j]
                    },
                string_views(affected@) == ids_where(start.take(i as int), marks),
            decreases windows@.len() - i,
        {
            let ghost before = affected@;
            let ghost old_record = windows@[i as int];
            assert(record_view(old_record) == start[i as int]);
            assert(start.take(i + 1).drop_last() =~= start.take(i as int));
            if mask[i] {
                windows[i].owner_suppressed = suppressed;
                let id = windows[i].id.clone();
                proof {
                    assert(windows@[i as int].id == old_record.id);
                    assert(id@ == start[i as int].id);
                }
                affected.push(id);
                proof {
                    assert(string_views(affected@) =~= string_views(before).push(id@));
                }
            }
            proof {
                assert(record_view(windows@[i as int]) == owned_suppressed(start, root@, suppressed)[i as int]);
            }
            i = i + 1;
        }
        proof {
            assert(start.take(i as int) =~= start);
            let now = windows@.map_values(|r: WindowRecord| record_view(r));
            assert(now =~= owned_suppressed(start, root@, suppressed));
            assert forall|a: int, b: int| 0 <= a < b < now.len() implies now[a].id != now[b].id by {
                assert(now[a] == owned_suppressed(start, root@, suppressed)[a]);
                assert(now[b] == owned_suppressed(start, root@, suppressed)[b]);
            }
        }
        self.windows = windows;
        affected
    }
}


/// What a close request did.
#[derive(Debug)]
pub enum CloseOutcome {
    /// No window has the id.
    Missing,
    /// The window closed with the windows it owns; their ids, in order.
    Closed(Vec<String>),
    /// The window was hidden; the ids of the windows it owns, now suppressed.
    Hidden(Vec<String>),
    /// The application's close handler decides.
    Notify,
}

/// Whether two window lists have the same ids and owners.
pub open spec fn same_links(a: Seq<RecordView>, b: Seq<RecordView>) -> bool {
    a.len() == b.len() && forall|i: int| 0 <= i < a.len() ==> #[trigger] a[i].id == b[i].id && a[i].owner == b[i].owner
}

proof fn lemma_same_position(a: Seq<RecordView>, b: Seq<RecordView>, id: Seq<char>, i: int)
    requires
        same_links(a, b),
        0 <= i <= a.len(),
    ensures
        window_position(a, id, i) == window_position(b, id, i),
    decreases a.len() - i,
{
    if i < a.len() {
        assert(a[i].id == b[i].id);
        lemma_same_position(a, b, id, i + 1);
    }
}

proof fn lemma_same_ownership(a: Seq<RecordView>, b: Seq<RecordView>, root: Seq<char>, i: int, n: int)
    requires
        same_links(a, b),
        0 <= i < a.len(),
    ensures
        owned_within(a, root, i, n) == owned_within(b, root, i, n),
    decreases n,
{
    if n > 0 {
        assert(a[i].id == b[i].id && a[i].owner == b[i].owner);
        match a[i].owner {
            Some(owner) => {
                lemma_same_position(a, b, owner, 0);
                lemma_position(a, owner, 0);
                let p = window_position(a, owner, 0);
                if p < a.len() {
                    lemma_same_ownership(a, b, root, p, n - 1);
                }
            },
            None => {},
        }
    }
}

proof fn lemma_same_ids_where(a: Seq<RecordView>, b: Seq<RecordView>, ma: Seq<bool>, mb: Seq<bool>)
    requires
        same_links(a, b),
        ma.len() >= a.len(),
        mb.len() >= b.len(),
        forall|i: int| 0 <= i < a.len() ==> ma[i] == mb[i],
    ensures
        ids_where(a, ma) == ids_where(b, mb),
    decreases a.len(),
{
    if a.len() > 0 {
        assert(a[a.len() - 1].id == b[b.len() - 1].id);
        let da = a.drop_last();
        let db = b.drop_last();
        assert forall|i: int| 0 <= i < da.len() implies #[trigger] da[i].id == db[i].id && da[i].owner
            == db[i].owner by {
            assert(da[i] == a[i]);
            assert(db[i] == b[i]);
            assert(a[i].id == b[i].id);
        }
        assert(same_links(da, db));
        lemma_same_ids_where(a.drop_last(), b.drop_last(), ma, mb);
    }
}

/// The windows owned by `root` depend only on the windows' ids and owners.
proof fn lemma_same_owned_ids(a: Seq<RecordView>, b: Seq<RecordView>, root: Seq<char>)
    requires
        same_links(a, b),
    ensures
        owned_ids(a, root) == owned_ids(b, root),
{
    let ma = Seq::new(a.len(), |i: int| owned_by(a, root, i));
    let mb = Seq::new(b.len(), |i: int| owned_by(b, root, i));
    assert forall|i: int| 0 <= i < a.len() implies ma[i] == mb[i] by {
        lemma_same_ownership(a, b, root, i, a.len() as int);
    }
    lemma_same_ids_where(a, b, ma, mb);
}

proof fn lemma_kept_members(ws: Seq<RecordView>, drop: Seq<bool>)
    requires
        drop.len() == ws.len(),
    ensures
        forall|k: int| 0 <= k < kept(ws, drop).len() ==> exists|j: int|
            0 <= j < ws.len() && !drop[j] && #[trigger] kept(ws, drop)[k] == ws[j],
    decreases ws.len(),
{
    if ws.len() > 0 {
        let rest = ws.drop_last();
        lemma_kept_members(rest, drop.drop_last());
        assert forall|k: int| 0 <= k < kept(rest, drop).len() implies exists|j: int|
            0 <= j < rest.len() && !drop[j] && #[trigger] kept(rest, drop)[k] == rest[j] by {
            lemma_kept_prefix_mask(rest, drop, drop.drop_last());
            assert(kept(rest, drop) == kept(rest, drop.drop_last()));
            let j = choose|j: int|
                0 <= j < rest.len() && !drop.drop_last()[j] && #[trigger] kept(rest, drop.drop_last())[k] == rest[j];
            assert(!drop[j]);
        }
        lemma_kept_len(rest, drop);
    }
}

proof fn lemma_kept_prefix_mask(ws: Seq<RecordView>, drop: Seq<bool>, shorter: Seq<bool>)
    requires
        shorter.len() >= ws.len(),
        drop.len() >= ws.len(),
        forall|i: int| 0 <= i < ws.len() ==> drop[i] == shorter[i],
    ensures
        kept(ws, drop) == kept(ws, shorter),
    decreases ws.len(),
{
    if ws.len() > 0 {
        lemma_kept_prefix_mask(ws.drop_last(), drop, shorter);
    }
}

proof fn lemma_kept_ids_distinct(ws: Seq<RecordView>, drop: Seq<bool>)
    requires
        ids_distinct(ws),
        drop.len() == ws.len(),
    ensures
        ids_distinct(kept(ws, drop)),
    decreases ws.len(),
{
    if ws.len() > 0 {
        let rest = ws.drop_last();
        assert(ids_distinct(rest));
        lemma_kept_ids_distinct(rest, drop.drop_last());
        lemma_kept_prefix_mask(rest, drop, drop.drop_last());
        if !drop[ws.len() - 1] {
            let k = kept(rest, drop);
            lemma_kept_members(rest, drop.drop_last());
            assert forall|a: int, b: int| 0 <= a < b < k.push(ws.last()).len() implies k.push(
                ws.last(),
            )[a].id != k.push(ws.last())[b].id by {
                if b == k.len() {
                    let j = choose|j: int|
                        0 <= j < rest.len() && !drop.drop_last()[j] && #[trigger] kept(rest, drop.drop_last())[a]
                            == rest[j];
                    assert(ws[j] == rest[j]);
                }
            }
        }
    }
}

impl WindowRegistry {
    /// Registers a newly created window.
    pub fn register(&mut self, record: WindowRecord)
        requires
            window_position(old(self)@, record.id@, 0) == old(self)@.len(),
        ensures
            final(self)@ == old(self)@.push(record_view(record)),
    {
        proof {
            use_type_invariant(&*self);
            lemma_position(self@, record.id@, 0);
        }
        let ghost before = self@;
        let mut windows = Vec::new();
        std::mem::swap(&mut windows, &mut self.windows);
        windows.push(record);
        proof {
            let now = windows@.map_values(|r: WindowRecord| record_view(r));
            assert(now =~= before.push(record_view(record)));
            assert forall|a: int, b: int| 0 <= a < b < now.len() implies now[a].id != now[b].id by {
                if b == before.len() {
                    assert(now[a] == before[a]);
                }
            }
        }
        self.windows = windows;
    }

    /// Shows or hides window `id`; the windows it owns follow, directly or through their
    /// owners. Returns the ids of those owned windows.
    pub fn set_window_visibility(&mut self, id: &str, visible: bool) -> (affected: Vec<String>)
        ensures
            final(self)@ == visibility_set(old(self)@, id@, visible),
            string_views(affected@) == owned_ids(old(self)@, id@),
    {
        proof {
            use_type_invariant(&*self);
            lemma_position(self@, id@, 0);
        }
        let ghost start = self@;
        let p = self.find(id);
        if p < self.windows.len() {
            let mut windows = Vec::new();
            std::mem::swap(&mut windows, &mut self.windows);
            let ghost old_record = windows@[p as int];
            assert(record_view(old_record) == start[p as int]);
            windows[p].visible = visible;
            proof {
                let now = windows@.map_values(|r: WindowRecord| record_view(r));
                assert(now =~= start.update(p as int, RecordView { visible, ..start[p as int] }));
                assert forall|a: int, b: int| 0 <= a < b < now.len() implies now[a].id != now[b].id by {
                    assert(now[a].id == start[a].id);
                    assert(now[b].id == start[b].id);
                }
            }
            self.windows = windows;
        }
        proof {
            assert(same_links(start, self@)) by {
                assert forall|i: int| 0 <= i < start.len() implies #[trigger] start[i].id == self@[i].id
                    && start[i].owner == self@[i].owner by {
                    if p < start.len() && i == p {
                    } else {
                    }
                }
            }
            lemma_same_owned_ids(start, self@, id@);
        }
        self.suppress_owned_windows(id, !visible)
    }

    /// Shows window `id` if it is open, as opening a window that is already open does;
    /// `false` when no window has the id and a new one must be created.
    pub fn show_existing(&mut self, id: &str) -> (shown: bool)
        ensures
            shown == (window_position(old(self)@, id@, 0) < old(self)@.len()),
            shown ==> final(self)@ == visibility_set(old(self)@, id@, true),
            !shown ==> final(self)@ == old(self)@,
    {
        let p = self.find(id);
        if p < self.windows.len() {
            let _ = self.set_window_visibility(id, true);
            true
        } else {
            false
        }
    }

    /// Closes window `id` with every window it owns; returns their ids, in order. Nothing
    /// closes when no window has the id.
    pub fn remove_window(&mut self, id: &str) -> (closed: Vec<String>)
        ensures
            final(self)@ == removed(old(self)@, id@),
            window_position(old(self)@, id@, 0) < old(self)@.len() ==> string_views(closed@) == ids_where(
                old(self)@,
                Seq::new(old(self)@.len(), |i: int| closes_with(old(self)@, id@, i)),
            ),
            window_position(old(self)@, id@, 0) == old(self)@.len() ==> closed@.len() == 0,
    {
        proof {
            use_type_invariant(&*self);
            lemma_position(self@, id@, 0);
        }
        let ghost start = self@;
        let ghost drop = Seq::new(start.len(), |i: int| closes_with(start, id@, i));
        let p = self.find(id);
        if p >= self.windows.len() {
            return Vec::new();
        }
        let mut mask: Vec<bool> = Vec::new();
        let mut i: usize = 0;
        while i < self.windows.len()
            invariant
                i <= self@.len(),
                self@ == start,
                mask@.len() == i,
                forall|j: int| 0 <= j < i ==> #[trigger] mask@[j] == drop[j],
                drop == Seq::new(start.len(), |i: int| closes_with(start, id@, i)),
            decreases self@.len() - i,
        {
            let is_target = str_equal(self.windows[i].id.as_str(), id);
            assert(self@[i as int] == record_view(self.windows@[i as int]));
            let closes = is_target || self.is_owned_by(id, i);
            mask.push(closes);
            i = i + 1;
        }
        let mut windows = Vec::new();
        std::mem::swap(&mut windows, &mut self.windows);
        let ghost initial = windows@;
        let mut kept_windows: Vec<WindowRecord> = Vec::new();
        let mut closed: Vec<String> = Vec::new();
        let n = windows.len();
        let mut i: usize = 0;
        while i < n
            invariant
                i <= n,
                n == initial.len(),
                windows@ == initial.skip(i as int),
                start == initial.map_values(|r: WindowRecord| record_view(r)),
                mask@.len() == initial.len(),
                forall|j: int| 0 <= j < initial.len() ==> #[trigger] mask@[j] == drop[j],
                drop.len() == start.len(),
                kept_windows@.map_values(|r: WindowRecord| record_view(r)) == kept(start.take(i as int), drop),
                string_views(closed@) == ids_where(start.take(i as int), drop),
            decreases n - i,
        {
            assert(start.take(i + 1).drop_last() =~= start.take(i as int));
            assert(start[i as int] == record_view(initial[i as int]));
            let ghost kept_before = kept_windows@;
            let ghost closed_before = closed@;
            let record = windows.remove(0);
            assert(record == initial[i as int]);
            assert(windows@ =~= initial.skip(i + 1));
            if mask[i] {
                closed.push(record.id);
                assert(string_views(closed@) =~= string_views(closed_before).push(start[i as int].id));
            } else {
                kept_windows.push(record);
                assert(kept_windows@.map_values(|r: WindowRecord| record_view(r)) =~= kept_before.map_values(
                    |r: WindowRecord| record_view(r),
                ).push(start[i as int]));
            }
            i = i + 1;
        }
        proof {
            assert(start.take(i as int) =~= start);
            lemma_kept_ids_distinct(start, drop);
        }
        self.windows = kept_windows;
        closed
    }
}


impl WindowRegistry {
    /// Answers a close request for window `id` by its close policy: `Exit` closes it with
    /// the windows it owns, `Hide` hides it with them, `Notify` leaves it to the
    /// application.
    pub fn request_close(&mut self, id: &str) -> (outcome: CloseOutcome)
        ensures
            ({
                let p = window_position(old(self)@, id@, 0);
                match outcome {
                    CloseOutcome::Missing => p == old(self)@.len() && final(self)@ == old(self)@,
                    CloseOutcome::Closed(ids) => {
                        &&& p < old(self)@.len()
                        &&& old(self)@[p].close_policy == ClosePolicy::Exit
                        &&& final(self)@ == removed(old(self)@, id@)
                        &&& string_views(ids@) == ids_where(
                            old(self)@,
                            Seq::new(old(self)@.len(), |i: int| closes_with(old(self)@, id@, i)),
                        )
                    },
                    CloseOutcome::Hidden(ids) => {
                        &&& p < old(self)@.len()
                        &&& old(self)@[p].close_policy == ClosePolicy::Hide
                        &&& final(self)@ == visibility_set(old(self)@, id@, false)
                        &&& string_views(ids@) == owned_ids(old(self)@, id@)
                    },
                    CloseOutcome::Notify => {
                        &&& p < old(self)@.len()
                        &&& old(self)@[p].close_policy == ClosePolicy::Notify
                        &&& final(self)@ == old(self)@
                    },
                }
            }),
    {
        proof {
            lemma_position(self@, id@, 0);
        }
        let p = self.find(id);
        if p >= self.windows.len() {
            return CloseOutcome::Missing;
        }
        assert(self@[p as int] == record_view(self.windows@[p as int]));
        match self.windows[p].close_policy {
            ClosePolicy::Exit => CloseOutcome::Closed(self.remove_window(id)),
            ClosePolicy::Hide => CloseOutcome::Hidden(self.set_window_visibility(id, false)),
            ClosePolicy::Notify => CloseOutcome::Notify,
        }
    }
}

/// Hiding a window takes it and every window it owns, directly or through their owners,
/// off the screen.
pub proof fn law_hidden_owner_hides_its_windows(ws: Seq<RecordView>, id: Seq<char>)
    ensures
        ({
            let after = visibility_set(ws, id, false);
            &&& after.len() == ws.len()
            &&& forall|i: int| 0 <= i < ws.len() && #[trigger] owned_by(ws, id, i) ==> !shown(after[i])
            &&& window_position(ws, id, 0) < ws.len() ==> !shown(after[window_position(ws, id, 0)])
        }),
{
    lemma_position(ws, id, 0);
    let p = window_position(ws, id, 0);
    let updated = if p < ws.len() {
        ws.update(p, RecordView { visible: false, ..ws[p] })
    } else {
        ws
    };
    assert(same_links(updated, ws));
    assert forall|i: int| 0 <= i < ws.len() && #[trigger] owned_by(ws, id, i) implies !shown(
        visibility_set(ws, id, false)[i],
    ) by {
        lemma_same_ownership(updated, ws, id, i, ws.len() as int);
    }
}

/// Showing a window releases every window it owns, directly or through their owners:
/// each is on screen exactly when it is itself wanted visible.
pub proof fn law_shown_owner_releases_its_windows(ws: Seq<RecordView>, id: Seq<char>)
    ensures
        ({
            let after = visibility_set(ws, id, true);
            &&& after.len() == ws.len()
            &&& forall|i: int|
                0 <= i < ws.len() && #[trigger] owned_by(ws, id, i) ==> shown(after[i]) == after[i].visible
            &&& window_position(ws, id, 0) < ws.len() ==> after[window_position(ws, id, 0)].visible
        }),
{
    lemma_position(ws, id, 0);
    let p = window_position(ws, id, 0);
    let updated = if p < ws.len() {
        ws.update(p, RecordView { visible: true, ..ws[p] })
    } else {
        ws
    };
    assert(same_links(updated, ws));
    assert forall|i: int|
        0 <= i < ws.len() && #[trigger] owned_by(ws, id, i) implies shown(visibility_set(ws, id, true)[i])
            == visibility_set(ws, id, true)[i].visible by {
        lemma_same_ownership(updated, ws, id, i, ws.len() as int);
    }
}

/// Closing a window leaves no window that it owned, and none that names it as owner.
pub proof fn law_closing_takes_owned_windows(ws: Seq<RecordView>, id: Seq<char>)
    requires
        window_position(ws, id, 0) < ws.len(),
    ensures
        ({
            let after = removed(ws, id);
            forall|k: int|
                0 <= k < after.len() ==> (#[trigger] after[k]).id != id && after[k].owner != Some(id)
                    && exists|j: int| 0 <= j < ws.len() && !closes_with(ws, id, j) && after[k] == ws[j]
        }),
{
    let drop = Seq::new(ws.len(), |i: int| closes_with(ws, id, i));
    lemma_kept_members(ws, drop);
    let after = removed(ws, id);
    assert forall|k: int| 0 <= k < after.len() implies (#[trigger] after[k]).id != id && after[k].owner
        != Some(id) && exists|j: int| 0 <= j < ws.len() && !closes_with(ws, id, j) && after[k] == ws[j] by {
        let j = choose|j: int| 0 <= j < ws.len() && !drop[j] && #[trigger] kept(ws, drop)[k] == ws[j];
        assert(!closes_with(ws, id, j));
        if ws[j].owner == Some(id) {
            assert(owned_within(ws, id, j, ws.len() as int));
        }
    }
}

/// The window one owner step up from position `c`; -1 when there is none.
spec fn owner_step(ws: Seq<RecordView>, c: int) -> int {
    if 0 <= c < ws.len() {
        match owner_position(ws, c) {
            Some(p) => p,
            None => -1,
        }
    } else {
        -1
    }
}

/// The window `t` owner steps up from position `x`; -1 once the chain has left the list.
spec fn chain_at(ws: Seq<RecordView>, x: int, t: nat) -> int
    decreases t,
{
    if t == 0 {
        x
    } else {
        owner_step(ws, chain_at(ws, x, (t - 1) as nat))
    }
}

/// Whether position `c` is a window whose owner is `root`.
spec fn ends_at(ws: Seq<RecordView>, root: Seq<char>, c: int) -> bool {
    0 <= c < ws.len() && ws[c].owner == Some(root)
}

proof fn lemma_chain_compose(ws: Seq<RecordView>, x: int, s: nat, k: nat)
    ensures
        chain_at(ws, x, s + k) == chain_at(ws, chain_at(ws, x, s), k),
    decreases k,
{
    if k > 0 {
        lemma_chain_compose(ws, x, s, (k - 1) as nat);
        assert((s + k - 1) as nat == s + (k - 1) as nat);
    }
}

proof fn lemma_chain_leaves(ws: Seq<RecordView>, c: int, t: nat)
    requires
        !(0 <= c < ws.len()),
    ensures
        !(0 <= chain_at(ws, c, t) < ws.len()),
    decreases t,
{
    if t > 0 {
        lemma_chain_leaves(ws, c, (t - 1) as nat);
    }
}

proof fn lemma_owned_has_chain(ws: Seq<RecordView>, root: Seq<char>, x: int, n: int)
    requires
        0 <= x < ws.len(),
        owned_within(ws, root, x, n),
    ensures
        exists|t: nat| t < n && #[trigger] ends_at(ws, root, chain_at(ws, x, t)),
    decreases n,
{
    if ws[x].owner == Some(root) {
        assert(ends_at(ws, root, chain_at(ws, x, 0)));
    } else {
        let p = owner_position(ws, x)->0;
        lemma_position(ws, ws[x].owner->0, 0);
        lemma_owned_has_chain(ws, root, p, n - 1);
        let t = choose|t: nat| t < n - 1 && #[trigger] ends_at(ws, root, chain_at(ws, p, t));
        lemma_chain_compose(ws, x, 1, t);
        assert(chain_at(ws, x, 0) == x);
        assert(chain_at(ws, x, 1) == p);
        assert(ends_at(ws, root, chain_at(ws, x, 1 + t)));
    }
}

proof fn lemma_chain_owned(ws: Seq<RecordView>, root: Seq<char>, x: int, t: nat, n: int)
    requires
        0 <= x < ws.len(),
        t < n,
        ends_at(ws, root, chain_at(ws, x, t)),
    ensures
        owned_within(ws, root, x, n),
    decreases t,
{
    if t > 0 && ws[x].owner != Some(root) {
        let q = owner_step(ws, x);
        lemma_chain_compose(ws, x, 1, (t - 1) as nat);
        assert(chain_at(ws, x, 0) == x);
        assert(chain_at(ws, x, 1) == q);
        assert(1 + (t - 1) as nat == t);
        if !(0 <= q < ws.len()) {
            lemma_chain_leaves(ws, q, (t - 1) as nat);
        }
        lemma_chain_owned(ws, root, q, (t - 1) as nat, n - 1);
    }
}

/// A chain of owners that reaches `root` reaches it within as many steps as there are
/// windows.
proof fn lemma_chain_shortens(ws: Seq<RecordView>, root: Seq<char>, x: int, t: nat)
    requires
        0 <= x < ws.len(),
        ends_at(ws, root, chain_at(ws, x, t)),
    ensures
        exists|u: nat| u < ws.len() && #[trigger] ends_at(ws, root, chain_at(ws, x, u)),
    decreases t,
{
    if t >= ws.len() {
        let c = Seq::new((t + 1) as nat, |k: int| chain_at(ws, x, k as nat));
        assert forall|k: int| 0 <= k < c.len() implies 0 <= #[trigger] c[k] < ws.len() by {
            if !(0 <= c[k] < ws.len()) {
                lemma_chain_compose(ws, x, k as nat, (t - k) as nat);
                assert(k as nat + (t - k) as nat == t);
                lemma_chain_leaves(ws, c[k], (t - k) as nat);
            }
        }
        if c.no_duplicates() {
            c.unique_seq_to_set();
            vstd::set_lib::lemma_int_range(0, ws.len() as int);
            assert(c.to_set().subset_of(vstd::set_lib::set_int_range(0, ws.len() as int))) by {
                assert forall|v: int| c.to_set().contains(v) implies vstd::set_lib::set_int_range(
                    0,
                    ws.len() as int,
                ).contains(v) by {
                    assert(c.contains(v));
                    let k = choose|k: int| 0 <= k < c.len() && c[k] == v;
                    assert(0 <= c[k] < ws.len());
                }
            }
            vstd::set_lib::lemma_len_subset(c.to_set(), vstd::set_lib::set_int_range(0, ws.len() as int));
            assert(false);
        }
        let (a, b) = choose|a: int, b: int| 0 <= a < c.len() && 0 <= b < c.len() && a != b && c[a] == c[b];
        let (a, b) = if a < b {
            (a, b)
        } else {
            (b, a)
        };
        let d = (b - a) as nat;
        lemma_chain_compose(ws, x, b as nat, (t - b) as nat);
        lemma_chain_compose(ws, x, a as nat, (t - b) as nat);
        assert(b as nat + (t - b) as nat == t);
        let u = (a + (t - b)) as nat;
        assert(a as nat + (t - b) as nat == u);
        assert(chain_at(ws, x, u) == chain_at(ws, x, t));
        lemma_chain_shortens(ws, root, x, u);
    } else {
        assert(ends_at(ws, root, chain_at(ws, x, t)));
    }
}

/// Closing a window leaves no window owned by it: every window that stays open and whose
/// owner was an open window still has that owner open, so a chain of owners never leads
/// from a remaining window to a closed one.
pub proof fn law_closing_leaves_no_orphans(ws: Seq<RecordView>, id: Seq<char>)
    ensures
        forall|k: int|
            0 <= k < removed(ws, id).len() && (#[trigger] removed(ws, id)[k]).owner is Some
                && window_position(ws, removed(ws, id)[k].owner->0, 0) < ws.len() ==> window_position(
                removed(ws, id),
                removed(ws, id)[k].owner->0,
                0,
            ) < removed(ws, id).len(),
{
    if window_position(ws, id, 0) < ws.len() {
        let drop = Seq::new(ws.len(), |i: int| closes_with(ws, id, i));
        let rest = removed(ws, id);
        lemma_kept_members(ws, drop);
        assert forall|k: int|
            0 <= k < rest.len() && (#[trigger] rest[k]).owner is Some && window_position(
                ws,
                rest[k].owner->0,
                0,
            ) < ws.len() implies window_position(rest, rest[k].owner->0, 0) < rest.len() by {
            let i = choose|j: int| 0 <= j < ws.len() && !drop[j] && #[trigger] kept(ws, drop)[k] == ws[j];
            let o = ws[i].owner->0;
            lemma_position(ws, o, 0);
            let p = window_position(ws, o, 0);
            assert(owner_position(ws, i) == Some(p));
            assert(!closes_with(ws, id, i));
            if ws[p].id == id {
                assert(owned_within(ws, id, i, ws.len() as int));
            }
            if owned_by(ws, id, p) {
                lemma_owned_has_chain(ws, id, p, ws.len() as int);
                let t = choose|t: nat| t < ws.len() && #[trigger] ends_at(ws, id, chain_at(ws, p, t));
                lemma_chain_compose(ws, i, 1, t);
                assert(chain_at(ws, i, 0) == i);
                assert(chain_at(ws, i, 1) == p);
                lemma_chain_shortens(ws, id, i, 1 + t);
                let u = choose|u: nat| u < ws.len() && #[trigger] ends_at(ws, id, chain_at(ws, i, u));
                lemma_chain_owned(ws, id, i, u, ws.len() as int);
            }
            assert(!drop[p]);
            lemma_kept_contains(ws, drop, p);
            let m = choose|m: int| 0 <= m < rest.len() && #[trigger] rest[m] == ws[p];
            lemma_position(rest, o, 0);
            assert(rest[m].id == o);
        }
    }
}

proof fn lemma_kept_contains(ws: Seq<RecordView>, drop: Seq<bool>, j: int)
    requires
        drop.len() >= ws.len(),
        0 <= j < ws.len(),
        !drop[j],
    ensures
        exists|m: int| 0 <= m < kept(ws, drop).len() && #[trigger] kept(ws, drop)[m] == ws[j],
    decreases ws.len(),
{
    let rest = ws.drop_last();
    if j == ws.len() - 1 {
        let m = kept(rest, drop).len() as int;
        assert(kept(ws, drop)[m] == ws[j]);
    } else {
        lemma_kept_contains(rest, drop, j);
        let m = choose|m: int| 0 <= m < kept(rest, drop).len() && #[trigger] kept(rest, drop)[m] == rest[j];
        assert(kept(ws, drop)[m] == ws[j]);
    }
}

} // verus!
