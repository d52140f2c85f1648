//! Adds still being processed in the background (a magnet whose metadata is
//! being fetched), shown to the UI as placeholder rows; the torrent state
//! shown for an engine state; and the capped traffic history buffers.

use vstd::prelude::*;

use std::collections::VecDeque;

use crate::types::TorrentState;

verus! {

/// Background adds get ids well above any real engine id (which are small),
/// so the two never collide.
pub const PENDING_ID_BASE: u64 = 0x1_0000_0000_0000;

/// How long a failed placeholder stays visible, in milliseconds.
pub const FAILED_TTL_MS: u64 = 90_000;

/// Where a background add stands.
pub enum PendingStatus {
    Resolving,
    Failed(String),
}

/// A placeholder for an add that is still being processed.
pub struct PendingAdd {
    pub id: u64,
    pub label: String,
    pub output_dir: String,
    pub status: PendingStatus,
    /// When it was added, or when it failed, in milliseconds.
    pub at_ms: u64,
}

/// A placeholder as the specifications see it: `failed` holds the message
/// of a failed add.
pub struct PendingView {
    pub id: u64,
    pub label: Seq<char>,
    pub output_dir: Seq<char>,
    pub failed: Option<Seq<char>>,
    pub at_ms: u64,
}

impl View for PendingAdd {
    type V = PendingView;

    open spec fn view(&self) -> PendingView {
        PendingView {
            id: self.id,
            label: self.label@,
            output_dir: self.output_dir@,
            failed: match self.status {
                PendingStatus::Resolving => None,
                PendingStatus::Failed(m) => Some(m@),
            },
            at_ms: self.at_ms,
        }
    }
}

/// The placeholders, in the order they were added, and the counter that
/// numbers the next one.
pub struct PendingList {
    items: Vec<PendingAdd>,
    next: u64,
}

pub open spec fn seq_views(s: Seq<PendingAdd>) -> Seq<PendingView> {
    s.map_values(|p: PendingAdd| p@)
}

/// Every id is `PENDING_ID_BASE` plus a counter value already handed out,
/// and no two placeholders share an id.
pub open spec fn pending_ok(items: Seq<PendingView>, next: u64) -> bool {
    &&& next <= u64::MAX - PENDING_ID_BASE
    &&& forall|i: int|
        0 <= i < items.len() ==> PENDING_ID_BASE <= #[trigger] items[i].id < PENDING_ID_BASE
            + next
    &&& forall|i: int, j: int|
        0 <= i < items.len() && 0 <= j < items.len() && i != j ==> #[trigger] items[i].id
            != #[trigger] items[j].id
}

/// Drop every placeholder with this id.
pub open spec fn without_id(items: Seq<PendingView>, id: u64) -> Seq<PendingView> {
    items.filter(|p: PendingView| p.id != id)
}

/// Mark the placeholder with this id as failed with `msg` at `now`.
pub open spec fn mark_failed(items: Seq<PendingView>, id: u64, msg: Seq<char>, now: u64) -> Seq<
    PendingView,
> {
    items.map_values(
        |p: PendingView|
            if p.id == id {
                PendingView { failed: Some(msg), at_ms: now, ..p }
            } else {
                p
            },
    )
}

/// Whether a placeholder has outlived its time: failed, and failed more
/// than the allowed time before `now`.
pub open spec fn stale(p: PendingView, now: u64, ttl: u64) -> bool {
    p.failed is Some && now >= p.at_ms && now - p.at_ms > ttl
}

pub open spec fn without_stale(items: Seq<PendingView>, now: u64, ttl: u64) -> Seq<PendingView> {
    items.filter(|p: PendingView| !stale(p, now, ttl))
}

impl PendingList {
    pub closed spec fn items_view(&self) -> Seq<PendingView> {
        seq_views(self.items@)
    }

    pub closed spec fn next_view(&self) -> u64 {
        self.next
    }

    pub open spec fn wf(&self) -> bool {
        pending_ok(self.items_view(), self.next_view())
    }

    pub fn new() -> (r: Self)
        ensures
            r.wf(),
            r.items_view() == Seq::<PendingView>::empty(),
            r.next_view() == 0,
    {
        let r = PendingList { items: Vec::new(), next: 0 };
        assert(r.items_view() =~= Seq::<PendingView>::empty());
        r
    }

    /// Whether another placeholder can still be numbered.
    pub fn can_push(&self) -> (r: bool)
        ensures
            r == (self.next_view() < u64::MAX - PENDING_ID_BASE),
    {
        self.next < u64::MAX - PENDING_ID_BASE
    }

    /// Add a resolving placeholder and return its fresh id.
    pub fn push(&mut self, label: String, output_dir: String, now: u64) -> (id: u64)
        requires
            old(self).wf(),
            old(self).next_view() < u64::MAX - PENDING_ID_BASE,
        ensures
            final(self).wf(),
            id == PENDING_ID_BASE + old(self).next_view(),
            final(self).next_view() == old(self).next_view() + 1,
            final(self).items_view() == old(self).items_view().push(
                PendingView {
                    id,
                    label: label@,
                    output_dir: output_dir@,
                    failed: None,
                    at_ms: now,
                },
            ),
            forall|i: int|
                0 <= i < old(self).items_view().len() ==> #[trigger] old(self).items_view()[i].id
                    != id,
    {
        let id = PENDING_ID_BASE + self.next;
        let ghost before = self.items@;
        let p = PendingAdd { id, label, output_dir, status: PendingStatus::Resolving, at_ms: now };
        self.items.push(p);
        self.next = self.next + 1;
        assert(seq_views(self.items@) =~= seq_views(before).push(p@));
        id
    }

    /// A background add finished: on success the placeholder goes (the real
    /// torrent now shows in the list); on failure it shows the message.
    pub fn finish(&mut self, id: u64, outcome: Result<(), String>, now: u64)
        requires
            old(self).wf(),
        ensures
            final(self).wf(),
            final(self).next_view() == old(self).next_view(),
            final(self).items_view() == match outcome {
                Ok(_) => without_id(old(self).items_view(), id),
                Err(m) => mark_failed(old(self).items_view(), id, m@, now),
            },
    {
        match outcome {
            Ok(()) => self.dismiss(id),
            Err(msg) => {
                let ghost before = seq_views(self.items@);
                let mut out: Vec<PendingAdd> = Vec::new();
                let mut i: usize = 0;
                while i < self.items.len()
                    invariant
                        i <= self.items@.len(),
                        seq_views(self.items@) == before,
                        seq_views(out@) == mark_failed(before, id, msg@, now).subrange(0, i as int),
                    decreases self.items@.len() - i,
                {
                    let item = &self.items[i];
                    assert(before[i as int] == item@);
                    let p = if item.id == id {
                        PendingAdd {
                            id: item.id,
                            label: item.label.clone(),
                            output_dir: item.output_dir.clone(),
                            status: PendingStatus::Failed(msg.clone()),
                            at_ms: now,
                        }
                    } else {
                        copy_pending(item)
                    };
                    let ghost prev = seq_views(out@);
                    out.push(p);
                    assert(seq_views(out@) =~= prev.push(p@));
                    assert(mark_failed(before, id, msg@, now).subrange(0, i + 1) =~= mark_failed(
                        before,
                        id,
                        msg@,
                        now,
                    ).subrange(0, i as int).push(p@));
                    i += 1;
                }
                assert(mark_failed(before, id, msg@, now).subrange(0, i as int) =~= mark_failed(
                    before,
                    id,
                    msg@,
                    now,
                ));
                self.items = out;
            },
        }
    }

    /// Remove the placeholder with this id (a dismissed failure).
    pub fn dismiss(&mut self, id: u64)
        requires
            old(self).wf(),
        ensures
            final(self).wf(),
            final(self).next_view() == old(self).next_view(),
            final(self).items_view() == without_id(old(self).items_view(), id),
    {
        let ghost before = seq_views(self.items@);
        let mut out: Vec<PendingAdd> = Vec::new();
        let mut i: usize = 0;
        while i < self.items.len()
            invariant
                i <= self.items@.len(),
                seq_views(self.items@) == before,
                seq_views(out@) == without_id(before.subrange(0, i as int), id),
            decreases self.items@.len() - i,
        {
            let item = &self.items[i];
            assert(before[i as int] == item@);
            proof {
                lemma_filter_step(before, i as int, |p: PendingView| p.id != id);
            }
            let ghost prev = seq_views(out@);
            if item.id != id {
                let p = copy_pending(item);
                out.push(p);
                assert(seq_views(out@) =~= prev.push(p@));
            }
            i += 1;
        }
        assert(before.subrange(0, i as int) =~= before);
        proof {
            lemma_filter_keeps_ok(before, self.next, |p: PendingView| p.id != id);
        }
        self.items = out;
    }

    /// Drop failed placeholders that have been shown longer than `ttl_ms`.
    pub fn expire(&mut self, now: u64, ttl_ms: u64)
        requires
            old(self).wf(),
        ensures
            final(self).wf(),
            final(self).next_view() == old(self).next_view(),
            final(self).items_view() == without_stale(old(self).items_view(), now, ttl_ms),
    {
        let ghost before = seq_views(self.items@);
        let mut out: Vec<PendingAdd> = Vec::new();
        let mut i: usize = 0;
        while i < self.items.len()
            invariant
                i <= self.items@.len(),
                seq_views(self.items@) == before,
                seq_views(out@) == without_stale(before.subrange(0, i as int), now, ttl_ms),
            decreases self.items@.len() - i,
        {
            let item = &self.items[i];
            assert(before[i as int] == item@);
            proof {
                lemma_filter_step(before, i as int, |p: PendingView| !stale(p, now, ttl_ms));
            }
            let failed = match item.status {
                PendingStatus::Failed(_) => true,
                PendingStatus::Resolving => false,
            };
            let ghost prev = seq_views(out@);
            if !(failed && now >= item.at_ms && now - item.at_ms > ttl_ms) {
                let p = copy_pending(item);
                out.push(p);
                assert(seq_views(out@) =~= prev.push(p@));
            }
            i += 1;
        }
        assert(before.subrange(0, i as int) =~= before);
        proof {
            lemma_filter_keeps_ok(before, self.next, |p: PendingView| !stale(p, now, ttl_ms));
        }
        self.items = out;
    }

    /// The placeholder rows shown in the torrent list, in order.
    pub fn rows(&self) -> (r: Vec<PendingRow>)
        ensures
            r@.len() == self.items_view().len(),
            forall|i: int|
                0 <= i < r@.len() ==> #[trigger] r@[i]@ == row_of(self.items_view()[i]),
    {
        let mut out: Vec<PendingRow> = Vec::new();
        let mut i: usize = 0;
        while i < self.items.len()
            invariant
                i <= self.items@.len(),
                out@.len() == i,
                forall|j: int|
                    0 <= j < i ==> #[trigger] out@[j]@ == row_of(seq_views(self.items@)[j]),
            decreases self.items@.len() - i,
        {
            let item = &self.items[i];
            assert(seq_views(self.items@)[i as int] == item@);
            let (state, error) = match &item.status {
                PendingStatus::Resolving => (TorrentState::Initializing, None),
                PendingStatus::Failed(m) => (TorrentState::Error, Some(m.clone())),
            };
            out.push(
                PendingRow {
                    id: item.id,
                    name: item.label.clone(),
                    state,
                    error,
                    output_folder: item.output_dir.clone(),
                },
            );
            i += 1;
        }
        out
    }
}

/// A placeholder as a row of the torrent list.
pub struct PendingRow {
    pub id: u64,
    pub name: String,
    pub state: TorrentState,
    pub error: Option<String>,
    pub output_folder: String,
}

pub struct PendingRowView {
    pub id: u64,
    pub name: Seq<char>,
    pub state: TorrentState,
    pub error: Option<Seq<char>>,
    pub output_folder: Seq<char>,
}

impl View for PendingRow {
    type V = PendingRowView;

    open spec fn view(&self) -> PendingRowView {
        PendingRowView {
            id: self.id,
            name: self.name@,
            state: self.state,
            error: match self.error {
                Some(m) => Some(m@),
                None => None,
            },
            output_folder: self.output_folder@,
        }
    }
}

/// A resolving add shows as initializing; a failed one as an error with
/// its message.
pub open spec fn row_of(p: PendingView) -> PendingRowView {
    PendingRowView {
        id: p.id,
        name: p.label,
        state: if p.failed is Some {
            TorrentState::Error
        } else {
            TorrentState::Initializing
        },
        error: p.failed,
        output_folder: p.output_dir,
    }
}

fn copy_pending(p: &PendingAdd) -> (r: PendingAdd)
    ensures
        r@ == p@,
{
    PendingAdd {
        id: p.id,
        label: p.label.clone(),
        output_dir: p.output_dir.clone(),
        status: match &p.status {
            PendingStatus::Resolving => PendingStatus::Resolving,
            PendingStatus::Failed(m) => PendingStatus::Failed(m.clone()),
        },
        at_ms: p.at_ms,
    }
}

proof fn lemma_filter_step<A>(s: Seq<A>, i: int, pred: spec_fn(A) -> bool)
    requires
        0 <= i < s.len(),
    ensures
        s.subrange(0, i + 1).filter(pred) == if pred(s[i]) {
            s.subrange(0, i).filter(pred).push(s[i])
        } else {
            s.subrange(0, i).filter(pred)
        },
{
    let t = s.subrange(0, i + 1);
    assert(t.drop_last() =~= s.subrange(0, i));
    assert(t.last() == s[i]);
    reveal_with_fuel(Seq::filter, 1);
}

proof fn lemma_filter_last<A>(s: Seq<A>, pred: spec_fn(A) -> bool)
    requires
        s.len() > 0,
    ensures
        s.filter(pred) == if pred(s.last()) {
            s.drop_last().filter(pred).push(s.last())
        } else {
            s.drop_last().filter(pred)
        },
{
    reveal_with_fuel(Seq::filter, 1);
}

/// Keeping only some placeholders keeps ids in range and distinct.
proof fn lemma_filter_keeps_ok(s: Seq<PendingView>, next: u64, pred: spec_fn(PendingView) -> bool)
    requires
        pending_ok(s, next),
    ensures
        pending_ok(s.filter(pred), next),
        forall|i: int|
            0 <= i < s.filter(pred).len() ==> s.contains(#[trigger] s.filter(pred)[i]),
    decreases s.len(),
{
    broadcast use vstd::seq_lib::group_filter_ensures;

    if s.len() > 0 {
        let d = s.drop_last();
        assert forall|i: int, j: int|
            0 <= i < d.len() && 0 <= j < d.len() && i != j implies #[trigger] d[i].id
            != #[trigger] d[j].id by {
            assert(d[i] == s[i] && d[j] == s[j]);
        }
        assert forall|i: int| 0 <= i < d.len() implies PENDING_ID_BASE <= #[trigger] d[i].id
            < PENDING_ID_BASE + next by {
            assert(d[i] == s[i]);
        }
        lemma_filter_keeps_ok(d, next, pred);
        lemma_filter_last(s, pred);
        let f = s.filter(pred);
        let fd = d.filter(pred);
        assert forall|i: int| 0 <= i < f.len() implies s.contains(#[trigger] f[i]) by {
            if i < fd.len() {
                assert(f[i] == fd[i]);
                let k = choose|k: int| 0 <= k < d.len() && d[k] == fd[i];
                assert(s[k] == d[k]);
            } else {
                assert(f[i] == s.last());
                assert(s[s.len() - 1] == s.last());
            }
        }
        if pred(s.last()) {
            assert forall|i: int| 0 <= i < fd.len() implies #[trigger] fd[i].id != s.last().id by {
                let k = choose|k: int| 0 <= k < d.len() && d[k] == fd[i];
                assert(s[k] == d[k]);
                assert(s[s.len() - 1] == s.last());
            }
        }
        assert forall|i: int, j: int|
            0 <= i < f.len() && 0 <= j < f.len() && i != j implies #[trigger] f[i].id
            != #[trigger] f[j].id by {
            if i < fd.len() && j < fd.len() {
                assert(f[i] == fd[i] && f[j] == fd[j]);
            } else if i < fd.len() {
                assert(f[i] == fd[i]);
            } else if j < fd.len() {
                assert(f[j] == fd[j]);
            }
        }
        assert forall|i: int| 0 <= i < f.len() implies PENDING_ID_BASE <= #[trigger] f[i].id
            < PENDING_ID_BASE + next by {
            assert(s.contains(f[i]));
        }
    }
}

/// Every id handed out is fresh and in the placeholder range.
pub proof fn law_push_gives_fresh_id(l: PendingList)
    requires
        l.wf(),
    ensures
        forall|i: int|
            0 <= i < l.items_view().len() ==> #[trigger] l.items_view()[i].id != PENDING_ID_BASE
                + l.next_view(),
{
}

/// Dismissing an id leaves no placeholder with it, keeps every other one, and
/// leaves the list unchanged when the id was not there.
pub proof fn law_dismiss_removes_only_that_id(items: Seq<PendingView>, id: u64)
    ensures
        forall|i: int|
            0 <= i < without_id(items, id).len() ==> #[trigger] without_id(items, id)[i].id != id,
        forall|p: PendingView| items.contains(p) && p.id != id ==> #[trigger] without_id(
            items,
            id,
        ).contains(p),
        (forall|i: int| 0 <= i < items.len() ==> #[trigger] items[i].id != id) ==> without_id(
            items,
            id,
        ) == items,
{
    broadcast use vstd::seq_lib::group_filter_ensures;

    let f = |p: PendingView| p.id != id;
    assert forall|p: PendingView| items.contains(p) && p.id != id implies #[trigger] without_id(
        items,
        id,
    ).contains(p) by {
        let k = choose|k: int| 0 <= k < items.len() && items[k] == p;
        items.lemma_filter_contains(f, k);
    }
    if forall|i: int| 0 <= i < items.len() ==> #[trigger] items[i].id != id {
        lemma_filter_all(items, f);
    }
}

proof fn lemma_filter_all(s: Seq<PendingView>, pred: spec_fn(PendingView) -> bool)
    requires
        forall|i: int| 0 <= i < s.len() ==> pred(#[trigger] s[i]),
    ensures
        s.filter(pred) == s,
    decreases s.len(),
{
    if s.len() > 0 {
        let d = s.drop_last();
        assert forall|i: int| 0 <= i < d.len() implies pred(#[trigger] d[i]) by {
            assert(d[i] == s[i]);
        }
        lemma_filter_all(d, pred);
        lemma_filter_last(s, pred);
        assert(pred(s[s.len() - 1]));
        assert(d.push(s.last()) =~= s);
    }
}

// ---------------------------------------------------------------------------
// the torrent state shown for an engine state
// ---------------------------------------------------------------------------

/// The engine's own state for a torrent.
#[derive(Clone, Copy, Debug, PartialEq, Eq, Structural)]
pub enum EngineState {
    Initializing,
    Live,
    Paused,
    Error,
}

/// Paused and error take priority over finished, so a completed torrent can
/// still be paused (stop seeding) and resumed.
pub open spec fn state_spec(s: EngineState, finished: bool) -> TorrentState {
    match s {
        EngineState::Paused => TorrentState::Paused,
        EngineState::Error => TorrentState::Error,
        _ => if finished {
            TorrentState::Finished
        } else {
            match s {
                EngineState::Initializing => TorrentState::Initializing,
                _ => TorrentState::Live,
            }
        },
    }
}

pub fn map_state(s: EngineState, finished: bool) -> (r: TorrentState)
    ensures
        r == state_spec(s, finished),
{
    match s {
        EngineState::Paused => TorrentState::Paused,
        EngineState::Error => TorrentState::Error,
        _ if finished => TorrentState::Finished,
        EngineState::Initializing => TorrentState::Initializing,
        EngineState::Live => TorrentState::Live,
    }
}

// ---------------------------------------------------------------------------
// seeding goals
// ---------------------------------------------------------------------------

/// What the seeding-goal check reads of a listed torrent; `reached` is
/// whether its upload/download ratio has reached the configured goal.
#[derive(Clone, Copy)]
pub struct RatioRow {
    pub id: u64,
    pub pending: bool,
    pub state: TorrentState,
    pub downloaded: u64,
    pub reached: bool,
}

/// A finished, real torrent that has downloaded something and reached the goal.
pub open spec fn qualifies(r: RatioRow) -> bool {
    !r.pending && r.state == TorrentState::Finished && r.downloaded > 0 && r.reached
}

/// The ids of the torrents that still exist (placeholders excluded).
pub open spec fn live_ids(rows: Seq<RatioRow>) -> Set<u64> {
    Set::new(|id: u64| exists|i: int| 0 <= i < rows.len() && !rows[i].pending && rows[i].id == id)
}

/// Walk the rows in order: a qualifying torrent not yet paused is paused
/// and reported, once.
pub open spec fn ratio_walk(rows: Seq<RatioRow>, paused: Set<u64>) -> (Seq<u64>, Set<u64>)
    decreases rows.len(),
{
    if rows.len() == 0 {
        (Seq::empty(), paused)
    } else {
        let (t, p) = ratio_walk(rows.drop_last(), paused);
        let r = rows.last();
        if qualifies(r) && !p.contains(r.id) {
            (t.push(r.id), p.insert(r.id))
        } else {
            (t, p)
        }
    }
}

/// The bookkeeping kept from before: only torrents that still exist.
pub open spec fn kept_paused(old: Seq<u64>, rows: Seq<RatioRow>) -> Set<u64> {
    old.to_set().filter(|id: u64| live_ids(rows).contains(id))
}

fn contains_id(v: &Vec<u64>, id: u64) -> (r: bool)
    ensures
        r == v@.contains(id),
{
    let mut i: usize = 0;
    while i < v.len()
        invariant
            i <= v.len(),
            forall|j: int| 0 <= j < i ==> v@[j] != id,
        decreases v.len() - i,
    {
        if v[i] == id {
            return true;
        }
        i += 1;
    }
    false
}

fn live_contains(rows: &Vec<RatioRow>, id: u64) -> (r: bool)
    ensures
        r == live_ids(rows@).contains(id),
{
    let mut i: usize = 0;
    while i < rows.len()
        invariant
            i <= rows.len(),
            forall|j: int| 0 <= j < i ==> !(!rows@[j].pending && rows@[j].id == id),
        decreases rows.len() - i,
    {
        if !rows[i].pending && rows[i].id == id {
            return true;
        }
        i += 1;
    }
    false
}

/// The torrents to auto-pause for reaching their seeding goal, each only
/// once: `paused` remembers who was paused this way (forgetting torrents
/// that no longer exist), so a manual resume is not fought. With the goal
/// switched off nothing is returned.
pub fn ratio_targets(paused: &mut Vec<u64>, rows: &Vec<RatioRow>, active: bool) -> (r: Vec<u64>)
    ensures
        active ==> r@ == walk_reported(rows@, kept_paused(old(paused)@, rows@)),
        active ==> final(paused)@.to_set() == walk_paused(rows@, kept_paused(old(paused)@, rows@)),
        !active ==> r@.len() == 0 && final(paused)@.to_set() == kept_paused(old(paused)@, rows@),
{
    let mut kept: Vec<u64> = Vec::new();
    let mut i: usize = 0;
    while i < paused.len()
        invariant
            i <= paused@.len(),
            paused@ == old(paused)@,
            kept@.to_set() == paused@.subrange(0, i as int).to_set().filter(
                |id: u64| live_ids(rows@).contains(id),
            ),
        decreases paused@.len() - i,
    {
        let id = paused[i];
        let ghost before = kept@;
        proof {
            assert(paused@.subrange(0, i + 1) =~= paused@.subrange(0, i as int).push(id));
            paused@.subrange(0, i as int).lemma_push_to_set_commute(id);
        }
        if live_contains(rows, id) {
            kept.push(id);
            proof {
                before.lemma_push_to_set_commute(id);
                assert(kept@.to_set() =~= paused@.subrange(0, i + 1).to_set().filter(
                    |id: u64| live_ids(rows@).contains(id),
                ));
            }
        } else {
            proof {
                assert(kept@.to_set() =~= paused@.subrange(0, i + 1).to_set().filter(
                    |id: u64| live_ids(rows@).contains(id),
                ));
            }
        }
        i += 1;
    }
    assert(paused@.subrange(0, i as int) =~= old(paused)@);
    *paused = kept;
    let mut targets: Vec<u64> = Vec::new();
    if !active {
        return targets;
    }
    let ghost start = paused@.to_set();
    let mut k: usize = 0;
    assert(rows@.subrange(0, 0) =~= Seq::<RatioRow>::empty());
    while k < rows.len()
        invariant
            k <= rows@.len(),
            start == kept_paused(old(paused)@, rows@),
            targets@ == ratio_walk(rows@.subrange(0, k as int), start).0,
            paused@.to_set() == ratio_walk(rows@.subrange(0, k as int), start).1,
        decreases rows@.len() - k,
    {
        let row = rows[k];
        let ghost pre = rows@.subrange(0, k + 1);
        assert(pre.drop_last() =~= rows@.subrange(0, k as int));
        assert(pre.last() == row);
        let q = !row.pending && matches!(row.state, TorrentState::Finished) && row.downloaded > 0
            && row.reached;
        if q && !contains_id(paused, row.id) {
            let ghost before = paused@;
            paused.push(row.id);
            targets.push(row.id);
            proof {
                before.lemma_push_to_set_commute(row.id);
            }
        }
        k += 1;
    }
    assert(rows@.subrange(0, k as int) =~= rows@);
    targets
}

pub open spec fn walk_reported(rows: Seq<RatioRow>, paused: Set<u64>) -> Seq<u64> {
    ratio_walk(rows, paused).0
}

pub open spec fn walk_paused(rows: Seq<RatioRow>, paused: Set<u64>) -> Set<u64> {
    ratio_walk(rows, paused).1
}

/// Each torrent is reported at most once and only when it was not already
/// paused for its goal; afterwards every reported one is remembered.
pub proof fn law_ratio_pause_once(rows: Seq<RatioRow>, paused: Set<u64>)
    ensures
        forall|i: int|
            0 <= i < walk_reported(rows, paused).len() ==> !paused.contains(
                #[trigger] walk_reported(rows, paused)[i],
            ) && walk_paused(rows, paused).contains(walk_reported(rows, paused)[i]),
        forall|i: int, j: int|
            0 <= i < j < walk_reported(rows, paused).len() ==> #[trigger] walk_reported(rows, paused)[i]
                != #[trigger] walk_reported(rows, paused)[j],
        paused.subset_of(walk_paused(rows, paused)),
    decreases rows.len(),
{
    if rows.len() > 0 {
        let d = rows.drop_last();
        law_ratio_pause_once(d, paused);
        let t = walk_reported(d, paused);
        let p = walk_paused(d, paused);
        let r = rows.last();
        if qualifies(r) && !p.contains(r.id) {
            let t2 = t.push(r.id);
            let p2 = p.insert(r.id);
            assert(walk_reported(rows, paused) == t2);
            assert(walk_paused(rows, paused) == p2);
            assert(!paused.contains(r.id));
            assert forall|i: int| 0 <= i < t2.len() implies !paused.contains(#[trigger] t2[i])
                && p2.contains(t2[i]) by {
                if i < t.len() {
                    assert(t2[i] == t[i]);
                    assert(p.contains(t[i]));
                } else {
                    assert(t2[i] == r.id);
                }
            }
            assert forall|i: int, j: int| 0 <= i < j < t2.len() implies #[trigger] t2[i]
                != #[trigger] t2[j] by {
                if j < t.len() {
                    assert(t2[i] == t[i] && t2[j] == t[j]);
                } else {
                    assert(t2[i] == t[i]);
                    assert(t2[j] == r.id);
                    assert(p.contains(t[i]));
                }
            }
        } else {
            assert(walk_reported(rows, paused) == t);
            assert(walk_paused(rows, paused) == p);
        }
    }
}

/// After a walk every qualifying torrent is remembered as paused.
proof fn lemma_walk_remembers_qualifying(rows: Seq<RatioRow>, paused: Set<u64>)
    ensures
        forall|i: int|
            0 <= i < rows.len() && qualifies(#[trigger] rows[i]) ==> walk_paused(
                rows,
                paused,
            ).contains(rows[i].id),
        paused.subset_of(walk_paused(rows, paused)),
    decreases rows.len(),
{
    if rows.len() > 0 {
        let d = rows.drop_last();
        lemma_walk_remembers_qualifying(d, paused);
        assert forall|i: int| 0 <= i < rows.len() && qualifies(#[trigger] rows[i]) implies walk_paused(
            rows,
            paused,
        ).contains(rows[i].id) by {
            if i < d.len() {
                assert(rows[i] == d[i]);
            }
        }
    }
}

/// A walk over rows whose qualifying torrents are all remembered reports
/// nothing.
proof fn lemma_walk_quiet(rows: Seq<RatioRow>, paused: Set<u64>)
    requires
        forall|i: int| 0 <= i < rows.len() && qualifies(#[trigger] rows[i]) ==> paused.contains(rows[i].id),
    ensures
        walk_reported(rows, paused).len() == 0,
        walk_paused(rows, paused) == paused,
    decreases rows.len(),
{
    if rows.len() > 0 {
        let d = rows.drop_last();
        assert forall|i: int| 0 <= i < d.len() && qualifies(#[trigger] d[i]) implies paused.contains(
            d[i].id,
        ) by {
            assert(d[i] == rows[i]);
        }
        lemma_walk_quiet(d, paused);
        assert(qualifies(rows[rows.len() - 1]) ==> paused.contains(rows.last().id));
    }
}

/// A second check over the same torrents pauses nothing: the bookkeeping
/// the first check leaves behind (`final(paused)` of `ratio_targets`)
/// remembers every torrent it paused and every one already paused.
pub proof fn law_ratio_second_check_quiet(rows: Seq<RatioRow>, before: Seq<u64>, after: Seq<u64>)
    requires
        after.to_set() == walk_paused(rows, kept_paused(before, rows)),
    ensures
        walk_reported(rows, kept_paused(after, rows)).len() == 0,
        walk_paused(rows, kept_paused(after, rows)) == kept_paused(after, rows),
{
    let first = kept_paused(before, rows);
    lemma_walk_remembers_qualifying(rows, first);
    let second = kept_paused(after, rows);
    assert forall|i: int| 0 <= i < rows.len() && qualifies(#[trigger] rows[i]) implies second.contains(
        rows[i].id,
    ) by {
        assert(after.to_set().contains(rows[i].id));
        assert(live_ids(rows).contains(rows[i].id));
    }
    lemma_walk_quiet(rows, second);
}

// ---------------------------------------------------------------------------
// capped history
// ---------------------------------------------------------------------------

/// Samples the global graph keeps.
pub const GLOBAL_HIST_LEN: usize = 120;

/// Samples each per-torrent sparkline keeps.
pub const ROW_HIST_LEN: usize = 48;

/// The last `cap` elements of `s` (all of them when there are fewer).
pub open spec fn last_n<T>(s: Seq<T>, cap: nat) -> Seq<T> {
    if s.len() <= cap {
        s
    } else {
        s.subrange(s.len() - cap, s.len() as int)
    }
}

/// Append a sample, then drop the oldest until at most `cap` remain.
pub fn push_capped<T>(buf: &mut VecDeque<T>, item: T, cap: usize)
    ensures
        final(buf)@ == last_n(old(buf)@.push(item), cap as nat),
{
    buf.push_back(item);
    let ghost full = buf@;
    assert(full.subrange(0, full.len() as int) =~= full);
    while buf.len() > cap
        invariant
            full.len() >= buf@.len(),
            buf@.len() >= cap || buf@.len() == full.len(),
            buf@ == full.subrange(full.len() - buf@.len(), full.len() as int),
            full == old(buf)@.push(item),
        decreases buf@.len(),
    {
        buf.pop_front();
        assert(buf@ =~= full.subrange(full.len() - buf@.len(), full.len() as int));
    }
    proof {
        if full.len() <= cap {
            assert(buf@ =~= full);
        }
    }
}

/// The first `cap` elements of `s` (all of them when there are fewer).
pub open spec fn first_n<T>(s: Seq<T>, cap: nat) -> Seq<T> {
    if s.len() <= cap {
        s
    } else {
        s.subrange(0, cap as int)
    }
}

/// Lines the log ticker keeps on screen.
pub const TICKER_LINES: usize = 100;

/// Put the newest item first, then drop the oldest from the back until at
/// most `cap` remain (the log ticker's newest-first list).
pub fn push_front_capped<T>(buf: &mut VecDeque<T>, item: T, cap: usize)
    ensures
        final(buf)@ == first_n(seq![item] + old(buf)@, cap as nat),
{
    buf.push_front(item);
    let ghost full = buf@;
    assert(full.subrange(0, full.len() as int) =~= full);
    while buf.len() > cap
        invariant
            full.len() >= buf@.len(),
            buf@.len() >= cap || buf@.len() == full.len(),
            buf@ == full.subrange(0, buf@.len() as int),
            full == seq![item] + old(buf)@,
        decreases buf@.len(),
    {
        buf.pop_back();
        assert(buf@ =~= full.subrange(0, buf@.len() as int));
    }
    proof {
        if full.len() <= cap {
            assert(buf@ =~= full);
        }
    }
}

/// A history buffer pre-filled with `n` copies of `zero`, so a graph shows a
/// full-width time axis from the start.
pub fn prefilled<T: Copy>(zero: T, n: usize) -> (r: VecDeque<T>)
    ensures
        r@ == Seq::new(n as nat, |i: int| zero),
{
    let mut r: VecDeque<T> = VecDeque::new();
    let mut i: usize = 0;
    while i < n
        invariant
            i <= n,
            r@ == Seq::new(i as nat, |j: int| zero),
        decreases n - i,
    {
        r.push_back(zero);
        i += 1;
        assert(r@ =~= Seq::new(i as nat, |j: int| zero));
    }
    r
}

/// The buffer never holds more than `cap` samples once one has been pushed,
/// and the newest sample is always the last one kept.
pub proof fn law_push_capped_bounded<T>(s: Seq<T>, item: T, cap: nat)
    requires
        cap > 0,
    ensures
        last_n(s.push(item), cap).len() <= cap,
        last_n(s.push(item), cap).last() == item,
{
}


/// Trimming before a push and trimming after it keep the same samples.
pub proof fn lemma_last_n_push<T>(s: Seq<T>, x: T, cap: nat)
    ensures
        last_n(last_n(s, cap).push(x), cap) == last_n(s.push(x), cap),
{
    if s.len() > cap {
        let t = s.subrange(s.len() - cap, s.len() as int);
        assert(last_n(t.push(x), cap) =~= last_n(s.push(x), cap));
    }
}

/// A history after recording `samples` one by one with `push_capped`.
pub open spec fn record_all<T>(start: Seq<T>, samples: Seq<T>, cap: nat) -> Seq<T>
    decreases samples.len(),
{
    if samples.len() == 0 {
        start
    } else {
        last_n(record_all(start, samples.drop_last(), cap).push(samples.last()), cap)
    }
}

proof fn lemma_record_all<T>(start: Seq<T>, samples: Seq<T>, cap: nat)
    requires
        start.len() == cap,
    ensures
        record_all(start, samples, cap) == last_n(start + samples, cap),
    decreases samples.len(),
{
    if samples.len() > 0 {
        let d = samples.drop_last();
        lemma_record_all(start, d, cap);
        lemma_last_n_push(start + d, samples.last(), cap);
        assert((start + d).push(samples.last()) =~= start + samples);
    } else {
        assert(start + samples =~= start);
    }
}

/// A history started full (`cap` copies of a zero sample, as `prefilled`
/// makes it) stays exactly `cap` samples long however many samples are
/// recorded, holds the newest `cap` of the zeros followed by the samples,
/// and ends with the newest sample: 120 for the global graph, 48 per torrent.
pub proof fn law_history_stays_full<T>(zero: T, samples: Seq<T>, cap: nat)
    ensures
        record_all(Seq::new(cap, |i: int| zero), samples, cap) == last_n(
            Seq::new(cap, |i: int| zero) + samples,
            cap,
        ),
        record_all(Seq::new(cap, |i: int| zero), samples, cap).len() == cap,
        cap > 0 && samples.len() > 0 ==> record_all(Seq::new(cap, |i: int| zero), samples, cap).last()
            == samples.last(),
{
    let start = Seq::new(cap, |i: int| zero);
    lemma_record_all(start, samples, cap);
}


// ---------------------------------------------------------------------------
// the torrent snapshot
// ---------------------------------------------------------------------------

/// The torrents a snapshot lists, as `(id, position in the engine's list)`:
/// only entries that have an id and statistics, in list order.
pub open spec fn listed_torrents(entries: Seq<(Option<u64>, bool)>) -> Seq<(u64, u64)>
    decreases entries.len(),
{
    if entries.len() == 0 {
        Seq::empty()
    } else {
        let prev = listed_torrents(entries.drop_last());
        match entries.last().0 {
            Some(id) => if entries.last().1 {
                prev.push((id, (entries.len() - 1) as u64))
            } else {
                prev
            },
            None => prev,
        }
    }
}

/// The order of the snapshot's torrent rows: every engine entry with an id
/// and statistics, as `(id, position in the engine's list)`, sorted by id
/// (entries with equal ids keep their order).
pub fn snapshot_order(entries: &Vec<(Option<u64>, bool)>) -> (r: Vec<(u64, u64)>)
    requires
        entries.len() <= u64::MAX,
    ensures
        r@ == crate::sort::sorted_by_num(listed_torrents(entries@), false),
{
    let mut kept: Vec<(u64, u64)> = Vec::new();
    let mut i: usize = 0;
    assert(entries@.subrange(0, 0) =~= Seq::<(Option<u64>, bool)>::empty());
    while i < entries.len()
        invariant
            i <= entries.len(),
            entries.len() <= u64::MAX,
            kept@ == listed_torrents(entries@.subrange(0, i as int)),
        decreases entries.len() - i,
    {
        let ghost pre = entries@.subrange(0, i + 1);
        assert(pre.drop_last() =~= entries@.subrange(0, i as int));
        assert(pre.last() == entries@[i as int]);
        let (id, has_stats) = entries[i];
        match id {
            Some(x) => {
                if has_stats {
                    kept.push((x, i as u64));
                }
            },
            None => {},
        }
        i += 1;
    }
    assert(entries@.subrange(0, i as int) =~= entries@);
    crate::sort::sort_by_num_key(kept, false)
}

/// The per-torrent histories of the torrents still listed, in their order.
pub open spec fn live_histories<T>(hist: Seq<(u64, T)>, live: Seq<u64>) -> Seq<(u64, T)> {
    hist.filter(|p: (u64, T)| live.contains(p.0))
}

/// Forget the histories of torrents that are no longer listed.
pub fn retain_live<T>(hist: Vec<(u64, T)>, live: &Vec<u64>) -> (r: Vec<(u64, T)>)
    ensures
        r@ == live_histories(hist@, live@),
{
    let ghost orig = hist@;
    let mut rest = hist;
    let mut out: Vec<(u64, T)> = Vec::new();
    let ghost mut taken: int = 0;
    assert(orig.subrange(0, 0) =~= Seq::<(u64, T)>::empty());
    while rest.len() > 0
        invariant
            0 <= taken <= orig.len(),
            rest@ == orig.subrange(taken, orig.len() as int),
            out@ == live_histories(orig.subrange(0, taken), live@),
        decreases rest.len(),
    {
        let (id, h) = rest.remove(0);
        proof {
            assert(orig[taken] == (id, h));
            assert(rest@ =~= orig.subrange(taken + 1, orig.len() as int));
            assert(orig.subrange(0, taken + 1).drop_last() =~= orig.subrange(0, taken));
        }
        let found = contains_id(live, id);
        proof {
            let q = orig.subrange(0, taken + 1);
            assert(q.drop_last() =~= orig.subrange(0, taken));
            assert(q.last() == (id, h));
            reveal(Seq::filter);
            assert(live_histories(q, live@) == if live@.contains(id) {
                live_histories(orig.subrange(0, taken), live@).push((id, h))
            } else {
                live_histories(orig.subrange(0, taken), live@)
            });
            taken = taken + 1;
        }
        if found {
            out.push((id, h));
        }
    }
    assert(orig.subrange(0, taken) =~= orig);
    out
}


/// The per-torrent histories as plain values.
pub open spec fn hist_views<T>(h: Seq<(u64, VecDeque<T>)>) -> Seq<(u64, Seq<T>)> {
    h.map_values(|p: (u64, VecDeque<T>)| (p.0, p.1@))
}

/// A torrent's new sample recorded: its history (the first one kept under
/// its id) gets the sample, capped to `cap`; a torrent without one starts
/// from `cap` zero samples, so its sparkline is full-width at once.
pub open spec fn row_recorded<T>(hist: Seq<(u64, Seq<T>)>, id: u64, sample: T, zero: T, cap: nat) -> Seq<
    (u64, Seq<T>),
>
    decreases hist.len(),
{
    if hist.len() == 0 {
        seq![(id, last_n(Seq::new(cap, |i: int| zero).push(sample), cap))]
    } else if hist[0].0 == id {
        hist.update(0, (id, last_n(hist[0].1.push(sample), cap)))
    } else {
        seq![hist[0]] + row_recorded(hist.drop_first(), id, sample, zero, cap)
    }
}

proof fn lemma_row_recorded<T>(hist: Seq<(u64, Seq<T>)>, id: u64, sample: T, zero: T, cap: nat, k: int)
    requires
        0 <= k <= hist.len(),
        forall|j: int| 0 <= j < k ==> (#[trigger] hist[j]).0 != id,
        k < hist.len() ==> hist[k].0 == id,
    ensures
        row_recorded(hist, id, sample, zero, cap) == if k < hist.len() {
            hist.update(k, (id, last_n(hist[k].1.push(sample), cap)))
        } else {
            hist.push((id, last_n(Seq::new(cap, |i: int| zero).push(sample), cap)))
        },
    decreases k,
{
    if k == 0 {
        if hist.len() == 0 {
            assert(hist.push((id, last_n(Seq::new(cap, |i: int| zero).push(sample), cap))) =~= seq![
                (id, last_n(Seq::new(cap, |i: int| zero).push(sample), cap)),
            ]);
        }
    } else {
        let t = hist.drop_first();
        assert(hist[0].0 != id);
        assert forall|j: int| 0 <= j < k - 1 implies (#[trigger] t[j]).0 != id by {
            assert(t[j] == hist[j + 1]);
        }
        lemma_row_recorded(t, id, sample, zero, cap, k - 1);
        if k < hist.len() {
            assert(seq![hist[0]] + t.update(k - 1, (id, last_n(t[k - 1].1.push(sample), cap)))
                =~= hist.update(k, (id, last_n(hist[k].1.push(sample), cap))));
        } else {
            assert(seq![hist[0]] + t.push((id, last_n(Seq::new(cap, |i: int| zero).push(sample), cap)))
                =~= hist.push((id, last_n(Seq::new(cap, |i: int| zero).push(sample), cap))));
        }
    }
}

/// Record a torrent's new sample in the per-torrent histories.
pub fn record_row_sample<T: Copy>(
    hist: &mut Vec<(u64, VecDeque<T>)>,
    id: u64,
    sample: T,
    zero: T,
    cap: usize,
)
    ensures
        hist_views(final(hist)@) == row_recorded(hist_views(old(hist)@), id, sample, zero, cap as nat),
{
    let ghost before = hist_views(hist@);
    let mut k: usize = 0;
    while k < hist.len() && hist[k].0 != id
        invariant
            k <= hist.len(),
            hist_views(hist@) == before,
            forall|j: int| 0 <= j < k ==> (#[trigger] hist@[j]).0 != id,
        decreases hist.len() - k,
    {
        k += 1;
    }
    proof {
        assert forall|j: int| 0 <= j < k implies (#[trigger] before[j]).0 != id by {
            assert(before[j] == (hist@[j].0, hist@[j].1@));
        }
        if k < hist.len() {
            assert(before[k as int].0 == id);
        }
        lemma_row_recorded(before, id, sample, zero, cap as nat, k as int);
    }
    if k < hist.len() {
        let ghost old_hist = hist@;
        let (i, mut dq) = hist.remove(k);
        proof {
            assert(old_hist[k as int] == (i, dq));
        }
        push_capped(&mut dq, sample, cap);
        hist.insert(k, (i, dq));
        proof {
            assert(hist@ == old_hist.update(k as int, (i, dq)));
            assert(hist_views(hist@) =~= before.update(k as int, (id, last_n(before[k as int].1.push(sample), cap as nat))));
        }
    } else {
        let mut dq = prefilled(zero, cap);
        push_capped(&mut dq, sample, cap);
        hist.push((id, dq));
        proof {
            assert(hist_views(hist@) =~= before.push((id, last_n(Seq::new(cap as nat, |i: int| zero).push(sample), cap as nat))));
        }
    }
}

} // verus!
