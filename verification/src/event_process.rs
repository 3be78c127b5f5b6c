//! Central dispatcher for the daemon's event bus, and the watcher it starts.
//!
//! [`Dispatcher`] reacts to phase markers on the bus: once the sources are
//! ready it starts wallpaper recall, once. [`WallpaperRecall`] re-applies each
//! display's persisted wallpaper as the display becomes visible. Times are
//! nanoseconds on one monotonic clock.
use crate::table::Table;
use std::collections::HashSet;
use vstd::prelude::*;

verus! {

// ---------------------------------------------------------------------------
// Dispatcher
// ---------------------------------------------------------------------------

/// What the dispatcher hears from the bus.
#[derive(Debug, Clone, Copy)]
pub enum BusSignal {
    /// The sources became ready.
    SourcesReady,
    /// Any other event.
    Other,
    /// Events were missed; the latch tells whether the sources are ready.
    Lagged { sources_ready: bool },
    /// The bus is gone.
    Closed,
}

/// What the dispatcher asks for.
#[derive(Debug, Clone, Copy, PartialEq, Eq, Structural)]
pub enum DispatchAction {
    Wait,
    StartRecall,
    Stop,
}

/// Starts wallpaper recall when the sources are ready.
#[derive(Debug)]
pub struct Dispatcher {
    pub recall_started: bool,
}

/// The next state and action. A recall that was started, or ruled out from the
/// beginning, is not started again.
pub open spec fn dispatch_step(started: bool, signal: BusSignal) -> (bool, DispatchAction) {
    let ready = match signal {
        BusSignal::SourcesReady => true,
        BusSignal::Lagged { sources_ready } => sources_ready,
        _ => false,
    };
    if signal == BusSignal::Closed {
        (started, DispatchAction::Stop)
    } else if ready && !started {
        (true, DispatchAction::StartRecall)
    } else {
        (started, DispatchAction::Wait)
    }
}

/// The first state and action.
pub open spec fn first_dispatch(restore_last: bool, sources_ready: bool) -> (bool, DispatchAction) {
    (
        !restore_last || sources_ready,
        if restore_last && sources_ready {
            DispatchAction::StartRecall
        } else {
            DispatchAction::Wait
        },
    )
}

impl Dispatcher {
    /// A dispatcher that has subscribed to the bus and then read the latch, so
    /// that a marker set before the subscription is still caught. Without
    /// `restore_last` recall never starts.
    pub fn spawn(restore_last: bool, sources_ready: bool) -> (started: (Self, DispatchAction))
        ensures
            (started.0.recall_started, started.1) == first_dispatch(restore_last, sources_ready),
    {
        let mut dispatcher = Dispatcher { recall_started: !restore_last };
        if !dispatcher.recall_started && sources_ready {
            dispatcher.recall_started = true;
            (dispatcher, DispatchAction::StartRecall)
        } else {
            (dispatcher, DispatchAction::Wait)
        }
    }

    /// Reacts to one signal.
    pub fn step(&mut self, signal: BusSignal) -> (action: DispatchAction)
        ensures
            (final(self).recall_started, action) == dispatch_step(
                old(self).recall_started,
                signal,
            ),
    {
        let ready: bool = match signal {
            BusSignal::SourcesReady => true,
            BusSignal::Other => false,
            BusSignal::Lagged { sources_ready } => sources_ready,
            BusSignal::Closed => {
                return DispatchAction::Stop;
            },
        };
        if ready && !self.recall_started {
            self.recall_started = true;
            DispatchAction::StartRecall
        } else {
            DispatchAction::Wait
        }
    }
}

/// Whether recall counts as started after a series of signals.
pub open spec fn dispatch_run(started: bool, signals: Seq<BusSignal>) -> bool
    decreases signals.len(),
{
    if signals.len() == 0 {
        started
    } else {
        dispatch_step(dispatch_run(started, signals.drop_last()), signals.last()).0
    }
}

/// How often a series of signals starts recall.
pub open spec fn recall_starts(started: bool, signals: Seq<BusSignal>) -> nat
    decreases signals.len(),
{
    if signals.len() == 0 {
        0
    } else {
        let before = dispatch_run(started, signals.drop_last());
        recall_starts(started, signals.drop_last()) + if dispatch_step(before, signals.last()).1
            == DispatchAction::StartRecall {
            1nat
        } else {
            0nat
        }
    }
}

/// Recall is started at most once, and never when it was ruled out or started
/// before; it was started exactly if the state says so.
pub proof fn law_recall_starts_at_most_once(started: bool, signals: Seq<BusSignal>)
    ensures
        recall_starts(started, signals) <= 1,
        started ==> recall_starts(started, signals) == 0,
        dispatch_run(started, signals) == (started || recall_starts(started, signals) == 1),
    decreases signals.len(),
{
    if signals.len() > 0 {
        law_recall_starts_at_most_once(started, signals.drop_last());
    }
}

/// Whether a signal says that the sources are ready.
pub open spec fn tells_readiness(signal: BusSignal) -> bool {
    signal is SourcesReady || signal == (BusSignal::Lagged { sources_ready: true })
}

/// Recall is started only by a signal that says that the sources are ready.
pub proof fn law_recall_waits_for_readiness(started: bool, signals: Seq<BusSignal>)
    requires
        recall_starts(started, signals) > 0,
    ensures
        exists|i: int| 0 <= i < signals.len() && tells_readiness(#[trigger] signals[i]),
    decreases signals.len(),
{
    if recall_starts(started, signals.drop_last()) > 0 {
        law_recall_waits_for_readiness(started, signals.drop_last());
        let i = choose|i: int|
            0 <= i < signals.drop_last().len() && tells_readiness(
                #[trigger] signals.drop_last()[i],
            );
        assert(signals[i] == signals.drop_last()[i]);
    } else {
        assert(tells_readiness(signals[signals.len() - 1]));
    }
}

/// Once the readiness marker came by, or its latch was seen after a lag,
/// recall has been started, whatever came before or after.
pub proof fn law_readiness_is_not_lost(started: bool, signals: Seq<BusSignal>, i: int)
    requires
        0 <= i < signals.len(),
        tells_readiness(signals[i]),
    ensures
        dispatch_run(started, signals),
    decreases signals.len(),
{
    if i < signals.len() - 1 {
        assert(signals.drop_last()[i] == signals[i]);
        law_readiness_is_not_lost(started, signals.drop_last(), i);
    }
}

// ---------------------------------------------------------------------------
// Wallpaper recall
// ---------------------------------------------------------------------------

/// How long a group waits after its first display before it is applied.
pub const SETTLE: u64 = 2_000_000_000;

/// How long to sleep when nothing is pending.
pub const IDLE_PARK: u64 = 3_600_000_000_000;

/// A display as the router shows it.
#[derive(Debug)]
pub struct DisplaySnapshot {
    pub id: u64,
    pub name: String,
    pub instance_id: Option<String>,
}

/// What the router reports.
#[derive(Debug)]
pub enum RouterEvent {
    DisplayUpsert(DisplaySnapshot),
    DisplaysReplace(Vec<DisplaySnapshot>),
    Other,
    Lagged,
    Closed,
}

/// What to do about a report.
#[derive(Debug)]
pub enum RecallAction {
    /// Record these displays.
    Record(Vec<DisplaySnapshot>),
    /// Ask the router for all displays and record those.
    RecordAll,
    Ignore,
    Stop,
}

/// The action is the one for this report.
pub open spec fn is_action_for(event: RouterEvent, action: RecallAction) -> bool {
    match event {
        RouterEvent::DisplayUpsert(s) => action matches RecallAction::Record(list) && list@
            == seq![s],
        RouterEvent::DisplaysReplace(all) => action == RecallAction::Record(all),
        RouterEvent::Other => action is Ignore,
        RouterEvent::Lagged => action is RecordAll,
        RouterEvent::Closed => action is Stop,
    }
}

/// Chooses what to do about a report.
pub fn on_router_event(event: RouterEvent) -> (action: RecallAction)
    ensures
        is_action_for(event, action),
{
    match event {
        RouterEvent::DisplayUpsert(s) => {
            let mut list: Vec<DisplaySnapshot> = Vec::new();
            list.push(s);
            RecallAction::Record(list)
        },
        RouterEvent::DisplaysReplace(all) => RecallAction::Record(all),
        RouterEvent::Other => RecallAction::Ignore,
        RouterEvent::Lagged => RecallAction::RecordAll,
        RouterEvent::Closed => RecallAction::Stop,
    }
}

/// The settings to look a new display's wallpaper up in.
#[derive(Debug, Clone, Copy, PartialEq, Eq, Structural)]
pub enum LookupSource {
    /// What was applied last, for displays present at startup.
    StartupLast,
    /// What is resolved for a display that arrives later.
    ResolvedLast,
}

/// A question to the settings.
#[derive(Debug)]
pub struct Lookup {
    pub key: String,
    pub source: LookupSource,
}

/// The settings key of a display: its instance id, else its name.
pub open spec fn settings_key(snap: &DisplaySnapshot) -> Seq<char> {
    match snap.instance_id {
        Some(id) => id@,
        None => snap.name@,
    }
}

/// What is asked about a display that shows up: nothing when it is known, and
/// else what the settings have under its key.
pub open spec fn is_question_about(
    snap: &DisplaySnapshot,
    startup: bool,
    known: bool,
    lookup: Option<Lookup>,
) -> bool {
    match lookup {
        Some(l) => !known && l.key@ == settings_key(snap) && l.source == if startup {
            LookupSource::StartupLast
        } else {
            LookupSource::ResolvedLast
        },
        None => known,
    }
}

/// Displays that wait for the same wallpaper.
#[derive(Debug)]
pub struct Group {
    pub deadline: u64,
    pub ids: Vec<u64>,
}

/// [`Group`] over sequences.
pub struct GroupView {
    pub deadline: u64,
    pub ids: Seq<u64>,
}

impl View for Group {
    type V = GroupView;

    open spec fn view(&self) -> GroupView {
        GroupView { deadline: self.deadline, ids: self.ids@ }
    }
}

/// One wallpaper to apply to a list of displays.
#[derive(Debug)]
pub struct Apply {
    pub wp_id: String,
    pub ids: Vec<u64>,
}

/// The displays that were ever noted, and the groups by wallpaper.
pub struct RecallView {
    pub seen: Set<u64>,
    pub pending: Map<Seq<char>, GroupView>,
}

/// What happens to wallpaper recall.
pub enum RecallEvent {
    /// A display shows up, with the wallpaper that the settings give for it.
    Arrive { id: u64, wallpaper: Option<Seq<char>>, now: u64 },
    /// The sleep ended.
    Tick { now: u64 },
}

impl RecallView {
    /// The groups after a display with the given wallpaper was recorded.
    pub open spec fn with_recorded(
        self,
        id: u64,
        wallpaper: Option<Seq<char>>,
        now: u64,
    ) -> Map<Seq<char>, GroupView> {
        match wallpaper {
            None => self.pending,
            Some(w) => if self.pending.contains_key(w) {
                let g = self.pending[w];
                self.pending.insert(w, GroupView { deadline: g.deadline, ids: g.ids.push(id) })
            } else {
                self.pending.insert(
                    w,
                    GroupView { deadline: (now + SETTLE) as u64, ids: seq![id] },
                )
            },
        }
    }

    /// The groups that are due at `now`.
    pub open spec fn due(self, now: u64) -> Map<Seq<char>, GroupView> {
        self.pending.restrict(
            Set::new(|w: Seq<char>| self.pending.contains_key(w) && self.pending[w].deadline <= now),
        )
    }

    /// The groups that are not due at `now`.
    pub open spec fn not_due(self, now: u64) -> Map<Seq<char>, GroupView> {
        self.pending.restrict(
            Set::new(|w: Seq<char>| self.pending.contains_key(w) && self.pending[w].deadline > now),
        )
    }

    /// When to wake up next: at the earliest deadline, or after a long park
    /// when nothing is pending.
    pub open spec fn wakes_at(self, now: u64, at: u64) -> bool {
        if self.pending.dom() =~= Set::<Seq<char>>::empty() {
            at == now + IDLE_PARK
        } else {
            &&& forall|w: Seq<char>| #[trigger]
                self.pending.contains_key(w) ==> at <= self.pending[w].deadline
            &&& exists|w: Seq<char>| #[trigger]
                self.pending.contains_key(w) && self.pending[w].deadline == at
        }
    }

    /// The next state, and the groups that are applied on the way to it.
    pub open spec fn step(self, event: RecallEvent) -> (RecallView, Map<Seq<char>, GroupView>) {
        match event {
            RecallEvent::Arrive { id, wallpaper, now } => (
                RecallView {
                    seen: self.seen.insert(id),
                    pending: if self.seen.contains(id) {
                        self.pending
                    } else {
                        self.with_recorded(id, wallpaper, now)
                    },
                },
                Map::empty(),
            ),
            RecallEvent::Tick { now } => (
                RecallView { seen: self.seen, pending: self.not_due(now) },
                self.due(now),
            ),
        }
    }
}

/// Long-lived watcher that groups arriving displays by wallpaper.
#[derive(Debug)]
pub struct WallpaperRecall {
    seen: HashSet<u64>,
    pending: Table<String, Group>,
}

/// The groups of a table.
pub open spec fn group_views(pending: Map<Seq<char>, Group>) -> Map<Seq<char>, GroupView> {
    Map::new(|w: Seq<char>| pending.contains_key(w), |w: Seq<char>| pending[w]@)
}

impl View for WallpaperRecall {
    type V = RecallView;

    closed spec fn view(&self) -> RecallView {
        RecallView { seen: self.seen@, pending: group_views(self.pending@) }
    }
}

/// `fired` lists the groups of `due`, each once.
pub open spec fn is_list_of(fired: Seq<Apply>, due: Map<Seq<char>, GroupView>) -> bool {
    &&& forall|i: int|
        0 <= i < fired.len() ==> due.contains_key((#[trigger] fired[i]).wp_id@)
            && due[fired[i].wp_id@].ids == fired[i].ids@
    &&& forall|i: int, j: int| 0 <= i < j < fired.len() ==> fired[i].wp_id@ != fired[j].wp_id@
    &&& forall|w: Seq<char>| #[trigger]
        due.contains_key(w) ==> exists|i: int| 0 <= i < fired.len() && fired[i].wp_id@ == w
}

impl WallpaperRecall {
    /// Each wallpaper has one group.
    pub closed spec fn wf(&self) -> bool {
        self.pending.wf()
    }

    pub fn new() -> (recall: Self)
        ensures
            recall.wf(),
            recall@.seen == Set::<u64>::empty(),
            recall@.pending == Map::<Seq<char>, GroupView>::empty(),
    {
        let recall = WallpaperRecall { seen: HashSet::new(), pending: Table::new() };
        assert(recall@.pending =~= Map::<Seq<char>, GroupView>::empty());
        recall
    }

    /// Notes a display. For one that was not seen before, returns the
    /// question whose answer is to be recorded.
    pub fn arrive(&mut self, snap: &DisplaySnapshot, startup: bool) -> (lookup: Option<Lookup>)
        requires
            old(self).wf(),
        ensures
            final(self).wf(),
            final(self)@.seen == old(self)@.seen.insert(snap.id),
            final(self)@.pending == old(self)@.pending,
            is_question_about(snap, startup, old(self)@.seen.contains(snap.id), lookup),
    {
        broadcast use vstd::std_specs::hash::group_hash_axioms;

        if !self.seen.insert(snap.id) {
            return None;
        }
        let key: String = match &snap.instance_id {
            Some(id) => id.clone(),
            None => snap.name.clone(),
        };
        let source: LookupSource = if startup {
            LookupSource::StartupLast
        } else {
            LookupSource::ResolvedLast
        };
        Some(Lookup { key, source })
    }

    /// Records a display under the wallpaper the settings gave for it. The
    /// first display of a group sets its deadline.
    pub fn record(&mut self, id: u64, wallpaper: Option<String>, now: u64)
        requires
            old(self).wf(),
            wallpaper matches Some(w) ==> old(self)@.pending.contains_key(w@) || now + SETTLE
                <= u64::MAX,
        ensures
            final(self).wf(),
            final(self)@.seen == old(self)@.seen,
            final(self)@.pending == old(self)@.with_recorded(
                id,
                match wallpaper {
                    Some(w) => Some(w@),
                    None => None,
                },
                now,
            ),
    {
        let wp_id: String = match wallpaper {
            Some(w) => w,
            None => {
                return ;
            },
        };
        let group: Group = match self.pending.remove(&wp_id) {
            Some(g) => {
                let mut ids: Vec<u64> = g.ids;
                ids.push(id);
                Group { deadline: g.deadline, ids }
            },
            None => {
                let mut ids: Vec<u64> = Vec::new();
                ids.push(id);
                assert(ids@ =~= seq![id]);
                Group { deadline: now + SETTLE, ids }
            },
        };
        let ghost w = wp_id@;
        self.pending.insert(wp_id, group);
        assert(self@.pending =~= old(self)@.with_recorded(id, Some(w), now));
    }

    /// Tells when to wake up next.
    pub fn next_deadline(&self, now: u64) -> (at: u64)
        requires
            self.wf(),
            self@.pending.dom() =~= Set::<Seq<char>>::empty() ==> now + IDLE_PARK <= u64::MAX,
        ensures
            self@.wakes_at(now, at),
    {
        let n: usize = self.pending.entries.len();
        if n == 0 {
            assert forall|w: Seq<char>| !self@.pending.contains_key(w) by {
                if self@.pending.contains_key(w) {
                    let k = self.pending.lemma_key(w);
                }
            }
            return now + IDLE_PARK;
        }
        let mut at: u64 = self.pending.entries[0].1.deadline;
        let mut i: usize = 1;
        let ghost mut best: int = 0;
        while i < n
            invariant
                self.wf(),
                1 <= i <= n,
                n == self.pending.entries@.len(),
                0 <= best < i,
                self.pending.entries@[best].1.deadline == at,
                forall|k: int|
                    0 <= k < i ==> at <= (#[trigger] self.pending.entries@[k]).1.deadline,
            decreases n - i,
        {
            let d: u64 = self.pending.entries[i].1.deadline;
            if d < at {
                at = d;
                proof {
                    best = i as int;
                }
            }
            i += 1;
        }
        proof {
            self.pending.lemma_entry(best);
            assert(self@.pending.contains_key(self.pending.entries@[best].0@));
            assert forall|w: Seq<char>| #[trigger] self@.pending.contains_key(w) implies at
                <= self@.pending[w].deadline by {
                let k = self.pending.lemma_key(w);
            }
        }
        at
    }

    /// Takes out the groups that are due at `now`, each to be applied once.
    pub fn fire(&mut self, now: u64) -> (fired: Vec<Apply>)
        requires
            old(self).wf(),
        ensures
            final(self).wf(),
            final(self)@ == old(self)@.step(RecallEvent::Tick { now }).0,
            is_list_of(fired@, old(self)@.step(RecallEvent::Tick { now }).1),
    {
        let ghost start = self@;
        let mut due: Vec<String> = Vec::new();
        let mut i: usize = 0;
        let ghost table = self.pending;
        let ghost mut places: Seq<int> = Seq::empty();
        while i < self.pending.entries.len()
            invariant
                self.pending == table,
                table.wf(),
                i <= table.entries@.len(),
                places.len() == due@.len(),
                forall|k: int| 0 <= k < places.len() ==> 0 <= #[trigger] places[k] < i,
                forall|k: int|
                    0 <= k < places.len() ==> (#[trigger] due@[k])@
                        == table.entries@[places[k]].0@,
                forall|k: int|
                    0 <= k < places.len() ==> table.entries@[#[trigger] places[k]].1.deadline
                        <= now,
                forall|k: int, l: int|
                    0 <= k < l < places.len() ==> #[trigger] places[k] < #[trigger] places[l],
                forall|m: int|
                    0 <= m < i && (#[trigger] table.entries@[m]).1.deadline <= now
                        ==> places.contains(m),
            decreases table.entries@.len() - i,
        {
            if self.pending.entries[i].1.deadline <= now {
                due.push(self.pending.entries[i].0.clone());
                proof {
                    let earlier = places;
                    places = places.push(i as int);
                    assert forall|m: int|
                        0 <= m < i + 1 && (#[trigger] table.entries@[m]).1.deadline
                            <= now implies places.contains(m) by {
                        if m < i {
                            let k = earlier.index_of(m);
                            assert(places[k] == m);
                        } else {
                            assert(places[earlier.len() as int] == m);
                        }
                    }
                }
            }
            i += 1;
        }
        proof {
            assert forall|k: int| 0 <= k < due@.len() implies start.due(now).contains_key(
                (#[trigger] due@[k])@,
            ) by {
                table.lemma_entry(places[k]);
            }
            assert forall|w: Seq<char>| #[trigger] start.due(now).contains_key(w) implies exists|
                k: int,
            |
                0 <= k < due@.len() && due@[k]@ == w by {
                let m = table.lemma_key(w);
                let k = places.index_of(m);
                assert(places[k] == m && due@[k]@ == w);
            }
            assert forall|k: int, l: int| 0 <= k < l < due@.len() implies due@[k]@ != due@[l]@ by {
                assert(places[k] < places[l]);
            }
        }
        let mut fired: Vec<Apply> = Vec::new();
        let mut j: usize = 0;
        while j < due.len()
            invariant
                j <= due@.len(),
                self.wf(),
                self.seen@ == start.seen,
                forall|k: int|
                    0 <= k < due@.len() ==> start.due(now).contains_key((#[trigger] due@[k])@),
                forall|k: int, l: int| 0 <= k < l < due@.len() ==> due@[k]@ != due@[l]@,
                forall|w: Seq<char>| #[trigger]
                    self@.pending.contains_key(w) <==> start.pending.contains_key(w) && !exists|
                        k: int,
                    |
                        0 <= k < j && due@[k]@ == w,
                forall|w: Seq<char>| #[trigger]
                    self@.pending.contains_key(w) ==> self@.pending[w] == start.pending[w],
                fired@.len() == j,
                forall|k: int|
                    0 <= k < j ==> (#[trigger] fired@[k]).wp_id@ == due@[k]@ && fired@[k].ids@
                        == start.pending[due@[k]@].ids,
            decreases due@.len() - j,
        {
            let ghost before = self@;
            let ghost name = due@[j as int]@;
            assert(start.due(now).contains_key(name));
            assert(before.pending.contains_key(name)) by {
                assert(!exists|k: int| 0 <= k < j && due@[k]@ == name);
            }
            match self.pending.remove(&due[j]) {
                Some(g) => {
                    fired.push(Apply { wp_id: due[j].clone(), ids: g.ids });
                },
                None => {},
            }
            assert(self@.pending =~= before.pending.remove(name));
            proof {
                assert forall|w: Seq<char>| #[trigger]
                    self@.pending.contains_key(w) <==> start.pending.contains_key(w) && !exists|
                        k: int,
                    |
                        0 <= k < j + 1 && due@[k]@ == w by {
                    assert(self@.pending.contains_key(w) <==> before.pending.contains_key(w) && w
                        != name);
                    if exists|k: int| 0 <= k < j + 1 && due@[k]@ == w {
                        let k = choose|k: int| 0 <= k < j + 1 && due@[k]@ == w;
                        if k < j {
                            assert(!before.pending.contains_key(w));
                        }
                    }
                    if exists|k: int| 0 <= k < j && due@[k]@ == w {
                        let k = choose|k: int| 0 <= k < j && due@[k]@ == w;
                        assert(0 <= k < j + 1 && due@[k]@ == w);
                    }
                    if w == name {
                        assert(0 <= j < j + 1 && due@[j as int]@ == w);
                    }
                }
            }
            j += 1;
        }
        proof {
            assert(self@.pending =~= start.not_due(now)) by {
                assert forall|w: Seq<char>| self@.pending.contains_key(w)
                    == start.not_due(now).contains_key(w) by {
                    if start.pending.contains_key(w) {
                        if start.pending[w].deadline <= now {
                            assert(start.due(now).contains_key(w));
                        } else if exists|k: int| 0 <= k < j && due@[k]@ == w {
                            let k = choose|k: int| 0 <= k < j && due@[k]@ == w;
                            assert(start.due(now).contains_key(due@[k]@));
                        }
                    }
                }
            }
            assert forall|w: Seq<char>| #[trigger] start.due(now).contains_key(w) implies exists|
                i: int,
            |
                0 <= i < fired@.len() && fired@[i].wp_id@ == w by {
                let k = choose|k: int| 0 <= k < due@.len() && due@[k]@ == w;
                assert(fired@[k].wp_id@ == w);
            }
            assert forall|a: int, b: int| 0 <= a < b < fired@.len() implies fired@[a].wp_id@
                != fired@[b].wp_id@ by {
                assert(due@[a]@ != due@[b]@);
            }
            assert forall|k: int| 0 <= k < fired@.len() implies start.due(now).contains_key(
                (#[trigger] fired@[k]).wp_id@,
            ) && start.due(now)[fired@[k].wp_id@].ids == fired@[k].ids@ by {
                assert(start.due(now).contains_key(due@[k]@));
            }
        }
        fired
    }
}

// ---------------------------------------------------------------------------
// Laws of wallpaper recall
// ---------------------------------------------------------------------------

/// Whether a display is in one of the groups.
pub open spec fn in_some_group(groups: Map<Seq<char>, GroupView>, id: u64) -> bool {
    exists|w: Seq<char>| #[trigger] groups.contains_key(w) && groups[w].ids.contains(id)
}

impl RecallView {
    /// No group is empty; every display that waits was seen, and it waits at
    /// one place only.
    pub open spec fn sound(self) -> bool {
        &&& forall|w: Seq<char>| #[trigger]
            self.pending.contains_key(w) ==> self.pending[w].ids.len() > 0
        &&& forall|w: Seq<char>, i: int|
            self.pending.contains_key(w) && 0 <= i < self.pending[w].ids.len()
                ==> self.seen.contains(#[trigger] self.pending[w].ids[i])
        &&& forall|w: Seq<char>, i: int, x: Seq<char>, j: int|
            self.pending.contains_key(w) && 0 <= i < self.pending[w].ids.len()
                && self.pending.contains_key(x) && 0 <= j < self.pending[x].ids.len()
                && #[trigger] self.pending[w].ids[i] == #[trigger] self.pending[x].ids[j] ==> w == x
                && i == j
    }

    /// The state after a series of events.
    pub open spec fn run(self, events: Seq<RecallEvent>) -> RecallView
        decreases events.len(),
    {
        if events.len() == 0 {
            self
        } else {
            self.run(events.drop_last()).step(events.last()).0
        }
    }

    /// Whether a series of events applied a wallpaper to a display.
    pub open spec fn has_fired(self, events: Seq<RecallEvent>, id: u64) -> bool
        decreases events.len(),
    {
        events.len() > 0 && {
            ||| self.has_fired(events.drop_last(), id)
            ||| in_some_group(self.run(events.drop_last()).step(events.last()).1, id)
        }
    }
}

/// A recall that has just been set up is sound.
pub proof fn law_start_is_sound(v: RecallView)
    requires
        v.pending == Map::<Seq<char>, GroupView>::empty(),
    ensures
        v.sound(),
{
}

/// Every event keeps the groups sound.
pub proof fn law_groups_stay_sound(v: RecallView, event: RecallEvent)
    requires
        v.sound(),
    ensures
        v.step(event).0.sound(),
{
    let next = v.step(event).0;
    match event {
        RecallEvent::Arrive { id, wallpaper, now } => {
            if !v.seen.contains(id) && wallpaper is Some {
                let g = wallpaper->0;
                assert forall|w: Seq<char>, i: int|
                    next.pending.contains_key(w) && 0 <= i
                        < next.pending[w].ids.len() implies next.seen.contains(
                    #[trigger] next.pending[w].ids[i],
                ) && (next.pending[w].ids[i] == id || v.pending.contains_key(w) && i
                    < v.pending[w].ids.len() && next.pending[w].ids[i] == v.pending[w].ids[i]) by {
                    if w == g && v.pending.contains_key(w) && i < v.pending[w].ids.len() {
                        assert(next.pending[w].ids[i] == v.pending[w].ids[i]);
                    }
                }
                assert forall|w: Seq<char>, i: int, x: Seq<char>, j: int|
                    next.pending.contains_key(w) && 0 <= i < next.pending[w].ids.len()
                        && next.pending.contains_key(x) && 0 <= j < next.pending[x].ids.len()
                        && #[trigger] next.pending[w].ids[i]
                        == #[trigger] next.pending[x].ids[j] implies w == x && i == j by {
                    let a = next.pending[w].ids[i];
                    if a == id {
                        if w != g || i < next.pending[w].ids.len() - 1 {
                            assert(v.seen.contains(v.pending[w].ids[i]));
                        }
                        if x != g || j < next.pending[x].ids.len() - 1 {
                            assert(v.seen.contains(v.pending[x].ids[j]));
                        }
                    } else {
                        assert(v.pending[w].ids[i] == v.pending[x].ids[j]);
                    }
                }
            }
        },
        RecallEvent::Tick { now } => {
            assert forall|w: Seq<char>| #[trigger] next.pending.contains_key(w) implies
                v.pending.contains_key(w) && next.pending[w] == v.pending[w] by {}
        },
    }
}

/// No wallpaper is applied to nothing.
pub proof fn law_applied_groups_are_not_empty(v: RecallView, event: RecallEvent, w: Seq<char>)
    requires
        v.sound(),
        v.step(event).1.contains_key(w),
    ensures
        v.step(event).1[w].ids.len() > 0,
{
}

/// What was applied to a display, with all that goes before it: the display
/// stays seen and waits no more.
proof fn lemma_fired_is_over(v: RecallView, events: Seq<RecallEvent>, id: u64)
    requires
        v.sound(),
    ensures
        v.run(events).sound(),
        v.has_fired(events, id) ==> v.run(events).seen.contains(id) && !in_some_group(
            v.run(events).pending,
            id,
        ),
    decreases events.len(),
{
    if events.len() > 0 {
        let before = v.run(events.drop_last());
        let after = v.run(events);
        lemma_fired_is_over(v, events.drop_last(), id);
        if v.has_fired(events, id) {
            if !v.has_fired(events.drop_last(), id) {
                let due = before.step(events.last()).1;
                let w = choose|w: Seq<char>| #[trigger]
                    due.contains_key(w) && due[w].ids.contains(id);
                let i = before.pending[w].ids.index_of(id);
                assert(before.pending[w].ids[i] == id);
                if in_some_group(after.pending, id) {
                    let x = choose|x: Seq<char>| #[trigger]
                        after.pending.contains_key(x) && after.pending[x].ids.contains(id);
                    let j = before.pending[x].ids.index_of(id);
                    assert(before.pending[x].ids[j] == id);
                }
            }
        }
    }
}

/// A display gets a recalled wallpaper at most once: one that an event
/// applies to was not applied to before.
pub proof fn law_display_is_applied_at_most_once(
    v: RecallView,
    events: Seq<RecallEvent>,
    id: u64,
)
    requires
        v.sound(),
        events.len() > 0,
        in_some_group(v.run(events.drop_last()).step(events.last()).1, id),
    ensures
        !v.has_fired(events.drop_last(), id),
{
    let before = v.run(events.drop_last());
    lemma_fired_is_over(v, events.drop_last(), id);
    let due = before.step(events.last()).1;
    let w = choose|w: Seq<char>| #[trigger] due.contains_key(w) && due[w].ids.contains(id);
    assert(before.pending.contains_key(w) && before.pending[w].ids.contains(id));
}

/// A display that waits goes on waiting in its group, or is applied with it.
pub proof fn law_waiting_display_is_not_forgotten(
    v: RecallView,
    event: RecallEvent,
    w: Seq<char>,
    id: u64,
)
    requires
        v.pending.contains_key(w),
        v.pending[w].ids.contains(id),
    ensures
        ({
            let (next, fired) = v.step(event);
            ||| next.pending.contains_key(w) && next.pending[w].ids.contains(id)
            ||| fired.contains_key(w) && fired[w].ids.contains(id)
        }),
{
    let i = v.pending[w].ids.index_of(id);
    let (next, fired) = v.step(event);
    if next.pending.contains_key(w) {
        assert(next.pending[w].ids[i] == id);
    }
}

/// Displays that arrive for the same wallpaper before its group is due share
/// the group, and the deadline stays the one the first of them set.
pub proof fn law_group_keeps_its_deadline(v: RecallView, events: Seq<RecallEvent>, w: Seq<char>)
    requires
        v.pending.contains_key(w),
        forall|i: int|
            0 <= i < events.len() ==> (#[trigger] events[i] matches RecallEvent::Tick { now } ==> now
                < v.pending[w].deadline),
    ensures
        v.run(events).pending.contains_key(w),
        v.run(events).pending[w].deadline == v.pending[w].deadline,
        v.pending[w].ids.is_prefix_of(v.run(events).pending[w].ids),
    decreases events.len(),
{
    if events.len() > 0 {
        assert forall|i: int| 0 <= i < events.drop_last().len() implies (
        #[trigger] events.drop_last()[i] matches RecallEvent::Tick { now } ==> now
            < v.pending[w].deadline) by {
            assert(events.drop_last()[i] == events[i]);
        }
        law_group_keeps_its_deadline(v, events.drop_last(), w);
        assert(events.last() == events[events.len() - 1]);
    }
}

/// A new display joins the group of its wallpaper; the first one of a group
/// has it wait for the settle window.
pub proof fn law_arrival_joins_its_group(v: RecallView, id: u64, w: Seq<char>, now: u64)
    requires
        !v.seen.contains(id),
        now + SETTLE <= u64::MAX,
    ensures
        ({
            let next = v.step(RecallEvent::Arrive { id, wallpaper: Some(w), now }).0;
            &&& next.pending.contains_key(w)
            &&& next.pending[w].ids.last() == id
            &&& next.pending[w].deadline == if v.pending.contains_key(w) {
                v.pending[w].deadline as int
            } else {
                now + SETTLE
            }
        }),
{
}

/// A group that is due is applied once, with all its displays, and is gone
/// afterwards.
pub proof fn law_due_group_is_applied(v: RecallView, w: Seq<char>, now: u64)
    requires
        v.pending.contains_key(w),
    ensures
        ({
            let (next, fired) = v.step(RecallEvent::Tick { now });
            &&& fired.contains_key(w) <==> v.pending[w].deadline <= now
            &&& fired.contains_key(w) ==> fired[w].ids == v.pending[w].ids
            &&& next.pending.contains_key(w) <==> now < v.pending[w].deadline
        }),
{
}

/// Noting a display and then recording the wallpaper that the settings give
/// for it is its arrival.
pub proof fn law_arrival_is_noting_then_recording(
    v: RecallView,
    noted: RecallView,
    recorded: RecallView,
    id: u64,
    wallpaper: Option<Seq<char>>,
    now: u64,
)
    requires
        !v.seen.contains(id),
        noted.seen == v.seen.insert(id),
        noted.pending == v.pending,
        recorded.seen == noted.seen,
        recorded.pending == noted.with_recorded(id, wallpaper, now),
    ensures
        recorded == v.step(RecallEvent::Arrive { id, wallpaper, now }).0,
{
}

/// A display that comes up again changes nothing.
pub proof fn law_known_display_is_ignored(
    v: RecallView,
    id: u64,
    wallpaper: Option<Seq<char>>,
    now: u64,
)
    requires
        v.seen.contains(id),
    ensures
        v.step(RecallEvent::Arrive { id, wallpaper, now }).0 == v,
{
    assert(v.seen.insert(id) =~= v.seen);
}

impl RecallView {
    /// Event `i` is the first arrival of a display, with the given wallpaper.
    pub open spec fn first_arrival(
        self,
        events: Seq<RecallEvent>,
        i: int,
        id: u64,
        w: Seq<char>,
    ) -> bool {
        &&& 0 <= i < events.len()
        &&& events[i] is Arrive
        &&& events[i]->id == id
        &&& events[i]->wallpaper == Some(w)
        &&& !self.run(events.take(i)).seen.contains(id)
    }

    /// A display has arrived for the first time with the given wallpaper.
    pub open spec fn arrived_with(self, events: Seq<RecallEvent>, id: u64, w: Seq<char>) -> bool {
        exists|i: int| #[trigger] self.first_arrival(events, i, id, w)
    }

    /// A display has arrived for the first time with the given wallpaper, and
    /// the settle window after that ends at `deadline`.
    pub open spec fn settles_at(
        self,
        events: Seq<RecallEvent>,
        id: u64,
        w: Seq<char>,
        deadline: int,
    ) -> bool {
        exists|i: int| #[trigger]
            self.first_arrival(events, i, id, w) && events[i]->Arrive_now + SETTLE == deadline
    }

    /// A group comes from first arrivals with its wallpaper, and its deadline
    /// is the settle window after that of its first display.
    pub open spec fn group_has_origin(
        self,
        events: Seq<RecallEvent>,
        w: Seq<char>,
        group: GroupView,
    ) -> bool {
        &&& forall|j: int|
            0 <= j < group.ids.len() ==> self.arrived_with(events, #[trigger] group.ids[j], w)
        &&& self.settles_at(events, group.ids[0], w, group.deadline as int)
    }
}

/// Arrivals come early enough on the clock for a deadline.
pub open spec fn clock_in_range(events: Seq<RecallEvent>) -> bool {
    forall|i: int|
        0 <= i < events.len() && events[i] is Arrive ==> (#[trigger] events[i])->Arrive_now + SETTLE
            <= u64::MAX
}

proof fn lemma_origin_stays(
    v: RecallView,
    events: Seq<RecallEvent>,
    w: Seq<char>,
    group: GroupView,
)
    requires
        events.len() > 0,
        v.group_has_origin(events.drop_last(), w, group),
    ensures
        v.group_has_origin(events, w, group),
{
    let head = events.drop_last();
    assert forall|i: int, id: u64| #[trigger] v.first_arrival(head, i, id, w) implies
        v.first_arrival(events, i, id, w) && events[i] == head[i] by {
        assert(head.take(i) =~= events.take(i));
    }
    assert forall|j: int| 0 <= j < group.ids.len() implies v.arrived_with(
        events,
        #[trigger] group.ids[j],
        w,
    ) by {
        assert(v.arrived_with(head, group.ids[j], w));
    }
}

proof fn lemma_groups_have_origins(v: RecallView, events: Seq<RecallEvent>, w: Seq<char>)
    requires
        v.seen == Set::<u64>::empty(),
        v.pending == Map::<Seq<char>, GroupView>::empty(),
        clock_in_range(events),
        v.run(events).pending.contains_key(w),
    ensures
        v.run(events).pending[w].ids.len() > 0,
        v.group_has_origin(events, w, v.run(events).pending[w]),
    decreases events.len(),
{
    let head = events.drop_last();
    let last = events.len() - 1;
    let before = v.run(head);
    let group = v.run(events).pending[w];
    assert(clock_in_range(head)) by {
        assert forall|i: int| 0 <= i < head.len() && head[i] is Arrive implies (
        #[trigger] head[i])->Arrive_now + SETTLE <= u64::MAX by {
            assert(head[i] == events[i]);
        }
    }
    if before.pending.contains_key(w) {
        lemma_groups_have_origins(v, head, w);
        lemma_origin_stays(v, events, w, before.pending[w]);
    }
    if !before.pending.contains_key(w) || group != before.pending[w] {
        assert(events[last] == events.last());
        assert(events.take(last) =~= head);
        let id = events[last]->id;
        assert(v.first_arrival(events, last, id, w));
        if before.pending.contains_key(w) {
            let old_group = before.pending[w];
            assert(group.ids == old_group.ids.push(id));
            assert forall|j: int| 0 <= j < group.ids.len() implies v.arrived_with(
                events,
                #[trigger] group.ids[j],
                w,
            ) by {
                if j < old_group.ids.len() {
                    assert(group.ids[j] == old_group.ids[j]);
                }
            }
            assert(group.ids[0] == old_group.ids[0]);
        } else {
            assert(group.ids == seq![id]);
            assert(events[last]->Arrive_now + SETTLE <= u64::MAX);
            assert(v.settles_at(events, id, w, group.deadline as int));
        }
    }
}

/// Of any series of events from an empty state: every display of a group that
/// is applied had arrived for the first time with the group's wallpaper, and
/// the group is applied no earlier than the settle window after the arrival of
/// its first display.
pub proof fn law_applied_displays_arrived_and_settled(
    v: RecallView,
    events: Seq<RecallEvent>,
    w: Seq<char>,
)
    requires
        v.seen == Set::<u64>::empty(),
        v.pending == Map::<Seq<char>, GroupView>::empty(),
        clock_in_range(events),
        events.len() > 0,
        v.run(events.drop_last()).step(events.last()).1.contains_key(w),
    ensures
        ({
            let group = v.run(events.drop_last()).step(events.last()).1[w];
            &&& events.last() is Tick
            &&& group.ids.len() > 0
            &&& forall|j: int|
                0 <= j < group.ids.len() ==> v.arrived_with(
                    events.drop_last(),
                    #[trigger] group.ids[j],
                    w,
                )
            &&& v.settles_at(events.drop_last(), group.ids[0], w, group.deadline as int)
            &&& group.deadline <= events.last()->Tick_now
        }),
{
    let head = events.drop_last();
    assert(clock_in_range(head)) by {
        assert forall|i: int| 0 <= i < head.len() && head[i] is Arrive implies (
        #[trigger] head[i])->Arrive_now + SETTLE <= u64::MAX by {
            assert(head[i] == events[i]);
        }
    }
    lemma_groups_have_origins(v, head, w);
}

// ---------------------------------------------------------------------------
// Laws on what is asked for
// ---------------------------------------------------------------------------

/// From the beginning on, recall is started exactly if the last wallpaper is to
/// be restored and the sources were ready then or were told to be ready later;
/// and it is started once.
pub proof fn law_recall_starts_exactly_if_wanted_and_ready(
    restore_last: bool,
    sources_ready: bool,
    signals: Seq<BusSignal>,
)
    ensures
        ({
            let first = first_dispatch(restore_last, sources_ready);
            let starts = recall_starts(first.0, signals) + if first.1
                == DispatchAction::StartRecall {
                1nat
            } else {
                0nat
            };
            let told = exists|i: int| 0 <= i < signals.len() && tells_readiness(#[trigger] signals[i]);
            &&& starts == if restore_last && (sources_ready || told) {
                1nat
            } else {
                0nat
            }
            &&& first.1 != DispatchAction::Stop
            &&& first.1 == DispatchAction::StartRecall <==> restore_last && sources_ready
        }),
{
    let first = first_dispatch(restore_last, sources_ready);
    law_recall_starts_at_most_once(first.0, signals);
    if exists|i: int| 0 <= i < signals.len() && tells_readiness(#[trigger] signals[i]) {
        let i = choose|i: int| 0 <= i < signals.len() && tells_readiness(#[trigger] signals[i]);
        law_readiness_is_not_lost(first.0, signals, i);
    }
    if recall_starts(first.0, signals) > 0 {
        law_recall_waits_for_readiness(first.0, signals);
    }
}

/// A signal starts recall exactly if it is the first to tell of readiness, and
/// the dispatcher stops exactly when the bus is gone.
pub proof fn law_first_readiness_starts_recall(started: bool, signal: BusSignal)
    ensures
        dispatch_step(started, signal).1 == DispatchAction::StartRecall <==> !started
            && tells_readiness(signal),
        dispatch_step(started, signal).1 == DispatchAction::Stop <==> signal is Closed,
        dispatch_step(started, signal).0 <==> started || tells_readiness(signal),
{
}

/// Of a report all displays are recorded, in their order; after missed reports
/// all are asked for; nothing else is recorded.
pub proof fn law_reported_displays_are_recorded(event: RouterEvent, action: RecallAction)
    requires
        is_action_for(event, action),
    ensures
        action is Record <==> event is DisplayUpsert || event is DisplaysReplace,
        event matches RouterEvent::DisplayUpsert(s) ==> action->0@.len() == 1 && action->0@[0] == s,
        event matches RouterEvent::DisplaysReplace(all) ==> action->0@.len() == all@.len()
            && forall|i: int| 0 <= i < all@.len() ==> #[trigger] action->0@[i] == all@[i],
        action is RecordAll <==> event is Lagged,
        action is Ignore <==> event is Other,
        action is Stop <==> event is Closed,
{
}

/// The settings are asked exactly about displays that are new: under the
/// instance id where there is one and else under the name, for what was applied
/// last at startup and for what is resolved later.
pub proof fn law_settings_are_asked_about_new_displays(
    snap: &DisplaySnapshot,
    startup: bool,
    known: bool,
    lookup: Option<Lookup>,
)
    requires
        is_question_about(snap, startup, known, lookup),
    ensures
        lookup is Some <==> !known,
        lookup is Some && snap.instance_id is Some ==> lookup->0.key@ == snap.instance_id->0@,
        lookup is Some && snap.instance_id is None ==> lookup->0.key@ == snap.name@,
        lookup is Some ==> (lookup->0.source == LookupSource::StartupLast <==> startup),
        lookup is Some ==> (lookup->0.source == LookupSource::ResolvedLast <==> !startup),
{
}

/// An arrival concerns the display's own group alone: others, and those that
/// waited in the group before, stay as they are. A display without a wallpaper
/// is noted and joins none.
pub proof fn law_arrival_leaves_other_groups_alone(
    v: RecallView,
    id: u64,
    wallpaper: Option<Seq<char>>,
    now: u64,
    w: Seq<char>,
)
    ensures
        ({
            let (next, fired) = v.step(RecallEvent::Arrive { id, wallpaper, now });
            &&& forall|x: u64| #[trigger] next.seen.contains(x) <==> v.seen.contains(x) || x == id
            &&& !fired.contains_key(w)
            &&& wallpaper != Some(w) || v.seen.contains(id) ==> next.pending.contains_key(w)
                == v.pending.contains_key(w) && (v.pending.contains_key(w) ==> next.pending[w]
                == v.pending[w])
            &&& wallpaper == Some(w) && !v.seen.contains(id) && v.pending.contains_key(w)
                ==> next.pending[w].ids == v.pending[w].ids + seq![id] && next.pending[w].deadline
                == v.pending[w].deadline
            &&& wallpaper == Some(w) && !v.seen.contains(id) && !v.pending.contains_key(w) && now
                + 2_000_000_000 <= u64::MAX ==> next.pending.contains_key(w)
                && next.pending[w].ids == seq![id] && next.pending[w].deadline == now + 2_000_000_000
        }),
{
    if v.pending.contains_key(w) {
        assert(v.pending[w].ids.push(id) =~= v.pending[w].ids + seq![id]);
    }
}

/// A tick applies a group exactly if its deadline has come; the others wait on
/// unchanged, and who was seen stays seen.
pub proof fn law_tick_splits_the_groups(v: RecallView, now: u64, w: Seq<char>)
    ensures
        ({
            let (next, fired) = v.step(RecallEvent::Tick { now });
            &&& next.seen == v.seen
            &&& fired.contains_key(w) <==> v.pending.contains_key(w) && v.pending[w].deadline <= now
            &&& next.pending.contains_key(w) <==> v.pending.contains_key(w) && v.pending[w].deadline
                > now
            &&& fired.contains_key(w) ==> fired[w] == v.pending[w]
            &&& next.pending.contains_key(w) ==> next.pending[w] == v.pending[w]
        }),
{
}

/// A group settles for two seconds, and the park is an hour long.
pub proof fn law_spans_of_time()
    ensures
        SETTLE == 2 * 1_000_000_000,
        IDLE_PARK == 60 * 60 * 1_000_000_000,
{
}

/// Every group that is due is applied: one list entry for each, with its
/// displays in the order of their arrival, and no entry for anything else.
pub proof fn law_list_holds_each_due_group(
    fired: Seq<Apply>,
    due: Map<Seq<char>, GroupView>,
    w: Seq<char>,
)
    requires
        is_list_of(fired, due),
    ensures
        due.contains_key(w) <==> exists|i: int| 0 <= i < fired.len() && (#[trigger] fired[i]).wp_id@ == w,
        forall|i: int|
            0 <= i < fired.len() && (#[trigger] fired[i]).wp_id@ == w ==> fired[i].ids@ == due[w].ids,
        forall|i: int, j: int|
            0 <= i < fired.len() && 0 <= j < fired.len() && (#[trigger] fired[i]).wp_id@ == (
            #[trigger] fired[j]).wp_id@ ==> i == j,
{
    if due.contains_key(w) {
        let i = choose|i: int| 0 <= i < fired.len() && fired[i].wp_id@ == w;
        assert(fired[i].wp_id@ == w);
    }
    assert forall|i: int, j: int|
        0 <= i < fired.len() && 0 <= j < fired.len() && (#[trigger] fired[i]).wp_id@ == (
        #[trigger] fired[j]).wp_id@ implies i == j by {
        if i < j {
            assert(fired[i].wp_id@ != fired[j].wp_id@);
        } else if j < i {
            assert(fired[j].wp_id@ != fired[i].wp_id@);
        }
    }
}

/// Groups are seen as they are.
pub proof fn law_groups_are_seen_as_they_are(pending: Map<Seq<char>, Group>, w: Seq<char>)
    ensures
        group_views(pending).contains_key(w) <==> pending.contains_key(w),
        pending.contains_key(w) ==> group_views(pending)[w].deadline == pending[w].deadline
            && group_views(pending)[w].ids == pending[w].ids@,
{
}

/// Whoever sleeps until then misses no deadline and wakes up for one: before it
/// nothing is due, and at it something is. With nothing pending the sleep is an
/// hour long.
pub proof fn law_wakes_up_for_the_first_deadline(v: RecallView, now: u64, at: u64, t: u64)
    requires
        v.wakes_at(now, at),
    ensures
        ({
            let none = forall|w: Seq<char>| !(#[trigger] v.pending.contains_key(w));
            &&& none ==> at == now + 3600 * 1_000_000_000
            &&& !none ==> ((exists|w: Seq<char>| #[trigger]
                v.step(RecallEvent::Tick { now: t }).1.contains_key(w)) <==> t >= at)
        }),
{
    let none = forall|w: Seq<char>| !(#[trigger] v.pending.contains_key(w));
    if none {
        assert(v.pending.dom() =~= Set::<Seq<char>>::empty());
    } else {
        let x = choose|w: Seq<char>| #[trigger] v.pending.contains_key(w);
        assert(v.pending.dom().contains(x));
        let fired = v.step(RecallEvent::Tick { now: t }).1;
        if t >= at {
            let w = choose|w: Seq<char>| #[trigger]
                v.pending.contains_key(w) && v.pending[w].deadline == at;
            assert(fired.contains_key(w));
        }
        if exists|w: Seq<char>| #[trigger] fired.contains_key(w) {
            let w = choose|w: Seq<char>| #[trigger] fired.contains_key(w);
            assert(v.pending.contains_key(w));
        }
    }
}

} // verus!
