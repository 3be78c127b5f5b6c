//! MPRIS-backed media playback monitor.
//!
//! The D-Bus watcher sits behind a small playback-state registry, so that
//! another backend can feed the same aggregate "anything playing" signal to
//! the router. [`MediaMonitor`] decides what the watcher does next; it never
//! talks to the bus itself.
use crate::table::Table;
use crate::text;
use vstd::prelude::*;

verus! {

/// What every MPRIS player's bus name begins with.
pub const MPRIS_PREFIX: &'static str = "org.mpris.MediaPlayer2.";

/// MPRIS playback statuses relevant to pause decisions.
#[derive(Debug, Clone, Copy, PartialEq, Eq, Structural)]
pub enum PlaybackStatus {
    Playing,
    Paused,
    Stopped,
}

impl PlaybackStatus {
    /// The status that a player's own word stands for.
    pub open spec fn of_word(raw: Seq<char>) -> PlaybackStatus {
        if raw == "Playing"@ {
            PlaybackStatus::Playing
        } else if raw == "Paused"@ {
            PlaybackStatus::Paused
        } else {
            PlaybackStatus::Stopped
        }
    }

    /// Reads a player's own word; anything unknown counts as stopped.
    pub fn from_mpris(raw: &str) -> (status: Self)
        ensures
            status == PlaybackStatus::of_word(raw@),
    {
        if text::same_text(raw, "Playing") {
            PlaybackStatus::Playing
        } else if text::same_text(raw, "Paused") {
            PlaybackStatus::Paused
        } else {
            PlaybackStatus::Stopped
        }
    }
}

/// Whether a bus name is that of a player: the prefix and something after it.
pub open spec fn is_player(name: Seq<char>) -> bool {
    text::has_prefix(name, MPRIS_PREFIX@) && name.len() > MPRIS_PREFIX@.len()
}

/// Accepts only well-known MPRIS player service names.
pub fn is_mpris_player_name(name: &str) -> (yes: bool)
    ensures
        yes == is_player(name@),
{
    let name_chars: Vec<char> = text::chars_of(name);
    let prefix: Vec<char> = text::chars_of(MPRIS_PREFIX);
    text::starts_with(&name_chars, &prefix) && name_chars.len() > prefix.len()
}

/// Whether any of the players is playing.
pub open spec fn some_playing(players: Map<Seq<char>, PlaybackStatus>) -> bool {
    exists|name: Seq<char>| #[trigger]
        players.contains_key(name) && players[name] == PlaybackStatus::Playing
}

/// Per-player playback state with an aggregate view.
#[derive(Debug)]
pub struct MediaPlaybackRegistry {
    players: Table<String, PlaybackStatus>,
}

impl View for MediaPlaybackRegistry {
    type V = Map<Seq<char>, PlaybackStatus>;

    closed spec fn view(&self) -> Map<Seq<char>, PlaybackStatus> {
        self.players@
    }
}

impl Default for MediaPlaybackRegistry {
    fn default() -> (registry: Self)
        ensures
            registry.wf(),
            registry@ == Map::<Seq<char>, PlaybackStatus>::empty(),
    {
        MediaPlaybackRegistry { players: Table::new() }
    }
}

impl MediaPlaybackRegistry {
    /// Each player occurs once, and only players occur.
    pub closed spec fn wf(&self) -> bool {
        &&& self.players.wf()
        &&& forall|name: Seq<char>| #[trigger] self@.contains_key(name) ==> is_player(name)
    }

    /// Only players are ever registered.
    pub proof fn law_only_players(&self, name: Seq<char>)
        requires
            self.wf(),
            self@.contains_key(name),
        ensures
            is_player(name),
    {
    }

    /// Records a player's status; a name that is no player's is ignored.
    pub fn set_player_status(&mut self, name: &str, status: PlaybackStatus)
        requires
            old(self).wf(),
        ensures
            final(self).wf(),
            final(self)@ == if is_player(name@) {
                old(self)@.insert(name@, status)
            } else {
                old(self)@
            },
    {
        if is_mpris_player_name(name) {
            self.players.insert(name.to_owned(), status);
            assert forall|n: Seq<char>| #[trigger] self@.contains_key(n) implies is_player(n) by {
                assert(n == name@ || old(self)@.contains_key(n));
            }
        }
    }

    /// Forgets a player.
    pub fn remove_player(&mut self, name: &str)
        requires
            old(self).wf(),
        ensures
            final(self).wf(),
            final(self)@ == old(self)@.remove(name@),
    {
        let _ = self.players.remove(&name.to_owned());
        assert forall|n: Seq<char>| #[trigger] self@.contains_key(n) implies is_player(n) by {
            assert(old(self)@.contains_key(n));
        }
    }

    /// Whether any registered player is playing.
    pub fn any_playing(&self) -> (any: bool)
        requires
            self.wf(),
        ensures
            any == some_playing(self@),
    {
        let mut i: usize = 0;
        while i < self.players.entries.len()
            invariant
                self.wf(),
                i <= self.players.entries@.len(),
                forall|k: int|
                    0 <= k < i ==> (#[trigger] self.players.entries@[k]).1
                        != PlaybackStatus::Playing,
            decreases self.players.entries@.len() - i,
        {
            if self.players.entries[i].1 == PlaybackStatus::Playing {
                proof {
                    self.players.lemma_entry(i as int);
                    assert(self@.contains_key(self.players.entries@[i as int].0@));
                }
                return true;
            }
            i += 1;
        }
        proof {
            assert forall|name: Seq<char>| #[trigger] self@.contains_key(name) implies self@[name]
                != PlaybackStatus::Playing by {
                let k = self.players.lemma_key(name);
            }
        }
        false
    }
}

// ---------------------------------------------------------------------------
// The monitor
// ---------------------------------------------------------------------------

/// What a player's watcher reports.
#[derive(Debug)]
pub enum MonitorEvent {
    Status(String, PlaybackStatus),
}

/// What a watcher reports of one reading of its player's status: the status,
/// or nothing when the reading failed.
pub open spec fn reports_reading(
    name: Seq<char>,
    reading: Option<&str>,
    event: Option<MonitorEvent>,
) -> bool {
    match reading {
        Some(raw) => event matches Some(MonitorEvent::Status(n, status)) && n@ == name && status
            == PlaybackStatus::of_word(raw@),
        None => event is None,
    }
}

/// Makes the report of one reading.
pub fn status_report(name: &str, reading: Option<&str>) -> (event: Option<MonitorEvent>)
    ensures
        reports_reading(name@, reading, event),
{
    match reading {
        Some(raw) => Some(MonitorEvent::Status(name.to_owned(), PlaybackStatus::from_mpris(raw))),
        None => None,
    }
}

/// What the monitor wakes up for.
#[derive(Debug)]
pub enum MonitorInput {
    /// The shutdown channel changed: it was closed, or it holds `requested`.
    Shutdown { closed: bool, requested: bool },
    /// A watcher reported.
    Report(MonitorEvent),
    /// A bus name got an owner or lost the one it had.
    OwnerChanged { name: String, owned: bool },
    /// The bus sent a change of owner that could not be read.
    Unreadable,
}

/// What the monitor asks for. A name to stop watching comes before a value
/// to publish.
#[derive(Debug)]
pub struct Reaction {
    /// Start a watcher for this player.
    pub watch: Option<String>,
    /// Abort the watcher of this player.
    pub abort: Option<String>,
    /// Tell the router whether anything is playing.
    pub publish: Option<bool>,
    /// Leave the loop.
    pub stop: bool,
}

/// [`MonitorInput`] over texts.
pub enum InputView {
    Shutdown { closed: bool, requested: bool },
    Report { name: Seq<char>, status: PlaybackStatus },
    OwnerChanged { name: Seq<char>, owned: bool },
    Unreadable,
}

impl View for MonitorInput {
    type V = InputView;

    open spec fn view(&self) -> InputView {
        match self {
            MonitorInput::Shutdown { closed, requested } => InputView::Shutdown {
                closed: *closed,
                requested: *requested,
            },
            MonitorInput::Report(MonitorEvent::Status(name, status)) => InputView::Report {
                name: name@,
                status: *status,
            },
            MonitorInput::OwnerChanged { name, owned } => InputView::OwnerChanged {
                name: name@,
                owned: *owned,
            },
            MonitorInput::Unreadable => InputView::Unreadable,
        }
    }
}

/// [`Reaction`] over texts.
pub struct ReactionView {
    pub watch: Option<Seq<char>>,
    pub abort: Option<Seq<char>>,
    pub publish: Option<bool>,
    pub stop: bool,
}

impl View for Reaction {
    type V = ReactionView;

    open spec fn view(&self) -> ReactionView {
        ReactionView {
            watch: text::opt_text(self.watch),
            abort: text::opt_text(self.abort),
            publish: self.publish,
            stop: self.stop,
        }
    }
}

/// The state of the monitor: the registry, the players that have a watcher,
/// and the value last published.
pub struct MonitorView {
    pub players: Map<Seq<char>, PlaybackStatus>,
    pub watched: Set<Seq<char>>,
    pub published: bool,
}

impl MonitorView {
    /// What has been published is what holds.
    pub open spec fn consistent(self) -> bool {
        self.published == some_playing(self.players)
    }

    /// The state and the value to publish once the registry reads `players`:
    /// a value is published only when it changes.
    pub open spec fn publish_if_changed(self, players: Map<Seq<char>, PlaybackStatus>) -> (
        MonitorView,
        Option<bool>,
    ) {
        let any = some_playing(players);
        (
            MonitorView { players, watched: self.watched, published: any },
            if any != self.published {
                Some(any)
            } else {
                None
            },
        )
    }
}

/// A reaction that asks for nothing.
pub open spec fn idle() -> ReactionView {
    ReactionView { watch: None, abort: None, publish: None, stop: false }
}

/// The next state and what the monitor asks for.
pub open spec fn monitor_step(v: MonitorView, input: InputView) -> (MonitorView, ReactionView) {
    match input {
        InputView::Shutdown { closed, requested } => (
            v,
            ReactionView { stop: closed || requested, ..idle() },
        ),
        InputView::Report { name, status } => {
            let players = if is_player(name) {
                v.players.insert(name, status)
            } else {
                v.players
            };
            let (next, publish) = v.publish_if_changed(players);
            (next, ReactionView { publish, ..idle() })
        },
        InputView::OwnerChanged { name, owned } => if !is_player(name) {
            (v, idle())
        } else if owned {
            (
                MonitorView { watched: v.watched.insert(name), ..v },
                ReactionView {
                    watch: if v.watched.contains(name) {
                        None
                    } else {
                        Some(name)
                    },
                    ..idle()
                },
            )
        } else {
            let (next, publish) = v.publish_if_changed(v.players.remove(name));
            (
                MonitorView { watched: v.watched.remove(name), ..next },
                ReactionView {
                    abort: if v.watched.contains(name) {
                        Some(name)
                    } else {
                        None
                    },
                    publish,
                    ..idle()
                },
            )
        },
        InputView::Unreadable => (v, idle()),
    }
}

/// Decides what the MPRIS watcher does.
#[derive(Debug)]
pub struct MediaMonitor {
    registry: MediaPlaybackRegistry,
    watched: Table<String, ()>,
    published: bool,
}

impl View for MediaMonitor {
    type V = MonitorView;

    closed spec fn view(&self) -> MonitorView {
        MonitorView {
            players: self.registry@,
            watched: self.watched@.dom(),
            published: self.published,
        }
    }
}

/// The names that a first sweep over the bus starts watchers for: each player
/// once, in order of first appearance.
pub open spec fn first_watched(names: Seq<Seq<char>>) -> Seq<Seq<char>>
    decreases names.len(),
{
    if names.len() == 0 {
        Seq::empty()
    } else {
        let head = first_watched(names.drop_last());
        if is_player(names.last()) && !head.contains(names.last()) {
            head.push(names.last())
        } else {
            head
        }
    }
}

/// The state in which a monitor starts, and the players to watch from then on.
pub open spec fn is_first_sweep(
    names: Seq<Seq<char>>,
    v: MonitorView,
    watch: Seq<Seq<char>>,
) -> bool {
    &&& v.players == Map::<Seq<char>, PlaybackStatus>::empty()
    &&& v.published == false
    &&& v.watched == watch.to_set()
    &&& watch == first_watched(names)
}

/// How a monitor ends: the watchers to abort, each once, and the value to
/// publish last.
pub open spec fn is_last_sweep(v: MonitorView, abort: Seq<Seq<char>>, publish: bool) -> bool {
    &&& publish == false
    &&& abort.to_set() == v.watched
    &&& abort.no_duplicates()
}

impl MediaMonitor {
    /// The state is one that the monitor can be in.
    pub closed spec fn wf(&self) -> bool {
        &&& self.registry.wf()
        &&& self.watched.wf()
    }

    /// Starts from the names on the bus. Returns the players to watch.
    pub fn start(names: &Vec<String>) -> (started: (Self, Vec<String>))
        ensures
            started.0.wf(),
            is_first_sweep(text::texts(names@), started.0@, text::texts(started.1@)),
    {
        let mut watched: Table<String, ()> = Table::new();
        let mut list: Vec<String> = Vec::new();
        let mut i: usize = 0;
        assert(text::texts(names@.take(0)) =~= Seq::<Seq<char>>::empty());
        assert(text::texts(list@) =~= Seq::<Seq<char>>::empty());
        assert(watched@.dom() =~= text::texts(list@).to_set());
        while i < names.len()
            invariant
                i <= names@.len(),
                watched.wf(),
                watched@.dom() == text::texts(list@).to_set(),
                text::texts(list@) == first_watched(text::texts(names@.take(i as int))),
            decreases names@.len() - i,
        {
            let name: &String = &names[i];
            let ghost before = list@;
            assert(text::texts(names@.take(i + 1)).drop_last() =~= text::texts(names@.take(i as int)));
            if is_mpris_player_name(name.as_str()) && !watched.contains_key(name) {
                watched.insert(name.clone(), ());
                list.push(name.clone());
                assert(text::texts(list@) =~= text::texts(before).push(name@));
                assert(text::texts(before).push(name@).to_set() =~= text::texts(before).to_set().insert(
                    name@,
                )) by {
                    broadcast use vstd::seq_lib::group_seq_properties;

                }
            }
            i += 1;
        }
        assert(names@.take(i as int) =~= names@);
        (
            MediaMonitor { registry: MediaPlaybackRegistry::default(), watched, published: false },
            list,
        )
    }

    /// Reacts to one input.
    pub fn step(&mut self, input: &MonitorInput) -> (reaction: Reaction)
        requires
            old(self).wf(),
        ensures
            final(self).wf(),
            (final(self)@, reaction@) == monitor_step(old(self)@, input@),
    {
        let mut reaction = Reaction { watch: None, abort: None, publish: None, stop: false };
        match input {
            MonitorInput::Shutdown { closed, requested } => {
                reaction.stop = *closed || *requested;
            },
            MonitorInput::Report(MonitorEvent::Status(name, status)) => {
                self.registry.set_player_status(name.as_str(), *status);
                reaction.publish = self.publish_if_changed();
            },
            MonitorInput::OwnerChanged { name, owned } => {
                if !is_mpris_player_name(name.as_str()) {
                    return reaction;
                }
                if *owned {
                    if !self.watched.contains_key(name) {
                        self.watched.insert(name.clone(), ());
                        reaction.watch = Some(name.clone());
                    }
                } else {
                    if let Some(_) = self.watched.remove(name) {
                        reaction.abort = Some(name.clone());
                    }
                    self.registry.remove_player(name.as_str());
                    reaction.publish = self.publish_if_changed();
                }
            },
            MonitorInput::Unreadable => {},
        }
        assert(self@.watched =~= monitor_step(old(self)@, input@).0.watched);
        assert(self@ =~= monitor_step(old(self)@, input@).0);
        reaction
    }

    /// The value to publish, if the aggregate differs from the last one.
    fn publish_if_changed(&mut self) -> (publish: Option<bool>)
        requires
            old(self).wf(),
        ensures
            final(self).wf(),
            final(self).watched == old(self).watched,
            (final(self)@, publish) == old(self)@.publish_if_changed(old(self)@.players),
    {
        let any: bool = self.registry.any_playing();
        if any != self.published {
            self.published = any;
            Some(any)
        } else {
            None
        }
    }

    /// Ends the monitor: the watchers to abort and the value to publish last,
    /// which is always that nothing is playing.
    pub fn finish(self) -> (end: (Vec<String>, bool))
        requires
            self.wf(),
        ensures
            is_last_sweep(self@, text::texts(end.0@), end.1),
    {
        let mut names: Vec<String> = Vec::new();
        let mut i: usize = 0;
        let ghost n = self.watched.entries@.len();
        while i < self.watched.entries.len()
            invariant
                self.wf(),
                i <= n,
                n == self.watched.entries@.len(),
                names@.len() == i,
                forall|k: int|
                    0 <= k < i ==> (#[trigger] names@[k])@ == self.watched.entries@[k].0@,
            decreases n - i,
        {
            names.push(self.watched.entries[i].0.clone());
            i += 1;
        }
        proof {
            let t = text::texts(names@);
            assert forall|k: int| 0 <= k < t.len() implies t[k] == self.watched.entries@[k].0@ by {
                assert(names@[k]@ == self.watched.entries@[k].0@);
            }
            assert forall|name: Seq<char>| t.to_set().contains(name)
                == self@.watched.contains(name) by {
                if self@.watched.contains(name) {
                    let k = self.watched.lemma_key(name);
                    assert(t[k] == name);
                }
                if t.contains(name) {
                    let k = t.index_of(name);
                    self.watched.lemma_entry(k);
                }
            }
            assert(t.to_set() =~= self@.watched);
        }
        (names, false)
    }
}

// ---------------------------------------------------------------------------
// Laws
// ---------------------------------------------------------------------------

/// The state after a series of inputs.
pub open spec fn monitor_run(v: MonitorView, inputs: Seq<InputView>) -> MonitorView
    decreases inputs.len(),
{
    if inputs.len() == 0 {
        v
    } else {
        monitor_step(monitor_run(v, inputs.drop_last()), inputs.last()).0
    }
}

/// However the inputs come, what was last published is whether any registered
/// player is playing.
pub proof fn law_published_value_holds(v: MonitorView, inputs: Seq<InputView>)
    requires
        v.consistent(),
    ensures
        monitor_run(v, inputs).consistent(),
    decreases inputs.len(),
{
    if inputs.len() > 0 {
        law_published_value_holds(v, inputs.drop_last());
    }
}

/// A monitor that has just started has published what holds.
pub proof fn law_start_is_consistent(v: MonitorView)
    requires
        v.players == Map::<Seq<char>, PlaybackStatus>::empty(),
        v.published == false,
    ensures
        v.consistent(),
{
}

/// The router is told of changes only, and of each change.
pub proof fn law_publishes_exactly_the_changes(v: MonitorView, input: InputView)
    ensures
        match monitor_step(v, input).1.publish {
            Some(any) => any != v.published && any == monitor_step(v, input).0.published,
            None => monitor_step(v, input).0.published == v.published,
        },
{
}

/// The values that a series of inputs has published, in order.
pub open spec fn published_values(v: MonitorView, inputs: Seq<InputView>) -> Seq<bool>
    decreases inputs.len(),
{
    if inputs.len() == 0 {
        Seq::empty()
    } else {
        let head = published_values(v, inputs.drop_last());
        match monitor_step(monitor_run(v, inputs.drop_last()), inputs.last()).1.publish {
            Some(any) => head.push(any),
            None => head,
        }
    }
}

/// Over a whole run the published values alternate, beginning with a change
/// of what was published before, and the last one is what stands published.
pub proof fn law_published_values_alternate(v: MonitorView, inputs: Seq<InputView>)
    ensures
        ({
            let values = published_values(v, inputs);
            &&& monitor_run(v, inputs).published == if values.len() == 0 {
                v.published
            } else {
                values.last()
            }
            &&& forall|i: int|
                0 <= i < values.len() ==> #[trigger] values[i] == (v.published != (i % 2 == 0))
        }),
    decreases inputs.len(),
{
    if inputs.len() > 0 {
        law_published_values_alternate(v, inputs.drop_last());
        law_publishes_exactly_the_changes(
            monitor_run(v, inputs.drop_last()),
            inputs.last(),
        );
    }
}

/// A name that is no player's leaves a consistent monitor as it is and asks
/// for nothing.
pub proof fn law_other_names_are_ignored(
    v: MonitorView,
    name: Seq<char>,
    status: PlaybackStatus,
    owned: bool,
)
    requires
        v.consistent(),
        !is_player(name),
    ensures
        monitor_step(v, InputView::Report { name, status }) == (v, idle()),
        monitor_step(v, InputView::OwnerChanged { name, owned }) == (v, idle()),
{
}

/// A player never has two watchers, and only a watcher that runs is aborted.
pub proof fn law_one_watcher_per_player(v: MonitorView, input: InputView)
    ensures
        monitor_step(v, input).1.watch matches Some(name) ==> !v.watched.contains(name)
            && monitor_step(v, input).0.watched == v.watched.insert(name),
        monitor_step(v, input).1.abort matches Some(name) ==> v.watched.contains(name)
            && monitor_step(v, input).0.watched == v.watched.remove(name),
        monitor_step(v, input).1.watch is None && monitor_step(v, input).1.abort is None
            ==> monitor_step(v, input).0.watched =~= v.watched,
{
}

/// Removing a player undoes what was recorded of it: nothing of that player
/// is left that could count as playing.
pub proof fn law_removed_player_is_cleared(
    players: Map<Seq<char>, PlaybackStatus>,
    name: Seq<char>,
    status: PlaybackStatus,
)
    requires
        !players.contains_key(name),
    ensures
        players.insert(name, status).remove(name) == players,
        some_playing(players.insert(name, status).remove(name)) == some_playing(players),
{
    assert(players.insert(name, status).remove(name) =~= players);
}

// ---------------------------------------------------------------------------
// Laws on names and over whole runs
// ---------------------------------------------------------------------------

/// A name is made of the MPRIS prefix and something after it.
pub open spec fn extends_prefix(name: Seq<char>) -> bool {
    exists|suffix: Seq<char>| #[trigger]
        ("org.mpris.MediaPlayer2."@ + suffix) == name && suffix.len() > 0
}

/// The players' names are the MPRIS prefix with anything but nothing after it.
pub proof fn law_players_extend_the_prefix(name: Seq<char>)
    ensures
        is_player(name) <==> extends_prefix(name),
{
    let prefix = "org.mpris.MediaPlayer2."@;
    if is_player(name) {
        let suffix = name.skip(prefix.len() as int);
        assert(prefix + suffix =~= name);
    }
    if extends_prefix(name) {
        let suffix = choose|suffix: Seq<char>| #[trigger]
            (prefix + suffix) == name && suffix.len() > 0;
        assert((prefix + suffix).take(prefix.len() as int) =~= prefix);
    }
}

/// Only the two words that MPRIS has for them stand for playing and paused.
pub proof fn law_status_words(raw: Seq<char>)
    ensures
        PlaybackStatus::of_word(raw) == PlaybackStatus::Playing <==> raw == "Playing"@,
        PlaybackStatus::of_word(raw) == PlaybackStatus::Paused <==> raw == "Paused"@,
{
    reveal_strlit("Playing");
    reveal_strlit("Paused");
    assert("Playing"@.len() != "Paused"@.len());
}

/// An input reports a status of a player.
pub open spec fn is_report_of(input: InputView, name: Seq<char>) -> bool {
    input is Report && input->Report_name == name
}

/// An input says that a player's name has no owner any more.
pub open spec fn is_loss_of(input: InputView, name: Seq<char>) -> bool {
    input is OwnerChanged && input->OwnerChanged_name == name && !input->owned
}

/// Input `k` is the last word on a player: it reports this status, and nothing
/// after it reports another one or says that the player is gone.
pub open spec fn is_last_word(
    inputs: Seq<InputView>,
    k: int,
    name: Seq<char>,
    status: PlaybackStatus,
) -> bool {
    &&& 0 <= k < inputs.len()
    &&& is_report_of(inputs[k], name) && inputs[k]->status == status
    &&& forall|m: int|
        k < m < inputs.len() ==> !is_report_of(#[trigger] inputs[m], name) && !is_loss_of(
            inputs[m],
            name,
        )
}

/// However the inputs come: a player is registered with a status exactly if
/// that is its latest report and it was not lost since. What is said of other
/// players makes no difference.
pub proof fn law_registered_status_is_the_last_word(
    v: MonitorView,
    inputs: Seq<InputView>,
    name: Seq<char>,
    status: PlaybackStatus,
)
    requires
        v.players == Map::<Seq<char>, PlaybackStatus>::empty(),
    ensures
        (monitor_run(v, inputs).players.contains_key(name) && monitor_run(v, inputs).players[name]
            == status) <==> extends_prefix(name) && exists|k: int|
            is_last_word(inputs, k, name, status),
    decreases inputs.len(),
{
    if inputs.len() > 0 {
        let head = inputs.drop_last();
        let last = inputs.len() - 1;
        law_registered_status_is_the_last_word(v, head, name, status);
        law_players_extend_the_prefix(name);
        if is_report_of(inputs[last], name) {
            if inputs[last]->status == status {
                assert(is_last_word(inputs, last, name, status));
            }
            assert forall|k: int| is_last_word(inputs, k, name, status) implies k == last by {}
        } else if is_loss_of(inputs[last], name) {
            assert forall|k: int| !is_last_word(inputs, k, name, status) by {}
        } else {
            assert forall|k: int|
                #![trigger is_last_word(inputs, k, name, status)]
                #![trigger is_last_word(head, k, name, status)]
                is_last_word(inputs, k, name, status) == is_last_word(head, k, name, status) by {
                if 0 <= k < last {
                    assert(inputs[k] == head[k]);
                    if is_last_word(head, k, name, status) {
                        assert forall|m: int| k < m < inputs.len() implies !is_report_of(
                            #[trigger] inputs[m],
                            name,
                        ) && !is_loss_of(inputs[m], name) by {
                            if m < last {
                                assert(head[m] == inputs[m]);
                            }
                        }
                    }
                    if is_last_word(inputs, k, name, status) {
                        assert forall|m: int| k < m < head.len() implies !is_report_of(
                            #[trigger] head[m],
                            name,
                        ) && !is_loss_of(head[m], name) by {
                            assert(head[m] == inputs[m]);
                        }
                    }
                }
            }
        }
    }
}

/// An input leaves what is recorded of every player that it does not name.
pub proof fn law_other_players_keep_their_status(
    v: MonitorView,
    input: InputView,
    name: Seq<char>,
)
    requires
        !is_report_of(input, name),
        !is_loss_of(input, name),
    ensures
        monitor_step(v, input).0.players.contains_key(name) == v.players.contains_key(name),
        v.players.contains_key(name) ==> monitor_step(v, input).0.players[name] == v.players[name],
{
}

/// From a start at which nothing is registered or published, what stands
/// published after any inputs is whether the last word on some player is that
/// it plays.
pub proof fn law_published_exactly_if_some_player_plays(v: MonitorView, inputs: Seq<InputView>)
    requires
        v.players == Map::<Seq<char>, PlaybackStatus>::empty(),
        v.published == false,
    ensures
        monitor_run(v, inputs).published <==> exists|name: Seq<char>, k: int|
            #![trigger is_last_word(inputs, k, name, PlaybackStatus::Playing)]
            extends_prefix(name) && is_last_word(inputs, k, name, PlaybackStatus::Playing),
{
    law_published_value_holds(v, inputs);
    let players = monitor_run(v, inputs).players;
    if some_playing(players) {
        let name = choose|name: Seq<char>| #[trigger]
            players.contains_key(name) && players[name] == PlaybackStatus::Playing;
        law_registered_status_is_the_last_word(v, inputs, name, PlaybackStatus::Playing);
    }
    if exists|name: Seq<char>, k: int|
        #![trigger is_last_word(inputs, k, name, PlaybackStatus::Playing)]
        extends_prefix(name) && is_last_word(inputs, k, name, PlaybackStatus::Playing) {
        let (name, k) = choose|name: Seq<char>, k: int|
            #![trigger is_last_word(inputs, k, name, PlaybackStatus::Playing)]
            extends_prefix(name) && is_last_word(inputs, k, name, PlaybackStatus::Playing);
        law_registered_status_is_the_last_word(v, inputs, name, PlaybackStatus::Playing);
        assert(players.contains_key(name));
    }
}

/// Input `k` says that a name has an owner, and none after it that it has none.
pub open spec fn is_lasting_owner(inputs: Seq<InputView>, k: int, name: Seq<char>) -> bool {
    &&& 0 <= k < inputs.len()
    &&& inputs[k] is OwnerChanged && inputs[k]->OwnerChanged_name == name && inputs[k]->owned
    &&& forall|m: int| k < m < inputs.len() ==> !is_loss_of(#[trigger] inputs[m], name)
}

/// Exactly the players that are on the bus are watched: those that got an owner
/// and did not lose it since, and those that were watched from the start and
/// never lost theirs.
pub proof fn law_players_on_the_bus_are_watched(
    v: MonitorView,
    inputs: Seq<InputView>,
    name: Seq<char>,
)
    requires
        v.watched.contains(name) ==> extends_prefix(name),
    ensures
        monitor_run(v, inputs).watched.contains(name) <==> extends_prefix(name) && {
            ||| exists|k: int| is_lasting_owner(inputs, k, name)
            ||| v.watched.contains(name) && forall|m: int|
                0 <= m < inputs.len() ==> !is_loss_of(#[trigger] inputs[m], name)
        },
    decreases inputs.len(),
{
    if inputs.len() > 0 {
        let head = inputs.drop_last();
        let last = inputs.len() - 1;
        law_players_on_the_bus_are_watched(v, head, name);
        law_players_extend_the_prefix(name);
        let input = inputs[last];
        if is_loss_of(input, name) {
            assert forall|k: int| !is_lasting_owner(inputs, k, name) by {}
        } else {
            assert forall|k: int|
                #![trigger is_lasting_owner(inputs, k, name)]
                #![trigger is_lasting_owner(head, k, name)]
                k < last implies is_lasting_owner(inputs, k, name) == is_lasting_owner(
                head,
                k,
                name,
            ) by {
                if 0 <= k {
                    assert(inputs[k] == head[k]);
                    if is_lasting_owner(head, k, name) {
                        assert forall|m: int| k < m < inputs.len() implies !is_loss_of(
                            #[trigger] inputs[m],
                            name,
                        ) by {
                            if m < last {
                                assert(head[m] == inputs[m]);
                            }
                        }
                    }
                    if is_lasting_owner(inputs, k, name) {
                        assert forall|m: int| k < m < head.len() implies !is_loss_of(
                            #[trigger] head[m],
                            name,
                        ) by {
                            assert(head[m] == inputs[m]);
                        }
                    }
                }
            }
            if input is OwnerChanged && input->OwnerChanged_name == name {
                assert(is_lasting_owner(inputs, last, name));
            }
            if forall|m: int| 0 <= m < head.len() ==> !is_loss_of(#[trigger] head[m], name) {
                assert forall|m: int| 0 <= m < inputs.len() implies !is_loss_of(
                    #[trigger] inputs[m],
                    name,
                ) by {
                    if m < last {
                        assert(head[m] == inputs[m]);
                    }
                }
            }
            if forall|m: int| 0 <= m < inputs.len() ==> !is_loss_of(#[trigger] inputs[m], name) {
                assert forall|m: int| 0 <= m < head.len() implies !is_loss_of(
                    #[trigger] head[m],
                    name,
                ) by {
                    assert(head[m] == inputs[m]);
                }
            }
            if exists|k: int| is_lasting_owner(inputs, k, name) {
                let k = choose|k: int| is_lasting_owner(inputs, k, name);
                if k < last {
                    assert(is_lasting_owner(head, k, name));
                }
            }
        }
    }
}

/// The monitor stops exactly when shutdown is requested or the channel is
/// gone, and a look at the channel changes nothing else.
pub proof fn law_only_shutdown_stops(v: MonitorView, input: InputView)
    ensures
        monitor_step(v, input).1.stop <==> input is Shutdown && (input->closed || input->requested),
        input is Shutdown || input is Unreadable ==> monitor_step(v, input).0 == v
            && monitor_step(v, input).1.watch is None && monitor_step(v, input).1.abort is None
            && monitor_step(v, input).1.publish is None,
{
}

/// The first sweep watches each player on the bus once, in the order in which
/// the names first come up, and nothing else.
pub proof fn law_first_sweep_watches_each_player_once(names: Seq<Seq<char>>) -> (places: Seq<int>)
    ensures
        places.len() == first_watched(names).len(),
        forall|i: int|
            0 <= i < places.len() ==> 0 <= #[trigger] places[i] < names.len()
                && first_watched(names)[i] == names[places[i]] && extends_prefix(names[places[i]]),
        forall|i: int, j: int|
            0 <= i < j < places.len() ==> #[trigger] places[i] < #[trigger] places[j]
                && first_watched(names)[i] != first_watched(names)[j],
        forall|k: int|
            0 <= k < names.len() && extends_prefix(#[trigger] names[k]) ==> exists|i: int|
                0 <= i < places.len() && #[trigger] places[i] <= k && names[places[i]] == names[k],
    decreases names.len(),
{
    if names.len() == 0 {
        Seq::empty()
    } else {
        let head = names.drop_last();
        let last = names.len() - 1;
        let before = law_first_sweep_watches_each_player_once(head);
        let list = first_watched(names);
        let shorter = first_watched(head);
        law_players_extend_the_prefix(names[last]);
        let places = if list.len() > shorter.len() {
            before.push(last)
        } else {
            before
        };
        assert forall|i: int| 0 <= i < places.len() implies 0 <= #[trigger] places[i]
            < names.len() && list[i] == names[places[i]] && extends_prefix(names[places[i]]) by {
            if i < before.len() {
                assert(0 <= before[i] < head.len());
                assert(head[before[i]] == names[before[i]]);
            }
        }
        assert forall|i: int, j: int| 0 <= i < j < places.len() implies #[trigger] places[i]
            < #[trigger] places[j] && list[i] != list[j] by {
            if j < before.len() {
                assert(before[i] < before[j]);
            } else {
                assert(0 <= before[i] < head.len());
                assert(shorter[i] == list[i]);
                assert(!shorter.contains(names[last]));
            }
        }
        assert forall|k: int| 0 <= k < names.len() && extends_prefix(
            #[trigger] names[k],
        ) implies exists|i: int|
            0 <= i < places.len() && #[trigger] places[i] <= k && names[places[i]] == names[k] by {
            if k < last {
                assert(head[k] == names[k]);
                let i = choose|i: int|
                    0 <= i < before.len() && #[trigger] before[i] <= k && head[before[i]]
                        == head[k];
                assert(places[i] == before[i]);
                assert(0 <= before[i] < head.len());
                assert(names[places[i]] == names[k]);
            } else if list.len() > shorter.len() {
                assert(places[before.len() as int] == last);
            } else {
                assert(shorter.contains(names[last]));
                let i = shorter.index_of(names[last]);
                assert(0 <= before[i] < head.len());
                assert(places[i] == before[i] && names[places[i]] == names[last]);
            }
        }
        places
    }
}

/// A reading is reported exactly if it did not fail, under the player's name:
/// as playing or paused for the two words that stand for it, and as stopped for
/// any other word.
pub proof fn law_readings_are_reported(
    name: Seq<char>,
    reading: Option<&str>,
    event: Option<MonitorEvent>,
)
    requires
        reports_reading(name, reading, event),
    ensures
        event is Some <==> reading is Some,
        event matches Some(MonitorEvent::Status(n, status)) ==> n@ == name && (status
            == PlaybackStatus::Playing <==> reading->0@ == "Playing"@) && (status
            == PlaybackStatus::Paused <==> reading->0@ == "Paused"@),
{
    if reading is Some {
        law_status_words(reading->0@);
    }
}

/// Inputs and reactions are seen as they are.
pub proof fn law_inputs_and_reactions_are_seen_as_they_are(input: MonitorInput, reaction: Reaction)
    ensures
        match input {
            MonitorInput::Shutdown { closed, requested } => input@ == (InputView::Shutdown {
                closed,
                requested,
            }),
            MonitorInput::Report(MonitorEvent::Status(name, status)) => input@
                == (InputView::Report { name: name@, status }),
            MonitorInput::OwnerChanged { name, owned } => input@ == (InputView::OwnerChanged {
                name: name@,
                owned,
            }),
            MonitorInput::Unreadable => input@ is Unreadable,
        },
        reaction@.watch is Some <==> reaction.watch is Some,
        reaction.watch is Some ==> reaction@.watch->0 == reaction.watch->0@,
        reaction@.abort is Some <==> reaction.abort is Some,
        reaction.abort is Some ==> reaction@.abort->0 == reaction.abort->0@,
        reaction@.publish == reaction.publish,
        reaction@.stop == reaction.stop,
{
}

/// A watcher is asked for exactly when a player comes up that has none, and
/// aborted exactly when a player goes that has one; nothing else is watched or
/// let go.
pub proof fn law_watchers_follow_the_owners(v: MonitorView, input: InputView, name: Seq<char>)
    ensures
        monitor_step(v, input).1.watch == Some(name) <==> input == (InputView::OwnerChanged {
            name,
            owned: true,
        }) && extends_prefix(name) && !v.watched.contains(name),
        monitor_step(v, input).1.abort == Some(name) <==> input == (InputView::OwnerChanged {
            name,
            owned: false,
        }) && extends_prefix(name) && v.watched.contains(name),
{
    law_players_extend_the_prefix(name);
}

/// A monitor starts with a watcher for each player on the bus and for nothing
/// else, with nothing registered and nothing published.
pub proof fn law_monitor_starts_with_the_players_on_the_bus(
    names: Seq<Seq<char>>,
    v: MonitorView,
    watch: Seq<Seq<char>>,
    name: Seq<char>,
)
    requires
        is_first_sweep(names, v, watch),
    ensures
        !v.published,
        !v.players.contains_key(name),
        v.watched.contains(name) <==> extends_prefix(name) && exists|k: int|
            0 <= k < names.len() && #[trigger] names[k] == name,
        v.watched.contains(name) <==> exists|i: int|
            0 <= i < watch.len() && #[trigger] watch[i] == name,
        forall|i: int, j: int| 0 <= i < j < watch.len() ==> watch[i] != watch[j],
{
    let places = law_first_sweep_watches_each_player_once(names);
    if v.watched.contains(name) {
        assert(watch.contains(name));
        let i = watch.index_of(name);
        assert(0 <= places[i] < names.len());
        assert(names[places[i]] == name);
    }
    if extends_prefix(name) && exists|k: int| 0 <= k < names.len() && #[trigger] names[k] == name {
        let k = choose|k: int| 0 <= k < names.len() && #[trigger] names[k] == name;
        let i = choose|i: int|
            0 <= i < places.len() && #[trigger] places[i] <= k && names[places[i]] == names[k];
        assert(0 <= places[i] < names.len());
        assert(watch[i] == name);
    }
    if exists|i: int| 0 <= i < watch.len() && #[trigger] watch[i] == name {
        assert(watch.contains(name));
    }
    assert forall|i: int, j: int| 0 <= i < j < watch.len() implies watch[i] != watch[j] by {
        assert(places[i] < places[j]);
    }
}

/// At the end every watcher that runs is aborted, once, and it is published that
/// nothing is playing.
pub proof fn law_monitor_ends_without_watchers(
    v: MonitorView,
    abort: Seq<Seq<char>>,
    publish: bool,
    name: Seq<char>,
)
    requires
        is_last_sweep(v, abort, publish),
    ensures
        !publish,
        v.watched.contains(name) <==> exists|i: int|
            0 <= i < abort.len() && #[trigger] abort[i] == name,
        forall|i: int, j: int| 0 <= i < j < abort.len() ==> abort[i] != abort[j],
{
    if v.watched.contains(name) {
        assert(abort.contains(name));
        assert(abort[abort.index_of(name)] == name);
    }
    if exists|i: int| 0 <= i < abort.len() && #[trigger] abort[i] == name {
        assert(abort.contains(name));
    }
}

} // verus!
