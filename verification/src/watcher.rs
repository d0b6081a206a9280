//! Translation of raw filesystem-change notifications into a normalized
//! stream of domain events: the same exclusion and Markdown policy as the
//! scanner, materialization of added/changed entries from a metadata
//! observation, and the accumulation of live watch sessions.

use vstd::prelude::*;

verus! {

use crate::files::{effective_exclusions, full_exclusions, EntryModel, FileEntry};
use crate::policy;

/// The payload emitted for added and changed files.
#[derive(Clone)]
pub struct FileEvent {
    pub path: String,
    pub name: String,
    pub modified: u64,
    pub size: u64,
}

impl From<FileEntry> for FileEvent {
    fn from(entry: FileEntry) -> (r: Self) {
        FileEvent {
            path: entry.path,
            name: entry.name,
            modified: entry.modified,
            size: entry.size,
        }
    }
}

impl vstd::std_specs::convert::FromSpecImpl<FileEntry> for FileEvent {
    open spec fn obeys_from_spec() -> bool {
        true
    }

    open spec fn from_spec(entry: FileEntry) -> Self {
        FileEvent {
            path: entry.path,
            name: entry.name,
            modified: entry.modified,
            size: entry.size,
        }
    }
}

/// The classified kind of one native notification; renames, access and
/// metadata-only kinds all classify as `Other`.
#[derive(Clone, Copy)]
pub enum EventKind {
    Create,
    Modify,
    Remove,
    Other,
}

/// What a metadata observation of a path yielded: the modification time in
/// seconds since the epoch where the clock conversion succeeded, and the byte
/// size. `None` in place of the whole value means the path was gone or
/// unreadable.
#[derive(Clone, Copy)]
pub struct FileMeta {
    pub modified: Option<u64>,
    pub size: u64,
}

/// A normalized domain event, a closed tagged variant.
pub enum ChangeEvent {
    Added(FileEntry),
    Changed(FileEntry),
    Removed(String),
}

/// The mathematical value of a `ChangeEvent`.
pub enum EventModel {
    Added(EntryModel),
    Changed(EntryModel),
    Removed(Seq<char>),
}

impl DeepView for ChangeEvent {
    type V = EventModel;

    open spec fn deep_view(&self) -> EventModel {
        match self {
            ChangeEvent::Added(e) => EventModel::Added(e.deep_view()),
            ChangeEvent::Changed(e) => EventModel::Changed(e.deep_view()),
            ChangeEvent::Removed(p) => EventModel::Removed(p@),
        }
    }
}

/// A timestamp that failed to convert degrades to `0`, so the entry still
/// appears, sorted last.
pub open spec fn meta_modified(m: FileMeta) -> u64 {
    match m.modified {
        Some(t) => t,
        None => 0,
    }
}

/// What materializing a path yields: nothing when the observation found no
/// file or the path is not Markdown-named, else the entry snapshot.
pub open spec fn materialize_spec(p: Seq<char>, observed: Option<FileMeta>) -> Option<EntryModel> {
    match observed {
        None => None,
        Some(m) => if policy::is_markdown_path(p) {
            Some(
                EntryModel {
                    path: p,
                    name: policy::file_name_of(p),
                    modified: meta_modified(m),
                    size: m.size,
                },
            )
        } else {
            None
        },
    }
}

/// Materializes a document entry from a path and the metadata observation
/// made of it; the observation is the one filesystem read, handed in so the
/// mapping itself is total and deterministic.
pub fn get_file_entry(path: &str, observed: Option<FileMeta>) -> (r: Option<FileEntry>)
    ensures
        r.deep_view() == materialize_spec(path@, observed),
{
    let m = match observed {
        Some(m) => m,
        None => {
            return None;
        },
    };
    if !policy::is_markdown_file(path) {
        return None;
    }
    let name = policy::file_name(path);
    let modified = match m.modified {
        Some(t) => t,
        None => 0,
    };
    let e = FileEntry { path: path.to_owned(), name, modified, size: m.size };
    proof {
        assert(e.deep_view() =~= materialize_spec(path@, observed)->0);
    }
    Some(e)
}

/// Whether a notification path falls under an excluded directory: the fixed
/// exclusion set extended by the user's additions, applied to every path
/// component, exactly as in a scan.
pub fn should_exclude(path: &str, user_exclusions: &Vec<String>) -> (r: bool)
    ensures
        r == policy::is_excluded_path(path@, full_exclusions(user_exclusions.deep_view())),
{
    let exclusions = effective_exclusions(user_exclusions);
    policy::path_is_excluded(path, &exclusions)
}

/// The at-most-one event a single notification path yields: excluded or
/// non-Markdown paths yield nothing whatever the kind; a creation or
/// modification yields `Added`/`Changed` when materialization succeeds and
/// nothing when the file vanished first; a removal always yields `Removed`
/// with no materialization; any other kind is ignored.
pub open spec fn event_for_path_spec(
    kind: EventKind,
    p: Seq<char>,
    observed: Option<FileMeta>,
    excl: Seq<Seq<char>>,
) -> Option<EventModel> {
    if policy::is_excluded_path(p, excl) || !policy::is_markdown_path(p) {
        None
    } else {
        match kind {
            EventKind::Create => match materialize_spec(p, observed) {
                Some(em) => Some(EventModel::Added(em)),
                None => None,
            },
            EventKind::Modify => match materialize_spec(p, observed) {
                Some(em) => Some(EventModel::Changed(em)),
                None => None,
            },
            EventKind::Remove => Some(EventModel::Removed(p)),
            EventKind::Other => None,
        }
    }
}

/// Maps one notification path to its domain event, if any, under the session's
/// exclusion configuration.
pub fn resolve_path(
    kind: EventKind,
    path: &str,
    observed: Option<FileMeta>,
    user_exclusions: &Vec<String>,
) -> (r: Option<ChangeEvent>)
    ensures
        r.deep_view() == event_for_path_spec(
            kind,
            path@,
            observed,
            full_exclusions(user_exclusions.deep_view()),
        ),
{
    if should_exclude(path, user_exclusions) {
        return None;
    }
    if !policy::is_markdown_file(path) {
        return None;
    }
    match kind {
        EventKind::Create => match get_file_entry(path, observed) {
            Some(e) => Some(ChangeEvent::Added(e)),
            None => None,
        },
        EventKind::Modify => match get_file_entry(path, observed) {
            Some(e) => Some(ChangeEvent::Changed(e)),
            None => None,
        },
        EventKind::Remove => Some(ChangeEvent::Removed(path.to_owned())),
        EventKind::Other => None,
    }
}

/// The events one native notification yields over all the paths it carries,
/// each path filtered and mapped independently, in order.
pub open spec fn events_for_paths_spec(
    kind: EventKind,
    paths: Seq<Seq<char>>,
    observations: Seq<Option<FileMeta>>,
    excl: Seq<Seq<char>>,
) -> Seq<EventModel>
    decreases paths.len(),
{
    if paths.len() == 0 {
        Seq::empty()
    } else {
        (match event_for_path_spec(kind, paths[0], observations[0], excl) {
            Some(ev) => seq![ev],
            None => Seq::<EventModel>::empty(),
        }) + events_for_paths_spec(kind, paths.drop_first(), observations.drop_first(), excl)
    }
}

pub proof fn lemma_events_snoc(
    kind: EventKind,
    paths: Seq<Seq<char>>,
    observations: Seq<Option<FileMeta>>,
    p: Seq<char>,
    o: Option<FileMeta>,
    excl: Seq<Seq<char>>,
)
    requires
        paths.len() == observations.len(),
    ensures
        events_for_paths_spec(kind, paths + seq![p], observations + seq![o], excl)
            =~= events_for_paths_spec(kind, paths, observations, excl) + (match event_for_path_spec(
            kind,
            p,
            o,
            excl,
        ) {
            Some(ev) => seq![ev],
            None => Seq::<EventModel>::empty(),
        }),
    decreases paths.len(),
{
    let piece: Seq<EventModel> = match event_for_path_spec(kind, p, o, excl) {
        Some(ev) => seq![ev],
        None => Seq::<EventModel>::empty(),
    };
    if paths.len() == 0 {
        assert((paths + seq![p])[0] == p);
        assert((observations + seq![o])[0] == o);
        assert((paths + seq![p]).drop_first() =~= Seq::<Seq<char>>::empty());
        assert((observations + seq![o]).drop_first() =~= Seq::<Option<FileMeta>>::empty());
        assert(events_for_paths_spec(
            kind,
            (paths + seq![p]).drop_first(),
            (observations + seq![o]).drop_first(),
            excl,
        ) == events_for_paths_spec(
            kind,
            Seq::<Seq<char>>::empty(),
            Seq::<Option<FileMeta>>::empty(),
            excl,
        ));
        assert(events_for_paths_spec(kind, paths + seq![p], observations + seq![o], excl) =~= piece);
        assert(events_for_paths_spec(kind, paths, observations, excl) + piece =~= piece);
    } else {
        assert((paths + seq![p])[0] == paths[0]);
        assert((observations + seq![o])[0] == observations[0]);
        assert((paths + seq![p]).drop_first() =~= paths.drop_first() + seq![p]);
        assert((observations + seq![o]).drop_first() =~= observations.drop_first() + seq![o]);
        lemma_events_snoc(kind, paths.drop_first(), observations.drop_first(), p, o, excl);
        let head: Seq<EventModel> = match event_for_path_spec(kind, paths[0], observations[0], excl) {
            Some(ev) => seq![ev],
            None => Seq::<EventModel>::empty(),
        };
        assert(events_for_paths_spec(kind, paths + seq![p], observations + seq![o], excl) =~= head + (
        events_for_paths_spec(kind, paths.drop_first(), observations.drop_first(), excl) + piece));
        assert(head + (events_for_paths_spec(kind, paths.drop_first(), observations.drop_first(), excl)
            + piece) =~= (head + events_for_paths_spec(
            kind,
            paths.drop_first(),
            observations.drop_first(),
            excl,
        )) + piece);
        assert(events_for_paths_spec(kind, paths, observations, excl) =~= head + events_for_paths_spec(
            kind,
            paths.drop_first(),
            observations.drop_first(),
            excl,
        ));
    }
}

/// Translates one native notification into domain events. The observation at
/// index `i` is the metadata read made for path `i`; paths a removal or an
/// ignored kind carries need no read, and their observations go unused.
#[verifier::loop_isolation(false)]
pub fn handle_event(
    kind: EventKind,
    paths: &Vec<String>,
    observations: &Vec<Option<FileMeta>>,
    user_exclusions: &Vec<String>,
) -> (events: Vec<ChangeEvent>)
    requires
        observations@.len() == paths@.len(),
    ensures
        events.deep_view() == events_for_paths_spec(
            kind,
            paths.deep_view(),
            observations@,
            full_exclusions(user_exclusions.deep_view()),
        ),
{
    let ghost excl = full_exclusions(user_exclusions.deep_view());
    let mut events: Vec<ChangeEvent> = Vec::new();
    let mut i: usize = 0;
    while i < paths.len()
        invariant
            i <= paths@.len(),
            events.deep_view() =~= events_for_paths_spec(
                kind,
                paths.deep_view().subrange(0, i as int),
                observations@.subrange(0, i as int),
                excl,
            ),
        decreases paths@.len() - i,
    {
        let ghost before = events.deep_view();
        let r = resolve_path(kind, paths[i].as_str(), observations[i], user_exclusions);
        match r {
            Some(ev) => {
                events.push(ev);
            },
            None => {},
        }
        proof {
            assert(paths.deep_view()[i as int] == paths@[i as int].deep_view());
            assert(events.deep_view() =~= before + (match event_for_path_spec(
                kind,
                paths.deep_view()[i as int],
                observations@[i as int],
                excl,
            ) {
                Some(ev) => seq![ev],
                None => Seq::<EventModel>::empty(),
            }));
            lemma_events_snoc(
                kind,
                paths.deep_view().subrange(0, i as int),
                observations@.subrange(0, i as int),
                paths.deep_view()[i as int],
                observations@[i as int],
                excl,
            );
            assert(paths.deep_view().subrange(0, i as int) + seq![paths.deep_view()[i as int]]
                =~= paths.deep_view().subrange(0, (i + 1) as int));
            assert(observations@.subrange(0, i as int) + seq![observations@[i as int]]
                =~= observations@.subrange(0, (i + 1) as int));
        }
        i += 1;
    }
    proof {
        assert(paths.deep_view().subrange(0, paths@.len() as int) =~= paths.deep_view());
        assert(observations@.subrange(0, observations@.len() as int) =~= observations@);
    }
    events
}

/// An excluded path yields nothing, whatever the native event kind.
pub proof fn lemma_excluded_path_silent(
    kind: EventKind,
    p: Seq<char>,
    observed: Option<FileMeta>,
    excl: Seq<Seq<char>>,
)
    requires
        policy::is_excluded_path(p, excl),
    ensures
        event_for_path_spec(kind, p, observed, excl) is None,
{
}

/// A creation notification for an eligible path that still exists at
/// materialization time yields exactly one `Added` event carrying the
/// observed size and modification time; one whose file vanished before the
/// observation yields nothing.
pub proof fn lemma_creation_events(
    p: Seq<char>,
    observed: Option<FileMeta>,
    excl: Seq<Seq<char>>,
)
    requires
        !policy::is_excluded_path(p, excl),
        policy::is_markdown_path(p),
    ensures
        observed is Some ==> event_for_path_spec(EventKind::Create, p, observed, excl) == Some(
            EventModel::Added(
                EntryModel {
                    path: p,
                    name: policy::file_name_of(p),
                    modified: meta_modified(observed->0),
                    size: observed->0.size,
                },
            ),
        ),
        observed is None ==> event_for_path_spec(EventKind::Create, p, observed, excl) is None,
{
}

/// A removal notification for an eligible path always yields exactly
/// `Removed(path)`; no materialization is consulted, so the outcome is the
/// same whatever any observation would have returned.
pub proof fn lemma_removal_event(
    p: Seq<char>,
    o1: Option<FileMeta>,
    o2: Option<FileMeta>,
    excl: Seq<Seq<char>>,
)
    requires
        !policy::is_excluded_path(p, excl),
        policy::is_markdown_path(p),
    ensures
        event_for_path_spec(EventKind::Remove, p, o1, excl) == Some(EventModel::Removed(p)),
        event_for_path_spec(EventKind::Remove, p, o1, excl) == event_for_path_spec(
            EventKind::Remove,
            p,
            o2,
            excl,
        ),
{
}

/// One live watch session: the roots subscribed when it started. Changes to
/// the configuration never retroactively affect it.
pub struct WatchSession {
    pub roots: Vec<String>,
}

/// Whether a root's recursive subscription covers a path: the root itself, or
/// anything below it past a `/` boundary.
pub open spec fn root_covers(root: Seq<char>, p: Seq<char>) -> bool {
    policy::path_under(root, p)
}

pub open spec fn session_covers(s: WatchSession, p: Seq<char>) -> bool {
    exists|i: int| 0 <= i < s.roots.deep_view().len() && root_covers(s.roots.deep_view()[i], p)
}

/// The accumulated live watch sessions of one process: starting a new session
/// never tears an old one down, so sessions pile up for the process lifetime.
pub struct SessionSet {
    pub sessions: Vec<WatchSession>,
}

impl SessionSet {
    pub fn new() -> (r: SessionSet)
        ensures
            r.sessions@.len() == 0,
    {
        SessionSet { sessions: Vec::new() }
    }

    /// Starts one more session over the given roots; every existing session
    /// stays live and keeps emitting.
    pub fn start_session(&mut self, roots: Vec<String>)
        ensures
            final(self).sessions@ == old(self).sessions@.push(WatchSession { roots }),
    {
        self.sessions.push(WatchSession { roots });
    }
}

/// The emissions all live sessions produce for one notification: every
/// covering session independently contributes the path's event; nothing is
/// deduplicated across sessions.
pub open spec fn emissions_spec(
    sessions: Seq<WatchSession>,
    kind: EventKind,
    p: Seq<char>,
    observed: Option<FileMeta>,
    excl: Seq<Seq<char>>,
) -> Seq<EventModel>
    decreases sessions.len(),
{
    if sessions.len() == 0 {
        Seq::empty()
    } else {
        (if session_covers(sessions[0], p) {
            match event_for_path_spec(kind, p, observed, excl) {
                Some(ev) => seq![ev],
                None => Seq::<EventModel>::empty(),
            }
        } else {
            Seq::<EventModel>::empty()
        }) + emissions_spec(sessions.drop_first(), kind, p, observed, excl)
    }
}

/// Two overlapping sessions covering the same path each emit independently on
/// the same change: the event surfaces once per covering session, a
/// documented limitation rather than a silent deduplication.
pub proof fn lemma_duplicate_sessions(
    s1: WatchSession,
    s2: WatchSession,
    kind: EventKind,
    p: Seq<char>,
    observed: Option<FileMeta>,
    ev: EventModel,
    excl: Seq<Seq<char>>,
)
    requires
        session_covers(s1, p),
        session_covers(s2, p),
        event_for_path_spec(kind, p, observed, excl) == Some(ev),
    ensures
        emissions_spec(seq![s1, s2], kind, p, observed, excl) =~= seq![ev, ev],
{
    let ss = seq![s1, s2];
    assert(ss[0] == s1);
    assert(ss.drop_first() =~= seq![s2]);
    assert(seq![s2][0] == s2);
    assert(seq![s2].drop_first() =~= Seq::<WatchSession>::empty());
    assert(emissions_spec(seq![s2].drop_first(), kind, p, observed, excl) == emissions_spec(
        Seq::<WatchSession>::empty(),
        kind,
        p,
        observed,
        excl,
    ));
    assert(emissions_spec(seq![s2], kind, p, observed, excl) =~= seq![ev]);
    assert(emissions_spec(ss, kind, p, observed, excl) =~= seq![ev] + seq![ev]);
    assert(seq![ev] + seq![ev] =~= seq![ev, ev]);
}

} // verus!
