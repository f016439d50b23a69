//! The calls that names leave open, settled by asking language servers. A
//! session says at each point what to do next, and takes what came of it; the
//! servers themselves are run by its caller.

use vstd::prelude::*;
use crate::calls::{ResolvedEdge, SymbolTable};
use crate::calls::{ambiguous_calls, candidates_of, edge_views, exact_edge, exact_edges, lemma_named, named, EdgeView};
use crate::extraction::CallEntry;
use crate::extraction::{CallView, EntryView};
use crate::graph::ids;
use crate::model::{copy_opt, Concept, Confidence, Language};
use crate::model::opt_text;
use crate::order::KeyIndex;
use crate::order::{last_of, lemma_last_of};
use crate::probing::{find_warm_positions, CrateWarmup};
use crate::probing::{lemma_warming_in, ref_views, warm_positions};
use crate::protocol::{language_id, server_command};
use crate::protocol::{language_name, place_views, server_name};
use crate::text::same;

verus! {

/// How often a server is asked about one call.
pub const DEFINITION_RETRIES: u32 = 2;

/// What a session is doing.
#[derive(Clone, Copy, Debug, PartialEq, Eq, Structural)]
pub enum Phase {
    /// Nothing yet.
    Begin,
    /// A server is being started.
    Starting,
    /// The query with this number, of those that warm a crate up, is out.
    Warming(usize),
    /// The query about the current call is out, after so many others.
    Asking(u32),
    /// It is being waited before the next query about the current call.
    Waiting(u32),
    /// There is nothing left to do.
    Finished,
}

/// What to do next.
#[derive(Clone, Copy, Debug, PartialEq, Eq, Structural)]
pub enum Step {
    /// Start the server for the language.
    Start(Language),
    /// Open the file of the call at this position, and ask where its callee is
    /// defined.
    Query(usize),
    /// Wait a little.
    Pause,
    /// Shut the servers down.
    Done,
}

/// What came of a step.
#[derive(Debug)]
pub enum Event {
    /// The session begins, or the wait is over.
    Go,
    /// The server runs, and reported this version.
    Started(Option<String>),
    /// No server runs for the language.
    NoServer,
    /// The file could not be had or opened, or the query failed.
    NoAnswer,
    /// The places that the server named.
    Found(Vec<(String, u32)>),
}

/// What came of a step, as a value.
pub enum EventView {
    Go,
    Started(Option<Seq<char>>),
    NoServer,
    NoAnswer,
    Found(Seq<(Seq<char>, u32)>),
}

impl View for Event {
    type V = EventView;

    open spec fn view(&self) -> EventView {
        match self {
            Event::Go => EventView::Go,
            Event::Started(v) => EventView::Started(opt_text(*v)),
            Event::NoServer => EventView::NoServer,
            Event::NoAnswer => EventView::NoAnswer,
            Event::Found(places) => EventView::Found(place_views(places@)),
        }
    }
}

/// What is known of the server for a language.
#[derive(Debug)]
pub struct Server {
    pub language: Language,
    pub running: bool,
    pub version: Option<String>,
}

/// What is known of a server, as a value.
#[verifier::ext_equal]
pub struct ServerView {
    pub language: Language,
    pub running: bool,
    pub version: Option<Seq<char>>,
}

impl View for Server {
    type V = ServerView;

    open spec fn view(&self) -> ServerView {
        ServerView { language: self.language, running: self.running, version: opt_text(self.version) }
    }
}

/// What is known of each server.
pub open spec fn server_views(v: Seq<Server>) -> Seq<ServerView> {
    v.map_values(|s: Server| s@)
}

/// A session: the call it is at, what it is doing, the servers it has, the
/// calls that warm a crate up, and the edges that were confirmed.
#[derive(Debug)]
pub struct Session {
    pub at: usize,
    pub phase: Phase,
    pub servers: Vec<Server>,
    pub warm: Vec<usize>,
    pub edges: Vec<ResolvedEdge>,
}

/// A session as a value.
#[verifier::ext_equal]
pub struct SessionView {
    pub at: int,
    pub phase: Phase,
    pub servers: Seq<ServerView>,
    pub warm: Seq<usize>,
    pub edges: Seq<EdgeView>,
}

impl View for Session {
    type V = SessionView;

    open spec fn view(&self) -> SessionView {
        SessionView {
            at: self.at as int,
            phase: self.phase,
            servers: server_views(self.servers@),
            warm: self.warm@,
            edges: edge_views(self.edges@),
        }
    }
}

/// What is known of the server for the language, if it was ever started.
pub open spec fn server_for(servers: Seq<ServerView>, language: Language) -> Option<ServerView>
    decreases servers.len(),
{
    if servers.len() == 0 {
        None
    } else if servers.last().language == language {
        Some(servers.last())
    } else {
        server_for(servers.drop_last(), language)
    }
}

/// The session goes on with the call at `i`, or with the first after it whose
/// language is not known to be without a server.
pub open spec fn entered(entries: Seq<EntryView>, s: SessionView, i: int) -> (SessionView, Step)
    decreases entries.len() - i,
{
    if i < 0 || i >= entries.len() {
        (SessionView { at: entries.len() as int, phase: Phase::Finished, ..s }, Step::Done)
    } else {
        match server_for(s.servers, entries[i].language) {
            None => (SessionView { at: i, phase: Phase::Starting, ..s }, Step::Start(entries[i].language)),
            Some(server) => if server.running {
                (SessionView { at: i, phase: Phase::Asking(0), ..s }, Step::Query(i as usize))
            } else {
                entered(entries, s, i + 1)
            },
        }
    }
}

/// The place lies in the declaration of the concept: of the last one, where
/// several have its id.
pub open spec fn lies_within(cs: Seq<Concept>, c: int, place: (Seq<char>, u32)) -> bool {
    match last_of(ids(cs), cs[c].id@) {
        Some(h) => cs[h].location.file@ == place.0 && cs[h].location.start_line <= place.1 + 1 <= cs[h].location.end_line,
        None => false,
    }
}

/// Some of the places lies in the declaration of the concept.
pub open spec fn covers(cs: Seq<Concept>, c: int, places: Seq<(Seq<char>, u32)>) -> bool {
    exists|k: int| 0 <= k < places.len() && lies_within(cs, c, #[trigger] places[k])
}

/// The first of the first `n` candidates with a place in its declaration.
pub open spec fn first_covering(cs: Seq<Concept>, candidates: Seq<usize>, places: Seq<(Seq<char>, u32)>, n: nat) -> Option<usize>
    decreases n,
{
    if n == 0 {
        None
    } else {
        match first_covering(cs, candidates, places, (n - 1) as nat) {
            Some(c) => Some(c),
            None => if covers(cs, candidates[n - 1] as int, places) {
                Some(candidates[n - 1])
            } else {
                None
            },
        }
    }
}

/// Who resolves calls in the language.
pub open spec fn resolver_name(language: Language) -> Seq<char> {
    match server_name(language) {
        Some(name) => name,
        None => language_name(language),
    }
}

/// The edge that the places confirm for the call: to the first candidate for
/// the callee with a place in its declaration, unless that is the caller.
pub open spec fn confirmed_edge(cs: Seq<Concept>, entry: EntryView, places: Seq<(Seq<char>, u32)>, version: Option<Seq<char>>) -> Option<EdgeView> {
    let candidates = candidates_of(cs, entry.call.callee_name);
    match first_covering(cs, candidates, places, candidates.len()) {
        Some(c) => if cs[c as int].id@ == entry.call.caller_id {
            None
        } else {
            Some(EdgeView {
                caller: entry.call.caller_id,
                callee: cs[c as int].id@,
                resolved_by: resolver_name(entry.language),
                confidence: Confidence::Semantic,
                resolver_version: version,
            })
        },
        None => None,
    }
}

/// The session with the edge that the places confirm for its call, if any.
pub open spec fn with_confirmed(cs: Seq<Concept>, entries: Seq<EntryView>, s: SessionView, places: Seq<(Seq<char>, u32)>) -> SessionView {
    let version = match server_for(s.servers, entries[s.at].language) {
        Some(server) => server.version,
        None => None,
    };
    match confirmed_edge(cs, entries[s.at], places, version) {
        Some(e) => SessionView { edges: s.edges.push(e), ..s },
        None => s,
    }
}

/// Which calls warm up the crate, for the server of the language.
pub open spec fn warm_for(entries: Seq<EntryView>, language: Language, warmup: Option<CrateWarmup>) -> Seq<usize> {
    match warmup {
        Some(w) => warm_positions(entries, language, w.crate_name@, w.queries as int),
        None => Seq::empty(),
    }
}

/// The session after a step, and what to do next.
pub open spec fn stepped(cs: Seq<Concept>, entries: Seq<EntryView>, warmup: Option<CrateWarmup>, s: SessionView, event: EventView) -> (SessionView, Step) {
    match s.phase {
        Phase::Begin => entered(entries, s, 0),
        Phase::Starting => {
            let language = entries[s.at].language;
            match event {
                EventView::Started(version) => {
                    let warm = warm_for(entries, language, warmup);
                    let on = SessionView { servers: s.servers.push(ServerView { language, running: true, version }), warm, ..s };
                    if warm.len() > 0 {
                        (SessionView { phase: Phase::Warming(0), ..on }, Step::Query(warm[0]))
                    } else {
                        (SessionView { phase: Phase::Asking(0), ..on }, Step::Query(s.at as usize))
                    }
                },
                _ => entered(entries, SessionView { servers: s.servers.push(ServerView { language, running: false, version: None }), ..s }, s.at + 1),
            }
        },
        Phase::Warming(k) => if k + 1 < s.warm.len() {
            (SessionView { phase: Phase::Warming((k + 1) as usize), ..s }, Step::Query(s.warm[k + 1]))
        } else {
            (SessionView { phase: Phase::Asking(0), ..s }, Step::Query(s.at as usize))
        },
        Phase::Asking(attempt) => match event {
            EventView::Found(places) => if places.len() > 0 {
                entered(entries, with_confirmed(cs, entries, s, places), s.at + 1)
            } else if attempt + 1 < DEFINITION_RETRIES {
                (SessionView { phase: Phase::Waiting(attempt), ..s }, Step::Pause)
            } else {
                entered(entries, s, s.at + 1)
            },
            _ => entered(entries, s, s.at + 1),
        },
        Phase::Waiting(attempt) => (SessionView { phase: Phase::Asking((attempt + 1) as u32), ..s }, Step::Query(s.at as usize)),
        Phase::Finished => (s, Step::Done),
    }
}

/// The session is at a call while it has anything to do with one, and the
/// calls that warm a crate up are there.
pub open spec fn session_ok(entries: Seq<EntryView>, s: SessionView) -> bool {
    &&& s.phase !is Begin && s.phase !is Finished ==> 0 <= s.at < entries.len()
    &&& s.warm.len() <= entries.len()
    &&& forall|k: int| 0 <= k < s.warm.len() ==> (#[trigger] s.warm[k]) < entries.len()
    &&& s.phase matches Phase::Warming(k) ==> k < s.warm.len()
    &&& s.phase matches Phase::Asking(a) ==> a < DEFINITION_RETRIES
    &&& s.phase matches Phase::Waiting(a) ==> a + 1 < DEFINITION_RETRIES
}

/// The concepts of a project, ready to be looked up.
pub struct Lookup<'a> {
    concepts: &'a Vec<Concept>,
    table: SymbolTable<'a>,
    index: KeyIndex<'a>,
}

impl<'a> Lookup<'a> {
    /// The concepts.
    pub closed spec fn view(&self) -> Seq<Concept> {
        self.concepts@
    }

    /// The concepts are found by their own names and ids.
    pub closed spec fn wf(&self) -> bool {
        self.table.is_for(self.concepts@) && self.index.wf() && self.index@ == ids(self.concepts@)
    }

    pub fn new(concepts: &'a Vec<Concept>) -> (r: Lookup<'a>)
        ensures
            r.wf(),
            r@ == concepts@,
    {
        let mut keys: Vec<&'a str> = Vec::new();
        for i in 0..concepts.len()
            invariant
                keys.len() == i,
                forall|k: int| 0 <= k < i ==> #[trigger] keys[k]@ == concepts[k].id@,
        {
            keys.push(concepts[i].id.as_str());
        }
        let index = KeyIndex::new(keys);
        assert(index@ =~= ids(concepts@));
        Lookup { concepts, table: SymbolTable::new(concepts), index }
    }

    /// Whether some of the places lies in the declaration of the concept.
    fn is_covered(&self, c: usize, places: &Vec<(String, u32)>) -> (r: bool)
        requires
            self.wf(),
            c < self.concepts.len(),
        ensures
            r == covers(self.concepts@, c as int, place_views(places@)),
    {
        let ghost cs = self.concepts@;
        let ghost pv = place_views(places@);
        match self.index.find(self.concepts[c].id.as_str()) {
            Some(h) => {
                proof {
                    lemma_last_of(ids(cs), cs[c as int].id@);
                }
                let location = &self.concepts[h].location;
                for k in 0..places.len()
                    invariant
                        pv == place_views(places@),
                        cs == self.concepts@,
                        h < cs.len(),
                        last_of(ids(cs), cs[c as int].id@) == Some(h as int),
                        *location == cs[h as int].location,
                        forall|j: int| 0 <= j < k ==> !lies_within(cs, c as int, #[trigger] pv[j]),
                {
                    assert(pv[k as int] == (places[k as int].0@, places[k as int].1));
                    let line: u64 = places[k].1 as u64 + 1;
                    if same(location.file.as_str(), places[k].0.as_str()) && location.start_line as u64 <= line && line <= location.end_line as u64 {
                        assert(lies_within(cs, c as int, pv[k as int]));
                        return true;
                    }
                }
                false
            },
            None => false,
        }
    }

    /// The edge that the places confirm for the call.
    pub fn confirm(&self, entry: &CallEntry, places: &Vec<(String, u32)>, version: &Option<String>) -> (r: Option<ResolvedEdge>)
        requires
            self.wf(),
        ensures
            match r {
                Some(e) => confirmed_edge(self@, entry@, place_views(places@), opt_text(*version)) == Some(e@),
                None => confirmed_edge(self@, entry@, place_views(places@), opt_text(*version)) is None,
            },
    {
        let ghost cs = self.concepts@;
        let ghost pv = place_views(places@);
        let concepts: &Vec<Concept> = self.concepts;
        let count: usize = concepts.len();
        if let Some(candidates) = self.table.candidates(concepts, entry.call.callee_name.as_str()) {
            for k in 0..candidates.len()
                invariant
                    self.wf(),
                    cs == self.concepts@,
                    *concepts == *self.concepts,
                    pv == place_views(places@),
                    count == cs.len(),
                    candidates@ == candidates_of(cs, entry.call.callee_name@),
                    first_covering(cs, candidates@, pv, k as nat) is None,
            {
                proof {
                    lemma_named(cs, entry.call.callee_name@, cs.len(), k as int);
                }
                if self.is_covered(candidates[k], places) {
                    proof {
                        lemma_first_stays(cs, candidates@, pv, (k + 1) as nat, candidates@.len());
                    }
                    let callee = &concepts[candidates[k]];
                    if same(callee.id.as_str(), entry.call.caller_id.as_str()) {
                        return None;
                    }
                    let resolved_by = match server_command(entry.language) {
                        Some((name, _)) => name.to_owned(),
                        None => language_id(entry.language).to_owned(),
                    };
                    let e = ResolvedEdge {
                        caller: entry.call.caller_id.clone(),
                        callee: callee.id.clone(),
                        resolved_by,
                        confidence: Confidence::Semantic,
                        resolver_version: copy_opt(version),
                    };
                    assert(Some(e@) == confirmed_edge(cs, entry@, pv, opt_text(*version)));
                    return Some(e);
                }
            }
        }
        None
    }
}

proof fn lemma_first_stays(cs: Seq<Concept>, candidates: Seq<usize>, places: Seq<(Seq<char>, u32)>, k: nat, n: nat)
    requires
        k <= n,
        first_covering(cs, candidates, places, k) is Some,
    ensures
        first_covering(cs, candidates, places, n) == first_covering(cs, candidates, places, k),
    decreases n,
{
    if k < n {
        lemma_first_stays(cs, candidates, places, k, (n - 1) as nat);
    }
}

impl Session {
    pub fn new() -> (r: Session)
        ensures
            r@ == (SessionView { at: 0, phase: Phase::Begin, servers: Seq::empty(), warm: Seq::empty(), edges: Seq::empty() }),
    {
        let r = Session { at: 0, phase: Phase::Begin, servers: Vec::new(), warm: Vec::new(), edges: Vec::new() };
        assert(server_views(r.servers@) =~= Seq::empty());
        assert(edge_views(r.edges@) =~= Seq::empty());
        r
    }

    /// Where the server for the language stands.
    fn find_server(&self, language: Language) -> (r: Option<usize>)
        ensures
            match r {
                Some(k) => k < self.servers.len() && server_for(self@.servers, language) == Some(self.servers[k as int]@),
                None => server_for(self@.servers, language) is None,
            },
    {
        let ghost all = self@.servers;
        let mut k: usize = self.servers.len();
        assert(all.take(k as int) =~= all);
        while k > 0
            invariant
                all == self@.servers,
                k <= self.servers.len(),
                server_for(all, language) == server_for(all.take(k as int), language),
            decreases k,
        {
            k = k - 1;
            proof {
                assert(all.take(k + 1).drop_last() =~= all.take(k as int));
                assert(all.take(k + 1).last() == self.servers[k as int]@);
            }
            if self.servers[k].language == language {
                return Some(k);
            }
        }
        assert(all.take(0) =~= Seq::empty());
        None
    }

    /// Goes on with the call at `i`.
    fn enter(&mut self, entries: &Vec<&CallEntry>, i: usize) -> (r: Step)
        requires
            i <= entries.len(),
        ensures
            (final(self)@, r) == entered(ref_views(entries@), old(self)@, i as int),
    {
        let ghost evs = ref_views(entries@);
        let ghost first = self@;
        let mut k: usize = i;
        while k < entries.len()
            invariant
                evs == ref_views(entries@),
                first == self@,
                first == old(self)@,
                i <= k <= entries.len(),
                entered(evs, first, i as int) == entered(evs, first, k as int),
            decreases entries.len() - k,
        {
            let language = entries[k].language;
            assert(evs[k as int].language == language);
            match self.find_server(language) {
                None => {
                    self.at = k;
                    self.phase = Phase::Starting;
                    assert(self@ =~= entered(evs, first, k as int).0);
                    return Step::Start(language);
                },
                Some(j) => {
                    if self.servers[j].running {
                        self.at = k;
                        self.phase = Phase::Asking(0);
                        assert(self@ =~= entered(evs, first, k as int).0);
                        return Step::Query(k);
                    }
                },
            }
            k = k + 1;
        }
        self.at = entries.len();
        self.phase = Phase::Finished;
        assert(self@ =~= entered(evs, first, k as int).0);
        Step::Done
    }

    /// Notes what is known of the server for the language.
    fn note_server(&mut self, language: Language, running: bool, version: Option<String>)
        ensures
            final(self)@ == (SessionView { servers: old(self)@.servers.push(ServerView { language, running, version: opt_text(version) }), ..old(self)@ }),
    {
        let ghost before = self.servers@;
        self.servers.push(Server { language, running, version });
        assert(server_views(self.servers@) =~= server_views(before).push(ServerView { language, running, version: opt_text(version) }));
    }

    /// Takes what came of the last step, and says what to do next.
    pub fn step(&mut self, lookup: &Lookup, entries: &Vec<&CallEntry>, warmup: &Option<CrateWarmup>, event: Event) -> (r: Step)
        requires
            lookup.wf(),
            session_ok(ref_views(entries@), old(self)@),
        ensures
            session_ok(ref_views(entries@), final(self)@),
            (final(self)@, r) == stepped(lookup@, ref_views(entries@), *warmup, old(self)@, event@),
    {
        let ghost evs = ref_views(entries@);
        let ghost first = self@;
        let ghost cs = lookup@;
        let count: usize = entries.len();
        proof {
            assert forall|s: SessionView, i: int| session_ok(evs, s) && 0 <= i implies session_ok(evs, (#[trigger] entered(evs, s, i)).0) by {
                lemma_entered_ok(evs, s, i);
            }
        }
        match self.phase {
            Phase::Begin => self.enter(entries, 0),
            Phase::Starting => {
                let language = entries[self.at].language;
                assert(evs[self.at as int].language == language);
                match event {
                    Event::Started(version) => {
                        let warm = match warmup {
                            Some(w) => find_warm_positions(entries, language, w),
                            None => Vec::new(),
                        };
                        proof {
                            match warmup {
                                Some(w) => lemma_warming_in(evs, language, w.crate_name@, evs.len()),
                                None => {},
                            }
                            assert(warm@ == warm_for(evs, language, *warmup));
                        }
                        self.note_server(language, true, version);
                        let step = if warm.len() > 0 {
                            self.phase = Phase::Warming(0);
                            Step::Query(warm[0])
                        } else {
                            self.phase = Phase::Asking(0);
                            Step::Query(self.at)
                        };
                        self.warm = warm;
                        assert(self@ =~= stepped(cs, evs, *warmup, first, event@).0);
                        step
                    },
                    _ => {
                        let next: usize = self.at + 1;
                        self.note_server(language, false, None);
                        self.enter(entries, next)
                    },
                }
            },
            Phase::Warming(k) => {
                if k + 1 < self.warm.len() {
                    self.phase = Phase::Warming(k + 1);
                    Step::Query(self.warm[k + 1])
                } else {
                    self.phase = Phase::Asking(0);
                    Step::Query(self.at)
                }
            },
            Phase::Asking(attempt) => match event {
                Event::Found(places) => {
                    if places.len() > 0 {
                        let entry = entries[self.at];
                        assert(evs[self.at as int] == entry@);
                        let version = match self.find_server(entry.language) {
                            Some(k) => copy_opt(&self.servers[k].version),
                            None => None,
                        };
                        if let Some(e) = lookup.confirm(entry, &places, &version) {
                            let ghost before = self.edges@;
                            self.edges.push(e);
                            assert(edge_views(self.edges@) =~= edge_views(before).push(e@));
                        }
                        assert(self@ =~= with_confirmed(cs, evs, first, place_views(places@)));
                        let next: usize = self.at + 1;
                        self.enter(entries, next)
                    } else if attempt + 1 < DEFINITION_RETRIES {
                        self.phase = Phase::Waiting(attempt);
                        Step::Pause
                    } else {
                        let next: usize = self.at + 1;
                        self.enter(entries, next)
                    }
                },
                _ => {
                    let next: usize = self.at + 1;
                    self.enter(entries, next)
                },
            },
            Phase::Waiting(attempt) => {
                self.phase = Phase::Asking(attempt + 1);
                Step::Query(self.at)
            },
            Phase::Finished => Step::Done,
        }
    }
}

proof fn lemma_entered_ok(entries: Seq<EntryView>, s: SessionView, i: int)
    requires
        session_ok(entries, s),
        0 <= i,
    ensures
        session_ok(entries, entered(entries, s, i).0),
    decreases entries.len() - i,
{
    if i < entries.len() {
        lemma_entered_ok(entries, s, i + 1);
    }
}

proof fn lemma_entered_keeps(entries: Seq<EntryView>, s: SessionView, i: int)
    ensures
        entered(entries, s, i).0.edges == s.edges,
        entered(entries, s, i).0.servers == s.servers,
        entered(entries, s, i).0.warm == s.warm,
        0 <= i <= entries.len() ==> i <= entered(entries, s, i).0.at <= entries.len(),
        entered(entries, s, i).0.phase is Starting || entered(entries, s, i).0.phase is Asking || entered(entries, s, i).0.phase is Finished,
        entered(entries, s, i).1 is Done <==> entered(entries, s, i).0.phase is Finished,
        entered(entries, s, i).0.phase is Starting ==> server_for(s.servers, entries[entered(entries, s, i).0.at].language) is None && entered(entries, s, i).1 == Step::Start(
            entries[entered(entries, s, i).0.at].language,
        ),
    decreases entries.len() - i,
{
    if 0 <= i < entries.len() {
        lemma_entered_keeps(entries, s, i + 1);
    }
}

proof fn lemma_first_covering(cs: Seq<Concept>, candidates: Seq<usize>, places: Seq<(Seq<char>, u32)>, n: nat)
    requires
        n <= candidates.len(),
    ensures
        first_covering(cs, candidates, places, n) matches Some(c) ==> candidates.contains(c) && covers(cs, c as int, places),
    decreases n,
{
    if n > 0 {
        lemma_first_covering(cs, candidates, places, (n - 1) as nat);
        assert(candidates.contains(candidates[n - 1]));
    }
}

/// Whatever the servers answer, a step takes no edge away, and adds at most
/// one: from the caller to one of the candidates for the callee's name, with a
/// place that the server named in that candidate's declaration.
pub proof fn a_step_adds_only_what_is_confirmed(cs: Seq<Concept>, entries: Seq<EntryView>, warmup: Option<CrateWarmup>, s: SessionView, event: EventView)
    requires
        session_ok(entries, s),
    ensures
        ({
            let after = stepped(cs, entries, warmup, s, event).0;
            after.edges == s.edges || {
                &&& event is Found
                &&& after.edges.len() == s.edges.len() + 1
                &&& after.edges.drop_last() == s.edges
                &&& after.edges.last().caller == entries[s.at].call.caller_id
                &&& after.edges.last().confidence is Semantic
                &&& exists|c: usize| candidates_of(cs, entries[s.at].call.callee_name).contains(c) && #[trigger] covers(cs, c as int, event->Found_0) && cs[c as int].id@ == after.edges.last().callee && after.edges.last().callee != after.edges.last().caller
            }
        }),
{
    lemma_entered_keeps(entries, s, 0);
    lemma_entered_keeps(entries, s, s.at + 1);
    if s.phase is Starting {
        let language = entries[s.at].language;
        lemma_entered_keeps(entries, SessionView { servers: s.servers.push(ServerView { language, running: false, version: None }), ..s }, s.at + 1);
    }
    if s.phase is Asking && event is Found {
        let places = event->Found_0;
        if places.len() > 0 {
            let t = with_confirmed(cs, entries, s, places);
            lemma_entered_keeps(entries, t, s.at + 1);
            let candidates = candidates_of(cs, entries[s.at].call.callee_name);
            lemma_first_covering(cs, candidates, places, candidates.len());
            if t.edges != s.edges {
                let c = first_covering(cs, candidates, places, candidates.len())->0;
                assert(covers(cs, c as int, places));
                assert(t.edges.drop_last() =~= s.edges);
            }
        }
    }
}

/// All that a session has confirmed has the confidence of a server's answer:
/// a step keeps that so, and a session begins with nothing.
pub proof fn what_is_confirmed_is_semantic(cs: Seq<Concept>, entries: Seq<EntryView>, warmup: Option<CrateWarmup>, s: SessionView, event: EventView)
    requires
        session_ok(entries, s),
        forall|k: int| 0 <= k < s.edges.len() ==> (#[trigger] s.edges[k]).confidence is Semantic,
    ensures
        forall|k: int| 0 <= k < stepped(cs, entries, warmup, s, event).0.edges.len() ==> (#[trigger] stepped(cs, entries, warmup, s, event).0.edges[k]).confidence is Semantic,
{
    a_step_adds_only_what_is_confirmed(cs, entries, warmup, s, event);
    let after = stepped(cs, entries, warmup, s, event).0.edges;
    assert forall|k: int| 0 <= k < after.len() implies (#[trigger] after[k]).confidence is Semantic by {
        if k < s.edges.len() {
            assert(after == s.edges || after.drop_last()[k] == s.edges[k]);
            assert(s.edges[k].confidence is Semantic);
        }
    }
}

/// How far a session is from its end: the calls it has not come to, and what
/// is left to do for the one it is at.
pub open spec fn left_to_do(entries: Seq<EntryView>, s: SessionView) -> (int, int) {
    (
        match s.phase {
            Phase::Begin => entries.len() as int + 1,
            Phase::Finished => 0,
            _ => entries.len() - s.at,
        },
        match s.phase {
            Phase::Starting => entries.len() as int + 5,
            Phase::Warming(k) => s.warm.len() - k + 4,
            Phase::Asking(a) => 2 * (DEFINITION_RETRIES - a),
            Phase::Waiting(a) => 2 * (DEFINITION_RETRIES - a) - 1,
            _ => 0,
        },
    )
}

/// Every step but the last brings a session nearer to its end, whatever the
/// servers answer.
pub proof fn sessions_end(cs: Seq<Concept>, entries: Seq<EntryView>, warmup: Option<CrateWarmup>, s: SessionView, event: EventView)
    requires
        session_ok(entries, s),
        entries.len() <= usize::MAX,
        s.phase !is Finished,
    ensures
        ({
            let before = left_to_do(entries, s);
            let (t, step) = stepped(cs, entries, warmup, s, event);
            let after = left_to_do(entries, t);
            &&& after.0 < before.0 || after.0 == before.0 && after.1 < before.1
            &&& 0 <= after.0 && 0 <= after.1
            &&& step is Done <==> t.phase is Finished
        }),
{
    lemma_entered_keeps(entries, s, 0);
    lemma_entered_ok(entries, s, 0);
    if s.phase !is Begin {
        lemma_entered_keeps(entries, s, s.at + 1);
        lemma_entered_ok(entries, s, s.at + 1);
    }
    if s.phase is Starting {
        let language = entries[s.at].language;
        let t = SessionView { servers: s.servers.push(ServerView { language, running: false, version: None }), ..s };
        lemma_entered_keeps(entries, t, s.at + 1);
        lemma_entered_ok(entries, t, s.at + 1);
        match warmup {
            Some(w) => lemma_warming_in(entries, language, w.crate_name@, entries.len()),
            None => {},
        }
    }
    if s.phase is Asking && event is Found {
        let t = with_confirmed(cs, entries, s, event->Found_0);
        lemma_entered_keeps(entries, t, s.at + 1);
        lemma_entered_ok(entries, t, s.at + 1);
    }
}

/// A server is started only for a language that none was started for before.
pub proof fn each_server_is_started_once(cs: Seq<Concept>, entries: Seq<EntryView>, warmup: Option<CrateWarmup>, s: SessionView, event: EventView)
    requires
        session_ok(entries, s),
    ensures
        stepped(cs, entries, warmup, s, event).1 matches Step::Start(language) ==> server_for(stepped(cs, entries, warmup, s, event).0.servers, language) is None,
{
    lemma_entered_keeps(entries, s, 0);
    lemma_entered_keeps(entries, s, s.at + 1);
    lemma_start(entries, s, 0);
    lemma_start(entries, s, s.at + 1);
    if s.phase is Starting {
        let language = entries[s.at].language;
        let t = SessionView { servers: s.servers.push(ServerView { language, running: false, version: None }), ..s };
        lemma_start(entries, t, s.at + 1);
    }
    if s.phase is Asking && event is Found {
        let t = with_confirmed(cs, entries, s, event->Found_0);
        lemma_start(entries, t, s.at + 1);
    }
}

proof fn lemma_start(entries: Seq<EntryView>, s: SessionView, i: int)
    ensures
        entered(entries, s, i).1 matches Step::Start(language) ==> server_for(entered(entries, s, i).0.servers, language) is None,
    decreases entries.len() - i,
{
    if 0 <= i < entries.len() {
        lemma_start(entries, s, i + 1);
    }
}

/// The concept at `c` can be what a call of this name means.
pub open spec fn could_be_meant(cs: Seq<Concept>, c: int, name: Seq<char>) -> bool {
    0 <= c < cs.len() && (cs[c].kind is Function || cs[c].kind is Method) && cs[c].name@ == name
}

/// The place, whose line is counted from 0, lies in the file and the lines of
/// the concept, which are counted from 1.
pub open spec fn holds_place(c: Concept, place: (Seq<char>, u32)) -> bool {
    c.location.file@ == place.0 && c.location.start_line <= place.1 + 1 && place.1 + 1 <= c.location.end_line
}

/// One of the places lies where the id is declared; where several concepts
/// have it, the last one tells where that is.
pub open spec fn is_declared_there(cs: Seq<Concept>, id: Seq<char>, places: Seq<(Seq<char>, u32)>) -> bool {
    exists|h: int, k: int| {
        &&& 0 <= h < cs.len()
        &&& 0 <= k < places.len()
        &&& cs[h].id@ == id
        &&& forall|g: int| h < g < cs.len() ==> (#[trigger] cs[g]).id@ != id
        &&& #[trigger] holds_place(cs[h], places[k])
    }
}

/// The concept at `c` is the first of those that a call of this name can mean
/// where one of the places lies in its declaration.
pub open spec fn is_meant(cs: Seq<Concept>, name: Seq<char>, places: Seq<(Seq<char>, u32)>, c: int) -> bool {
    &&& could_be_meant(cs, c, name)
    &&& is_declared_there(cs, cs[c].id@, places)
    &&& forall|b: int| b < c && #[trigger] could_be_meant(cs, b, name) ==> !is_declared_there(cs, cs[b].id@, places)
}

proof fn lemma_covers(cs: Seq<Concept>, c: int, places: Seq<(Seq<char>, u32)>)
    requires
        0 <= c < cs.len(),
    ensures
        covers(cs, c, places) <==> is_declared_there(cs, cs[c].id@, places),
{
    let id = cs[c].id@;
    lemma_last_of(ids(cs), id);
    assert(ids(cs)[c] == id);
    let h = last_of(ids(cs), id)->0;
    assert forall|g: int| h < g < cs.len() implies (#[trigger] cs[g]).id@ != id by {
        assert(ids(cs)[g] != id);
    }
    assert(cs[h].id@ == ids(cs)[h]);
    if covers(cs, c, places) {
        let k = choose|k: int| 0 <= k < places.len() && lies_within(cs, c, #[trigger] places[k]);
        assert(holds_place(cs[h], places[k]));
    }
    if is_declared_there(cs, id, places) {
        let (g, k) = choose|g: int, k: int| {
            &&& 0 <= g < cs.len()
            &&& 0 <= k < places.len()
            &&& cs[g].id@ == id
            &&& forall|f: int| g < f < cs.len() ==> (#[trigger] cs[f]).id@ != id
            &&& #[trigger] holds_place(cs[g], places[k])
        };
        assert(g == h) by {
            if g < h {
                assert(cs[h].id@ != id);
            } else if h < g {
                assert(cs[g].id@ != id);
            }
        }
        assert(lies_within(cs, c, places[k]));
    }
}

proof fn lemma_first_meant(cs: Seq<Concept>, name: Seq<char>, places: Seq<(Seq<char>, u32)>, n: nat)
    requires
        n <= cs.len() <= usize::MAX,
    ensures
        match first_covering(cs, named(cs, name, n), places, named(cs, name, n).len()) {
            Some(c) => c < n && is_meant(cs, name, places, c as int),
            None => forall|c: int| c < n && #[trigger] could_be_meant(cs, c, name) ==> !is_declared_there(cs, cs[c].id@, places),
        },
    decreases n,
{
    if n > 0 {
        lemma_first_meant(cs, name, places, (n - 1) as nat);
        let (rest, all) = (named(cs, name, (n - 1) as nat), named(cs, name, n));
        lemma_covers(cs, n - 1, places);
        if could_be_meant(cs, n - 1, name) {
            assert(all == rest.push((n - 1) as usize));
            lemma_first_prefix(cs, rest, all, places, rest.len());
        } else {
            assert(all == rest);
        }
    }
}

proof fn lemma_first_prefix(cs: Seq<Concept>, a: Seq<usize>, b: Seq<usize>, places: Seq<(Seq<char>, u32)>, n: nat)
    requires
        n <= a.len() <= b.len(),
        forall|k: int| 0 <= k < a.len() ==> a[k] == b[k],
    ensures
        first_covering(cs, a, places, n) == first_covering(cs, b, places, n),
    decreases n,
{
    if n > 0 {
        lemma_first_prefix(cs, a, b, places, (n - 1) as nat);
    }
}

/// A server's answer confirms a call to one concept: the first of those with
/// the callee's name that one of the places lies in, by its file and its
/// lines, unless that is the caller. A place outside of a concept's lines
/// never confirms that concept.
pub proof fn answers_confirm_what_they_point_into(cs: Seq<Concept>, entry: EntryView, places: Seq<(Seq<char>, u32)>, version: Option<Seq<char>>)
    requires
        cs.len() <= usize::MAX,
    ensures
        match confirmed_edge(cs, entry, places, version) {
            Some(e) => {
                &&& exists|c: int| #[trigger] is_meant(cs, entry.call.callee_name, places, c) && e.callee == cs[c].id@
                &&& e.caller == entry.call.caller_id
                &&& e.callee != e.caller
                &&& e.confidence is Semantic
                &&& e.resolver_version == version
            },
            None => forall|c: int| #[trigger] is_meant(cs, entry.call.callee_name, places, c) ==> cs[c].id@ == entry.call.caller_id,
        },
{
    let name = entry.call.callee_name;
    lemma_first_meant(cs, name, places, cs.len());
    match first_covering(cs, candidates_of(cs, name), places, candidates_of(cs, name).len()) {
        Some(c) => {
            assert(is_meant(cs, name, places, c as int));
            assert forall|d: int| #[trigger] is_meant(cs, name, places, d) implies d == c by {
                assert(could_be_meant(cs, d, name) && could_be_meant(cs, c as int, name));
            }
        },
        None => {
            assert forall|d: int| !(#[trigger] is_meant(cs, name, places, d)) by {
                if is_meant(cs, name, places, d) {
                    assert(could_be_meant(cs, d, name));
                }
            }
        },
    }
}

/// Where all places lie in the lines of one concept with the callee's name, and
/// in those of no other, that one is confirmed, in whatever order the concepts
/// come.
pub proof fn a_place_in_one_of_several_confirms_that_one(cs: Seq<Concept>, entry: EntryView, places: Seq<(Seq<char>, u32)>, version: Option<Seq<char>>, c: int)
    requires
        cs.len() <= usize::MAX,
        ids(cs).no_duplicates(),
        could_be_meant(cs, c, entry.call.callee_name),
        cs[c].id@ != entry.call.caller_id,
        places.len() > 0,
        forall|k: int| 0 <= k < places.len() ==> holds_place(cs[c], #[trigger] places[k]),
        forall|b: int, k: int| b != c && #[trigger] could_be_meant(cs, b, entry.call.callee_name) && 0 <= k < places.len() ==> !holds_place(cs[b], #[trigger] places[k]),
    ensures
        confirmed_edge(cs, entry, places, version) matches Some(e) && e.callee == cs[c].id@,
{
    let name = entry.call.callee_name;
    answers_confirm_what_they_point_into(cs, entry, places, version);
    assert forall|g: int, h: int| 0 <= g < h < cs.len() implies (#[trigger] cs[g]).id@ != (#[trigger] cs[h]).id@ by {
        assert(ids(cs)[g] != ids(cs)[h]);
    }
    assert(holds_place(cs[c], places[0]));
    assert(is_declared_there(cs, cs[c].id@, places)) by {
        assert(forall|g: int| c < g < cs.len() ==> (#[trigger] cs[g]).id@ != cs[c].id@);
    }
    assert forall|b: int| b != c && #[trigger] could_be_meant(cs, b, name) implies !is_declared_there(cs, cs[b].id@, places) by {
        if is_declared_there(cs, cs[b].id@, places) {
            let (h, k) = choose|h: int, k: int| {
                &&& 0 <= h < cs.len()
                &&& 0 <= k < places.len()
                &&& cs[h].id@ == cs[b].id@
                &&& forall|g: int| h < g < cs.len() ==> (#[trigger] cs[g]).id@ != cs[b].id@
                &&& #[trigger] holds_place(cs[h], places[k])
            };
            assert(h == b);
            assert(!holds_place(cs[b], places[k]));
        }
    }
    assert(is_meant(cs, name, places, c));
    if let Some(e) = confirmed_edge(cs, entry, places, version) {
        let d = choose|d: int| #[trigger] is_meant(cs, name, places, d) && e.callee == cs[d].id@;
        assert(could_be_meant(cs, d, name));
    }
}

/// An answer with places brings the edge that it confirms into the session, or
/// nothing where it confirms none; either way the call is done with.
pub proof fn an_answer_is_taken_at_once(cs: Seq<Concept>, entries: Seq<EntryView>, warmup: Option<CrateWarmup>, s: SessionView, places: Seq<(Seq<char>, u32)>)
    requires
        session_ok(entries, s),
        s.phase is Asking,
        places.len() > 0,
        cs.len() <= usize::MAX,
    ensures
        ({
            let entry = entries[s.at];
            let after = stepped(cs, entries, warmup, s, EventView::Found(places)).0;
            &&& after.at > s.at
            &&& if after.edges.len() == s.edges.len() {
                after.edges == s.edges && forall|c: int| #[trigger] is_meant(cs, entry.call.callee_name, places, c) ==> cs[c].id@ == entry.call.caller_id
            } else {
                &&& after.edges.drop_last() == s.edges
                &&& after.edges.last().caller == entry.call.caller_id
                &&& exists|c: int| #[trigger] is_meant(cs, entry.call.callee_name, places, c) && after.edges.last().callee == cs[c].id@ && cs[c].id@ != entry.call.caller_id
            }
        }),
{
    let entry = entries[s.at];
    let version = match server_for(s.servers, entry.language) {
        Some(server) => server.version,
        None => None,
    };
    answers_confirm_what_they_point_into(cs, entry, places, version);
    let t = with_confirmed(cs, entries, s, places);
    lemma_entered_keeps(entries, t, s.at + 1);
    match confirmed_edge(cs, entry, places, version) {
        Some(e) => {
            assert(t.edges == s.edges.push(e));
            assert(t.edges.drop_last() =~= s.edges);
        },
        None => {},
    }
}

/// A server that names no place is asked once more, and then the call is left
/// open; one that fails is not asked again.
pub proof fn a_call_is_asked_about_twice_at_most(cs: Seq<Concept>, entries: Seq<EntryView>, warmup: Option<CrateWarmup>, s: SessionView, event: EventView)
    requires
        session_ok(entries, s),
    ensures
        ({
            let (after, next) = stepped(cs, entries, warmup, s, event);
            &&& s.phase == Phase::Asking(0) && event is Found && event->Found_0.len() == 0 ==> after.at == s.at && after.edges == s.edges && next is Pause
                && (forall|e: EventView| (#[trigger] stepped(cs, entries, warmup, after, e)) == (SessionView { phase: Phase::Asking(1), ..after }, Step::Query(s.at as usize)))
            &&& s.phase == Phase::Asking(1) ==> after.at > s.at
            &&& s.phase is Asking && !(event is Found) ==> after.at > s.at && after.edges == s.edges
        }),
{
    lemma_entered_keeps(entries, s, s.at + 1);
    if s.phase is Asking && event is Found {
        lemma_entered_keeps(entries, with_confirmed(cs, entries, s, event->Found_0), s.at + 1);
    }
}

proof fn lemma_named_exactly(cs: Seq<Concept>, name: Seq<char>, n: nat)
    requires
        n <= cs.len() <= usize::MAX,
    ensures
        forall|c: int| c < n && #[trigger] could_be_meant(cs, c, name) ==> named(cs, name, n).contains(c as usize),
        forall|k: int| 0 <= k < named(cs, name, n).len() ==> (#[trigger] named(cs, name, n)[k]) < n && could_be_meant(cs, named(cs, name, n)[k] as int, name),
        forall|k: int, l: int| 0 <= k < l < named(cs, name, n).len() ==> #[trigger] named(cs, name, n)[k] < #[trigger] named(cs, name, n)[l],
    decreases n,
{
    if n > 0 {
        let (rest, all) = (named(cs, name, (n - 1) as nat), named(cs, name, n));
        lemma_named_exactly(cs, name, (n - 1) as nat);
        assert forall|c: int| c < n && #[trigger] could_be_meant(cs, c, name) implies all.contains(c as usize) by {
            if c < n - 1 {
                let k = choose|k: int| 0 <= k < rest.len() && rest[k] == c as usize;
                assert(all[k] == c as usize);
            } else {
                assert(all[rest.len() as int] == c as usize);
            }
        }
        assert forall|k: int| 0 <= k < all.len() implies (#[trigger] all[k]) < n && could_be_meant(cs, all[k] as int, name) by {
            if k < rest.len() {
                assert(rest[k] == all[k]);
            }
        }
        assert forall|k: int, l: int| 0 <= k < l < all.len() implies #[trigger] all[k] < #[trigger] all[l] by {
            assert(rest[k] == all[k]);
            if l < rest.len() {
                assert(rest[l] == all[l]);
            }
        }
    }
}

/// The concept at `c` is the only one that a call of this name can mean.
pub open spec fn is_alone_meant(cs: Seq<Concept>, c: int, name: Seq<char>) -> bool {
    could_be_meant(cs, c, name) && forall|d: int| #[trigger] could_be_meant(cs, d, name) ==> d == c
}

/// A call of this name can mean two different concepts.
pub open spec fn is_ambiguous(cs: Seq<Concept>, name: Seq<char>) -> bool {
    exists|c: int, d: int| c != d && #[trigger] could_be_meant(cs, c, name) && #[trigger] could_be_meant(cs, d, name)
}

/// A name alone confirms a call where it can mean one concept only, which is
/// not the caller; what it confirms is sure.
pub proof fn a_name_confirms_what_it_alone_means(cs: Seq<Concept>, call: CallView)
    requires
        cs.len() <= usize::MAX,
    ensures
        match exact_edge(cs, call) {
            Some(e) => {
                &&& exists|c: int| #[trigger] is_alone_meant(cs, c, call.callee_name) && e.callee == cs[c].id@
                &&& e.caller == call.caller_id
                &&& e.callee != e.caller
                &&& e.confidence is Exact
                &&& e.resolver_version is None
            },
            None => forall|c: int| #[trigger] is_alone_meant(cs, c, call.callee_name) ==> cs[c].id@ == call.caller_id,
        },
        candidates_of(cs, call.callee_name).len() > 1 <==> is_ambiguous(cs, call.callee_name),
{
    let name = call.callee_name;
    let found = candidates_of(cs, name);
    lemma_named_exactly(cs, name, cs.len());
    if found.len() == 1 {
        let c = found[0] as int;
        assert(could_be_meant(cs, c, name));
        assert forall|d: int| #[trigger] could_be_meant(cs, d, name) implies d == c by {
            let k = choose|k: int| 0 <= k < found.len() && found[k] == d as usize;
        }
        assert(is_alone_meant(cs, c, name));
    } else if found.len() > 1 {
        assert(found[0] < found[1]);
        assert(could_be_meant(cs, found[0] as int, name) && could_be_meant(cs, found[1] as int, name));
        assert forall|c: int| !(#[trigger] is_alone_meant(cs, c, name)) by {}
    } else {
        assert forall|c: int| !(#[trigger] could_be_meant(cs, c, name)) by {
            if could_be_meant(cs, c, name) {
                assert(found.contains(c as usize));
            }
        }
        assert forall|c: int| !(#[trigger] is_alone_meant(cs, c, name)) by {}
    }
}

/// The calls left for a server are those whose name can mean different
/// concepts, each once and in their order.
pub proof fn open_calls_are_the_ambiguous_ones(cs: Seq<Concept>, calls: Seq<EntryView>, n: nat)
    requires
        cs.len() <= usize::MAX,
        n <= calls.len() <= usize::MAX,
    ensures
        forall|k: usize| #[trigger] ambiguous_calls(cs, calls, n).contains(k) <==> k < n && is_ambiguous(cs, calls[k as int].call.callee_name),
        forall|x: int, y: int| 0 <= x < y < ambiguous_calls(cs, calls, n).len() ==> #[trigger] ambiguous_calls(cs, calls, n)[x] < #[trigger] ambiguous_calls(cs, calls, n)[y],
    decreases n,
{
    if n > 0 {
        let (rest, all) = (ambiguous_calls(cs, calls, (n - 1) as nat), ambiguous_calls(cs, calls, n));
        open_calls_are_the_ambiguous_ones(cs, calls, (n - 1) as nat);
        a_name_confirms_what_it_alone_means(cs, calls[n - 1].call);
        assert forall|k: usize| #[trigger] all.contains(k) <==> k < n && is_ambiguous(cs, calls[k as int].call.callee_name) by {
            if rest.contains(k) {
                let x = choose|x: int| 0 <= x < rest.len() && rest[x] == k;
                assert(all[x] == k);
            }
            if all.contains(k) {
                let x = choose|x: int| 0 <= x < all.len() && all[x] == k;
                if x < rest.len() {
                    assert(rest[x] == k);
                    assert(rest.contains(k));
                }
            }
            if k == n - 1 && is_ambiguous(cs, calls[k as int].call.callee_name) {
                assert(all[rest.len() as int] == k);
            }
        }
        assert forall|x: int, y: int| 0 <= x < y < all.len() implies #[trigger] all[x] < #[trigger] all[y] by {
            assert(rest[x] == all[x]);
            assert(rest.contains(rest[x]));
            if y < rest.len() {
                assert(rest[y] == all[y]);
            }
        }
    }
}

/// The edges that names confirm are those of the calls, in their order.
pub proof fn names_confirm_call_by_call(cs: Seq<Concept>, calls: Seq<EntryView>, n: nat, e: EdgeView)
    requires
        n <= calls.len(),
    ensures
        exact_edges(cs, calls, n).contains(e) <==> exists|k: int| 0 <= k < n && exact_edge(cs, (#[trigger] calls[k]).call) == Some(e),
    decreases n,
{
    if n > 0 {
        let (rest, all) = (exact_edges(cs, calls, (n - 1) as nat), exact_edges(cs, calls, n));
        names_confirm_call_by_call(cs, calls, (n - 1) as nat, e);
        if rest.contains(e) {
            let x = choose|x: int| 0 <= x < rest.len() && rest[x] == e;
            assert(all[x] == e);
        }
        if all.contains(e) {
            let x = choose|x: int| 0 <= x < all.len() && all[x] == e;
            if x < rest.len() {
                assert(rest[x] == e);
                assert(rest.contains(e));
            } else {
                assert(exact_edge(cs, calls[n - 1].call) == Some(e));
            }
        }
        if exact_edge(cs, calls[n - 1].call) == Some(e) {
            assert(all[rest.len() as int] == e);
        }
    }
}

}
