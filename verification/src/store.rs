//! The event store: an in-memory record table keyed by `url`.
//!
//! This is the record-store shape the pipeline relies on: insert-or-ignore on
//! the natural key, filtered reads, a single-field update keyed by `url`, and
//! the retention purge. The web and enrichment layers drive it through these
//! verified operations.

use vstd::prelude::*;

use crate::models::{EventFields, Stream, StreamNew, StreamView, fields_of, stream_of_fields};
use crate::text::{lemma_filter_elem, lex_le, lemma_lex_le_total, lemma_lex_le_trans, lex_le_str, str_eq};

verus! {

/// Why a write was refused.
#[derive(Clone, Copy, Debug, PartialEq, Eq, Structural)]
pub enum StoreError {
    /// Every identifier has been handed out.
    Full,
}

/// Whether some record in `s` carries the natural key `url`.
pub open spec fn contains_url(s: Seq<StreamView>, url: Seq<char>) -> bool {
    exists|i: int| 0 <= i < s.len() && (#[trigger] s[i].url) == url
}

/// Natural keys are unique and identifiers were handed out below `next_id`.
pub open spec fn store_wf(s: Seq<StreamView>, next_id: int) -> bool {
    &&& 1 <= next_id <= i32::MAX
    &&& forall|i: int, j: int|
        0 <= i < j < s.len() ==> (#[trigger] s[i].url) != (#[trigger] s[j].url)
    &&& forall|i: int|
        0 <= i < s.len() ==> ((#[trigger] s[i].id) matches Some(k) && 1 <= k < next_id)
}

/// What insert-or-ignore does to the store contents: a record with a fresh
/// key is appended under the next identifier, a key conflict changes nothing,
/// and an exhausted identifier space changes nothing (the call errors).
pub open spec fn spec_create(s: Seq<StreamView>, next_id: int, f: EventFields) -> (
    Seq<StreamView>,
    int,
) {
    if contains_url(s, f.url) {
        (s, next_id)
    } else if next_id >= i32::MAX {
        (s, next_id)
    } else {
        (s.push(stream_of_fields(f, next_id)), next_id + 1)
    }
}

/// The record, with its stream links replaced.
pub open spec fn with_link(v: StreamView, links: Seq<char>) -> StreamView {
    StreamView {
        id: v.id,
        away: v.away,
        home: v.home,
        start_time: v.start_time,
        league: v.league,
        country: v.country,
        url: v.url,
        stream_link: links,
        sport: v.sport,
    }
}

pub open spec fn has_empty_link(v: StreamView) -> bool {
    v.stream_link.len() == 0
}

pub open spec fn has_link(v: StreamView) -> bool {
    v.stream_link.len() != 0
}

/// Whether some record pairs `league` with `country`.
pub open spec fn has_pair(s: Seq<StreamView>, league: Seq<char>, country: Seq<char>) -> bool {
    exists|i: int|
        0 <= i < s.len() && (#[trigger] s[i].league) == league && s[i].country == country
}

/// One league together with the country it was seen under.
pub struct LeagueWithCountry {
    pub league: String,
    pub country: String,
}

/// The mathematical value of a league-and-country pair.
pub struct LeagueCountryView {
    pub league: Seq<char>,
    pub country: Seq<char>,
}

impl View for LeagueWithCountry {
    type V = LeagueCountryView;

    open spec fn view(&self) -> LeagueCountryView {
        LeagueCountryView { league: self.league@, country: self.country@ }
    }
}

impl Clone for LeagueWithCountry {
    fn clone(&self) -> (r: Self)
        ensures
            r@ == self@,
    {
        LeagueWithCountry { league: self.league.clone(), country: self.country.clone() }
    }
}

/// The record table. Reads hand out copies; writes go through the verified
/// operations below, which keep the natural key unique.
pub struct EventStore {
    events: Vec<Stream>,
    next_id: i32,
}

impl View for EventStore {
    type V = Seq<StreamView>;

    closed spec fn view(&self) -> Seq<StreamView> {
        Seq::new(self.events@.len(), |i: int| self.events@[i]@)
    }
}

/// Elements of a filtered sequence keep their distinct natural keys.
proof fn lemma_filter_distinct_urls(s: Seq<StreamView>, pred: spec_fn(StreamView) -> bool)
    requires
        forall|i: int, j: int|
            0 <= i < j < s.len() ==> (#[trigger] s[i].url) != (#[trigger] s[j].url),
    ensures
        forall|a: int, b: int|
            0 <= a < b < s.filter(pred).len() ==> (#[trigger] s.filter(pred)[a].url) != (
            #[trigger] s.filter(pred)[b].url),
    decreases s.len(),
{
    reveal(Seq::filter);
    if s.len() > 0 {
        let butlast = s.drop_last();
        assert(forall|i: int, j: int|
            0 <= i < j < butlast.len() ==> (#[trigger] butlast[i].url) != (
            #[trigger] butlast[j].url)) by {
            assert(forall|i: int| 0 <= i < butlast.len() ==> butlast[i] == s[i]);
        }
        lemma_filter_distinct_urls(butlast, pred);
        let fb = butlast.filter(pred);
        if pred(s.last()) {
            assert(s.filter(pred) == fb.push(s.last()));
            assert forall|a: int| 0 <= a < fb.len() implies (#[trigger] fb[a].url) != s.last().url
            by {
                lemma_filter_elem(butlast, pred, a);
                let w = choose|j: int| 0 <= j < butlast.len() && (#[trigger] butlast[j]) == fb[a];
                assert(s[w] == fb[a]);
                assert(s[w].url != s[s.len() - 1].url);
            }
        }
    }
}

/// The filtered query shapes the record table answers.
pub enum StreamQuery<'a> {
    EmptyLink,
    Linked,
    ById(i32),
    BySport(&'a str),
    ByHomeTeam(&'a str),
    ByAwayTeam(&'a str),
    ByEitherTeam(&'a str),
    ByLeague(&'a str),
}

/// Which records a query shape selects.
pub open spec fn query_matches(q: StreamQuery, v: StreamView) -> bool {
    match q {
        StreamQuery::EmptyLink => v.stream_link.len() == 0,
        StreamQuery::Linked => v.stream_link.len() != 0,
        StreamQuery::ById(id) => v.id == Some(id as int),
        StreamQuery::BySport(s) => v.sport == s@,
        StreamQuery::ByHomeTeam(t) => v.home == t@,
        StreamQuery::ByAwayTeam(t) => v.away == t@,
        StreamQuery::ByEitherTeam(t) => v.home == t@ || v.away == t@,
        StreamQuery::ByLeague(l) => v.league == l@,
    }
}

/// Evaluates a query shape on one record.
fn query_eval(q: &StreamQuery, e: &Stream) -> (r: bool)
    ensures
        r == query_matches(*q, e@),
{
    match q {
        StreamQuery::EmptyLink => e.stream_link.as_str().is_empty(),
        StreamQuery::Linked => !e.stream_link.as_str().is_empty(),
        StreamQuery::ById(id) => match e.id {
            Some(i) => i == *id,
            None => false,
        },
        StreamQuery::BySport(s) => str_eq(e.sport.as_str(), s),
        StreamQuery::ByHomeTeam(t) => str_eq(e.home.as_str(), t),
        StreamQuery::ByAwayTeam(t) => str_eq(e.away.as_str(), t),
        StreamQuery::ByEitherTeam(t) => str_eq(e.home.as_str(), t) || str_eq(e.away.as_str(), t),
        StreamQuery::ByLeague(l) => str_eq(e.league.as_str(), l),
    }
}

/// Filtering by predicates that agree on every record gives the same result.
proof fn lemma_filter_congruence(
    s: Seq<StreamView>,
    p1: spec_fn(StreamView) -> bool,
    p2: spec_fn(StreamView) -> bool,
)
    requires
        forall|i: int| 0 <= i < s.len() ==> p1(#[trigger] s[i]) == p2(s[i]),
    ensures
        s.filter(p1) == s.filter(p2),
    decreases s.len(),
{
    reveal(Seq::filter);
    if s.len() > 0 {
        let butlast = s.drop_last();
        assert(forall|i: int| 0 <= i < butlast.len() ==> p1(#[trigger] butlast[i]) == p2(butlast[i]))
            by {
            assert(forall|i: int| 0 <= i < butlast.len() ==> butlast[i] == s[i]);
        }
        lemma_filter_congruence(butlast, p1, p2);
    }
}

impl EventStore {
    /// The next identifier an insert will assign.
    pub closed spec fn spec_next_id(&self) -> int {
        self.next_id as int
    }

    pub open spec fn wf(&self) -> bool {
        store_wf(self@, self.spec_next_id())
    }

    /// An empty store.
    pub fn new() -> (r: EventStore)
        ensures
            r.wf(),
            r@ == Seq::<StreamView>::empty(),
            r.spec_next_id() == 1,
    {
        let r = EventStore { events: Vec::new(), next_id: 1 };
        proof {
            assert(r@ =~= Seq::<StreamView>::empty());
        }
        r
    }

    fn position_of_url(&self, url: &str) -> (r: Option<usize>)
        ensures
            r matches Some(i) ==> i < self@.len() && self@[i as int].url == url@,
            r is None ==> !contains_url(self@, url@),
    {
        let mut i: usize = 0;
        while i < self.events.len()
            invariant
                i <= self@.len(),
                self@.len() == self.events@.len(),
                forall|k: int| 0 <= k < i ==> (#[trigger] self@[k].url) != url@,
            decreases self@.len() - i,
        {
            if str_eq(self.events[i].url.as_str(), url) {
                assert(self@[i as int].url == url@);
                return Some(i);
            }
            i = i + 1;
        }
        None
    }

    /// Inserts a fixture, ignoring the write when its `url` is already
    /// present; returns how many records were added.
    pub fn create_stream(&mut self, new: &StreamNew) -> (r: Result<usize, StoreError>)
        requires
            old(self).wf(),
        ensures
            final(self).wf(),
            final(self)@ == spec_create(old(self)@, old(self).spec_next_id(), fields_of(*new)).0,
            final(self).spec_next_id() == spec_create(
                old(self)@,
                old(self).spec_next_id(),
                fields_of(*new),
            ).1,
            r == (if contains_url(old(self)@, new.url@) {
                Ok::<usize, StoreError>(0)
            } else if old(self).spec_next_id() < i32::MAX {
                Ok::<usize, StoreError>(1)
            } else {
                Err::<usize, StoreError>(StoreError::Full)
            }),
    {
        match self.position_of_url(new.url) {
            Some(_) => Ok(0),
            None => {
                if self.next_id == i32::MAX {
                    return Err(StoreError::Full);
                }
                let record = Stream {
                    id: Some(self.next_id),
                    away: new.away.to_owned(),
                    home: new.home.to_owned(),
                    start_time: new.start_time,
                    league: new.league.to_owned(),
                    country: new.country.to_owned(),
                    url: new.url.to_owned(),
                    stream_link: new.stream_link.to_owned(),
                    sport: new.sport.to_owned(),
                };
                let ghost before = self@;
                self.events.push(record);
                self.next_id = self.next_id + 1;
                proof {
                    assert(self@ =~= before.push(
                        stream_of_fields(fields_of(*new), old(self).spec_next_id()),
                    ));
                }
                Ok(1)
            },
        }
    }

    /// Copies of every record.
    pub fn get_streams(&self) -> (r: Vec<Stream>)
        ensures
            r@.len() == self@.len(),
            forall|i: int| 0 <= i < r@.len() ==> (#[trigger] r@[i])@ == self@[i],
    {
        let mut out: Vec<Stream> = Vec::new();
        let mut i: usize = 0;
        while i < self.events.len()
            invariant
                i <= self@.len(),
                self@.len() == self.events@.len(),
                out@.len() == i,
                forall|k: int| 0 <= k < i ==> (#[trigger] out@[k])@ == self@[k],
            decreases self@.len() - i,
        {
            out.push(self.events[i].clone());
            i = i + 1;
        }
        out
    }

    /// Copies of the records that the query shape selects.
    pub fn select_where(&self, q: &StreamQuery) -> (r: Vec<Stream>)
        ensures
            r@.map_values(|e: Stream| e@) == self@.filter(|v: StreamView| query_matches(*q, v)),
    {
        let ghost pred = |v: StreamView| query_matches(*q, v);
        let mut out: Vec<Stream> = Vec::new();
        let mut i: usize = 0;
        proof {
            reveal(Seq::filter);
            assert(self@.take(0) =~= Seq::<StreamView>::empty());
            assert(out@.map_values(|e: Stream| e@) =~= self@.take(0).filter(pred));
        }
        while i < self.events.len()
            invariant
                i <= self@.len(),
                self@.len() == self.events@.len(),
                pred == (|v: StreamView| query_matches(*q, v)),
                out@.map_values(|e: Stream| e@) == self@.take(i as int).filter(pred),
            decreases self@.len() - i,
        {
            let ghost out_old = out@;
            let keep = query_eval(q, &self.events[i]);
            if keep {
                out.push(self.events[i].clone());
            }
            proof {
                reveal(Seq::filter);
                assert(self@.take(i + 1).drop_last() =~= self@.take(i as int));
                assert(self@.take(i + 1).last() == self@[i as int]);
                if keep {
                    assert(out@.map_values(|e: Stream| e@) =~= out_old.map_values(
                        |e: Stream| e@,
                    ).push(self@[i as int]));
                } else {
                    assert(out@.map_values(|e: Stream| e@) == out_old.map_values(|e: Stream| e@));
                }
            }
            i = i + 1;
        }
        proof {
            assert(self@.take(self@.len() as int) =~= self@);
        }
        out
    }

    /// Copies of the records still lacking stream links.
    pub fn get_empty_streams(&self) -> (r: Vec<Stream>)
        ensures
            r@.map_values(|e: Stream| e@) == self@.filter(|v: StreamView| has_empty_link(v)),
    {
        let q = StreamQuery::EmptyLink;
        let r = self.select_where(&q);
        proof {
            lemma_filter_congruence(
                self@,
                |v: StreamView| query_matches(q, v),
                |v: StreamView| has_empty_link(v),
            );
        }
        r
    }

    /// Copies of the records that already carry stream links.
    pub fn get_linked_streams(&self) -> (r: Vec<Stream>)
        ensures
            r@.map_values(|e: Stream| e@) == self@.filter(|v: StreamView| has_link(v)),
    {
        let q = StreamQuery::Linked;
        let r = self.select_where(&q);
        proof {
            lemma_filter_congruence(
                self@,
                |v: StreamView| query_matches(q, v),
                |v: StreamView| has_link(v),
            );
        }
        r
    }

    /// Copies of the records that already carry stream links; what the API
    /// serves as the active games.
    pub fn get_active_games(&self) -> (r: Vec<Stream>)
        ensures
            r@.map_values(|e: Stream| e@) == self@.filter(|v: StreamView| has_link(v)),
    {
        self.get_linked_streams()
    }

    /// Copies of the records with the given identifier.
    pub fn get_streams_by_id(&self, search_id: i32) -> (r: Vec<Stream>)
        ensures
            r@.map_values(|e: Stream| e@) == self@.filter(
                |v: StreamView| v.id == Some(search_id as int),
            ),
    {
        let q = StreamQuery::ById(search_id);
        let r = self.select_where(&q);
        proof {
            lemma_filter_congruence(
                self@,
                |v: StreamView| query_matches(q, v),
                |v: StreamView| v.id == Some(search_id as int),
            );
        }
        r
    }

    /// Copies of the records classified under the given sport.
    pub fn get_streams_by_sport(&self, search_sport: String) -> (r: Vec<Stream>)
        ensures
            r@.map_values(|e: Stream| e@) == self@.filter(
                |v: StreamView| v.sport == search_sport@,
            ),
    {
        let q = StreamQuery::BySport(search_sport.as_str());
        let r = self.select_where(&q);
        proof {
            lemma_filter_congruence(
                self@,
                |v: StreamView| query_matches(q, v),
                |v: StreamView| v.sport == search_sport@,
            );
        }
        r
    }

    /// Copies of the records whose home side is the given team.
    pub fn get_streams_by_home_team(&self, search_home_team: String) -> (r: Vec<Stream>)
        ensures
            r@.map_values(|e: Stream| e@) == self@.filter(
                |v: StreamView| v.home == search_home_team@,
            ),
    {
        let q = StreamQuery::ByHomeTeam(search_home_team.as_str());
        let r = self.select_where(&q);
        proof {
            lemma_filter_congruence(
                self@,
                |v: StreamView| query_matches(q, v),
                |v: StreamView| v.home == search_home_team@,
            );
        }
        r
    }

    /// Copies of the records whose away side is the given team.
    pub fn get_streams_by_away_team(&self, search_away_team: String) -> (r: Vec<Stream>)
        ensures
            r@.map_values(|e: Stream| e@) == self@.filter(
                |v: StreamView| v.away == search_away_team@,
            ),
    {
        let q = StreamQuery::ByAwayTeam(search_away_team.as_str());
        let r = self.select_where(&q);
        proof {
            lemma_filter_congruence(
                self@,
                |v: StreamView| query_matches(q, v),
                |v: StreamView| v.away == search_away_team@,
            );
        }
        r
    }

    /// Copies of the records in which the given team plays on either side.
    pub fn get_streams_by_either_team(&self, search_team: String) -> (r: Vec<Stream>)
        ensures
            r@.map_values(|e: Stream| e@) == self@.filter(
                |v: StreamView| v.home == search_team@ || v.away == search_team@,
            ),
    {
        let q = StreamQuery::ByEitherTeam(search_team.as_str());
        let r = self.select_where(&q);
        proof {
            lemma_filter_congruence(
                self@,
                |v: StreamView| query_matches(q, v),
                |v: StreamView| v.home == search_team@ || v.away == search_team@,
            );
        }
        r
    }

    /// Copies of the records playing in the given league.
    pub fn get_streams_by_league(&self, search_league: String) -> (r: Vec<Stream>)
        ensures
            r@.map_values(|e: Stream| e@) == self@.filter(
                |v: StreamView| v.league == search_league@,
            ),
    {
        let q = StreamQuery::ByLeague(search_league.as_str());
        let r = self.select_where(&q);
        proof {
            lemma_filter_congruence(
                self@,
                |v: StreamView| query_matches(q, v),
                |v: StreamView| v.league == search_league@,
            );
        }
        r
    }

    /// Replaces the stream links of the record keyed by `url`; returns how
    /// many records were updated.
    pub fn update_link(&mut self, url: &str, links: &str) -> (r: usize)
        requires
            old(self).wf(),
        ensures
            final(self).wf(),
            final(self).spec_next_id() == old(self).spec_next_id(),
            final(self)@ == old(self)@.map_values(
                |v: StreamView|
                    if v.url == url@ {
                        with_link(v, links@)
                    } else {
                        v
                    },
            ),
            r == (if contains_url(old(self)@, url@) {
                1int
            } else {
                0int
            }),
    {
        let ghost target = old(self)@.map_values(
            |v: StreamView|
                if v.url == url@ {
                    with_link(v, links@)
                } else {
                    v
                },
        );
        let mut out: Vec<Stream> = Vec::new();
        let mut count: usize = 0;
        let mut i: usize = 0;
        while i < self.events.len()
            invariant
                i <= self@.len(),
                self@.len() == self.events@.len(),
                target == self@.map_values(
                    |v: StreamView|
                        if v.url == url@ {
                            with_link(v, links@)
                        } else {
                            v
                        },
                ),
                target.len() == self@.len(),
                out@.len() == i,
                forall|k: int| 0 <= k < i ==> (#[trigger] out@[k])@ == target[k],
                count == (if contains_url(self@.take(i as int), url@) {
                    1int
                } else {
                    0int
                }),
                store_wf(self@, old(self).spec_next_id()),
            decreases self@.len() - i,
        {
            let ghost pre = self@.take(i as int);
            if str_eq(self.events[i].url.as_str(), url) {
                let mut e = self.events[i].clone();
                e.stream_link = links.to_owned();
                out.push(e);
                proof {
                    assert(!contains_url(pre, url@)) by {
                        if contains_url(pre, url@) {
                            let w = choose|k: int| 0 <= k < pre.len() && pre[k].url == url@;
                            assert(self@[w].url == self@[i as int].url);
                        }
                    }
                    assert(contains_url(self@.take(i + 1), url@)) by {
                        assert(self@.take(i + 1)[i as int].url == url@);
                    }
                }
                count = count + 1;
            } else {
                out.push(self.events[i].clone());
                proof {
                    if contains_url(self@.take(i + 1), url@) {
                        let w = choose|k: int|
                            0 <= k < i + 1 && (#[trigger] self@.take(i + 1)[k].url) == url@;
                        assert(pre[w].url == url@);
                    }
                    if contains_url(pre, url@) {
                        let w = choose|k: int| 0 <= k < pre.len() && (#[trigger] pre[k].url)
                            == url@;
                        assert(self@.take(i + 1)[w].url == url@);
                    }
                }
            }
            i = i + 1;
        }
        proof {
            assert(self@.take(self@.len() as int) =~= self@);
        }
        self.events = out;
        proof {
            assert(self@ =~= target);
            assert forall|a: int, b: int| 0 <= a < b < self@.len() implies (
            #[trigger] self@[a].url) != (#[trigger] self@[b].url) by {
                assert(self@[a].url == old(self)@[a].url);
                assert(self@[b].url == old(self)@[b].url);
            }
            assert(forall|a: int|
                0 <= a < self@.len() ==> (#[trigger] self@[a].id) == old(self)@[a].id);
        }
        count
    }

    /// Deletes every record whose start time lies at or before the cutoff of
    /// three hours before `now`; returns how many records were deleted.
    pub fn delete_all_past_streams(&mut self, now: i64) -> (r: usize)
        requires
            old(self).wf(),
            now >= i64::MIN + 10800,
        ensures
            final(self).wf(),
            final(self).spec_next_id() == old(self).spec_next_id(),
            final(self)@ == old(self)@.filter(|v: StreamView| v.start_time > now - 10800),
            r == old(self)@.len() - final(self)@.len(),
    {
        let cutoff: i64 = now - 10800;
        let ghost pred = |v: StreamView| v.start_time > now - 10800;
        let mut out: Vec<Stream> = Vec::new();
        let mut i: usize = 0;
        proof {
            reveal(Seq::filter);
            assert(self@.take(0) =~= Seq::<StreamView>::empty());
            assert(out@.map_values(|e: Stream| e@) =~= self@.take(0).filter(pred));
        }
        while i < self.events.len()
            invariant
                i <= self@.len(),
                self@.len() == self.events@.len(),
                pred == (|v: StreamView| v.start_time > now - 10800),
                cutoff == now - 10800,
                out@.map_values(|e: Stream| e@) == self@.take(i as int).filter(pred),
                out@.len() <= i,
            decreases self@.len() - i,
        {
            let ghost out_old = out@;
            let keep = self.events[i].start_time > cutoff;
            if keep {
                out.push(self.events[i].clone());
            }
            proof {
                reveal(Seq::filter);
                assert(self@.take(i + 1).drop_last() =~= self@.take(i as int));
                assert(self@.take(i + 1).last() == self@[i as int]);
                self@.take(i + 1).lemma_filter_len(pred);
                if keep {
                    assert(out@.map_values(|e: Stream| e@) =~= out_old.map_values(
                        |e: Stream| e@,
                    ).push(self@[i as int]));
                } else {
                    assert(out@.map_values(|e: Stream| e@) == out_old.map_values(|e: Stream| e@));
                }
            }
            i = i + 1;
        }
        proof {
            assert(self@.take(self@.len() as int) =~= self@);
        }
        let deleted = self.events.len() - out.len();
        let ghost before = self@;
        self.events = out;
        proof {
            assert(self@ == before.filter(pred));
            lemma_filter_distinct_urls(before, pred);
            assert forall|a: int| 0 <= a < self@.len() implies ((#[trigger] self@[a].id) matches Some(
                k,
            ) && 1 <= k < old(self).spec_next_id()) by {
                lemma_filter_elem(before, pred, a);
                let w = choose|j: int| 0 <= j < before.len() && (#[trigger] before[j]) == self@[a];
            }
        }
        deleted
    }

    /// Deletes every record; returns how many were deleted.
    pub fn delete_all_streams(&mut self) -> (r: usize)
        requires
            old(self).wf(),
        ensures
            final(self).wf(),
            final(self)@ == Seq::<StreamView>::empty(),
            final(self).spec_next_id() == old(self).spec_next_id(),
            r == old(self)@.len(),
    {
        let n = self.events.len();
        self.events = Vec::new();
        proof {
            assert(self@ =~= Seq::<StreamView>::empty());
        }
        n
    }

    /// The distinct league-and-country pairs on record, ordered by league
    /// name.
    pub fn get_unique_leagues_with_country(&self) -> (r: Vec<LeagueWithCountry>)
        ensures
            forall|k: int|
                0 <= k < r@.len() ==> has_pair(self@, (#[trigger] r@[k])@.league, r@[k]@.country),
            forall|j: int|
                0 <= j < self@.len() ==> lwc_has(r@, (#[trigger] self@[j]).league,
                self@[j].country),
            forall|a: int, b: int|
                0 <= a < b < r@.len() ==> !((#[trigger] r@[a])@.league == (#[trigger] r@[b])@.league
                    && r@[a]@.country == r@[b]@.country),
            forall|a: int, b: int|
                0 <= a < b < r@.len() ==> lex_le((#[trigger] r@[a])@.league, (
                #[trigger] r@[b])@.league),
    {
        let mut out: Vec<LeagueWithCountry> = Vec::new();
        let mut i: usize = 0;
        while i < self.events.len()
            invariant
                i <= self@.len(),
                self@.len() == self.events@.len(),
                forall|k: int|
                    0 <= k < out@.len() ==> has_pair(
                        self@,
                        (#[trigger] out@[k])@.league,
                        out@[k]@.country,
                    ),
                forall|j: int|
                    0 <= j < i ==> lwc_has(out@, (#[trigger] self@[j]).league, self@[j].country),
                forall|a: int, b: int|
                    0 <= a < b < out@.len() ==> !((#[trigger] out@[a])@.league == (
                    #[trigger] out@[b])@.league && out@[a]@.country == out@[b]@.country),
                forall|a: int, b: int|
                    0 <= a < b < out@.len() ==> lex_le((#[trigger] out@[a])@.league, (
                    #[trigger] out@[b])@.league),
            decreases self@.len() - i,
        {
            let league = self.events[i].league.clone();
            let country = self.events[i].country.clone();
            if !contains_pair(&out, league.as_str(), country.as_str()) {
                let pos = sorted_position(&out, league.as_str());
                let ghost out_old = out@;
                out.insert(pos, LeagueWithCountry { league, country });
                proof {
                    assert(out@[pos as int]@.league == self@[i as int].league);
                    assert(out@[pos as int]@.country == self@[i as int].country);
                    assert forall|k: int| 0 <= k < out@.len() implies has_pair(
                        self@,
                        (#[trigger] out@[k])@.league,
                        out@[k]@.country,
                    ) by {
                        if k < pos {
                            assert(out@[k] == out_old[k]);
                        } else if k == pos {
                            assert(self@[i as int].league == out@[k]@.league);
                        } else {
                            assert(out@[k] == out_old[k - 1]);
                        }
                    }
                    assert forall|j: int| 0 <= j < i + 1 implies lwc_has(
                        out@,
                        (#[trigger] self@[j]).league,
                        self@[j].country,
                    ) by {
                        if j < i {
                            let w = choose|k: int|
                                0 <= k < out_old.len() && (#[trigger] out_old[k])@.league
                                    == self@[j].league && out_old[k]@.country == self@[j].country;
                            if w < pos {
                                assert(out@[w] == out_old[w]);
                            } else {
                                assert(out@[w + 1] == out_old[w]);
                            }
                        } else {
                            assert(out@[pos as int]@.league == self@[j].league);
                        }
                    }
                    assert forall|a: int, b: int| 0 <= a < b < out@.len() implies lex_le((
                    #[trigger] out@[a])@.league, (#[trigger] out@[b])@.league) by {
                        lemma_sorted_insert(out_old, out@, pos as int, a, b);
                    }
                    assert forall|a: int, b: int| 0 <= a < b < out@.len() implies !((
                    #[trigger] out@[a])@.league == (#[trigger] out@[b])@.league && out@[a]@.country
                        == out@[b]@.country) by {
                        lemma_distinct_insert(out_old, out@, pos as int, a, b);
                    }
                }
            }
            i = i + 1;
        }
        out
    }
}

/// Whether some pair in the list matches the given league and country.
pub open spec fn lwc_has(rs: Seq<LeagueWithCountry>, league: Seq<char>, country: Seq<char>) -> bool {
    exists|k: int|
        0 <= k < rs.len() && (#[trigger] rs[k])@.league == league && rs[k]@.country == country
}

fn contains_pair(out: &Vec<LeagueWithCountry>, league: &str, country: &str) -> (r: bool)
    ensures
        r == lwc_has(out@, league@, country@),
{
    let mut k: usize = 0;
    while k < out.len()
        invariant
            k <= out@.len(),
            forall|j: int|
                0 <= j < k ==> !((#[trigger] out@[j])@.league == league@ && out@[j]@.country
                    == country@),
        decreases out@.len() - k,
    {
        if str_eq(out[k].league.as_str(), league) && str_eq(out[k].country.as_str(), country) {
            return true;
        }
        k = k + 1;
    }
    false
}

/// The first position whose league is at or after the given one; inserting
/// there keeps the list sorted.
fn sorted_position(out: &Vec<LeagueWithCountry>, league: &str) -> (r: usize)
    ensures
        r <= out@.len(),
        forall|k: int| 0 <= k < r ==> !lex_le(league@, (#[trigger] out@[k])@.league),
        r < out@.len() ==> lex_le(league@, out@[r as int]@.league),
{
    let mut j: usize = 0;
    while j < out.len()
        invariant
            j <= out@.len(),
            forall|k: int| 0 <= k < j ==> !lex_le(league@, (#[trigger] out@[k])@.league),
        decreases out@.len() - j,
    {
        if lex_le_str(league, out[j].league.as_str()) {
            return j;
        }
        j = j + 1;
    }
    j
}

/// Inserting at the first fitting position keeps the list sorted by league.
proof fn lemma_sorted_insert(
    old_seq: Seq<LeagueWithCountry>,
    new_seq: Seq<LeagueWithCountry>,
    pos: int,
    a: int,
    b: int,
)
    requires
        0 <= pos <= old_seq.len(),
        new_seq == old_seq.insert(pos, new_seq[pos]),
        forall|x: int, y: int|
            0 <= x < y < old_seq.len() ==> lex_le((#[trigger] old_seq[x])@.league, (
            #[trigger] old_seq[y])@.league),
        forall|k: int| 0 <= k < pos ==> !lex_le(new_seq[pos]@.league, (#[trigger] old_seq[k])@.league),
        pos < old_seq.len() ==> lex_le(new_seq[pos]@.league, old_seq[pos]@.league),
        0 <= a < b < new_seq.len(),
    ensures
        lex_le(new_seq[a]@.league, new_seq[b]@.league),
{
    let nl = new_seq[pos]@.league;
    if a < pos {
        assert(new_seq[a] == old_seq[a]);
        lemma_lex_le_total(nl, old_seq[a]@.league);
        if b < pos {
            assert(new_seq[b] == old_seq[b]);
        } else if b == pos {
        } else {
            assert(new_seq[b] == old_seq[b - 1]);
            if a < b - 1 {
            } else {
                // a == b - 1 >= pos contradicts a < pos unless b - 1 == a < pos <= b - 1
                assert(a < b - 1 || a == b - 1);
                if a == b - 1 {
                    assert(pos <= b - 1);
                    assert(false);
                }
            }
        }
    } else if a == pos {
        if b == pos + 1 && pos < old_seq.len() {
            assert(new_seq[b] == old_seq[pos]);
        } else {
            assert(new_seq[b] == old_seq[b - 1]);
            assert(pos < old_seq.len());
            assert(b - 1 > pos - 1);
            if b - 1 == pos {
                assert(new_seq[b] == old_seq[pos]);
            } else {
                lemma_lex_le_trans(nl, old_seq[pos]@.league, old_seq[b - 1]@.league);
            }
        }
    } else {
        assert(new_seq[a] == old_seq[a - 1]);
        assert(new_seq[b] == old_seq[b - 1]);
    }
}

/// Inserting a pair that is not yet present keeps the pairs distinct.
proof fn lemma_distinct_insert(
    old_seq: Seq<LeagueWithCountry>,
    new_seq: Seq<LeagueWithCountry>,
    pos: int,
    a: int,
    b: int,
)
    requires
        0 <= pos <= old_seq.len(),
        new_seq == old_seq.insert(pos, new_seq[pos]),
        forall|x: int, y: int|
            0 <= x < y < old_seq.len() ==> !((#[trigger] old_seq[x])@.league == (
            #[trigger] old_seq[y])@.league && old_seq[x]@.country == old_seq[y]@.country),
        !lwc_has(old_seq, new_seq[pos]@.league, new_seq[pos]@.country),
        0 <= a < b < new_seq.len(),
    ensures
        !(new_seq[a]@.league == new_seq[b]@.league && new_seq[a]@.country == new_seq[b]@.country),
{
    if a < pos {
        assert(new_seq[a] == old_seq[a]);
    }
    if a > pos {
        assert(new_seq[a] == old_seq[a - 1]);
    }
    if b < pos {
        assert(new_seq[b] == old_seq[b]);
    }
    if b > pos {
        assert(new_seq[b] == old_seq[b - 1]);
    }
}

} // verus!
