//! The event ingestor: one pass over a listing page's event cards.
//!
//! Each card fragment yields the fields of one fixture; a fragment whose
//! markup or schedule text cannot be read is skipped without disturbing the
//! rest of the pass, and inserts are idempotent on the natural key `url`.

use vstd::prelude::*;

use crate::dates::{
    DateParseError, clock_now, clock_reading_ok, closest_instant, closest_year_instant,
    date_parser, lemma_closest_result_fn, spec_date_canon,
};
use crate::dom::{
    DomParseError, away_of_name, class_fragments_of, country_of_style, fragments_by_class,
    get_country_from_dom, get_game_name_from_dom, get_info_from_dom, get_url_from_dom, home_of_name,
    info_lookup, name_lookup, split_game_name, style_lookup, url_lookup,
};
use crate::models::{EventFields, StreamNew, StreamView, stream_of_fields};
use crate::store::{EventStore, StoreError, contains_url, spec_create};
use crate::text::{chars_to_string, spec_split, spec_trim, split_chars, str_to_chars, trim_chars};

verus! {

/// Why one fragment, or a whole pass, failed.
#[derive(Clone, Copy, Debug, PartialEq, Eq, Structural)]
pub enum IngestError {
    /// A field could not be read from the fragment's markup.
    Dom(DomParseError),
    /// The schedule text did not resolve to an instant.
    Date(DateParseError),
    /// The store refused the insert.
    Store(StoreError),
}

/// The fixture fields one card fragment yields under a given clock reading,
/// when every extraction step succeeds.
pub open spec fn fragment_fields(html: Seq<char>, now: int, year: int) -> Option<EventFields> {
    match url_lookup(html) {
        Ok(Some(Some(url))) => match name_lookup(html) {
            Ok(Some(name)) => match info_lookup(html) {
                Ok(Some(info)) => match style_lookup(html) {
                    Ok(Some(Some(style))) => {
                        let info_parts = spec_split(info, '/');
                        if info_parts.len() >= 2 {
                            match closest_instant(spec_date_canon(info_parts[1]), now, year) {
                                Some(t) => Some(
                                    EventFields {
                                        home: home_of_name(name),
                                        away: away_of_name(name),
                                        start_time: t,
                                        league: spec_trim(info_parts[0]),
                                        country: spec_trim(country_of_style(style)),
                                        url: spec_trim(url),
                                        stream_link: Seq::empty(),
                                        sport: Seq::empty(),
                                    },
                                ),
                                None => None,
                            }
                        } else {
                            None
                        }
                    },
                    _ => None,
                },
                _ => None,
            },
            _ => None,
        },
        _ => None,
    }
}

/// What one fragment does to the store: nothing when a step fails, an
/// insert-or-ignore of its fields otherwise.
pub open spec fn parse_game_outcome(
    s: Seq<StreamView>,
    nid: int,
    html: Seq<char>,
    now: int,
    year: int,
    s2: Seq<StreamView>,
    nid2: int,
    r: Result<usize, IngestError>,
) -> bool {
    match fragment_fields(html, now, year) {
        None => s2 == s && nid2 == nid && r is Err && !(r matches Err(IngestError::Store(_))),
        Some(f) => {
            if contains_url(s, f.url) {
                s2 == s && nid2 == nid && r == Ok::<usize, IngestError>(0)
            } else if nid < i32::MAX {
                s2 == s.push(stream_of_fields(f, nid)) && nid2 == nid + 1 && r == Ok::<
                    usize,
                    IngestError,
                >(1)
            } else {
                s2 == s && nid2 == nid && r == Err::<usize, IngestError>(
                    IngestError::Store(StoreError::Full),
                )
            }
        },
    }
}

/// Parses one event-card fragment against an explicit clock reading and
/// upserts the fixture it describes.
pub fn parse_game_at(store: &mut EventStore, html: &str, now: i64, year: i32) -> (r: Result<
    usize,
    IngestError,
>)
    requires
        old(store).wf(),
        2 <= year <= 9998,
        -70_000_000_000 <= now <= 260_000_000_000,
    ensures
        final(store).wf(),
        parse_game_outcome(
            old(store)@,
            old(store).spec_next_id(),
            html@,
            now as int,
            year as int,
            final(store)@,
            final(store).spec_next_id(),
            r,
        ),
{
    let url = match get_url_from_dom(html) {
        Ok(u) => u,
        Err(e) => {
            return Err(IngestError::Dom(e));
        },
    };
    let name = match get_game_name_from_dom(html) {
        Ok(n) => n,
        Err(e) => {
            return Err(IngestError::Dom(e));
        },
    };
    let sides = split_game_name(name.as_str());
    let info = match get_info_from_dom(html) {
        Ok(n) => n,
        Err(e) => {
            return Err(IngestError::Dom(e));
        },
    };
    let info_cs = str_to_chars(info.as_str());
    let info_parts = split_chars(&info_cs, '/');
    proof {
        assert(info_parts.deep_view()[0] == info_parts@[0]@);
        if info_parts@.len() >= 2 {
            assert(info_parts.deep_view()[1] == info_parts@[1]@);
        }
    }
    if info_parts.len() < 2 {
        return Err(IngestError::Date(DateParseError::Unparseable));
    }
    let league = chars_to_string(&trim_chars(&info_parts[0]));
    let time_text = chars_to_string(&info_parts[1]);
    let canon = date_parser(time_text.as_str());
    let start_time = match closest_year_instant(canon.as_str(), now, year) {
        Ok(t) => t,
        Err(e) => {
            proof {
                lemma_closest_result_fn(
                    canon@,
                    now as int,
                    year as int,
                    Err::<i64, DateParseError>(e),
                );
            }
            return Err(IngestError::Date(e));
        },
    };
    proof {
        lemma_closest_result_fn(
            canon@,
            now as int,
            year as int,
            Ok::<i64, DateParseError>(start_time),
        );
    }
    let country_raw = get_country_from_dom(html);
    let country = match country_raw {
        Ok(c) => chars_to_string(&trim_chars(&str_to_chars(c.as_str()))),
        Err(e) => {
            return Err(IngestError::Dom(e));
        },
    };
    let url_trimmed = chars_to_string(&trim_chars(&str_to_chars(url.as_str())));
    let record = StreamNew {
        home: sides.0.as_str(),
        away: sides.1.as_str(),
        start_time,
        league: league.as_str(),
        country: country.as_str(),
        url: url_trimmed.as_str(),
        stream_link: "",
        sport: "",
    };
    proof {
        let f = fragment_fields(html@, now as int, year as int).unwrap();
        reveal_strlit("");
        assert(crate::models::fields_of(record).stream_link =~= f.stream_link);
        assert(crate::models::fields_of(record).sport =~= f.sport);
        assert(crate::models::fields_of(record) == f);
    }
    match store.create_stream(&record) {
        Ok(n) => Ok(n),
        Err(e) => Err(IngestError::Store(e)),
    }
}

/// What a whole pass does to the store: the fragments folded in order, each
/// one skipped or upserted.
pub open spec fn spec_ingest(
    s: Seq<StreamView>,
    nid: int,
    frags: Seq<Seq<char>>,
    now: int,
    year: int,
) -> (Seq<StreamView>, int)
    decreases frags.len(),
{
    if frags.len() == 0 {
        (s, nid)
    } else {
        let step = match fragment_fields(frags[0], now, year) {
            Some(f) => spec_create(s, nid, f),
            None => (s, nid),
        };
        spec_ingest(step.0, step.1, frags.skip(1), now, year)
    }
}

/// Ingests a batch of card fragments against an explicit clock reading.
/// Fragments that fail to parse are skipped; only an exhausted identifier
/// space aborts the pass.
#[verifier::rlimit(50)]
pub fn ingest_fragments_at(store: &mut EventStore, frags: &Vec<String>, now: i64, year: i32) -> (r:
    Result<usize, IngestError>)
    requires
        old(store).wf(),
        2 <= year <= 9998,
        -70_000_000_000 <= now <= 260_000_000_000,
    ensures
        final(store).wf(),
        r matches Ok(n) ==> {
            let folded = spec_ingest(
                old(store)@,
                old(store).spec_next_id(),
                frags.deep_view(),
                now as int,
                year as int,
            );
            final(store)@ == folded.0 && final(store).spec_next_id() == folded.1 && n
                == folded.1 - old(store).spec_next_id()
        },
        r is Err ==> final(store).spec_next_id() == i32::MAX,
{
    let mut i: usize = 0;
    let mut count: usize = 0;
    let ghost fs = frags.deep_view();
    proof {
        assert(fs.skip(0) =~= fs);
    }
    while i < frags.len()
        invariant
            old(store).wf(),
            store.wf(),
            i <= frags@.len(),
            fs == frags.deep_view(),
            fs.len() == frags@.len(),
            2 <= year <= 9998,
            -70_000_000_000 <= now <= 260_000_000_000,
            store.spec_next_id() >= old(store).spec_next_id(),
            count == store.spec_next_id() - old(store).spec_next_id(),
            spec_ingest(
                old(store)@,
                old(store).spec_next_id(),
                fs,
                now as int,
                year as int,
            ) == spec_ingest(
                store@,
                store.spec_next_id(),
                fs.skip(i as int),
                now as int,
                year as int,
            ),
        decreases frags@.len() - i,
    {
        proof {
            assert(fs[i as int] == frags@[i as int]@);
            assert(fs.skip(i as int)[0] == fs[i as int]);
            assert(fs.skip(i as int).skip(1) =~= fs.skip(i + 1));
        }
        let ghost s_before = store@;
        let ghost nid_before = store.spec_next_id();
        let step = parse_game_at(store, frags[i].as_str(), now, year);
        proof {
            let spec_step = match fragment_fields(fs[i as int], now as int, year as int) {
                Some(f) => spec_create(s_before, nid_before, f),
                None => (s_before, nid_before),
            };
            if !(step matches Err(IngestError::Store(_))) {
                assert(store@ == spec_step.0 && store.spec_next_id() == spec_step.1);
                assert(spec_ingest(s_before, nid_before, fs.skip(i as int), now as int, year as int)
                    == spec_ingest(store@, store.spec_next_id(), fs.skip(i + 1), now as int, year as int));
            }
        }
        match step {
            Ok(n) => {
                proof {
                    assert(count + n == store.spec_next_id() - old(store).spec_next_id());
                }
                count = count + n;
            },
            Err(IngestError::Store(_)) => {
                return Err(IngestError::Store(StoreError::Full));
            },
            Err(_) => {
            },
        }
        i = i + 1;
    }
    proof {
        assert(fs.skip(fs.len() as int) =~= Seq::<Seq<char>>::empty());
    }
    Ok(count)
}

/// The marker class that wraps each event card on the listing page.
pub fn listing_card_class() -> (r: &'static str)
    ensures
        r@ == "wrap-events-item"@,
{
    "wrap-events-item"
}

/// Parses one event-card fragment against the machine clock and upserts the
/// fixture it describes.
pub fn parse_game(store: &mut EventStore, html: &str) -> (r: Result<usize, IngestError>)
    requires
        old(store).wf(),
    ensures
        final(store).wf(),
        exists|now: int, year: int|
            #[trigger] clock_reading_ok(now, year) && parse_game_outcome(
                old(store)@,
                old(store).spec_next_id(),
                html@,
                now,
                year,
                final(store)@,
                final(store).spec_next_id(),
                r,
            ),
{
    let (now, year) = clock_now();
    parse_game_at(store, html, now, year)
}

/// Splits a listing page into its event-card fragments and ingests them
/// against the machine clock; an unparseable page changes nothing.
pub fn ingest_listing(store: &mut EventStore, html: &str) -> (r: Result<usize, IngestError>)
    requires
        old(store).wf(),
    ensures
        final(store).wf(),
        class_fragments_of(html@, "wrap-events-item"@) is Err ==> r == Err::<usize, IngestError>(
            IngestError::Dom(DomParseError::Unknown),
        ) && final(store)@ == old(store)@ && final(store).spec_next_id()
            == old(store).spec_next_id(),
        (class_fragments_of(html@, "wrap-events-item"@) is Ok && r is Ok) ==> exists|
            now: int,
            year: int,
        |
            {
                let fs = class_fragments_of(html@, "wrap-events-item"@)->Ok_0;
                let folded = spec_ingest(old(store)@, old(store).spec_next_id(), fs, now, year);
                #[trigger] clock_reading_ok(now, year) && final(store)@ == folded.0
                    && final(store).spec_next_id() == folded.1 && r->Ok_0 == folded.1
                    - old(store).spec_next_id()
            },
        r is Err ==> (class_fragments_of(html@, "wrap-events-item"@) is Err
            || final(store).spec_next_id() == i32::MAX),
{
    let frags = match fragments_by_class(html, listing_card_class()) {
        Ok(v) => v,
        Err(_) => {
            return Err(IngestError::Dom(DomParseError::Unknown));
        },
    };
    let (now, year) = clock_now();
    ingest_fragments_at(store, &frags, now, year)
}

/// Inserting never removes a natural key, and identifiers never move
/// backwards.
proof fn lemma_create_monotone(s: Seq<StreamView>, nid: int, f: EventFields, u: Seq<char>)
    ensures
        contains_url(s, u) ==> contains_url(spec_create(s, nid, f).0, u),
        spec_create(s, nid, f).1 >= nid,
{
    if contains_url(s, u) {
        let w = choose|i: int| 0 <= i < s.len() && (#[trigger] s[i].url) == u;
        assert(spec_create(s, nid, f).0[w].url == u);
    }
}

/// A whole pass never removes a natural key, and identifiers never move
/// backwards.
proof fn lemma_ingest_monotone(
    s: Seq<StreamView>,
    nid: int,
    frags: Seq<Seq<char>>,
    now: int,
    year: int,
    u: Seq<char>,
)
    ensures
        contains_url(s, u) ==> contains_url(spec_ingest(s, nid, frags, now, year).0, u),
        spec_ingest(s, nid, frags, now, year).1 >= nid,
    decreases frags.len(),
{
    if frags.len() == 0 {
    } else {
        let step = match fragment_fields(frags[0], now, year) {
            Some(f) => spec_create(s, nid, f),
            None => (s, nid),
        };
        if fragment_fields(frags[0], now, year) is Some {
            lemma_create_monotone(s, nid, fragment_fields(frags[0], now, year).unwrap(), u);
        }
        lemma_ingest_monotone(step.0, step.1, frags.skip(1), now, year, u);
    }
}

/// After a pass, every fragment's key is on record — unless that fragment
/// was skipped, or the identifier space ran out.
proof fn lemma_ingest_covers(
    s: Seq<StreamView>,
    nid: int,
    frags: Seq<Seq<char>>,
    now: int,
    year: int,
    i: int,
)
    requires
        0 <= i < frags.len(),
    ensures
        ({
            let folded = spec_ingest(s, nid, frags, now, year);
            match fragment_fields(frags[i], now, year) {
                None => true,
                Some(f) => contains_url(folded.0, f.url) || folded.1 >= i32::MAX,
            }
        }),
    decreases frags.len(),
{
    let step = match fragment_fields(frags[0], now, year) {
        Some(f) => spec_create(s, nid, f),
        None => (s, nid),
    };
    if i == 0 {
        match fragment_fields(frags[0], now, year) {
            None => {
            },
            Some(f) => {
                if contains_url(s, f.url) || nid < i32::MAX {
                    assert(contains_url(step.0, f.url)) by {
                        if !contains_url(s, f.url) {
                            assert(step.0[s.len() as int].url == f.url);
                        } else {
                            lemma_create_monotone(s, nid, f, f.url);
                        }
                    }
                    lemma_ingest_monotone(step.0, step.1, frags.skip(1), now, year, f.url);
                } else {
                    lemma_ingest_monotone(step.0, step.1, frags.skip(1), now, year, f.url);
                }
            },
        }
    } else {
        lemma_ingest_covers(step.0, step.1, frags.skip(1), now, year, i - 1);
        assert(frags.skip(1)[i - 1] == frags[i]);
    }
}

/// A pass whose every fragment is already covered changes nothing.
proof fn lemma_ingest_noop(
    s: Seq<StreamView>,
    nid: int,
    frags: Seq<Seq<char>>,
    now: int,
    year: int,
)
    requires
        forall|i: int|
            0 <= i < frags.len() ==> (match fragment_fields(#[trigger] frags[i], now, year) {
                None => true,
                Some(f) => contains_url(s, f.url) || nid >= i32::MAX,
            }),
    ensures
        spec_ingest(s, nid, frags, now, year) == (s, nid),
    decreases frags.len(),
{
    if frags.len() == 0 {
    } else {
        assert(fragment_fields(frags[0], now, year) == fragment_fields(frags[0], now, year));
        let step = match fragment_fields(frags[0], now, year) {
            Some(f) => spec_create(s, nid, f),
            None => (s, nid),
        };
        assert(step == (s, nid));
        assert(forall|i: int|
            0 <= i < frags.skip(1).len() ==> (match fragment_fields(
                #[trigger] frags.skip(1)[i],
                now,
                year,
            ) {
                None => true,
                Some(f) => contains_url(s, f.url) || nid >= i32::MAX,
            })) by {
            assert(forall|i: int| 0 <= i < frags.skip(1).len() ==> frags.skip(1)[i] == frags[i + 1]);
        }
        lemma_ingest_noop(s, nid, frags.skip(1), now, year);
    }
}

/// Ingesting the same listing snapshot twice produces no duplicate events:
/// the second pass over the same fragments and clock reading leaves the
/// store exactly as the first pass left it.
pub proof fn lemma_ingest_idempotent(
    s: Seq<StreamView>,
    nid: int,
    frags: Seq<Seq<char>>,
    now: int,
    year: int,
)
    ensures
        ({
            let once = spec_ingest(s, nid, frags, now, year);
            spec_ingest(once.0, once.1, frags, now, year) == once
        }),
{
    let once = spec_ingest(s, nid, frags, now, year);
    assert forall|i: int|
        0 <= i < frags.len() implies (match fragment_fields(#[trigger] frags[i], now, year) {
        None => true,
        Some(f) => contains_url(once.0, f.url) || once.1 >= i32::MAX,
    }) by {
        lemma_ingest_covers(s, nid, frags, now, year, i);
    }
    lemma_ingest_noop(once.0, once.1, frags, now, year);
}

} // verus!
