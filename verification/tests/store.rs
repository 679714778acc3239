//! The record table: inserts, queries, updates and the retention purge.

use sportshub::models::StreamNew;
use sportshub::store::EventStore;

fn sample_stream<'a>() -> StreamNew<'a> {
    StreamNew {
        home: "Arsenal",
        away: "Chelsea",
        sport: "Football",
        start_time: 1612128000,
        stream_link: "https://www.youtube.com/watch?v=dQw4w9WgXcQ,https://www.youtube.com/watch?v=dQw4w9WgXcQ",
        country: "England",
        league: "Premier League",
        url: "https://www.youtube.com/watch?v=dQw4w9WgXcQ",
    }
}

#[test]
fn test_get_home_team() {
    let mut test_db = EventStore::new();

    let new_stream = StreamNew {
        home: "Arsenal",
        away: "Chelsea",
        sport: "Football",
        start_time: 1612128000,
        stream_link: "https://www.youtube.com/watch?v=dQw4w9WgXcQ,https://www.youtube.com/watch?v=dQw4w9WgXcQ",
        country: "England",
        league: "Premier League",
        url: "https://www.youtube.com/watch?v=dQw4w9WgXcQ",
    };

    create_ok(&mut test_db, &new_stream);

    let streams = test_db.get_streams_by_home_team("Arsenal".to_string());

    assert_eq!(streams.len(), 1);

    assert_eq!(streams[0].home, "Arsenal");

    test_db.delete_all_streams();

    assert_eq!(test_db.get_streams().len(), 0);
}

fn create_ok(store: &mut EventStore, new_stream: &StreamNew) -> usize {
    store.create_stream(new_stream).unwrap()
}

#[test]
fn insert_is_idempotent_on_url() {
    let mut store = EventStore::new();
    let first = sample_stream();

    assert_eq!(create_ok(&mut store, &first), 1);
    assert_eq!(create_ok(&mut store, &first), 0);
    assert_eq!(store.get_streams().len(), 1);

    let mut other = sample_stream();
    other.url = "https://example.com/other";
    assert_eq!(create_ok(&mut store, &other), 1);
    assert_eq!(store.get_streams().len(), 2);
}

#[test]
fn ids_are_assigned_in_order() {
    let mut store = EventStore::new();
    let mut a = sample_stream();
    a.url = "https://example.com/a";
    let mut b = sample_stream();
    b.url = "https://example.com/b";
    create_ok(&mut store, &a);
    create_ok(&mut store, &b);
    let all = store.get_streams();
    assert_eq!(all[0].id, Some(1));
    assert_eq!(all[1].id, Some(2));
    assert_eq!(store.get_streams_by_id(2).len(), 1);
    assert_eq!(store.get_streams_by_id(3).len(), 0);
}

#[test]
fn queries_filter_on_their_field() {
    let mut store = EventStore::new();
    let mut a = sample_stream();
    a.url = "https://example.com/a";
    a.stream_link = "";
    let mut b = sample_stream();
    b.url = "https://example.com/b";
    b.home = "Leeds";
    create_ok(&mut store, &a);
    create_ok(&mut store, &b);

    assert_eq!(store.get_empty_streams().len(), 1);
    assert_eq!(store.get_linked_streams().len(), 1);
    assert_eq!(store.get_active_games().len(), 1);
    assert_eq!(store.get_streams_by_sport("Football".to_string()).len(), 2);
    assert_eq!(store.get_streams_by_home_team("Leeds".to_string()).len(), 1);
    assert_eq!(store.get_streams_by_away_team("Chelsea".to_string()).len(), 2);
    assert_eq!(store.get_streams_by_either_team("Leeds".to_string()).len(), 1);
    assert_eq!(store.get_streams_by_league("Premier League".to_string()).len(), 2);
}

#[test]
fn update_link_is_keyed_by_url() {
    let mut store = EventStore::new();
    let mut a = sample_stream();
    a.url = "https://example.com/a";
    a.stream_link = "";
    create_ok(&mut store, &a);

    assert_eq!(store.update_link("https://example.com/missing", "x//y"), 0);
    assert_eq!(store.update_link("https://example.com/a", "http://s//1,http://s//2"), 1);

    let linked = store.get_linked_streams();
    assert_eq!(linked.len(), 1);
    assert_eq!(linked[0].stream_link, "http://s//1,http://s//2");
}

#[test]
fn purge_deletes_only_past_events() {
    let now: i64 = 1_700_000_000;
    let mut store = EventStore::new();

    let mut old_event = sample_stream();
    old_event.url = "https://example.com/old";
    old_event.start_time = now - 4 * 3600;
    create_ok(&mut store, &old_event);

    let mut fresh_event = sample_stream();
    fresh_event.url = "https://example.com/fresh";
    fresh_event.start_time = now - 3600;
    create_ok(&mut store, &fresh_event);

    let deleted = store.delete_all_past_streams(now);
    assert_eq!(deleted, 1);

    let left = store.get_streams();
    assert_eq!(left.len(), 1);
    assert_eq!(left[0].url, "https://example.com/fresh");
}

#[test]
fn purge_cutoff_is_exactly_three_hours() {
    let now: i64 = 1_700_000_000;
    let mut store = EventStore::new();

    let mut at_cutoff = sample_stream();
    at_cutoff.url = "https://example.com/cutoff";
    at_cutoff.start_time = now - 3 * 3600;
    create_ok(&mut store, &at_cutoff);

    let mut just_inside = sample_stream();
    just_inside.url = "https://example.com/inside";
    just_inside.start_time = now - 3 * 3600 + 1;
    create_ok(&mut store, &just_inside);

    assert_eq!(store.delete_all_past_streams(now), 1);
    assert_eq!(store.get_streams()[0].url, "https://example.com/inside");
}

#[test]
fn unique_leagues_are_sorted_and_deduplicated() {
    let mut store = EventStore::new();

    let mut a = sample_stream();
    a.url = "https://example.com/a";
    a.league = "Serie A";
    a.country = "italy";
    create_ok(&mut store, &a);

    let mut b = sample_stream();
    b.url = "https://example.com/b";
    b.league = "Bundesliga";
    b.country = "germany";
    create_ok(&mut store, &b);

    let mut c = sample_stream();
    c.url = "https://example.com/c";
    c.league = "Serie A";
    c.country = "italy";
    create_ok(&mut store, &c);

    let leagues = store.get_unique_leagues_with_country();
    assert_eq!(leagues.len(), 2);
    assert_eq!(leagues[0].league, "Bundesliga");
    assert_eq!(leagues[0].country, "germany");
    assert_eq!(leagues[1].league, "Serie A");
    assert_eq!(leagues[1].country, "italy");
}
