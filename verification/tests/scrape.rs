//! Field extraction, ingestion and the enrichment scheduler, driven through
//! real markup.

use sportshub::dates::date_string_to_timestamp;
use sportshub::dom::{
    get_country_from_dom, get_game_name_from_dom, get_info_from_dom, get_url_from_dom,
    split_game_name, DomParseError,
};
use sportshub::enrich::{stream_links_value, PageOutcome, Scheduler};
use sportshub::ingest::{ingest_listing, parse_game, IngestError};
use sportshub::models::StreamNew;
use sportshub::store::EventStore;

#[test]
fn url_is_first_anchors_href() {
    let html = r#"
<html>
   <body>
      <a href="https://sportshub.fan/event/ypiranga_rs_novo_hamburgo_191503337/">
    </body>
</html>
"#;

    let link = get_url_from_dom(html).unwrap();
    assert_eq!(link, "https://sportshub.fan/event/ypiranga_rs_novo_hamburgo_191503337/");
}

#[test]
fn game_name_is_designated_span_text() {
    let html = r#"
<html>
  <body>
   <div class="event-name">
   <span class="mr-5">Ypiranga RS - Novo Hamburgo</span>
  </div>
 </body>
</html>
"#;

    let event_name = get_game_name_from_dom(html).unwrap();
    assert_eq!(event_name, "Ypiranga RS - Novo Hamburgo");
}

#[test]
fn info_is_description_span_text() {
    let html = r#"
<html>
 <body>
 <div class="event-info">
 <span class="evdesc event-desc">Brazilian Campeonato Gaucho</span>
</div>
</body>
</html>
"#;

    let event_info = get_info_from_dom(html).unwrap();
    assert_eq!(event_info, "Brazilian Campeonato Gaucho");
}

#[test]
fn country_comes_from_flag_style() {
    let html = r#"
<html>
  <body>
      <i class="icon-competitions" style="background-image: url(https://sportshub.cdn.prismic.io/sportshub/brazil.svg);"></i>
  </body>
</html>
"#;

    let country = get_country_from_dom(html).unwrap();
    assert_eq!(country, "brazil");
}

#[test]
fn missing_elements_give_typed_errors() {
    let html = "<div><p>nothing here</p></div>";
    assert_eq!(get_url_from_dom(html).unwrap_err(), DomParseError::NotFound);
    assert_eq!(get_game_name_from_dom(html).unwrap_err(), DomParseError::NotFound);
    assert_eq!(get_info_from_dom(html).unwrap_err(), DomParseError::NotFound);
    assert_eq!(get_country_from_dom(html).unwrap_err(), DomParseError::NotFound);

    let no_href = "<div><a>text only</a></div>";
    assert_eq!(get_url_from_dom(no_href).unwrap_err(), DomParseError::NoAttributeFound);
}

#[test]
fn broken_fragment_reports_the_failing_step() {
    let mut store = EventStore::new();
    assert!(matches!(
        parse_game(&mut store, "<div><span>broken</span></div>"),
        Err(IngestError::Dom(DomParseError::NotFound))
    ));
    // anchor present but the schedule text has no slash-separated time
    let mut frag = String::new();
    frag.push_str(r#"<a href="https://example.com/e/1"></a>"#);
    frag.push_str(r#"<span class="mr-5">A – B</span>"#);
    frag.push_str(r#"<span class="evdesc event-desc">Premier League</span>"#);
    frag.push_str(r#"<i class="icon-competitions" style="background-image: url(https://x/e.svg);"></i>"#);
    assert!(matches!(
        parse_game(&mut store, frag.as_str()),
        Err(IngestError::Date(_))
    ));
    assert_eq!(store.get_streams().len(), 0);
}

#[test]
fn name_splits_on_dash_with_unknown_fallback() {
    let (home, away) = split_game_name("Arsenal – Chelsea");
    assert_eq!(home, "Arsenal");
    assert_eq!(away, "Chelsea");

    let (home, away) = split_game_name("Monaco GP");
    assert_eq!(home, "Monaco GP");
    assert_eq!(away, "???");
}

fn arsenal_fragment() -> String {
    let mut frag = String::new();
    frag.push_str(r#"<a href="https://reddit3.sportshub.stream/event/arsenal_chelsea_187734226/"></a>"#);
    frag.push_str(r#"<span class="mr-5">Arsenal – Chelsea</span>"#);
    frag.push_str(r#"<span class="evdesc event-desc">Premier League/1 February at 0:00</span>"#);
    frag.push_str(r#"<i class="icon-competitions" style="background-image: url(https://reddit.sportshub.fan/img/competitions/england.svg);"></i>"#);
    frag
}

#[test]
fn fragment_becomes_event() {
    let mut store = EventStore::new();
    let fragment = arsenal_fragment();
    let inserted = parse_game(&mut store, fragment.as_str()).unwrap();
    assert_eq!(inserted, 1);

    let all = store.get_streams();
    assert_eq!(all.len(), 1);
    let event = &all[0];
    assert_eq!(event.home, "Arsenal");
    assert_eq!(event.away, "Chelsea");
    assert_eq!(event.league, "Premier League");
    assert_eq!(event.country, "england");
    assert_eq!(event.url, "https://reddit3.sportshub.stream/event/arsenal_chelsea_187734226/");
    assert_eq!(event.stream_link, "");
    assert_eq!(event.start_time, date_string_to_timestamp("1 February at 0:00").unwrap());
}

fn listing_page() -> String {
    let mut page = String::new();
    page.push_str("<div class=\"list-events\">");
    page.push_str("<div class=\"wrap-events-item\">");
    page.push_str(arsenal_fragment().as_str());
    page.push_str("</div>");
    page.push_str("<div class=\"wrap-events-item\">");
    page.push_str(r#"<a href="https://reddit3.sportshub.stream/event/leeds_everton_1/"></a>"#);
    page.push_str(r#"<span class="mr-5">Leeds – Everton</span>"#);
    page.push_str(r#"<span class="evdesc event-desc">Premier League/2 February at 18:30</span>"#);
    page.push_str(r#"<i class="icon-competitions" style="background-image: url(https://reddit.sportshub.fan/img/competitions/england.svg);"></i>"#);
    page.push_str("</div>");
    // a broken card: no anchor at all; it must be skipped, not abort the pass
    page.push_str("<div class=\"wrap-events-item\"><span>broken</span></div>");
    page.push_str("</div>");
    page
}

#[test]
fn ingesting_a_listing_twice_adds_nothing() {
    let mut store = EventStore::new();
    let page = listing_page();

    let first = ingest_listing(&mut store, page.as_str()).unwrap();
    assert_eq!(first, 2);
    assert_eq!(store.get_streams().len(), 2);

    let second = ingest_listing(&mut store, page.as_str()).unwrap();
    assert_eq!(second, 0);
    assert_eq!(store.get_streams().len(), 2);
}

#[test]
fn links_value_keeps_only_path_candidates() {
    let cands = vec![
        "https://s1.example//watch".to_string(),
        "plain text".to_string(),
        "http://s2.example//live".to_string(),
    ];
    assert_eq!(stream_links_value(&cands), "https://s1.example//watch,http://s2.example//live");

    let none = vec!["decorative".to_string(), "entry".to_string()];
    assert_eq!(stream_links_value(&none), "");

    let empty: Vec<String> = Vec::new();
    assert_eq!(stream_links_value(&empty), "");
}

fn store_with_events(n: usize) -> EventStore {
    let mut store = EventStore::new();
    let mut i = 0;
    while i < n {
        let url = format!("https://example.com/event/{}", i);
        let new_stream = StreamNew {
            home: "Home",
            away: "Away",
            sport: "Football",
            start_time: 1_700_000_000,
            stream_link: "",
            country: "england",
            league: "Premier League",
            url: url.as_str(),
        };
        store.create_stream(&new_stream).unwrap();
        i += 1;
    }
    store
}

#[test]
fn partition_drops_the_remainder() {
    // Ten events over three workers: chunks of three, one event unassigned.
    let store = store_with_events(10);
    let mut scheduler = Scheduler::new(&store, 3);
    let (done, total) = scheduler.progress();
    assert_eq!(done, 0);
    assert_eq!(total, 10);

    let mut seen = Vec::new();
    let mut store = store;
    for w in 0..3 {
        let mut steps = 0;
        while let Some(url) = scheduler.peek_url(w) {
            seen.push(url);
            scheduler.record_outcome(&mut store, w, PageOutcome::NoLinksTable);
            steps += 1;
        }
        assert_eq!(steps, 3);
    }
    let (done, total) = scheduler.progress();
    assert_eq!(done, 9);
    assert_eq!(total, 10);
    assert_eq!(seen.len(), 9);
    // within a worker, events come in chunk order
    assert_eq!(seen[0], "https://example.com/event/0");
    assert_eq!(seen[3], "https://example.com/event/3");
    assert_eq!(seen[8], "https://example.com/event/8");
}

#[test]
fn no_links_found_is_not_an_error() {
    let store = store_with_events(2);
    let mut scheduler = Scheduler::new(&store, 2);
    let mut store = store;

    // the page had no links table at all
    scheduler.record_outcome(&mut store, 0, PageOutcome::NoLinksTable);
    // the page had a table whose anchors were all decorative
    scheduler.record_outcome(&mut store, 1, PageOutcome::Links(vec!["decorative".to_string()]));

    assert_eq!(store.get_empty_streams().len(), 2);
    assert_eq!(store.get_linked_streams().len(), 0);
    let (done, _) = scheduler.progress();
    assert_eq!(done, 2);
}

#[test]
fn found_links_are_written_back() {
    let store = store_with_events(2);
    let mut scheduler = Scheduler::new(&store, 2);
    let mut store = store;

    let cands = vec!["https://cdn.example//hls".to_string(), "text".to_string()];
    scheduler.record_outcome(&mut store, 0, PageOutcome::Links(cands));

    let linked = store.get_linked_streams();
    assert_eq!(linked.len(), 1);
    assert_eq!(linked[0].url, "https://example.com/event/0");
    assert_eq!(linked[0].stream_link, "https://cdn.example//hls");
}

#[test]
fn fetch_failure_abandons_the_workers_chunk() {
    let store = store_with_events(4);
    let mut scheduler = Scheduler::new(&store, 2);
    let mut store = store;

    scheduler.record_outcome(&mut store, 0, PageOutcome::FetchFailed);
    assert!(scheduler.peek_url(0).is_none());
    assert!(scheduler.peek_url(1).is_some());

    let (done, total) = scheduler.progress();
    assert_eq!(done, 0);
    assert_eq!(total, 4);
}

#[test]
fn update_is_keyed_by_the_decoded_url() {
    let mut store = EventStore::new();
    // the site registers the event under the percent-encoded address, but the
    // write-back is keyed by its decoded form
    let encoded = StreamNew {
        home: "Home",
        away: "Away",
        sport: "Football",
        start_time: 1_700_000_000,
        stream_link: "",
        country: "england",
        league: "Premier League",
        url: "https://example.com/a%20match",
    };
    let decoded = StreamNew {
        home: "Home",
        away: "Away",
        sport: "Football",
        start_time: 1_700_000_000,
        stream_link: "",
        country: "england",
        league: "Premier League",
        url: "https://example.com/a match",
    };
    store.create_stream(&encoded).unwrap();
    store.create_stream(&decoded).unwrap();

    let mut scheduler = Scheduler::new(&store, 1);
    assert_eq!(scheduler.peek_url(0).unwrap(), "https://example.com/a%20match");
    scheduler.record_outcome(&mut store, 0, PageOutcome::Links(vec!["http://cdn//s".to_string()]));

    // the decoded twin took the link; the encoded original silently missed
    let linked = store.get_linked_streams();
    assert_eq!(linked.len(), 1);
    assert_eq!(linked[0].url, "https://example.com/a match");
}
