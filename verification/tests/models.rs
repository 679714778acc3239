//! JSON rendering of fixtures.

use sportshub::models::Stream;

#[test]
fn test_serialise_streamlink() {
    let stream = Stream {
        id: Some(1),
        home: "home".to_string(),
        away: "away".to_string(),
        start_time: 100000,
        league: "league".to_string(),
        country: "country".to_string(),
        url: "url".to_string(),
        stream_link: "stream_link".to_string(),
        sport: "sport".to_string(),
    };

    let serialised = stream.to_json();
    assert_eq!(serialised,
               "{\"id\":1,\"home\":\"home\",\"away\":\"away\",\"start_time\":100000,\"league\":\"league\",\"country\":\"country\",\"url\":\"url\",\"stream_link\":[\"stream_link\"],\"sport\":\"sport\"}");
}

#[test]
fn test_serialise_streamlink_multiple() {
    let stream = Stream {
        id: Some(1),
        home: "home".to_string(),
        away: "away".to_string(),
        start_time: 100,
        league: "league".to_string(),
        country: "country".to_string(),
        url: "url".to_string(),
        stream_link: "stream_link,stream_link2".to_string(),
        sport: "sport".to_string(),
    };

    let serialised = stream.to_json();
    assert_eq!(serialised,
               "{\"id\":1,\"home\":\"home\",\"away\":\"away\",\"start_time\":100,\"league\":\"league\",\"country\":\"country\",\"url\":\"url\",\"stream_link\":[\"stream_link\",\"stream_link2\"],\"sport\":\"sport\"}");
}

#[test]
fn test_serialise_streamlink_empty() {
    let stream = Stream {
        id: Some(1),
        home: "home".to_string(),
        away: "away".to_string(),
        start_time: 90000,
        league: "league".to_string(),
        country: "country".to_string(),
        url: "url".to_string(),
        stream_link: "".to_string(),
        sport: "sport".to_string(),
    };

    let serialised = stream.to_json();
    assert_eq!(serialised,
               "{\"id\":1,\"home\":\"home\",\"away\":\"away\",\"start_time\":90000,\"league\":\"league\",\"country\":\"country\",\"url\":\"url\",\"stream_link\":[\"\"],\"sport\":\"sport\"}");
}

#[test]
fn serialise_escapes_and_negatives() {
    let stream = Stream {
        id: None,
        home: "say \"hi\"".to_string(),
        away: "a\\b".to_string(),
        start_time: -5,
        league: "l\n".to_string(),
        country: "c".to_string(),
        url: "u".to_string(),
        stream_link: "".to_string(),
        sport: "s".to_string(),
    };

    let serialised = stream.to_json();
    assert_eq!(serialised,
               "{\"id\":null,\"home\":\"say \\\"hi\\\"\",\"away\":\"a\\\\b\",\"start_time\":-5,\"league\":\"l\\n\",\"country\":\"c\",\"url\":\"u\",\"stream_link\":[\"\"],\"sport\":\"s\"}");
}

#[test]
fn sports_catalogue_is_complete() {
    let sports = sportshub::sports::all_sports();
    assert_eq!(sports.len(), 38);
    assert_eq!(sports[0].name, "Football");
    assert_eq!(sports[0].url, "https://reddit3.sportshub.stream/");

    let sport = sportshub::sports::Sport::new("Chess", "https://example.com/chess/");
    assert_eq!(sport.name, "Chess");
    assert_eq!(sport.url, "https://example.com/chess/");
}
