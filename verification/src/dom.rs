//! Field extraction from event-card markup.
//!
//! The HTML itself is handled by the `tl` parser behind trusted wrappers
//! whose results are named functions of the fragment text; everything that
//! interprets those results — splitting the name into home and away sides,
//! splitting the description into league and schedule text, carving the
//! country out of a background-image URL — is verified here.

use vstd::prelude::*;

use crate::text::{
    chars_to_string, spec_replace, spec_split, spec_trim, replace_chars, split_chars, str_to_chars,
    trim_chars,
};

verus! {

/// Why a field could not be read from a fragment.
#[derive(Clone, Copy, Debug, PartialEq, Eq, Structural)]
pub enum DomParseError {
    /// No element matched the selector.
    NotFound,
    /// The matched element carries no such attribute.
    NoAttributeFound,
    /// The fragment could not be parsed or resolved at all.
    Unknown,
}

/// What looking up the first `selector` match's `attr` value in a fragment
/// yields: `Err` when the fragment cannot be parsed or resolved, `Ok(None)`
/// when no element matches, `Ok(Some(None))` when the element lacks the
/// attribute, and the attribute text otherwise. A function of the three
/// texts alone.
pub uninterp spec fn sel_attr_of(html: Seq<char>, selector: Seq<char>, attr: Seq<char>) -> Result<
    Option<Option<Seq<char>>>,
    (),
>;

/// What the first `selector` match's inner text is: `Err` when the fragment
/// cannot be parsed or resolved, `Ok(None)` when no element matches. A
/// function of the two texts alone.
pub uninterp spec fn sel_text_of(html: Seq<char>, selector: Seq<char>) -> Result<
    Option<Seq<char>>,
    (),
>;

/// The inner markup of each element carrying the given class, in document
/// order; `Err` when the fragment cannot be parsed. A function of the two
/// texts alone.
pub uninterp spec fn class_fragments_of(html: Seq<char>, class: Seq<char>) -> Result<
    Seq<Seq<char>>,
    (),
>;

/// Relies on `tl::parse` and `tl::VDom::query_selector`: parsing is
/// deterministic, and the first matching element's attribute value is a
/// function of the fragment, selector and attribute texts.
#[verifier::external_body]
fn query_first_attr(html: &str, selector: &str, attr: &str) -> (r: Result<
    Option<Option<String>>,
    (),
>)
    ensures
        (match r {
            Ok(None) => sel_attr_of(html@, selector@, attr@) == Ok::<Option<Option<Seq<char>>>, ()>(
                None,
            ),
            Ok(Some(None)) => sel_attr_of(html@, selector@, attr@) == Ok::<
                Option<Option<Seq<char>>>,
                (),
            >(Some(None)),
            Ok(Some(Some(s))) => sel_attr_of(html@, selector@, attr@) == Ok::<
                Option<Option<Seq<char>>>,
                (),
            >(Some(Some(s@))),
            Err(_) => sel_attr_of(html@, selector@, attr@) is Err,
        }),
{
    let dom = match tl::parse(html, tl::ParserOptions::default()) { Ok(d) => d, Err(_) => return Err(()) };
    let handle = dom.query_selector(selector).and_then(|mut it| it.next());
    let node = match handle { Some(h) => match h.get(dom.parser()) { Some(n) => n, None => return Err(()) }, None => return Ok(None) };
    let tag = match node.as_tag() { Some(t) => t, None => return Ok(Some(None)) };
    match tag.attributes().get(attr) { Some(Some(v)) => Ok(Some(Some(v.as_utf8_str().to_string()))), _ => Ok(Some(None)) }
}

/// Relies on `tl::parse` and `tl::VDom::query_selector`: the first matching
/// element's inner text is a function of the fragment and selector texts.
#[verifier::external_body]
fn query_first_text(html: &str, selector: &str) -> (r: Result<Option<String>, ()>)
    ensures
        (match r {
            Ok(None) => sel_text_of(html@, selector@) == Ok::<Option<Seq<char>>, ()>(None),
            Ok(Some(s)) => sel_text_of(html@, selector@) == Ok::<Option<Seq<char>>, ()>(
                Some(s@),
            ),
            Err(_) => sel_text_of(html@, selector@) is Err,
        }),
{
    let dom = match tl::parse(html, tl::ParserOptions::default()) { Ok(d) => d, Err(_) => return Err(()) };
    match dom.query_selector(selector).and_then(|mut it| it.next()) {
        Some(h) => match h.get(dom.parser()) {
            Some(n) => Ok(Some(n.inner_text(dom.parser()).to_string())),
            None => Err(()),
        },
        None => Ok(None),
    }
}

/// Relies on `tl::parse` and `tl::VDom::get_elements_by_class_name`: the
/// inner markup of the class's elements, in document order, is a function of
/// the fragment and class texts.
#[verifier::external_body]
pub(crate) fn fragments_by_class(html: &str, class: &str) -> (r: Result<Vec<String>, ()>)
    ensures
        (match r {
            Ok(v) => class_fragments_of(html@, class@) == Ok::<Seq<Seq<char>>, ()>(v.deep_view()),
            Err(_) => class_fragments_of(html@, class@) is Err,
        }),
{
    let dom = match tl::parse(html, tl::ParserOptions::default()) { Ok(d) => d, Err(_) => return Err(()) };
    let mut out: Vec<String> = Vec::new();
    for handle in dom.get_elements_by_class_name(class) {
        if let Some(node) = handle.get(dom.parser()) {
            out.push(node.inner_html(dom.parser()).to_string());
        }
    }
    Ok(out)
}

/// The lookup the event URL extraction performs.
pub open spec fn url_lookup(html: Seq<char>) -> Result<Option<Option<Seq<char>>>, ()> {
    sel_attr_of(html, "a"@, "href"@)
}

/// The event's detail-page URL: the `href` of the fragment's first anchor.
pub fn get_url_from_dom(html: &str) -> (r: Result<String, DomParseError>)
    ensures
        (match r {
            Ok(u) => url_lookup(html@) == Ok::<Option<Option<Seq<char>>>, ()>(Some(Some(u@))),
            Err(DomParseError::NotFound) => url_lookup(html@) == Ok::<
                Option<Option<Seq<char>>>,
                (),
            >(None),
            Err(DomParseError::NoAttributeFound) => url_lookup(html@) == Ok::<
                Option<Option<Seq<char>>>,
                (),
            >(Some(None)),
            Err(DomParseError::Unknown) => url_lookup(html@) is Err,
        }),
{
    match query_first_attr(html, "a", "href") {
        Ok(Some(Some(u))) => Ok(u),
        Ok(Some(None)) => Err(DomParseError::NoAttributeFound),
        Ok(None) => Err(DomParseError::NotFound),
        Err(_) => Err(DomParseError::Unknown),
    }
}

/// The lookup the game-name extraction performs.
pub open spec fn name_lookup(html: Seq<char>) -> Result<Option<Seq<char>>, ()> {
    sel_text_of(html, "span.mr-5"@)
}

/// The game's displayed name: the text of the designated name element.
pub fn get_game_name_from_dom(html: &str) -> (r: Result<String, DomParseError>)
    ensures
        (match r {
            Ok(n) => name_lookup(html@) == Ok::<Option<Seq<char>>, ()>(Some(n@)),
            Err(DomParseError::NotFound) => name_lookup(html@) == Ok::<Option<Seq<char>>, ()>(
                None,
            ),
            Err(DomParseError::Unknown) => name_lookup(html@) is Err,
            Err(DomParseError::NoAttributeFound) => false,
        }),
{
    match query_first_text(html, "span.mr-5") {
        Ok(Some(n)) => Ok(n),
        Ok(None) => Err(DomParseError::NotFound),
        Err(_) => Err(DomParseError::Unknown),
    }
}

/// The lookup the event-info extraction performs.
pub open spec fn info_lookup(html: Seq<char>) -> Result<Option<Seq<char>>, ()> {
    sel_text_of(html, "span.evdesc.event-desc"@)
}

/// The event's description text: league and schedule, separated by a slash.
pub fn get_info_from_dom(html: &str) -> (r: Result<String, DomParseError>)
    ensures
        (match r {
            Ok(n) => info_lookup(html@) == Ok::<Option<Seq<char>>, ()>(Some(n@)),
            Err(DomParseError::NotFound) => info_lookup(html@) == Ok::<Option<Seq<char>>, ()>(
                None,
            ),
            Err(DomParseError::Unknown) => info_lookup(html@) is Err,
            Err(DomParseError::NoAttributeFound) => false,
        }),
{
    match query_first_text(html, "span.evdesc.event-desc") {
        Ok(Some(n)) => Ok(n),
        Ok(None) => Err(DomParseError::NotFound),
        Err(_) => Err(DomParseError::Unknown),
    }
}

/// The lookup the country extraction performs.
pub open spec fn style_lookup(html: Seq<char>) -> Result<Option<Option<Seq<char>>>, ()> {
    sel_attr_of(html, "i.icon-competitions"@, "style"@)
}

/// The country name carved out of a background-image style value: the last
/// slash-separated path segment, with the closing `);` and the `.svg` suffix
/// removed.
pub open spec fn country_of_style(style: Seq<char>) -> Seq<char> {
    let parts = spec_split(style, '/');
    spec_replace(spec_replace(parts[parts.len() - 1], ");"@, ""@), ".svg"@, ""@)
}

/// The event's country, read from the flag icon's background-image URL.
pub fn get_country_from_dom(html: &str) -> (r: Result<String, DomParseError>)
    ensures
        (match r {
            Ok(c) => style_lookup(html@) matches Ok(Some(Some(style))) && c@ == country_of_style(
                style,
            ),
            Err(DomParseError::NotFound) => style_lookup(html@) == Ok::<
                Option<Option<Seq<char>>>,
                (),
            >(None),
            Err(DomParseError::NoAttributeFound) => style_lookup(html@) == Ok::<
                Option<Option<Seq<char>>>,
                (),
            >(Some(None)),
            Err(DomParseError::Unknown) => style_lookup(html@) is Err,
        }),
{
    let style = match query_first_attr(html, "i.icon-competitions", "style") {
        Ok(Some(Some(s))) => s,
        Ok(Some(None)) => {
            return Err(DomParseError::NoAttributeFound);
        },
        Ok(None) => {
            return Err(DomParseError::NotFound);
        },
        Err(_) => {
            return Err(DomParseError::Unknown);
        },
    };
    let cs = str_to_chars(style.as_str());
    let parts = split_chars(&cs, '/');
    proof {
        assert(parts.deep_view()[parts@.len() - 1] == parts@[parts@.len() - 1]@);
    }
    let last = &parts[parts.len() - 1];
    let stripped = replace_chars(last, &str_to_chars(");"), &str_to_chars(""));
    let country = replace_chars(&stripped, &str_to_chars(".svg"), &str_to_chars(""));
    Ok(chars_to_string(&country))
}

/// The two sides of a game name: the text around the first dash separator,
/// each side trimmed; a missing away side reads as unknown.
pub open spec fn home_of_name(name: Seq<char>) -> Seq<char> {
    spec_trim(spec_split(name, '–')[0])
}

pub open spec fn away_of_name(name: Seq<char>) -> Seq<char> {
    let parts = spec_split(name, '–');
    if parts.len() >= 2 {
        spec_trim(parts[parts.len() - 1])
    } else {
        "???"@
    }
}

/// Splits a game name such as `Arsenal – Chelsea` into the trimmed home and
/// away team names; when no dash separator is present the away side is the
/// unknown marker.
pub fn split_game_name(name: &str) -> (r: (String, String))
    ensures
        r.0@ == home_of_name(name@),
        r.1@ == away_of_name(name@),
{
    let cs = str_to_chars(name);
    let parts = split_chars(&cs, '–');
    proof {
        assert(parts.deep_view()[0] == parts@[0]@);
        assert(parts.deep_view()[parts@.len() - 1] == parts@[parts@.len() - 1]@);
    }
    let home = chars_to_string(&trim_chars(&parts[0]));
    if parts.len() >= 2 {
        let away = chars_to_string(&trim_chars(&parts[parts.len() - 1]));
        (home, away)
    } else {
        let away = unknown_side();
        (home, away)
    }
}

/// The marker for a side that could not be read from the name.
fn unknown_side() -> (r: String)
    ensures
        r@ == "???"@,
{
    let cs = str_to_chars("???");
    chars_to_string(&cs)
}

} // verus!
