//! The event record and its JSON rendering.
//!
//! A `Stream` is one scheduled fixture. Its `stream_link` field holds zero or
//! more resolved stream URLs joined by commas; the empty string means "not
//! yet enriched". The JSON rendering splits that field into an array of
//! strings, so an empty field renders as a one-element array holding the
//! empty string.

use vstd::prelude::*;

use crate::text::{push_all, spec_join, spec_split, split_chars, str_to_chars};

verus! {

/// The mathematical value of a `Stream`.
pub struct StreamView {
    pub id: Option<int>,
    pub away: Seq<char>,
    pub home: Seq<char>,
    pub start_time: int,
    pub league: Seq<char>,
    pub country: Seq<char>,
    pub url: Seq<char>,
    pub stream_link: Seq<char>,
    pub sport: Seq<char>,
}

/// One scheduled fixture. `url` is the natural key; `start_time` is seconds
/// since the Unix epoch.
pub struct Stream {
    pub id: Option<i32>,
    pub away: String,
    pub home: String,
    pub start_time: i64,
    pub league: String,
    pub country: String,
    pub url: String,
    pub stream_link: String,
    pub sport: String,
}

impl View for Stream {
    type V = StreamView;

    open spec fn view(&self) -> StreamView {
        StreamView {
            id: match self.id {
                Some(i) => Some(i as int),
                None => None,
            },
            away: self.away@,
            home: self.home@,
            start_time: self.start_time as int,
            league: self.league@,
            country: self.country@,
            url: self.url@,
            stream_link: self.stream_link@,
            sport: self.sport@,
        }
    }
}

impl Clone for Stream {
    fn clone(&self) -> (r: Self)
        ensures
            r@ == self@,
    {
        Stream {
            id: self.id,
            away: self.away.clone(),
            home: self.home.clone(),
            start_time: self.start_time,
            league: self.league.clone(),
            country: self.country.clone(),
            url: self.url.clone(),
            stream_link: self.stream_link.clone(),
            sport: self.sport.clone(),
        }
    }
}

/// The fields of a fixture about to be inserted; the store assigns the id.
pub struct StreamNew<'a> {
    pub home: &'a str,
    pub away: &'a str,
    pub start_time: i64,
    pub league: &'a str,
    pub country: &'a str,
    pub url: &'a str,
    pub stream_link: &'a str,
    pub sport: &'a str,
}

/// The field values of a fixture, as mathematical values; what an insert
/// stores, before an identifier is assigned.
pub struct EventFields {
    pub home: Seq<char>,
    pub away: Seq<char>,
    pub start_time: int,
    pub league: Seq<char>,
    pub country: Seq<char>,
    pub url: Seq<char>,
    pub stream_link: Seq<char>,
    pub sport: Seq<char>,
}

pub open spec fn fields_of(new: StreamNew) -> EventFields {
    EventFields {
        home: new.home@,
        away: new.away@,
        start_time: new.start_time as int,
        league: new.league@,
        country: new.country@,
        url: new.url@,
        stream_link: new.stream_link@,
        sport: new.sport@,
    }
}

/// The record that inserting `f` under identifier `id` produces.
pub open spec fn stream_of_fields(f: EventFields, id: int) -> StreamView {
    StreamView {
        id: Some(id),
        away: f.away,
        home: f.home,
        start_time: f.start_time,
        league: f.league,
        country: f.country,
        url: f.url,
        stream_link: f.stream_link,
        sport: f.sport,
    }
}

/// JSON escape of one character, as a JSON serializer writes strings: quote
/// and backslash escaped, the named control escapes, and `\u00xx` for the
/// remaining control characters.
pub open spec fn esc_char(c: char) -> Seq<char> {
    if c == '"' {
        seq!['\\', '"']
    } else if c == '\\' {
        seq!['\\', '\\']
    } else if c == '\u{8}' {
        seq!['\\', 'b']
    } else if c == '\t' {
        seq!['\\', 't']
    } else if c == '\n' {
        seq!['\\', 'n']
    } else if c == '\u{c}' {
        seq!['\\', 'f']
    } else if c == '\r' {
        seq!['\\', 'r']
    } else if (c as u32) < 0x20 {
        seq!['\\', 'u', '0', '0', hex_digit((c as int) / 16), hex_digit((c as int) % 16)]
    } else {
        seq![c]
    }
}

pub open spec fn hex_digit(n: int) -> char {
    if n == 0 {
        '0'
    } else if n == 1 {
        '1'
    } else if n == 2 {
        '2'
    } else if n == 3 {
        '3'
    } else if n == 4 {
        '4'
    } else if n == 5 {
        '5'
    } else if n == 6 {
        '6'
    } else if n == 7 {
        '7'
    } else if n == 8 {
        '8'
    } else if n == 9 {
        '9'
    } else if n == 10 {
        'a'
    } else if n == 11 {
        'b'
    } else if n == 12 {
        'c'
    } else if n == 13 {
        'd'
    } else if n == 14 {
        'e'
    } else {
        'f'
    }
}

pub open spec fn json_escaped(s: Seq<char>) -> Seq<char>
    decreases s.len(),
{
    if s.len() == 0 {
        Seq::empty()
    } else {
        esc_char(s[0]) + json_escaped(s.skip(1))
    }
}

/// A JSON string literal: the escaped text in double quotes.
pub open spec fn json_string(s: Seq<char>) -> Seq<char> {
    seq!['"'] + json_escaped(s) + seq!['"']
}

/// A JSON array of string literals.
pub open spec fn json_string_array(parts: Seq<Seq<char>>) -> Seq<char> {
    seq!['['] + spec_join(parts.map_values(|p: Seq<char>| json_string(p)), ',') + seq![']']
}

/// The decimal digits of a non-negative number, most significant first.
pub open spec fn dec_digits(n: nat) -> Seq<char>
    decreases n,
{
    if n < 10 {
        seq![hex_digit(n as int)]
    } else {
        dec_digits(n / 10) + seq![hex_digit((n % 10) as int)]
    }
}

/// The decimal rendering of an integer.
pub open spec fn int_dec(v: int) -> Seq<char> {
    if v < 0 {
        seq!['-'] + dec_digits((-v) as nat)
    } else {
        dec_digits(v as nat)
    }
}

/// The exact JSON rendering of a fixture: all fields in declaration order,
/// with `stream_link` split on commas into an array of strings.
pub open spec fn stream_json(v: StreamView) -> Seq<char> {
    "{\"id\":"@ + (match v.id {
        Some(i) => int_dec(i),
        None => "null"@,
    }) + ",\"home\":"@ + json_string(v.home) + ",\"away\":"@ + json_string(v.away)
        + ",\"start_time\":"@ + int_dec(v.start_time) + ",\"league\":"@ + json_string(v.league)
        + ",\"country\":"@ + json_string(v.country) + ",\"url\":"@ + json_string(v.url)
        + ",\"stream_link\":"@ + json_string_array(spec_split(v.stream_link, ',')) + ",\"sport\":"@
        + json_string(v.sport) + "}"@
}

/// Appends a string slice to a character buffer.
fn push_lit(out: &mut Vec<char>, s: &str)
    ensures
        final(out)@ == old(out)@ + s@,
{
    let cs = str_to_chars(s);
    push_all(out, &cs);
}

fn hex_digit_char(n: u32) -> (r: char)
    requires
        n < 16,
    ensures
        r == hex_digit(n as int),
{
    if n == 0 {
        '0'
    } else if n == 1 {
        '1'
    } else if n == 2 {
        '2'
    } else if n == 3 {
        '3'
    } else if n == 4 {
        '4'
    } else if n == 5 {
        '5'
    } else if n == 6 {
        '6'
    } else if n == 7 {
        '7'
    } else if n == 8 {
        '8'
    } else if n == 9 {
        '9'
    } else if n == 10 {
        'a'
    } else if n == 11 {
        'b'
    } else if n == 12 {
        'c'
    } else if n == 13 {
        'd'
    } else if n == 14 {
        'e'
    } else {
        'f'
    }
}

/// Appends the JSON escape of one character.
fn push_esc_char(out: &mut Vec<char>, c: char)
    ensures
        final(out)@ == old(out)@ + esc_char(c),
{
    if c == '"' {
        out.push('\\');
        out.push('"');
    } else if c == '\\' {
        out.push('\\');
        out.push('\\');
    } else if c == '\u{8}' {
        out.push('\\');
        out.push('b');
    } else if c == '\t' {
        out.push('\\');
        out.push('t');
    } else if c == '\n' {
        out.push('\\');
        out.push('n');
    } else if c == '\u{c}' {
        out.push('\\');
        out.push('f');
    } else if c == '\r' {
        out.push('\\');
        out.push('r');
    } else if (c as u32) < 0x20 {
        let u = c as u32;
        out.push('\\');
        out.push('u');
        out.push('0');
        out.push('0');
        out.push(hex_digit_char(u / 16));
        out.push(hex_digit_char(u % 16));
    } else {
        out.push(c);
    }
    proof {
        assert(out@ =~= old(out)@ + esc_char(c));
    }
}

/// Appends a JSON string literal rendering the given text.
fn push_json_string(out: &mut Vec<char>, s: &Vec<char>)
    ensures
        final(out)@ == old(out)@ + json_string(s@),
{
    out.push('"');
    let ghost opened = out@;
    let mut i: usize = 0;
    proof {
        assert(s@.skip(0) =~= s@);
    }
    while i < s.len()
        invariant
            i <= s@.len(),
            json_escaped(s@) == out@.skip(opened.len() as int) + json_escaped(s@.skip(i as int)),
            out@.len() >= opened.len(),
            out@.take(opened.len() as int) == opened,
        decreases s@.len() - i,
    {
        let ghost out_old = out@;
        push_esc_char(out, s[i]);
        proof {
            assert(s@.skip(i as int)[0] == s@[i as int]);
            assert(s@.skip(i as int).skip(1) =~= s@.skip(i + 1));
            assert(out@.skip(opened.len() as int) =~= out_old.skip(opened.len() as int) + esc_char(
                s@[i as int],
            ));
            assert(out@.take(opened.len() as int) =~= out_old.take(opened.len() as int));
        }
        i = i + 1;
    }
    proof {
        assert(s@.skip(s@.len() as int) =~= Seq::<char>::empty());
        assert(out@.skip(opened.len() as int) + Seq::<char>::empty() =~= out@.skip(
            opened.len() as int,
        ));
    }
    let ghost pre = out@;
    out.push('"');
    proof {
        assert(pre =~= pre.take(opened.len() as int) + pre.skip(opened.len() as int));
        assert(opened =~= old(out)@ + seq!['"']);
        assert(pre.skip(opened.len() as int) == json_escaped(s@));
        assert(out@ =~= pre.push('"'));
        assert(out@ =~= old(out)@ + json_string(s@));
    }
}

/// Appends the decimal digits of a non-negative 64-bit number.
fn push_dec_u64(out: &mut Vec<char>, n: u64)
    ensures
        final(out)@ == old(out)@ + dec_digits(n as nat),
    decreases n,
{
    if n < 10 {
        out.push(hex_digit_char(n as u32));
    } else {
        push_dec_u64(out, n / 10);
        out.push(hex_digit_char((n % 10) as u32));
        proof {
            assert(out@ =~= old(out)@ + dec_digits(n as nat));
        }
    }
}

/// Appends the decimal rendering of a signed 64-bit number.
fn push_dec_i64(out: &mut Vec<char>, v: i64)
    ensures
        final(out)@ == old(out)@ + int_dec(v as int),
{
    if v >= 0 {
        push_dec_u64(out, v as u64);
    } else {
        out.push('-');
        let mag: u64 = ((-(v + 1)) as u64) + 1;
        proof {
            assert(mag as int == -(v as int));
        }
        push_dec_u64(out, mag);
        proof {
            assert(out@ =~= old(out)@ + int_dec(v as int));
        }
    }
}

impl Stream {
    /// Renders the fixture as the JSON object its API serves: every field in
    /// order, with `stream_link` split on commas into an array of strings, so
    /// an empty field renders as `[""]`.
    pub fn to_json(&self) -> (r: String)
        ensures
            r@ == stream_json(self@),
    {
        let mut out: Vec<char> = Vec::new();
        push_lit(&mut out, "{\"id\":");
        match self.id {
            Some(i) => {
                push_dec_i64(&mut out, i as i64);
                proof {
                    assert(int_dec(i as int) == int_dec((i as i64) as int));
                }
            },
            None => {
                push_lit(&mut out, "null");
            },
        }
        push_lit(&mut out, ",\"home\":");
        let home = str_to_chars(self.home.as_str());
        push_json_string(&mut out, &home);
        push_lit(&mut out, ",\"away\":");
        let away = str_to_chars(self.away.as_str());
        push_json_string(&mut out, &away);
        push_lit(&mut out, ",\"start_time\":");
        push_dec_i64(&mut out, self.start_time);
        push_lit(&mut out, ",\"league\":");
        let league = str_to_chars(self.league.as_str());
        push_json_string(&mut out, &league);
        push_lit(&mut out, ",\"country\":");
        let country = str_to_chars(self.country.as_str());
        push_json_string(&mut out, &country);
        push_lit(&mut out, ",\"url\":");
        let url = str_to_chars(self.url.as_str());
        push_json_string(&mut out, &url);
        push_lit(&mut out, ",\"stream_link\":");
        let link = str_to_chars(self.stream_link.as_str());
        let parts = split_chars(&link, ',');
        push_json_array(&mut out, &parts);
        push_lit(&mut out, ",\"sport\":");
        let sport = str_to_chars(self.sport.as_str());
        push_json_string(&mut out, &sport);
        push_lit(&mut out, "}");
        proof {
            assert(out@ =~= stream_json(self@));
        }
        crate::text::chars_to_string(&out)
    }
}

/// Appends a JSON array of string literals, one per part.
fn push_json_array(out: &mut Vec<char>, parts: &Vec<Vec<char>>)
    ensures
        final(out)@ == old(out)@ + json_string_array(parts.deep_view()),
{
    out.push('[');
    let ghost opened = out@;
    let ghost rendered = parts.deep_view().map_values(|p: Seq<char>| json_string(p));
    let mut i: usize = 0;
    while i < parts.len()
        invariant
            i <= parts@.len(),
            rendered == parts.deep_view().map_values(|p: Seq<char>| json_string(p)),
            rendered.len() == parts@.len(),
            out@.len() >= opened.len(),
            out@.take(opened.len() as int) == opened,
            i == 0 ==> out@ == opened,
            i > 0 ==> spec_join(rendered, ',') == out@.skip(opened.len() as int)
                + crate::text::spec_join_suffix(rendered, ',', i as int),
        decreases parts@.len() - i,
    {
        let ghost out_old = out@;
        if i > 0 {
            out.push(',');
        }
        push_json_string(out, &parts[i]);
        proof {
            assert(parts.deep_view()[i as int] == parts@[i as int].deep_view());
            assert(parts@[i as int].deep_view() =~= parts@[i as int]@);
            assert(rendered[i as int] == json_string(parts@[i as int]@));
        }
        i = i + 1;
        proof {
            let prev = i - 1;
            if prev == 0 {
                crate::text::lemma_join_unfold(rendered, ',');
                assert(out@.skip(opened.len() as int) =~= rendered[0]);
            } else {
                assert(crate::text::spec_join_suffix(rendered, ',', prev as int) == seq![',']
                    + rendered[prev as int] + crate::text::spec_join_suffix(rendered, ',', i as int));
                assert(out@.skip(opened.len() as int) =~= out_old.skip(opened.len() as int) + (
                seq![','] + rendered[prev as int]));
                assert(spec_join(rendered, ',') =~= out@.skip(opened.len() as int)
                    + crate::text::spec_join_suffix(rendered, ',', i as int));
            }
            assert(out@.take(opened.len() as int) =~= opened);
        }
    }
    proof {
        if parts@.len() == 0 {
            assert(spec_join(rendered, ',') =~= Seq::<char>::empty());
        } else {
            assert(crate::text::spec_join_suffix(rendered, ',', parts@.len() as int)
                =~= Seq::<char>::empty());
            assert(spec_join(rendered, ',') =~= out@.skip(opened.len() as int));
        }
    }
    let ghost pre = out@;
    out.push(']');
    proof {
        assert(pre =~= pre.take(opened.len() as int) + pre.skip(opened.len() as int));
        assert(opened =~= old(out)@ + seq!['[']);
        if parts@.len() == 0 {
            assert(pre =~= opened);
        }
        assert(pre.skip(opened.len() as int) == spec_join(rendered, ','));
        assert(out@ =~= pre.push(']'));
        assert(out@ =~= old(out)@ + json_string_array(parts.deep_view()));
    }
}

} // verus!
