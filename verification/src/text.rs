//! Verified character-level text utilities.
//!
//! Every routine in this module works on `Vec<char>` buffers so that its
//! behaviour can be stated exactly over `Seq<char>` views. The rest of the
//! library states its contracts in terms of the spec functions defined here.

use vstd::prelude::*;

verus! {

/// Appends one character to a `String`; the standard library documents `push`
/// as appending the given `char` to the end of the string.
pub assume_specification[ String::push ](s: &mut String, ch: char)
    ensures
        final(s)@ == old(s)@.push(ch),
;

/// The whitespace characters stripped from the ends of a text fragment.
pub open spec fn is_space_char(c: char) -> bool {
    c == ' ' || c == '\t' || c == '\n' || c == '\r'
}

pub open spec fn spec_trim_start(s: Seq<char>) -> Seq<char>
    decreases s.len(),
{
    if s.len() > 0 && is_space_char(s[0]) {
        spec_trim_start(s.skip(1))
    } else {
        s
    }
}

pub open spec fn spec_trim_end(s: Seq<char>) -> Seq<char>
    decreases s.len(),
{
    if s.len() > 0 && is_space_char(s[s.len() - 1]) {
        spec_trim_end(s.drop_last())
    } else {
        s
    }
}

/// The input with leading and trailing whitespace removed.
pub open spec fn spec_trim(s: Seq<char>) -> Seq<char> {
    spec_trim_end(spec_trim_start(s))
}

/// Left-to-right replacement of non-overlapping occurrences of `pat` by `rep`.
/// An empty pattern leaves the input unchanged.
pub open spec fn spec_replace(s: Seq<char>, pat: Seq<char>, rep: Seq<char>) -> Seq<char>
    decreases s.len(),
{
    if pat.len() == 0 || s.len() < pat.len() {
        s
    } else if s.take(pat.len() as int) == pat {
        rep + spec_replace(s.skip(pat.len() as int), pat, rep)
    } else {
        seq![s[0]] + spec_replace(s.skip(1), pat, rep)
    }
}

/// Splitting on a separator character; the result always has at least one
/// part, and splitting the empty text yields one empty part.
pub open spec fn spec_split(s: Seq<char>, sep: char) -> Seq<Seq<char>>
    decreases s.len(),
{
    if s.len() == 0 {
        seq![Seq::<char>::empty()]
    } else if s[0] == sep {
        seq![Seq::<char>::empty()] + spec_split(s.skip(1), sep)
    } else {
        let rest = spec_split(s.skip(1), sep);
        seq![seq![s[0]] + rest[0]] + rest.skip(1)
    }
}

pub proof fn lemma_split_nonempty(s: Seq<char>, sep: char)
    ensures
        spec_split(s, sep).len() >= 1,
    decreases s.len(),
{
    if s.len() == 0 {
    } else {
        lemma_split_nonempty(s.skip(1), sep);
    }
}

/// Joining parts with a separator character.
pub open spec fn spec_join(parts: Seq<Seq<char>>, sep: char) -> Seq<char>
    decreases parts.len(),
{
    if parts.len() == 0 {
        Seq::empty()
    } else if parts.len() == 1 {
        parts[0]
    } else {
        parts[0] + seq![sep] + spec_join(parts.skip(1), sep)
    }
}

/// Splitting a text that holds no separator yields that text as the one part.
pub proof fn lemma_split_no_sep(s: Seq<char>, sep: char)
    requires
        !s.contains(sep),
    ensures
        spec_split(s, sep) == seq![s],
    decreases s.len(),
{
    if s.len() == 0 {
        assert(seq![Seq::<char>::empty()] =~~= seq![s]);
    } else {
        assert(s[0] != sep);
        assert(forall|j: int| 0 <= j < s.skip(1).len() ==> (#[trigger] s.skip(1)[j]) == s[j + 1]);
        assert(!s.skip(1).contains(sep));
        lemma_split_no_sep(s.skip(1), sep);
        assert(seq![s[0]] + s.skip(1) =~= s);
        assert((seq![s.skip(1)]).skip(1) =~~= Seq::<Seq<char>>::empty());
        assert(spec_split(s, sep) =~~= seq![s]);
    }
}

/// Splitting off a separator-free prefix peels exactly one part.
proof fn lemma_split_prefix(a: Seq<char>, rest: Seq<char>, sep: char)
    requires
        !a.contains(sep),
    ensures
        spec_split(a + seq![sep] + rest, sep) == seq![a] + spec_split(rest, sep),
    decreases a.len(),
{
    let s = a + seq![sep] + rest;
    if a.len() == 0 {
        assert(s =~= seq![sep] + rest);
        assert(s[0] == sep);
        assert(s.skip(1) =~= rest);
        assert(spec_split(s, sep) =~~= seq![a] + spec_split(rest, sep));
    } else {
        assert(s[0] == a[0] && a[0] != sep);
        assert(s.skip(1) =~= a.skip(1) + seq![sep] + rest);
        assert(forall|j: int| 0 <= j < a.skip(1).len() ==> (#[trigger] a.skip(1)[j]) == a[j + 1]);
        assert(!a.skip(1).contains(sep));
        lemma_split_prefix(a.skip(1), rest, sep);
        let inner = spec_split(s.skip(1), sep);
        assert(inner == seq![a.skip(1)] + spec_split(rest, sep));
        assert(inner[0] == a.skip(1));
        assert(inner.skip(1) =~~= spec_split(rest, sep));
        assert(seq![s[0]] + a.skip(1) =~= a);
        assert(spec_split(s, sep) =~~= seq![a] + spec_split(rest, sep));
    }
}

/// Splitting recovers exactly the parts a join put together, provided no
/// part holds the separator.
pub proof fn lemma_split_join_inverse(parts: Seq<Seq<char>>, sep: char)
    requires
        parts.len() >= 1,
        forall|i: int| 0 <= i < parts.len() ==> !(#[trigger] parts[i]).contains(sep),
    ensures
        spec_split(spec_join(parts, sep), sep) == parts,
    decreases parts.len(),
{
    if parts.len() == 1 {
        lemma_split_no_sep(parts[0], sep);
        assert(seq![parts[0]] =~~= parts);
    } else {
        let tail = parts.skip(1);
        assert(forall|i: int| 0 <= i < tail.len() ==> (#[trigger] tail[i]) == parts[i + 1]);
        lemma_split_join_inverse(tail, sep);
        lemma_split_prefix(parts[0], spec_join(tail, sep), sep);
        assert(parts[0] + seq![sep] + spec_join(tail, sep) =~= spec_join(parts, sep));
        assert(seq![parts[0]] + tail =~~= parts);
    }
}

/// Every element of a filtered sequence occurs in the sequence itself.
pub proof fn lemma_filter_elem<A>(s: Seq<A>, pred: spec_fn(A) -> bool, a: int)
    requires
        0 <= a < s.filter(pred).len(),
    ensures
        exists|j: int| 0 <= j < s.len() && (#[trigger] s[j]) == s.filter(pred)[a],
    decreases s.len(),
{
    reveal(Seq::filter);
    let butlast = s.drop_last();
    let fb = butlast.filter(pred);
    if pred(s.last()) && a == fb.len() {
        assert(s[s.len() - 1] == s.filter(pred)[a]);
    } else {
        lemma_filter_elem(butlast, pred, a);
        let w = choose|j: int| 0 <= j < butlast.len() && (#[trigger] butlast[j]) == fb[a];
        assert(s[w] == s.filter(pred)[a]);
    }
}

/// Whether `pat` occurs as a contiguous run inside `s`.
pub open spec fn spec_contains_sub(s: Seq<char>, pat: Seq<char>) -> bool {
    exists|i: int| 0 <= i <= s.len() - pat.len() && #[trigger] s.subrange(i, i + pat.len()) == pat
}

pub open spec fn is_digit_char(c: char) -> bool {
    '0' <= c && c <= '9'
}

pub open spec fn digit_val(c: char) -> int {
    c as int - '0' as int
}

/// The value of a run of decimal digits, most significant first.
pub open spec fn digits_value(s: Seq<char>) -> int
    decreases s.len(),
{
    if s.len() == 0 {
        0
    } else {
        digits_value(s.drop_last()) * 10 + digit_val(s.last())
    }
}

pub open spec fn all_digits(s: Seq<char>) -> bool {
    forall|i: int| 0 <= i < s.len() ==> is_digit_char(#[trigger] s[i])
}

/// The digit run of an unsigned decimal literal: an optional leading `+`
/// sign followed by at least one digit.
pub open spec fn unsigned_digits(s: Seq<char>) -> Seq<char> {
    if s.len() > 0 && s[0] == '+' {
        s.skip(1)
    } else {
        s
    }
}

/// Whether the text parses as a `u32` the way the standard library's decimal
/// parser accepts it: optional `+`, one or more digits, value in range.
pub open spec fn is_u32_string(s: Seq<char>) -> bool {
    let d = unsigned_digits(s);
    d.len() > 0 && all_digits(d) && digits_value(d) <= u32::MAX
}

/// Lexicographic order on character sequences by code point.
pub open spec fn lex_le(a: Seq<char>, b: Seq<char>) -> bool
    decreases a.len(),
{
    if a.len() == 0 {
        true
    } else if b.len() == 0 {
        false
    } else if (a[0] as u32) == (b[0] as u32) {
        lex_le(a.skip(1), b.skip(1))
    } else {
        (a[0] as u32) < (b[0] as u32)
    }
}

pub proof fn lemma_lex_le_total(a: Seq<char>, b: Seq<char>)
    ensures
        lex_le(a, b) || lex_le(b, a),
    decreases a.len(),
{
    if a.len() == 0 || b.len() == 0 {
    } else if (a[0] as u32) == (b[0] as u32) {
        lemma_lex_le_total(a.skip(1), b.skip(1));
    }
}

pub proof fn lemma_lex_le_trans(a: Seq<char>, b: Seq<char>, c: Seq<char>)
    requires
        lex_le(a, b),
        lex_le(b, c),
    ensures
        lex_le(a, c),
    decreases a.len(),
{
    if a.len() == 0 {
    } else if b.len() == 0 {
    } else if c.len() == 0 {
    } else {
        if (a[0] as u32) == (b[0] as u32) && (b[0] as u32) == (c[0] as u32) {
            lemma_lex_le_trans(a.skip(1), b.skip(1), c.skip(1));
        }
    }
}

/// Collects the characters of a string slice into a vector.
pub fn str_to_chars(s: &str) -> (r: Vec<char>)
    ensures
        r@ == s@,
{
    let n = s.unicode_len();
    let mut out: Vec<char> = Vec::new();
    let mut i: usize = 0;
    while i < n
        invariant
            n == s@.len(),
            i <= n,
            out@ == s@.take(i as int),
        decreases n - i,
    {
        out.push(s.get_char(i));
        assert(s@.take(i + 1) == s@.take(i as int).push(s@[i as int]));
        i = i + 1;
    }
    assert(s@.take(n as int) == s@);
    out
}

/// Collects a vector of characters into an owned string.
pub fn chars_to_string(v: &Vec<char>) -> (r: String)
    ensures
        r@ == v@,
{
    let mut out = String::new();
    let mut i: usize = 0;
    while i < v.len()
        invariant
            i <= v@.len(),
            out@ == v@.take(i as int),
        decreases v@.len() - i,
    {
        out.push(v[i]);
        assert(v@.take(i + 1) == v@.take(i as int).push(v@[i as int]));
        i = i + 1;
    }
    assert(v@.take(v@.len() as int) == v@);
    out
}

/// Appends every character of `part` to `out`.
pub fn push_all(out: &mut Vec<char>, part: &Vec<char>)
    ensures
        final(out)@ == old(out)@ + part@,
{
    let mut j: usize = 0;
    while j < part.len()
        invariant
            j <= part@.len(),
            out@ == old(out)@ + part@.take(j as int),
        decreases part@.len() - j,
    {
        out.push(part[j]);
        assert(part@.take(j + 1) == part@.take(j as int).push(part@[j as int]));
        j = j + 1;
    }
    assert(part@.take(part@.len() as int) == part@);
}

/// Whether `pat` occurs in `s` starting at position `i`.
fn match_at(s: &Vec<char>, i: usize, pat: &Vec<char>) -> (r: bool)
    requires
        i + pat@.len() <= s@.len(),
    ensures
        r == (s@.subrange(i as int, i + pat@.len()) == pat@),
{
    let n = s.len();
    let m = pat.len();
    let mut j: usize = 0;
    while j < m
        invariant
            n == s@.len(),
            m == pat@.len(),
            i + m <= n,
            j <= m,
            forall|k: int| 0 <= k < j ==> s@[i + k] == pat@[k],
        decreases m - j,
    {
        if s[i + j] != pat[j] {
            assert(s@.subrange(i as int, i + pat@.len())[j as int] != pat@[j as int]);
            return false;
        }
        j = j + 1;
    }
    assert(s@.subrange(i as int, i + pat@.len()) =~= pat@);
    true
}

/// Replaces every non-overlapping occurrence of `pat` in `s` by `rep`,
/// scanning left to right.
pub fn replace_chars(s: &Vec<char>, pat: &Vec<char>, rep: &Vec<char>) -> (r: Vec<char>)
    ensures
        r@ == spec_replace(s@, pat@, rep@),
{
    let mut out: Vec<char> = Vec::new();
    if pat.len() == 0 {
        push_all(&mut out, s);
        return out;
    }
    let mut i: usize = 0;
    assert(s@.skip(0) =~= s@);
    while i < s.len()
        invariant
            pat@.len() > 0,
            i <= s@.len(),
            spec_replace(s@, pat@, rep@) == out@ + spec_replace(s@.skip(i as int), pat@, rep@),
        decreases s@.len() - i,
    {
        if pat.len() <= s.len() - i && match_at(s, i, pat) {
            proof {
                assert(s@.skip(i as int).take(pat@.len() as int) =~= s@.subrange(
                    i as int,
                    i + pat@.len(),
                ));
                assert(s@.skip(i as int).skip(pat@.len() as int) =~= s@.skip(i + pat@.len()));
            }
            push_all(&mut out, rep);
            i = i + pat.len();
        } else {
            proof {
                if i + pat@.len() <= s@.len() {
                    assert(s@.skip(i as int).take(pat@.len() as int) =~= s@.subrange(
                        i as int,
                        i + pat@.len(),
                    ));
                }
                assert(s@.skip(i as int) =~= seq![s@[i as int]] + s@.skip(i + 1));
                assert(s@.skip(i as int).skip(1) =~= s@.skip(i + 1));
            }
            out.push(s[i]);
            i = i + 1;
        }
    }
    assert(s@.skip(s@.len() as int) =~= Seq::<char>::empty());
    out
}

/// The split of `rest`, with `pre` prepended to its first part.
pub open spec fn prefix_split(pre: Seq<char>, rest: Seq<char>, sep: char) -> Seq<Seq<char>> {
    let parts = spec_split(rest, sep);
    seq![pre + parts[0]] + parts.skip(1)
}

/// Splits on a separator character; mirrors `spec_split`.
pub fn split_chars(s: &Vec<char>, sep: char) -> (r: Vec<Vec<char>>)
    ensures
        r.deep_view() == spec_split(s@, sep),
        r@.len() >= 1,
{
    let mut done: Vec<Vec<char>> = Vec::new();
    let mut cur: Vec<char> = Vec::new();
    proof {
        lemma_split_nonempty(s@, sep);
        assert(s@.skip(0) =~= s@);
        assert(Seq::<char>::empty() + spec_split(s@, sep)[0] =~= spec_split(s@, sep)[0]);
        assert(seq![spec_split(s@, sep)[0]] + spec_split(s@, sep).skip(1) =~~= spec_split(s@, sep));
        assert(done.deep_view() + prefix_split(cur@, s@, sep) =~~= spec_split(s@, sep));
    }
    let mut i: usize = 0;
    while i < s.len()
        invariant
            i <= s@.len(),
            spec_split(s@, sep) == done.deep_view() + prefix_split(cur@, s@.skip(i as int), sep),
        decreases s@.len() - i,
    {
        let ghost done_old = done.deep_view();
        let ghost cur_old = cur@;
        let ghost rest = spec_split(s@.skip(i + 1), sep);
        proof {
            lemma_split_nonempty(s@.skip(i + 1), sep);
            assert(s@.skip(i as int).skip(1) =~= s@.skip(i + 1));
            assert(s@.skip(i as int)[0] == s@[i as int]);
        }
        if s[i] == sep {
            done.push(cur);
            cur = Vec::new();
            proof {
                assert(spec_split(s@.skip(i as int), sep) == seq![Seq::<char>::empty()] + rest);
                assert((seq![Seq::<char>::empty()] + rest)[0] =~= Seq::<char>::empty());
                assert((seq![Seq::<char>::empty()] + rest).skip(1) =~~= rest);
                assert(cur_old + Seq::<char>::empty() =~= cur_old);
                assert(prefix_split(cur_old, s@.skip(i as int), sep) =~~= seq![cur_old] + rest);
                assert(Seq::<char>::empty() + rest[0] =~= rest[0]);
                assert(seq![rest[0]] + rest.skip(1) =~~= rest);
                assert(prefix_split(Seq::<char>::empty(), s@.skip(i + 1), sep) =~~= rest);
                assert(done.deep_view() =~~= done_old.push(cur_old));
                assert(done_old.push(cur_old) + rest =~~= done_old + (seq![cur_old] + rest));
                assert(spec_split(s@, sep) == done.deep_view() + prefix_split(
                    cur@,
                    s@.skip(i + 1),
                    sep,
                ));
            }
        } else {
            let c = s[i];
            cur.push(c);
            proof {
                assert(spec_split(s@.skip(i as int), sep) == seq![seq![c] + rest[0]] + rest.skip(
                    1,
                ));
                assert((seq![seq![c] + rest[0]] + rest.skip(1))[0] =~= seq![c] + rest[0]);
                assert((seq![seq![c] + rest[0]] + rest.skip(1)).skip(1) =~~= rest.skip(1));
                assert(cur_old + (seq![c] + rest[0]) =~= cur_old.push(c) + rest[0]);
                assert(prefix_split(cur_old, s@.skip(i as int), sep) =~~= prefix_split(
                    cur_old.push(c),
                    s@.skip(i + 1),
                    sep,
                ));
                assert(spec_split(s@, sep) == done.deep_view() + prefix_split(
                    cur@,
                    s@.skip(i + 1),
                    sep,
                ));
            }
        }
        i = i + 1;
    }
    let ghost done_old = done.deep_view();
    let ghost cur_old = cur@;
    proof {
        assert(s@.skip(s@.len() as int) =~= Seq::<char>::empty());
        assert(cur_old + spec_split(Seq::<char>::empty(), sep)[0] =~= cur_old);
        assert(prefix_split(cur_old, Seq::<char>::empty(), sep) =~~= seq![cur_old]);
    }
    done.push(cur);
    proof {
        assert(done.deep_view() =~~= done_old.push(cur_old));
        assert(done_old.push(cur_old) =~~= done_old + seq![cur_old]);
    }
    done
}

/// The tail of a join starting at part `i`: each remaining part preceded by
/// the separator.
pub open spec fn spec_join_suffix(parts: Seq<Seq<char>>, sep: char, i: int) -> Seq<char>
    decreases parts.len() - i,
{
    if i < 0 || i >= parts.len() {
        Seq::empty()
    } else {
        seq![sep] + parts[i] + spec_join_suffix(parts, sep, i + 1)
    }
}

pub proof fn lemma_join_unfold(parts: Seq<Seq<char>>, sep: char)
    requires
        parts.len() >= 1,
    ensures
        spec_join(parts, sep) == parts[0] + spec_join_suffix(parts, sep, 1),
    decreases parts.len(),
{
    if parts.len() == 1 {
        assert(spec_join_suffix(parts, sep, 1) == Seq::<char>::empty());
        assert(parts[0] + Seq::<char>::empty() =~= parts[0]);
    } else {
        let tail = parts.skip(1);
        lemma_join_unfold(tail, sep);
        lemma_join_suffix_shift(parts, sep, 1);
        assert(tail.len() == parts.len() - 1);
        assert(spec_join_suffix(tail, sep, 0) == seq![sep] + tail[0] + spec_join_suffix(
            tail,
            sep,
            1,
        ));
        assert(parts[0] + (seq![sep] + tail[0] + spec_join_suffix(tail, sep, 1)) =~= parts[0]
            + seq![sep] + (tail[0] + spec_join_suffix(tail, sep, 1)));
        assert(spec_join(parts, sep) == parts[0] + seq![sep] + spec_join(tail, sep));
    }
}

proof fn lemma_join_suffix_shift(parts: Seq<Seq<char>>, sep: char, i: int)
    requires
        1 <= i,
        parts.len() >= 1,
    ensures
        spec_join_suffix(parts, sep, i) == spec_join_suffix(parts.skip(1), sep, i - 1),
    decreases parts.len() - i,
{
    assert(parts.skip(1).len() == parts.len() - 1);
    if i >= parts.len() {
        assert(spec_join_suffix(parts, sep, i) == Seq::<char>::empty());
        assert(spec_join_suffix(parts.skip(1), sep, i - 1) == Seq::<char>::empty());
    } else {
        lemma_join_suffix_shift(parts, sep, i + 1);
        assert(parts.skip(1)[i - 1] == parts[i]);
    }
}

/// Joins parts with a separator character; mirrors `spec_join`.
pub fn join_chars(parts: &Vec<Vec<char>>, sep: char) -> (r: Vec<char>)
    ensures
        r@ == spec_join(parts.deep_view(), sep),
{
    let mut out: Vec<char> = Vec::new();
    if parts.len() == 0 {
        return out;
    }
    proof {
        lemma_join_unfold(parts.deep_view(), sep);
        assert(parts.deep_view()[0] == parts@[0].deep_view());
        assert(Seq::<char>::empty() + parts.deep_view()[0] =~= parts.deep_view()[0]);
    }
    push_all(&mut out, &parts[0]);
    let mut i: usize = 1;
    while i < parts.len()
        invariant
            1 <= i <= parts@.len(),
            parts.deep_view().len() == parts@.len(),
            spec_join(parts.deep_view(), sep) == out@ + spec_join_suffix(
                parts.deep_view(),
                sep,
                i as int,
            ),
        decreases parts@.len() - i,
    {
        let ghost out_old = out@;
        let ghost dv = parts.deep_view();
        out.push(sep);
        proof {
            assert(dv[i as int] == parts@[i as int].deep_view());
        }
        push_all(&mut out, &parts[i]);
        proof {
            assert(spec_join_suffix(dv, sep, i as int) == seq![sep] + dv[i as int]
                + spec_join_suffix(dv, sep, i + 1));
            assert(out_old + (seq![sep] + dv[i as int] + spec_join_suffix(dv, sep, i + 1)) =~= (
            out_old.push(sep) + dv[i as int]) + spec_join_suffix(dv, sep, i + 1));
            assert(out@ =~= out_old.push(sep) + dv[i as int]);
        }
        i = i + 1;
    }
    assert(spec_join_suffix(parts.deep_view(), sep, parts@.len() as int) == Seq::<char>::empty());
    assert(out@ + Seq::<char>::empty() =~= out@);
    out
}

/// Whether `pat` occurs anywhere in `s`.
pub fn contains_sub(s: &Vec<char>, pat: &Vec<char>) -> (r: bool)
    ensures
        r == spec_contains_sub(s@, pat@),
{
    if pat.len() == 0 {
        assert(spec_contains_sub(s@, pat@)) by {
            assert(s@.subrange(0, 0 + pat@.len() as int) =~= pat@);
        }
        return true;
    }
    if pat.len() > s.len() {
        assert(!spec_contains_sub(s@, pat@));
        return false;
    }
    let mut i: usize = 0;
    let last = s.len() - pat.len();
    while i <= last
        invariant
            1 <= pat@.len() <= s@.len(),
            s@.len() <= usize::MAX,
            last == s@.len() - pat@.len(),
            i <= last + 1,
            forall|k: int| 0 <= k < i ==> #[trigger] s@.subrange(k, k + pat@.len()) != pat@,
        decreases last + 1 - i,
    {
        if match_at(s, i, pat) {
            assert(spec_contains_sub(s@, pat@));
            return true;
        }
        i = i + 1;
    }
    assert(!spec_contains_sub(s@, pat@));
    false
}

/// Parses an unsigned 32-bit decimal literal: optional `+` sign, then one or
/// more digits; fails exactly when the shape is wrong or the value overflows.
pub fn parse_u32_chars(s: &Vec<char>) -> (r: Option<u32>)
    ensures
        r matches Some(n) ==> is_u32_string(s@) && n == digits_value(unsigned_digits(s@)),
        r is None ==> !is_u32_string(s@),
{
    let start: usize = if s.len() > 0 && s[0] == '+' {
        1
    } else {
        0
    };
    let ghost d = unsigned_digits(s@);
    proof {
        assert(d =~= s@.skip(start as int));
    }
    if s.len() == start {
        assert(d.len() == 0);
        return None;
    }
    let mut value: u32 = 0;
    let mut i: usize = start;
    assert(d.take(0) =~= Seq::<char>::empty());
    while i < s.len()
        invariant
            start <= i <= s@.len(),
            d == unsigned_digits(s@),
            d == s@.skip(start as int),
            d.len() == s@.len() - start,
            all_digits(d.take(i - start)),
            value == digits_value(d.take(i - start)),
        decreases s@.len() - i,
    {
        let c = s[i];
        proof {
            assert(d[i - start] == s@[i as int]);
        }
        if c < '0' || c > '9' {
            assert(!is_digit_char(d[i - start]));
            assert(!all_digits(d));
            return None;
        }
        let dv: u32 = (c as u32) - ('0' as u32);
        proof {
            assert(d.take(i + 1 - start).drop_last() =~= d.take(i - start));
            assert(d.take(i + 1 - start).last() == d[i - start]);
            assert(is_digit_char(c));
            assert(dv == digit_val(c));
            assert(all_digits(d.take(i + 1 - start))) by {
                assert(forall|k: int|
                    0 <= k < i - start ==> #[trigger] d.take(i + 1 - start)[k] == d.take(
                        i - start,
                    )[k]);
            }
            assert(digits_value(d.take(i + 1 - start)) == digits_value(d.take(i - start)) * 10
                + digit_val(c));
        }
        let nv: u64 = (value as u64) * 10 + (dv as u64);
        if nv > u32::MAX as u64 {
            proof {
                if all_digits(d) {
                    lemma_digits_prefix_overflow(d, i + 1 - start);
                }
            }
            return None;
        }
        value = nv as u32;
        i = i + 1;
    }
    proof {
        assert(d.take(d.len() as int) =~= d);
    }
    Some(value)
}

proof fn lemma_digits_nonneg(s: Seq<char>)
    requires
        all_digits(s),
    ensures
        digits_value(s) >= 0,
    decreases s.len(),
{
    if s.len() > 0 {
        assert(forall|k: int| 0 <= k < s.len() - 1 ==> #[trigger] s.drop_last()[k] == s[k]);
        lemma_digits_nonneg(s.drop_last());
    }
}

/// If a prefix of a digit run already exceeds `u32::MAX`, so does the run.
proof fn lemma_digits_prefix_overflow(s: Seq<char>, k: int)
    requires
        0 <= k <= s.len(),
        all_digits(s),
        digits_value(s.take(k)) > u32::MAX,
    ensures
        digits_value(s) > u32::MAX,
    decreases s.len() - k,
{
    if k == s.len() {
        assert(s.take(k) =~= s);
    } else {
        assert(s.take(k + 1).drop_last() =~= s.take(k));
        assert(s.take(k + 1).last() == s[k]);
        assert(digits_value(s.take(k + 1)) == digits_value(s.take(k)) * 10 + digit_val(s[k]));
        assert(digit_val(s[k]) >= 0);
        assert(digits_value(s.take(k)) * 10 > u32::MAX) by {
            assert(digits_value(s.take(k)) > u32::MAX);
        }
        lemma_digits_prefix_overflow(s, k + 1);
    }
}

/// Whether the character counts as trimmable whitespace.
pub fn is_space(c: char) -> (r: bool)
    ensures
        r == is_space_char(c),
{
    c == ' ' || c == '\t' || c == '\n' || c == '\r'
}

proof fn lemma_trim_start_at(s: Seq<char>, i: int)
    requires
        0 <= i <= s.len(),
        forall|k: int| 0 <= k < i ==> is_space_char(#[trigger] s[k]),
        i == s.len() || !is_space_char(s[i]),
    ensures
        spec_trim_start(s) == s.skip(i),
    decreases i,
{
    if i == 0 {
        assert(s.skip(0) =~= s);
    } else {
        lemma_trim_start_at(s.skip(1), i - 1);
        assert(s.skip(1).skip(i - 1) =~= s.skip(i));
    }
}

proof fn lemma_trim_end_at(s: Seq<char>, j: int)
    requires
        0 <= j < s.len(),
        forall|k: int| j < k < s.len() ==> is_space_char(#[trigger] s[k]),
        !is_space_char(s[j]),
    ensures
        spec_trim_end(s) == s.take(j + 1),
    decreases s.len(),
{
    if j == s.len() - 1 {
        assert(s.take(s.len() as int) =~= s);
    } else {
        assert(is_space_char(s[s.len() - 1]));
        lemma_trim_end_at(s.drop_last(), j);
        assert(s.drop_last().take(j + 1) =~= s.take(j + 1));
    }
}

/// Trims leading and trailing whitespace characters.
pub fn trim_chars(v: &Vec<char>) -> (r: Vec<char>)
    ensures
        r@ == spec_trim(v@),
{
    let n = v.len();
    let mut a: usize = 0;
    while a < n && is_space(v[a])
        invariant
            n == v@.len(),
            a <= n,
            forall|k: int| 0 <= k < a ==> is_space_char(#[trigger] v@[k]),
        decreases n - a,
    {
        a = a + 1;
    }
    proof {
        lemma_trim_start_at(v@, a as int);
    }
    if a == n {
        proof {
            assert(v@.skip(a as int) =~= Seq::<char>::empty());
        }
        let out: Vec<char> = Vec::new();
        return out;
    }
    let mut b: usize = n - 1;
    while is_space(v[b])
        invariant
            n == v@.len(),
            a <= b < n,
            !is_space_char(v@[a as int]),
            forall|k: int| b < k < n ==> is_space_char(#[trigger] v@[k]),
        decreases b,
    {
        b = b - 1;
    }
    proof {
        let t = v@.skip(a as int);
        assert(forall|k: int|
            b - a < k < t.len() ==> is_space_char(#[trigger] t[k])) by {
            assert(forall|k: int| b - a < k < t.len() ==> t[k] == v@[k + a]);
        }
        assert(t[b - a] == v@[b as int]);
        lemma_trim_end_at(t, b - a);
    }
    let mut out: Vec<char> = Vec::new();
    let mut i: usize = a;
    while i <= b
        invariant
            n == v@.len(),
            a <= i <= b + 1,
            b < n,
            out@ == v@.subrange(a as int, i as int),
        decreases b + 1 - i,
    {
        out.push(v[i]);
        assert(v@.subrange(a as int, i + 1) == v@.subrange(a as int, i as int).push(v@[i as int]));
        i = i + 1;
    }
    proof {
        assert(v@.skip(a as int).take(b - a + 1) =~= v@.subrange(a as int, b + 1));
    }
    out
}

/// Whether two string slices hold the same characters.
pub fn str_eq(a: &str, b: &str) -> (r: bool)
    ensures
        r == (a@ == b@),
{
    let an = a.unicode_len();
    let bn = b.unicode_len();
    if an != bn {
        return false;
    }
    let mut i: usize = 0;
    while i < an
        invariant
            an == a@.len(),
            an == b@.len(),
            i <= an,
            forall|k: int| 0 <= k < i ==> a@[k] == b@[k],
        decreases an - i,
    {
        if a.get_char(i) != b.get_char(i) {
            return false;
        }
        i = i + 1;
    }
    assert(a@ =~= b@);
    true
}

/// Lexicographic comparison of two strings by code point.
pub fn lex_le_str(a: &str, b: &str) -> (r: bool)
    ensures
        r == lex_le(a@, b@),
{
    let an = a.unicode_len();
    let bn = b.unicode_len();
    let mut i: usize = 0;
    proof {
        assert(a@.skip(0) =~= a@);
        assert(b@.skip(0) =~= b@);
    }
    loop
        invariant
            an == a@.len(),
            bn == b@.len(),
            i <= an,
            i <= bn,
            lex_le(a@, b@) == lex_le(a@.skip(i as int), b@.skip(i as int)),
        decreases an - i,
    {
        if i == an {
            return true;
        }
        if i == bn {
            assert(a@.skip(i as int).len() > 0);
            return false;
        }
        let ca = a.get_char(i);
        let cb = b.get_char(i);
        proof {
            assert(a@.skip(i as int)[0] == a@[i as int]);
            assert(b@.skip(i as int)[0] == b@[i as int]);
            assert(a@.skip(i as int).skip(1) =~= a@.skip(i + 1));
            assert(b@.skip(i as int).skip(1) =~= b@.skip(i + 1));
        }
        if (ca as u32) != (cb as u32) {
            return (ca as u32) < (cb as u32);
        }
        i = i + 1;
    }
}

} // verus!
