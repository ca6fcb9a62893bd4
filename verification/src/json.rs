//! The JSON codec for the on-disk document.
//!
//! The format is pinned here once and for all: objects carry their fields in
//! a fixed order (a waypoint is `location`, `tags`, `priority`, `active`; the
//! document is `path`, `waypoints`, `metadata`), unknown fields are rejected,
//! whitespace between tokens is free, strings accept the eight shorthand
//! escapes and `\uXXXX` for basic-plane scalars, and numbers are unsigned
//! decimals without a leading zero. The writer emits pretty-printed text that
//! the reader provably accepts.

use vstd::prelude::*;
use crate::text::push_char;
use crate::waypoint::{Waypoint, WaypointView, views_of};
use crate::config::{Config, ConfigView, MetaPair, MetaPairView, meta_views};

verus! {

// ---------------------------------------------------------------------------
// Spec-level writer: the exact character sequence of a serialized value.
// ---------------------------------------------------------------------------
/// A decimal digit as a character.
pub open spec fn digit_char(n: int) -> char {
    ((48 + n) as u32) as char
}

/// A hexadecimal digit as a lower-case character.
pub open spec fn hex_char(n: int) -> char {
    if n < 10 {
        ((48 + n) as u32) as char
    } else {
        ((87 + n) as u32) as char
    }
}

/// How one character is written inside a JSON string.
pub open spec fn esc_char(c: char) -> Seq<char> {
    if c == '"' {
        seq!['\\', '"']
    } else if c == '\\' {
        seq!['\\', '\\']
    } else if c == '\n' {
        seq!['\\', 'n']
    } else if c == '\t' {
        seq!['\\', 't']
    } else if c == '\r' {
        seq!['\\', 'r']
    } else if (c as u32) < 32 {
        seq!['\\', 'u', '0', '0', hex_char((c as u32 / 16) as int), hex_char((c as u32 % 16) as int)]
    } else {
        seq![c]
    }
}

/// How a whole character sequence is written inside a JSON string.
pub open spec fn esc_seq(s: Seq<char>) -> Seq<char>
    decreases s.len(),
{
    if s.len() == 0 {
        Seq::<char>::empty()
    } else {
        esc_char(s[0]) + esc_seq(s.skip(1))
    }
}

/// A quoted JSON string.
pub open spec fn quoted(s: Seq<char>) -> Seq<char> {
    seq!['"'] + esc_seq(s) + seq!['"']
}

/// The decimal digits of a non-negative number, most significant first.
pub open spec fn dec_digits(n: int) -> Seq<char>
    decreases n,
{
    if n < 10 {
        seq![digit_char(n)]
    } else {
        dec_digits(n / 10) + seq![digit_char(n % 10)]
    }
}

pub open spec fn lit_true() -> Seq<char> {
    seq!['t', 'r', 'u', 'e']
}

pub open spec fn lit_false() -> Seq<char> {
    seq!['f', 'a', 'l', 's', 'e']
}

pub open spec fn bool_text(b: bool) -> Seq<char> {
    if b {
        lit_true()
    } else {
        lit_false()
    }
}

/// Newline plus one level of indentation.
pub open spec fn nl1() -> Seq<char> {
    seq!['\n', ' ', ' ']
}

/// Newline plus two levels of indentation.
pub open spec fn nl2() -> Seq<char> {
    seq!['\n', ' ', ' ', ' ', ' ']
}

pub open spec fn colon_sp() -> Seq<char> {
    seq![':', ' ']
}

pub open spec fn key_location() -> Seq<char> {
    seq!['"', 'l', 'o', 'c', 'a', 't', 'i', 'o', 'n', '"']
}

pub open spec fn key_tags() -> Seq<char> {
    seq!['"', 't', 'a', 'g', 's', '"']
}

pub open spec fn key_priority() -> Seq<char> {
    seq!['"', 'p', 'r', 'i', 'o', 'r', 'i', 't', 'y', '"']
}

pub open spec fn key_active() -> Seq<char> {
    seq!['"', 'a', 'c', 't', 'i', 'v', 'e', '"']
}

/// The items of a non-empty string array, each on its own indented line.
pub open spec fn tag_items(tags: Seq<Seq<char>>) -> Seq<char>
    decreases tags.len(),
{
    if tags.len() == 0 {
        Seq::<char>::empty()
    } else if tags.len() == 1 {
        nl2() + quoted(tags[0])
    } else {
        nl2() + quoted(tags[0]) + seq![','] + tag_items(tags.skip(1))
    }
}

/// A JSON array of strings.
pub open spec fn tags_json(tags: Seq<Seq<char>>) -> Seq<char> {
    if tags.len() == 0 {
        seq!['[', ']']
    } else {
        seq!['['] + tag_items(tags) + nl1() + seq![']']
    }
}

/// The pretty-printed JSON text of one waypoint. The nesting follows the
/// order in which a reader consumes the text.
pub open spec fn wp_json(v: WaypointView) -> Seq<char> {
    seq!['{'] + (nl1() + (key_location() + (colon_sp() + (quoted(v.location) + (seq![','] + (nl1()
        + (key_tags() + (colon_sp() + (tags_json(v.tags) + (seq![','] + (nl1() + (key_priority()
        + (colon_sp() + (dec_digits(v.priority as int) + (seq![','] + (nl1() + (key_active()
        + (colon_sp() + (bool_text(v.active) + seq!['\n', '}'])))))))))))))))))))
}

// ---------------------------------------------------------------------------
// Executable writer.
// ---------------------------------------------------------------------------
/// Appends one escaped character.
fn write_esc_char(out: &mut String, c: char)
    ensures
        final(out)@ == old(out)@ + esc_char(c),
{
    if c == '"' {
        push_char(out, '\\');
        push_char(out, '"');
    } else if c == '\\' {
        push_char(out, '\\');
        push_char(out, '\\');
    } else if c == '\n' {
        push_char(out, '\\');
        push_char(out, 'n');
    } else if c == '\t' {
        push_char(out, '\\');
        push_char(out, 't');
    } else if c == '\r' {
        push_char(out, '\\');
        push_char(out, 'r');
    } else if (c as u32) < 32 {
        let u = c as u32;
        let hi = (u / 16) as u8;
        let lo = (u % 16) as u8;
        push_char(out, '\\');
        push_char(out, 'u');
        push_char(out, '0');
        push_char(out, '0');
        push_char(out, (48 + hi) as char);
        if lo < 10 {
            push_char(out, (48 + lo) as char);
        } else {
            push_char(out, (87 + lo) as char);
        }
        proof {
            assert(hi < 2 && (48 + hi) as char == hex_char((c as u32 / 16) as int));
            assert(final(out)@ =~= old(out)@ + esc_char(c));
        }
    } else {
        push_char(out, c);
    }
    proof {
        assert(final(out)@ =~= old(out)@ + esc_char(c));
    }
}

/// Appends a quoted, escaped string.
fn write_quoted(out: &mut String, s: &str)
    ensures
        final(out)@ == old(out)@ + quoted(s@),
{
    let chars = crate::text::str_chars(s);
    push_char(out, '"');
    let mut i: usize = 0;
    while i < chars.len()
        invariant
            chars@ == s@,
            i <= s@.len(),
            out@ == old(out)@ + seq!['"'] + esc_seq(s@.take(i as int)),
        decreases s@.len() - i,
    {
        proof {
            lemma_esc_seq_snoc(s@.take(i as int), s@[i as int]);
            assert(s@.take(i + 1) =~= s@.take(i as int).push(s@[i as int]));
        }
        write_esc_char(out, chars[i]);
        i += 1;
        proof {
            assert(out@ =~= old(out)@ + seq!['"'] + esc_seq(s@.take(i as int)));
        }
    }
    push_char(out, '"');
    proof {
        assert(s@.take(s@.len() as int) =~= s@);
        assert(final(out)@ =~= old(out)@ + quoted(s@));
    }
}

/// Escaping distributes over appending one character.
pub proof fn lemma_esc_seq_snoc(s: Seq<char>, c: char)
    ensures
        esc_seq(s.push(c)) == esc_seq(s) + esc_char(c),
    decreases s.len(),
{
    if s.len() == 0 {
        assert(s.push(c).skip(1) =~= Seq::<char>::empty());
        assert(s.push(c)[0] == c);
        assert(esc_seq(s.push(c)) == esc_char(c) + esc_seq(Seq::<char>::empty()));
        assert(esc_char(c) + Seq::<char>::empty() =~= esc_char(c));
        assert(esc_seq(s) == Seq::<char>::empty());
        assert(Seq::<char>::empty() + esc_char(c) =~= esc_char(c));
    } else {
        lemma_esc_seq_snoc(s.skip(1), c);
        assert(s.push(c).skip(1) =~= s.skip(1).push(c));
        assert(s.push(c)[0] == s[0]);
        assert(esc_char(s[0]) + (esc_seq(s.skip(1)) + esc_char(c)) =~= (esc_char(s[0]) + esc_seq(
            s.skip(1),
        )) + esc_char(c));
    }
}

/// Appends the decimal digits of a number.
fn write_u32(out: &mut String, n: u32)
    ensures
        final(out)@ == old(out)@ + dec_digits(n as int),
    decreases n,
{
    if n < 10 {
        push_char(out, (48 + (n as u8)) as char);
        proof {
            assert(final(out)@ =~= old(out)@ + dec_digits(n as int));
        }
    } else {
        write_u32(out, n / 10);
        push_char(out, (48 + ((n % 10) as u8)) as char);
        proof {
            assert(final(out)@ =~= old(out)@ + dec_digits(n as int));
        }
    }
}

/// Appends `true` or `false`.
fn write_bool(out: &mut String, b: bool)
    ensures
        final(out)@ == old(out)@ + bool_text(b),
{
    if b {
        push_char(out, 't');
        push_char(out, 'r');
        push_char(out, 'u');
        push_char(out, 'e');
    } else {
        push_char(out, 'f');
        push_char(out, 'a');
        push_char(out, 'l');
        push_char(out, 's');
        push_char(out, 'e');
    }
    proof {
        assert(final(out)@ =~= old(out)@ + bool_text(b));
    }
}

/// Appends a newline and one level of indentation.
fn write_nl1(out: &mut String)
    ensures
        final(out)@ == old(out)@ + nl1(),
{
    push_char(out, '\n');
    push_char(out, ' ');
    push_char(out, ' ');
    proof {
        assert(final(out)@ =~= old(out)@ + nl1());
    }
}

/// Appends a newline and two levels of indentation.
fn write_nl2(out: &mut String)
    ensures
        final(out)@ == old(out)@ + nl2(),
{
    push_char(out, '\n');
    push_char(out, ' ');
    push_char(out, ' ');
    push_char(out, ' ');
    push_char(out, ' ');
    proof {
        assert(final(out)@ =~= old(out)@ + nl2());
    }
}

/// Appends `: `.
fn write_colon(out: &mut String)
    ensures
        final(out)@ == old(out)@ + colon_sp(),
{
    push_char(out, ':');
    push_char(out, ' ');
    proof {
        assert(final(out)@ =~= old(out)@ + colon_sp());
    }
}

/// Splitting a non-empty item list after its first entry.
pub proof fn lemma_tag_items_snoc(tags: Seq<Seq<char>>, t: Seq<char>)
    requires
        tags.len() >= 1,
    ensures
        tag_items(tags.push(t)) == tag_items(tags) + seq![','] + nl2() + quoted(t),
    decreases tags.len(),
{
    if tags.len() == 1 {
        assert(tags.push(t).skip(1) =~= seq![t]);
        assert(tag_items(seq![t]) == nl2() + quoted(t));
        assert(tag_items(tags.push(t)) =~= tag_items(tags) + seq![','] + nl2() + quoted(t));
    } else {
        lemma_tag_items_snoc(tags.skip(1), t);
        assert(tags.push(t).skip(1) =~= tags.skip(1).push(t));
        assert(tags.push(t)[0] == tags[0]);
        assert(tag_items(tags.push(t)) == nl2() + quoted(tags[0]) + seq![','] + (tag_items(
            tags.skip(1),
        ) + seq![','] + nl2() + quoted(t)));
        assert(nl2() + quoted(tags[0]) + seq![','] + (tag_items(tags.skip(1)) + seq![','] + nl2()
            + quoted(t)) =~= (nl2() + quoted(tags[0]) + seq![','] + tag_items(tags.skip(1)))
            + seq![','] + nl2() + quoted(t));
    }
}

/// Appends a JSON array of strings.
fn write_tags(out: &mut String, tags: &Vec<String>)
    ensures
        final(out)@ == old(out)@ + tags_json(tags.deep_view()),
{
    push_char(out, '[');
    if tags.len() == 0 {
        push_char(out, ']');
        proof {
            assert(tags.deep_view().len() == 0);
            assert(final(out)@ =~= old(out)@ + tags_json(tags.deep_view()));
        }
        return ;
    }
    let mut i: usize = 0;
    while i < tags.len()
        invariant
            1 <= tags@.len(),
            i <= tags@.len(),
            out@ == old(out)@ + seq!['['] + tag_items(tags.deep_view().take(i as int)),
        decreases tags@.len() - i,
    {
        if i > 0 {
            push_char(out, ',');
        }
        write_nl2(out);
        write_quoted(out, tags[i].as_str());
        proof {
            assert(tags.deep_view()[i as int] == tags@[i as int]@);
            assert(tags.deep_view().take(i + 1) =~~= tags.deep_view().take(i as int).push(
                tags@[i as int]@,
            ));
            if i == 0 {
                assert(tag_items(seq![tags@[0int]@]) == nl2() + quoted(tags@[0int]@));
                assert(tags.deep_view().take(1) =~~= seq![tags@[0int]@]);
            } else {
                lemma_tag_items_snoc(tags.deep_view().take(i as int), tags@[i as int]@);
            }
            assert(out@ =~= old(out)@ + seq!['['] + tag_items(tags.deep_view().take(i + 1)));
        }
        i += 1;
    }
    write_nl1(out);
    push_char(out, ']');
    proof {
        assert(tags.deep_view().take(tags@.len() as int) =~~= tags.deep_view());
        assert(final(out)@ =~= old(out)@ + tags_json(tags.deep_view()));
    }
}

/// Appends the text of a quoted object key.
fn write_key_location(out: &mut String)
    ensures
        final(out)@ == old(out)@ + key_location(),
{
    push_char(out, '"');
    push_char(out, 'l');
    push_char(out, 'o');
    push_char(out, 'c');
    push_char(out, 'a');
    push_char(out, 't');
    push_char(out, 'i');
    push_char(out, 'o');
    push_char(out, 'n');
    push_char(out, '"');
    proof {
        assert(final(out)@ =~= old(out)@ + key_location());
    }
}

fn write_key_tags(out: &mut String)
    ensures
        final(out)@ == old(out)@ + key_tags(),
{
    push_char(out, '"');
    push_char(out, 't');
    push_char(out, 'a');
    push_char(out, 'g');
    push_char(out, 's');
    push_char(out, '"');
    proof {
        assert(final(out)@ =~= old(out)@ + key_tags());
    }
}

fn write_key_priority(out: &mut String)
    ensures
        final(out)@ == old(out)@ + key_priority(),
{
    push_char(out, '"');
    push_char(out, 'p');
    push_char(out, 'r');
    push_char(out, 'i');
    push_char(out, 'o');
    push_char(out, 'r');
    push_char(out, 'i');
    push_char(out, 't');
    push_char(out, 'y');
    push_char(out, '"');
    proof {
        assert(final(out)@ =~= old(out)@ + key_priority());
    }
}

fn write_key_active(out: &mut String)
    ensures
        final(out)@ == old(out)@ + key_active(),
{
    push_char(out, '"');
    push_char(out, 'a');
    push_char(out, 'c');
    push_char(out, 't');
    push_char(out, 'i');
    push_char(out, 'v');
    push_char(out, 'e');
    push_char(out, '"');
    proof {
        assert(final(out)@ =~= old(out)@ + key_active());
    }
}

/// Appends the pretty-printed JSON text of one waypoint.
#[verifier::rlimit(60)]
pub fn write_waypoint(out: &mut String, w: &Waypoint)
    ensures
        final(out)@ == old(out)@ + wp_json(w@),
{
    push_char(out, '{');
    write_nl1(out);
    write_key_location(out);
    write_colon(out);
    write_quoted(out, w.location.as_str());
    push_char(out, ',');
    write_nl1(out);
    write_key_tags(out);
    write_colon(out);
    write_tags(out, &w.tags);
    push_char(out, ',');
    write_nl1(out);
    write_key_priority(out);
    write_colon(out);
    write_u32(out, w.priority);
    push_char(out, ',');
    write_nl1(out);
    write_key_active(out);
    write_colon(out);
    write_bool(out, w.active);
    push_char(out, '\n');
    push_char(out, '}');
    proof {
        assert(final(out)@ =~= old(out)@ + wp_json(w@));
    }
}

} // verus!

verus! {

// ---------------------------------------------------------------------------
// Spec-level reader: what text the codec accepts and what value it means.
// Each function consumes from the front and returns the unread remainder.
// ---------------------------------------------------------------------------
/// JSON whitespace.
pub open spec fn is_ws(c: char) -> bool {
    c == ' ' || c == '\n' || c == '\t' || c == '\r'
}

/// Drops leading whitespace.
pub open spec fn skip_ws(s: Seq<char>) -> Seq<char>
    decreases s.len(),
{
    if s.len() > 0 && is_ws(s[0]) {
        skip_ws(s.skip(1))
    } else {
        s
    }
}

/// Consumes an exact literal.
pub open spec fn parse_lit(s: Seq<char>, lit: Seq<char>) -> Option<Seq<char>> {
    if lit.len() <= s.len() && s.take(lit.len() as int) == lit {
        Some(s.skip(lit.len() as int))
    } else {
        None
    }
}

/// Consumes whitespace, then an exact literal.
pub open spec fn tok(s: Seq<char>, lit: Seq<char>) -> Option<Seq<char>> {
    parse_lit(skip_ws(s), lit)
}

/// The character named by a shorthand escape.
pub open spec fn esc_code(e: char) -> Option<char> {
    if e == '"' {
        Some('"')
    } else if e == '\\' {
        Some('\\')
    } else if e == '/' {
        Some('/')
    } else if e == 'n' {
        Some('\n')
    } else if e == 't' {
        Some('\t')
    } else if e == 'r' {
        Some('\r')
    } else if e == 'b' {
        Some('\u{0008}')
    } else if e == 'f' {
        Some('\u{000c}')
    } else {
        None
    }
}

/// The value of a hexadecimal digit, or -1.
pub open spec fn hex_val(c: char) -> int {
    let u = c as u32;
    if 48 <= u && u <= 57 {
        u as int - 48
    } else if 97 <= u && u <= 102 {
        u as int - 87
    } else if 65 <= u && u <= 70 {
        u as int - 55
    } else {
        -1
    }
}

/// Consumes the body of a string up to and including the closing quote.
/// Accepts the eight shorthand escapes and `\uXXXX` for any Unicode scalar
/// value in the basic plane (surrogates are rejected); rejects unescaped
/// control characters and unterminated strings.
pub open spec fn parse_str_body(s: Seq<char>) -> Option<(Seq<char>, Seq<char>)>
    decreases s.len(),
{
    if s.len() == 0 {
        None
    } else if s[0] == '"' {
        Some((Seq::<char>::empty(), s.skip(1)))
    } else if s[0] == '\\' {
        if s.len() < 2 {
            None
        } else if s[1] == 'u' {
            if s.len() < 6 {
                None
            } else {
                let code = hex_val(s[2]) * 4096 + hex_val(s[3]) * 256 + hex_val(s[4]) * 16
                    + hex_val(s[5]);
                if hex_val(s[2]) >= 0 && hex_val(s[3]) >= 0 && hex_val(s[4]) >= 0 && hex_val(
                    s[5],
                ) >= 0 && (code < 0xD800 || code >= 0xE000) {
                    let c = (code as u32) as char;
                    match parse_str_body(s.skip(6)) {
                        Some((v, r)) => Some((seq![c] + v, r)),
                        None => None,
                    }
                } else {
                    None
                }
            }
        } else {
            match esc_code(s[1]) {
                Some(c) => match parse_str_body(s.skip(2)) {
                    Some((v, r)) => Some((seq![c] + v, r)),
                    None => None,
                },
                None => None,
            }
        }
    } else if (s[0] as u32) < 32 {
        None
    } else {
        match parse_str_body(s.skip(1)) {
            Some((v, r)) => Some((seq![s[0]] + v, r)),
            None => None,
        }
    }
}

/// Consumes whitespace, then a quoted string.
pub open spec fn parse_string(s: Seq<char>) -> Option<(Seq<char>, Seq<char>)> {
    let t = skip_ws(s);
    if t.len() > 0 && t[0] == '"' {
        parse_str_body(t.skip(1))
    } else {
        None
    }
}

/// A decimal digit.
pub open spec fn is_digit(c: char) -> bool {
    48 <= c as u32 && c as u32 <= 57
}

/// The leading run of decimal digits.
pub open spec fn digit_prefix(s: Seq<char>) -> Seq<char>
    decreases s.len(),
{
    if s.len() > 0 && is_digit(s[0]) {
        seq![s[0]] + digit_prefix(s.skip(1))
    } else {
        Seq::<char>::empty()
    }
}

/// The number that a digit run denotes.
pub open spec fn digits_val(d: Seq<char>) -> int
    decreases d.len(),
{
    if d.len() == 0 {
        0
    } else {
        digits_val(d.drop_last()) * 10 + (d.last() as u32 - 48)
    }
}

/// Consumes whitespace, then an unsigned decimal number that fits in `u32`;
/// a leading zero is allowed only for the number 0 itself.
pub open spec fn parse_u32(s: Seq<char>) -> Option<(u32, Seq<char>)> {
    let t = skip_ws(s);
    let d = digit_prefix(t);
    if d.len() == 0 {
        None
    } else if d[0] == '0' && d.len() > 1 {
        None
    } else if digits_val(d) > u32::MAX {
        None
    } else {
        Some((digits_val(d) as u32, t.skip(d.len() as int)))
    }
}

/// Consumes whitespace, then `true` or `false`.
pub open spec fn parse_bool(s: Seq<char>) -> Option<(bool, Seq<char>)> {
    match tok(s, lit_true()) {
        Some(r) => Some((true, r)),
        None => match tok(s, lit_false()) {
            Some(r) => Some((false, r)),
            None => None,
        },
    }
}

// ---------------------------------------------------------------------------
// Remainder-length lemmas: a successful parse never grows its input. These
// justify the termination of the list parsers below.
// ---------------------------------------------------------------------------
pub proof fn lemma_skip_ws_len(s: Seq<char>)
    ensures
        skip_ws(s).len() <= s.len(),
    decreases s.len(),
{
    if s.len() > 0 && is_ws(s[0]) {
        lemma_skip_ws_len(s.skip(1));
    }
}

/// Dropping whitespace twice is dropping it once.
pub proof fn lemma_skip_ws_idem(s: Seq<char>)
    ensures
        skip_ws(skip_ws(s)) == skip_ws(s),
    decreases s.len(),
{
    if s.len() > 0 && is_ws(s[0]) {
        lemma_skip_ws_idem(s.skip(1));
    }
}

pub proof fn lemma_str_body_len(s: Seq<char>)
    ensures
        parse_str_body(s) matches Some(p) ==> p.1.len() < s.len(),
    decreases s.len(),
{
    if s.len() == 0 {
    } else if s[0] == '"' {
    } else if s[0] == '\\' {
        if s.len() >= 6 && s[1] == 'u' {
            lemma_str_body_len(s.skip(6));
        }
        if s.len() >= 2 {
            lemma_str_body_len(s.skip(2));
        }
    } else {
        lemma_str_body_len(s.skip(1));
    }
}

pub proof fn lemma_parse_string_len(s: Seq<char>)
    ensures
        parse_string(s) matches Some(p) ==> p.1.len() < s.len(),
{
    lemma_skip_ws_len(s);
    let t = skip_ws(s);
    if t.len() > 0 && t[0] == '"' {
        lemma_str_body_len(t.skip(1));
    }
}

pub proof fn lemma_digit_prefix_len(s: Seq<char>)
    ensures
        digit_prefix(s).len() <= s.len(),
    decreases s.len(),
{
    if s.len() > 0 && is_digit(s[0]) {
        lemma_digit_prefix_len(s.skip(1));
    }
}

pub proof fn lemma_parse_u32_len(s: Seq<char>)
    ensures
        parse_u32(s) matches Some(p) ==> p.1.len() < s.len(),
{
    lemma_skip_ws_len(s);
    lemma_digit_prefix_len(skip_ws(s));
}

pub proof fn lemma_tok_len(s: Seq<char>, lit: Seq<char>)
    ensures
        tok(s, lit) matches Some(r) ==> r.len() + lit.len() <= s.len(),
{
    lemma_skip_ws_len(s);
}

pub proof fn lemma_parse_bool_len(s: Seq<char>)
    ensures
        parse_bool(s) matches Some(p) ==> p.1.len() < s.len(),
{
    lemma_tok_len(s, lit_true());
    lemma_tok_len(s, lit_false());
}

} // verus!

verus! {

/// Consumes the items after the first of a string array, then the closing
/// bracket; `acc` carries the items already read.
pub open spec fn parse_more_tags(s: Seq<char>, acc: Seq<Seq<char>>) -> Option<
    (Seq<Seq<char>>, Seq<char>),
>
    decreases s.len(),
    via parse_more_tags_dec
{
    let t = skip_ws(s);
    if t.len() > 0 && t[0] == ',' {
        match parse_string(t.skip(1)) {
            Some((v, r)) => parse_more_tags(r, acc.push(v)),
            None => None,
        }
    } else if t.len() > 0 && t[0] == ']' {
        Some((acc, t.skip(1)))
    } else {
        None
    }
}

#[via_fn]
proof fn parse_more_tags_dec(s: Seq<char>, acc: Seq<Seq<char>>) {
    lemma_skip_ws_len(s);
    let t = skip_ws(s);
    if t.len() > 0 && t[0] == ',' {
        lemma_parse_string_len(t.skip(1));
    }
}

/// Consumes whitespace, then a whole JSON array of strings.
pub open spec fn parse_tags(s: Seq<char>) -> Option<(Seq<Seq<char>>, Seq<char>)> {
    match tok(s, seq!['[']) {
        Some(r) => {
            let t = skip_ws(r);
            if t.len() > 0 && t[0] == ']' {
                Some((Seq::<Seq<char>>::empty(), t.skip(1)))
            } else {
                match parse_string(r) {
                    Some((v, r2)) => parse_more_tags(r2, seq![v]),
                    None => None,
                }
            }
        },
        None => None,
    }
}

pub proof fn lemma_parse_more_tags_len(s: Seq<char>, acc: Seq<Seq<char>>)
    ensures
        parse_more_tags(s, acc) matches Some(p) ==> p.1.len() <= s.len(),
    decreases s.len(),
{
    lemma_skip_ws_len(s);
    let t = skip_ws(s);
    if t.len() > 0 && t[0] == ',' {
        lemma_parse_string_len(t.skip(1));
        if let Some((v, r)) = parse_string(t.skip(1)) {
            lemma_parse_more_tags_len(r, acc.push(v));
        }
    }
}

pub proof fn lemma_parse_tags_len(s: Seq<char>)
    ensures
        parse_tags(s) matches Some(p) ==> p.1.len() < s.len(),
{
    lemma_tok_len(s, seq!['[']);
    if let Some(r) = tok(s, seq!['[']) {
        lemma_skip_ws_len(r);
        lemma_parse_string_len(r);
        if let Some((v, r2)) = parse_string(r) {
            lemma_parse_more_tags_len(r2, seq![v]);
        }
    }
}

/// Consumes whitespace, then a whole waypoint object: the four fields in
/// their fixed order, nothing more.
pub open spec fn parse_wp_at(s: Seq<char>) -> Option<(WaypointView, Seq<char>)> {
    match tok(s, seq!['{']) {
        Some(r) => match tok(r, key_location()) {
            Some(r) => match tok(r, seq![':']) {
                Some(r) => match parse_string(r) {
                    Some((loc, r)) => match tok(r, seq![',']) {
                        Some(r) => match tok(r, key_tags()) {
                            Some(r) => match tok(r, seq![':']) {
                                Some(r) => match parse_tags(r) {
                                    Some((tags, r)) => match tok(r, seq![',']) {
                                        Some(r) => match tok(r, key_priority()) {
                                            Some(r) => match tok(r, seq![':']) {
                                                Some(r) => match parse_u32(r) {
                                                    Some((pri, r)) => match tok(r, seq![',']) {
                                                        Some(r) => match tok(r, key_active()) {
                                                            Some(r) => match tok(r, seq![':']) {
                                                                Some(r) => match parse_bool(r) {
                                                                    Some((act, r)) => match tok(
                                                                        r,
                                                                        seq!['}'],
                                                                    ) {
                                                                        Some(r) => Some(
                                                                            (
                                                                                WaypointView {
                                                                                    location: loc,
                                                                                    tags: tags,
                                                                                    priority: pri,
                                                                                    active: act,
                                                                                },
                                                                                r,
                                                                            ),
                                                                        ),
                                                                        None => None,
                                                                    },
                                                                    None => None,
                                                                },
                                                                None => None,
                                                            },
                                                            None => None,
                                                        },
                                                        None => None,
                                                    },
                                                    None => None,
                                                },
                                                None => None,
                                            },
                                            None => None,
                                        },
                                        None => None,
                                    },
                                    None => None,
                                },
                                None => None,
                            },
                            None => None,
                        },
                        None => None,
                    },
                    None => None,
                },
                None => None,
            },
            None => None,
        },
        None => None,
    }
}

pub proof fn lemma_parse_wp_len(s: Seq<char>)
    ensures
        parse_wp_at(s) matches Some(p) ==> p.1.len() < s.len(),
{
    lemma_tok_len(s, seq!['{']);
    if let Some(r1) = tok(s, seq!['{']) {
        lemma_tok_len(r1, key_location());
        if let Some(r2) = tok(r1, key_location()) {
            lemma_tok_len(r2, seq![':']);
            if let Some(r3) = tok(r2, seq![':']) {
                lemma_parse_string_len(r3);
                if let Some((_loc, r4)) = parse_string(r3) {
                    lemma_tok_len(r4, seq![',']);
                    if let Some(r5) = tok(r4, seq![',']) {
                        lemma_tok_len(r5, key_tags());
                        if let Some(r6) = tok(r5, key_tags()) {
                            lemma_tok_len(r6, seq![':']);
                            if let Some(r7) = tok(r6, seq![':']) {
                                lemma_parse_tags_len(r7);
                                if let Some((_tags, r8)) = parse_tags(r7) {
                                    lemma_tok_len(r8, seq![',']);
                                    if let Some(r9) = tok(r8, seq![',']) {
                                        lemma_tok_len(r9, key_priority());
                                        if let Some(r10) = tok(r9, key_priority()) {
                                            lemma_tok_len(r10, seq![':']);
                                            if let Some(r11) = tok(r10, seq![':']) {
                                                lemma_parse_u32_len(r11);
                                                if let Some((_pri, r12)) = parse_u32(r11) {
                                                    lemma_tok_len(r12, seq![',']);
                                                    if let Some(r13) = tok(r12, seq![',']) {
                                                        lemma_tok_len(r13, key_active());
                                                        if let Some(r14) = tok(r13, key_active()) {
                                                            lemma_tok_len(r14, seq![':']);
                                                            if let Some(r15) = tok(r14, seq![':']) {
                                                                lemma_parse_bool_len(r15);
                                                                if let Some((_act, r16)) =
                                                                    parse_bool(r15) {
                                                                    lemma_tok_len(r16, seq!['}']);
                                                                }
                                                            }
                                                        }
                                                    }
                                                }
                                            }
                                        }
                                    }
                                }
                            }
                        }
                    }
                }
            }
        }
    }
}

/// The value of a complete waypoint document: one waypoint object with
/// nothing but whitespace around it.
pub open spec fn spec_wp_from_json(s: Seq<char>) -> Option<WaypointView> {
    match parse_wp_at(s) {
        Some((v, r)) => if skip_ws(r).len() == 0 {
            Some(v)
        } else {
            None
        },
        None => None,
    }
}

} // verus!

verus! {

// ---------------------------------------------------------------------------
// Executable reader. Each function works on a character vector and an index,
// and agrees exactly with the spec-level reader on the corresponding suffix.
// ---------------------------------------------------------------------------
/// Moves past leading whitespace.
pub fn e_skip_ws(v: &Vec<char>, i: usize) -> (j: usize)
    requires
        i <= v@.len(),
    ensures
        i <= j <= v@.len(),
        skip_ws(v@.skip(i as int)) == v@.skip(j as int),
{
    let mut j = i;
    while j < v.len() && (v[j] == ' ' || v[j] == '\n' || v[j] == '\t' || v[j] == '\r')
        invariant
            i <= j <= v@.len(),
            skip_ws(v@.skip(i as int)) == skip_ws(v@.skip(j as int)),
        decreases v@.len() - j,
    {
        proof {
            assert(v@.skip(j as int)[0] == v@[j as int]);
            assert(v@.skip(j as int).skip(1) =~= v@.skip(j + 1));
        }
        j += 1;
    }
    proof {
        if j < v@.len() {
            assert(v@.skip(j as int)[0] == v@[j as int]);
        }
        assert(skip_ws(v@.skip(j as int)) == v@.skip(j as int));
    }
    j
}

/// Matches an exact literal.
pub fn e_lit(v: &Vec<char>, i: usize, lit: &str) -> (r: Option<usize>)
    requires
        i <= v@.len(),
    ensures
        match r {
            Some(j) => i <= j <= v@.len() && parse_lit(v@.skip(i as int), lit@) == Some(
                v@.skip(j as int),
            ),
            None => parse_lit(v@.skip(i as int), lit@) is None,
        },
{
    let lc = crate::text::str_chars(lit);
    let n = lc.len();
    let ghost s = v@.skip(i as int);
    if v.len() - i < n {
        proof {
            assert(s.len() < lit@.len());
        }
        return None;
    }
    let vlen = v.len();
    let mut k: usize = 0;
    while k < n
        invariant
            k <= n,
            n == lit@.len(),
            lc@ == lit@,
            i + n <= vlen,
            vlen == v@.len(),
            s == v@.skip(i as int),
            forall|m: int| 0 <= m < k ==> s[m] == lit@[m],
        decreases n - k,
    {
        proof {
            assert(s[k as int] == v@[i + k]);
        }
        if v[i + k] != lc[k] {
            proof {
                assert(s.take(n as int)[k as int] == s[k as int]);
                assert(s.take(n as int) != lit@);
            }
            return None;
        }
        k += 1;
    }
    proof {
        assert(s.take(n as int) =~= lit@);
        assert(s.skip(n as int) =~= v@.skip(i + n));
    }
    Some(i + n)
}

/// Matches whitespace followed by an exact literal.
pub fn e_tok(v: &Vec<char>, i: usize, lit: &str) -> (r: Option<usize>)
    requires
        i <= v@.len(),
    ensures
        match r {
            Some(j) => i <= j <= v@.len() && tok(v@.skip(i as int), lit@) == Some(
                v@.skip(j as int),
            ),
            None => tok(v@.skip(i as int), lit@) is None,
        },
{
    let j = e_skip_ws(v, i);
    e_lit(v, j, lit)
}

/// The character named by a shorthand escape.
fn e_esc_code(e: char) -> (r: Option<char>)
    ensures
        r == esc_code(e),
{
    if e == '"' {
        Some('"')
    } else if e == '\\' {
        Some('\\')
    } else if e == '/' {
        Some('/')
    } else if e == 'n' {
        Some('\n')
    } else if e == 't' {
        Some('\t')
    } else if e == 'r' {
        Some('\r')
    } else if e == 'b' {
        Some('\u{0008}')
    } else if e == 'f' {
        Some('\u{000c}')
    } else {
        None
    }
}

/// The value of a hexadecimal digit, or -1.
fn e_hex(c: char) -> (r: i32)
    ensures
        r == hex_val(c),
{
    let u = c as u32;
    if 48 <= u && u <= 57 {
        (u - 48) as i32
    } else if 97 <= u && u <= 102 {
        (u - 87) as i32
    } else if 65 <= u && u <= 70 {
        (u - 55) as i32
    } else {
        -1
    }
}

/// Reads whitespace, then a quoted string, unescaping its body.
pub fn e_parse_string(v: &Vec<char>, i: usize) -> (r: Option<(String, usize)>)
    requires
        i <= v@.len(),
    ensures
        match r {
            Some(p) => p.1 <= v@.len() && parse_string(v@.skip(i as int)) == Some(
                (p.0@, v@.skip(p.1 as int)),
            ),
            None => parse_string(v@.skip(i as int)) is None,
        },
{
    let j = e_skip_ws(v, i);
    if j == v.len() || v[j] != '"' {
        proof {
            if j < v@.len() {
                assert(v@.skip(j as int)[0] == v@[j as int]);
            }
        }
        return None;
    }
    let start = j + 1;
    proof {
        assert(v@.skip(j as int)[0] == v@[j as int]);
        assert(v@.skip(j as int).skip(1) =~= v@.skip(start as int));
    }
    let mut acc = String::new();
    let mut k = start;
    loop
        invariant
            start <= k <= v@.len(),
            start <= v@.len(),
            parse_string(v@.skip(i as int)) == parse_str_body(v@.skip(start as int)),
            (match parse_str_body(v@.skip(k as int)) {
                Some(p) => parse_str_body(v@.skip(start as int)) == Some((acc@ + p.0, p.1)),
                None => parse_str_body(v@.skip(start as int)) is None,
            }),
        decreases v@.len() - k,
    {
        let ghost s = v@.skip(k as int);
        if k == v.len() {
            proof {
                assert(s.len() == 0);
            }
            return None;
        }
        proof {
            assert(s[0] == v@[k as int]);
            assert(s.len() == v@.len() - k);
        }
        let c = v[k];
        if c == '"' {
            proof {
                assert(s.skip(1) =~= v@.skip(k + 1));
                assert(parse_str_body(s) == Some((Seq::<char>::empty(), v@.skip(k + 1))));
                assert(acc@ + Seq::<char>::empty() =~= acc@);
            }
            return Some((acc, k + 1));
        } else if c == '\\' {
            if k + 1 == v.len() {
                proof {
                    assert(s.len() < 2);
                }
                return None;
            }
            proof {
                assert(s[1] == v@[k + 1]);
            }
            let e = v[k + 1];
            if e == 'u' {
                if v.len() - k < 6 {
                    proof {
                        assert(s.len() < 6);
                    }
                    return None;
                }
                proof {
                    assert(s[2] == v@[k + 2] && s[3] == v@[k + 3] && s[4] == v@[k + 4] && s[5]
                        == v@[k + 5]);
                }
                let h2 = e_hex(v[k + 2]);
                let h3 = e_hex(v[k + 3]);
                let h4 = e_hex(v[k + 4]);
                let h5 = e_hex(v[k + 5]);
                let code = h2 * 4096 + h3 * 256 + h4 * 16 + h5;
                if !(h2 >= 0 && h3 >= 0 && h4 >= 0 && h5 >= 0 && (code < 0xD800 || code >= 0xE000))
                {
                    return None;
                }
                let c2 = match crate::text::char_from_code(code as u32) {
                    Some(c2) => c2,
                    None => {
                        proof {
                            assert(false);
                        }
                        return None;
                    },
                };
                let ghost acc0 = acc@;
                proof {
                    assert(c2 == ((hex_val(s[2]) * 4096 + hex_val(s[3]) * 256 + hex_val(s[4]) * 16
                        + hex_val(s[5])) as u32) as char);
                    assert(s.skip(6) =~= v@.skip(k + 6));
                }
                push_char(&mut acc, c2);
                k = k + 6;
                proof {
                    if let Some(p) = parse_str_body(v@.skip(k as int)) {
                        assert((acc0 + seq![c2]) + p.0 =~= acc0 + (seq![c2] + p.0));
                    }
                }
            } else {
                match e_esc_code(e) {
                    None => {
                        return None;
                    },
                    Some(c2) => {
                        let ghost acc0 = acc@;
                        proof {
                            assert(s.skip(2) =~= v@.skip(k + 2));
                        }
                        push_char(&mut acc, c2);
                        k = k + 2;
                        proof {
                            if let Some(p) = parse_str_body(v@.skip(k as int)) {
                                assert((acc0 + seq![c2]) + p.0 =~= acc0 + (seq![c2] + p.0));
                            }
                        }
                    },
                }
            }
        } else if (c as u32) < 32 {
            return None;
        } else {
            let ghost acc0 = acc@;
            proof {
                assert(s.skip(1) =~= v@.skip(k + 1));
            }
            push_char(&mut acc, c);
            k = k + 1;
            proof {
                if let Some(p) = parse_str_body(v@.skip(k as int)) {
                    assert((acc0 + seq![c]) + p.0 =~= acc0 + (seq![c] + p.0));
                }
            }
        }
    }
}

} // verus!

verus! {

/// The leading digit run is exactly the digits before the first non-digit.
pub proof fn lemma_digit_prefix_range(s: Seq<char>, k: int)
    requires
        0 <= k <= s.len(),
        forall|j: int| 0 <= j < k ==> is_digit(s[j]),
        k == s.len() || !is_digit(s[k]),
    ensures
        digit_prefix(s) == s.take(k),
    decreases k,
{
    if k == 0 {
        assert(digit_prefix(s) =~= s.take(0));
    } else {
        assert(is_digit(s[0]));
        lemma_digit_prefix_range(s.skip(1), k - 1);
        assert(seq![s[0]] + s.skip(1).take(k - 1) =~= s.take(k));
    }
}

/// The value of a digit run is never negative.
pub proof fn lemma_digits_val_nonneg(d: Seq<char>)
    requires
        forall|j: int| 0 <= j < d.len() ==> is_digit(d[j]),
    ensures
        digits_val(d) >= 0,
    decreases d.len(),
{
    if d.len() > 0 {
        lemma_digits_val_nonneg(d.drop_last());
    }
}

/// A digit run is worth at least any of its prefixes.
pub proof fn lemma_digits_val_mono(d: Seq<char>, k: int)
    requires
        0 <= k <= d.len(),
        forall|j: int| 0 <= j < d.len() ==> is_digit(d[j]),
    ensures
        digits_val(d) >= digits_val(d.take(k)),
    decreases d.len(),
{
    if k == d.len() {
        assert(d.take(k) =~= d);
    } else {
        lemma_digits_val_nonneg(d.drop_last());
        lemma_digits_val_mono(d.drop_last(), k);
        assert(d.drop_last().take(k) =~= d.take(k));
    }
}

/// Reads whitespace, then an unsigned decimal number that fits in `u32`.
pub fn e_parse_u32(v: &Vec<char>, i: usize) -> (r: Option<(u32, usize)>)
    requires
        i <= v@.len(),
    ensures
        match r {
            Some(p) => p.1 <= v@.len() && parse_u32(v@.skip(i as int)) == Some(
                (p.0, v@.skip(p.1 as int)),
            ),
            None => parse_u32(v@.skip(i as int)) is None,
        },
{
    let t0 = e_skip_ws(v, i);
    let ghost t = v@.skip(t0 as int);
    let vlen = v.len();
    let mut m = t0;
    while m < vlen && 48 <= (v[m] as u32) && (v[m] as u32) <= 57
        invariant
            t0 <= m <= vlen,
            vlen == v@.len(),
            forall|x: int| t0 <= x < m ==> is_digit(v@[x]),
        decreases vlen - m,
    {
        m += 1;
    }
    proof {
        assert(forall|j: int| 0 <= j < m - t0 ==> t[j] == v@[t0 + j] && is_digit(t[j]));
        if m < vlen {
            assert(t[m - t0] == v@[m as int]);
            assert(!is_digit(t[m - t0]));
        }
        lemma_digit_prefix_range(t, m - t0);
    }
    let ghost d = digit_prefix(t);
    if m == t0 {
        return None;
    }
    proof {
        assert(d[0] == t[0] && t[0] == v@[t0 as int]);
    }
    if v[t0] == '0' && m - t0 > 1 {
        return None;
    }
    let mut acc: u64 = 0;
    let mut k = t0;
    while k < m
        invariant
            i <= t0 <= k <= m <= vlen,
            vlen == v@.len(),
            t == v@.skip(t0 as int),
            skip_ws(v@.skip(i as int)) == t,
            d == digit_prefix(t),
            d == t.take((m - t0) as int),
            forall|x: int| t0 <= x < m ==> is_digit(v@[x]),
            acc == digits_val(d.take((k - t0) as int)),
            acc <= u32::MAX,
        decreases m - k,
    {
        proof {
            assert(d[k - t0] == t[k - t0] && t[k - t0] == v@[k as int]);
            assert(is_digit(v@[k as int]));
        }
        let dg: u64 = ((v[k] as u32) - 48) as u64;
        let acc2: u64 = acc * 10 + dg;
        proof {
            let pre = d.take((k + 1 - t0) as int);
            assert(pre.drop_last() =~= d.take((k - t0) as int));
            assert(pre.last() == d[k - t0]);
            assert(digits_val(pre) == acc * 10 + dg);
        }
        if acc2 > 0xFFFF_FFFFu64 {
            proof {
                assert(d.len() == m - t0);
                assert forall|j: int| 0 <= j < d.len() implies is_digit(d[j]) by {
                    assert(d[j] == t[j]);
                    assert(t[j] == v@[t0 + j]);
                }
                lemma_digits_val_mono(d, k + 1 - t0);
                assert(digits_val(d.take((k + 1 - t0) as int)) == acc2);
                assert(digits_val(d) > u32::MAX);
                assert(parse_u32(v@.skip(i as int)) is None);
            }
            return None;
        }
        acc = acc2;
        k += 1;
    }
    proof {
        assert(d.take((m - t0) as int) =~= d);
        assert(acc == digits_val(d));
        assert(t.skip(d.len() as int) =~= v@.skip(m as int));
    }
    Some((acc as u32, m))
}

/// Reads whitespace, then `true` or `false`.
pub fn e_parse_bool(v: &Vec<char>, i: usize) -> (r: Option<(bool, usize)>)
    requires
        i <= v@.len(),
    ensures
        match r {
            Some(p) => p.1 <= v@.len() && parse_bool(v@.skip(i as int)) == Some(
                (p.0, v@.skip(p.1 as int)),
            ),
            None => parse_bool(v@.skip(i as int)) is None,
        },
{
    proof {
        reveal_strlit("true");
        reveal_strlit("false");
        assert("true"@ =~= lit_true());
        assert("false"@ =~= lit_false());
    }
    match e_tok(v, i, "true") {
        Some(j) => Some((true, j)),
        None => match e_tok(v, i, "false") {
            Some(j) => Some((false, j)),
            None => None,
        },
    }
}

/// Reads whitespace, then a whole JSON array of strings.
pub fn e_parse_tags(v: &Vec<char>, i: usize) -> (r: Option<(Vec<String>, usize)>)
    requires
        i <= v@.len(),
    ensures
        match r {
            Some(p) => p.1 <= v@.len() && parse_tags(v@.skip(i as int)) == Some(
                (p.0.deep_view(), v@.skip(p.1 as int)),
            ),
            None => parse_tags(v@.skip(i as int)) is None,
        },
{
    proof {
        reveal_strlit("[");
    }
    let j = match e_tok(v, i, "[") {
        Some(j) => j,
        None => {
            proof {
                assert("["@ =~= seq!['[']);
            }
            return None;
        },
    };
    proof {
        assert("["@ =~= seq!['[']);
    }
    let j2 = e_skip_ws(v, j);
    if j2 < v.len() && v[j2] == ']' {
        proof {
            assert(v@.skip(j2 as int)[0] == v@[j2 as int]);
            assert(v@.skip(j2 as int).skip(1) =~= v@.skip(j2 + 1));
        }
        let empty: Vec<String> = Vec::new();
        proof {
            assert(empty.deep_view() =~~= Seq::<Seq<char>>::empty());
        }
        return Some((empty, j2 + 1));
    }
    proof {
        if j2 < v@.len() {
            assert(v@.skip(j2 as int)[0] == v@[j2 as int]);
        }
        lemma_skip_ws_idem(v@.skip(j as int));
    }
    let (first, mut k) = match e_parse_string(v, j) {
        Some(p) => p,
        None => {
            return None;
        },
    };
    let mut acc: Vec<String> = Vec::new();
    acc.push(first);
    proof {
        assert(acc.deep_view() =~~= seq![first@]);
    }
    loop
        invariant
            k <= v@.len(),
            parse_tags(v@.skip(i as int)) == parse_more_tags(v@.skip(k as int), acc.deep_view()),
        decreases v@.len() - k,
    {
        let k2 = e_skip_ws(v, k);
        let ghost t = v@.skip(k2 as int);
        proof {
            if k2 < v@.len() {
                assert(t[0] == v@[k2 as int]);
            }
        }
        if k2 == v.len() {
            return None;
        }
        let c = v[k2];
        if c == ',' {
            proof {
                assert(t.skip(1) =~= v@.skip(k2 + 1));
            }
            let (s, k3) = match e_parse_string(v, k2 + 1) {
                Some(p) => p,
                None => {
                    return None;
                },
            };
            let ghost acc0 = acc.deep_view();
            proof {
                lemma_parse_string_len(v@.skip(k2 + 1));
            }
            acc.push(s);
            proof {
                assert(acc.deep_view() =~~= acc0.push(s@));
            }
            k = k3;
        } else if c == ']' {
            proof {
                assert(t.skip(1) =~= v@.skip(k2 + 1));
            }
            return Some((acc, k2 + 1));
        } else {
            return None;
        }
    }
}

} // verus!

verus! {

/// Reads whitespace, then a whole waypoint object.
#[verifier::rlimit(60)]
pub fn e_parse_wp(v: &Vec<char>, i: usize) -> (r: Option<(Waypoint, usize)>)
    requires
        i <= v@.len(),
    ensures
        match r {
            Some(p) => p.1 <= v@.len() && parse_wp_at(v@.skip(i as int)) == Some(
                (p.0@, v@.skip(p.1 as int)),
            ),
            None => parse_wp_at(v@.skip(i as int)) is None,
        },
{
    proof {
        reveal_strlit("{");
        reveal_strlit("}");
        reveal_strlit(",");
        reveal_strlit(":");
        reveal_strlit("\"location\"");
        reveal_strlit("\"tags\"");
        reveal_strlit("\"priority\"");
        reveal_strlit("\"active\"");
        assert("{"@ =~= seq!['{']);
        assert("}"@ =~= seq!['}']);
        assert(","@ =~= seq![',']);
        assert(":"@ =~= seq![':']);
        assert("\"location\""@ =~= key_location());
        assert("\"tags\""@ =~= key_tags());
        assert("\"priority\""@ =~= key_priority());
        assert("\"active\""@ =~= key_active());
    }
    let r = match e_tok(v, i, "{") {
        Some(r) => r,
        None => {
            return None;
        },
    };
    let r = match e_tok(v, r, "\"location\"") {
        Some(r) => r,
        None => {
            return None;
        },
    };
    let r = match e_tok(v, r, ":") {
        Some(r) => r,
        None => {
            return None;
        },
    };
    let (location, r) = match e_parse_string(v, r) {
        Some(p) => p,
        None => {
            return None;
        },
    };
    let r = match e_tok(v, r, ",") {
        Some(r) => r,
        None => {
            return None;
        },
    };
    let r = match e_tok(v, r, "\"tags\"") {
        Some(r) => r,
        None => {
            return None;
        },
    };
    let r = match e_tok(v, r, ":") {
        Some(r) => r,
        None => {
            return None;
        },
    };
    let (tags, r) = match e_parse_tags(v, r) {
        Some(p) => p,
        None => {
            return None;
        },
    };
    let r = match e_tok(v, r, ",") {
        Some(r) => r,
        None => {
            return None;
        },
    };
    let r = match e_tok(v, r, "\"priority\"") {
        Some(r) => r,
        None => {
            return None;
        },
    };
    let r = match e_tok(v, r, ":") {
        Some(r) => r,
        None => {
            return None;
        },
    };
    let (priority, r) = match e_parse_u32(v, r) {
        Some(p) => p,
        None => {
            return None;
        },
    };
    let r = match e_tok(v, r, ",") {
        Some(r) => r,
        None => {
            return None;
        },
    };
    let r = match e_tok(v, r, "\"active\"") {
        Some(r) => r,
        None => {
            return None;
        },
    };
    let r = match e_tok(v, r, ":") {
        Some(r) => r,
        None => {
            return None;
        },
    };
    let (active, r) = match e_parse_bool(v, r) {
        Some(p) => p,
        None => {
            return None;
        },
    };
    let r = match e_tok(v, r, "}") {
        Some(r) => r,
        None => {
            return None;
        },
    };
    let w = Waypoint { location, tags, priority, active };
    proof {
        assert(w@ =~~= WaypointView {
            location: w.location@,
            tags: w.tags.deep_view(),
            priority: w.priority,
            active: w.active,
        });
    }
    Some((w, r))
}

impl Waypoint {
    /// The pretty-printed JSON text of this waypoint.
    pub fn json(&self) -> (r: String)
        ensures
            r@ == wp_json(self@),
    {
        let mut out = String::new();
        write_waypoint(&mut out, self);
        proof {
            assert(Seq::<char>::empty() + wp_json(self@) =~= wp_json(self@));
        }
        out
    }

    /// Strict parse of one waypoint document: the object's four fields in
    /// their fixed order, nothing but whitespace around it. The order is the
    /// one this crate's writer always emits, so every document the tool
    /// writes — and every edit of its pretty text — reads back.
    pub fn from_json(text: &str) -> (r: Result<Waypoint, crate::errors::WpError>)
        ensures
            match r {
                Ok(w) => spec_wp_from_json(text@) == Some(w@),
                Err(e) => spec_wp_from_json(text@) is None && e == crate::errors::WpError::ParseError,
            },
    {
        let chars = crate::text::str_chars(text);
        proof {
            assert(text@.skip(0) =~= text@);
        }
        match e_parse_wp(&chars, 0) {
            Some((w, j)) => {
                let j2 = e_skip_ws(&chars, j);
                if j2 == chars.len() {
                    proof {
                        assert(skip_ws(text@.skip(j as int)).len() == 0);
                    }
                    Ok(w)
                } else {
                    proof {
                        assert(skip_ws(text@.skip(j as int)).len() > 0);
                    }
                    Err(crate::errors::WpError::ParseError)
                }
            },
            None => Err(crate::errors::WpError::ParseError),
        }
    }
}

} // verus!

verus! {

// ---------------------------------------------------------------------------
// Round trip: the reader provably accepts what the writer emits, and reads
// back exactly the value that was written.
// ---------------------------------------------------------------------------
/// Nothing but whitespace.
pub open spec fn all_ws(w: Seq<char>) -> bool {
    forall|j: int| 0 <= j < w.len() ==> is_ws(w[j])
}

/// Skipping whitespace drops a whitespace-only prefix whole.
pub proof fn lemma_skip_ws_all(w: Seq<char>, rest: Seq<char>)
    requires
        all_ws(w),
    ensures
        skip_ws(w + rest) == skip_ws(rest),
    decreases w.len(),
{
    if w.len() == 0 {
        assert(w + rest =~= rest);
    } else {
        assert((w + rest)[0] == w[0]);
        assert((w + rest).skip(1) =~= w.skip(1) + rest);
        assert(all_ws(w.skip(1)));
        lemma_skip_ws_all(w.skip(1), rest);
    }
}

/// Skipping whitespace stops at a non-whitespace head.
pub proof fn lemma_skip_ws_stop(s: Seq<char>)
    requires
        s.len() == 0 || !is_ws(s[0]),
    ensures
        skip_ws(s) == s,
{
}

/// A literal is read off the front of its own text.
pub proof fn lemma_parse_lit_prefix(lit: Seq<char>, rest: Seq<char>)
    ensures
        parse_lit(lit + rest, lit) == Some(rest),
{
    assert((lit + rest).take(lit.len() as int) =~= lit);
    assert((lit + rest).skip(lit.len() as int) =~= rest);
}

/// A token is read off whitespace followed by its own text.
pub proof fn lemma_tok_prefix(w: Seq<char>, lit: Seq<char>, rest: Seq<char>)
    requires
        all_ws(w),
        lit.len() > 0,
        !is_ws(lit[0]),
    ensures
        tok(w + (lit + rest), lit) == Some(rest),
{
    lemma_skip_ws_all(w, lit + rest);
    assert((lit + rest)[0] == lit[0]);
    lemma_skip_ws_stop(lit + rest);
    lemma_parse_lit_prefix(lit, rest);
}

} // verus!

verus! {

/// Reading a string body undoes escaping: the escaped text followed by a
/// closing quote reads back as the original characters.
pub proof fn lemma_str_body_esc(x: Seq<char>, rest: Seq<char>)
    ensures
        parse_str_body(esc_seq(x) + (seq!['"'] + rest)) == Some((x, rest)),
    decreases x.len(),
{
    if x.len() == 0 {
        let s = esc_seq(x) + (seq!['"'] + rest);
        assert(s =~= seq!['"'] + rest);
        assert(s[0] == '"');
        assert(s.skip(1) =~= rest);
    } else {
        let c = x[0];
        let x1 = x.skip(1);
        lemma_str_body_esc(x1, rest);
        let tail = esc_seq(x1) + (seq!['"'] + rest);
        let s = esc_seq(x) + (seq!['"'] + rest);
        assert(esc_seq(x) == esc_char(c) + esc_seq(x1));
        assert(s =~= esc_char(c) + tail);
        if c == '"' || c == '\\' || c == '\n' || c == '\t' || c == '\r' {
            let e = esc_char(c)[1];
            assert(s[0] == '\\' && s[1] == e);
            assert(s.len() >= 2);
            assert(e != 'u');
            assert(esc_code(e) == Some(c));
            assert(s.skip(2) =~= tail);
            assert(seq![c] + x1 =~= x);
        } else if (c as u32) < 32 {
            let u = c as u32;
            let hi = (u / 16) as int;
            let lo = (u % 16) as int;
            assert(esc_char(c) == seq!['\\', 'u', '0', '0', hex_char(hi), hex_char(lo)]);
            assert(s[0] == '\\' && s[1] == 'u' && s[2] == '0' && s[3] == '0' && s[4] == hex_char(
                hi,
            ) && s[5] == hex_char(lo));
            assert(s.len() >= 6);
            assert(hex_val('0') == 0);
            assert(0 <= hi < 2 && 0 <= lo < 16);
            assert(hex_val(hex_char(hi)) == hi && hex_val(hex_char(lo)) == lo);
            assert(0 * 4096 + 0 * 256 + hi * 16 + lo == u && u < 0xD800);
            vstd::utf8::char_u32_cast(c, u);
            assert(((0 * 4096 + 0 * 256 + hi * 16 + lo) as u32) as char == c);
            assert(s.skip(6) =~= tail);
            assert(seq![c] + x1 =~= x);
        } else {
            assert(esc_char(c) == seq![c]);
            assert(s[0] == c);
            assert(c != '"' && c != '\\' && !((c as u32) < 32));
            assert(s.skip(1) =~= tail);
            assert(seq![c] + x1 =~= x);
        }
    }
}

/// Reading a string undoes quoting: whitespace, then the quoted text, reads
/// back as the original characters.
pub proof fn lemma_parse_string_q(w: Seq<char>, x: Seq<char>, rest: Seq<char>)
    requires
        all_ws(w),
    ensures
        parse_string(w + (quoted(x) + rest)) == Some((x, rest)),
{
    let q = quoted(x) + rest;
    lemma_skip_ws_all(w, q);
    assert(q[0] == '"');
    lemma_skip_ws_stop(q);
    assert(q.skip(1) =~= esc_seq(x) + (seq!['"'] + rest));
    lemma_str_body_esc(x, rest);
}

} // verus!

verus! {

/// The written digits of a number are digits, and there is at least one.
pub proof fn lemma_dec_digits_digits(n: int)
    requires
        n >= 0,
    ensures
        dec_digits(n).len() >= 1,
        forall|j: int| 0 <= j < dec_digits(n).len() ==> is_digit(dec_digits(n)[j]),
    decreases n,
{
    if n < 10 {
        vstd::utf8::char_is_scalar(digit_char(n));
        assert(digit_char(n) as u32 == 48 + n) by {
            vstd::utf8::char_u32_cast(digit_char(n), (48 + n) as u32);
        }
        assert(is_digit(dec_digits(n)[0]));
    } else {
        lemma_dec_digits_digits(n / 10);
        lemma_dec_digits_digits(n % 10);
        let d = dec_digits(n);
        let a = dec_digits(n / 10);
        assert forall|j: int| 0 <= j < d.len() implies is_digit(d[j]) by {
            if j < a.len() {
                assert(d[j] == a[j]);
            } else {
                assert(d[j] == dec_digits(n % 10)[0]);
            }
        }
    }
}

/// The value of a digit character.
pub proof fn lemma_digit_char_val(n: int)
    requires
        0 <= n <= 9,
    ensures
        digit_char(n) as u32 == 48 + n,
        is_digit(digit_char(n)),
{
    vstd::utf8::char_u32_cast(digit_char(n), (48 + n) as u32);
}

/// Written digits start with zero only for the number zero itself.
pub proof fn lemma_dec_digits_first(n: int)
    requires
        n >= 0,
    ensures
        n > 0 ==> dec_digits(n)[0] != '0',
        n == 0 ==> dec_digits(n) == seq!['0'],
    decreases n,
{
    if n < 10 {
        lemma_digit_char_val(n);
        if n == 0 {
            assert(digit_char(0) as u32 == 48);
            assert('0' as u32 == 48);
            vstd::utf8::char_u32_cast(digit_char(0), 48);
            vstd::utf8::char_u32_cast('0', 48);
            assert(dec_digits(0) =~= seq!['0']);
        } else {
            assert(digit_char(n) as u32 == 48 + n && '0' as u32 == 48);
        }
    } else {
        lemma_dec_digits_first(n / 10);
        lemma_dec_digits_digits(n / 10);
        assert(dec_digits(n)[0] == dec_digits(n / 10)[0]);
    }
}

/// Reading back the written digits of a number gives the number.
pub proof fn lemma_digits_val_dec(n: int)
    requires
        n >= 0,
    ensures
        digits_val(dec_digits(n)) == n,
    decreases n,
{
    if n < 10 {
        lemma_digit_char_val(n);
        let d = dec_digits(n);
        assert(digits_val(Seq::<char>::empty()) == 0);
        assert(d.drop_last() =~= Seq::<char>::empty());
        assert(d.last() == digit_char(n));
        assert(digits_val(d) == digits_val(Seq::<char>::empty()) * 10 + (digit_char(n) as u32
            - 48));
    } else {
        lemma_digits_val_dec(n / 10);
        lemma_digit_char_val(n % 10);
        let d = dec_digits(n);
        assert(d.drop_last() =~= dec_digits(n / 10));
        assert(d.last() == digit_char(n % 10));
        assert(digits_val(d) == (n / 10) * 10 + n % 10);
    }
}

/// The digit run at the front of written digits is the whole written text.
pub proof fn lemma_digit_prefix_concat(d: Seq<char>, rest: Seq<char>)
    requires
        forall|j: int| 0 <= j < d.len() ==> is_digit(d[j]),
        rest.len() == 0 || !is_digit(rest[0]),
    ensures
        digit_prefix(d + rest) == d,
    decreases d.len(),
{
    if d.len() == 0 {
        assert(d + rest =~= rest);
        assert(digit_prefix(d + rest) =~= d);
    } else {
        assert((d + rest)[0] == d[0]);
        assert((d + rest).skip(1) =~= d.skip(1) + rest);
        lemma_digit_prefix_concat(d.skip(1), rest);
        assert(seq![d[0]] + d.skip(1) =~= d);
    }
}

/// Reading a number undoes writing it: whitespace, then the written digits,
/// followed by anything that is not a digit, reads back as the number.
pub proof fn lemma_parse_u32_digits(n: u32, w: Seq<char>, rest: Seq<char>)
    requires
        all_ws(w),
        rest.len() == 0 || !is_digit(rest[0]),
    ensures
        parse_u32(w + (dec_digits(n as int) + rest)) == Some((n, rest)),
{
    let d = dec_digits(n as int);
    lemma_dec_digits_digits(n as int);
    lemma_dec_digits_first(n as int);
    lemma_digits_val_dec(n as int);
    lemma_skip_ws_all(w, d + rest);
    assert(!is_ws(d[0])) by {
        assert(is_digit(d[0]));
        assert(d[0] as u32 != 32 && d[0] as u32 != 10 && d[0] as u32 != 9 && d[0] as u32 != 13);
        assert(' ' as u32 == 32 && '\n' as u32 == 10 && '\t' as u32 == 9 && '\r' as u32 == 13);
    }
    assert((d + rest)[0] == d[0]);
    lemma_skip_ws_stop(d + rest);
    lemma_digit_prefix_concat(d, rest);
    assert(digit_prefix(d + rest) == d);
    if n > 0 {
        assert(d[0] != '0');
    } else {
        assert(d == seq!['0'] && d.len() == 1);
    }
    assert(digits_val(d) == n && n <= u32::MAX);
    assert((d + rest).skip(d.len() as int) =~= rest);
}

/// Reading a boolean undoes writing it.
pub proof fn lemma_parse_bool_text(b: bool, w: Seq<char>, rest: Seq<char>)
    requires
        all_ws(w),
    ensures
        parse_bool(w + (bool_text(b) + rest)) == Some((b, rest)),
{
    if b {
        lemma_tok_prefix(w, lit_true(), rest);
    } else {
        let s = w + (bool_text(b) + rest);
        lemma_skip_ws_all(w, lit_false() + rest);
        assert((lit_false() + rest)[0] == 'f');
        lemma_skip_ws_stop(lit_false() + rest);
        let t = lit_false() + rest;
        if lit_true().len() <= t.len() {
            assert(t.take(4)[0] == 'f' && lit_true()[0] == 't');
            assert('f' as u32 == 102 && 't' as u32 == 116);
            assert(t.take(4) != lit_true());
        }
        assert(tok(s, lit_true()) is None);
        lemma_tok_prefix(w, lit_false(), rest);
    }
}

} // verus!

verus! {

/// The text after the first item of a non-empty written array: a comma and
/// the remaining items if any are left, else nothing.
pub open spec fn tag_items_after(tags: Seq<Seq<char>>) -> Seq<char> {
    if tags.len() == 0 {
        Seq::<char>::empty()
    } else {
        seq![','] + tag_items(tags)
    }
}

/// Reading the items after the first undoes writing them.
pub proof fn lemma_more_tags_items(ts: Seq<Seq<char>>, acc: Seq<Seq<char>>, rest: Seq<char>)
    ensures
        parse_more_tags(tag_items_after(ts) + (nl1() + (seq![']'] + rest)), acc) == Some(
            (acc + ts, rest),
        ),
    decreases ts.len(),
{
    let s = tag_items_after(ts) + (nl1() + (seq![']'] + rest));
    if ts.len() == 0 {
        assert(s =~= nl1() + (seq![']'] + rest));
        assert(all_ws(nl1()));
        lemma_skip_ws_all(nl1(), seq![']'] + rest);
        assert((seq![']'] + rest)[0] == ']');
        lemma_skip_ws_stop(seq![']'] + rest);
        let t = skip_ws(s);
        assert(t[0] == ']');
        assert(t.skip(1) =~= rest);
        assert(acc + ts =~~= acc);
    } else {
        assert(s[0] == ',');
        assert(!is_ws(','));
        lemma_skip_ws_stop(s);
        let t = s;
        assert(t.skip(1) =~= tag_items(ts) + (nl1() + (seq![']'] + rest)));
        assert(tag_items(ts) == if ts.len() == 1 {
            nl2() + quoted(ts[0])
        } else {
            nl2() + quoted(ts[0]) + seq![','] + tag_items(ts.skip(1))
        });
        assert(t.skip(1) =~= nl2() + (quoted(ts[0]) + (tag_items_after(ts.skip(1)) + (nl1() + (
        seq![']'] + rest)))));
        assert(all_ws(nl2()));
        lemma_parse_string_q(
            nl2(),
            ts[0],
            tag_items_after(ts.skip(1)) + (nl1() + (seq![']'] + rest)),
        );
        lemma_more_tags_items(ts.skip(1), acc.push(ts[0]), rest);
        assert(acc.push(ts[0]) + ts.skip(1) =~~= acc + ts);
    }
}

/// Reading an array of strings undoes writing it.
pub proof fn lemma_parse_tags_json(tags: Seq<Seq<char>>, w: Seq<char>, rest: Seq<char>)
    requires
        all_ws(w),
    ensures
        parse_tags(w + (tags_json(tags) + rest)) == Some((tags, rest)),
{
    let s = w + (tags_json(tags) + rest);
    if tags.len() == 0 {
        assert(s =~= w + (seq!['['] + (seq![']'] + rest)));
        lemma_tok_prefix(w, seq!['['], seq![']'] + rest);
        let r = seq![']'] + rest;
        assert(r[0] == ']');
        lemma_skip_ws_stop(r);
        assert(r.skip(1) =~= rest);
        assert(Seq::<Seq<char>>::empty() + tags =~~= tags);
    } else {
        let mid = tag_items_after(tags.skip(1)) + (nl1() + (seq![']'] + rest));
        assert(tag_items(tags) == if tags.len() == 1 {
            nl2() + quoted(tags[0])
        } else {
            nl2() + quoted(tags[0]) + seq![','] + tag_items(tags.skip(1))
        });
        assert(s =~= w + (seq!['['] + (nl2() + (quoted(tags[0]) + mid))));
        lemma_tok_prefix(w, seq!['['], nl2() + (quoted(tags[0]) + mid));
        let r = nl2() + (quoted(tags[0]) + mid);
        assert(all_ws(nl2()));
        lemma_skip_ws_all(nl2(), quoted(tags[0]) + mid);
        assert((quoted(tags[0]) + mid)[0] == '"');
        lemma_skip_ws_stop(quoted(tags[0]) + mid);
        let t = skip_ws(r);
        assert(t[0] == '"');
        assert(t[0] != ']');
        lemma_parse_string_q(nl2(), tags[0], mid);
        lemma_more_tags_items(tags.skip(1), seq![tags[0]], rest);
        assert(seq![tags[0]] + tags.skip(1) =~~= tags);
    }
}

} // verus!

verus! {

/// Reading a waypoint object undoes writing it.
#[verifier::spinoff_prover]
#[verifier::rlimit(100)]
pub proof fn lemma_parse_wp_json(v: WaypointView, w: Seq<char>, rest: Seq<char>)
    requires
        all_ws(w),
    ensures
        parse_wp_at(w + (wp_json(v) + rest)) == Some((v, rest)),
{
    let e = Seq::<char>::empty();
    let sp = seq![' '];
    let a8 = seq!['\n'] + (seq!['}'] + rest);
    let a7b = bool_text(v.active) + a8;
    let a7 = seq![':'] + (sp + a7b);
    let a6c = seq![','] + (nl1() + (key_active() + a7));
    let a6b = dec_digits(v.priority as int) + a6c;
    let a6 = seq![':'] + (sp + a6b);
    let a5c = seq![','] + (nl1() + (key_priority() + a6));
    let a5b = tags_json(v.tags) + a5c;
    let a5 = seq![':'] + (sp + a5b);
    let a4c = seq![','] + (nl1() + (key_tags() + a5));
    let a4b = quoted(v.location) + a4c;
    let a4 = seq![':'] + (sp + a4b);
    let a1 = nl1() + (key_location() + a4);
    let s = w + (wp_json(v) + rest);
    assert(s =~= w + (seq!['{'] + a1));
    assert(all_ws(nl1()) && all_ws(sp) && all_ws(seq!['\n']) && all_ws(e));
    lemma_tok_prefix(w, seq!['{'], a1);
    lemma_tok_prefix(nl1(), key_location(), a4);
    assert(a4 =~= e + (seq![':'] + (sp + a4b)));
    lemma_tok_prefix(e, seq![':'], sp + a4b);
    lemma_parse_string_q(sp, v.location, a4c);
    assert(a4c =~= e + (seq![','] + (nl1() + (key_tags() + a5))));
    lemma_tok_prefix(e, seq![','], nl1() + (key_tags() + a5));
    lemma_tok_prefix(nl1(), key_tags(), a5);
    assert(a5 =~= e + (seq![':'] + (sp + a5b)));
    lemma_tok_prefix(e, seq![':'], sp + a5b);
    lemma_parse_tags_json(v.tags, sp, a5c);
    assert(sp + (tags_json(v.tags) + a5c) =~= sp + a5b);
    assert(a5c =~= e + (seq![','] + (nl1() + (key_priority() + a6))));
    lemma_tok_prefix(e, seq![','], nl1() + (key_priority() + a6));
    lemma_tok_prefix(nl1(), key_priority(), a6);
    assert(a6 =~= e + (seq![':'] + (sp + a6b)));
    lemma_tok_prefix(e, seq![':'], sp + a6b);
    assert(a6c.len() > 0 && a6c[0] == ',' && !is_digit(',')) by {
        assert(',' as u32 == 44);
    }
    lemma_parse_u32_digits(v.priority, sp, a6c);
    assert(sp + (dec_digits(v.priority as int) + a6c) =~= sp + a6b);
    assert(a6c =~= e + (seq![','] + (nl1() + (key_active() + a7))));
    lemma_tok_prefix(e, seq![','], nl1() + (key_active() + a7));
    lemma_tok_prefix(nl1(), key_active(), a7);
    assert(a7 =~= e + (seq![':'] + (sp + a7b)));
    lemma_tok_prefix(e, seq![':'], sp + a7b);
    lemma_parse_bool_text(v.active, sp, a8);
    assert(sp + (bool_text(v.active) + a8) =~= sp + a7b);
    lemma_tok_prefix(seq!['\n'], seq!['}'], rest);
    assert(WaypointView {
        location: v.location,
        tags: v.tags,
        priority: v.priority,
        active: v.active,
    } =~~= v);
}

/// Serialization round trip: the written text of any waypoint reads back as
/// exactly that waypoint.
pub proof fn lemma_wp_json_round_trip(v: WaypointView)
    ensures
        spec_wp_from_json(wp_json(v)) == Some(v),
{
    let e = Seq::<char>::empty();
    lemma_parse_wp_json(v, e, e);
    assert(e + (wp_json(v) + e) =~= wp_json(v));
    assert(skip_ws(e).len() == 0);
}

} // verus!

verus! {

// ---------------------------------------------------------------------------
// The whole document: writer.
// ---------------------------------------------------------------------------
pub open spec fn key_path() -> Seq<char> {
    seq!['"', 'p', 'a', 't', 'h', '"']
}

pub open spec fn key_waypoints() -> Seq<char> {
    seq!['"', 'w', 'a', 'y', 'p', 'o', 'i', 'n', 't', 's', '"']
}

pub open spec fn key_metadata() -> Seq<char> {
    seq!['"', 'm', 'e', 't', 'a', 'd', 'a', 't', 'a', '"']
}

/// The items of a non-empty waypoint array, each on its own indented line.
pub open spec fn wp_items(ws: Seq<WaypointView>) -> Seq<char>
    decreases ws.len(),
{
    if ws.len() == 0 {
        Seq::<char>::empty()
    } else if ws.len() == 1 {
        nl2() + wp_json(ws[0])
    } else {
        nl2() + wp_json(ws[0]) + seq![','] + wp_items(ws.skip(1))
    }
}

/// A JSON array of waypoints.
pub open spec fn wps_json(ws: Seq<WaypointView>) -> Seq<char> {
    if ws.len() == 0 {
        seq!['[', ']']
    } else {
        seq!['['] + wp_items(ws) + nl1() + seq![']']
    }
}

/// One metadata entry as object member text.
pub open spec fn pair_json(m: MetaPairView) -> Seq<char> {
    quoted(m.key) + colon_sp() + quoted(m.value)
}

/// The members of a non-empty metadata object, each on its own indented line.
pub open spec fn meta_items(ms: Seq<MetaPairView>) -> Seq<char>
    decreases ms.len(),
{
    if ms.len() == 0 {
        Seq::<char>::empty()
    } else if ms.len() == 1 {
        nl2() + pair_json(ms[0])
    } else {
        nl2() + pair_json(ms[0]) + seq![','] + meta_items(ms.skip(1))
    }
}

/// A JSON object of string-to-string metadata entries.
pub open spec fn meta_json(ms: Seq<MetaPairView>) -> Seq<char> {
    if ms.len() == 0 {
        seq!['{', '}']
    } else {
        seq!['{'] + meta_items(ms) + nl1() + seq!['}']
    }
}

/// The pretty-printed JSON text of the whole document. The nesting follows
/// the order in which a reader consumes the text.
pub open spec fn cfg_json(c: ConfigView) -> Seq<char> {
    seq!['{'] + (nl1() + (key_path() + (colon_sp() + (quoted(c.path) + (seq![','] + (nl1()
        + (key_waypoints() + (colon_sp() + (wps_json(c.waypoints) + (seq![','] + (nl1()
        + (key_metadata() + (colon_sp() + (meta_json(c.metadata) + seq!['\n', '}']))))))))))))))
}

/// Splitting a non-empty waypoint item list after its first entry.
pub proof fn lemma_wp_items_snoc(ws: Seq<WaypointView>, w: WaypointView)
    requires
        ws.len() >= 1,
    ensures
        wp_items(ws.push(w)) == wp_items(ws) + seq![','] + nl2() + wp_json(w),
    decreases ws.len(),
{
    if ws.len() == 1 {
        assert(ws.push(w).skip(1) =~= seq![w]);
        assert(ws.push(w)[0] == ws[0]);
        assert(wp_items(seq![w]) == nl2() + wp_json(w));
        assert(wp_items(ws.push(w)) =~= wp_items(ws) + seq![','] + nl2() + wp_json(w));
    } else {
        lemma_wp_items_snoc(ws.skip(1), w);
        assert(ws.push(w).skip(1) =~= ws.skip(1).push(w));
        assert(ws.push(w)[0] == ws[0]);
        assert(nl2() + wp_json(ws[0]) + seq![','] + (wp_items(ws.skip(1)) + seq![','] + nl2()
            + wp_json(w)) =~= (nl2() + wp_json(ws[0]) + seq![','] + wp_items(ws.skip(1)))
            + seq![','] + nl2() + wp_json(w));
    }
}

/// Splitting a non-empty metadata member list after its first entry.
pub proof fn lemma_meta_items_snoc(ms: Seq<MetaPairView>, m: MetaPairView)
    requires
        ms.len() >= 1,
    ensures
        meta_items(ms.push(m)) == meta_items(ms) + seq![','] + nl2() + pair_json(m),
    decreases ms.len(),
{
    if ms.len() == 1 {
        assert(ms.push(m).skip(1) =~= seq![m]);
        assert(ms.push(m)[0] == ms[0]);
        assert(meta_items(seq![m]) == nl2() + pair_json(m));
        assert(meta_items(ms.push(m)) =~= meta_items(ms) + seq![','] + nl2() + pair_json(m));
    } else {
        lemma_meta_items_snoc(ms.skip(1), m);
        assert(ms.push(m).skip(1) =~= ms.skip(1).push(m));
        assert(ms.push(m)[0] == ms[0]);
        assert(nl2() + pair_json(ms[0]) + seq![','] + (meta_items(ms.skip(1)) + seq![','] + nl2()
            + pair_json(m)) =~= (nl2() + pair_json(ms[0]) + seq![','] + meta_items(ms.skip(1)))
            + seq![','] + nl2() + pair_json(m));
    }
}

/// Appends a JSON array of waypoints.
fn write_wps(out: &mut String, ws: &Vec<Waypoint>)
    ensures
        final(out)@ == old(out)@ + wps_json(views_of(ws@)),
{
    push_char(out, '[');
    if ws.len() == 0 {
        push_char(out, ']');
        proof {
            assert(views_of(ws@).len() == 0);
            assert(final(out)@ =~= old(out)@ + wps_json(views_of(ws@)));
        }
        return ;
    }
    let mut i: usize = 0;
    while i < ws.len()
        invariant
            1 <= ws@.len(),
            i <= ws@.len(),
            out@ == old(out)@ + seq!['['] + wp_items(views_of(ws@).take(i as int)),
        decreases ws@.len() - i,
    {
        if i > 0 {
            push_char(out, ',');
        }
        write_nl2(out);
        write_waypoint(out, &ws[i]);
        proof {
            let vs = views_of(ws@);
            assert(vs[i as int] == ws@[i as int]@);
            assert(vs.take(i + 1) =~= vs.take(i as int).push(vs[i as int]));
            if i == 0 {
                assert(vs.take(1) =~= seq![vs[0int]]);
                assert(wp_items(seq![vs[0int]]) == nl2() + wp_json(vs[0int]));
            } else {
                lemma_wp_items_snoc(vs.take(i as int), vs[i as int]);
            }
            assert(out@ =~= old(out)@ + seq!['['] + wp_items(vs.take(i + 1)));
        }
        i += 1;
    }
    write_nl1(out);
    push_char(out, ']');
    proof {
        assert(views_of(ws@).take(ws@.len() as int) =~= views_of(ws@));
        assert(final(out)@ =~= old(out)@ + wps_json(views_of(ws@)));
    }
}

/// Appends a JSON object of metadata entries.
fn write_meta(out: &mut String, ms: &Vec<MetaPair>)
    ensures
        final(out)@ == old(out)@ + meta_json(meta_views(ms@)),
{
    push_char(out, '{');
    if ms.len() == 0 {
        push_char(out, '}');
        proof {
            assert(meta_views(ms@).len() == 0);
            assert(final(out)@ =~= old(out)@ + meta_json(meta_views(ms@)));
        }
        return ;
    }
    let mut i: usize = 0;
    while i < ms.len()
        invariant
            1 <= ms@.len(),
            i <= ms@.len(),
            out@ == old(out)@ + seq!['{'] + meta_items(meta_views(ms@).take(i as int)),
        decreases ms@.len() - i,
    {
        if i > 0 {
            push_char(out, ',');
        }
        write_nl2(out);
        write_quoted(out, ms[i].key.as_str());
        write_colon(out);
        write_quoted(out, ms[i].value.as_str());
        proof {
            let vs = meta_views(ms@);
            assert(vs[i as int] == ms@[i as int]@);
            assert(vs.take(i + 1) =~= vs.take(i as int).push(vs[i as int]));
            if i == 0 {
                assert(vs.take(1) =~= seq![vs[0int]]);
                assert(meta_items(seq![vs[0int]]) == nl2() + pair_json(vs[0int]));
            } else {
                lemma_meta_items_snoc(vs.take(i as int), vs[i as int]);
            }
            assert(out@ =~= old(out)@ + seq!['{'] + meta_items(vs.take(i + 1)));
        }
        i += 1;
    }
    write_nl1(out);
    push_char(out, '}');
    proof {
        assert(meta_views(ms@).take(ms@.len() as int) =~= meta_views(ms@));
        assert(final(out)@ =~= old(out)@ + meta_json(meta_views(ms@)));
    }
}

fn write_key_path(out: &mut String)
    ensures
        final(out)@ == old(out)@ + key_path(),
{
    push_char(out, '"');
    push_char(out, 'p');
    push_char(out, 'a');
    push_char(out, 't');
    push_char(out, 'h');
    push_char(out, '"');
    proof {
        assert(final(out)@ =~= old(out)@ + key_path());
    }
}

fn write_key_waypoints(out: &mut String)
    ensures
        final(out)@ == old(out)@ + key_waypoints(),
{
    push_char(out, '"');
    push_char(out, 'w');
    push_char(out, 'a');
    push_char(out, 'y');
    push_char(out, 'p');
    push_char(out, 'o');
    push_char(out, 'i');
    push_char(out, 'n');
    push_char(out, 't');
    push_char(out, 's');
    push_char(out, '"');
    proof {
        assert(final(out)@ =~= old(out)@ + key_waypoints());
    }
}

fn write_key_metadata(out: &mut String)
    ensures
        final(out)@ == old(out)@ + key_metadata(),
{
    push_char(out, '"');
    push_char(out, 'm');
    push_char(out, 'e');
    push_char(out, 't');
    push_char(out, 'a');
    push_char(out, 'd');
    push_char(out, 'a');
    push_char(out, 't');
    push_char(out, 'a');
    push_char(out, '"');
    proof {
        assert(final(out)@ =~= old(out)@ + key_metadata());
    }
}

/// Appends the pretty-printed JSON text of the whole document.
#[verifier::rlimit(60)]
pub fn write_config(out: &mut String, c: &Config)
    ensures
        final(out)@ == old(out)@ + cfg_json(c@),
{
    push_char(out, '{');
    write_nl1(out);
    write_key_path(out);
    write_colon(out);
    write_quoted(out, c.path.as_str());
    push_char(out, ',');
    write_nl1(out);
    write_key_waypoints(out);
    write_colon(out);
    write_wps(out, &c.waypoints);
    push_char(out, ',');
    write_nl1(out);
    write_key_metadata(out);
    write_colon(out);
    write_meta(out, &c.metadata);
    push_char(out, '\n');
    push_char(out, '}');
    proof {
        assert(final(out)@ =~= old(out)@ + cfg_json(c@));
    }
}

} // verus!

verus! {

// ---------------------------------------------------------------------------
// The whole document: reader.
// ---------------------------------------------------------------------------
/// Consumes the items after the first of a waypoint array, then the closing
/// bracket; `acc` carries the items already read.
pub open spec fn parse_more_wps(s: Seq<char>, acc: Seq<WaypointView>) -> Option<
    (Seq<WaypointView>, Seq<char>),
>
    decreases s.len(),
    via parse_more_wps_dec
{
    let t = skip_ws(s);
    if t.len() > 0 && t[0] == ',' {
        match parse_wp_at(t.skip(1)) {
            Some((v, r)) => parse_more_wps(r, acc.push(v)),
            None => None,
        }
    } else if t.len() > 0 && t[0] == ']' {
        Some((acc, t.skip(1)))
    } else {
        None
    }
}

#[via_fn]
proof fn parse_more_wps_dec(s: Seq<char>, acc: Seq<WaypointView>) {
    lemma_skip_ws_len(s);
    let t = skip_ws(s);
    if t.len() > 0 && t[0] == ',' {
        lemma_parse_wp_len(t.skip(1));
    }
}

/// Consumes whitespace, then a whole JSON array of waypoints.
pub open spec fn parse_wps(s: Seq<char>) -> Option<(Seq<WaypointView>, Seq<char>)> {
    match tok(s, seq!['[']) {
        Some(r) => {
            let t = skip_ws(r);
            if t.len() > 0 && t[0] == ']' {
                Some((Seq::<WaypointView>::empty(), t.skip(1)))
            } else {
                match parse_wp_at(r) {
                    Some((v, r2)) => parse_more_wps(r2, seq![v]),
                    None => None,
                }
            }
        },
        None => None,
    }
}

pub proof fn lemma_parse_more_wps_len(s: Seq<char>, acc: Seq<WaypointView>)
    ensures
        parse_more_wps(s, acc) matches Some(p) ==> p.1.len() <= s.len(),
    decreases s.len(),
{
    lemma_skip_ws_len(s);
    let t = skip_ws(s);
    if t.len() > 0 && t[0] == ',' {
        lemma_parse_wp_len(t.skip(1));
        if let Some((v, r)) = parse_wp_at(t.skip(1)) {
            lemma_parse_more_wps_len(r, acc.push(v));
        }
    }
}

pub proof fn lemma_parse_wps_len(s: Seq<char>)
    ensures
        parse_wps(s) matches Some(p) ==> p.1.len() < s.len(),
{
    lemma_tok_len(s, seq!['[']);
    if let Some(r) = tok(s, seq!['[']) {
        lemma_skip_ws_len(r);
        lemma_parse_wp_len(r);
        if let Some((v, r2)) = parse_wp_at(r) {
            lemma_parse_more_wps_len(r2, seq![v]);
        }
    }
}

/// Consumes whitespace, then one `"key": "value"` member.
pub open spec fn parse_member(s: Seq<char>) -> Option<(MetaPairView, Seq<char>)> {
    match parse_string(s) {
        Some((k, r)) => match tok(r, seq![':']) {
            Some(r) => match parse_string(r) {
                Some((v, r)) => Some((MetaPairView { key: k, value: v }, r)),
                None => None,
            },
            None => None,
        },
        None => None,
    }
}

pub proof fn lemma_parse_member_len(s: Seq<char>)
    ensures
        parse_member(s) matches Some(p) ==> p.1.len() < s.len(),
{
    lemma_parse_string_len(s);
    if let Some((k, r)) = parse_string(s) {
        lemma_tok_len(r, seq![':']);
        if let Some(r2) = tok(r, seq![':']) {
            lemma_parse_string_len(r2);
        }
    }
}

/// Consumes the members after the first of a metadata object, then the
/// closing brace; `acc` carries the members already read.
pub open spec fn parse_more_meta(s: Seq<char>, acc: Seq<MetaPairView>) -> Option<
    (Seq<MetaPairView>, Seq<char>),
>
    decreases s.len(),
    via parse_more_meta_dec
{
    let t = skip_ws(s);
    if t.len() > 0 && t[0] == ',' {
        match parse_member(t.skip(1)) {
            Some((m, r)) => parse_more_meta(r, acc.push(m)),
            None => None,
        }
    } else if t.len() > 0 && t[0] == '}' {
        Some((acc, t.skip(1)))
    } else {
        None
    }
}

#[via_fn]
proof fn parse_more_meta_dec(s: Seq<char>, acc: Seq<MetaPairView>) {
    lemma_skip_ws_len(s);
    let t = skip_ws(s);
    if t.len() > 0 && t[0] == ',' {
        lemma_parse_member_len(t.skip(1));
    }
}

/// Consumes whitespace, then a whole metadata object: string keys to string
/// values, kept in order of appearance, duplicates preserved.
pub open spec fn parse_meta(s: Seq<char>) -> Option<(Seq<MetaPairView>, Seq<char>)> {
    match tok(s, seq!['{']) {
        Some(r) => {
            let t = skip_ws(r);
            if t.len() > 0 && t[0] == '}' {
                Some((Seq::<MetaPairView>::empty(), t.skip(1)))
            } else {
                match parse_member(r) {
                    Some((m, r2)) => parse_more_meta(r2, seq![m]),
                    None => None,
                }
            }
        },
        None => None,
    }
}

/// Consumes whitespace, then a whole document object: the three fields in
/// their fixed order, nothing more.
pub open spec fn parse_cfg_at(s: Seq<char>) -> Option<(ConfigView, Seq<char>)> {
    match tok(s, seq!['{']) {
        Some(r) => match tok(r, key_path()) {
            Some(r) => match tok(r, seq![':']) {
                Some(r) => match parse_string(r) {
                    Some((path, r)) => match tok(r, seq![',']) {
                        Some(r) => match tok(r, key_waypoints()) {
                            Some(r) => match tok(r, seq![':']) {
                                Some(r) => match parse_wps(r) {
                                    Some((ws, r)) => match tok(r, seq![',']) {
                                        Some(r) => match tok(r, key_metadata()) {
                                            Some(r) => match tok(r, seq![':']) {
                                                Some(r) => match parse_meta(r) {
                                                    Some((ms, r)) => match tok(r, seq!['}']) {
                                                        Some(r) => Some(
                                                            (
                                                                ConfigView {
                                                                    path: path,
                                                                    waypoints: ws,
                                                                    metadata: ms,
                                                                },
                                                                r,
                                                            ),
                                                        ),
                                                        None => None,
                                                    },
                                                    None => None,
                                                },
                                                None => None,
                                            },
                                            None => None,
                                        },
                                        None => None,
                                    },
                                    None => None,
                                },
                                None => None,
                            },
                            None => None,
                        },
                        None => None,
                    },
                    None => None,
                },
                None => None,
            },
            None => None,
        },
        None => None,
    }
}

/// The value of a complete document: one document object with nothing but
/// whitespace around it.
pub open spec fn spec_cfg_from_json(s: Seq<char>) -> Option<ConfigView> {
    match parse_cfg_at(s) {
        Some((c, r)) => if skip_ws(r).len() == 0 {
            Some(c)
        } else {
            None
        },
        None => None,
    }
}

} // verus!

verus! {

/// Reads whitespace, then a whole JSON array of waypoints.
pub fn e_parse_wps(v: &Vec<char>, i: usize) -> (r: Option<(Vec<Waypoint>, usize)>)
    requires
        i <= v@.len(),
    ensures
        match r {
            Some(p) => p.1 <= v@.len() && parse_wps(v@.skip(i as int)) == Some(
                (views_of(p.0@), v@.skip(p.1 as int)),
            ),
            None => parse_wps(v@.skip(i as int)) is None,
        },
{
    proof {
        reveal_strlit("[");
        assert("["@ =~= seq!['[']);
    }
    let j = match e_tok(v, i, "[") {
        Some(j) => j,
        None => {
            return None;
        },
    };
    let j2 = e_skip_ws(v, j);
    if j2 < v.len() && v[j2] == ']' {
        proof {
            assert(v@.skip(j2 as int)[0] == v@[j2 as int]);
            assert(v@.skip(j2 as int).skip(1) =~= v@.skip(j2 + 1));
        }
        let empty: Vec<Waypoint> = Vec::new();
        proof {
            assert(views_of(empty@) =~~= Seq::<WaypointView>::empty());
        }
        return Some((empty, j2 + 1));
    }
    proof {
        if j2 < v@.len() {
            assert(v@.skip(j2 as int)[0] == v@[j2 as int]);
        }
        lemma_skip_ws_idem(v@.skip(j as int));
    }
    let (first, mut k) = match e_parse_wp(v, j) {
        Some(p) => p,
        None => {
            return None;
        },
    };
    let mut acc: Vec<Waypoint> = Vec::new();
    let ghost fv = first@;
    acc.push(first);
    proof {
        assert(views_of(acc@) =~~= seq![fv]);
    }
    loop
        invariant
            k <= v@.len(),
            parse_wps(v@.skip(i as int)) == parse_more_wps(v@.skip(k as int), views_of(acc@)),
        decreases v@.len() - k,
    {
        let k2 = e_skip_ws(v, k);
        let ghost t = v@.skip(k2 as int);
        proof {
            if k2 < v@.len() {
                assert(t[0] == v@[k2 as int]);
            }
        }
        if k2 == v.len() {
            return None;
        }
        let c = v[k2];
        if c == ',' {
            proof {
                assert(t.skip(1) =~= v@.skip(k2 + 1));
            }
            let (w, k3) = match e_parse_wp(v, k2 + 1) {
                Some(p) => p,
                None => {
                    return None;
                },
            };
            let ghost acc0 = views_of(acc@);
            let ghost wv = w@;
            proof {
                lemma_parse_wp_len(v@.skip(k2 + 1));
            }
            acc.push(w);
            proof {
                assert(views_of(acc@) =~~= acc0.push(wv));
            }
            k = k3;
        } else if c == ']' {
            proof {
                assert(t.skip(1) =~= v@.skip(k2 + 1));
            }
            return Some((acc, k2 + 1));
        } else {
            return None;
        }
    }
}

/// Reads whitespace, then one `"key": "value"` member.
pub fn e_parse_member(v: &Vec<char>, i: usize) -> (r: Option<(MetaPair, usize)>)
    requires
        i <= v@.len(),
    ensures
        match r {
            Some(p) => p.1 <= v@.len() && parse_member(v@.skip(i as int)) == Some(
                (p.0@, v@.skip(p.1 as int)),
            ),
            None => parse_member(v@.skip(i as int)) is None,
        },
{
    proof {
        reveal_strlit(":");
        assert(":"@ =~= seq![':']);
    }
    let (key, r1) = match e_parse_string(v, i) {
        Some(p) => p,
        None => {
            return None;
        },
    };
    let r2 = match e_tok(v, r1, ":") {
        Some(r) => r,
        None => {
            return None;
        },
    };
    let (value, r3) = match e_parse_string(v, r2) {
        Some(p) => p,
        None => {
            return None;
        },
    };
    let m = MetaPair { key, value };
    proof {
        assert(m@ =~~= MetaPairView { key: m.key@, value: m.value@ });
    }
    Some((m, r3))
}

/// Reads whitespace, then a whole metadata object.
pub fn e_parse_meta(v: &Vec<char>, i: usize) -> (r: Option<(Vec<MetaPair>, usize)>)
    requires
        i <= v@.len(),
    ensures
        match r {
            Some(p) => p.1 <= v@.len() && parse_meta(v@.skip(i as int)) == Some(
                (meta_views(p.0@), v@.skip(p.1 as int)),
            ),
            None => parse_meta(v@.skip(i as int)) is None,
        },
{
    proof {
        reveal_strlit("{");
        assert("{"@ =~= seq!['{']);
    }
    let j = match e_tok(v, i, "{") {
        Some(j) => j,
        None => {
            return None;
        },
    };
    let j2 = e_skip_ws(v, j);
    if j2 < v.len() && v[j2] == '}' {
        proof {
            assert(v@.skip(j2 as int)[0] == v@[j2 as int]);
            assert(v@.skip(j2 as int).skip(1) =~= v@.skip(j2 + 1));
        }
        let empty: Vec<MetaPair> = Vec::new();
        proof {
            assert(meta_views(empty@) =~~= Seq::<MetaPairView>::empty());
        }
        return Some((empty, j2 + 1));
    }
    proof {
        if j2 < v@.len() {
            assert(v@.skip(j2 as int)[0] == v@[j2 as int]);
        }
        lemma_skip_ws_idem(v@.skip(j as int));
    }
    let (first, mut k) = match e_parse_member(v, j) {
        Some(p) => p,
        None => {
            return None;
        },
    };
    let mut acc: Vec<MetaPair> = Vec::new();
    let ghost fv = first@;
    acc.push(first);
    proof {
        assert(meta_views(acc@) =~~= seq![fv]);
    }
    loop
        invariant
            k <= v@.len(),
            parse_meta(v@.skip(i as int)) == parse_more_meta(v@.skip(k as int), meta_views(acc@)),
        decreases v@.len() - k,
    {
        let k2 = e_skip_ws(v, k);
        let ghost t = v@.skip(k2 as int);
        proof {
            if k2 < v@.len() {
                assert(t[0] == v@[k2 as int]);
            }
        }
        if k2 == v.len() {
            return None;
        }
        let c = v[k2];
        if c == ',' {
            proof {
                assert(t.skip(1) =~= v@.skip(k2 + 1));
            }
            let (m, k3) = match e_parse_member(v, k2 + 1) {
                Some(p) => p,
                None => {
                    return None;
                },
            };
            let ghost acc0 = meta_views(acc@);
            let ghost mv = m@;
            proof {
                lemma_parse_member_len(v@.skip(k2 + 1));
            }
            acc.push(m);
            proof {
                assert(meta_views(acc@) =~~= acc0.push(mv));
            }
            k = k3;
        } else if c == '}' {
            proof {
                assert(t.skip(1) =~= v@.skip(k2 + 1));
            }
            return Some((acc, k2 + 1));
        } else {
            return None;
        }
    }
}

/// Reads whitespace, then a whole document object.
#[verifier::rlimit(60)]
pub fn e_parse_cfg(v: &Vec<char>, i: usize) -> (r: Option<(Config, usize)>)
    requires
        i <= v@.len(),
    ensures
        match r {
            Some(p) => p.1 <= v@.len() && parse_cfg_at(v@.skip(i as int)) == Some(
                (p.0@, v@.skip(p.1 as int)),
            ),
            None => parse_cfg_at(v@.skip(i as int)) is None,
        },
{
    proof {
        reveal_strlit("{");
        reveal_strlit("}");
        reveal_strlit(",");
        reveal_strlit(":");
        reveal_strlit("\"path\"");
        reveal_strlit("\"waypoints\"");
        reveal_strlit("\"metadata\"");
        assert("{"@ =~= seq!['{']);
        assert("}"@ =~= seq!['}']);
        assert(","@ =~= seq![',']);
        assert(":"@ =~= seq![':']);
        assert("\"path\""@ =~= key_path());
        assert("\"waypoints\""@ =~= key_waypoints());
        assert("\"metadata\""@ =~= key_metadata());
    }
    let r = match e_tok(v, i, "{") {
        Some(r) => r,
        None => {
            return None;
        },
    };
    let r = match e_tok(v, r, "\"path\"") {
        Some(r) => r,
        None => {
            return None;
        },
    };
    let r = match e_tok(v, r, ":") {
        Some(r) => r,
        None => {
            return None;
        },
    };
    let (path, r) = match e_parse_string(v, r) {
        Some(p) => p,
        None => {
            return None;
        },
    };
    let r = match e_tok(v, r, ",") {
        Some(r) => r,
        None => {
            return None;
        },
    };
    let r = match e_tok(v, r, "\"waypoints\"") {
        Some(r) => r,
        None => {
            return None;
        },
    };
    let r = match e_tok(v, r, ":") {
        Some(r) => r,
        None => {
            return None;
        },
    };
    let (waypoints, r) = match e_parse_wps(v, r) {
        Some(p) => p,
        None => {
            return None;
        },
    };
    let r = match e_tok(v, r, ",") {
        Some(r) => r,
        None => {
            return None;
        },
    };
    let r = match e_tok(v, r, "\"metadata\"") {
        Some(r) => r,
        None => {
            return None;
        },
    };
    let r = match e_tok(v, r, ":") {
        Some(r) => r,
        None => {
            return None;
        },
    };
    let (metadata, r) = match e_parse_meta(v, r) {
        Some(p) => p,
        None => {
            return None;
        },
    };
    let r = match e_tok(v, r, "}") {
        Some(r) => r,
        None => {
            return None;
        },
    };
    let c = Config { path, waypoints, metadata };
    proof {
        assert(c@ =~~= ConfigView {
            path: c.path@,
            waypoints: views_of(c.waypoints@),
            metadata: meta_views(c.metadata@),
        });
    }
    Some((c, r))
}

impl Config {
    /// The pretty-printed JSON text of this document, exactly as saved.
    pub fn to_json(&self) -> (r: String)
        ensures
            r@ == cfg_json(self@),
    {
        let mut out = String::new();
        write_config(&mut out, self);
        proof {
            assert(Seq::<char>::empty() + cfg_json(self@) =~= cfg_json(self@));
        }
        out
    }

    /// Recomputes the exported path string from the active waypoints, in
    /// stored order, and returns the document's JSON text for the caller to
    /// write to disk.
    pub fn save(&mut self) -> (r: String)
        ensures
            final(self).waypoints == old(self).waypoints,
            final(self).metadata == old(self).metadata,
            final(self)@.path == crate::config::rendered_path(views_of(old(self).waypoints@)),
            r@ == cfg_json(final(self)@),
    {
        self.path = crate::config::render_path(&self.waypoints);
        self.to_json()
    }

    /// Strict parse of one document: the object's three fields in their fixed
    /// order, nothing but whitespace around it — the order this crate's
    /// writer always emits. Fails with `ParseError` on any other text.
    pub fn load(text: &str) -> (r: Result<Config, crate::errors::WpError>)
        ensures
            match r {
                Ok(c) => spec_cfg_from_json(text@) == Some(c@),
                Err(e) => spec_cfg_from_json(text@) is None && e
                    == crate::errors::WpError::ParseError,
            },
    {
        let chars = crate::text::str_chars(text);
        proof {
            assert(text@.skip(0) =~= text@);
        }
        match e_parse_cfg(&chars, 0) {
            Some((c, j)) => {
                let j2 = e_skip_ws(&chars, j);
                if j2 == chars.len() {
                    proof {
                        assert(skip_ws(text@.skip(j as int)).len() == 0);
                    }
                    Ok(c)
                } else {
                    proof {
                        assert(skip_ws(text@.skip(j as int)).len() > 0);
                    }
                    Err(crate::errors::WpError::ParseError)
                }
            },
            None => Err(crate::errors::WpError::ParseError),
        }
    }
}

} // verus!

verus! {

/// The pretty-printed JSON text of a waypoint array, as a listing prints it.
pub fn waypoints_json(ws: &Vec<Waypoint>) -> (r: String)
    ensures
        r@ == wps_json(views_of(ws@)),
{
    let mut out = String::new();
    write_wps(&mut out, ws);
    proof {
        assert(Seq::<char>::empty() + wps_json(views_of(ws@)) =~= wps_json(views_of(ws@)));
    }
    out
}

} // verus!

verus! {

/// The text after the first item of a non-empty written waypoint array.
pub open spec fn wp_items_after(ws: Seq<WaypointView>) -> Seq<char> {
    if ws.len() == 0 {
        Seq::<char>::empty()
    } else {
        seq![','] + wp_items(ws)
    }
}

/// Reading the waypoints after the first undoes writing them.
#[verifier::spinoff_prover]
#[verifier::rlimit(100)]
pub proof fn lemma_more_wps_items(ws: Seq<WaypointView>, acc: Seq<WaypointView>, rest: Seq<char>)
    ensures
        parse_more_wps(wp_items_after(ws) + (nl1() + (seq![']'] + rest)), acc) == Some(
            (acc + ws, rest),
        ),
    decreases ws.len(),
{
    let s = wp_items_after(ws) + (nl1() + (seq![']'] + rest));
    if ws.len() == 0 {
        assert(s =~= nl1() + (seq![']'] + rest));
        assert(all_ws(nl1()));
        lemma_skip_ws_all(nl1(), seq![']'] + rest);
        assert((seq![']'] + rest)[0] == ']');
        lemma_skip_ws_stop(seq![']'] + rest);
        let t = skip_ws(s);
        assert(t[0] == ']');
        assert(t.skip(1) =~= rest);
        assert(acc + ws =~~= acc);
    } else {
        assert(s[0] == ',');
        assert(!is_ws(','));
        lemma_skip_ws_stop(s);
        let t = s;
        assert(wp_items(ws) == if ws.len() == 1 {
            nl2() + wp_json(ws[0])
        } else {
            nl2() + wp_json(ws[0]) + seq![','] + wp_items(ws.skip(1))
        });
        assert(t.skip(1) =~= nl2() + (wp_json(ws[0]) + (wp_items_after(ws.skip(1)) + (nl1() + (
        seq![']'] + rest)))));
        assert(all_ws(nl2()));
        lemma_parse_wp_json(ws[0], nl2(), wp_items_after(ws.skip(1)) + (nl1() + (seq![']'] + rest)));
        lemma_more_wps_items(ws.skip(1), acc.push(ws[0]), rest);
        assert(acc.push(ws[0]) + ws.skip(1) =~~= acc + ws);
    }
}

/// Reading an array of waypoints undoes writing it.
#[verifier::spinoff_prover]
#[verifier::rlimit(100)]
pub proof fn lemma_parse_wps_json(ws: Seq<WaypointView>, w: Seq<char>, rest: Seq<char>)
    requires
        all_ws(w),
    ensures
        parse_wps(w + (wps_json(ws) + rest)) == Some((ws, rest)),
{
    let s = w + (wps_json(ws) + rest);
    if ws.len() == 0 {
        assert(s =~= w + (seq!['['] + (seq![']'] + rest)));
        lemma_tok_prefix(w, seq!['['], seq![']'] + rest);
        let r = seq![']'] + rest;
        assert(r[0] == ']');
        lemma_skip_ws_stop(r);
        assert(r.skip(1) =~= rest);
        assert(Seq::<WaypointView>::empty() + ws =~~= ws);
    } else {
        let mid = wp_items_after(ws.skip(1)) + (nl1() + (seq![']'] + rest));
        assert(wp_items(ws) == if ws.len() == 1 {
            nl2() + wp_json(ws[0])
        } else {
            nl2() + wp_json(ws[0]) + seq![','] + wp_items(ws.skip(1))
        });
        assert(s =~= w + (seq!['['] + (nl2() + (wp_json(ws[0]) + mid))));
        lemma_tok_prefix(w, seq!['['], nl2() + (wp_json(ws[0]) + mid));
        let r = nl2() + (wp_json(ws[0]) + mid);
        assert(all_ws(nl2()));
        lemma_skip_ws_all(nl2(), wp_json(ws[0]) + mid);
        assert((wp_json(ws[0]) + mid)[0] == '{');
        lemma_skip_ws_stop(wp_json(ws[0]) + mid);
        let t = skip_ws(r);
        assert(t[0] == '{');
        assert(t[0] != ']');
        lemma_parse_wp_json(ws[0], nl2(), mid);
        lemma_more_wps_items(ws.skip(1), seq![ws[0]], rest);
        assert(seq![ws[0]] + ws.skip(1) =~~= ws);
    }
}

/// Reading one metadata member undoes writing it.
pub proof fn lemma_parse_member_json(m: MetaPairView, w: Seq<char>, rest: Seq<char>)
    requires
        all_ws(w),
    ensures
        parse_member(w + (pair_json(m) + rest)) == Some((m, rest)),
{
    let sp = seq![' '];
    let e = Seq::<char>::empty();
    let s = w + (pair_json(m) + rest);
    let after_key = seq![':'] + (sp + (quoted(m.value) + rest));
    assert(s =~= w + (quoted(m.key) + after_key));
    lemma_parse_string_q(w, m.key, after_key);
    assert(all_ws(e));
    assert(after_key =~= e + (seq![':'] + (sp + (quoted(m.value) + rest))));
    lemma_tok_prefix(e, seq![':'], sp + (quoted(m.value) + rest));
    assert(all_ws(sp));
    lemma_parse_string_q(sp, m.value, rest);
    assert(MetaPairView { key: m.key, value: m.value } =~~= m);
}

/// The text after the first member of a non-empty written metadata object.
pub open spec fn meta_items_after(ms: Seq<MetaPairView>) -> Seq<char> {
    if ms.len() == 0 {
        Seq::<char>::empty()
    } else {
        seq![','] + meta_items(ms)
    }
}

/// Reading the metadata members after the first undoes writing them.
pub proof fn lemma_more_meta_items(ms: Seq<MetaPairView>, acc: Seq<MetaPairView>, rest: Seq<char>)
    ensures
        parse_more_meta(meta_items_after(ms) + (nl1() + (seq!['}'] + rest)), acc) == Some(
            (acc + ms, rest),
        ),
    decreases ms.len(),
{
    let s = meta_items_after(ms) + (nl1() + (seq!['}'] + rest));
    if ms.len() == 0 {
        assert(s =~= nl1() + (seq!['}'] + rest));
        assert(all_ws(nl1()));
        lemma_skip_ws_all(nl1(), seq!['}'] + rest);
        assert((seq!['}'] + rest)[0] == '}');
        lemma_skip_ws_stop(seq!['}'] + rest);
        let t = skip_ws(s);
        assert(t[0] == '}');
        assert(t.skip(1) =~= rest);
        assert(acc + ms =~~= acc);
    } else {
        assert(s[0] == ',');
        assert(!is_ws(','));
        lemma_skip_ws_stop(s);
        let t = s;
        assert(meta_items(ms) == if ms.len() == 1 {
            nl2() + pair_json(ms[0])
        } else {
            nl2() + pair_json(ms[0]) + seq![','] + meta_items(ms.skip(1))
        });
        assert(t.skip(1) =~= nl2() + (pair_json(ms[0]) + (meta_items_after(ms.skip(1)) + (nl1() + (
        seq!['}'] + rest)))));
        assert(all_ws(nl2()));
        lemma_parse_member_json(
            ms[0],
            nl2(),
            meta_items_after(ms.skip(1)) + (nl1() + (seq!['}'] + rest)),
        );
        lemma_more_meta_items(ms.skip(1), acc.push(ms[0]), rest);
        assert(acc.push(ms[0]) + ms.skip(1) =~~= acc + ms);
    }
}

/// Reading a metadata object undoes writing it.
pub proof fn lemma_parse_meta_json(ms: Seq<MetaPairView>, w: Seq<char>, rest: Seq<char>)
    requires
        all_ws(w),
    ensures
        parse_meta(w + (meta_json(ms) + rest)) == Some((ms, rest)),
{
    let s = w + (meta_json(ms) + rest);
    if ms.len() == 0 {
        assert(s =~= w + (seq!['{'] + (seq!['}'] + rest)));
        lemma_tok_prefix(w, seq!['{'], seq!['}'] + rest);
        let r = seq!['}'] + rest;
        assert(r[0] == '}');
        lemma_skip_ws_stop(r);
        assert(r.skip(1) =~= rest);
        assert(Seq::<MetaPairView>::empty() + ms =~~= ms);
    } else {
        let mid = meta_items_after(ms.skip(1)) + (nl1() + (seq!['}'] + rest));
        assert(meta_items(ms) == if ms.len() == 1 {
            nl2() + pair_json(ms[0])
        } else {
            nl2() + pair_json(ms[0]) + seq![','] + meta_items(ms.skip(1))
        });
        assert(s =~= w + (seq!['{'] + (nl2() + (pair_json(ms[0]) + mid))));
        lemma_tok_prefix(w, seq!['{'], nl2() + (pair_json(ms[0]) + mid));
        let r = nl2() + (pair_json(ms[0]) + mid);
        assert(all_ws(nl2()));
        lemma_skip_ws_all(nl2(), pair_json(ms[0]) + mid);
        assert((pair_json(ms[0]) + mid)[0] == '"');
        lemma_skip_ws_stop(pair_json(ms[0]) + mid);
        let t = skip_ws(r);
        assert(t[0] == '"');
        assert(t[0] != '}');
        lemma_parse_member_json(ms[0], nl2(), mid);
        lemma_more_meta_items(ms.skip(1), seq![ms[0]], rest);
        assert(seq![ms[0]] + ms.skip(1) =~~= ms);
    }
}

/// Reading a document object undoes writing it.
#[verifier::spinoff_prover]
#[verifier::rlimit(100)]
pub proof fn lemma_parse_cfg_json(c: ConfigView, w: Seq<char>, rest: Seq<char>)
    requires
        all_ws(w),
    ensures
        parse_cfg_at(w + (cfg_json(c) + rest)) == Some((c, rest)),
{
    let e = Seq::<char>::empty();
    let sp = seq![' '];
    let a6 = meta_json(c.metadata) + (seq!['\n'] + (seq!['}'] + rest));
    let a5c = seq![','] + (nl1() + (key_metadata() + (seq![':'] + (sp + a6))));
    let a5b = wps_json(c.waypoints) + a5c;
    let a5 = seq![':'] + (sp + a5b);
    let a4c = seq![','] + (nl1() + (key_waypoints() + a5));
    let a4b = quoted(c.path) + a4c;
    let a4 = seq![':'] + (sp + a4b);
    let a1 = nl1() + (key_path() + a4);
    let s = w + (cfg_json(c) + rest);
    assert(s =~= w + (seq!['{'] + a1));
    assert(all_ws(nl1()) && all_ws(sp) && all_ws(seq!['\n']) && all_ws(e));
    lemma_tok_prefix(w, seq!['{'], a1);
    lemma_tok_prefix(nl1(), key_path(), a4);
    assert(a4 =~= e + (seq![':'] + (sp + a4b)));
    lemma_tok_prefix(e, seq![':'], sp + a4b);
    lemma_parse_string_q(sp, c.path, a4c);
    assert(a4c =~= e + (seq![','] + (nl1() + (key_waypoints() + a5))));
    lemma_tok_prefix(e, seq![','], nl1() + (key_waypoints() + a5));
    lemma_tok_prefix(nl1(), key_waypoints(), a5);
    assert(a5 =~= e + (seq![':'] + (sp + a5b)));
    lemma_tok_prefix(e, seq![':'], sp + a5b);
    lemma_parse_wps_json(c.waypoints, sp, a5c);
    assert(sp + (wps_json(c.waypoints) + a5c) =~= sp + a5b);
    assert(a5c =~= e + (seq![','] + (nl1() + (key_metadata() + (seq![':'] + (sp + a6))))));
    lemma_tok_prefix(e, seq![','], nl1() + (key_metadata() + (seq![':'] + (sp + a6))));
    lemma_tok_prefix(nl1(), key_metadata(), seq![':'] + (sp + a6));
    lemma_tok_prefix(e, seq![':'], sp + a6);
    lemma_parse_meta_json(c.metadata, sp, seq!['\n'] + (seq!['}'] + rest));
    assert(sp + (meta_json(c.metadata) + (seq!['\n'] + (seq!['}'] + rest))) =~= sp + a6);
    lemma_tok_prefix(seq!['\n'], seq!['}'], rest);
    assert(ConfigView { path: c.path, waypoints: c.waypoints, metadata: c.metadata } =~~= c);
}

/// Persistence round trip: the written text of any document reads back as
/// exactly that document.
pub proof fn lemma_cfg_json_round_trip(c: ConfigView)
    ensures
        spec_cfg_from_json(cfg_json(c)) == Some(c),
{
    let e = Seq::<char>::empty();
    lemma_parse_cfg_json(c, e, e);
    assert(e + (cfg_json(c) + e) =~= cfg_json(c));
    assert(skip_ws(e).len() == 0);
}

} // verus!
