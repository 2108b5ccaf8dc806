//! The store's text format: the whole collection as one pretty-printed
//! array of records, each with the keys `title`, `description`, `priority`,
//! `status` and `project` in that order. `save_tasks` renders a collection
//! to that text; `load_tasks` reads it back. The two are proved to
//! round-trip: see [`lemma_store_round_trip`].

use vstd::prelude::*;
use crate::errors::StoreError;
use crate::num::all_digits;
use crate::num::dec_digits;
use crate::num::digits_val;
use crate::num::is_digit;
use crate::num::lemma_dec_digits_val;
use crate::num::char_of_digit;
use crate::task::views;
use crate::task::Task;
use crate::task::TaskView;

verus! {

// ---------------------------------------------------------------------------
// The fixed chunks of the format.
// ---------------------------------------------------------------------------
/// The opening of a non-empty array.
pub open spec fn lit_open() -> Seq<char> {
    seq!['[', '\n']
}

/// The opening of a record up to its title value.
pub open spec fn lit_title() -> Seq<char> {
    seq![' ', ' ', '{', '\n', ' ', ' ', ' ', ' ', '"', 't', 'i', 't', 'l', 'e', '"', ':', ' ']
}

/// The chunk between the title value and the description value.
pub open spec fn lit_description() -> Seq<char> {
    seq![',', '\n', ' ', ' ', ' ', ' ', '"', 'd', 'e', 's', 'c', 'r', 'i', 'p', 't', 'i', 'o', 'n', '"', ':', ' ']
}

/// The chunk between the description value and the priority value.
pub open spec fn lit_priority() -> Seq<char> {
    seq![',', '\n', ' ', ' ', ' ', ' ', '"', 'p', 'r', 'i', 'o', 'r', 'i', 't', 'y', '"', ':', ' ']
}

/// The chunk between the priority value and the status value.
pub open spec fn lit_status() -> Seq<char> {
    seq![',', '\n', ' ', ' ', ' ', ' ', '"', 's', 't', 'a', 't', 'u', 's', '"', ':', ' ']
}

/// The chunk between the status value and the project value.
pub open spec fn lit_project() -> Seq<char> {
    seq![',', '\n', ' ', ' ', ' ', ' ', '"', 'p', 'r', 'o', 'j', 'e', 'c', 't', '"', ':', ' ']
}

/// The closing of a record.
pub open spec fn lit_obj_close() -> Seq<char> {
    seq!['\n', ' ', ' ', '}']
}

/// The separator between two records.
pub open spec fn lit_sep() -> Seq<char> {
    seq![',', '\n']
}

/// The closing of a non-empty array.
pub open spec fn lit_close() -> Seq<char> {
    seq!['\n', ']']
}

/// The empty array.
pub open spec fn lit_empty() -> Seq<char> {
    seq!['[', ']']
}

// ---------------------------------------------------------------------------
// Encoding, as a mathematical function of the collection.
// ---------------------------------------------------------------------------
/// The hexadecimal digit character for a value `d` in `0 ..= 15`, lower case.
pub open spec fn hex_digit(d: int) -> char {
    if d < 10 {
        char_of_digit(d)
    } else {
        ((d - 10 + 'a' as int) as u8) as char
    }
}

/// One character inside a quoted value: quote and backslash are escaped,
/// control characters become a four-digit escape, everything else stands
/// for itself.
pub open spec fn enc_char(c: char) -> Seq<char> {
    if c == '"' {
        seq!['\\', '"']
    } else if c == '\\' {
        seq!['\\', '\\']
    } else if 0 <= (c as int) && (c as int) < 32 {
        seq!['\\', 'u', '0', '0', hex_digit((c as int) / 16), hex_digit((c as int) % 16)]
    } else {
        seq![c]
    }
}

/// The body of a quoted value, character by character.
pub open spec fn enc_str_body(s: Seq<char>) -> Seq<char>
    decreases s.len(),
{
    if s.len() == 0 {
        Seq::empty()
    } else {
        enc_char(s[0]) + enc_str_body(s.skip(1))
    }
}

/// A quoted value.
pub open spec fn enc_string(s: Seq<char>) -> Seq<char> {
    seq!['"'] + enc_str_body(s) + seq!['"']
}

/// One record.
pub open spec fn enc_task(tv: TaskView) -> Seq<char> {
    lit_title() + enc_string(tv.title) + lit_description() + enc_string(tv.description)
        + lit_priority() + dec_digits(tv.priority as int) + lit_status() + enc_string(tv.status)
        + lit_project() + enc_string(tv.project) + lit_obj_close()
}

/// Every record after the first, each preceded by the separator.
pub open spec fn enc_more(ts: Seq<TaskView>) -> Seq<char>
    decreases ts.len(),
{
    if ts.len() == 0 {
        Seq::empty()
    } else {
        lit_sep() + enc_task(ts[0]) + enc_more(ts.skip(1))
    }
}

/// The whole collection as stored text.
pub open spec fn enc_tasks(ts: Seq<TaskView>) -> Seq<char> {
    if ts.len() == 0 {
        lit_empty()
    } else {
        lit_open() + enc_task(ts[0]) + enc_more(ts.skip(1)) + lit_close()
    }
}

/// Appending a record extends the tail encoding on the right.
proof fn lemma_enc_more_push(ts: Seq<TaskView>, tv: TaskView)
    ensures
        enc_more(ts.push(tv)) == enc_more(ts) + (lit_sep() + enc_task(tv)),
    decreases ts.len(),
{
    let p = ts.push(tv);
    if ts.len() == 0 {
        assert(p[0] == tv);
        assert(p.skip(1) =~= Seq::<TaskView>::empty());
        assert(enc_more(Seq::<TaskView>::empty()) == Seq::<char>::empty());
        assert(enc_more(p) == lit_sep() + enc_task(tv) + Seq::<char>::empty());
        assert(enc_more(p) =~= Seq::<char>::empty() + (lit_sep() + enc_task(tv)));
    } else {
        assert(p.skip(1) =~= ts.skip(1).push(tv));
        lemma_enc_more_push(ts.skip(1), tv);
        assert(enc_more(p) == lit_sep() + enc_task(p[0]) + enc_more(ts.skip(1).push(tv)));
        assert(p[0] == ts[0]);
        assert(enc_more(p) =~= enc_more(ts) + (lit_sep() + enc_task(tv)));
    }
}

// ---------------------------------------------------------------------------
// The encoder.
// ---------------------------------------------------------------------------
/// Appends every character of `s` to `out`.
fn append_str_chars(out: &mut Vec<char>, s: &str)
    ensures
        final(out)@ == old(out)@ + s@,
{
    let n = s.unicode_len();
    let mut j: usize = 0;
    while j < n
        invariant
            n == s@.len(),
            0 <= j <= n,
            out@ == old(out)@ + s@.take(j as int),
        decreases n - j,
    {
        out.push(s.get_char(j));
        proof {
            assert(out@ =~= old(out)@ + s@.take(j + 1));
        }
        j = j + 1;
    }
    proof {
        assert(s@.take(n as int) =~= s@);
    }
}

/// Appends the quoted, escaped form of `s` to `out`.
fn append_enc_string(out: &mut Vec<char>, s: &str)
    ensures
        final(out)@ == old(out)@ + enc_string(s@),
{
    out.push('"');
    let n = s.unicode_len();
    let mut j: usize = 0;
    while j < n
        invariant
            n == s@.len(),
            0 <= j <= n,
            out@ == old(out)@ + seq!['"'] + enc_str_body(s@.take(j as int)),
        decreases n - j,
    {
        let c = s.get_char(j);
        let u = c as u32;
        if c == '"' {
            out.push('\\');
            out.push('"');
        } else if c == '\\' {
            out.push('\\');
            out.push('\\');
        } else if u < 32 {
            out.push('\\');
            out.push('u');
            out.push('0');
            out.push('0');
            if u / 16 < 10 {
                out.push((48 + u / 16) as u8 as char);
            } else {
                out.push((97 + u / 16 - 10) as u8 as char);
            }
            if u % 16 < 10 {
                out.push((48 + u % 16) as u8 as char);
            } else {
                out.push((97 + u % 16 - 10) as u8 as char);
            }
        } else {
            out.push(c);
        }
        proof {
            assert(u as int == c as int);
            lemma_enc_str_body_push(s@.take(j as int), c);
            assert(s@.take(j + 1) =~= s@.take(j as int).push(c));
            assert(out@ =~= old(out)@ + seq!['"'] + enc_str_body(s@.take(j + 1)));
        }
        j = j + 1;
    }
    out.push('"');
    proof {
        assert(s@.take(n as int) =~= s@);
        assert(final(out)@ =~= old(out)@ + enc_string(s@));
    }
}

/// Encoding one more character extends the body encoding on the right.
proof fn lemma_enc_str_body_push(s: Seq<char>, c: char)
    ensures
        enc_str_body(s.push(c)) == enc_str_body(s) + enc_char(c),
    decreases s.len(),
{
    let p = s.push(c);
    if s.len() == 0 {
        assert(p[0] == c);
        assert(p.skip(1) =~= Seq::<char>::empty());
        assert(enc_str_body(p) == enc_char(p[0]) + enc_str_body(p.skip(1)));
        assert(enc_str_body(Seq::<char>::empty()) == Seq::<char>::empty());
        assert(enc_str_body(p) =~= Seq::<char>::empty() + enc_char(c));
    } else {
        assert(p.skip(1) =~= s.skip(1).push(c));
        lemma_enc_str_body_push(s.skip(1), c);
        assert(p[0] == s[0]);
        assert(enc_str_body(p) =~= enc_str_body(s) + enc_char(c));
    }
}

/// Renders the whole collection as the stored text, pretty-printed with the
/// keys of every record in a fixed order.
pub fn save_tasks(tasks: &Vec<Task>) -> (r: String)
    ensures
        r@ == enc_tasks(views(tasks@)),
{
    let ghost m = views(tasks@);
    let n = tasks.len();
    let mut out: Vec<char> = Vec::new();
    if n == 0 {
        out.push('[');
        out.push(']');
        proof {
            assert(out@ =~= lit_empty());
        }
        return chars_to_string(&out);
    }
    out.push('[');
    out.push('\n');
    proof {
        assert(out@ =~= lit_open());
    }
    append_task(&mut out, &tasks[0]);
    proof {
        assert(m[0] == tasks@[0]@);
        assert(enc_more(m.subrange(1, 1)) =~= Seq::<char>::empty());
        assert(out@ =~= lit_open() + enc_task(m[0]) + enc_more(m.subrange(1, 1)));
    }
    let mut i: usize = 1;
    while i < n
        invariant
            n == tasks@.len(),
            m == views(tasks@),
            1 <= i <= n,
            out@ == lit_open() + enc_task(m[0]) + enc_more(m.subrange(1, i as int)),
        decreases n - i,
    {
        let ghost before = out@;
        append_str_chars(&mut out, ",\n");
        append_task(&mut out, &tasks[i]);
        proof {
            reveal_strlit(",\n");
            assert(",\n"@ =~= lit_sep());
            assert(m[i as int] == tasks@[i as int]@);
            assert(m.subrange(1, i + 1) =~= m.subrange(1, i as int).push(m[i as int]));
            lemma_enc_more_push(m.subrange(1, i as int), m[i as int]);
            assert(out@ =~= before + (lit_sep() + enc_task(m[i as int])));
            assert(out@ =~= lit_open() + enc_task(m[0]) + enc_more(m.subrange(1, i + 1)));
        }
        i = i + 1;
    }
    append_str_chars(&mut out, "\n]");
    proof {
        reveal_strlit("\n]");
        assert("\n]"@ =~= lit_close());
        assert(m.subrange(1, n as int) =~= m.skip(1));
        assert(out@ =~= enc_tasks(m));
    }
    chars_to_string(&out)
}

/// Appends one record to `out`.
fn append_task(out: &mut Vec<char>, t: &Task)
    ensures
        final(out)@ == old(out)@ + enc_task(t@),
{
    append_str_chars(out, "  {\n    \"title\": ");
    append_enc_string(out, t.title.as_str());
    append_str_chars(out, ",\n    \"description\": ");
    append_enc_string(out, t.description.as_str());
    append_str_chars(out, ",\n    \"priority\": ");
    let mut digits: Vec<char> = Vec::new();
    crate::num::push_u8_digits(&mut digits, t.priority);
    append_char_vec(out, &digits);
    append_str_chars(out, ",\n    \"status\": ");
    append_enc_string(out, t.status.as_str());
    append_str_chars(out, ",\n    \"project\": ");
    append_enc_string(out, t.project.as_str());
    append_str_chars(out, "\n  }");
    proof {
        reveal_strlit("  {\n    \"title\": ");
        reveal_strlit(",\n    \"description\": ");
        reveal_strlit(",\n    \"priority\": ");
        reveal_strlit(",\n    \"status\": ");
        reveal_strlit(",\n    \"project\": ");
        reveal_strlit("\n  }");
        assert("  {\n    \"title\": "@ =~= lit_title());
        assert(",\n    \"description\": "@ =~= lit_description());
        assert(",\n    \"priority\": "@ =~= lit_priority());
        assert(",\n    \"status\": "@ =~= lit_status());
        assert(",\n    \"project\": "@ =~= lit_project());
        assert("\n  }"@ =~= lit_obj_close());
        assert(final(out)@ =~= old(out)@ + enc_task(t@));
    }
}

/// Appends every character of `more` to `out`.
fn append_char_vec(out: &mut Vec<char>, more: &Vec<char>)
    ensures
        final(out)@ == old(out)@ + more@,
{
    let n = more.len();
    let mut j: usize = 0;
    while j < n
        invariant
            n == more@.len(),
            0 <= j <= n,
            out@ == old(out)@ + more@.take(j as int),
        decreases n - j,
    {
        out.push(more[j]);
        proof {
            assert(out@ =~= old(out)@ + more@.take(j + 1));
        }
        j = j + 1;
    }
    proof {
        assert(more@.take(n as int) =~= more@);
    }
}

/// Relies on `String::from_iter` over `Vec<char>`: the characters of the
/// string are exactly the characters of the vector, in order.
#[verifier::external_body]
fn chars_to_string(v: &Vec<char>) -> (r: String)
    ensures
        r@ == v@,
{
    v.iter().collect()
}

// ---------------------------------------------------------------------------
// Parsing, as a mathematical function of the stored text. Each function
// consumes a prefix and returns the value it denotes with the remainder.
// ---------------------------------------------------------------------------
/// Consumes the exact chunk `l` from the front of `s`.
pub open spec fn parse_lit(l: Seq<char>, s: Seq<char>) -> Option<Seq<char>> {
    if l.len() <= s.len() && s.take(l.len() as int) == l {
        Some(s.skip(l.len() as int))
    } else {
        None
    }
}

/// Whether `c` is a lower-case hexadecimal digit.
pub open spec fn is_hex(c: char) -> bool {
    is_digit(c) || ('a' as int <= c as int && c as int <= 'f' as int)
}

/// The value of a lower-case hexadecimal digit.
pub open spec fn hex_val(c: char) -> int {
    if is_digit(c) {
        crate::num::digit_val(c)
    } else {
        c as int - 'a' as int + 10
    }
}

/// Prepends a decoded character to the result of parsing the rest of a
/// quoted value.
pub open spec fn cons_char(
    c: char,
    r: Option<(Seq<char>, Seq<char>)>,
) -> Option<(Seq<char>, Seq<char>)> {
    match r {
        Some((body, rest)) => Some((seq![c] + body, rest)),
        None => None,
    }
}

/// Consumes the body of a quoted value up to and including its closing
/// quote, undoing the escapes the encoder writes.
pub open spec fn parse_str_body(s: Seq<char>) -> Option<(Seq<char>, Seq<char>)>
    decreases s.len(),
{
    if s.len() == 0 {
        None
    } else if s[0] == '"' {
        Some((Seq::empty(), s.skip(1)))
    } else if s[0] == '\\' {
        if s.len() >= 2 && s[1] == '"' {
            cons_char('"', parse_str_body(s.skip(2)))
        } else if s.len() >= 2 && s[1] == '\\' {
            cons_char('\\', parse_str_body(s.skip(2)))
        } else if s.len() >= 6 && s[1] == 'u' && s[2] == '0' && s[3] == '0' && is_hex(s[4])
            && is_hex(s[5]) {
            cons_char(
                ((hex_val(s[4]) * 16 + hex_val(s[5])) as u8) as char,
                parse_str_body(s.skip(6)),
            )
        } else {
            None
        }
    } else {
        cons_char(s[0], parse_str_body(s.skip(1)))
    }
}

/// Consumes a quoted value.
pub open spec fn parse_string(s: Seq<char>) -> Option<(Seq<char>, Seq<char>)> {
    if s.len() >= 1 && s[0] == '"' {
        parse_str_body(s.skip(1))
    } else {
        None
    }
}

/// Splits off the longest run of decimal digits at the front of `s`.
pub open spec fn take_digits(s: Seq<char>) -> (Seq<char>, Seq<char>)
    decreases s.len(),
{
    if s.len() > 0 && is_digit(s[0]) {
        let (ds, r) = take_digits(s.skip(1));
        (seq![s[0]] + ds, r)
    } else {
        (Seq::empty(), s)
    }
}

/// Consumes a priority value: one or more digits whose value fits in eight
/// bits.
pub open spec fn parse_u8_tok(s: Seq<char>) -> Option<(u8, Seq<char>)> {
    let (ds, r) = take_digits(s);
    if ds.len() > 0 && digits_val(ds) <= 255 {
        Some((digits_val(ds) as u8, r))
    } else {
        None
    }
}

/// Consumes one record.
pub open spec fn parse_task(s: Seq<char>) -> Option<(TaskView, Seq<char>)> {
    match parse_lit(lit_title(), s) {
        None => None,
        Some(s1) => match parse_string(s1) {
            None => None,
            Some((title, s2)) => match parse_lit(lit_description(), s2) {
                None => None,
                Some(s3) => match parse_string(s3) {
                    None => None,
                    Some((description, s4)) => match parse_lit(lit_priority(), s4) {
                        None => None,
                        Some(s5) => match parse_u8_tok(s5) {
                            None => None,
                            Some((priority, s6)) => match parse_lit(lit_status(), s6) {
                                None => None,
                                Some(s7) => match parse_string(s7) {
                                    None => None,
                                    Some((status, s8)) => match parse_lit(lit_project(), s8) {
                                        None => None,
                                        Some(s9) => match parse_string(s9) {
                                            None => None,
                                            Some((project, s10)) => match parse_lit(
                                                lit_obj_close(),
                                                s10,
                                            ) {
                                                None => None,
                                                Some(s11) => Some(
                                                    (
                                                        TaskView {
                                                            title,
                                                            description,
                                                            priority,
                                                            status,
                                                            project,
                                                        },
                                                        s11,
                                                    ),
                                                ),
                                            },
                                        },
                                    },
                                },
                            },
                        },
                    },
                },
            },
        },
    }
}

/// A parsed record never leaves the input unconsumed.
pub proof fn lemma_parse_task_shrinks(s: Seq<char>)
    ensures
        parse_task(s) matches Some(p) ==> p.1.len() < s.len(),
{
    if parse_task(s) is Some {
        let s1 = parse_lit(lit_title(), s)->Some_0;
        assert(s1.len() < s.len());
        let (title, s2) = parse_string(s1)->Some_0;
        lemma_parse_str_body_shrinks(s1.skip(1));
        assert(s2.len() < s1.len());
        let s3 = parse_lit(lit_description(), s2)->Some_0;
        let (description, s4) = parse_string(s3)->Some_0;
        lemma_parse_str_body_shrinks(s3.skip(1));
        let s5 = parse_lit(lit_priority(), s4)->Some_0;
        let (priority, s6) = parse_u8_tok(s5)->Some_0;
        lemma_take_digits_shrinks(s5);
        let s7 = parse_lit(lit_status(), s6)->Some_0;
        let (status, s8) = parse_string(s7)->Some_0;
        lemma_parse_str_body_shrinks(s7.skip(1));
        let s9 = parse_lit(lit_project(), s8)->Some_0;
        let (project, s10) = parse_string(s9)->Some_0;
        lemma_parse_str_body_shrinks(s9.skip(1));
        let s11 = parse_lit(lit_obj_close(), s10)->Some_0;
        assert(s11.len() < s10.len());
    }
}

/// Parsing the body of a quoted value consumes at least its closing quote.
pub proof fn lemma_parse_str_body_shrinks(s: Seq<char>)
    ensures
        parse_str_body(s) matches Some(p) ==> p.1.len() < s.len(),
    decreases s.len(),
{
    if s.len() == 0 {
    } else if s[0] == '"' {
    } else if s[0] == '\\' {
        if s.len() >= 2 {
            lemma_parse_str_body_shrinks(s.skip(2));
        }
        if s.len() >= 6 {
            lemma_parse_str_body_shrinks(s.skip(6));
        }
    } else {
        lemma_parse_str_body_shrinks(s.skip(1));
    }
}

/// Splitting off digits never grows the remainder.
pub proof fn lemma_take_digits_shrinks(s: Seq<char>)
    ensures
        take_digits(s).1.len() <= s.len(),
    decreases s.len(),
{
    if s.len() > 0 && is_digit(s[0]) {
        lemma_take_digits_shrinks(s.skip(1));
    }
}

/// Consumes every record after the first, then the closing of the array.
pub open spec fn parse_more(s: Seq<char>) -> Option<(Seq<TaskView>, Seq<char>)>
    decreases s.len(),
    via parse_more_dec
{
    if s.len() > 0 && s[0] == '\n' {
        match parse_lit(lit_close(), s) {
            None => None,
            Some(r) => Some((Seq::empty(), r)),
        }
    } else {
        match parse_lit(lit_sep(), s) {
            None => None,
            Some(s1) => match parse_task(s1) {
                None => None,
                Some((tv, s2)) => match parse_more(s2) {
                    None => None,
                    Some((tvs, r)) => Some((seq![tv] + tvs, r)),
                },
            },
        }
    }
}

#[via_fn]
proof fn parse_more_dec(s: Seq<char>) {
    if !(s.len() > 0 && s[0] == '\n') {
        if parse_lit(lit_sep(), s) is Some {
            let s1 = parse_lit(lit_sep(), s)->Some_0;
            lemma_parse_task_shrinks(s1);
        }
    }
}

// ---------------------------------------------------------------------------
// The round trip: parsing undoes encoding.
// ---------------------------------------------------------------------------
/// A chunk at the front of the input is consumed exactly.
proof fn lemma_parse_lit_rt(l: Seq<char>, rest: Seq<char>)
    ensures
        parse_lit(l, l + rest) == Some(rest),
{
    assert((l + rest).take(l.len() as int) =~= l);
    assert((l + rest).skip(l.len() as int) =~= rest);
}

/// A digit run at the front of the input is split off exactly when what
/// follows does not begin with a digit.
proof fn lemma_take_digits_rt(ds: Seq<char>, rest: Seq<char>)
    requires
        all_digits(ds),
        rest.len() == 0 || !is_digit(rest[0]),
    ensures
        take_digits(ds + rest) == (ds, rest),
    decreases ds.len(),
{
    if ds.len() == 0 {
        assert(ds + rest =~= rest);
    } else {
        assert((ds + rest)[0] == ds[0]);
        assert((ds + rest).skip(1) =~= ds.skip(1) + rest);
        assert(all_digits(ds.skip(1)));
        lemma_take_digits_rt(ds.skip(1), rest);
        assert(seq![ds[0]] + ds.skip(1) =~= ds);
    }
}

/// A canonical priority value parses back to the number it encodes.
proof fn lemma_parse_u8_rt(n: u8, rest: Seq<char>)
    requires
        rest.len() == 0 || !is_digit(rest[0]),
    ensures
        parse_u8_tok(dec_digits(n as int) + rest) == Some((n, rest)),
{
    lemma_dec_digits_val(n as int);
    lemma_take_digits_rt(dec_digits(n as int), rest);
}

/// Each of the sixteen hexadecimal digit characters carries its value back.
proof fn lemma_hex_digit_rt(d: int)
    requires
        0 <= d < 16,
    ensures
        is_hex(hex_digit(d)),
        hex_val(hex_digit(d)) == d,
{
}

/// An escaped body followed by its closing quote parses back to the
/// characters it encodes.
proof fn lemma_parse_str_body_rt(s: Seq<char>, rest: Seq<char>)
    ensures
        parse_str_body(enc_str_body(s) + seq!['"'] + rest) == Some((s, rest)),
    decreases s.len(),
{
    if s.len() == 0 {
        let arg = enc_str_body(s) + seq!['"'] + rest;
        assert(arg =~= seq!['"'] + rest);
        assert(arg[0] == '"');
        assert(arg.skip(1) =~= rest);
    } else {
        let c = s[0];
        let tail = enc_str_body(s.skip(1)) + seq!['"'] + rest;
        let arg = enc_str_body(s) + seq!['"'] + rest;
        assert(enc_str_body(s) == enc_char(c) + enc_str_body(s.skip(1)));
        assert(arg =~= enc_char(c) + tail);
        lemma_parse_str_body_rt(s.skip(1), rest);
        if c == '"' {
            assert(arg[0] == '\\' && arg[1] == '"');
            assert(arg.skip(2) =~= tail);
            assert(parse_str_body(arg) == cons_char('"', parse_str_body(tail)));
            assert(seq!['"'] + s.skip(1) =~= s);
        } else if c == '\\' {
            assert(arg[0] == '\\' && arg[1] == '\\');
            assert(arg.skip(2) =~= tail);
            assert(seq!['\\'] + s.skip(1) =~= s);
        } else if 0 <= (c as int) && (c as int) < 32 {
            let hi = (c as int) / 16;
            let lo = (c as int) % 16;
            assert(arg[0] == '\\' && arg[1] == 'u' && arg[2] == '0' && arg[3] == '0');
            assert(arg[4] == hex_digit(hi) && arg[5] == hex_digit(lo));
            assert(0 <= hi < 16 && 0 <= lo < 16) by (nonlinear_arith)
                requires
                    hi == (c as int) / 16,
                    lo == (c as int) % 16,
                    0 <= (c as int) < 32,
            ;
            lemma_hex_digit_rt(hi);
            lemma_hex_digit_rt(lo);
            assert(arg.len() >= 6);
            assert(arg.skip(6) =~= tail);
            assert(hex_val(arg[4]) * 16 + hex_val(arg[5]) == c as int) by {
                assert(hi * 16 + lo == c as int) by (nonlinear_arith)
                    requires
                        hi == (c as int) / 16,
                        lo == (c as int) % 16,
                        0 <= (c as int) < 32,
                ;
            }
            assert(((c as int) as u8) as char == c);
            assert(parse_str_body(arg) == cons_char(c, parse_str_body(tail)));
            assert(seq![c] + s.skip(1) =~= s);
        } else {
            assert(arg[0] == c);
            assert(arg.skip(1) =~= tail);
            assert(parse_str_body(arg) == cons_char(c, parse_str_body(tail)));
            assert(seq![c] + s.skip(1) =~= s);
        }
    }
}

/// A quoted value parses back to the characters it encodes.
proof fn lemma_parse_string_rt(s: Seq<char>, rest: Seq<char>)
    ensures
        parse_string(enc_string(s) + rest) == Some((s, rest)),
{
    let arg = enc_string(s) + rest;
    assert(arg[0] == '"');
    assert(arg.len() >= 1);
    assert(arg.skip(1) =~= enc_str_body(s) + seq!['"'] + rest);
    lemma_parse_str_body_rt(s, rest);
}

/// One encoded record parses back to the record it encodes.
#[verifier::rlimit(100)]
proof fn lemma_parse_task_rt(tv: TaskView, rest: Seq<char>)
    ensures
        parse_task(enc_task(tv) + rest) == Some((tv, rest)),
{
    let t10 = lit_obj_close() + rest;
    let t9 = enc_string(tv.project) + t10;
    let t8 = lit_project() + t9;
    let t7 = enc_string(tv.status) + t8;
    let t6 = lit_status() + t7;
    let t5 = dec_digits(tv.priority as int) + t6;
    let t4 = lit_priority() + t5;
    let t3 = enc_string(tv.description) + t4;
    let t2 = lit_description() + t3;
    let t1 = enc_string(tv.title) + t2;
    assert(enc_task(tv) + rest =~= lit_title() + t1);
    lemma_parse_lit_rt(lit_title(), t1);
    lemma_parse_string_rt(tv.title, t2);
    lemma_parse_lit_rt(lit_description(), t3);
    lemma_parse_string_rt(tv.description, t4);
    lemma_parse_lit_rt(lit_priority(), t5);
    assert(t6[0] == ',');
    assert(!is_digit(','));
    lemma_parse_u8_rt(tv.priority, t6);
    lemma_parse_lit_rt(lit_status(), t7);
    lemma_parse_string_rt(tv.status, t8);
    lemma_parse_lit_rt(lit_project(), t9);
    lemma_parse_string_rt(tv.project, t10);
    lemma_parse_lit_rt(lit_obj_close(), rest);
    assert(parse_task(enc_task(tv) + rest) matches Some(p) && p.0 =~= tv && p.1 == rest);
}

/// The encoded tail of the array, closed off, parses back to the records it
/// encodes with nothing left over.
#[verifier::rlimit(100)]
proof fn lemma_parse_more_rt(ts: Seq<TaskView>)
    ensures
        parse_more(enc_more(ts) + lit_close()) == Some((ts, Seq::<char>::empty())),
    decreases ts.len(),
{
    let arg = enc_more(ts) + lit_close();
    if ts.len() == 0 {
        assert(arg =~= lit_close());
        assert(arg[0] == '\n');
        lemma_parse_lit_rt(lit_close(), Seq::empty());
        assert(lit_close() + Seq::<char>::empty() =~= arg);
    } else {
        let t2 = enc_more(ts.skip(1)) + lit_close();
        let t1 = enc_task(ts[0]) + t2;
        assert(arg =~= lit_sep() + t1);
        assert(arg[0] == ',');
        lemma_parse_lit_rt(lit_sep(), t1);
        lemma_parse_task_rt(ts[0], t2);
        lemma_parse_more_rt(ts.skip(1));
        assert(seq![ts[0]] + ts.skip(1) =~= ts);
    }
}

/// The law of the store: any collection, rendered and read back, is itself.
#[verifier::rlimit(100)]
pub proof fn lemma_store_round_trip(ts: Seq<TaskView>)
    ensures
        parse_tasks(enc_tasks(ts)) == Some(ts),
{
    if ts.len() == 0 {
        assert(enc_tasks(ts) == lit_empty());
    } else {
        let s = enc_tasks(ts);
        let t2 = enc_more(ts.skip(1)) + lit_close();
        let t1 = enc_task(ts[0]) + t2;
        assert(s =~= lit_open() + t1);
        assert(s.len() > 2);
        assert(s != lit_empty()) by {
            assert(lit_empty().len() == 2);
        }
        assert(s.len() != 0);
        lemma_parse_lit_rt(lit_open(), t1);
        lemma_parse_task_rt(ts[0], t2);
        lemma_parse_more_rt(ts.skip(1));
        assert(seq![ts[0]] + ts.skip(1) =~= ts);
    }
}

/// Consumes the whole stored text: nothing at all, the empty array, or a
/// bracketed list of records, with nothing after it.
pub open spec fn parse_tasks(s: Seq<char>) -> Option<Seq<TaskView>> {
    if s.len() == 0 {
        Some(Seq::empty())
    } else if s == lit_empty() {
        Some(Seq::empty())
    } else {
        match parse_lit(lit_open(), s) {
            None => None,
            Some(s1) => match parse_task(s1) {
                None => None,
                Some((tv, s2)) => match parse_more(s2) {
                    None => None,
                    Some((tvs, r)) => if r.len() == 0 {
                        Some(seq![tv] + tvs)
                    } else {
                        None
                    },
                },
            },
        }
    }
}

// ---------------------------------------------------------------------------
// The decoder.
// ---------------------------------------------------------------------------
/// The characters of `s`, one by one.
fn to_char_vec(s: &str) -> (r: Vec<char>)
    ensures
        r@ == s@,
{
    let n = s.unicode_len();
    let mut v: Vec<char> = Vec::new();
    let mut j: usize = 0;
    while j < n
        invariant
            n == s@.len(),
            0 <= j <= n,
            v@ == s@.take(j as int),
        decreases n - j,
    {
        v.push(s.get_char(j));
        proof {
            assert(v@ =~= s@.take(j + 1));
        }
        j = j + 1;
    }
    proof {
        assert(s@.take(n as int) =~= s@);
    }
    v
}

/// Consumes the chunk `l` at position `pos`, if it is there.
fn d_lit(v: &Vec<char>, pos: usize, l: &str) -> (r: Option<usize>)
    requires
        pos <= v@.len(),
    ensures
        match r {
            Some(p2) => pos <= p2 <= v@.len() && parse_lit(l@, v@.skip(pos as int)) == Some(
                v@.skip(p2 as int),
            ),
            None => parse_lit(l@, v@.skip(pos as int)) is None,
        },
{
    let ghost s = v@.skip(pos as int);
    let n = l.unicode_len();
    let vn = v.len();
    if n > vn - pos {
        return None;
    }
    let mut j: usize = 0;
    while j < n
        invariant
            n == l@.len(),
            vn == v@.len(),
            pos + n <= vn,
            s == v@.skip(pos as int),
            0 <= j <= n,
            forall|k: int| 0 <= k < j ==> s[k] == l@[k],
        decreases n - j,
    {
        proof {
            assert(s[j as int] == v@[pos + j]);
        }
        if v[pos + j] != l.get_char(j) {
            proof {
                assert(s.take(n as int)[j as int] == s[j as int]);
                assert(s.take(n as int) != l@);
            }
            return None;
        }
        j = j + 1;
    }
    proof {
        assert(s.take(n as int) =~= l@);
        assert(s.skip(n as int) =~= v@.skip(pos + n));
    }
    Some(pos + n)
}

/// Prepends already-decoded characters to the outcome of parsing the rest
/// of a quoted value.
pub open spec fn cons_pre(
    pre: Seq<char>,
    r: Option<(Seq<char>, Seq<char>)>,
) -> Option<(Seq<char>, Seq<char>)> {
    match r {
        Some((body, rest)) => Some((pre + body, rest)),
        None => None,
    }
}

/// The value of a lower-case hexadecimal digit character, if it is one.
fn hex_of(c: char) -> (r: Option<u8>)
    ensures
        match r {
            Some(h) => is_hex(c) && h as int == hex_val(c) && h < 16,
            None => !is_hex(c),
        },
{
    let u = c as u32;
    if u >= 48 && u <= 57 {
        Some((u - 48) as u8)
    } else if u >= 97 && u <= 102 {
        Some((u - 97 + 10) as u8)
    } else {
        None
    }
}

/// Consumes a quoted value at position `pos`, undoing the escapes.
fn d_string(v: &Vec<char>, pos: usize) -> (r: Option<(String, usize)>)
    requires
        pos <= v@.len(),
    ensures
        match r {
            Some(p) => pos < p.1 <= v@.len() && parse_string(v@.skip(pos as int)) == Some(
                (p.0@, v@.skip(p.1 as int)),
            ),
            None => parse_string(v@.skip(pos as int)) is None,
        },
{
    let n = v.len();
    if pos >= n || v[pos] != '"' {
        proof {
            if pos < n {
                assert(v@.skip(pos as int)[0] == v@[pos as int]);
            }
        }
        return None;
    }
    proof {
        assert(v@.skip(pos as int)[0] == '"');
        assert(v@.skip(pos as int).skip(1) =~= v@.skip(pos + 1));
    }
    let ghost start = pos + 1;
    let mut cur: usize = pos + 1;
    let mut acc: Vec<char> = Vec::new();
    loop
        invariant
            n == v@.len(),
            pos + 1 <= cur <= n,
            start == pos + 1,
            parse_str_body(v@.skip(start)) == cons_pre(acc@, parse_str_body(v@.skip(cur as int))),
            parse_string(v@.skip(pos as int)) == parse_str_body(v@.skip(start)),
        decreases n - cur,
    {
        let ghost s = v@.skip(cur as int);
        if cur >= n {
            proof {
                assert(s.len() == 0);
                assert(parse_str_body(s) is None);
            }
            return None;
        }
        proof {
            assert(s[0] == v@[cur as int]);
            assert(s.len() == n - cur);
        }
        let c = v[cur];
        if c == '"' {
            proof {
                assert(parse_str_body(s) == Some((Seq::<char>::empty(), s.skip(1))));
                assert(s.skip(1) =~= v@.skip(cur + 1));
                assert(acc@ + Seq::<char>::empty() =~= acc@);
            }
            let out = chars_to_string(&acc);
            return Some((out, cur + 1));
        } else if c == '\\' {
            if cur + 1 >= n {
                proof {
                    assert(parse_str_body(s) is None);
                }
                return None;
            }
            proof {
                assert(s[1] == v@[cur + 1]);
            }
            let e = v[cur + 1];
            if e == '"' || e == '\\' {
                proof {
                    assert(s.skip(2) =~= v@.skip(cur + 2));
                    assert(parse_str_body(s) == cons_char(s[1], parse_str_body(v@.skip(cur + 2))));
                    assert(cons_pre(acc@, cons_char(s[1], parse_str_body(v@.skip(cur + 2))))
                        == cons_pre(acc@.push(s[1]), parse_str_body(v@.skip(cur + 2)))) by {
                        let rr = parse_str_body(v@.skip(cur + 2));
                        if rr is Some {
                            let (b, rest) = rr->Some_0;
                            assert(acc@ + (seq![s[1]] + b) =~= acc@.push(s[1]) + b);
                        }
                    }
                }
                acc.push(e);
                cur = cur + 2;
            } else if e == 'u' {
                if n - cur < 6 {
                    proof {
                        assert(s.len() < 6);
                        assert(parse_str_body(s) is None);
                    }
                    return None;
                }
                proof {
                    assert(s[2] == v@[cur + 2]);
                    assert(s[3] == v@[cur + 3]);
                    assert(s[4] == v@[cur + 4]);
                    assert(s[5] == v@[cur + 5]);
                }
                if v[cur + 2] != '0' || v[cur + 3] != '0' {
                    proof {
                        assert(parse_str_body(s) is None);
                    }
                    return None;
                }
                let h1 = match hex_of(v[cur + 4]) {
                    Some(h) => h,
                    None => {
                        proof {
                            assert(parse_str_body(s) is None);
                        }
                        return None;
                    },
                };
                let h2 = match hex_of(v[cur + 5]) {
                    Some(h) => h,
                    None => {
                        proof {
                            assert(parse_str_body(s) is None);
                        }
                        return None;
                    },
                };
                let d: u8 = h1 * 16 + h2;
                let dc: char = d as char;
                proof {
                    assert(d as int == hex_val(s[4]) * 16 + hex_val(s[5]));
                    assert(dc == ((hex_val(s[4]) * 16 + hex_val(s[5])) as u8) as char);
                    assert(s.skip(6) =~= v@.skip(cur + 6));
                    assert(parse_str_body(s) == cons_char(dc, parse_str_body(v@.skip(cur + 6))));
                    assert(cons_pre(acc@, cons_char(dc, parse_str_body(v@.skip(cur + 6))))
                        == cons_pre(acc@.push(dc), parse_str_body(v@.skip(cur + 6)))) by {
                        let rr = parse_str_body(v@.skip(cur + 6));
                        if rr is Some {
                            let (b, rest) = rr->Some_0;
                            assert(acc@ + (seq![dc] + b) =~= acc@.push(dc) + b);
                        }
                    }
                }
                acc.push(dc);
                cur = cur + 6;
            } else {
                proof {
                    assert(parse_str_body(s) is None);
                }
                return None;
            }
        } else {
            proof {
                assert(s.skip(1) =~= v@.skip(cur + 1));
                assert(parse_str_body(s) == cons_char(s[0], parse_str_body(v@.skip(cur + 1))));
                assert(cons_pre(acc@, cons_char(s[0], parse_str_body(v@.skip(cur + 1))))
                    == cons_pre(acc@.push(s[0]), parse_str_body(v@.skip(cur + 1)))) by {
                    let rr = parse_str_body(v@.skip(cur + 1));
                    if rr is Some {
                        let (b, rest) = rr->Some_0;
                        assert(acc@ + (seq![s[0]] + b) =~= acc@.push(s[0]) + b);
                    }
                }
            }
            acc.push(c);
            cur = cur + 1;
        }
    }
}

/// Whether `c` is a decimal digit.
fn digit_exec(c: char) -> (r: bool)
    ensures
        r == is_digit(c),
{
    let u = c as u32;
    u >= 48 && u <= 57
}

/// Consumes a priority value at position `pos`.
fn d_u8(v: &Vec<char>, pos: usize) -> (r: Option<(u8, usize)>)
    requires
        pos <= v@.len(),
    ensures
        match r {
            Some(p) => pos < p.1 <= v@.len() && parse_u8_tok(v@.skip(pos as int)) == Some(
                (p.0, v@.skip(p.1 as int)),
            ),
            None => parse_u8_tok(v@.skip(pos as int)) is None,
        },
{
    let n = v.len();
    let mut cur: usize = pos;
    while cur < n && digit_exec(v[cur])
        invariant
            n == v@.len(),
            pos <= cur <= n,
            forall|k: int| pos <= k < cur ==> is_digit(#[trigger] v@[k]),
        decreases n - cur,
    {
        cur = cur + 1;
    }
    let ghost ds = v@.subrange(pos as int, cur as int);
    proof {
        assert(all_digits(ds));
        assert(cur == n || !is_digit(v@[cur as int]));
        assert(v@.skip(pos as int) =~= ds + v@.skip(cur as int));
        if cur < n {
            assert(v@.skip(cur as int)[0] == v@[cur as int]);
        }
        lemma_take_digits_rt(ds, v@.skip(cur as int));
    }
    if cur == pos {
        return None;
    }
    let mut acc: u32 = 0;
    let mut j: usize = pos;
    while j < cur
        invariant
            n == v@.len(),
            pos < cur,
            pos <= j <= cur <= n,
            ds == v@.subrange(pos as int, cur as int),
            all_digits(ds),
            take_digits(v@.skip(pos as int)) == (ds, v@.skip(cur as int)),
            acc <= 255,
            acc == digits_val(ds.take(j - pos)),
        decreases cur - j,
    {
        proof {
            assert(ds[j - pos] == v@[j as int]);
            assert(ds.take(j - pos + 1).drop_last() =~= ds.take(j - pos));
            assert(ds.take(j - pos + 1).last() == ds[j - pos]);
        }
        let u = v[j] as u32;
        let next: u32 = acc * 10 + (u - 48);
        if next > 255 {
            proof {
                assert(digits_val(ds.take(j - pos + 1)) > 255);
                crate::num::lemma_digits_val_prefix(ds, j - pos + 1);
                assert(digits_val(ds) > 255);
            }
            return None;
        }
        acc = next;
        j = j + 1;
    }
    proof {
        assert(ds.take(cur - pos) =~= ds);
        assert(ds.len() > 0);
    }
    Some((acc as u8, cur))
}

/// Consumes one record at position `pos`.
fn d_task(v: &Vec<char>, pos: usize) -> (r: Option<(Task, usize)>)
    requires
        pos <= v@.len(),
    ensures
        match r {
            Some(p) => pos <= p.1 <= v@.len() && parse_task(v@.skip(pos as int)) == Some(
                (p.0@, v@.skip(p.1 as int)),
            ),
            None => parse_task(v@.skip(pos as int)) is None,
        },
{
    proof {
        reveal_strlit("  {\n    \"title\": ");
        reveal_strlit(",\n    \"description\": ");
        reveal_strlit(",\n    \"priority\": ");
        reveal_strlit(",\n    \"status\": ");
        reveal_strlit(",\n    \"project\": ");
        reveal_strlit("\n  }");
        assert("  {\n    \"title\": "@ =~= lit_title());
        assert(",\n    \"description\": "@ =~= lit_description());
        assert(",\n    \"priority\": "@ =~= lit_priority());
        assert(",\n    \"status\": "@ =~= lit_status());
        assert(",\n    \"project\": "@ =~= lit_project());
        assert("\n  }"@ =~= lit_obj_close());
    }
    let p1 = match d_lit(v, pos, "  {\n    \"title\": ") {
        Some(p) => p,
        None => {
            return None;
        },
    };
    let (title, p2) = match d_string(v, p1) {
        Some(p) => p,
        None => {
            return None;
        },
    };
    let p3 = match d_lit(v, p2, ",\n    \"description\": ") {
        Some(p) => p,
        None => {
            return None;
        },
    };
    let (description, p4) = match d_string(v, p3) {
        Some(p) => p,
        None => {
            return None;
        },
    };
    let p5 = match d_lit(v, p4, ",\n    \"priority\": ") {
        Some(p) => p,
        None => {
            return None;
        },
    };
    let (priority, p6) = match d_u8(v, p5) {
        Some(p) => p,
        None => {
            return None;
        },
    };
    let p7 = match d_lit(v, p6, ",\n    \"status\": ") {
        Some(p) => p,
        None => {
            return None;
        },
    };
    let (status, p8) = match d_string(v, p7) {
        Some(p) => p,
        None => {
            return None;
        },
    };
    let p9 = match d_lit(v, p8, ",\n    \"project\": ") {
        Some(p) => p,
        None => {
            return None;
        },
    };
    let (project, p10) = match d_string(v, p9) {
        Some(p) => p,
        None => {
            return None;
        },
    };
    let p11 = match d_lit(v, p10, "\n  }") {
        Some(p) => p,
        None => {
            return None;
        },
    };
    let t = Task { title, description, priority, status, project };
    proof {
        let parsed = parse_task(v@.skip(pos as int))->Some_0;
        assert(parsed.0 =~= t@);
    }
    Some((t, p11))
}

/// Prepends already-decoded records to the outcome of parsing the rest of
/// the array.
pub open spec fn cons_records(
    pre: Seq<TaskView>,
    r: Option<(Seq<TaskView>, Seq<char>)>,
) -> Option<(Seq<TaskView>, Seq<char>)> {
    match r {
        Some((tvs, rest)) => Some((pre + tvs, rest)),
        None => None,
    }
}

/// Reads a whole collection back from the stored text. Empty content means
/// an empty collection; any other content must be exactly the stored form
/// of some collection, else the result is `DecodeError`.
#[verifier::rlimit(100)]
pub fn load_tasks(contents: &str) -> (r: Result<Vec<Task>, StoreError>)
    ensures
        match r {
            Ok(out) => parse_tasks(contents@) == Some(views(out@)),
            Err(e) => e == StoreError::DecodeError && parse_tasks(contents@) is None,
        },
{
    let v = to_char_vec(contents);
    let n = v.len();
    if n == 0 {
        let out: Vec<Task> = Vec::new();
        proof {
            assert(views(out@) =~= Seq::<TaskView>::empty());
        }
        return Ok(out);
    }
    if n == 2 && v[0] == '[' && v[1] == ']' {
        let out: Vec<Task> = Vec::new();
        proof {
            assert(contents@ =~= lit_empty());
            assert(views(out@) =~= Seq::<TaskView>::empty());
        }
        return Ok(out);
    }
    proof {
        assert(contents@ != lit_empty()) by {
            if contents@ == lit_empty() {
                assert(v@.len() == 2);
                assert(v@[0] == '[' && v@[1] == ']');
            }
        }
        reveal_strlit("[\n");
        reveal_strlit(",\n");
        reveal_strlit("\n]");
        assert("[\n"@ =~= lit_open());
        assert(",\n"@ =~= lit_sep());
        assert("\n]"@ =~= lit_close());
        assert(v@.skip(0) =~= v@);
    }
    let p1 = match d_lit(&v, 0, "[\n") {
        Some(p) => p,
        None => {
            return Err(StoreError::DecodeError);
        },
    };
    let (first, p2) = match d_task(&v, p1) {
        Some(p) => p,
        None => {
            return Err(StoreError::DecodeError);
        },
    };
    let mut out: Vec<Task> = Vec::new();
    out.push(first);
    proof {
        assert(views(out@)[0] == first@);
        assert(views(out@).skip(1) =~= Seq::<TaskView>::empty());
        assert(parse_more(v@.skip(p2 as int)) == cons_records(
            views(out@).skip(1),
            parse_more(v@.skip(p2 as int)),
        )) by {
            let rr = parse_more(v@.skip(p2 as int));
            if rr is Some {
                let (tvs, rest) = rr->Some_0;
                assert(views(out@).skip(1) + tvs =~= tvs);
            }
        }
    }
    let mut cur: usize = p2;
    loop
        invariant
            n == v@.len(),
            contents@ == v@,
            contents@.len() != 0,
            contents@ != lit_empty(),
            parse_lit(lit_open(), v@) == Some(v@.skip(p1 as int)),
            parse_task(v@.skip(p1 as int)) == Some((views(out@)[0], v@.skip(p2 as int))),
            out@.len() >= 1,
            p2 <= n,
            p2 <= cur <= n,
            parse_more(v@.skip(p2 as int)) == cons_records(
                views(out@).skip(1),
                parse_more(v@.skip(cur as int)),
            ),
        decreases n - cur,
    {
        let ghost s = v@.skip(cur as int);
        proof {
            reveal_strlit("\n]");
            reveal_strlit(",\n");
            assert("\n]"@ =~= lit_close());
            assert(",\n"@ =~= lit_sep());
            if cur < n {
                assert(s[0] == v@[cur as int]);
            }
            assert(s.len() == n - cur);
        }
        if cur < n && v[cur] == '\n' {
            match d_lit(&v, cur, "\n]") {
                Some(p) => {
                    if p == n {
                        proof {
                            assert(v@.skip(p as int) =~= Seq::<char>::empty());
                            assert(parse_more(s) == Some(
                                (Seq::<TaskView>::empty(), Seq::<char>::empty()),
                            ));
                            assert(views(out@).skip(1) + Seq::<TaskView>::empty() =~= views(
                                out@,
                            ).skip(1));
                            assert(seq![views(out@)[0]] + views(out@).skip(1) =~= views(out@));
                            assert(parse_tasks(contents@) == Some(views(out@)));
                        }
                        return Ok(out);
                    } else {
                        proof {
                            assert(v@.skip(p as int).len() != 0);
                            assert(parse_more(s) == Some(
                                (Seq::<TaskView>::empty(), v@.skip(p as int)),
                            ));
                            assert(parse_tasks(contents@) is None);
                        }
                        return Err(StoreError::DecodeError);
                    }
                },
                None => {
                    proof {
                        assert(parse_more(s) is None);
                        assert(parse_tasks(contents@) is None);
                    }
                    return Err(StoreError::DecodeError);
                },
            }
        }
        proof {
            if cur == n {
                assert(s.len() == 0);
                assert(parse_lit(lit_sep(), s) is None);
                assert(parse_more(s) is None);
            }
        }
        if cur >= n {
            proof {
                assert(parse_tasks(contents@) is None);
            }
            return Err(StoreError::DecodeError);
        }
        let p3 = match d_lit(&v, cur, ",\n") {
            Some(p) => p,
            None => {
                proof {
                    assert(parse_more(s) is None);
                    assert(parse_tasks(contents@) is None);
                }
                return Err(StoreError::DecodeError);
            },
        };
        let (t, p4) = match d_task(&v, p3) {
            Some(p) => p,
            None => {
                proof {
                    assert(parse_more(s) is None);
                    assert(parse_tasks(contents@) is None);
                }
                return Err(StoreError::DecodeError);
            },
        };
        let ghost prev = out@;
        out.push(t);
        proof {
            assert(parse_more(s) == cons_records(
                seq![t@],
                parse_more(v@.skip(p4 as int)),
            ));
            assert(views(out@)[0] == views(prev)[0]);
            assert(views(out@).skip(1) =~= views(prev).skip(1).push(t@));
            assert(cons_records(views(prev).skip(1), parse_more(s)) == cons_records(
                views(out@).skip(1),
                parse_more(v@.skip(p4 as int)),
            )) by {
                let rr = parse_more(v@.skip(p4 as int));
                if rr is Some {
                    let (tvs, rest) = rr->Some_0;
                    assert(views(prev).skip(1) + (seq![t@] + tvs) =~= views(prev).skip(1).push(
                        t@,
                    ) + tvs);
                }
            }
        }
        cur = p4;
    }
}

} // verus!
