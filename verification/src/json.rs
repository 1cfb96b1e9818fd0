//! The persisted form of the store: one JSON object under the key `words`,
//! mapping headwords to objects that map language names to translations.
//!
//! The encoder and the parser are both written against the spec functions
//! here, and parsing an encoded store gives the store back exactly.

use vstd::prelude::*;
use vstd::string::StrSliceExecFns;
use vstd::string::StringExecFns;
use crate::assoc::{map_of, lemma_map_of_cons, lemma_map_of_dom};
use crate::store::{Translations, VocabularyManager};
use crate::text::str_eq;

verus! {

/// Relies on String::push: appends the given character to the end.
pub assume_specification[ String::push ](s: &mut String, ch: char)
    ensures
        final(s)@ == old(s)@.push(ch),
;

/// Whether `c` is a hexadecimal digit, in either case.
pub open spec fn is_hex(c: char) -> bool {
    (48 <= c as u32 && c as u32 <= 57) || (97 <= c as u32 && c as u32 <= 102) || (65 <= c as u32
        && c as u32 <= 70)
}

/// The value of a hexadecimal digit.
pub open spec fn hex_val(c: char) -> int {
    if 48 <= c as u32 && c as u32 <= 57 {
        c as u32 - 48
    } else if 97 <= c as u32 && c as u32 <= 102 {
        c as u32 - 87
    } else {
        c as u32 - 55
    }
}

/// The lowercase hexadecimal digit for a value below sixteen.
pub open spec fn hex_digit(n: int) -> char {
    if n == 0 {
        '0'
    } else if n == 1 {
        '1'
    } else if n == 2 {
        '2'
    } else if n == 3 {
        '3'
    } else if n == 4 {
        '4'
    } else if n == 5 {
        '5'
    } else if n == 6 {
        '6'
    } else if n == 7 {
        '7'
    } else if n == 8 {
        '8'
    } else if n == 9 {
        '9'
    } else if n == 10 {
        'a'
    } else if n == 11 {
        'b'
    } else if n == 12 {
        'c'
    } else if n == 13 {
        'd'
    } else if n == 14 {
        'e'
    } else {
        'f'
    }
}

/// Two characters with the same scalar value are the same character.
proof fn lemma_char_code(c: char, d: char)
    requires
        c as u32 == d as u32,
    ensures
        c == d,
{
    vstd::utf8::char_u32_cast(c, c as u32);
    vstd::utf8::char_u32_cast(d, d as u32);
}

/// The digits written for a value below sixteen read back as that value.
proof fn lemma_hex_digit(n: int)
    requires
        0 <= n < 16,
    ensures
        is_hex(hex_digit(n)),
        hex_val(hex_digit(n)) == n,
{
}

/// The character a two-character escape stands for, when the character after
/// the backslash has one.
pub open spec fn short_escape(e: char) -> Option<char> {
    if e == '"' || e == '\\' || e == '/' {
        Some(e)
    } else if e == 'b' {
        Some('\u{8}')
    } else if e == 't' {
        Some('\t')
    } else if e == 'n' {
        Some('\n')
    } else if e == 'f' {
        Some('\u{c}')
    } else if e == 'r' {
        Some('\r')
    } else {
        None
    }
}

/// How one character is written inside a quoted string: quotes and
/// backslashes get a backslash, the control characters with two-character
/// escapes get them, the other control characters are written `\u00` and two
/// hexadecimal digits, and all else stands as it is.
pub open spec fn esc_char(c: char) -> Seq<char> {
    if c == '"' || c == '\\' {
        seq!['\\', c]
    } else if c as u32 == 8 {
        seq!['\\', 'b']
    } else if c as u32 == 9 {
        seq!['\\', 't']
    } else if c as u32 == 10 {
        seq!['\\', 'n']
    } else if c as u32 == 12 {
        seq!['\\', 'f']
    } else if c as u32 == 13 {
        seq!['\\', 'r']
    } else if (c as u32) < 32 {
        seq!['\\', 'u', '0', '0', hex_digit(((c as u32) as int) / 16), hex_digit(
            ((c as u32) as int) % 16,
        )]
    } else {
        seq![c]
    }
}

/// The written form of a string's characters.
pub open spec fn esc(s: Seq<char>) -> Seq<char>
    decreases s.len(),
{
    if s.len() == 0 {
        Seq::empty()
    } else {
        esc(s.drop_last()) + esc_char(s.last())
    }
}

/// A quoted string.
pub open spec fn enc_str(s: Seq<char>) -> Seq<char> {
    seq!['"'] + esc(s) + seq!['"']
}

/// Comma-joined items.
pub open spec fn join_comma(items: Seq<Seq<char>>) -> Seq<char>
    decreases items.len(),
{
    if items.len() == 0 {
        Seq::empty()
    } else if items.len() == 1 {
        items[0]
    } else {
        join_comma(items.drop_last()) + seq![','] + items.last()
    }
}

/// A `"language":"translation"` member.
pub open spec fn enc_pair(p: (Seq<char>, Seq<char>)) -> Seq<char> {
    enc_str(p.0) + seq![':'] + enc_str(p.1)
}

/// One headword's translation object.
pub open spec fn enc_obj(ps: Seq<(Seq<char>, Seq<char>)>) -> Seq<char> {
    seq!['{'] + join_comma(ps.map_values(|p: (Seq<char>, Seq<char>)| enc_pair(p))) + seq!['}']
}

/// A `"headword":{...}` member.
pub open spec fn enc_entry(e: (Seq<char>, Seq<(Seq<char>, Seq<char>)>)) -> Seq<char> {
    enc_str(e.0) + seq![':'] + enc_obj(e.1)
}

/// The whole persisted document.
pub open spec fn doc_of(t: Seq<(Seq<char>, Seq<(Seq<char>, Seq<char>)>)>) -> Seq<char> {
    seq!['{'] + enc_str("words"@) + seq![':'] + seq!['{'] + join_comma(
        t.map_values(|e: (Seq<char>, Seq<(Seq<char>, Seq<char>)>)| enc_entry(e)),
    ) + seq!['}'] + seq!['}']
}

/// Reads a quoted string's characters after its opening quote; yields the
/// characters read and the position after the closing quote. The
/// two-character escapes and the `\u00` form with two hexadecimal digits are
/// accepted; a raw control character, or a `\u` escape beyond that
/// two-digit range, is refused.
pub open spec fn ps_str_body(t: Seq<char>, i: int) -> Option<(Seq<char>, int)>
    decreases t.len() - i,
    when 0 <= i <= t.len()
{
    if i >= t.len() {
        None
    } else if t[i] == '"' {
        Some((Seq::empty(), i + 1))
    } else if t[i] == '\\' {
        if i + 1 >= t.len() {
            None
        } else {
            match short_escape(t[i + 1]) {
                Some(c) => match ps_str_body(t, i + 2) {
                    Some((v, j)) => Some((seq![c] + v, j)),
                    None => None,
                },
                None => if t[i + 1] == 'u' {
                    if i + 6 <= t.len() && t[i + 2] == '0' && t[i + 3] == '0' && is_hex(t[i + 4])
                        && is_hex(t[i + 5]) {
                        match ps_str_body(t, i + 6) {
                            Some((v, j)) => Some(
                                (
                                    seq![(((hex_val(t[i + 4]) * 16 + hex_val(t[i + 5])) as u8) as char)]
                                        + v,
                                    j,
                                ),
                            ),
                            None => None,
                        }
                    } else {
                        None
                    }
                } else {
                    None
                },
            }
        }
    } else if (t[i] as u32) < 32 {
        None
    } else {
        match ps_str_body(t, i + 1) {
            Some((v, j)) => Some((seq![t[i]] + v, j)),
            None => None,
        }
    }
}

/// Reads a quoted string at `i`.
pub open spec fn ps_string(t: Seq<char>, i: int) -> Option<(Seq<char>, int)> {
    if 0 <= i < t.len() && t[i] == '"' {
        ps_str_body(t, i + 1)
    } else {
        None
    }
}

/// Reads a `"key":"value"` member at `i`.
pub open spec fn ps_pair(t: Seq<char>, i: int) -> Option<((Seq<char>, Seq<char>), int)> {
    match ps_string(t, i) {
        Some((k, j)) => if j < t.len() && t[j] == ':' {
            match ps_string(t, j + 1) {
                Some((v, j2)) => Some(((k, v), j2)),
                None => None,
            }
        } else {
            None
        },
        None => None,
    }
}

/// A successful string read moves right and stays in bounds.
pub proof fn lemma_ps_str_body_advances(t: Seq<char>, i: int)
    requires
        0 <= i <= t.len(),
    ensures
        ps_str_body(t, i) matches Some((v, j)) ==> i < j <= t.len(),
    decreases t.len() - i,
{
    if i < t.len() {
        if t[i] == '\\' {
            if i + 1 < t.len() {
                if short_escape(t[i + 1]) is Some {
                    lemma_ps_str_body_advances(t, i + 2);
                } else if t[i + 1] == 'u' && i + 6 <= t.len() {
                    lemma_ps_str_body_advances(t, i + 6);
                }
            }
        } else if t[i] != '"' && (t[i] as u32) >= 32 {
            lemma_ps_str_body_advances(t, i + 1);
        }
    }
}

/// A successful quoted-string read moves right and stays in bounds.
pub proof fn lemma_ps_string_advances(t: Seq<char>, i: int)
    ensures
        ps_string(t, i) matches Some((v, j)) ==> i < j <= t.len(),
{
    if 0 <= i < t.len() && t[i] == '"' {
        lemma_ps_str_body_advances(t, i + 1);
    }
}

/// A successful member read moves right and stays in bounds.
pub proof fn lemma_ps_pair_advances(t: Seq<char>, i: int)
    ensures
        ps_pair(t, i) matches Some((p, j)) ==> i < j <= t.len(),
{
    lemma_ps_string_advances(t, i);
    match ps_string(t, i) {
        Some((k, j1)) => lemma_ps_string_advances(t, j1 + 1),
        None => (),
    }
}

/// Reads a comma-separated run of members at `i`, stopping before the first
/// character after a member that is not a comma.
pub open spec fn ps_pairs(t: Seq<char>, i: int) -> Option<(Seq<(Seq<char>, Seq<char>)>, int)>
    decreases t.len() - i,
    when 0 <= i <= t.len()
    via ps_pairs_dec
{
    match ps_pair(t, i) {
        Some((p, j)) => if j < t.len() && t[j] == ',' {
            match ps_pairs(t, j + 1) {
                Some((rest, j2)) => Some((seq![p] + rest, j2)),
                None => None,
            }
        } else {
            Some((seq![p], j))
        },
        None => None,
    }
}

#[via_fn]
proof fn ps_pairs_dec(t: Seq<char>, i: int) {
    lemma_ps_pair_advances(t, i);
}

/// Reads a translation object at `i`.
pub open spec fn ps_obj(t: Seq<char>, i: int) -> Option<(Seq<(Seq<char>, Seq<char>)>, int)> {
    if 0 <= i < t.len() && t[i] == '{' {
        if i + 1 < t.len() && t[i + 1] == '}' {
            Some((Seq::empty(), i + 2))
        } else {
            match ps_pairs(t, i + 1) {
                Some((ps, j)) => if j < t.len() && t[j] == '}' {
                    Some((ps, j + 1))
                } else {
                    None
                },
                None => None,
            }
        }
    } else {
        None
    }
}

/// A successful run of members moves right and stays in bounds.
pub proof fn lemma_ps_pairs_advances(t: Seq<char>, i: int)
    requires
        0 <= i <= t.len(),
    ensures
        ps_pairs(t, i) matches Some((ps, j)) ==> i < j <= t.len(),
    decreases t.len() - i,
{
    lemma_ps_pair_advances(t, i);
    match ps_pair(t, i) {
        Some((p, j)) => {
            if j < t.len() && t[j] == ',' {
                lemma_ps_pairs_advances(t, j + 1);
            }
        },
        None => (),
    }
}

/// A successful object read moves right and stays in bounds.
pub proof fn lemma_ps_obj_advances(t: Seq<char>, i: int)
    ensures
        ps_obj(t, i) matches Some((ps, j)) ==> i < j <= t.len(),
{
    if 0 <= i < t.len() && t[i] == '{' {
        lemma_ps_pairs_advances(t, i + 1);
    }
}

/// Reads a `"headword":{...}` member at `i`.
pub open spec fn ps_entry(t: Seq<char>, i: int) -> Option<
    ((Seq<char>, Seq<(Seq<char>, Seq<char>)>), int),
> {
    match ps_string(t, i) {
        Some((k, j)) => if j < t.len() && t[j] == ':' {
            match ps_obj(t, j + 1) {
                Some((ps, j2)) => Some(((k, ps), j2)),
                None => None,
            }
        } else {
            None
        },
        None => None,
    }
}

/// A successful entry read moves right and stays in bounds.
pub proof fn lemma_ps_entry_advances(t: Seq<char>, i: int)
    ensures
        ps_entry(t, i) matches Some((e, j)) ==> i < j <= t.len(),
{
    lemma_ps_string_advances(t, i);
    match ps_string(t, i) {
        Some((k, j1)) => lemma_ps_obj_advances(t, j1 + 1),
        None => (),
    }
}

/// Reads a comma-separated run of entries at `i`.
pub open spec fn ps_entries(t: Seq<char>, i: int) -> Option<
    (Seq<(Seq<char>, Seq<(Seq<char>, Seq<char>)>)>, int),
>
    decreases t.len() - i,
    when 0 <= i <= t.len()
    via ps_entries_dec
{
    match ps_entry(t, i) {
        Some((e, j)) => if j < t.len() && t[j] == ',' {
            match ps_entries(t, j + 1) {
                Some((rest, j2)) => Some((seq![e] + rest, j2)),
                None => None,
            }
        } else {
            Some((seq![e], j))
        },
        None => None,
    }
}

#[via_fn]
proof fn ps_entries_dec(t: Seq<char>, i: int) {
    lemma_ps_entry_advances(t, i);
}

/// A successful run of entries moves right and stays in bounds.
pub proof fn lemma_ps_entries_advances(t: Seq<char>, i: int)
    requires
        0 <= i <= t.len(),
    ensures
        ps_entries(t, i) matches Some((es, j)) ==> i < j <= t.len(),
    decreases t.len() - i,
{
    lemma_ps_entry_advances(t, i);
    match ps_entry(t, i) {
        Some((e, j)) => {
            if j < t.len() && t[j] == ',' {
                lemma_ps_entries_advances(t, j + 1);
            }
        },
        None => (),
    }
}

/// Reads the object holding all entries at `i`.
pub open spec fn ps_words_obj(t: Seq<char>, i: int) -> Option<
    (Seq<(Seq<char>, Seq<(Seq<char>, Seq<char>)>)>, int),
> {
    if 0 <= i < t.len() && t[i] == '{' {
        if i + 1 < t.len() && t[i + 1] == '}' {
            Some((Seq::empty(), i + 2))
        } else {
            match ps_entries(t, i + 1) {
                Some((es, j)) => if j < t.len() && t[j] == '}' {
                    Some((es, j + 1))
                } else {
                    None
                },
                None => None,
            }
        }
    } else {
        None
    }
}

/// Reads a whole persisted document, demanding that nothing follows it.
pub open spec fn ps_doc(t: Seq<char>) -> Option<
    Seq<(Seq<char>, Seq<(Seq<char>, Seq<char>)>)>,
> {
    if t.len() > 0 && t[0] == '{' {
        match ps_string(t, 1) {
            Some((k, j)) => if k == "words"@ && j < t.len() && t[j] == ':' {
                match ps_words_obj(t, j + 1) {
                    Some((es, j2)) => if j2 < t.len() && t[j2] == '}' && j2 + 1 == t.len() {
                        Some(es)
                    } else {
                        None
                    },
                    None => None,
                }
            } else {
                None
            },
            None => None,
        }
    } else {
        None
    }
}

/// The store denoted by a parsed sequence of entries: each headword's pairs
/// read as a map, and the entries read as a map in turn.
pub open spec fn map2_of(es: Seq<(Seq<char>, Seq<(Seq<char>, Seq<char>)>)>) -> Map<
    Seq<char>,
    Map<Seq<char>, Seq<char>>,
> {
    map_of(es.map_values(|e: (Seq<char>, Seq<(Seq<char>, Seq<char>)>)| (e.0, map_of(e.1))))
}

/// `u` stands at position `i` of `t`.
pub open spec fn at_pos(t: Seq<char>, i: int, u: Seq<char>) -> bool {
    0 <= i && i + u.len() <= t.len() && t.subrange(i, i + u.len()) == u
}

/// A piece standing at `i` splits into its two halves.
proof fn lemma_at_split(t: Seq<char>, i: int, u: Seq<char>, v: Seq<char>)
    requires
        at_pos(t, i, u + v),
    ensures
        at_pos(t, i, u),
        at_pos(t, i + u.len(), v),
{
    assert(t.subrange(i, i + u.len()) =~= u) by {
        assert forall|k: int| 0 <= k < u.len() implies t.subrange(i, i + u.len())[k] == u[k] by {
            assert(t.subrange(i, i + (u + v).len())[k] == (u + v)[k]);
        }
    }
    assert(t.subrange(i + u.len(), i + u.len() + v.len()) =~= v) by {
        assert forall|k: int| 0 <= k < v.len() implies t.subrange(
            i + u.len(),
            i + u.len() + v.len(),
        )[k] == v[k] by {
            assert(t.subrange(i, i + (u + v).len())[u.len() + k] == (u + v)[u.len() + k]);
        }
    }
}

/// A piece standing at `i` fixes the characters it covers.
proof fn lemma_at_index(t: Seq<char>, i: int, u: Seq<char>, k: int)
    requires
        at_pos(t, i, u),
        0 <= k < u.len(),
    ensures
        t[i + k] == u[k],
{
    assert(t.subrange(i, i + u.len())[k] == u[k]);
}

/// The written form of a string unfolds from the front as well.
proof fn lemma_esc_front(s: Seq<char>)
    requires
        s.len() > 0,
    ensures
        esc(s) == esc_char(s[0]) + esc(s.drop_first()),
    decreases s.len(),
{
    if s.len() == 1 {
        assert(s.drop_last() =~= Seq::<char>::empty());
        assert(s.drop_first() =~= Seq::<char>::empty());
        assert(esc(s) =~= esc_char(s[0]) + esc(s.drop_first()));
    } else {
        lemma_esc_front(s.drop_last());
        assert(s.drop_last()[0] == s[0]);
        assert(s.drop_last().drop_first() =~= s.drop_first().drop_last());
        assert(s.drop_first().last() == s.last());
        assert(esc(s) =~= esc_char(s[0]) + esc(s.drop_first()));
    }
}

/// A comma-joined run unfolds from the front as well.
proof fn lemma_join_front(items: Seq<Seq<char>>)
    requires
        items.len() > 1,
    ensures
        join_comma(items) == items[0] + seq![','] + join_comma(items.drop_first()),
    decreases items.len(),
{
    if items.len() == 2 {
        assert(items.drop_last() =~= seq![items[0]]);
        assert(items.drop_first() =~= seq![items[1]]);
        assert(join_comma(items.drop_last()) == seq![items[0]][0]);
        assert(join_comma(items.drop_first()) == seq![items[1]][0]);
        assert(items.last() == items[1]);
        assert(join_comma(items) =~= items[0] + seq![','] + join_comma(items.drop_first()));
    } else {
        lemma_join_front(items.drop_last());
        assert(items.drop_last()[0] == items[0]);
        assert(items.drop_last().drop_first() =~= items.drop_first().drop_last());
        assert(items.drop_first().last() == items.last());
        assert(join_comma(items) =~= items[0] + seq![','] + join_comma(items.drop_first()));
    }
}

/// Reading a written string body gives the characters back and stops right
/// after the closing quote.
proof fn lemma_read_str_body(t: Seq<char>, i: int, s: Seq<char>)
    requires
        at_pos(t, i, esc(s) + seq!['"']),
    ensures
        ps_str_body(t, i) == Some((s, i + esc(s).len() + 1)),
    decreases s.len(),
{
    if s.len() == 0 {
        assert(esc(s) + seq!['"'] =~= seq!['"']);
        lemma_at_index(t, i, seq!['"'], 0);
        assert(s =~= Seq::<char>::empty());
    } else {
        let c = s[0];
        let s1 = s.drop_first();
        lemma_esc_front(s);
        assert(esc(s) + seq!['"'] =~= esc_char(c) + (esc(s1) + seq!['"']));
        lemma_at_split(t, i, esc_char(c), esc(s1) + seq!['"']);
        if c == '"' || c == '\\' {
            lemma_at_index(t, i, esc_char(c), 0);
            lemma_at_index(t, i, esc_char(c), 1);
            assert(short_escape(t[i + 1]) == Some(c));
            lemma_read_str_body(t, i + 2, s1);
            assert(seq![c] + s1 =~= s);
        } else if c as u32 == 8 || c as u32 == 9 || c as u32 == 10 || c as u32 == 12 || c as u32
            == 13 {
            lemma_at_index(t, i, esc_char(c), 0);
            lemma_at_index(t, i, esc_char(c), 1);
            if c as u32 == 8 {
                assert(t[i + 1] == 'b');
                lemma_char_code(c, '\u{8}');
                assert(short_escape(t[i + 1]) == Some(c));
            } else if c as u32 == 9 {
                assert(t[i + 1] == 't');
                lemma_char_code(c, '\t');
                assert(short_escape(t[i + 1]) == Some(c));
            } else if c as u32 == 10 {
                assert(t[i + 1] == 'n');
                lemma_char_code(c, '\n');
                assert(short_escape(t[i + 1]) == Some(c));
            } else if c as u32 == 12 {
                assert(t[i + 1] == 'f');
                lemma_char_code(c, '\u{c}');
                assert(short_escape(t[i + 1]) == Some(c));
            } else {
                assert(t[i + 1] == 'r');
                lemma_char_code(c, '\r');
                assert(short_escape(t[i + 1]) == Some(c));
            }
            lemma_read_str_body(t, i + 2, s1);
            assert(seq![c] + s1 =~= s);
        } else if (c as u32) < 32 {
            let hi = (c as u32) as int / 16;
            let lo = (c as u32) as int % 16;
            lemma_at_index(t, i, esc_char(c), 0);
            lemma_at_index(t, i, esc_char(c), 1);
            lemma_at_index(t, i, esc_char(c), 2);
            lemma_at_index(t, i, esc_char(c), 3);
            lemma_at_index(t, i, esc_char(c), 4);
            lemma_at_index(t, i, esc_char(c), 5);
            lemma_hex_digit(hi);
            lemma_hex_digit(lo);
            assert(t[i + 1] == 'u');
            assert(short_escape('u') is None);
            assert(hex_val(t[i + 4]) * 16 + hex_val(t[i + 5]) == c as u32);
            assert((((hex_val(t[i + 4]) * 16 + hex_val(t[i + 5])) as u8) as char) == c) by {
                vstd::utf8::char_u32_cast(c, c as u32);
            }
            lemma_read_str_body(t, i + 6, s1);
            assert(seq![c] + s1 =~= s);
        } else {
            lemma_at_index(t, i, esc_char(c), 0);
            lemma_read_str_body(t, i + 1, s1);
            assert(seq![c] + s1 =~= s);
        }
    }
}

/// Reading a written string gives the characters back.
proof fn lemma_read_string(t: Seq<char>, i: int, s: Seq<char>)
    requires
        at_pos(t, i, enc_str(s)),
    ensures
        ps_string(t, i) == Some((s, i + enc_str(s).len())),
{
    assert(enc_str(s) =~= seq!['"'] + (esc(s) + seq!['"']));
    lemma_at_split(t, i, seq!['"'], esc(s) + seq!['"']);
    lemma_at_index(t, i, seq!['"'], 0);
    lemma_read_str_body(t, i + 1, s);
}

/// Reading a written member gives its pair back.
proof fn lemma_read_pair(t: Seq<char>, i: int, p: (Seq<char>, Seq<char>))
    requires
        at_pos(t, i, enc_pair(p)),
    ensures
        ps_pair(t, i) == Some((p, i + enc_pair(p).len())),
{
    assert(enc_pair(p) =~= enc_str(p.0) + (seq![':'] + enc_str(p.1)));
    lemma_at_split(t, i, enc_str(p.0), seq![':'] + enc_str(p.1));
    lemma_read_string(t, i, p.0);
    let j = i + enc_str(p.0).len();
    lemma_at_split(t, j, seq![':'], enc_str(p.1));
    lemma_at_index(t, j, seq![':'], 0);
    lemma_read_string(t, j + 1, p.1);
}

/// Reading a written run of members, closed off by a brace, gives the pairs
/// back in their order.
proof fn lemma_read_pairs(t: Seq<char>, i: int, ps: Seq<(Seq<char>, Seq<char>)>)
    requires
        ps.len() >= 1,
        at_pos(t, i, join_comma(ps.map_values(|p: (Seq<char>, Seq<char>)| enc_pair(p)))),
        i + join_comma(ps.map_values(|p: (Seq<char>, Seq<char>)| enc_pair(p))).len() < t.len(),
        t[i + join_comma(ps.map_values(|p: (Seq<char>, Seq<char>)| enc_pair(p))).len()] == '}',
    ensures
        ps_pairs(t, i) == Some(
            (ps, i + join_comma(ps.map_values(|p: (Seq<char>, Seq<char>)| enc_pair(p))).len()),
        ),
    decreases ps.len(),
{
    let items = ps.map_values(|p: (Seq<char>, Seq<char>)| enc_pair(p));
    if ps.len() == 1 {
        assert(join_comma(items) == items[0]);
        lemma_read_pair(t, i, ps[0]);
        let j = i + enc_pair(ps[0]).len();
        assert(t[j] == '}');
        assert(seq![ps[0]] =~= ps);
    } else {
        lemma_join_front(items);
        assert(join_comma(items) =~= enc_pair(ps[0]) + (seq![','] + join_comma(
            items.drop_first(),
        )));
        lemma_at_split(t, i, enc_pair(ps[0]), seq![','] + join_comma(items.drop_first()));
        lemma_read_pair(t, i, ps[0]);
        let j = i + enc_pair(ps[0]).len();
        lemma_at_split(t, j, seq![','], join_comma(items.drop_first()));
        lemma_at_index(t, j, seq![','], 0);
        assert(items.drop_first() =~= ps.drop_first().map_values(
            |p: (Seq<char>, Seq<char>)| enc_pair(p),
        ));
        lemma_read_pairs(t, j + 1, ps.drop_first());
        assert(seq![ps[0]] + ps.drop_first() =~= ps);
    }
}

/// Reading a written translation object gives the pairs back in their order.
proof fn lemma_read_obj(t: Seq<char>, i: int, ps: Seq<(Seq<char>, Seq<char>)>)
    requires
        at_pos(t, i, enc_obj(ps)),
    ensures
        ps_obj(t, i) == Some((ps, i + enc_obj(ps).len())),
{
    let items = ps.map_values(|p: (Seq<char>, Seq<char>)| enc_pair(p));
    assert(enc_obj(ps) =~= seq!['{'] + (join_comma(items) + seq!['}']));
    lemma_at_split(t, i, seq!['{'], join_comma(items) + seq!['}']);
    lemma_at_index(t, i, seq!['{'], 0);
    lemma_at_split(t, i + 1, join_comma(items), seq!['}']);
    lemma_at_index(t, i + 1 + join_comma(items).len(), seq!['}'], 0);
    if ps.len() == 0 {
        assert(join_comma(items) =~= Seq::<char>::empty());
        assert(t[i + 1] == '}');
        assert(ps =~= Seq::<(Seq<char>, Seq<char>)>::empty());
    } else {
        assert(items[0] == enc_pair(ps[0]));
        assert(enc_pair(ps[0])[0] == '"');
        if items.len() == 1 {
            assert(join_comma(items)[0] == '"');
        } else {
            lemma_join_front(items);
            assert(join_comma(items)[0] == '"');
        }
        lemma_at_index(t, i + 1, join_comma(items), 0);
        assert(t[i + 1] == '"');
        lemma_read_pairs(t, i + 1, ps);
    }
}

/// Reading a written entry gives the headword and its pairs back.
proof fn lemma_read_entry(t: Seq<char>, i: int, e: (Seq<char>, Seq<(Seq<char>, Seq<char>)>))
    requires
        at_pos(t, i, enc_entry(e)),
    ensures
        ps_entry(t, i) == Some((e, i + enc_entry(e).len())),
{
    assert(enc_entry(e) =~= enc_str(e.0) + (seq![':'] + enc_obj(e.1)));
    lemma_at_split(t, i, enc_str(e.0), seq![':'] + enc_obj(e.1));
    lemma_read_string(t, i, e.0);
    let j = i + enc_str(e.0).len();
    lemma_at_split(t, j, seq![':'], enc_obj(e.1));
    lemma_at_index(t, j, seq![':'], 0);
    lemma_read_obj(t, j + 1, e.1);
}

/// Reading a written run of entries, closed off by a brace, gives them back
/// in their order.
proof fn lemma_read_entries(t: Seq<char>, i: int, es: Seq<(Seq<char>, Seq<(Seq<char>, Seq<char>)>)>)
    requires
        es.len() >= 1,
        at_pos(
            t,
            i,
            join_comma(es.map_values(|e: (Seq<char>, Seq<(Seq<char>, Seq<char>)>)| enc_entry(e))),
        ),
        i + join_comma(
            es.map_values(|e: (Seq<char>, Seq<(Seq<char>, Seq<char>)>)| enc_entry(e)),
        ).len() < t.len(),
        t[i + join_comma(
            es.map_values(|e: (Seq<char>, Seq<(Seq<char>, Seq<char>)>)| enc_entry(e)),
        ).len()] == '}',
    ensures
        ps_entries(t, i) == Some(
            (
                es,
                i + join_comma(
                    es.map_values(|e: (Seq<char>, Seq<(Seq<char>, Seq<char>)>)| enc_entry(e)),
                ).len(),
            ),
        ),
    decreases es.len(),
{
    let items = es.map_values(|e: (Seq<char>, Seq<(Seq<char>, Seq<char>)>)| enc_entry(e));
    if es.len() == 1 {
        assert(join_comma(items) == items[0]);
        lemma_read_entry(t, i, es[0]);
        let j = i + enc_entry(es[0]).len();
        assert(t[j] == '}');
        assert(seq![es[0]] =~= es);
    } else {
        lemma_join_front(items);
        assert(join_comma(items) =~= enc_entry(es[0]) + (seq![','] + join_comma(
            items.drop_first(),
        )));
        lemma_at_split(t, i, enc_entry(es[0]), seq![','] + join_comma(items.drop_first()));
        lemma_read_entry(t, i, es[0]);
        let j = i + enc_entry(es[0]).len();
        lemma_at_split(t, j, seq![','], join_comma(items.drop_first()));
        lemma_at_index(t, j, seq![','], 0);
        assert(items.drop_first() =~= es.drop_first().map_values(
            |e: (Seq<char>, Seq<(Seq<char>, Seq<char>)>)| enc_entry(e),
        ));
        lemma_read_entries(t, j + 1, es.drop_first());
        assert(seq![es[0]] + es.drop_first() =~= es);
    }
}

/// Reading a whole written document gives every entry back, in order, with
/// every pair: saving and loading lose nothing at all.
#[verifier::rlimit(50)]
pub proof fn lemma_read_doc(es: Seq<(Seq<char>, Seq<(Seq<char>, Seq<char>)>)>)
    ensures
        ps_doc(doc_of(es)) == Some(es),
{
    let t = doc_of(es);
    let items = es.map_values(|e: (Seq<char>, Seq<(Seq<char>, Seq<char>)>)| enc_entry(e));
    let woc = seq!['{'] + join_comma(items) + seq!['}'];
    assert(t =~= seq!['{'] + (enc_str("words"@) + (seq![':'] + (woc + seq!['}']))));
    assert(t.subrange(0, t.len() as int) =~= t);
    assert(at_pos(t, 0, t));
    lemma_at_split(t, 0, seq!['{'], enc_str("words"@) + (seq![':'] + (woc + seq!['}'])));
    lemma_at_index(t, 0, seq!['{'], 0);
    lemma_at_split(t, 1, enc_str("words"@), seq![':'] + (woc + seq!['}']));
    lemma_read_string(t, 1, "words"@);
    let j: int = 1 + enc_str("words"@).len() as int;
    lemma_at_split(t, j, seq![':'], woc + seq!['}']);
    lemma_at_index(t, j, seq![':'], 0);
    lemma_at_split(t, j + 1, woc, seq!['}']);
    lemma_at_index(t, j + 1 + woc.len(), seq!['}'], 0);
    assert(woc =~= seq!['{'] + (join_comma(items) + seq!['}']));
    lemma_at_split(t, j + 1, seq!['{'], join_comma(items) + seq!['}']);
    lemma_at_index(t, j + 1, seq!['{'], 0);
    lemma_at_split(t, j + 2, join_comma(items), seq!['}']);
    lemma_at_index(t, j + 2 + join_comma(items).len(), seq!['}'], 0);
    if es.len() == 0 {
        assert(join_comma(items) =~= Seq::<char>::empty());
        assert(t[j + 2] == '}');
        assert(ps_words_obj(t, j + 1) == Some(
            (Seq::<(Seq<char>, Seq<(Seq<char>, Seq<char>)>)>::empty(), j + 3),
        ));
        assert(es =~= Seq::<(Seq<char>, Seq<(Seq<char>, Seq<char>)>)>::empty());
    } else {
        assert(items[0] == enc_entry(es[0]));
        assert(enc_entry(es[0])[0] == '"');
        if items.len() == 1 {
            assert(join_comma(items)[0] == '"');
        } else {
            lemma_join_front(items);
            assert(join_comma(items)[0] == '"');
        }
        lemma_at_index(t, j + 2, join_comma(items), 0);
        assert(t[j + 2] == '"');
        lemma_read_entries(t, j + 2, es);
    }
}

/// The lowercase hexadecimal digit for a value below sixteen.
fn hex_digit_char(n: u8) -> (r: char)
    requires
        n < 16,
    ensures
        r == hex_digit(n as int),
{
    if n == 0 {
        '0'
    } else if n == 1 {
        '1'
    } else if n == 2 {
        '2'
    } else if n == 3 {
        '3'
    } else if n == 4 {
        '4'
    } else if n == 5 {
        '5'
    } else if n == 6 {
        '6'
    } else if n == 7 {
        '7'
    } else if n == 8 {
        '8'
    } else if n == 9 {
        '9'
    } else if n == 10 {
        'a'
    } else if n == 11 {
        'b'
    } else if n == 12 {
        'c'
    } else if n == 13 {
        'd'
    } else if n == 14 {
        'e'
    } else {
        'f'
    }
}

/// Writes the characters of `s` in their escaped form.
fn append_escaped(out: &mut String, s: &str)
    ensures
        final(out)@ == old(out)@ + esc(s@),
{
    let n = s.unicode_len();
    let mut i: usize = 0;
    while i < n
        invariant
            0 <= i <= n,
            n == s@.len(),
            out@ == old(out)@ + esc(s@.take(i as int)),
        decreases n - i,
    {
        let c = s.get_char(i);
        let u = c as u32;
        if c == '"' || c == '\\' {
            out.push('\\');
            out.push(c);
        } else if u == 8 {
            out.push('\\');
            out.push('b');
        } else if u == 9 {
            out.push('\\');
            out.push('t');
        } else if u == 10 {
            out.push('\\');
            out.push('n');
        } else if u == 12 {
            out.push('\\');
            out.push('f');
        } else if u == 13 {
            out.push('\\');
            out.push('r');
        } else if u < 32 {
            out.push('\\');
            out.push('u');
            out.push('0');
            out.push('0');
            out.push(hex_digit_char((u / 16) as u8));
            out.push(hex_digit_char((u % 16) as u8));
        } else {
            out.push(c);
        }
        proof {
            assert(s@.take(i as int + 1).drop_last() =~= s@.take(i as int));
            assert(s@.take(i as int + 1).last() == s@[i as int]);
            assert(out@ =~= old(out)@ + esc(s@.take(i as int + 1)));
        }
        i = i + 1;
    }
    proof {
        assert(s@.take(n as int) =~= s@);
    }
}

/// Writes `s` as a quoted string.
fn append_quoted(out: &mut String, s: &str)
    ensures
        final(out)@ == old(out)@ + enc_str(s@),
{
    out.push('"');
    append_escaped(out, s);
    out.push('"');
    proof {
        assert(out@ =~= old(out)@ + enc_str(s@));
    }
}

/// Writes one headword's translation object.
fn append_obj(out: &mut String, tr: &Translations)
    ensures
        final(out)@ == old(out)@ + enc_obj(tr.kv()),
{
    let ghost items = tr.kv().map_values(|p: (Seq<char>, Seq<char>)| enc_pair(p));
    out.push('{');
    let m = tr.pair_count();
    let mut j: usize = 0;
    while j < m
        invariant
            0 <= j <= m,
            m == tr.kv().len(),
            items == tr.kv().map_values(|p: (Seq<char>, Seq<char>)| enc_pair(p)),
            out@ == old(out)@ + seq!['{'] + join_comma(items.take(j as int)),
        decreases m - j,
    {
        if j > 0 {
            out.push(',');
        }
        let p = tr.pair_at(j);
        append_quoted(out, p.0.as_str());
        out.push(':');
        append_quoted(out, p.1.as_str());
        proof {
            assert(items.take(j as int + 1).drop_last() =~= items.take(j as int));
            assert(items.take(j as int + 1).last() == items[j as int]);
            assert(items[j as int] == enc_pair(tr.kv()[j as int]));
            if j == 0 {
                assert(items.take(1)[0] == items[0]);
            }
            assert(out@ =~= old(out)@ + seq!['{'] + join_comma(items.take(j as int + 1)));
        }
        j = j + 1;
    }
    out.push('}');
    proof {
        assert(items.take(m as int) =~= items);
        assert(out@ =~= old(out)@ + enc_obj(tr.kv()));
    }
}

/// The character a two-character escape stands for, if any.
fn short_escape_char(e: char) -> (r: Option<char>)
    ensures
        r == short_escape(e),
{
    if e == '"' || e == '\\' || e == '/' {
        Some(e)
    } else if e == 'b' {
        Some('\u{8}')
    } else if e == 't' {
        Some('\t')
    } else if e == 'n' {
        Some('\n')
    } else if e == 'f' {
        Some('\u{c}')
    } else if e == 'r' {
        Some('\r')
    } else {
        None
    }
}

/// Whether `c` is a hexadecimal digit, in either case.
fn is_hex_char(c: char) -> (r: bool)
    ensures
        r == is_hex(c),
{
    let u = c as u32;
    (48 <= u && u <= 57) || (97 <= u && u <= 102) || (65 <= u && u <= 70)
}

/// The value of a hexadecimal digit.
fn hex_val_char(c: char) -> (r: u8)
    requires
        is_hex(c),
    ensures
        r as int == hex_val(c),
        r < 16,
{
    let u = c as u32;
    if 48 <= u && u <= 57 {
        (u - 48) as u8
    } else if 97 <= u && u <= 102 {
        (u - 87) as u8
    } else {
        (u - 55) as u8
    }
}

/// Reads a quoted string's characters after its opening quote.
fn p_str_body(s: &str, n: usize, i: usize) -> (r: Option<(String, usize)>)
    requires
        n == s@.len(),
        i <= n,
    ensures
        match r {
            Some(vj) => ps_str_body(s@, i as int) == Some((vj.0@, vj.1 as int)) && i < vj.1 <= n,
            None => ps_str_body(s@, i as int) is None,
        },
    decreases n - i,
{
    if i >= n {
        return None;
    }
    let c = s.get_char(i);
    if c == '"' {
        Some((String::new(), i + 1))
    } else if c == '\\' {
        if i + 1 >= n {
            return None;
        }
        let e = s.get_char(i + 1);
        match short_escape_char(e) {
            Some(d) => {
                match p_str_body(s, n, i + 2) {
                    Some(vj) => {
                        let mut out = String::new();
                        out.push(d);
                        out.append(vj.0.as_str());
                        proof {
                            assert(out@ =~= seq![d] + vj.0@);
                        }
                        Some((out, vj.1))
                    },
                    None => None,
                }
            },
            None => {
                if e == 'u' && n - i >= 6 {
                    let d2 = s.get_char(i + 2);
                    let d3 = s.get_char(i + 3);
                    let d4 = s.get_char(i + 4);
                    let d5 = s.get_char(i + 5);
                    if d2 == '0' && d3 == '0' && is_hex_char(d4) && is_hex_char(d5) {
                        match p_str_body(s, n, i + 6) {
                            Some(vj) => {
                                let code: u8 = hex_val_char(d4) * 16 + hex_val_char(d5);
                                let decoded = code as char;
                                let mut out = String::new();
                                out.push(decoded);
                                out.append(vj.0.as_str());
                                proof {
                                    assert(out@ =~= seq![decoded] + vj.0@);
                                }
                                Some((out, vj.1))
                            },
                            None => None,
                        }
                    } else {
                        None
                    }
                } else {
                    None
                }
            },
        }
    } else if (c as u32) < 32 {
        None
    } else {
        match p_str_body(s, n, i + 1) {
            Some(vj) => {
                let mut out = String::new();
                out.push(c);
                out.append(vj.0.as_str());
                proof {
                    assert(out@ =~= seq![s@[i as int]] + vj.0@);
                }
                Some((out, vj.1))
            },
            None => None,
        }
    }
}

/// Reads a quoted string at `i`.
fn p_string(s: &str, n: usize, i: usize) -> (r: Option<(String, usize)>)
    requires
        n == s@.len(),
        i <= n,
    ensures
        match r {
            Some(vj) => ps_string(s@, i as int) == Some((vj.0@, vj.1 as int)) && i < vj.1 <= n,
            None => ps_string(s@, i as int) is None,
        },
{
    if i < n && s.get_char(i) == '"' {
        p_str_body(s, n, i + 1)
    } else {
        None
    }
}

/// Reads a `"language":"translation"` member at `i`.
fn p_pair(s: &str, n: usize, i: usize) -> (r: Option<((String, String), usize)>)
    requires
        n == s@.len(),
        i <= n,
    ensures
        match r {
            Some(pj) => ps_pair(s@, i as int) == Some(((pj.0.0@, pj.0.1@), pj.1 as int)) && i
                < pj.1 <= n,
            None => ps_pair(s@, i as int) is None,
        },
{
    match p_string(s, n, i) {
        Some(kj) => {
            let j = kj.1;
            if j < n && s.get_char(j) == ':' {
                match p_string(s, n, j + 1) {
                    Some(vj) => Some(((kj.0, vj.0), vj.1)),
                    None => None,
                }
            } else {
                None
            }
        },
        None => None,
    }
}

/// Reads a comma-separated run of members at `i`, gathering them into a
/// translation map in which the last occurrence of a language wins.
fn p_pairs(s: &str, n: usize, i: usize) -> (r: Option<(Translations, usize)>)
    requires
        n == s@.len(),
        i <= n,
    ensures
        match r {
            Some(tj) => (ps_pairs(s@, i as int) matches Some((ps, jj)) && jj == tj.1 as int
                && tj.0@ == map_of(ps)) && i < tj.1 <= n,
            None => ps_pairs(s@, i as int) is None,
        },
    decreases n - i,
{
    match p_pair(s, n, i) {
        None => None,
        Some(pj) => {
            let (kv, j) = pj;
            let ghost p = (kv.0@, kv.1@);
            if j < n && s.get_char(j) == ',' {
                match p_pairs(s, n, j + 1) {
                    None => None,
                    Some(tj) => {
                        let (mut tr, j2) = tj;
                        let present = tr.get(kv.0.as_str()).is_some();
                        proof {
                            match ps_pairs(s@, j as int + 1) {
                                Some(rj) => {
                                    lemma_map_of_dom(rj.0);
                                    lemma_map_of_cons(p, rj.0);
                                },
                                None => (),
                            }
                        }
                        if !present {
                            tr.insert(kv.0, kv.1);
                        }
                        Some((tr, j2))
                    },
                }
            } else {
                let mut tr = Translations::new();
                tr.insert(kv.0, kv.1);
                proof {
                    assert(seq![p] + Seq::<(Seq<char>, Seq<char>)>::empty() =~= seq![p]);
                    lemma_map_of_cons(p, Seq::empty());
                }
                Some((tr, j))
            }
        },
    }
}

/// Reads one headword's translation object at `i`.
fn p_obj(s: &str, n: usize, i: usize) -> (r: Option<(Translations, usize)>)
    requires
        n == s@.len(),
        i <= n,
    ensures
        match r {
            Some(tj) => (ps_obj(s@, i as int) matches Some((ps, jj)) && jj == tj.1 as int && tj.0@
                == map_of(ps)) && i < tj.1 <= n,
            None => ps_obj(s@, i as int) is None,
        },
{
    if i < n && s.get_char(i) == '{' {
        if i + 1 < n && s.get_char(i + 1) == '}' {
            Some((Translations::new(), i + 2))
        } else {
            match p_pairs(s, n, i + 1) {
                Some(tj) => {
                    let j = tj.1;
                    if j < n && s.get_char(j) == '}' {
                        Some((tj.0, j + 1))
                    } else {
                        None
                    }
                },
                None => None,
            }
        }
    } else {
        None
    }
}

/// Reads a `"headword":{...}` member at `i`.
fn p_entry(s: &str, n: usize, i: usize) -> (r: Option<((String, Translations), usize)>)
    requires
        n == s@.len(),
        i <= n,
    ensures
        match r {
            Some(ej) => (ps_entry(s@, i as int) matches Some((e, jj)) && jj == ej.1 as int && e.0
                == ej.0.0@ && ej.0.1@ == map_of(e.1)) && i < ej.1 <= n,
            None => ps_entry(s@, i as int) is None,
        },
{
    match p_string(s, n, i) {
        Some(kj) => {
            let j = kj.1;
            if j < n && s.get_char(j) == ':' {
                match p_obj(s, n, j + 1) {
                    Some(tj) => Some(((kj.0, tj.0), tj.1)),
                    None => None,
                }
            } else {
                None
            }
        },
        None => None,
    }
}

/// Reads a comma-separated run of entries at `i`, gathering them into a
/// store in which the last occurrence of a headword wins.
fn p_entries(s: &str, n: usize, i: usize) -> (r: Option<(VocabularyManager, usize)>)
    requires
        n == s@.len(),
        i <= n,
    ensures
        match r {
            Some(vj) => (ps_entries(s@, i as int) matches Some((es, jj)) && jj == vj.1 as int
                && vj.0@ == map2_of(es)) && i < vj.1 <= n,
            None => ps_entries(s@, i as int) is None,
        },
    decreases n - i,
{
    match p_entry(s, n, i) {
        None => None,
        Some(ej) => {
            let ((word, tr), j) = ej;
            let ghost e0 = (word@, tr@);
            if j < n && s.get_char(j) == ',' {
                match p_entries(s, n, j + 1) {
                    None => None,
                    Some(vj) => {
                        let (mut vm, j2) = vj;
                        let present = vm.find_word(word.as_str());
                        proof {
                            match ps_entries(s@, j as int + 1) {
                                Some(rj) => {
                                    let mapped = rj.0.map_values(
                                        |e: (Seq<char>, Seq<(Seq<char>, Seq<char>)>)| (
                                            e.0,
                                            map_of(e.1),
                                        ),
                                    );
                                    lemma_map_of_dom(mapped);
                                    lemma_map_of_cons(e0, mapped);
                                },
                                None => (),
                            }
                        }
                        if !present {
                            vm.add_word(word, tr);
                        }
                        proof {
                            match ps_entries(s@, i as int) {
                                Some(ej2) => {
                                    match ps_entries(s@, j as int + 1) {
                                        Some(rj) => {
                                            let mapped = rj.0.map_values(
                                                |e: (Seq<char>, Seq<(Seq<char>, Seq<char>)>)| (
                                                    e.0,
                                                    map_of(e.1),
                                                ),
                                            );
                                            assert(ej2.0.map_values(
                                                |e: (Seq<char>, Seq<(Seq<char>, Seq<char>)>)| (
                                                    e.0,
                                                    map_of(e.1),
                                                ),
                                            ) =~= seq![e0] + mapped);
                                        },
                                        None => (),
                                    }
                                },
                                None => (),
                            }
                        }
                        Some((vm, j2))
                    },
                }
            } else {
                let mut vm = VocabularyManager::new();
                vm.add_word(word, tr);
                proof {
                    assert(seq![e0] + Seq::<(Seq<char>, Map<Seq<char>, Seq<char>>)>::empty()
                        =~= seq![e0]);
                    lemma_map_of_cons(e0, Seq::empty());
                    match ps_entries(s@, i as int) {
                        Some(ej2) => {
                            assert(ej2.0.map_values(
                                |e: (Seq<char>, Seq<(Seq<char>, Seq<char>)>)| (e.0, map_of(e.1)),
                            ) =~= seq![e0]);
                        },
                        None => (),
                    }
                }
                Some((vm, j))
            }
        },
    }
}

/// Reads the object holding all entries at `i`.
fn p_words_obj(s: &str, n: usize, i: usize) -> (r: Option<(VocabularyManager, usize)>)
    requires
        n == s@.len(),
        i <= n,
    ensures
        match r {
            Some(vj) => (ps_words_obj(s@, i as int) matches Some((es, jj)) && jj == vj.1 as int
                && vj.0@ == map2_of(es)) && i < vj.1 <= n,
            None => ps_words_obj(s@, i as int) is None,
        },
{
    if i < n && s.get_char(i) == '{' {
        if i + 1 < n && s.get_char(i + 1) == '}' {
            let vm = VocabularyManager::new();
            proof {
                let mapped = Seq::<(Seq<char>, Seq<(Seq<char>, Seq<char>)>)>::empty().map_values(
                    |e: (Seq<char>, Seq<(Seq<char>, Seq<char>)>)| (e.0, map_of(e.1)),
                );
                assert(mapped =~= Seq::<(Seq<char>, Map<Seq<char>, Seq<char>>)>::empty());
            }
            Some((vm, i + 2))
        } else {
            match p_entries(s, n, i + 1) {
                Some(vj) => {
                    let j = vj.1;
                    if j < n && s.get_char(j) == '}' {
                        Some((vj.0, j + 1))
                    } else {
                        None
                    }
                },
                None => None,
            }
        }
    } else {
        None
    }
}

impl VocabularyManager {
    /// Reads a store back from its persisted form; nothing may follow the
    /// document.
    pub fn from_json(s: &str) -> (r: Option<VocabularyManager>)
        ensures
            match r {
                Some(vm) => ps_doc(s@) matches Some(es) && vm@ == map2_of(es),
                None => ps_doc(s@) is None,
            },
    {
        let n = s.unicode_len();
        if n > 0 && s.get_char(0) == '{' {
            match p_string(s, n, 1) {
                Some(kj) => {
                    let j = kj.1;
                    if str_eq(kj.0.as_str(), "words") && j < n && s.get_char(j) == ':' {
                        match p_words_obj(s, n, j + 1) {
                            Some(vj) => {
                                let j2 = vj.1;
                                if j2 < n && s.get_char(j2) == '}' && j2 + 1 == n {
                                    Some(vj.0)
                                } else {
                                    None
                                }
                            },
                            None => None,
                        }
                    } else {
                        None
                    }
                },
                None => None,
            }
        } else {
            None
        }
    }

    /// The store in its persisted form.
    pub fn to_json(&self) -> (r: String)
        ensures
            r@ == doc_of(self.table()),
    {
        let ghost items = self.table().map_values(
            |e: (Seq<char>, Seq<(Seq<char>, Seq<char>)>)| enc_entry(e),
        );
        let mut out = String::new();
        out.push('{');
        append_quoted(&mut out, "words");
        out.push(':');
        out.push('{');
        let ghost head = seq!['{'] + enc_str("words"@) + seq![':'] + seq!['{'];
        proof {
            assert(out@ =~= head);
        }
        let n = self.entry_count();
        let mut i: usize = 0;
        while i < n
            invariant
                0 <= i <= n,
                n == self.table().len(),
                head == seq!['{'] + enc_str("words"@) + seq![':'] + seq!['{'],
                items == self.table().map_values(
                    |e: (Seq<char>, Seq<(Seq<char>, Seq<char>)>)| enc_entry(e),
                ),
                out@ == head + join_comma(items.take(i as int)),
            decreases n - i,
        {
            if i > 0 {
                out.push(',');
            }
            let w = self.headword_at(i);
            append_quoted(&mut out, w.as_str());
            out.push(':');
            let tr = self.translations_at(i);
            append_obj(&mut out, tr);
            proof {
                assert(items.take(i as int + 1).drop_last() =~= items.take(i as int));
                assert(items.take(i as int + 1).last() == items[i as int]);
                assert(items[i as int] == enc_entry(self.table()[i as int]));
                if i == 0 {
                    assert(items.take(1)[0] == items[0]);
                }
                assert(out@ =~= head + join_comma(items.take(i as int + 1)));
            }
            i = i + 1;
        }
        out.push('}');
        out.push('}');
        proof {
            assert(items.take(n as int) =~= items);
            assert(out@ =~= doc_of(self.table()));
        }
        out
    }
}

} // verus!
