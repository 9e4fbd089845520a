//! The JSON-like values that every serialization produces, together with the
//! lexicographic string order that keeps object keys deterministic and the
//! compact text rendering of a value.

use vstd::prelude::*;

verus! {

// ---------------------------------------------------------------------------
// Lexicographic order on character sequences.
// ---------------------------------------------------------------------------

/// Strict lexicographic order on character sequences, by Unicode scalar value.
pub open spec fn lex_lt(a: Seq<char>, b: Seq<char>) -> bool
    decreases a.len(),
{
    if b.len() == 0 {
        false
    } else if a.len() == 0 {
        true
    } else if a[0] != b[0] {
        (a[0] as int) < (b[0] as int)
    } else {
        lex_lt(a.drop_first(), b.drop_first())
    }
}

pub proof fn lemma_lex_irreflexive(a: Seq<char>)
    ensures
        !lex_lt(a, a),
    decreases a.len(),
{
    if a.len() > 0 {
        lemma_lex_irreflexive(a.drop_first());
    }
}

pub proof fn lemma_lex_asymmetric(a: Seq<char>, b: Seq<char>)
    ensures
        lex_lt(a, b) ==> !lex_lt(b, a),
    decreases a.len(),
{
    if a.len() > 0 && b.len() > 0 && a[0] == b[0] {
        lemma_lex_asymmetric(a.drop_first(), b.drop_first());
    }
}

pub proof fn lemma_lex_connected(a: Seq<char>, b: Seq<char>)
    ensures
        a != b ==> lex_lt(a, b) || lex_lt(b, a),
    decreases a.len(),
{
    if a.len() == 0 && b.len() == 0 {
        assert(a =~= b);
    } else if a.len() > 0 && b.len() > 0 && a[0] == b[0] {
        lemma_lex_connected(a.drop_first(), b.drop_first());
        if a.drop_first() == b.drop_first() {
            assert forall|i: int| 0 <= i < a.len() implies a[i] == b[i] by {
                if i >= 1 {
                    assert(a[i] == a.drop_first()[i - 1]);
                    assert(b[i] == b.drop_first()[i - 1]);
                }
            }
            assert(a.drop_first().len() == a.len() - 1);
            assert(b.drop_first().len() == b.len() - 1);
            assert(a.len() == b.len());
            assert(a =~= b);
        }
    }
}

pub proof fn lemma_lex_transitive(a: Seq<char>, b: Seq<char>, c: Seq<char>)
    ensures
        lex_lt(a, b) && lex_lt(b, c) ==> lex_lt(a, c),
    decreases a.len(),
{
    if a.len() > 0 && b.len() > 0 && c.len() > 0 {
        lemma_lex_transitive(a.drop_first(), b.drop_first(), c.drop_first());
    }
}

/// One direction of `str_lex_cmp`: a pair that agrees on a prefix and then
/// either runs out on the left or has a smaller character on the left is
/// lexicographically smaller.
proof fn lemma_lex_from_prefix(a: Seq<char>, b: Seq<char>, i: int)
    requires
        0 <= i <= a.len(),
        i <= b.len(),
        forall|j: int| 0 <= j < i ==> a[j] == b[j],
        (a.len() == i && i < b.len()) || (i < a.len() && i < b.len() && (a[i] as int) < (b[i]
            as int)),
    ensures
        lex_lt(a, b),
    decreases i,
{
    if i > 0 {
        assert(a[0] == b[0]);
        lemma_lex_from_prefix(a.drop_first(), b.drop_first(), i - 1);
    }
}

/// Three-way lexicographic comparison of two strings: -1, 0 or 1 as `a` is
/// below, equal to or above `b` in the order of `lex_lt`.
pub fn str_lex_cmp(a: &str, b: &str) -> (r: i32)
    ensures
        r == -1 <==> lex_lt(a@, b@),
        r == 0 <==> a@ == b@,
        r == 1 <==> lex_lt(b@, a@),
{
    let alen: usize = a.unicode_len();
    let blen: usize = b.unicode_len();
    let mut i: usize = 0;
    loop
        invariant
            i <= alen,
            i <= blen,
            alen == a@.len(),
            blen == b@.len(),
            forall|j: int| 0 <= j < i ==> a@[j] == b@[j],
        decreases alen + blen - 2 * i,
    {
        if i >= alen && i >= blen {
            proof {
                assert(a@ =~= b@);
                lemma_lex_irreflexive(a@);
            }
            return 0;
        }
        if i >= alen {
            proof {
                lemma_lex_from_prefix(a@, b@, i as int);
                lemma_lex_irreflexive(a@);
                lemma_lex_asymmetric(a@, b@);
            }
            return -1;
        }
        if i >= blen {
            proof {
                lemma_lex_from_prefix(b@, a@, i as int);
                lemma_lex_irreflexive(b@);
                lemma_lex_asymmetric(b@, a@);
            }
            return 1;
        }
        let ca: char = a.get_char(i);
        let cb: char = b.get_char(i);
        if (ca as u32) < (cb as u32) {
            proof {
                lemma_lex_from_prefix(a@, b@, i as int);
                lemma_lex_irreflexive(a@);
                lemma_lex_asymmetric(a@, b@);
            }
            return -1;
        }
        if (cb as u32) < (ca as u32) {
            proof {
                lemma_lex_from_prefix(b@, a@, i as int);
                lemma_lex_irreflexive(b@);
                lemma_lex_asymmetric(b@, a@);
            }
            return 1;
        }
        assert(a@[i as int] == b@[i as int]);
        i = i + 1;
    }
}

/// Equality of two strings as character sequences.
pub fn str_lex_eq(a: &str, b: &str) -> (r: bool)
    ensures
        r == (a@ == b@),
{
    str_lex_cmp(a, b) == 0
}

// ---------------------------------------------------------------------------
// The mathematical model of a JSON value.
// ---------------------------------------------------------------------------

/// The mathematical shape of a JSON value. Objects keep their entries as an
/// ordered sequence, since the order in which keys are written matters for
/// the text rendering.
pub enum JsonModel {
    Num(int),
    Bool(bool),
    Str(Seq<char>),
    Arr(Seq<JsonModel>),
    Obj(Seq<(Seq<char>, JsonModel)>),
}

// ---------------------------------------------------------------------------
// The executable JSON value.
// ---------------------------------------------------------------------------

/// A JSON value, restricted to the shapes that histogram serialization
/// produces: 64-bit integers, booleans, strings, arrays and objects.
#[derive(Debug, PartialEq)]
pub enum Json {
    I64(i64),
    Boolean(bool),
    Str(String),
    Array(Vec<Json>),
    Object(Vec<(String, Json)>),
}

pub open spec fn json_view(j: Json) -> JsonModel
    decreases j,
{
    match j {
        Json::I64(n) => JsonModel::Num(n as int),
        Json::Boolean(b) => JsonModel::Bool(b),
        Json::Str(s) => JsonModel::Str(s@),
        Json::Array(items) => JsonModel::Arr(jsons_view(items@)),
        Json::Object(entries) => JsonModel::Obj(entries_view(entries@)),
    }
}

pub open spec fn jsons_view(s: Seq<Json>) -> Seq<JsonModel>
    decreases s,
{
    if s.len() == 0 {
        Seq::empty()
    } else {
        jsons_view(s.drop_last()).push(json_view(s.last()))
    }
}

pub open spec fn entries_view(s: Seq<(String, Json)>) -> Seq<(Seq<char>, JsonModel)>
    decreases s,
{
    if s.len() == 0 {
        Seq::empty()
    } else {
        entries_view(s.drop_last()).push((s.last().0@, json_view(s.last().1)))
    }
}

impl View for Json {
    type V = JsonModel;

    open spec fn view(&self) -> JsonModel {
        json_view(*self)
    }
}

pub proof fn lemma_jsons_view_len(s: Seq<Json>)
    ensures
        jsons_view(s).len() == s.len(),
        forall|i: int| 0 <= i < s.len() ==> jsons_view(s)[i] == json_view(s[i]),
    decreases s,
{
    if s.len() > 0 {
        lemma_jsons_view_len(s.drop_last());
    }
}

pub proof fn lemma_entries_view_len(s: Seq<(String, Json)>)
    ensures
        entries_view(s).len() == s.len(),
        forall|i: int| 0 <= i < s.len() ==> entries_view(s)[i] == (s[i].0@, json_view(s[i].1)),
    decreases s,
{
    if s.len() > 0 {
        lemma_entries_view_len(s.drop_last());
    }
}

// ---------------------------------------------------------------------------
// Decimal rendering of integers.
// ---------------------------------------------------------------------------

/// The character for one decimal digit.
pub open spec fn dec_digit(d: int) -> char {
    if d == 0 {
        '0'
    } else if d == 1 {
        '1'
    } else if d == 2 {
        '2'
    } else if d == 3 {
        '3'
    } else if d == 4 {
        '4'
    } else if d == 5 {
        '5'
    } else if d == 6 {
        '6'
    } else if d == 7 {
        '7'
    } else if d == 8 {
        '8'
    } else {
        '9'
    }
}

/// The usual decimal numeral of a nonnegative integer, most significant
/// digit first and without leading zeros.
pub open spec fn dec_str(n: int) -> Seq<char>
    recommends
        n >= 0,
    decreases n,
{
    if n < 10 {
        seq![dec_digit(n)]
    } else {
        dec_str(n / 10).push(dec_digit(n % 10))
    }
}

/// The decimal numeral of any integer, with a leading minus sign when the
/// integer is negative.
pub open spec fn dec_str_int(n: int) -> Seq<char> {
    if n < 0 {
        seq!['-'] + dec_str(-n)
    } else {
        dec_str(n)
    }
}

/// One decimal digit as a string slice.
fn digit_str(d: u64) -> (r: &'static str)
    requires
        d < 10,
    ensures
        r@ == seq![dec_digit(d as int)],
{
    if d == 0 {
        proof {
            reveal_strlit("0");
            assert("0"@ =~= seq![dec_digit(0)]);
        }
        "0"
    } else if d == 1 {
        proof {
            reveal_strlit("1");
            assert("1"@ =~= seq![dec_digit(1)]);
        }
        "1"
    } else if d == 2 {
        proof {
            reveal_strlit("2");
            assert("2"@ =~= seq![dec_digit(2)]);
        }
        "2"
    } else if d == 3 {
        proof {
            reveal_strlit("3");
            assert("3"@ =~= seq![dec_digit(3)]);
        }
        "3"
    } else if d == 4 {
        proof {
            reveal_strlit("4");
            assert("4"@ =~= seq![dec_digit(4)]);
        }
        "4"
    } else if d == 5 {
        proof {
            reveal_strlit("5");
            assert("5"@ =~= seq![dec_digit(5)]);
        }
        "5"
    } else if d == 6 {
        proof {
            reveal_strlit("6");
            assert("6"@ =~= seq![dec_digit(6)]);
        }
        "6"
    } else if d == 7 {
        proof {
            reveal_strlit("7");
            assert("7"@ =~= seq![dec_digit(7)]);
        }
        "7"
    } else if d == 8 {
        proof {
            reveal_strlit("8");
            assert("8"@ =~= seq![dec_digit(8)]);
        }
        "8"
    } else {
        proof {
            reveal_strlit("9");
            assert("9"@ =~= seq![dec_digit(9)]);
        }
        "9"
    }
}

/// Renders a `u64` as its decimal numeral.
pub fn u64_to_dec(n: u64) -> (s: String)
    ensures
        s@ == dec_str(n as int),
    decreases n,
{
    if n < 10 {
        String::from_str(digit_str(n))
    } else {
        let mut s = u64_to_dec(n / 10);
        s.append(digit_str(n % 10));
        proof {
            assert(s@ =~= dec_str(n as int));
        }
        s
    }
}

/// Renders an `i64` as its decimal numeral, with a minus sign if negative.
pub fn i64_to_dec(n: i64) -> (s: String)
    ensures
        s@ == dec_str_int(n as int),
{
    if n >= 0 {
        u64_to_dec(n as u64)
    } else {
        let m: u64 = ((-(n + 1)) as u64) + 1;
        assert(m as int == -(n as int));
        let mut s = String::from_str("-");
        let digits = u64_to_dec(m);
        s.append(digits.as_str());
        proof {
            reveal_strlit("-");
            assert("-"@ =~= seq!['-']);
            assert(s@ =~= dec_str_int(n as int));
        }
        s
    }
}

/// Renders a `usize` as its decimal numeral.
pub fn usize_to_dec(n: usize) -> (s: String)
    ensures
        s@ == dec_str(n as int),
{
    u64_to_dec(n as u64)
}

// ---------------------------------------------------------------------------
// String escaping for the text rendering.
// ---------------------------------------------------------------------------

/// The character for one hexadecimal digit, lower case.
pub open spec fn hex_digit(d: int) -> char {
    if d < 10 {
        dec_digit(d)
    } else if d == 10 {
        'a'
    } else if d == 11 {
        'b'
    } else if d == 12 {
        'c'
    } else if d == 13 {
        'd'
    } else if d == 14 {
        'e'
    } else {
        'f'
    }
}

/// How one character appears inside a JSON string: quotes, backslashes and
/// the named control characters get a two-character escape, the remaining
/// control characters a `\u00..` escape, and everything else stands as it is.
pub open spec fn esc_char(c: char) -> Seq<char> {
    if c == '"' {
        seq!['\\', '"']
    } else if c == '\\' {
        seq!['\\', '\\']
    } else if c == '\u{8}' {
        seq!['\\', 'b']
    } else if c == '\u{c}' {
        seq!['\\', 'f']
    } else if c == '\n' {
        seq!['\\', 'n']
    } else if c == '\r' {
        seq!['\\', 'r']
    } else if c == '\t' {
        seq!['\\', 't']
    } else if (c as int) < 32 {
        seq!['\\', 'u', '0', '0', hex_digit((c as int) / 16), hex_digit((c as int) % 16)]
    } else {
        seq![c]
    }
}

/// A whole character sequence escaped for a JSON string.
pub open spec fn esc_str(s: Seq<char>) -> Seq<char>
    decreases s,
{
    if s.len() == 0 {
        Seq::empty()
    } else {
        esc_str(s.drop_last()) + esc_char(s.last())
    }
}

/// One lower-case hexadecimal digit as a string slice.
fn hex_str(d: u32) -> (r: &'static str)
    requires
        d < 16,
    ensures
        r@ == seq![hex_digit(d as int)],
{
    if d < 10 {
        digit_str(d as u64)
    } else if d == 10 {
        proof {
            reveal_strlit("a");
            assert("a"@ =~= seq![hex_digit(10)]);
        }
        "a"
    } else if d == 11 {
        proof {
            reveal_strlit("b");
            assert("b"@ =~= seq![hex_digit(11)]);
        }
        "b"
    } else if d == 12 {
        proof {
            reveal_strlit("c");
            assert("c"@ =~= seq![hex_digit(12)]);
        }
        "c"
    } else if d == 13 {
        proof {
            reveal_strlit("d");
            assert("d"@ =~= seq![hex_digit(13)]);
        }
        "d"
    } else if d == 14 {
        proof {
            reveal_strlit("e");
            assert("e"@ =~= seq![hex_digit(14)]);
        }
        "e"
    } else {
        proof {
            reveal_strlit("f");
            assert("f"@ =~= seq![hex_digit(15)]);
        }
        "f"
    }
}

/// Appends the escaped form of the character at position `i` of `s` to `out`.
fn append_esc_at(out: &mut String, s: &str, i: usize)
    requires
        i < s@.len(),
        i < usize::MAX,
    ensures
        final(out)@ == old(out)@ + esc_char(s@[i as int]),
{
    let c: char = s.get_char(i);
    let code: u32 = c as u32;
    if c == '"' {
        out.append("\\\"");
        proof {
            reveal_strlit("\\\"");
            assert("\\\""@ =~= esc_char('"'));
        }
    } else if c == '\\' {
        out.append("\\\\");
        proof {
            reveal_strlit("\\\\");
            assert("\\\\"@ =~= esc_char('\\'));
        }
    } else if code == 8 {
        out.append("\\b");
        proof {
            reveal_strlit("\\b");
            assert("\\b"@ =~= esc_char('\u{8}'));
        }
    } else if code == 12 {
        out.append("\\f");
        proof {
            reveal_strlit("\\f");
            assert("\\f"@ =~= esc_char('\u{c}'));
        }
    } else if c == '\n' {
        out.append("\\n");
        proof {
            reveal_strlit("\\n");
            assert("\\n"@ =~= esc_char('\n'));
        }
    } else if c == '\r' {
        out.append("\\r");
        proof {
            reveal_strlit("\\r");
            assert("\\r"@ =~= esc_char('\r'));
        }
    } else if c == '\t' {
        out.append("\\t");
        proof {
            reveal_strlit("\\t");
            assert("\\t"@ =~= esc_char('\t'));
        }
    } else if code < 32 {
        out.append("\\u00");
        out.append(hex_str(code / 16));
        out.append(hex_str(code % 16));
        proof {
            reveal_strlit("\\u00");
            assert("\\u00"@ =~= seq!['\\', 'u', '0', '0']);
            assert(final(out)@ =~= old(out)@ + esc_char(c));
        }
    } else {
        let piece = s.substring_char(i, i + 1);
        out.append(piece);
        proof {
            assert(piece@ =~= seq![c]);
            assert(final(out)@ =~= old(out)@ + esc_char(c));
        }
    }
}

/// Appends the escaped form of `s` to `out`.
fn append_escaped(out: &mut String, s: &str)
    ensures
        final(out)@ == old(out)@ + esc_str(s@),
{
    let len: usize = s.unicode_len();
    let mut i: usize = 0;
    proof {
        assert(s@.subrange(0, 0) =~= Seq::<char>::empty());
        assert(out@ =~= out@ + esc_str(s@.subrange(0, 0)));
    }
    while i < len
        invariant
            i <= len,
            len == s@.len(),
            out@ == old(out)@ + esc_str(s@.subrange(0, i as int)),
        decreases len - i,
    {
        append_esc_at(out, s, i);
        proof {
            assert(s@.subrange(0, i + 1).drop_last() =~= s@.subrange(0, i as int));
            assert(s@.subrange(0, i + 1).last() == s@[i as int]);
            assert(out@ =~= old(out)@ + esc_str(s@.subrange(0, i + 1)));
        }
        i = i + 1;
    }
    proof {
        assert(s@.subrange(0, len as int) =~= s@);
    }
}

// ---------------------------------------------------------------------------
// The compact text rendering.
// ---------------------------------------------------------------------------

/// The compact text of a JSON value: no spaces, object entries in the order
/// in which they stand in the value.
pub open spec fn json_text(m: JsonModel) -> Seq<char>
    decreases m,
{
    match m {
        JsonModel::Num(n) => dec_str_int(n),
        JsonModel::Bool(b) => if b {
            seq!['t', 'r', 'u', 'e']
        } else {
            seq!['f', 'a', 'l', 's', 'e']
        },
        JsonModel::Str(s) => seq!['"'] + esc_str(s) + seq!['"'],
        JsonModel::Arr(items) => seq!['['] + arr_text(items) + seq![']'],
        JsonModel::Obj(entries) => seq!['{'] + obj_text(entries) + seq!['}'],
    }
}

/// The comma-separated renderings of the elements of an array.
pub open spec fn arr_text(items: Seq<JsonModel>) -> Seq<char>
    decreases items,
{
    if items.len() == 0 {
        Seq::empty()
    } else if items.len() == 1 {
        json_text(items[0])
    } else {
        arr_text(items.drop_last()) + seq![','] + json_text(items.last())
    }
}

/// The comma-separated `"key":value` renderings of the entries of an object.
pub open spec fn obj_text(entries: Seq<(Seq<char>, JsonModel)>) -> Seq<char>
    decreases entries,
{
    if entries.len() == 0 {
        Seq::empty()
    } else if entries.len() == 1 {
        seq!['"'] + esc_str(entries[0].0) + seq!['"', ':'] + json_text(entries[0].1)
    } else {
        obj_text(entries.drop_last()) + seq![','] + seq!['"'] + esc_str(entries.last().0) + seq![
            '"',
            ':',
        ] + json_text(entries.last().1)
    }
}

/// Appends the compact text of `j` to `out`.
fn render(j: &Json, out: &mut String)
    ensures
        final(out)@ == old(out)@ + json_text(j@),
    decreases *j,
{
    match j {
        Json::I64(n) => {
            let d = i64_to_dec(*n);
            out.append(d.as_str());
        },
        Json::Boolean(b) => {
            if *b {
                out.append("true");
                proof {
                    reveal_strlit("true");
                    assert("true"@ =~= seq!['t', 'r', 'u', 'e']);
                }
            } else {
                out.append("false");
                proof {
                    reveal_strlit("false");
                    assert("false"@ =~= seq!['f', 'a', 'l', 's', 'e']);
                }
            }
        },
        Json::Str(s) => {
            out.append("\"");
            append_escaped(out, s.as_str());
            out.append("\"");
            proof {
                reveal_strlit("\"");
                assert("\""@ =~= seq!['"']);
                assert(final(out)@ =~= old(out)@ + json_text(j@));
            }
        },
        Json::Array(items) => {
            out.append("[");
            proof {
                reveal_strlit("[");
                assert("["@ =~= seq!['[']);
            }
            let ghost out0: Seq<char> = old(out)@;
            let mut i: usize = 0;
            proof {
                assert(items@.subrange(0, 0) =~= Seq::<Json>::empty());
                assert(out@ =~= out0 + seq!['['] + arr_text(jsons_view(items@.subrange(0, 0))));
            }
            while i < items.len()
                invariant
                    *j == Json::Array(*items),
                    i <= items@.len(),
                    out@ == out0 + seq!['['] + arr_text(jsons_view(items@.subrange(0, i as int))),
                decreases items@.len() - i,
            {
                if i > 0 {
                    out.append(",");
                    proof {
                        reveal_strlit(",");
                        assert(","@ =~= seq![',']);
                    }
                }
                proof {
                    assert(decreases_to!(*j => (*j)->Array_0));
                    assert((*j)->Array_0 == *items);
                    assert(decreases_to!(*items => items@));
                    assert(decreases_to!(items@ => items@[i as int]));
                    assert(decreases_to!(*j => items@[i as int]));
                }
                render(&items[i], out);
                proof {
                    let pre = items@.subrange(0, i as int);
                    let cur = items@.subrange(0, i + 1);
                    assert(cur.drop_last() =~= pre);
                    assert(cur.last() == items@[i as int]);
                    lemma_jsons_view_len(pre);
                    lemma_jsons_view_len(cur);
                    assert(jsons_view(cur).drop_last() =~= jsons_view(pre));
                    assert(jsons_view(cur).last() == json_view(items@[i as int]));
                    assert(out@ =~= out0 + seq!['['] + arr_text(jsons_view(cur)));
                }
                i = i + 1;
            }
            out.append("]");
            proof {
                reveal_strlit("]");
                assert("]"@ =~= seq![']']);
                assert(items@.subrange(0, items@.len() as int) =~= items@);
                assert(final(out)@ =~= old(out)@ + json_text(j@));
            }
        },
        Json::Object(entries) => {
            out.append("{");
            proof {
                reveal_strlit("{");
                assert("{"@ =~= seq!['{']);
            }
            let ghost out0: Seq<char> = old(out)@;
            let mut i: usize = 0;
            proof {
                assert(entries@.subrange(0, 0) =~= Seq::<(String, Json)>::empty());
                assert(out@ =~= out0 + seq!['{'] + obj_text(entries_view(entries@.subrange(0, 0))));
            }
            while i < entries.len()
                invariant
                    *j == Json::Object(*entries),
                    i <= entries@.len(),
                    out@ == out0 + seq!['{'] + obj_text(
                        entries_view(entries@.subrange(0, i as int)),
                    ),
                decreases entries@.len() - i,
            {
                if i > 0 {
                    out.append(",");
                    proof {
                        reveal_strlit(",");
                        assert(","@ =~= seq![',']);
                    }
                }
                out.append("\"");
                append_escaped(out, entries[i].0.as_str());
                out.append("\":");
                proof {
                    assert(decreases_to!(*j => (*j)->Object_0));
                    assert((*j)->Object_0 == *entries);
                    assert(decreases_to!(*entries => entries@));
                    assert(decreases_to!(entries@ => entries@[i as int]));
                    assert(decreases_to!(entries@[i as int] => entries@[i as int].1));
                    assert(decreases_to!(*j => entries@[i as int].1));
                }
                render(&entries[i].1, out);
                proof {
                    reveal_strlit("\"");
                    assert("\""@ =~= seq!['"']);
                    reveal_strlit("\":");
                    assert("\":"@ =~= seq!['"', ':']);
                    let pre = entries@.subrange(0, i as int);
                    let cur = entries@.subrange(0, i + 1);
                    assert(cur.drop_last() =~= pre);
                    assert(cur.last() == entries@[i as int]);
                    lemma_entries_view_len(pre);
                    lemma_entries_view_len(cur);
                    assert(entries_view(cur).drop_last() =~= entries_view(pre));
                    assert(entries_view(cur).last() == (
                        entries@[i as int].0@,
                        json_view(entries@[i as int].1),
                    ));
                    assert(out@ =~= out0 + seq!['{'] + obj_text(entries_view(cur)));
                }
                i = i + 1;
            }
            out.append("}");
            proof {
                reveal_strlit("}");
                assert("}"@ =~= seq!['}']);
                assert(entries@.subrange(0, entries@.len() as int) =~= entries@);
                assert(final(out)@ =~= old(out)@ + json_text(j@));
            }
        },
    }
}

/// Looks a key up among object entries, front to back.
pub open spec fn obj_lookup(entries: Seq<(Seq<char>, JsonModel)>, k: Seq<char>) -> Option<
    JsonModel,
>
    decreases entries,
{
    if entries.len() == 0 {
        Option::None
    } else if entries[0].0 == k {
        Option::Some(entries[0].1)
    } else {
        obj_lookup(entries.drop_first(), k)
    }
}

proof fn lemma_obj_lookup_found(s: Seq<(String, Json)>, k: Seq<char>, i: int)
    requires
        0 <= i < s.len(),
        forall|j: int| 0 <= j < i ==> s[j].0@ != k,
        s[i].0@ == k,
    ensures
        obj_lookup(entries_view(s), k) == Option::Some(json_view(s[i].1)),
    decreases i,
{
    lemma_entries_view_len(s);
    if i == 0 {
    } else {
        lemma_entries_view_len(s.drop_first());
        assert(entries_view(s).drop_first() =~= entries_view(s.drop_first()));
        lemma_obj_lookup_found(s.drop_first(), k, i - 1);
    }
}

proof fn lemma_obj_lookup_missing(s: Seq<(String, Json)>, k: Seq<char>)
    requires
        forall|j: int| 0 <= j < s.len() ==> s[j].0@ != k,
    ensures
        obj_lookup(entries_view(s), k) is None,
    decreases s.len(),
{
    lemma_entries_view_len(s);
    if s.len() > 0 {
        lemma_entries_view_len(s.drop_first());
        assert(entries_view(s).drop_first() =~= entries_view(s.drop_first()));
        lemma_obj_lookup_missing(s.drop_first(), k);
    }
}

impl Json {
    /// The compact text of this value: no spaces, object entries in the
    /// order in which they stand in the value.
    pub fn to_string(&self) -> (s: String)
        ensures
            s@ == json_text(self@),
    {
        let mut out = String::new();
        render(self, &mut out);
        proof {
            assert(out@ =~= json_text(self@));
        }
        out
    }

    /// Looks `key` up in an object; yields nothing on any other shape.
    pub fn get<'a>(&'a self, key: &str) -> (r: Option<&'a Json>)
        ensures
            match *self {
                Json::Object(entries) => match r {
                    Option::Some(v) => obj_lookup(entries_view(entries@), key@) == Option::Some(
                        json_view(*v),
                    ),
                    Option::None => obj_lookup(entries_view(entries@), key@) is None,
                },
                _ => r is None,
            },
    {
        match self {
            Json::Object(entries) => {
                let mut i: usize = 0;
                while i < entries.len()
                    invariant
                        *self == Json::Object(*entries),
                        i <= entries@.len(),
                        forall|j: int| 0 <= j < i ==> entries@[j].0@ != key@,
                    decreases entries@.len() - i,
                {
                    if str_lex_eq(entries[i].0.as_str(), key) {
                        proof {
                            lemma_obj_lookup_found(entries@, key@, i as int);
                        }
                        return Option::Some(&entries[i].1);
                    }
                    i = i + 1;
                }
                proof {
                    lemma_obj_lookup_missing(entries@, key@);
                }
                Option::None
            },
            _ => Option::None,
        }
    }
}

} // verus!
