use vstd::prelude::*;
use crate::decimal::push_char;

verus! {

broadcast use vstd::utf8::char_is_scalar;

/// The lowercase hexadecimal digit character for `d`, for `0 <= d <= 15`.
pub open spec fn hex_char(d: int) -> char {
    if d == 0 { '0' }
    else if d == 1 { '1' }
    else if d == 2 { '2' }
    else if d == 3 { '3' }
    else if d == 4 { '4' }
    else if d == 5 { '5' }
    else if d == 6 { '6' }
    else if d == 7 { '7' }
    else if d == 8 { '8' }
    else if d == 9 { '9' }
    else if d == 10 { 'a' }
    else if d == 11 { 'b' }
    else if d == 12 { 'c' }
    else if d == 13 { 'd' }
    else if d == 14 { 'e' }
    else { 'f' }
}

/// Whether `c` is a lowercase hexadecimal digit character.
pub open spec fn is_hex_lower(c: char) -> bool {
    c == '0' || c == '1' || c == '2' || c == '3' || c == '4' || c == '5' || c == '6' || c == '7'
        || c == '8' || c == '9' || c == 'a' || c == 'b' || c == 'c' || c == 'd' || c == 'e'
        || c == 'f'
}

/// The value of a lowercase hexadecimal digit character; characters
/// outside that set get the out-of-range marker 16.
pub open spec fn hex_val(c: char) -> u32 {
    if c == '0' { 0 }
    else if c == '1' { 1 }
    else if c == '2' { 2 }
    else if c == '3' { 3 }
    else if c == '4' { 4 }
    else if c == '5' { 5 }
    else if c == '6' { 6 }
    else if c == '7' { 7 }
    else if c == '8' { 8 }
    else if c == '9' { 9 }
    else if c == 'a' { 10 }
    else if c == 'b' { 11 }
    else if c == 'c' { 12 }
    else if c == 'd' { 13 }
    else if c == 'e' { 14 }
    else if c == 'f' { 15 }
    else { 16 }
}

/// Basic facts about the hexadecimal digit characters: none is a quote
/// or a backslash, distinct values give distinct characters, and
/// `hex_val` inverts `hex_char`.
proof fn lemma_hex()
    ensures
        forall|d: int| 0 <= d < 16 ==> #[trigger] hex_char(d) != '"',
        forall|d: int| 0 <= d < 16 ==> #[trigger] hex_char(d) != '\\',
        forall|d1: int, d2: int|
            0 <= d1 < 16 && 0 <= d2 < 16 && #[trigger] hex_char(d1) == #[trigger] hex_char(d2)
                ==> d1 == d2,
        forall|d: int| 0 <= d < 16 ==> is_hex_lower(#[trigger] hex_char(d)),
        forall|d: int| 0 <= d < 16 ==> hex_val(#[trigger] hex_char(d)) == d,
{
}

/// How one character is written inside a JSON string literal: a
/// backslash is doubled; a quote or a control character becomes a
/// six-character `\u00..` escape; anything else stands as itself.
pub open spec fn esc_char(c: char) -> Seq<char> {
    if c == '\\' {
        seq!['\\', '\\']
    } else if c == '"' || (c as u32) < 32 {
        seq!['\\', 'u', '0', '0', hex_char((c as u32 / 16) as int), hex_char((c as u32 % 16) as int)]
    } else {
        seq![c]
    }
}

/// The JSON string-literal body for `s`: each character escaped in turn.
pub open spec fn esc(s: Seq<char>) -> Seq<char>
    decreases s.len(),
{
    if s.len() == 0 {
        Seq::<char>::empty()
    } else {
        esc_char(s[0]) + esc(s.drop_first())
    }
}

/// Escaping distributes over concatenation.
proof fn lemma_esc_append(a: Seq<char>, b: Seq<char>)
    ensures
        esc(a + b) == esc(a) + esc(b),
    decreases a.len(),
{
    if a.len() == 0 {
        assert(a + b =~= b);
        assert(esc(a) + esc(b) =~= esc(b));
    } else {
        assert((a + b).drop_first() =~= a.drop_first() + b);
        lemma_esc_append(a.drop_first(), b);
        assert((a + b)[0] == a[0]);
        assert(esc(a + b) =~= esc(a) + esc(b));
    }
}

/// Escaping one more character appends its escape.
proof fn lemma_esc_push(a: Seq<char>, c: char)
    ensures
        esc(a.push(c)) == esc(a) + esc_char(c),
{
    assert(a.push(c) =~= a + seq![c]);
    lemma_esc_append(a, seq![c]);
    assert(seq![c].drop_first() =~= Seq::<char>::empty());
    assert(esc(seq![c]) == esc_char(seq![c][0]) + esc(seq![c].drop_first()));
    assert(seq![c][0] == c);
    assert(esc(Seq::<char>::empty()) =~= Seq::<char>::empty());
    assert(esc_char(c) + Seq::<char>::empty() =~= esc_char(c));
    assert(esc(seq![c]) == esc_char(c));
}

/// An escaped string body never contains a bare quote.
pub proof fn lemma_esc_no_quote(s: Seq<char>)
    ensures
        forall|i: int| 0 <= i < esc(s).len() ==> esc(s)[i] != '"',
    decreases s.len(),
{
    lemma_hex();
    if s.len() > 0 {
        lemma_esc_no_quote(s.drop_first());
        assert forall|i: int| 0 <= i < esc(s).len() implies esc(s)[i] != '"' by {
            let head = esc_char(s[0]);
            if i < head.len() {
                assert(esc(s)[i] == head[i]);
            } else {
                assert(esc(s)[i] == esc(s.drop_first())[i - head.len()]);
            }
        }
    }
}

/// Splits an escaped range into the escape of its first character and
/// the escape of the rest.
proof fn lemma_esc_head(v: Seq<char>, p: int, e: int, rem: Seq<char>)
    requires
        0 <= p < e <= v.len(),
        v.subrange(p, e) == esc(rem),
    ensures
        rem.len() > 0,
        p + esc_char(rem[0]).len() <= e,
        v.subrange(p + esc_char(rem[0]).len(), e) == esc(rem.drop_first()),
        forall|i: int| 0 <= i < esc_char(rem[0]).len() ==> v[p + i] == esc_char(rem[0])[i],
{
    if rem.len() == 0 {
        assert(esc(rem).len() == 0);
        assert(v.subrange(p, e).len() == e - p);
        assert(false);
    }
    let head = esc_char(rem[0]);
    let tail = esc(rem.drop_first());
    assert(esc(rem) == head + tail);
    assert(esc(rem).len() == e - p) by {
        assert(v.subrange(p, e).len() == e - p);
    }
    assert(head.len() + tail.len() == e - p);
    assert forall|i: int| 0 <= i < tail.len() implies v.subrange(p + head.len(), e)[i]
        == tail[i] by {
        assert((head + tail)[head.len() + i] == tail[i]);
        assert(v.subrange(p, e)[head.len() + i] == v[p + head.len() + i]);
        assert(v.subrange(p + head.len(), e)[i] == v[p + head.len() + i]);
    }
    assert(v.subrange(p + head.len(), e) =~= tail);
    assert forall|i: int| 0 <= i < head.len() implies v[p + i] == head[i] by {
        assert(v.subrange(p, e)[i] == v[p + i]);
        assert((head + tail)[i] == head[i]);
    }
}

/// Equal concatenations with the same left part have the same right part.
proof fn lemma_concat_cancel(x: Seq<char>, y: Seq<char>, z: Seq<char>)
    requires
        x + y == x + z,
    ensures
        y == z,
{
    assert((x + y).len() == x.len() + y.len());
    assert((x + z).len() == x.len() + z.len());
    assert(y.len() == z.len());
    assert forall|i: int| 0 <= i < y.len() implies y[i] == z[i] by {
        assert((x + y)[x.len() + i] == y[i]);
        assert((x + z)[x.len() + i] == z[i]);
    }
    assert(y =~= z);
}

/// For values an escape can carry, the two hexadecimal digits pin the
/// value down.
proof fn lemma_escape_code_digits(ia: u32, ib: u32)
    requires
        ia < 32 || ia == 34,
        ib < 32 || ib == 34,
        ia / 16 == ib / 16,
        ia % 16 == ib % 16,
    ensures
        ia == ib,
{
    assert(ia == 16 * (ia / 16) + ia % 16);
    assert(ib == 16 * (ib / 16) + ib % 16);
}

/// Two strings with the same escaped form are the same string.
pub proof fn lemma_esc_injective(a: Seq<char>, b: Seq<char>)
    requires
        esc(a) == esc(b),
    ensures
        a == b,
    decreases a.len(),
{
    lemma_hex();
    if a.len() == 0 {
        if b.len() > 0 {
            assert(esc(b).len() >= esc_char(b[0]).len());
        }
        assert(a =~= b);
    } else if b.len() == 0 {
        assert(esc(a).len() >= esc_char(a[0]).len());
        assert(a =~= b);
    } else {
        let ea = esc_char(a[0]);
        let eb = esc_char(b[0]);
        let e = esc(a);
        assert(e == ea + esc(a.drop_first()));
        assert(e == eb + esc(b.drop_first()));
        assert(e[0] == ea[0] && e[0] == eb[0]);
        if ea.len() >= 2 {
            assert(e[1] == ea[1]);
        }
        if eb.len() >= 2 {
            assert(e[1] == eb[1]);
        }
        if a[0] == '\\' {
            assert(b[0] == '\\') by {
                if b[0] != '\\' && (b[0] == '"' || (b[0] as u32) < 32) {
                    assert(e[1] == 'u' && e[1] == '\\');
                } else if b[0] != '\\' {
                    assert(e[0] == b[0] && e[0] == '\\');
                }
            }
        } else if a[0] == '"' || (a[0] as u32) < 32 {
            assert(e[1] == 'u');
            assert(b[0] != '\\') by {
                if b[0] == '\\' {
                    assert(e[1] == '\\');
                }
            }
            assert(b[0] == '"' || (b[0] as u32) < 32) by {
                if b[0] != '"' && (b[0] as u32) >= 32 {
                    assert(e[0] == b[0]);
                    assert(e[0] == '\\');
                }
            }
            let ia = a[0] as u32;
            let ib = b[0] as u32;
            assert(ia < 32 || ia == 34);
            assert(ib < 32 || ib == 34);
            assert(0 <= ia / 16 < 16 && 0 <= ia % 16 < 16 && 0 <= ib / 16 < 16 && 0 <= ib % 16
                < 16) by (nonlinear_arith)
                requires
                    0 <= ia < 35,
                    0 <= ib < 35,
            ;
            assert(e[4] == hex_char((ia / 16) as int) && e[4] == hex_char((ib / 16) as int));
            assert(e[5] == hex_char((ia % 16) as int) && e[5] == hex_char((ib % 16) as int));
            assert(ia / 16 == ib / 16);
            assert(ia % 16 == ib % 16);
            lemma_escape_code_digits(ia, ib);
            vstd::utf8::char_u32_cast(a[0], ia);
            vstd::utf8::char_u32_cast(b[0], ib);
            assert(a[0] == b[0]);
        } else {
            assert(e[0] == a[0]);
            assert(b[0] == a[0]) by {
                if b[0] == '\\' || b[0] == '"' || (b[0] as u32) < 32 {
                    assert(eb[0] == '\\');
                    assert(a[0] == '\\');
                } else {
                    assert(eb[0] == b[0]);
                }
            }
        }
        assert(a[0] == b[0]);
        assert(ea == eb);
        lemma_concat_cancel(ea, esc(a.drop_first()), esc(b.drop_first()));
        lemma_esc_injective(a.drop_first(), b.drop_first());
        assert(a.len() == b.len());
        assert forall|i: int| 0 <= i < a.len() implies a[i] == b[i] by {
            if i > 0 {
                assert(a.drop_first()[i - 1] == a[i]);
                assert(b.drop_first()[i - 1] == b[i]);
            }
        }
        assert(a =~= b);
    }
}

/// The hexadecimal digit character for `d`, as a value.
fn hex_char_of(d: u32) -> (c: char)
    requires
        d < 16,
    ensures
        c == hex_char(d as int),
{
    if d == 0 { '0' }
    else if d == 1 { '1' }
    else if d == 2 { '2' }
    else if d == 3 { '3' }
    else if d == 4 { '4' }
    else if d == 5 { '5' }
    else if d == 6 { '6' }
    else if d == 7 { '7' }
    else if d == 8 { '8' }
    else if d == 9 { '9' }
    else if d == 10 { 'a' }
    else if d == 11 { 'b' }
    else if d == 12 { 'c' }
    else if d == 13 { 'd' }
    else if d == 14 { 'e' }
    else { 'f' }
}

/// The value of a lowercase hexadecimal digit character, when it is one.
fn hex_val_of(c: char) -> (r: Option<u32>)
    ensures
        match r {
            Some(d) => d < 16 && hex_char(d as int) == c && is_hex_lower(c) && d == hex_val(c),
            None => !is_hex_lower(c),
        },
{
    if c == '0' { Some(0) }
    else if c == '1' { Some(1) }
    else if c == '2' { Some(2) }
    else if c == '3' { Some(3) }
    else if c == '4' { Some(4) }
    else if c == '5' { Some(5) }
    else if c == '6' { Some(6) }
    else if c == '7' { Some(7) }
    else if c == '8' { Some(8) }
    else if c == '9' { Some(9) }
    else if c == 'a' { Some(10) }
    else if c == 'b' { Some(11) }
    else if c == 'c' { Some(12) }
    else if c == 'd' { Some(13) }
    else if c == 'e' { Some(14) }
    else if c == 'f' { Some(15) }
    else { None }
}

/// The character whose code is `val`, for the codes an escape can carry.
fn ctrl_char_of(val: u32) -> (c: char)
    requires
        val < 32 || val == 34,
    ensures
        c as u32 == val,
{
    if val == 0 { '\u{00}' }
    else if val == 1 { '\u{01}' }
    else if val == 2 { '\u{02}' }
    else if val == 3 { '\u{03}' }
    else if val == 4 { '\u{04}' }
    else if val == 5 { '\u{05}' }
    else if val == 6 { '\u{06}' }
    else if val == 7 { '\u{07}' }
    else if val == 8 { '\u{08}' }
    else if val == 9 { '\u{09}' }
    else if val == 10 { '\u{0a}' }
    else if val == 11 { '\u{0b}' }
    else if val == 12 { '\u{0c}' }
    else if val == 13 { '\u{0d}' }
    else if val == 14 { '\u{0e}' }
    else if val == 15 { '\u{0f}' }
    else if val == 16 { '\u{10}' }
    else if val == 17 { '\u{11}' }
    else if val == 18 { '\u{12}' }
    else if val == 19 { '\u{13}' }
    else if val == 20 { '\u{14}' }
    else if val == 21 { '\u{15}' }
    else if val == 22 { '\u{16}' }
    else if val == 23 { '\u{17}' }
    else if val == 24 { '\u{18}' }
    else if val == 25 { '\u{19}' }
    else if val == 26 { '\u{1a}' }
    else if val == 27 { '\u{1b}' }
    else if val == 28 { '\u{1c}' }
    else if val == 29 { '\u{1d}' }
    else if val == 30 { '\u{1e}' }
    else if val == 31 { '\u{1f}' }
    else { '"' }
}

/// The JSON string-literal body for `s`, built character by character.
pub fn escape_str(s: &str) -> (r: String)
    ensures
        r@ == esc(s@),
{
    let len = s.unicode_len();
    let mut out = String::new();
    let mut i: usize = 0;
    while i < len
        invariant
            i <= len,
            len == s@.len(),
            out@ == esc(s@.take(i as int)),
        decreases len - i,
    {
        let c = s.get_char(i);
        if c == '\\' {
            push_char(&mut out, '\\');
            push_char(&mut out, '\\');
            assert(out@ =~= esc(s@.take(i as int)) + esc_char(c));
        } else if c == '"' || (c as u32) < 32 {
            push_char(&mut out, '\\');
            push_char(&mut out, 'u');
            push_char(&mut out, '0');
            push_char(&mut out, '0');
            let v: u32 = c as u32;
            push_char(&mut out, hex_char_of(v / 16));
            push_char(&mut out, hex_char_of(v % 16));
            assert(out@ =~= esc(s@.take(i as int)) + esc_char(c));
        } else {
            push_char(&mut out, c);
            assert(out@ =~= esc(s@.take(i as int)) + esc_char(c));
        }
        proof {
            assert(s@.take(i + 1) =~= s@.take(i as int).push(s@[i as int]));
            lemma_esc_push(s@.take(i as int), s@[i as int]);
        }
        i = i + 1;
    }
    proof {
        assert(s@.take(len as int) =~= s@);
    }
    out
}

/// In a well-formed escaped range, a backslash followed by `u` opens a
/// six-character escape of a quote or control character.
proof fn lemma_u_form(v: Seq<char>, p: int, e: int, rem: Seq<char>)
    requires
        0 <= p < e <= v.len(),
        v.subrange(p, e) == esc(rem),
        v[p] == '\\',
        v[p + 1] == 'u',
    ensures
        rem.len() > 0,
        (rem[0] as u32) < 32 || (rem[0] as u32) == 34,
        p + 6 <= e,
        v[p + 2] == '0',
        v[p + 3] == '0',
        v[p + 4] == hex_char((rem[0] as u32 / 16) as int),
        v[p + 5] == hex_char((rem[0] as u32 % 16) as int),
        v.subrange(p + 6, e) == esc(rem.drop_first()),
{
    lemma_esc_head(v, p, e, rem);
    let head = esc_char(rem[0]);
    assert(v[p] == head[0]);
    assert(rem[0] != '\\') by {
        if rem[0] == '\\' {
            assert(head[1] == '\\');
            assert(v[p + 1] == head[1]);
        }
    }
    assert(rem[0] == '"' || (rem[0] as u32) < 32) by {
        if rem[0] != '"' && (rem[0] as u32) >= 32 {
            assert(head[0] == rem[0]);
        }
    }
    assert((rem[0] as u32) < 32 || (rem[0] as u32) == 34);
    assert(head.len() == 6);
}

/// Whether the characters at `p` fail to open any form `esc_char`
/// produces: a lone backslash at the end, a backslash before anything
/// but another backslash or a `u`, a truncated or ill-formed `\u00..`
/// escape, one whose code no escape carries, or a bare control
/// character.
spec fn malformed_opening(v: Seq<char>, p: int) -> bool {
    let n = v.len() as int;
    let c = v[p];
    ||| (c == '\\' && p + 1 >= n)
    ||| (c == '\\' && p + 1 < n && v[p + 1] != '\\' && v[p + 1] != 'u')
    ||| (c == '\\' && p + 1 < n && v[p + 1] == 'u' && (p + 6 > n || v[p + 2] != '0' || v[p + 3]
        != '0' || !is_hex_lower(v[p + 4]) || !is_hex_lower(v[p + 5]) || !(hex_val(v[p + 4]) * 16
        + hex_val(v[p + 5]) < 32 || hex_val(v[p + 4]) * 16 + hex_val(v[p + 5]) == 34)))
    ||| (c != '\\' && c != '"' && (c as u32) < 32)
}

/// When the scan stands at the input's end, or at a position that opens
/// no well-formed escape, no escaped body runs from `pos` to a closing
/// quote: such a body would have to continue through `p` with one of
/// the forms `esc_char` produces.
proof fn lemma_stuck_at(v: Seq<char>, pos: int, p: int)
    requires
        0 <= pos <= p <= v.len(),
        forall|t: Seq<char>, e: int|
            #![trigger esc(t), v.subrange(pos, e)]
            (pos <= e < v.len() && v[e] == '"' && v.subrange(pos, e) == esc(t)) ==> (p <= e && (
            exists|rem: Seq<char>| v.subrange(p, e) == #[trigger] esc(rem))),
        p < v.len() ==> v[p] != '"',
        p < v.len() ==> malformed_opening(v, p),
    ensures
        forall|t: Seq<char>, e: int|
            #![trigger esc(t), v.subrange(pos, e)]
            (pos <= e < v.len() && v[e] == '"') ==> v.subrange(pos, e) != esc(t),
{
    lemma_hex();
    assert forall|t: Seq<char>, e: int|
        #![trigger esc(t), v.subrange(pos, e)]
        (pos <= e < v.len() && v[e] == '"') implies v.subrange(pos, e) != esc(t) by {
        if v.subrange(pos, e) == esc(t) {
            assert(p <= e);
            assert(p < v.len());
            assert(p < e);
            let rem = choose|rem: Seq<char>| v.subrange(p, e) == #[trigger] esc(rem);
            lemma_esc_head(v, p, e, rem);
            let head = esc_char(rem[0]);
            assert(v[p] == head[0]);
            if v[p] == '\\' {
                assert(head.len() >= 2);
                assert(v[p + 1] == head[1]);
                assert(head[1] == '\\' || head[1] == 'u');
                assert(p + 1 < e);
                if v[p + 1] == 'u' {
                    lemma_u_form(v, p, e, rem);
                    let a = rem[0] as u32;
                    assert(0 <= a / 16 < 16 && 0 <= a % 16 < 16) by (nonlinear_arith)
                        requires
                            0 <= a < 35,
                    ;
                    assert(is_hex_lower(v[p + 4]) && hex_val(v[p + 4]) == a / 16);
                    assert(is_hex_lower(v[p + 5]) && hex_val(v[p + 5]) == a % 16);
                    assert(a == 16 * (a / 16) + a % 16);
                    assert(hex_val(v[p + 4]) * 16 + hex_val(v[p + 5]) == a);
                    assert(!malformed_opening(v, p));
                } else {
                    assert(rem[0] == '\\') by {
                        if rem[0] != '\\' {
                            assert(head[1] == 'u');
                        }
                    }
                    assert(!malformed_opening(v, p));
                }
            } else {
                assert(rem[0] == v[p] && (rem[0] as u32) >= 32) by {
                    if rem[0] == '\\' || rem[0] == '"' || (rem[0] as u32) < 32 {
                        assert(head[0] == '\\');
                    }
                }
                assert(!malformed_opening(v, p));
            }
            assert(false);
        }
    }
}

/// Reads an escaped string body out of `v`, starting at `pos` and ending
/// just before the first closing quote. Nothing is returned when no
/// closing quote follows a well-formed body: then no string at all has
/// its escaped form ending at a quote there.
pub(crate) fn parse_escaped(v: &Vec<char>, pos: usize) -> (r: Option<(String, usize)>)
    requires
        pos <= v@.len(),
    ensures
        match r {
            Some(te) => {
                &&& pos <= te.1 < v@.len()
                &&& v@.subrange(pos as int, te.1 as int) == esc(te.0@)
                &&& v@[te.1 as int] == '"'
            },
            None => forall|t: Seq<char>, e: int|
                #![trigger esc(t), v@.subrange(pos as int, e)]
                (pos <= e < v@.len() && v@[e] == '"') ==> v@.subrange(pos as int, e) != esc(t),
        },
{
    let n = v.len();
    let mut p = pos;
    let mut acc = String::new();
    proof {
        assert(v@.subrange(pos as int, pos as int) =~= Seq::<char>::empty());
        assert(esc(Seq::<char>::empty()) =~= Seq::<char>::empty());
    }
    loop
        invariant
            pos <= p <= n,
            n == v@.len(),
            v@.subrange(pos as int, p as int) == esc(acc@),
            forall|t: Seq<char>, e: int|
                #![trigger esc(t), v@.subrange(pos as int, e)]
                (pos <= e < n && v@[e] == '"' && v@.subrange(pos as int, e) == esc(t)) ==> (p <= e
                    && (exists|rem: Seq<char>| v@.subrange(p as int, e) == #[trigger] esc(rem))),
        decreases n - p,
    {
        if p >= n {
            proof {
                lemma_stuck_at(v@, pos as int, p as int);
            }
            return None;
        }
        let c = v[p];
        if c == '"' {
            return Some((acc, p));
        }
        proof {
            assert forall|t: Seq<char>, e: int|
                (pos <= e < n && v@[e] == '"' && v@.subrange(pos as int, e) == esc(t)) implies p
                < e by {
                assert(p <= e);
                if p == e {
                    assert(v@[e] == c);
                }
            }
        }
        if c == '\\' {
            if p + 1 >= n {
                proof {
                    lemma_stuck_at(v@, pos as int, p as int);
                }
                return None;
            }
            let c2 = v[p + 1];
            if c2 == '\\' {
                let ghost acc0 = acc@;
                push_char(&mut acc, '\\');
                proof {
                    lemma_esc_push(acc0, '\\');
                    assert(acc@ == acc0.push('\\'));
                    assert(esc(acc@) == esc(acc0) + esc_char('\\'));
                    assert(esc_char('\\') =~= seq!['\\', '\\']);
                    assert(v@.subrange(pos as int, (p + 2) as int) =~= v@.subrange(
                        pos as int,
                        p as int,
                    ) + seq!['\\', '\\']);
                    assert(v@.subrange(pos as int, (p + 2) as int) == esc(acc@));
                    assert forall|t: Seq<char>, e: int|
                        #![trigger esc(t), v@.subrange(pos as int, e)]
                        (pos <= e < n && v@[e] == '"' && v@.subrange(pos as int, e) == esc(t))
                        implies (p + 2 <= e && (exists|rem2: Seq<char>|
                        v@.subrange((p + 2) as int, e) == #[trigger] esc(rem2))) by {
                        let rem = choose|rem: Seq<char>|
                            v@.subrange(p as int, e) == #[trigger] esc(rem);
                        lemma_esc_head(v@, p as int, e, rem);
                        let head = esc_char(rem[0]);
                        assert(v@[p as int] == head[0] && head[0] == '\\');
                        assert(head.len() >= 2);
                        assert(v@[p + 1] == head[1]);
                        assert(rem[0] == '\\') by {
                            if rem[0] != '\\' {
                                assert(head[1] == 'u');
                            }
                        }
                        assert(head.len() == 2);
                        assert(v@.subrange((p + 2) as int, e) == esc(rem.drop_first()));
                    }
                }
                p = p + 2;
            } else if c2 == 'u' {
                if n - p < 6 {
                    proof {
                        lemma_stuck_at(v@, pos as int, p as int);
                    }
                    return None;
                }
                let c3 = v[p + 2];
                let c4 = v[p + 3];
                let h1 = v[p + 4];
                let h2 = v[p + 5];
                if c3 != '0' || c4 != '0' {
                    proof {
                        lemma_stuck_at(v@, pos as int, p as int);
                    }
                    return None;
                }
                let d1 = match hex_val_of(h1) {
                    Some(d) => d,
                    None => {
                        proof {
                            lemma_stuck_at(v@, pos as int, p as int);
                        }
                        return None;
                    },
                };
                let d2 = match hex_val_of(h2) {
                    Some(d) => d,
                    None => {
                        proof {
                            lemma_stuck_at(v@, pos as int, p as int);
                        }
                        return None;
                    },
                };
                let val = d1 * 16 + d2;
                if !(val < 32 || val == 34) {
                    proof {
                        lemma_stuck_at(v@, pos as int, p as int);
                    }
                    return None;
                }
                let c0 = ctrl_char_of(val);
                let ghost acc0 = acc@;
                push_char(&mut acc, c0);
                proof {
                    lemma_hex();
                    lemma_esc_push(acc0, c0);
                    assert(acc@ == acc0.push(c0));
                    assert(esc(acc@) == esc(acc0) + esc_char(c0));
                    assert(c0 != '\\') by {
                        if c0 == '\\' {
                            assert(c0 as u32 == 92);
                        }
                    }
                    assert(c0 == '"' || (c0 as u32) < 32) by {
                        if val == 34 {
                            assert('"' as u32 == 34);
                            vstd::utf8::char_u32_cast(c0, val);
                            vstd::utf8::char_u32_cast('"', 34);
                            assert(c0 == '"');
                        }
                    }
                    assert(val / 16 == d1 && val % 16 == d2) by (nonlinear_arith)
                        requires
                            val == d1 * 16 + d2,
                            0 <= d2 < 16,
                            0 <= d1 < 16,
                    ;
                    assert(esc_char(c0) =~= seq!['\\', 'u', '0', '0', h1, h2]);
                    assert(v@.subrange(pos as int, (p + 6) as int) =~= v@.subrange(
                        pos as int,
                        p as int,
                    ) + seq!['\\', 'u', '0', '0', h1, h2]);
                    assert(v@.subrange(pos as int, (p + 6) as int) == esc(acc@));
                    assert forall|t: Seq<char>, e: int|
                        #![trigger esc(t), v@.subrange(pos as int, e)]
                        (pos <= e < n && v@[e] == '"' && v@.subrange(pos as int, e) == esc(t))
                        implies (p + 6 <= e && (exists|rem2: Seq<char>|
                        v@.subrange((p + 6) as int, e) == #[trigger] esc(rem2))) by {
                        let rem = choose|rem: Seq<char>|
                            v@.subrange(p as int, e) == #[trigger] esc(rem);
                        lemma_u_form(v@, p as int, e, rem);
                        assert(v@.subrange((p + 6) as int, e) == esc(rem.drop_first()));
                    }
                }
                p = p + 6;
            } else {
                proof {
                    lemma_stuck_at(v@, pos as int, p as int);
                }
                return None;
            }
        } else if (c as u32) < 32 {
            proof {
                lemma_stuck_at(v@, pos as int, p as int);
            }
            return None;
        } else {
            let ghost acc0 = acc@;
            push_char(&mut acc, c);
            proof {
                lemma_esc_push(acc0, c);
                assert(acc@ == acc0.push(c));
                assert(esc(acc@) == esc(acc0) + esc_char(c));
                assert(esc_char(c) =~= seq![c]);
                assert(v@.subrange(pos as int, (p + 1) as int) =~= v@.subrange(
                    pos as int,
                    p as int,
                ) + seq![c]);
                assert(v@.subrange(pos as int, (p + 1) as int) == esc(acc@));
                assert forall|t: Seq<char>, e: int|
                    #![trigger esc(t), v@.subrange(pos as int, e)]
                    (pos <= e < n && v@[e] == '"' && v@.subrange(pos as int, e) == esc(t)) implies (
                p + 1 <= e && (exists|rem2: Seq<char>|
                    v@.subrange((p + 1) as int, e) == #[trigger] esc(rem2))) by {
                    let rem = choose|rem: Seq<char>|
                        v@.subrange(p as int, e) == #[trigger] esc(rem);
                    lemma_esc_head(v@, p as int, e, rem);
                    let head = esc_char(rem[0]);
                    assert(v@[p as int] == head[0]);
                    assert(head.len() == 1) by {
                        if rem[0] == '\\' || rem[0] == '"' || (rem[0] as u32) < 32 {
                            assert(head[0] == '\\');
                        }
                    }
                    assert(v@.subrange((p + 1) as int, e) == esc(rem.drop_first()));
                }
            }
            p = p + 1;
        }
    }
}

} // verus!
