//! Byte-level building blocks of the wire format: JSON string escaping with
//! its inverse, and decimal numerals with theirs.
//!
//! Every request and response travels as one line of UTF-8 encoded JSON. The
//! spec functions here fix the canonical text of a string body and of an
//! unsigned numeral, exactly as the channel writes them; the parsers accept
//! precisely those canonical forms, which is what makes encoding and decoding
//! inverse to each other.

use vstd::prelude::*;

verus! {

/// The byte that opens and closes every JSON string.
pub open spec fn qu() -> u8 {
    '"' as u8
}

/// The escape lead-in byte.
pub open spec fn bsl() -> u8 {
    '\\' as u8
}

/// The line terminator of the wire format.
pub open spec fn nl() -> u8 {
    10u8
}

/// Lower-case hex digit of a value below sixteen.
pub open spec fn hex_digit(n: u8) -> u8
    recommends
        n < 16,
{
    if n < 10 {
        (48 + n) as u8
    } else {
        (87 + n) as u8
    }
}

/// Value of a lower-case hex digit byte.
pub open spec fn hex_val(d: u8) -> u8 {
    if 48 <= d <= 57 {
        (d - 48) as u8
    } else {
        (d - 87) as u8
    }
}

/// True of the bytes that may stand for themselves inside a JSON string:
/// everything but the quote, the backslash and the control range.
pub open spec fn is_plain(b: u8) -> bool {
    b >= 32 && b != qu() && b != bsl()
}

/// True of the escape tail bytes that the short two-byte escapes use.
pub open spec fn is_short_escape(e: u8) -> bool {
    e == qu() || e == bsl() || e == 'b' as u8 || e == 't' as u8 || e == 'n' as u8 || e == 'f' as u8
        || e == 'r' as u8
}

/// The byte that a short escape `\e` stands for.
pub open spec fn short_unescape(e: u8) -> u8 {
    if e == 'b' as u8 {
        8u8
    } else if e == 't' as u8 {
        9u8
    } else if e == 'n' as u8 {
        10u8
    } else if e == 'f' as u8 {
        12u8
    } else if e == 'r' as u8 {
        13u8
    } else {
        e
    }
}

/// True of the control bytes that have no short escape and therefore travel
/// as `\u00xx`.
pub open spec fn needs_hex_escape(b: u8) -> bool {
    b < 32 && b != 8 && b != 9 && b != 10 && b != 12 && b != 13
}

/// Canonical escape of one byte inside a JSON string: the quote, the
/// backslash and the five named control bytes get their two-byte escapes,
/// the other control bytes get `\u00xx` with lower-case hex, and everything
/// else stands for itself.
pub open spec fn esc_byte(b: u8) -> Seq<u8> {
    if b == qu() {
        seq![bsl(), qu()]
    } else if b == bsl() {
        seq![bsl(), bsl()]
    } else if b == 8 {
        seq![bsl(), 'b' as u8]
    } else if b == 9 {
        seq![bsl(), 't' as u8]
    } else if b == 10 {
        seq![bsl(), 'n' as u8]
    } else if b == 12 {
        seq![bsl(), 'f' as u8]
    } else if b == 13 {
        seq![bsl(), 'r' as u8]
    } else if b < 32 {
        seq![bsl(), 'u' as u8, '0' as u8, '0' as u8, hex_digit(b / 16), hex_digit(b % 16)]
    } else {
        seq![b]
    }
}

/// Canonical escape of a whole string body.
pub open spec fn esc(s: Seq<u8>) -> Seq<u8>
    decreases s.len(),
{
    if s.len() == 0 {
        Seq::<u8>::empty()
    } else {
        esc_byte(s.first()) + esc(s.drop_first())
    }
}

/// Parses an escaped string body up to and including its closing quote.
/// Returns the unescaped content and what follows the closing quote, or
/// `None` where the text is not the canonical escape of any string: a raw
/// control byte, an unknown escape, a `\u00xx` form that the canonical
/// escape would not have produced, or a missing closing quote.
pub open spec fn parse_str_body(t: Seq<u8>) -> Option<(Seq<u8>, Seq<u8>)>
    decreases t.len(),
{
    if t.len() == 0 {
        None
    } else if t.first() == qu() {
        Some((Seq::<u8>::empty(), t.drop_first()))
    } else if t.first() == bsl() {
        if t.len() < 2 {
            None
        } else if is_short_escape(t[1]) {
            match parse_str_body(t.skip(2)) {
                Some((s, r)) => Some((seq![short_unescape(t[1])] + s, r)),
                None => None,
            }
        } else if t[1] == 'u' as u8 {
            if t.len() < 6 {
                None
            } else if t[2] == '0' as u8 && t[3] == '0' as u8 && is_canon_hex_pair(t[4], t[5]) {
                match parse_str_body(t.skip(6)) {
                    Some((s, r)) => Some((seq![(hex_val(t[4]) * 16 + hex_val(t[5])) as u8] + s, r)),
                    None => None,
                }
            } else {
                None
            }
        } else {
            None
        }
    } else if t.first() < 32 {
        None
    } else {
        match parse_str_body(t.drop_first()) {
            Some((s, r)) => Some((seq![t.first()] + s, r)),
            None => None,
        }
    }
}

/// True of the two hex digits of a canonical `\u00xx` escape: both lower
/// case, and naming a control byte that has no short escape.
pub open spec fn is_canon_hex_pair(h: u8, l: u8) -> bool {
    is_lower_hex(h) && is_lower_hex(l) && needs_hex_escape((hex_val(h) * 16 + hex_val(l)) as u8)
}

/// True of a lower-case hex digit byte.
pub open spec fn is_lower_hex(d: u8) -> bool {
    (48 <= d <= 57) || (97 <= d <= 102)
}

/// Escaping one more byte extends the escaped text at its end.
pub proof fn lemma_esc_push(s: Seq<u8>, b: u8)
    ensures
        esc(s.push(b)) == esc(s) + esc_byte(b),
    decreases s.len(),
{
    if s.len() == 0 {
        assert(s.push(b).drop_first() =~= Seq::<u8>::empty());
        assert(s.push(b).first() == b);
        assert(esc(s.push(b)) == esc_byte(b) + esc(Seq::<u8>::empty()));
        assert(esc(s.push(b)) =~= esc(s) + esc_byte(b));
    } else {
        assert(s.push(b).first() == s.first());
        assert(s.push(b).drop_first() =~= s.drop_first().push(b));
        lemma_esc_push(s.drop_first(), b);
        assert(esc(s.push(b)) =~= esc(s) + esc_byte(b));
    }
}

/// A string of plain bytes escapes to itself.
pub proof fn lemma_esc_plain(s: Seq<u8>)
    requires
        forall|i: int| 0 <= i < s.len() ==> is_plain(s[i]),
    ensures
        esc(s) == s,
    decreases s.len(),
{
    if s.len() == 0 {
        assert(esc(s) =~= s);
    } else {
        assert(is_plain(s.first()));
        lemma_esc_plain(s.drop_first());
        assert(esc(s) =~= s);
    }
}

/// The escaped text never contains a raw control byte; in particular a
/// request line built from escaped strings stays on one line.
pub proof fn lemma_esc_no_control(s: Seq<u8>)
    ensures
        forall|i: int| 0 <= i < esc(s).len() ==> #[trigger] esc(s)[i] >= 32,
    decreases s.len(),
{
    if s.len() > 0 {
        lemma_esc_no_control(s.drop_first());
        let b = s.first();
        assert forall|i: int| 0 <= i < esc(s).len() implies #[trigger] esc(s)[i] >= 32 by {
            if i < esc_byte(b).len() {
                assert(esc(s)[i] == esc_byte(b)[i]);
            } else {
                assert(esc(s)[i] == esc(s.drop_first())[i - esc_byte(b).len()]);
            }
        }
    }
}

/// Parsing the canonical escape of `s`, followed by the closing quote and
/// any tail, recovers `s` and the tail: the completeness half of the string
/// round trip.
pub proof fn lemma_parse_str_complete(s: Seq<u8>, r: Seq<u8>)
    ensures
        parse_str_body(esc(s) + seq![qu()] + r) == Some((s, r)),
    decreases s.len(),
{
    let t = esc(s) + seq![qu()] + r;
    if s.len() == 0 {
        assert(t.first() == qu());
        assert(t.drop_first() =~= r);
        assert(parse_str_body(t) == Some((Seq::<u8>::empty(), r)));
        assert(s =~= Seq::<u8>::empty());
    } else {
        let b = s.first();
        let s1 = s.drop_first();
        lemma_parse_str_complete(s1, r);
        let t1 = esc(s1) + seq![qu()] + r;
        assert(t =~= esc_byte(b) + t1);
        let k = esc_byte(b).len() as int;
        assert(forall|i: int| 0 <= i < k ==> t[i] == esc_byte(b)[i]);
        assert(t.skip(k) =~= t1);
        if b == qu() || b == bsl() || b == 8 || b == 9 || b == 10 || b == 12 || b == 13 {
            assert(t.first() == bsl());
            assert(is_short_escape(t[1]));
            assert(short_unescape(t[1]) == b);
            assert(t.skip(2) =~= t1);
            assert(parse_str_body(t) == Some((seq![b] + s1, r)));
            assert(seq![b] + s1 =~= s);
        } else if b < 32 {
            assert(t.first() == bsl());
            assert(!is_short_escape(t[1]));
            assert(t[1] == 'u' as u8);
            assert(t[2] == '0' as u8 && t[3] == '0' as u8);
            assert(t[4] == hex_digit(b / 16) && t[5] == hex_digit(b % 16));
            assert(hex_val(hex_digit(b / 16)) == b / 16 && hex_val(hex_digit(b % 16)) == b % 16);
            assert(needs_hex_escape(b));
            assert((hex_val(t[4]) * 16 + hex_val(t[5])) as u8 == b);
            assert(is_canon_hex_pair(t[4], t[5]));
            assert(t.skip(6) =~= t1);
            assert(parse_str_body(t) == Some((seq![b] + s1, r)));
            assert(seq![b] + s1 =~= s);
        } else {
            assert(is_plain(b));
            assert(t.first() == b);
            assert(t.drop_first() =~= t1);
            assert(parse_str_body(t) == Some((seq![b] + s1, r)));
            assert(seq![b] + s1 =~= s);
        }
    }
}

/// Whatever the string parser accepts was the canonical escape of its
/// result: the soundness half of the string round trip.
pub proof fn lemma_parse_str_sound(t: Seq<u8>, s: Seq<u8>, r: Seq<u8>)
    requires
        parse_str_body(t) == Some((s, r)),
    ensures
        t == esc(s) + seq![qu()] + r,
    decreases t.len(),
{
    if t.first() == qu() {
        assert(s =~= Seq::<u8>::empty());
        assert(t =~= esc(s) + seq![qu()] + r);
    } else if t.first() == bsl() {
        if is_short_escape(t[1]) {
            let (s1, r1) = parse_str_body(t.skip(2)).unwrap();
            lemma_parse_str_sound(t.skip(2), s1, r1);
            let b = short_unescape(t[1]);
            assert(s == seq![b] + s1 && r == r1);
            assert(s.first() == b && s.drop_first() =~= s1);
            assert(esc_byte(b) =~= seq![bsl(), t[1]]);
            assert(t =~= seq![t[0], t[1]] + t.skip(2));
            assert(t =~= esc(s) + seq![qu()] + r);
        } else {
            let (s1, r1) = parse_str_body(t.skip(6)).unwrap();
            lemma_parse_str_sound(t.skip(6), s1, r1);
            let b = (hex_val(t[4]) * 16 + hex_val(t[5])) as u8;
            assert(s == seq![b] + s1 && r == r1);
            assert(s.first() == b && s.drop_first() =~= s1);
            assert(needs_hex_escape(b));
            assert(hex_digit(b / 16) == t[4] && hex_digit(b % 16) == t[5]);
            assert(esc_byte(b) =~= seq![bsl(), 'u' as u8, '0' as u8, '0' as u8, t[4], t[5]]);
            assert(t =~= seq![t[0], t[1], t[2], t[3], t[4], t[5]] + t.skip(6));
            assert(t =~= esc(s) + seq![qu()] + r);
        }
    } else {
        let (s1, r1) = parse_str_body(t.drop_first()).unwrap();
        lemma_parse_str_sound(t.drop_first(), s1, r1);
        let b = t.first();
        assert(s == seq![b] + s1 && r == r1);
        assert(s.first() == b && s.drop_first() =~= s1);
        assert(is_plain(b));
        assert(esc_byte(b) =~= seq![b]);
        assert(t =~= seq![b] + t.drop_first());
        assert(t =~= esc(s) + seq![qu()] + r);
    }
}

/// True of a decimal digit byte.
pub open spec fn is_digit(b: u8) -> bool {
    48 <= b <= 57
}

/// Canonical decimal numeral of a number: most significant digit first, no
/// leading zeros, `0` for zero.
pub open spec fn dec(n: nat) -> Seq<u8>
    decreases n,
{
    if n < 10 {
        seq![(48 + n) as u8]
    } else {
        dec(n / 10) + seq![(48 + n % 10) as u8]
    }
}

/// Number of leading digit bytes.
pub open spec fn num_digits(t: Seq<u8>) -> int
    decreases t.len(),
{
    if t.len() == 0 || !is_digit(t.first()) {
        0
    } else {
        1 + num_digits(t.drop_first())
    }
}

/// Value of a digit string, most significant digit first.
pub open spec fn dec_val(d: Seq<u8>) -> int
    decreases d.len(),
{
    if d.len() == 0 {
        0
    } else {
        dec_val(d.drop_last()) * 10 + (d.last() - 48)
    }
}

/// Parses a canonical `u32` numeral at the head of the text and returns its
/// value and the rest; `None` where the text does not start with a digit,
/// has a leading zero, or names a value beyond `u32`.
pub open spec fn parse_u32_at(t: Seq<u8>) -> Option<(u32, Seq<u8>)> {
    let k = num_digits(t);
    if k == 0 {
        None
    } else if t.first() == 48 && k > 1 {
        None
    } else if dec_val(t.take(k)) > u32::MAX {
        None
    } else {
        Some((dec_val(t.take(k)) as u32, t.skip(k)))
    }
}

/// Every byte of a canonical numeral is a digit, and its first byte is only
/// `0` for the number zero itself.
pub proof fn lemma_dec_shape(n: nat)
    ensures
        forall|i: int| 0 <= i < dec(n).len() ==> is_digit(#[trigger] dec(n)[i]),
        dec(n).len() >= 1,
        dec(n).first() == 48 ==> n == 0,
        n == 0 ==> dec(n).len() == 1,
    decreases n,
{
    if n >= 10 {
        lemma_dec_shape(n / 10);
        assert(n / 10 >= 1);
        assert(dec(n).first() == dec(n / 10).first());
        assert(forall|i: int| 0 <= i < dec(n).len() ==> is_digit(#[trigger] dec(n)[i]));
    }
}

/// The value of a canonical numeral is the number it was made from.
pub proof fn lemma_dec_val(n: nat)
    ensures
        dec_val(dec(n)) == n,
    decreases n,
{
    if n < 10 {
        assert(dec(n).drop_last() =~= Seq::<u8>::empty());
        assert(dec(n).last() == (48 + n) as u8);
        assert((48 + n) as u8 == 48 + n);
        assert(dec(n).len() == 1);
        assert(dec_val(Seq::<u8>::empty()) == 0);
        assert(dec_val(dec(n)) == dec_val(dec(n).drop_last()) * 10 + (dec(n).last() - 48));
    } else {
        lemma_dec_val(n / 10);
        assert(dec(n).drop_last() =~= dec(n / 10));
        assert(dec(n).last() == (48 + n % 10) as u8);
        assert((48 + n % 10) as u8 == 48 + n % 10);
        assert(dec_val(dec(n)) == (n / 10) * 10 + n % 10);
        assert(n == (n / 10) * 10 + n % 10) by (nonlinear_arith);
    }
}

/// A digit string with a nonzero leading digit names a nonzero value.
pub proof fn lemma_dec_val_pos(d: Seq<u8>)
    requires
        d.len() >= 1,
        forall|i: int| 0 <= i < d.len() ==> is_digit(#[trigger] d[i]),
        d.first() != 48,
    ensures
        dec_val(d) >= 1,
    decreases d.len(),
{
    if d.len() == 1 {
        assert(d.drop_last() =~= Seq::<u8>::empty());
        assert(dec_val(d) == d.last() - 48);
        assert(d.last() == d.first());
    } else {
        assert(d.drop_last().first() == d.first());
        assert(forall|i: int|
            0 <= i < d.drop_last().len() ==> is_digit(#[trigger] d.drop_last()[i]));
        lemma_dec_val_pos(d.drop_last());
        assert(is_digit(d.last()));
        assert(dec_val(d) == dec_val(d.drop_last()) * 10 + (d.last() - 48));
        assert(dec_val(d.drop_last()) * 10 >= 10);
    }
}

/// The value of a digit string is nonnegative.
pub proof fn lemma_dec_val_nonneg(d: Seq<u8>)
    requires
        forall|i: int| 0 <= i < d.len() ==> is_digit(#[trigger] d[i]),
    ensures
        dec_val(d) >= 0,
    decreases d.len(),
{
    if d.len() > 0 {
        lemma_dec_val_nonneg(d.drop_last());
        assert(is_digit(d.last()));
    }
}

/// A longer digit prefix never names a smaller value.
pub proof fn lemma_dec_val_monotone(d: Seq<u8>, m: int)
    requires
        0 <= m <= d.len(),
        forall|i: int| 0 <= i < d.len() ==> is_digit(#[trigger] d[i]),
    ensures
        dec_val(d.take(m)) <= dec_val(d),
    decreases d.len() - m,
{
    if m == d.len() {
        assert(d.take(m) =~= d);
    } else {
        lemma_dec_val_monotone(d, m + 1);
        let p = d.take(m + 1);
        assert(p.drop_last() =~= d.take(m));
        assert(forall|i: int| 0 <= i < d.take(m).len() ==> is_digit(#[trigger] d.take(m)[i]));
        lemma_dec_val_nonneg(d.take(m));
        assert(is_digit(p.last()));
        assert(dec_val(p) == dec_val(d.take(m)) * 10 + (p.last() - 48));
    }
}

/// The digit run of a numeral followed by a non-digit tail is the numeral.
pub proof fn lemma_num_digits_concat(d: Seq<u8>, r: Seq<u8>)
    requires
        forall|i: int| 0 <= i < d.len() ==> is_digit(#[trigger] d[i]),
        r.len() == 0 || !is_digit(r.first()),
    ensures
        num_digits(d + r) == d.len(),
    decreases d.len(),
{
    if d.len() == 0 {
        assert(d + r =~= r);
        if r.len() > 0 {
            assert(!is_digit((d + r).first()));
        }
    } else {
        assert((d + r).first() == d.first());
        assert((d + r).drop_first() =~= d.drop_first() + r);
        lemma_num_digits_concat(d.drop_first(), r);
    }
}

/// Parsing the canonical numeral of `n`, followed by a tail that does not
/// begin with a digit, recovers `n` and the tail.
pub proof fn lemma_parse_u32_complete(n: u32, r: Seq<u8>)
    requires
        r.len() == 0 || !is_digit(r.first()),
    ensures
        parse_u32_at(dec(n as nat) + r) == Some((n, r)),
{
    let d = dec(n as nat);
    let t = d + r;
    lemma_dec_shape(n as nat);
    lemma_num_digits_concat(d, r);
    assert(num_digits(t) == d.len());
    assert(t.first() == d.first());
    assert(t.take(d.len() as int) =~= d);
    assert(t.skip(d.len() as int) =~= r);
    lemma_dec_val(n as nat);
    if t.first() == 48 {
        assert(n == 0);
    }
}

/// A canonical digit string is the numeral of its own value.
pub proof fn lemma_dec_val_canon(d: Seq<u8>)
    requires
        d.len() >= 1,
        forall|i: int| 0 <= i < d.len() ==> is_digit(#[trigger] d[i]),
        d.first() == 48 ==> d.len() == 1,
    ensures
        dec_val(d) >= 0,
        dec(dec_val(d) as nat) == d,
    decreases d.len(),
{
    lemma_dec_val_nonneg(d);
    if d.len() == 1 {
        assert(d.drop_last() =~= Seq::<u8>::empty());
        assert(dec_val(d.drop_last()) == 0);
        assert(d.last() == d.first());
        assert(dec_val(d) == d.first() - 48);
        assert(dec(dec_val(d) as nat) =~= d);
    } else {
        let p = d.drop_last();
        assert(p.first() == d.first());
        assert(forall|i: int| 0 <= i < p.len() ==> is_digit(#[trigger] p[i]));
        lemma_dec_val_canon(p);
        lemma_dec_val_pos(p);
        let v = dec_val(d);
        let lastv = d.last() - 48;
        assert(v == dec_val(p) * 10 + lastv);
        assert(dec_val(p) >= 1);
        assert(v >= 10);
        assert(v / 10 == dec_val(p) && v % 10 == lastv) by (nonlinear_arith)
            requires
                v == dec_val(p) * 10 + lastv,
                0 <= lastv < 10,
                dec_val(p) >= 0,
        ;
        assert(dec(v as nat) == dec(dec_val(p) as nat) + seq![(48 + lastv) as u8]);
        assert(dec(v as nat) =~= d);
    }
}

/// Whatever the numeral parser accepts was the canonical numeral of its
/// value: the soundness half of the numeral round trip.
pub proof fn lemma_parse_u32_sound(t: Seq<u8>, n: u32, r: Seq<u8>)
    requires
        parse_u32_at(t) == Some((n, r)),
    ensures
        t == dec(n as nat) + r,
        r.len() == 0 || !is_digit(r.first()),
{
    let k = num_digits(t);
    lemma_num_digits_all(t);
    let d = t.take(k);
    assert(forall|i: int| 0 <= i < d.len() ==> is_digit(#[trigger] d[i]));
    assert(d.first() == t.first());
    lemma_dec_val_canon(d);
    assert(dec(n as nat) == d);
    assert(t =~= d + t.skip(k));
}

/// The digit run of a text is all digits and is followed by a non-digit.
pub proof fn lemma_num_digits_all(t: Seq<u8>)
    ensures
        0 <= num_digits(t) <= t.len(),
        forall|i: int| 0 <= i < num_digits(t) ==> is_digit(#[trigger] t[i]),
        num_digits(t) < t.len() ==> !is_digit(t[num_digits(t)]),
    decreases t.len(),
{
    if t.len() > 0 && is_digit(t.first()) {
        lemma_num_digits_all(t.drop_first());
        let k = num_digits(t);
        assert forall|i: int| 0 <= i < k implies is_digit(#[trigger] t[i]) by {
            if i > 0 {
                assert(is_digit(t.drop_first()[i - 1]));
            }
        }
        if k < t.len() {
            assert(!is_digit(t.drop_first()[k - 1]));
        }
    }
}

/// True where the text begins with the given prefix.
pub open spec fn starts_with(t: Seq<u8>, p: Seq<u8>) -> bool {
    t.len() >= p.len() && t.take(p.len() as int) == p
}

/// True of the four bytes JSON treats as insignificant whitespace between
/// tokens: space, tab, line feed and carriage return.
pub open spec fn is_ws(b: u8) -> bool {
    b == 32 || b == 9 || b == 10 || b == 13
}

/// Number of leading whitespace bytes.
pub open spec fn ws_prefix_len(t: Seq<u8>) -> int
    decreases t.len(),
{
    if t.len() == 0 || !is_ws(t.first()) {
        0
    } else {
        1 + ws_prefix_len(t.drop_first())
    }
}

/// The text with its leading whitespace removed.
pub open spec fn ws_skip(t: Seq<u8>) -> Seq<u8> {
    t.skip(ws_prefix_len(t))
}

/// The text with its trailing whitespace removed.
pub open spec fn rstrip_ws(t: Seq<u8>) -> Seq<u8>
    decreases t.len(),
{
    if t.len() > 0 && is_ws(t.last()) {
        rstrip_ws(t.drop_last())
    } else {
        t
    }
}

/// True of a hex digit byte of either case.
pub open spec fn is_hex_digit(d: u8) -> bool {
    (48 <= d <= 57) || (97 <= d <= 102) || (65 <= d <= 70)
}

/// Value of a hex digit byte of either case.
pub open spec fn hexv(d: u8) -> int {
    if 48 <= d <= 57 {
        d - 48
    } else if 97 <= d <= 102 {
        d - 87
    } else {
        d - 55
    }
}

/// Value of four hex digit bytes, most significant first.
pub open spec fn hex4(a: u8, b: u8, c: u8, d: u8) -> int {
    hexv(a) * 4096 + hexv(b) * 256 + hexv(c) * 16 + hexv(d)
}

/// The UTF-8 encoding of one Unicode scalar value.
pub open spec fn utf8_enc(cp: int) -> Seq<u8>
    recommends
        0 <= cp <= 0x10ffff,
{
    if cp < 0x80 {
        seq![cp as u8]
    } else if cp < 0x800 {
        seq![(0xc0 + cp / 64) as u8, (0x80 + cp % 64) as u8]
    } else if cp < 0x10000 {
        seq![(0xe0 + cp / 4096) as u8, (0x80 + (cp / 64) % 64) as u8, (0x80 + cp % 64) as u8]
    } else {
        seq![
            (0xf0 + cp / 262144) as u8,
            (0x80 + (cp / 4096) % 64) as u8,
            (0x80 + (cp / 64) % 64) as u8,
            (0x80 + cp % 64) as u8,
        ]
    }
}

/// Parses a JSON string body in its full generality, up to and including
/// the closing quote: every escape the grammar allows — `\"` `\\` `\/`
/// `\b` `\f` `\n` `\r` `\t`, `\uXXXX` with hex digits of either case, and
/// surrogate pairs mapped to the UTF-8 of the named scalar — and every raw
/// byte outside the control range. `None` where the text is not a JSON
/// string denoting a byte sequence: a raw control byte, an unknown escape,
/// a lone surrogate, or a missing closing quote.
pub open spec fn json_str_body(t: Seq<u8>) -> Option<(Seq<u8>, Seq<u8>)>
    decreases t.len(),
{
    if t.len() == 0 {
        None
    } else if t.first() == qu() {
        Some((Seq::<u8>::empty(), t.drop_first()))
    } else if t.first() == bsl() {
        if t.len() < 2 {
            None
        } else if is_short_escape(t[1]) || t[1] == '/' as u8 {
            match json_str_body(t.skip(2)) {
                Some((s, r)) => Some((seq![short_unescape(t[1])] + s, r)),
                None => None,
            }
        } else if t[1] == 'u' as u8 {
            if t.len() < 6 || !(is_hex_digit(t[2]) && is_hex_digit(t[3]) && is_hex_digit(t[4])
                && is_hex_digit(t[5])) {
                None
            } else {
                let cp = hex4(t[2], t[3], t[4], t[5]);
                if 0xd800 <= cp <= 0xdbff {
                    if t.len() < 12 || t[6] != bsl() || t[7] != 'u' as u8 || !(is_hex_digit(t[8])
                        && is_hex_digit(t[9]) && is_hex_digit(t[10]) && is_hex_digit(t[11])) {
                        None
                    } else {
                        let lo = hex4(t[8], t[9], t[10], t[11]);
                        if !(0xdc00 <= lo <= 0xdfff) {
                            None
                        } else {
                            match json_str_body(t.skip(12)) {
                                Some((s, r)) => Some(
                                    (utf8_enc(0x10000 + (cp - 0xd800) * 1024 + (lo - 0xdc00)) + s, r),
                                ),
                                None => None,
                            }
                        }
                    }
                } else if 0xdc00 <= cp <= 0xdfff {
                    None
                } else {
                    match json_str_body(t.skip(6)) {
                        Some((s, r)) => Some((utf8_enc(cp) + s, r)),
                        None => None,
                    }
                }
            }
        } else {
            None
        }
    } else if t.first() < 32 {
        None
    } else {
        match json_str_body(t.drop_first()) {
            Some((s, r)) => Some((seq![t.first()] + s, r)),
            None => None,
        }
    }
}

/// The general string parser accepts everything the canonical one accepts,
/// with the same result: the crate's own escapes are one spelling among
/// those the grammar allows.
pub proof fn lemma_json_str_extends_canonical(t: Seq<u8>, s: Seq<u8>, r: Seq<u8>)
    requires
        parse_str_body(t) == Some((s, r)),
    ensures
        json_str_body(t) == Some((s, r)),
    decreases t.len(),
{
    if t.first() == qu() {
    } else if t.first() == bsl() {
        if is_short_escape(t[1]) {
            let (s1, r1) = parse_str_body(t.skip(2)).unwrap();
            lemma_json_str_extends_canonical(t.skip(2), s1, r1);
        } else {
            let (s1, r1) = parse_str_body(t.skip(6)).unwrap();
            lemma_json_str_extends_canonical(t.skip(6), s1, r1);
            let b = (hex_val(t[4]) * 16 + hex_val(t[5])) as u8;
            assert(is_hex_digit(t[2]) && is_hex_digit(t[3]) && is_hex_digit(t[4]) && is_hex_digit(
                t[5],
            ));
            assert(hex4(t[2], t[3], t[4], t[5]) == hex_val(t[4]) * 16 + hex_val(t[5]));
            assert(hex4(t[2], t[3], t[4], t[5]) == b);
            assert(b < 32);
            assert(utf8_enc(b as int) =~= seq![b]);
        }
    } else {
        let (s1, r1) = parse_str_body(t.drop_first()).unwrap();
        lemma_json_str_extends_canonical(t.drop_first(), s1, r1);
    }
}

/// Lower-case hex digit of a value below sixteen.
fn hex_digit_x(n: u8) -> (r: u8)
    requires
        n < 16,
    ensures
        r == hex_digit(n),
{
    if n < 10 {
        48 + n
    } else {
        87 + n
    }
}

/// Appends the canonical escape of `s` to `out`.
pub fn escape_into(s: &[u8], out: &mut Vec<u8>)
    ensures
        final(out)@ == old(out)@ + esc(s@),
{
    let ghost out0 = old(out)@;
    let mut i: usize = 0;
    while i < s.len()
        invariant
            i <= s@.len(),
            out@ == out0 + esc(s@.take(i as int)),
        decreases s@.len() - i,
    {
        let b = s[i];
        let ghost pre = out@;
        if b == '"' as u8 {
            out.push(bsl_x());
            out.push('"' as u8);
        } else if b == '\\' as u8 {
            out.push(bsl_x());
            out.push('\\' as u8);
        } else if b == 8 {
            out.push(bsl_x());
            out.push('b' as u8);
        } else if b == 9 {
            out.push(bsl_x());
            out.push('t' as u8);
        } else if b == 10 {
            out.push(bsl_x());
            out.push('n' as u8);
        } else if b == 12 {
            out.push(bsl_x());
            out.push('f' as u8);
        } else if b == 13 {
            out.push(bsl_x());
            out.push('r' as u8);
        } else if b < 32 {
            out.push(bsl_x());
            out.push('u' as u8);
            out.push('0' as u8);
            out.push('0' as u8);
            out.push(hex_digit_x(b / 16));
            out.push(hex_digit_x(b % 16));
        } else {
            out.push(b);
        }
        proof {
            assert(out@ =~= pre + esc_byte(b));
            lemma_esc_push(s@.take(i as int), b);
            assert(s@.take(i as int).push(b) =~= s@.take(i + 1));
        }
        i = i + 1;
    }
    proof {
        assert(s@.take(i as int) =~= s@);
    }
}

/// The escape lead-in byte.
fn bsl_x() -> (r: u8)
    ensures
        r == bsl(),
{
    '\\' as u8
}

/// Appends the canonical decimal numeral of `n` to `out`.
pub fn dec_into(n: u32, out: &mut Vec<u8>)
    ensures
        final(out)@ == old(out)@ + dec(n as nat),
    decreases n,
{
    if n < 10 {
        out.push(48 + n as u8);
        proof {
            assert(final(out)@ =~= old(out)@ + dec(n as nat));
        }
    } else {
        dec_into(n / 10, out);
        out.push(48 + (n % 10) as u8);
        proof {
            assert(final(out)@ =~= old(out)@ + dec(n as nat));
        }
    }
}

/// Parses an escaped string body of `t` from position `i`, through its
/// closing quote; returns the unescaped content and the position after the
/// quote, exactly as [`parse_str_body`] reads the corresponding suffix.
pub fn parse_str_exec(t: &[u8], i: usize) -> (r: Option<(Vec<u8>, usize)>)
    requires
        i <= t@.len(),
    ensures
        match r {
            Some(p) => i < p.1 <= t@.len() && parse_str_body(t@.skip(i as int)) == Some(
                (p.0@, t@.skip(p.1 as int)),
            ),
            None => parse_str_body(t@.skip(i as int)) is None,
        },
    decreases t@.len() - i,
{
    let ghost tt = t@.skip(i as int);
    if i == t.len() {
        return None;
    }
    let b = t[i];
    proof {
        assert(tt.first() == b);
    }
    if b == '"' as u8 {
        proof {
            assert(tt.drop_first() =~= t@.skip(i + 1));
        }
        Some((Vec::new(), i + 1))
    } else if b == '\\' as u8 {
        if t.len() - i < 2 {
            return None;
        }
        let e = t[i + 1];
        proof {
            assert(tt[1] == e);
        }
        if e == '"' as u8 || e == '\\' as u8 || e == 'b' as u8 || e == 't' as u8 || e == 'n' as u8
            || e == 'f' as u8 || e == 'r' as u8 {
            let c: u8 = if e == 'b' as u8 {
                8
            } else if e == 't' as u8 {
                9
            } else if e == 'n' as u8 {
                10
            } else if e == 'f' as u8 {
                12
            } else if e == 'r' as u8 {
                13
            } else {
                e
            };
            proof {
                assert(c == short_unescape(e));
                assert(tt.skip(2) =~= t@.skip(i + 2));
            }
            match parse_str_exec(t, i + 2) {
                Some((mut v, j)) => {
                    let ghost v0 = v@;
                    v.insert(0, c);
                    proof {
                        assert(v@ =~= seq![c] + v0);
                    }
                    Some((v, j))
                },
                None => None,
            }
        } else if e == 'u' as u8 {
            if t.len() - i < 6 {
                return None;
            }
            if !(t[i + 2] == '0' as u8 && t[i + 3] == '0' as u8) {
                return None;
            }
            let h = t[i + 4];
            let l = t[i + 5];
            proof {
                assert(tt[2] == t@[i + 2] && tt[3] == t@[i + 3] && tt[4] == h && tt[5] == l);
            }
            let hex_ok = (48 <= h && h <= 57 || 97 <= h && h <= 102) && (48 <= l && l <= 57 || 97
                <= l && l <= 102);
            if !hex_ok {
                return None;
            }
            let hv: u8 = if h <= 57 {
                h - 48
            } else {
                h - 87
            };
            let lv: u8 = if l <= 57 {
                l - 48
            } else {
                l - 87
            };
            let c: u8 = hv * 16 + lv;
            proof {
                assert(c == (hex_val(h) * 16 + hex_val(l)) as u8);
            }
            if !(c < 32 && c != 8 && c != 9 && c != 10 && c != 12 && c != 13) {
                return None;
            }
            proof {
                assert(is_canon_hex_pair(h, l));
                assert(tt.skip(6) =~= t@.skip(i + 6));
            }
            match parse_str_exec(t, i + 6) {
                Some((mut v, j)) => {
                    let ghost v0 = v@;
                    v.insert(0, c);
                    proof {
                        assert(v@ =~= seq![c] + v0);
                    }
                    Some((v, j))
                },
                None => None,
            }
        } else {
            None
        }
    } else if b < 32 {
        None
    } else {
        proof {
            assert(tt.drop_first() =~= t@.skip(i + 1));
        }
        match parse_str_exec(t, i + 1) {
            Some((mut v, j)) => {
                let ghost v0 = v@;
                v.insert(0, b);
                proof {
                    assert(v@ =~= seq![b] + v0);
                }
                Some((v, j))
            },
            None => None,
        }
    }
}

/// Parses a canonical `u32` numeral of `t` from position `i`; returns the
/// value and the position after its last digit, exactly as [`parse_u32_at`]
/// reads the corresponding suffix.
pub fn parse_u32_exec(t: &[u8], i: usize) -> (r: Option<(u32, usize)>)
    requires
        i <= t@.len(),
    ensures
        match r {
            Some(p) => i < p.1 <= t@.len() && parse_u32_at(t@.skip(i as int)) == Some(
                (p.0, t@.skip(p.1 as int)),
            ),
            None => parse_u32_at(t@.skip(i as int)) is None,
        },
{
    let ghost tt = t@.skip(i as int);
    if i == t.len() || !(48 <= t[i] && t[i] <= 57) {
        proof {
            assert(num_digits(tt) == 0);
        }
        return None;
    }
    proof {
        assert(tt.first() == t@[i as int]);
    }
    if t[i] == 48 && i + 1 < t.len() && 48 <= t[i + 1] && t[i + 1] <= 57 {
        proof {
            assert(tt.drop_first().first() == t@[i + 1]);
            lemma_num_digits_all(tt.drop_first());
            assert(num_digits(tt.drop_first()) >= 1);
            assert(num_digits(tt) >= 2);
        }
        return None;
    }
    let mut val: u64 = (t[i] - 48) as u64;
    let mut j: usize = i + 1;
    proof {
        assert(t@.subrange(i as int, j as int).drop_last() =~= Seq::<u8>::empty());
        assert(dec_val(Seq::<u8>::empty()) == 0);
        assert(t@.subrange(i as int, j as int).last() == t@[i as int]);
        assert(dec_val(t@.subrange(i as int, j as int)) == t@[i as int] - 48);
    }
    while j < t.len() && 48 <= t[j] && t[j] <= 57
        invariant
            i < j <= t@.len(),
            tt == t@.skip(i as int),
            forall|m: int| i <= m < j ==> is_digit(#[trigger] t@[m]),
            val == dec_val(t@.subrange(i as int, j as int)),
            val <= u32::MAX,
        decreases t@.len() - j,
    {
        let d = t[j] - 48;
        let nv: u64 = val * 10 + d as u64;
        proof {
            assert(t@.subrange(i as int, j + 1).drop_last() =~= t@.subrange(i as int, j as int));
            assert(t@.subrange(i as int, j + 1).last() == t@[j as int]);
            assert(nv == dec_val(t@.subrange(i as int, j + 1)));
            assert(forall|m: int| i <= m < j + 1 ==> is_digit(#[trigger] t@[m]));
        }
        if nv > 0xffff_ffff {
            proof {
                lemma_num_digits_all(tt);
                let k = num_digits(tt);
                assert(0 <= k <= tt.len());
                if k < j + 1 - i {
                    assert(is_digit(t@[i + k]));
                    assert(tt[k] == t@[i + k]);
                    assert(false);
                }
                assert(k <= tt.len() == t@.len() - i);
                assert(forall|m: int| 0 <= m < k ==> is_digit(#[trigger] tt[m]));
                assert forall|m: int| 0 <= m < tt.take(k).len() implies is_digit(
                    #[trigger] tt.take(k)[m],
                ) by {
                    assert(tt.take(k)[m] == tt[m]);
                }
                assert(tt.take(k).take(j + 1 - i) =~= t@.subrange(i as int, j + 1));
                lemma_dec_val_monotone(tt.take(k), j + 1 - i);
                assert(dec_val(tt.take(k)) >= dec_val(t@.subrange(i as int, j + 1)));
                assert(dec_val(tt.take(k)) > u32::MAX);
            }
            return None;
        }
        val = nv;
        j = j + 1;
    }
    proof {
        let k = num_digits(tt);
        assert(tt =~= t@.subrange(i as int, j as int) + t@.skip(j as int));
        if j < t@.len() {
            assert(!is_digit(t@.skip(j as int).first()));
        }
        lemma_num_digits_concat(t@.subrange(i as int, j as int), t@.skip(j as int));
        assert(k == j - i);
        assert(tt.take(k) =~= t@.subrange(i as int, j as int));
        assert(tt.skip(k) =~= t@.skip(j as int));
        if tt.first() == 48 && k > 1 {
            assert(is_digit(t@[i + 1]));
            assert(false);
        }
    }
    Some((val as u32, j))
}

/// Position of the first byte at or after `i` that is not JSON whitespace.
pub fn skip_ws_exec(t: &[u8], i: usize) -> (j: usize)
    requires
        i <= t@.len(),
    ensures
        i <= j <= t@.len(),
        j as int == i + ws_prefix_len(t@.skip(i as int)),
    decreases t@.len() - i,
{
    if i == t.len() {
        return i;
    }
    let b = t[i];
    proof {
        assert(t@.skip(i as int).first() == b);
    }
    if b == 32 || b == 9 || b == 10 || b == 13 {
        proof {
            assert(t@.skip(i as int).drop_first() =~= t@.skip(i + 1));
        }
        skip_ws_exec(t, i + 1)
    } else {
        i
    }
}

/// Position after the last byte of `t[lo..hi]` that is not JSON
/// whitespace.
pub fn rstrip_ws_exec(t: &[u8], lo: usize, hi: usize) -> (k: usize)
    requires
        lo <= hi <= t@.len(),
    ensures
        lo <= k <= hi,
        t@.subrange(lo as int, k as int) == rstrip_ws(t@.subrange(lo as int, hi as int)),
    decreases hi - lo,
{
    if hi == lo {
        return hi;
    }
    let b = t[hi - 1];
    proof {
        assert(t@.subrange(lo as int, hi as int).last() == b);
    }
    if b == 32 || b == 9 || b == 10 || b == 13 {
        proof {
            assert(t@.subrange(lo as int, hi as int).drop_last() =~= t@.subrange(
                lo as int,
                hi - 1,
            ));
        }
        rstrip_ws_exec(t, lo, hi - 1)
    } else {
        hi
    }
}

/// Value of a hex digit byte of either case.
fn hexv_exec(d: u8) -> (r: u8)
    requires
        is_hex_digit(d),
    ensures
        r as int == hexv(d),
{
    if 48 <= d && d <= 57 {
        d - 48
    } else if 97 <= d && d <= 102 {
        d - 87
    } else {
        d - 55
    }
}

/// True of a hex digit byte of either case.
fn is_hex_digit_exec(d: u8) -> (r: bool)
    ensures
        r == is_hex_digit(d),
{
    (48 <= d && d <= 57) || (97 <= d && d <= 102) || (65 <= d && d <= 70)
}

/// Value of the four hex digit bytes of `t` at positions `i..i+4`.
fn hex4_exec(t: &[u8], i: usize) -> (r: u32)
    requires
        i + 4 <= t@.len(),
        is_hex_digit(t@[i as int]),
        is_hex_digit(t@[i + 1]),
        is_hex_digit(t@[i + 2]),
        is_hex_digit(t@[i + 3]),
    ensures
        r as int == hex4(t@[i as int], t@[i + 1], t@[i + 2], t@[i + 3]),
        r <= 0xffff,
{
    let a = hexv_exec(t[i]) as u32;
    let b = hexv_exec(t[i + 1]) as u32;
    let c = hexv_exec(t[i + 2]) as u32;
    let d = hexv_exec(t[i + 3]) as u32;
    a * 4096 + b * 256 + c * 16 + d
}

/// Prepends the UTF-8 encoding of a scalar value to `v`.
fn utf8_prepend(v: &mut Vec<u8>, cp: u32)
    requires
        cp <= 0x10ffff,
    ensures
        final(v)@ == utf8_enc(cp as int) + old(v)@,
{
    let ghost v0 = v@;
    if cp < 0x80 {
        v.insert(0, cp as u8);
    } else if cp < 0x800 {
        v.insert(0, (0x80 + (cp % 64)) as u8);
        v.insert(0, (0xc0 + cp / 64) as u8);
    } else if cp < 0x10000 {
        v.insert(0, (0x80 + (cp % 64)) as u8);
        v.insert(0, (0x80 + ((cp / 64) % 64)) as u8);
        v.insert(0, (0xe0 + cp / 4096) as u8);
    } else {
        v.insert(0, (0x80 + (cp % 64)) as u8);
        v.insert(0, (0x80 + ((cp / 64) % 64)) as u8);
        v.insert(0, (0x80 + ((cp / 4096) % 64)) as u8);
        v.insert(0, (0xf0 + cp / 262144) as u8);
    }
    proof {
        assert(v@ =~= utf8_enc(cp as int) + v0);
    }
}

/// Parses a JSON string body of `t` from position `i`, through its closing
/// quote, in the full generality of the grammar; returns the denoted bytes
/// and the position after the quote, exactly as [`json_str_body`] reads the
/// corresponding suffix.
pub fn json_str_exec(t: &[u8], i: usize) -> (r: Option<(Vec<u8>, usize)>)
    requires
        i <= t@.len(),
    ensures
        match r {
            Some(p) => i < p.1 <= t@.len() && json_str_body(t@.skip(i as int)) == Some(
                (p.0@, t@.skip(p.1 as int)),
            ),
            None => json_str_body(t@.skip(i as int)) is None,
        },
    decreases t@.len() - i,
{
    let ghost tt = t@.skip(i as int);
    if i == t.len() {
        return None;
    }
    let b = t[i];
    proof {
        assert(tt.first() == b);
    }
    if b == '"' as u8 {
        proof {
            assert(tt.drop_first() =~= t@.skip(i + 1));
        }
        Some((Vec::new(), i + 1))
    } else if b == '\\' as u8 {
        if t.len() - i < 2 {
            return None;
        }
        let e = t[i + 1];
        proof {
            assert(tt[1] == e);
        }
        if e == '"' as u8 || e == '\\' as u8 || e == '/' as u8 || e == 'b' as u8 || e == 't' as u8
            || e == 'n' as u8 || e == 'f' as u8 || e == 'r' as u8 {
            let c: u8 = if e == 'b' as u8 {
                8
            } else if e == 't' as u8 {
                9
            } else if e == 'n' as u8 {
                10
            } else if e == 'f' as u8 {
                12
            } else if e == 'r' as u8 {
                13
            } else {
                e
            };
            proof {
                assert(c == short_unescape(e));
                assert(tt.skip(2) =~= t@.skip(i + 2));
            }
            match json_str_exec(t, i + 2) {
                Some((mut v, j)) => {
                    let ghost v0 = v@;
                    v.insert(0, c);
                    proof {
                        assert(v@ =~= seq![c] + v0);
                    }
                    Some((v, j))
                },
                None => None,
            }
        } else if e == 'u' as u8 {
            if t.len() - i < 6 {
                return None;
            }
            proof {
                assert(tt[2] == t@[i + 2] && tt[3] == t@[i + 3] && tt[4] == t@[i + 4] && tt[5]
                    == t@[i + 5]);
            }
            if !(is_hex_digit_exec(t[i + 2]) && is_hex_digit_exec(t[i + 3]) && is_hex_digit_exec(
                t[i + 4],
            ) && is_hex_digit_exec(t[i + 5])) {
                return None;
            }
            let cp = hex4_exec(t, i + 2);
            if 0xd800 <= cp && cp <= 0xdbff {
                if t.len() - i < 12 {
                    return None;
                }
                proof {
                    assert(tt[6] == t@[i + 6] && tt[7] == t@[i + 7]);
                    assert(tt[8] == t@[i + 8] && tt[9] == t@[i + 9] && tt[10] == t@[i + 10]
                        && tt[11] == t@[i + 11]);
                }
                if !(t[i + 6] == '\\' as u8 && t[i + 7] == 'u' as u8) {
                    return None;
                }
                if !(is_hex_digit_exec(t[i + 8]) && is_hex_digit_exec(t[i + 9])
                    && is_hex_digit_exec(t[i + 10]) && is_hex_digit_exec(t[i + 11])) {
                    return None;
                }
                let lo = hex4_exec(t, i + 8);
                if !(0xdc00 <= lo && lo <= 0xdfff) {
                    return None;
                }
                let scalar: u32 = 0x10000 + (cp - 0xd800) * 1024 + (lo - 0xdc00);
                proof {
                    assert(tt.skip(12) =~= t@.skip(i + 12));
                }
                match json_str_exec(t, i + 12) {
                    Some((mut v, j)) => {
                        utf8_prepend(&mut v, scalar);
                        Some((v, j))
                    },
                    None => None,
                }
            } else if 0xdc00 <= cp && cp <= 0xdfff {
                None
            } else {
                proof {
                    assert(tt.skip(6) =~= t@.skip(i + 6));
                }
                match json_str_exec(t, i + 6) {
                    Some((mut v, j)) => {
                        utf8_prepend(&mut v, cp);
                        Some((v, j))
                    },
                    None => None,
                }
            }
        } else {
            None
        }
    } else if b < 32 {
        None
    } else {
        proof {
            assert(tt.drop_first() =~= t@.skip(i + 1));
        }
        match json_str_exec(t, i + 1) {
            Some((mut v, j)) => {
                let ghost v0 = v@;
                v.insert(0, b);
                proof {
                    assert(v@ =~= seq![b] + v0);
                }
                Some((v, j))
            },
            None => None,
        }
    }
}

/// True where `t` carries the pattern `pat` at position `i`.
pub fn match_at(t: &[u8], i: usize, pat: &[u8]) -> (r: bool)
    requires
        i <= t@.len(),
    ensures
        r == starts_with(t@.skip(i as int), pat@),
{
    let ghost tt = t@.skip(i as int);
    if t.len() - i < pat.len() {
        return false;
    }
    let mut k: usize = 0;
    while k < pat.len()
        invariant
            k <= pat@.len(),
            i + pat@.len() <= t@.len(),
            t@.len() <= usize::MAX,
            tt == t@.skip(i as int),
            forall|m: int| 0 <= m < k ==> t@[i + m] == pat@[m],
        decreases pat@.len() - k,
    {
        proof {
            assert(i + k < t@.len());
        }
        if t[i + k] != pat[k] {
            proof {
                assert(tt.len() == t@.len() - i);
                assert(tt.take(pat@.len() as int)[k as int] == tt[k as int]);
                assert(tt[k as int] == t@[i + k]);
                assert(tt.take(pat@.len() as int) != pat@);
            }
            return false;
        }
        k = k + 1;
    }
    proof {
        assert forall|m: int| 0 <= m < pat@.len() implies tt.take(pat@.len() as int)[m]
            == pat@[m] by {
            assert(tt.take(pat@.len() as int)[m] == tt[m]);
            assert(tt[m] == t@[i + m]);
        }
        assert(tt.take(pat@.len() as int) =~= pat@);
    }
    true
}

} // verus!
