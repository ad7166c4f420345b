//! The on-disk representation of a credential: one canonical JSON
//! record, written and read by this crate itself so that both directions
//! carry exact contracts and the round trip is provable.

use vstd::prelude::*;
use vstd::string::StrSliceExecFns;
use vstd::string::StringExecFns;
use crate::token::TokenResponse;

verus! {

// ---------------------------------------------------------------------
// The format, as specification
// ---------------------------------------------------------------------
/// The lowercase hexadecimal digit characters.
pub open spec fn hex_char(d: nat) -> char {
    if d == 0 {
        '0'
    } else if d == 1 {
        '1'
    } else if d == 2 {
        '2'
    } else if d == 3 {
        '3'
    } else if d == 4 {
        '4'
    } else if d == 5 {
        '5'
    } else if d == 6 {
        '6'
    } else if d == 7 {
        '7'
    } else if d == 8 {
        '8'
    } else if d == 9 {
        '9'
    } else if d == 10 {
        'a'
    } else if d == 11 {
        'b'
    } else if d == 12 {
        'c'
    } else if d == 13 {
        'd'
    } else if d == 14 {
        'e'
    } else {
        'f'
    }
}

/// How one character is written inside a JSON string: quotes and
/// backslashes take a backslash escape, control characters the
/// four-digit form with lowercase hex, everything else stands as is.
pub open spec fn esc_char(c: char) -> Seq<char> {
    if c == '"' || c == '\\' {
        seq!['\\', c]
    } else if (c as u32) < 32 {
        seq!['\\', 'u', '0', '0', hex_char((c as u32 / 16) as nat), hex_char((c as u32 % 16) as nat)]
    } else {
        seq![c]
    }
}

/// A whole string's characters, escaped.
pub open spec fn esc(s: Seq<char>) -> Seq<char>
    decreases s.len(),
{
    if s.len() == 0 {
        Seq::empty()
    } else {
        esc_char(s[0]) + esc(s.subrange(1, s.len() as int))
    }
}

/// A JSON string literal: the escaped characters between quotes.
pub open spec fn quoted(s: Seq<char>) -> Seq<char> {
    seq!['"'] + esc(s) + seq!['"']
}

/// The decimal digit characters.
pub open spec fn digit_char(d: nat) -> char {
    if d == 0 {
        '0'
    } else if d == 1 {
        '1'
    } else if d == 2 {
        '2'
    } else if d == 3 {
        '3'
    } else if d == 4 {
        '4'
    } else if d == 5 {
        '5'
    } else if d == 6 {
        '6'
    } else if d == 7 {
        '7'
    } else if d == 8 {
        '8'
    } else {
        '9'
    }
}

/// A number in decimal, most significant digit first, no leading zeros.
pub open spec fn dec_spec(n: nat) -> Seq<char>
    decreases n,
{
    if n < 10 {
        seq![digit_char(n)]
    } else {
        dec_spec(n / 10) + seq![digit_char(n % 10)]
    }
}

/// An optional string field: a JSON string, or `null`.
pub open spec fn json_opt_str(o: Option<String>) -> Seq<char> {
    match o {
        Some(s) => quoted(s@),
        None => "null"@,
    }
}

/// An optional numeric field: decimal digits, or `null`.
pub open spec fn json_opt_num(o: Option<u64>) -> Seq<char> {
    match o {
        Some(n) => dec_spec(n as nat),
        None => "null"@,
    }
}

/// The canonical JSON record of a credential: one object holding the
/// five fields in a fixed order, without whitespace.
pub open spec fn json_of(t: TokenResponse) -> Seq<char> {
    "{\"access_token\":"@ + (quoted(t.access_token@) + (",\"refresh_token\":"@ + (json_opt_str(
        t.refresh_token,
    ) + (",\"expires_in\":"@ + (dec_spec(t.expires_in as nat) + (",\"token_type\":"@ + (quoted(
        t.token_type@,
    ) + (",\"expires_at\":"@ + (json_opt_num(t.expires_at) + "}"@)))))))))
}

/// Escaping distributes over concatenation.
proof fn lemma_esc_concat(a: Seq<char>, b: Seq<char>)
    ensures
        esc(a + b) == esc(a) + esc(b),
    decreases a.len(),
{
    if a.len() == 0 {
        assert(a + b =~= b);
        assert(esc(a) + esc(b) =~= esc(b));
    } else {
        let a1 = a.subrange(1, a.len() as int);
        assert((a + b).subrange(1, (a + b).len() as int) =~= a1 + b);
        lemma_esc_concat(a1, b);
        assert(esc(a + b) =~= esc(a) + esc(b));
    }
}

// ---------------------------------------------------------------------
// The grammar, as specification scanners
// ---------------------------------------------------------------------
/// A decimal digit character.
pub open spec fn is_digit(c: char) -> bool {
    48 <= c as u32 <= 57
}

/// The numeric value of a digit character.
pub open spec fn digit_val(c: char) -> nat {
    if is_digit(c) {
        (c as u32 - 48) as nat
    } else {
        0
    }
}

/// A lowercase hexadecimal digit character.
pub open spec fn is_lhex(c: char) -> bool {
    is_digit(c) || 97 <= c as u32 <= 102
}

/// The numeric value of a lowercase hexadecimal digit character.
pub open spec fn hex_val(c: char) -> nat {
    if is_digit(c) {
        digit_val(c)
    } else if 97 <= c as u32 <= 102 {
        (c as u32 - 87) as nat
    } else {
        0
    }
}

/// Scans a JSON string body from `i` (just past the opening quote) up to
/// its unescaped closing quote: the unescaped content and the position
/// just past the closing quote.
pub open spec fn scan_str_spec(s: Seq<char>, i: int) -> Option<(Seq<char>, int)>
    decreases s.len() - i,
{
    if i < 0 || i >= s.len() {
        None
    } else if s[i] == '"' {
        Some((Seq::empty(), i + 1))
    } else if s[i] == '\\' {
        if i + 1 < s.len() && (s[i + 1] == '"' || s[i + 1] == '\\') {
            match scan_str_spec(s, i + 2) {
                Some(p) => Some((seq![s[i + 1]] + p.0, p.1)),
                None => None,
            }
        } else if i + 5 < s.len() && s[i + 1] == 'u' && s[i + 2] == '0' && s[i + 3] == '0'
            && is_lhex(s[i + 4]) && is_lhex(s[i + 5]) && 16 * hex_val(s[i + 4]) + hex_val(
            s[i + 5],
        ) < 32 {
            match scan_str_spec(s, i + 6) {
                Some(p) => Some(
                    (
                        seq![(((16 * hex_val(s[i + 4]) + hex_val(s[i + 5])) as u8) as char)] + p.0,
                        p.1,
                    ),
                ),
                None => None,
            }
        } else {
            None
        }
    } else if (s[i] as u32) >= 32 {
        match scan_str_spec(s, i + 1) {
            Some(p) => Some((seq![s[i]] + p.0, p.1)),
            None => None,
        }
    } else {
        None
    }
}

/// The first position at or after `i` that does not hold a digit.
pub open spec fn digits_end(s: Seq<char>, i: int) -> int
    decreases s.len() - i,
{
    if i < 0 || i >= s.len() {
        i
    } else if is_digit(s[i]) {
        digits_end(s, i + 1)
    } else {
        i
    }
}

/// The value of the digits `s[i..j)`, read in base ten.
pub open spec fn digits_val(s: Seq<char>, i: int, j: int) -> nat
    decreases j - i,
{
    if j <= i {
        0
    } else {
        digits_val(s, i, j - 1) * 10 + digit_val(s[j - 1])
    }
}

/// Scans a decimal number from `i`: its value and the position just past
/// its digits. `None` where no digit stands at `i`, and on a leading
/// zero, which no canonical rendering carries.
pub open spec fn scan_num_spec(s: Seq<char>, i: int) -> Option<(nat, int)> {
    if 0 <= i < s.len() && is_digit(s[i]) && !(s[i] == '0' && i + 1 < s.len() && is_digit(
        s[i + 1],
    )) {
        Some((digits_val(s, i, digits_end(s, i)), digits_end(s, i)))
    } else {
        None
    }
}

/// A literal expected at `i`: the position just past it, where it stands.
pub open spec fn expect_at(s: Seq<char>, i: int, lit: Seq<char>) -> Option<int> {
    if 0 <= i && i + lit.len() <= s.len() && s.subrange(i, i + lit.len()) == lit {
        Some(i + lit.len())
    } else {
        None
    }
}

/// An optional string field at `i`: a quoted string, or the word `null`.
pub open spec fn parse_opt_str_at(s: Seq<char>, i: int) -> Option<(Option<Seq<char>>, int)> {
    if 0 <= i < s.len() && s[i] == '"' {
        match scan_str_spec(s, i + 1) {
            Some(p) => Some((Some(p.0), p.1)),
            None => None,
        }
    } else {
        match expect_at(s, i, "null"@) {
            Some(j) => Some((None, j)),
            None => None,
        }
    }
}

/// An optional numeric field at `i`: the word `null`, or decimal digits.
pub open spec fn parse_opt_num_at(s: Seq<char>, i: int) -> Option<(Option<nat>, int)> {
    match expect_at(s, i, "null"@) {
        Some(j) => Some((None, j)),
        None => match scan_num_spec(s, i) {
            Some(p) => Some((Some(p.0), p.1)),
            None => None,
        },
    }
}

/// The whole record: the five fields of the canonical object, in order,
/// with nothing left over at the end.
pub open spec fn parse_spec(s: Seq<char>) -> Option<
    (Seq<char>, Option<Seq<char>>, nat, Seq<char>, Option<nat>),
> {
    match expect_at(s, 0, "{\"access_token\":"@) {
        None => None,
        Some(i1) => if !(i1 < s.len() && s[i1] == '"') {
            None
        } else {
            match scan_str_spec(s, i1 + 1) {
                None => None,
                Some((acc, i2)) => match expect_at(s, i2, ",\"refresh_token\":"@) {
                    None => None,
                    Some(i3) => match parse_opt_str_at(s, i3) {
                        None => None,
                        Some((rt, i4)) => match expect_at(s, i4, ",\"expires_in\":"@) {
                            None => None,
                            Some(i5) => match scan_num_spec(s, i5) {
                                None => None,
                                Some((ein, i6)) => match expect_at(s, i6, ",\"token_type\":"@) {
                                    None => None,
                                    Some(i7) => if !(i7 < s.len() && s[i7] == '"') {
                                        None
                                    } else {
                                        match scan_str_spec(s, i7 + 1) {
                                            None => None,
                                            Some((tt, i8)) => match expect_at(
                                                s,
                                                i8,
                                                ",\"expires_at\":"@,
                                            ) {
                                                None => None,
                                                Some(i9) => match parse_opt_num_at(s, i9) {
                                                    None => None,
                                                    Some((eat, i10)) => match expect_at(
                                                        s,
                                                        i10,
                                                        "}"@,
                                                    ) {
                                                        None => None,
                                                        Some(i11) => if i11 == s.len() {
                                                            Some((acc, rt, ein, tt, eat))
                                                        } else {
                                                            None
                                                        },
                                                    },
                                                },
                                            },
                                        }
                                    },
                                },
                            },
                        },
                    },
                },
            }
        },
    }
}

// ---------------------------------------------------------------------
// The scanners invert the writers
// ---------------------------------------------------------------------
/// Consuming a known head of a suffix leaves exactly the tail.
proof fn lemma_drop_prefix(s: Seq<char>, i: int, head: Seq<char>, tail: Seq<char>)
    requires
        0 <= i <= s.len(),
        s.subrange(i, s.len() as int) == head + tail,
    ensures
        i + head.len() <= s.len(),
        s.subrange(i + head.len(), s.len() as int) == tail,
{
    let suf = s.subrange(i, s.len() as int);
    assert(suf.len() == head.len() + tail.len());
    let h = head.len() as int;
    assert forall|k: int| 0 <= k < tail.len() implies s.subrange(i + h, s.len() as int)[k]
        == tail[k] by {
        assert(s.subrange(i + h, s.len() as int)[k] == s[i + h + k]);
        assert(s[i + h + k] == suf[h + k]);
        assert(suf[h + k] == (head + tail)[h + k]);
    }
    assert(s.subrange(i + h, s.len() as int) =~= tail);
}

/// Scanning from just past an opening quote recovers exactly the
/// escaped content, wherever it stands and whatever follows the
/// closing quote.
proof fn lemma_scan_str_esc(s: Seq<char>, i: int, a: Seq<char>, rest: Seq<char>)
    requires
        0 <= i <= s.len(),
        s.subrange(i, s.len() as int) == esc(a) + seq!['"'] + rest,
    ensures
        scan_str_spec(s, i) == Some((a, i + esc(a).len() + 1)),
    decreases a.len(),
{
    let suf = s.subrange(i, s.len() as int);
    let whole = esc(a) + seq!['"'] + rest;
    assert(suf.len() == esc(a).len() + 1 + rest.len());
    assert(i < s.len());
    if a.len() == 0 {
        assert(esc(a) =~= Seq::<char>::empty());
        assert(whole[0] == '"');
        assert(s[i] == suf[0]);
        assert(s[i] == '"');
    } else {
        let c = a[0];
        let a1 = a.subrange(1, a.len() as int);
        assert(esc(a) == esc_char(c) + esc(a1));
        assert(a =~= seq![c] + a1);
        if c == '"' || c == '\\' {
            assert(esc(a).len() == 2 + esc(a1).len());
            assert(whole[0] == esc_char(c)[0]);
            assert(whole[1] == esc_char(c)[1]);
            assert(s[i] == suf[0]);
            assert(s[i + 1] == suf[1]);
            assert(s[i] == '\\');
            assert(s[i + 1] == c);
            assert(suf =~= esc_char(c) + (esc(a1) + seq!['"'] + rest));
            lemma_drop_prefix(s, i, esc_char(c), esc(a1) + seq!['"'] + rest);
            lemma_scan_str_esc(s, i + 2, a1, rest);
            assert(seq![s[i + 1]] + a1 =~= a);
        } else if (c as u32) < 32 {
            let u = c as u32;
            lemma_hex_char_val((u / 16) as nat);
            lemma_hex_char_val((u % 16) as nat);
            assert(esc(a).len() == 6 + esc(a1).len());
            assert(s[i] == suf[0]);
            assert(s[i + 1] == suf[1]);
            assert(s[i + 2] == suf[2]);
            assert(s[i + 3] == suf[3]);
            assert(s[i + 4] == suf[4]);
            assert(s[i + 5] == suf[5]);
            assert(whole[0] == esc_char(c)[0]);
            assert(whole[1] == esc_char(c)[1]);
            assert(whole[2] == esc_char(c)[2]);
            assert(whole[3] == esc_char(c)[3]);
            assert(whole[4] == esc_char(c)[4]);
            assert(whole[5] == esc_char(c)[5]);
            assert(s[i] == '\\');
            assert(s[i + 1] == 'u');
            assert(s[i + 2] == '0');
            assert(s[i + 3] == '0');
            assert(s[i + 4] == hex_char((u / 16) as nat));
            assert(s[i + 5] == hex_char((u % 16) as nat));
            assert(16 * hex_val(s[i + 4]) + hex_val(s[i + 5]) == u) by {
                vstd::arithmetic::div_mod::lemma_fundamental_div_mod(u as int, 16);
            }
            assert((((16 * hex_val(s[i + 4]) + hex_val(s[i + 5])) as u8) as char) == c) by {
                vstd::utf8::char_u32_cast(c, ((u as u8) as u32));
            }
            assert(suf =~= esc_char(c) + (esc(a1) + seq!['"'] + rest));
            lemma_drop_prefix(s, i, esc_char(c), esc(a1) + seq!['"'] + rest);
            lemma_scan_str_esc(s, i + 6, a1, rest);
            assert(seq![(((16 * hex_val(s[i + 4]) + hex_val(s[i + 5])) as u8) as char)] + a1
                =~= a);
        } else {
            assert(esc(a).len() == 1 + esc(a1).len());
            assert(whole[0] == esc_char(c)[0]);
            assert(s[i] == suf[0]);
            assert(s[i] == c);
            assert(suf =~= esc_char(c) + (esc(a1) + seq!['"'] + rest));
            lemma_drop_prefix(s, i, esc_char(c), esc(a1) + seq!['"'] + rest);
            lemma_scan_str_esc(s, i + 1, a1, rest);
            assert(seq![s[i]] + a1 =~= a);
        }
    }
}

/// Hexadecimal digit characters carry their value, and are hex digits.
proof fn lemma_hex_char_val(d: nat)
    requires
        d < 16,
    ensures
        is_lhex(hex_char(d)),
        hex_val(hex_char(d)) == d,
{
}

/// A lowercase hex digit is recovered from its value.
proof fn lemma_hex_char_of_val(c: char)
    requires
        is_lhex(c),
    ensures
        hex_val(c) < 16,
        hex_char(hex_val(c)) == c,
{
}

/// Digit characters carry their value, and are digits.
proof fn lemma_digit_char_val(d: nat)
    requires
        d < 10,
    ensures
        is_digit(digit_char(d)),
        digit_val(digit_char(d)) == d,
{
}

/// A decimal rendering is never empty and holds digits only.
proof fn lemma_dec_all_digits(n: nat)
    ensures
        dec_spec(n).len() >= 1,
        forall|k: int| 0 <= k < dec_spec(n).len() ==> is_digit(#[trigger] dec_spec(n)[k]),
    decreases n,
{
    if n < 10 {
        lemma_digit_char_val(n);
    } else {
        lemma_dec_all_digits(n / 10);
        lemma_digit_char_val(n % 10);
        assert forall|k: int| 0 <= k < dec_spec(n).len() implies is_digit(
            #[trigger] dec_spec(n)[k],
        ) by {
            if k < dec_spec(n / 10).len() {
                assert(dec_spec(n)[k] == dec_spec(n / 10)[k]);
            } else {
                assert(dec_spec(n)[k] == digit_char(n % 10));
            }
        }
    }
}

/// A run of digits followed by a non-digit ends exactly where the run
/// ends.
proof fn lemma_digits_end_run(s: Seq<char>, i: int, d: Seq<char>, rest: Seq<char>)
    requires
        0 <= i <= s.len(),
        s.subrange(i, s.len() as int) == d + rest,
        forall|k: int| 0 <= k < d.len() ==> is_digit(#[trigger] d[k]),
        rest.len() == 0 || !is_digit(rest[0]),
    ensures
        digits_end(s, i) == i + d.len(),
    decreases d.len(),
{
    let suf = s.subrange(i, s.len() as int);
    assert(suf.len() == d.len() + rest.len());
    if d.len() == 0 {
        if rest.len() == 0 {
            assert(i == s.len());
        } else {
            assert(i < s.len());
            assert(s[i] == suf[0]);
            assert(suf[0] == rest[0]);
        }
    } else {
        assert(i < s.len());
        assert(s[i] == suf[0]);
        assert(suf[0] == d[0]);
        assert(is_digit(s[i]));
        let d1 = d.subrange(1, d.len() as int);
        assert(suf =~= seq![d[0]] + (d1 + rest));
        lemma_drop_prefix(s, i, seq![d[0]], d1 + rest);
        lemma_digits_end_run(s, i + 1, d1, rest);
    }
}

/// The digits of a decimal rendering evaluate back to the number.
proof fn lemma_digits_val_of_dec(s: Seq<char>, i: int, n: nat)
    requires
        0 <= i,
        i + dec_spec(n).len() <= s.len(),
        s.subrange(i, i + dec_spec(n).len()) == dec_spec(n),
    ensures
        digits_val(s, i, i + dec_spec(n).len()) == n,
    decreases n,
{
    lemma_dec_all_digits(n);
    if n < 10 {
        assert(s[i] == dec_spec(n)[0]);
        lemma_digit_char_val(n);
        assert(digits_val(s, i, i + 1) == digits_val(s, i, i) * 10 + digit_val(s[i]));
    } else {
        let hd = dec_spec(n / 10);
        let j = i + dec_spec(n).len();
        assert(dec_spec(n) == hd + seq![digit_char(n % 10)]);
        assert(s.subrange(i, i + hd.len()) =~= hd) by {
            assert forall|k: int| 0 <= k < hd.len() implies s.subrange(i, i + hd.len())[k] == hd[k] by {
                assert(s.subrange(i, i + dec_spec(n).len())[k] == dec_spec(n)[k]);
            }
        }
        lemma_digits_val_of_dec(s, i, n / 10);
        assert(s[j - 1] == dec_spec(n)[dec_spec(n).len() - 1]);
        assert(s[j - 1] == digit_char(n % 10));
        lemma_digit_char_val(n % 10);
        assert(digits_val(s, i, j) == digits_val(s, i, j - 1) * 10 + digit_val(s[j - 1]));
        assert(n / 10 * 10 + n % 10 == n) by {
            vstd::arithmetic::div_mod::lemma_fundamental_div_mod(n as int, 10);
        }
    }
}

/// A decimal rendering of ten or more never starts with a zero digit.
proof fn lemma_dec_no_leading_zero(n: nat)
    requires
        n >= 10,
    ensures
        dec_spec(n)[0] != '0',
    decreases n,
{
    lemma_dec_all_digits(n / 10);
    assert(dec_spec(n)[0] == dec_spec(n / 10)[0]);
    if n / 10 >= 10 {
        lemma_dec_no_leading_zero(n / 10);
    } else {
        assert(n / 10 >= 1);
        assert(dec_spec(n / 10) == seq![digit_char((n / 10) as nat)]);
    }
}

/// Scanning a decimal rendering followed by a non-digit recovers exactly
/// the number.
proof fn lemma_scan_num_dec(s: Seq<char>, i: int, n: nat, rest: Seq<char>)
    requires
        0 <= i <= s.len(),
        s.subrange(i, s.len() as int) == dec_spec(n) + rest,
        rest.len() == 0 || !is_digit(rest[0]),
    ensures
        scan_num_spec(s, i) == Some((n, i + dec_spec(n).len())),
{
    lemma_dec_all_digits(n);
    let suf = s.subrange(i, s.len() as int);
    assert(suf.len() == dec_spec(n).len() + rest.len());
    assert(i < s.len());
    assert(s[i] == suf[0]);
    assert(suf[0] == dec_spec(n)[0]);
    assert(is_digit(s[i]));
    assert(!(s[i] == '0' && i + 1 < s.len() && is_digit(s[i + 1]))) by {
        if s[i] == '0' && i + 1 < s.len() && is_digit(s[i + 1]) {
            if n >= 10 {
                lemma_dec_no_leading_zero(n);
            } else {
                // one digit only: the next character opens `rest`
                assert(dec_spec(n).len() == 1);
                assert(rest.len() > 0);
                assert(s[i + 1] == suf[1]);
                assert(suf[1] == rest[0]);
            }
        }
    }
    lemma_digits_end_run(s, i, dec_spec(n), rest);
    assert(s.subrange(i, i + dec_spec(n).len()) =~= dec_spec(n)) by {
        assert forall|k: int| 0 <= k < dec_spec(n).len() implies s.subrange(
            i,
            i + dec_spec(n).len(),
        )[k] == dec_spec(n)[k] by {
            assert(s.subrange(i, i + dec_spec(n).len())[k] == s[i + k]);
            assert(s[i + k] == suf[k]);
            assert(suf[k] == dec_spec(n)[k]);
        }
    }
    lemma_digits_val_of_dec(s, i, n);
}

/// Consuming a known head of a suffix finds the head and leaves the tail.
proof fn lemma_split_at(s: Seq<char>, i: int, head: Seq<char>, tail: Seq<char>)
    requires
        0 <= i <= s.len(),
        s.subrange(i, s.len() as int) == head + tail,
    ensures
        i + head.len() <= s.len(),
        s.subrange(i, i + head.len()) == head,
        s.subrange(i + head.len(), s.len() as int) == tail,
{
    lemma_drop_prefix(s, i, head, tail);
    let suf = s.subrange(i, s.len() as int);
    let h = head.len() as int;
    assert forall|k: int| 0 <= k < h implies s.subrange(i, i + h)[k] == head[k] by {
        assert(s.subrange(i, i + h)[k] == s[i + k]);
        assert(s[i + k] == suf[k]);
        assert(suf[k] == (head + tail)[k]);
    }
    assert(s.subrange(i, i + h) =~= head);
}

/// Peels one quoted string off the front of a suffix: the scanner finds
/// exactly the content, and exactly the tail is left.
proof fn lemma_peel_quoted(s: Seq<char>, i: int, x: Seq<char>, rest: Seq<char>)
    requires
        0 <= i <= s.len(),
        s.subrange(i, s.len() as int) == quoted(x) + rest,
    ensures
        i < s.len(),
        s[i] == '"',
        scan_str_spec(s, i + 1) == Some((x, i + quoted(x).len())),
        i + quoted(x).len() <= s.len(),
        s.subrange(i + quoted(x).len(), s.len() as int) == rest,
{
    assert(quoted(x) + rest =~= seq!['"'] + ((esc(x) + seq!['"']) + rest));
    lemma_split_at(s, i, seq!['"'], (esc(x) + seq!['"']) + rest);
    assert(s[i] == s.subrange(i, i + 1)[0]);
    lemma_scan_str_esc(s, i + 1, x, rest);
    lemma_drop_prefix(s, i + 1, esc(x) + seq!['"'], rest);
    assert(i + 1 + esc(x).len() + 1 == i + quoted(x).len());
}

/// Peels one decimal number off the front of a suffix, where what
/// follows does not begin with a digit.
proof fn lemma_peel_num(s: Seq<char>, i: int, n: nat, rest: Seq<char>)
    requires
        0 <= i <= s.len(),
        s.subrange(i, s.len() as int) == dec_spec(n) + rest,
        rest.len() == 0 || !is_digit(rest[0]),
    ensures
        i < s.len(),
        is_digit(s[i]),
        scan_num_spec(s, i) == Some((n, i + dec_spec(n).len())),
        i + dec_spec(n).len() <= s.len(),
        s.subrange(i + dec_spec(n).len(), s.len() as int) == rest,
{
    lemma_scan_num_dec(s, i, n, rest);
    lemma_dec_all_digits(n);
    let suf = s.subrange(i, s.len() as int);
    assert(suf.len() == dec_spec(n).len() + rest.len());
    assert(s[i] == suf[0]);
    assert(suf[0] == dec_spec(n)[0]);
    lemma_drop_prefix(s, i, dec_spec(n), rest);
}

/// A digit character is recovered from its value.
proof fn lemma_digit_char_of_val(c: char)
    requires
        is_digit(c),
    ensures
        digit_val(c) < 10,
        digit_char(digit_val(c)) == c,
{
}

/// Adjacent subranges concatenate to the enclosing one.
proof fn lemma_cat_subranges(s: Seq<char>, i: int, k: int, j: int)
    requires
        0 <= i <= k <= j <= s.len(),
    ensures
        s.subrange(i, j) == s.subrange(i, k) + s.subrange(k, j),
{
    assert(s.subrange(i, j) =~= s.subrange(i, k) + s.subrange(k, j));
}

/// What the string scanner accepted is exactly the escaped content with
/// its closing quote.
proof fn lemma_scan_str_sound(s: Seq<char>, i: int)
    requires
        scan_str_spec(s, i) is Some,
    ensures
        ({
            let (a, j) = scan_str_spec(s, i).unwrap();
            i < j <= s.len() && s.subrange(i, j) == esc(a) + seq!['"']
        }),
    decreases s.len() - i,
{
    let (a, j) = scan_str_spec(s, i).unwrap();
    if s[i] == '"' {
        assert(s.subrange(i, i + 1) =~= esc(Seq::<char>::empty()) + seq!['"']);
    } else if s[i] == '\\' {
        if i + 1 < s.len() && (s[i + 1] == '"' || s[i + 1] == '\\') {
            lemma_scan_str_sound(s, i + 2);
            let (a1, j1) = scan_str_spec(s, i + 2).unwrap();
            assert(a == seq![s[i + 1]] + a1);
            assert(a[0] == s[i + 1]);
            assert(a.subrange(1, a.len() as int) =~= a1);
            assert(esc(a) == esc_char(s[i + 1]) + esc(a1));
            assert(esc_char(s[i + 1]) =~= seq![s[i], s[i + 1]]);
            assert(s.subrange(i, i + 2) =~= seq![s[i], s[i + 1]]);
            lemma_cat_subranges(s, i, i + 2, j);
            assert(s.subrange(i, j) =~= esc(a) + seq!['"']);
        } else {
            let v = 16 * hex_val(s[i + 4]) + hex_val(s[i + 5]);
            let ch = ((v as u8) as char);
            lemma_scan_str_sound(s, i + 6);
            let (a1, j1) = scan_str_spec(s, i + 6).unwrap();
            assert(a == seq![ch] + a1);
            assert(a[0] == ch);
            assert(a.subrange(1, a.len() as int) =~= a1);
            assert(esc(a) == esc_char(ch) + esc(a1));
            assert(ch as u32 == v);
            lemma_hex_char_of_val(s[i + 4]);
            lemma_hex_char_of_val(s[i + 5]);
            assert(v / 16 == hex_val(s[i + 4]) && v % 16 == hex_val(s[i + 5])) by {
                vstd::arithmetic::div_mod::lemma_fundamental_div_mod_converse(
                    v as int,
                    16,
                    hex_val(s[i + 4]) as int,
                    hex_val(s[i + 5]) as int,
                );
            }
            assert(esc_char(ch) =~= seq![s[i], s[i + 1], s[i + 2], s[i + 3], s[i + 4], s[i + 5]]);
            assert(s.subrange(i, i + 6) =~= seq![
                s[i],
                s[i + 1],
                s[i + 2],
                s[i + 3],
                s[i + 4],
                s[i + 5],
            ]);
            lemma_cat_subranges(s, i, i + 6, j);
            assert(s.subrange(i, j) =~= esc(a) + seq!['"']);
        }
    } else {
        lemma_scan_str_sound(s, i + 1);
        let (a1, j1) = scan_str_spec(s, i + 1).unwrap();
        assert(a == seq![s[i]] + a1);
        assert(a[0] == s[i]);
        assert(a.subrange(1, a.len() as int) =~= a1);
        assert(esc(a) == esc_char(s[i]) + esc(a1));
        assert(esc_char(s[i]) =~= seq![s[i]]);
        assert(s.subrange(i, i + 1) =~= seq![s[i]]);
        lemma_cat_subranges(s, i, i + 1, j);
        assert(s.subrange(i, j) =~= esc(a) + seq!['"']);
    }
}

/// Everything up to the digits' end is a digit, and the end stays inside
/// the input.
proof fn lemma_digits_end_digits(s: Seq<char>, i: int)
    requires
        0 <= i <= s.len(),
    ensures
        i <= digits_end(s, i) <= s.len(),
        forall|k: int| i <= k < digits_end(s, i) ==> is_digit(#[trigger] s[k]),
    decreases s.len() - i,
{
    if i < s.len() && is_digit(s[i]) {
        lemma_digits_end_digits(s, i + 1);
    }
}

/// A run of digits without a leading zero renders back to its own text.
proof fn lemma_digits_to_dec(s: Seq<char>, i: int, j: int)
    requires
        0 <= i < j <= s.len(),
        forall|k: int| i <= k < j ==> is_digit(#[trigger] s[k]),
        j - i == 1 || s[i] != '0',
    ensures
        dec_spec(digits_val(s, i, j)) == s.subrange(i, j),
    decreases j - i,
{
    if j - i == 1 {
        let v = digits_val(s, i, j);
        assert(v == digits_val(s, i, i) * 10 + digit_val(s[i]));
        lemma_digit_char_of_val(s[i]);
        assert(dec_spec(v) == seq![digit_char(digit_val(s[i]))]);
        assert(s.subrange(i, j) =~= seq![s[i]]);
    } else {
        let v1 = digits_val(s, i, j - 1);
        let d = digit_val(s[j - 1]);
        lemma_digit_char_of_val(s[j - 1]);
        let v = digits_val(s, i, j);
        assert(v == v1 * 10 + d);
        assert(v1 >= 1) by {
            lemma_digit_char_of_val(s[i]);
            assert(digits_val(s, i, i + 1) == digits_val(s, i, i) * 10 + digit_val(s[i]));
            assert(digit_val(s[i]) >= 1);
            lemma_digits_val_mono(s, i, i + 1, j - 1);
        }
        assert(v / 10 == v1 && v % 10 == d) by {
            vstd::arithmetic::div_mod::lemma_fundamental_div_mod_converse(
                v as int,
                10,
                v1 as int,
                d as int,
            );
        }
        assert(v >= 10);
        lemma_digits_to_dec(s, i, j - 1);
        assert(dec_spec(v) == dec_spec(v1) + seq![digit_char(d)]);
        assert(s.subrange(j - 1, j) =~= seq![s[j - 1]]);
        lemma_cat_subranges(s, i, j - 1, j);
        assert(dec_spec(v) =~= s.subrange(i, j));
    }
}

/// What the number scanner accepted is exactly a canonical decimal
/// rendering of its value.
proof fn lemma_scan_num_sound(s: Seq<char>, i: int)
    requires
        scan_num_spec(s, i) is Some,
    ensures
        ({
            let (v, j) = scan_num_spec(s, i).unwrap();
            i < j <= s.len() && s.subrange(i, j) == dec_spec(v)
        }),
{
    let (v, j) = scan_num_spec(s, i).unwrap();
    lemma_digits_end_digits(s, i);
    assert(digits_end(s, i) == digits_end(s, i + 1));
    lemma_digits_end_ge(s, i + 1);
    assert(j > i);
    if j - i > 1 {
        assert(is_digit(s[i + 1]));
        assert(s[i] != '0');
    }
    lemma_digits_to_dec(s, i, j);
}

/// The round trip: the canonical record of any credential parses back to
/// exactly its field values, whatever the tokens hold.
#[verifier::spinoff_prover]
#[verifier::rlimit(100)]
pub proof fn lemma_codec_round_trip(t: TokenResponse)
    ensures
        parse_spec(json_of(t)) matches Some(m) && {
            &&& m.0 == t.access_token@
            &&& match (t.refresh_token, m.1) {
                (Some(a), Some(b)) => a@ == b,
                (None, None) => true,
                _ => false,
            }
            &&& m.2 == t.expires_in as nat
            &&& m.3 == t.token_type@
            &&& match (t.expires_at, m.4) {
                (Some(a), Some(b)) => a as nat == b,
                (None, None) => true,
                _ => false,
            }
        },
{
    let s = json_of(t);
    let l1 = "{\"access_token\":"@;
    let l2 = ",\"refresh_token\":"@;
    let l3 = ",\"expires_in\":"@;
    let l4 = ",\"token_type\":"@;
    let l5 = ",\"expires_at\":"@;
    let l6 = "}"@;
    let acc = t.access_token@;
    let tt = t.token_type@;
    let r = json_opt_str(t.refresh_token);
    let d = dec_spec(t.expires_in as nat);
    let e = json_opt_num(t.expires_at);
    reveal_strlit(",\"token_type\":");
    reveal_strlit("}");
    reveal_strlit("null");
    let rest1 = quoted(acc) + (l2 + (r + (l3 + (d + (l4 + (quoted(tt) + (l5 + (e + l6))))))));
    let rest2 = l2 + (r + (l3 + (d + (l4 + (quoted(tt) + (l5 + (e + l6)))))));
    let rest3 = r + (l3 + (d + (l4 + (quoted(tt) + (l5 + (e + l6))))));
    let rest4 = l3 + (d + (l4 + (quoted(tt) + (l5 + (e + l6)))));
    let rest5 = d + (l4 + (quoted(tt) + (l5 + (e + l6))));
    let rest6 = l4 + (quoted(tt) + (l5 + (e + l6)));
    let rest7 = quoted(tt) + (l5 + (e + l6));
    let rest8 = l5 + (e + l6);
    let rest9 = e + l6;
    assert(s.subrange(0, s.len() as int) =~= s);
    // opening literal and access_token
    lemma_split_at(s, 0, l1, rest1);
    let i1 = l1.len() as int;
    assert(expect_at(s, 0, l1) == Some(i1));
    lemma_peel_quoted(s, i1, acc, rest2);
    let i2 = i1 + quoted(acc).len();
    // refresh_token
    lemma_split_at(s, i2, l2, rest3);
    let i3 = i2 + l2.len();
    assert(expect_at(s, i2, l2) == Some(i3));
    let i4 = i3 + r.len();
    match t.refresh_token {
        Some(rt) => {
            assert(r == quoted(rt@));
            assert(rest3 == quoted(rt@) + rest4);
            lemma_peel_quoted(s, i3, rt@, rest4);
            assert(parse_opt_str_at(s, i3) == Some((Some(rt@), i4)));
        },
        None => {
            assert(r == "null"@);
            assert(rest3 == r + rest4);
            lemma_split_at(s, i3, r, rest4);
            assert(s[i3] == s.subrange(i3, i3 + 4)[0]);
            assert(s[i3] == 'n');
            assert(expect_at(s, i3, "null"@) == Some(i4));
            assert(parse_opt_str_at(s, i3) == Some((None::<Seq<char>>, i4)));
        },
    }
    assert(s.subrange(i4, s.len() as int) == rest4);
    // expires_in
    lemma_split_at(s, i4, l3, rest5);
    let i5 = i4 + l3.len();
    assert(expect_at(s, i4, l3) == Some(i5));
    assert(rest6[0] == l4[0]);
    assert(!is_digit(rest6[0]));
    lemma_peel_num(s, i5, t.expires_in as nat, rest6);
    let i6 = i5 + d.len();
    assert(scan_num_spec(s, i5) == Some((t.expires_in as nat, i6)));
    // token_type
    lemma_split_at(s, i6, l4, rest7);
    let i7 = i6 + l4.len();
    assert(expect_at(s, i6, l4) == Some(i7));
    lemma_peel_quoted(s, i7, tt, rest8);
    let i8 = i7 + quoted(tt).len();
    // expires_at
    lemma_split_at(s, i8, l5, rest9);
    let i9 = i8 + l5.len();
    assert(expect_at(s, i8, l5) == Some(i9));
    let i10 = i9 + e.len();
    match t.expires_at {
        Some(n) => {
            assert(e == dec_spec(n as nat));
            assert(rest9 == e + l6);
            assert(l6[0] == '}');
            assert(!is_digit(l6[0]));
            lemma_peel_num(s, i9, n as nat, l6);
            assert(scan_num_spec(s, i9) == Some((n as nat, i10)));
            if expect_at(s, i9, "null"@) is Some {
                assert(s.subrange(i9, i9 + 4)[0] == s[i9]);
                assert(s[i9] == 'n');
                assert(false);
            }
            assert(parse_opt_num_at(s, i9) == Some((Some(n as nat), i10)));
        },
        None => {
            assert(e == "null"@);
            assert(rest9 == e + l6);
            lemma_split_at(s, i9, e, l6);
            assert(expect_at(s, i9, "null"@) == Some(i10));
            assert(parse_opt_num_at(s, i9) == Some((None::<nat>, i10)));
        },
    }
    assert(s.subrange(i10, s.len() as int) == l6);
    // closing brace, end of input
    assert(l6 =~= l6 + Seq::<char>::empty());
    lemma_split_at(s, i10, l6, Seq::<char>::empty());
    let i11 = i10 + 1;
    assert(expect_at(s, i10, l6) == Some(i11));
    assert(s.subrange(i11, s.len() as int) == Seq::<char>::empty());
    assert(s.len() - i11 == 0);
    assert(i11 == s.len());
    assert(parse_spec(s) == Some(
        (
            acc,
            match t.refresh_token {
                Some(rt) => Some(rt@),
                None => None,
            },
            t.expires_in as nat,
            tt,
            match t.expires_at {
                Some(n) => Some(n as nat),
                None => None,
            },
        ),
    ));
}

// ---------------------------------------------------------------------
// The encoder
// ---------------------------------------------------------------------
/// Relies on String::push: appends exactly the one character.
#[verifier::external_body]
fn push_char(out: &mut String, c: char)
    ensures
        final(out)@ == old(out)@ + seq![c],
{
    out.push(c);
}

/// Appends `s` with its quotes and backslashes escaped.
fn append_escaped(out: &mut String, s: &str)
    ensures
        final(out)@ == old(out)@ + esc(s@),
{
    let n = s.unicode_len();
    let mut i: usize = 0;
    proof {
        assert(s@.subrange(0, 0) =~= Seq::<char>::empty());
    }
    while i < n
        invariant
            n == s@.len(),
            i <= n,
            out@ == old(out)@ + esc(s@.subrange(0, i as int)),
        decreases n - i,
    {
        let c = s.get_char(i);
        let u = c as u32;
        if c == '"' || c == '\\' {
            push_char(out, '\\');
            push_char(out, c);
        } else if u < 32 {
            push_char(out, '\\');
            push_char(out, 'u');
            push_char(out, '0');
            push_char(out, '0');
            push_hex(out, u / 16);
            push_hex(out, u % 16);
        } else {
            push_char(out, c);
        }
        proof {
            let pre = s@.subrange(0, i as int);
            lemma_esc_concat(pre, seq![c]);
            assert(seq![c].subrange(1, 1) =~= Seq::<char>::empty());
            assert(esc(Seq::<char>::empty()) == Seq::<char>::empty());
            assert(esc(seq![c]) =~= esc_char(c) + Seq::<char>::empty());
            assert(esc(seq![c]) =~= esc_char(c));
            assert(s@.subrange(0, i + 1) =~= pre + seq![c]);
            assert(out@ =~= old(out)@ + esc(s@.subrange(0, i + 1)));
        }
        i += 1;
    }
    proof {
        assert(s@.subrange(0, n as int) =~= s@);
    }
}

/// Appends the one digit `d` as a character.
fn push_digit(out: &mut String, d: u64)
    requires
        d < 10,
    ensures
        final(out)@ == old(out)@ + seq![digit_char(d as nat)],
{
    if d == 0 {
        out.append("0");
        proof {
            reveal_strlit("0");
            assert(out@ =~= old(out)@ + seq![digit_char(d as nat)]);
        }
    } else if d == 1 {
        out.append("1");
        proof {
            reveal_strlit("1");
            assert(out@ =~= old(out)@ + seq![digit_char(d as nat)]);
        }
    } else if d == 2 {
        out.append("2");
        proof {
            reveal_strlit("2");
            assert(out@ =~= old(out)@ + seq![digit_char(d as nat)]);
        }
    } else if d == 3 {
        out.append("3");
        proof {
            reveal_strlit("3");
            assert(out@ =~= old(out)@ + seq![digit_char(d as nat)]);
        }
    } else if d == 4 {
        out.append("4");
        proof {
            reveal_strlit("4");
            assert(out@ =~= old(out)@ + seq![digit_char(d as nat)]);
        }
    } else if d == 5 {
        out.append("5");
        proof {
            reveal_strlit("5");
            assert(out@ =~= old(out)@ + seq![digit_char(d as nat)]);
        }
    } else if d == 6 {
        out.append("6");
        proof {
            reveal_strlit("6");
            assert(out@ =~= old(out)@ + seq![digit_char(d as nat)]);
        }
    } else if d == 7 {
        out.append("7");
        proof {
            reveal_strlit("7");
            assert(out@ =~= old(out)@ + seq![digit_char(d as nat)]);
        }
    } else if d == 8 {
        out.append("8");
        proof {
            reveal_strlit("8");
            assert(out@ =~= old(out)@ + seq![digit_char(d as nat)]);
        }
    } else {
        out.append("9");
        proof {
            reveal_strlit("9");
            assert(out@ =~= old(out)@ + seq![digit_char(d as nat)]);
        }
    }
}

/// Appends the one hexadecimal digit `d` as a lowercase character.
fn push_hex(out: &mut String, d: u32)
    requires
        d < 16,
    ensures
        final(out)@ == old(out)@ + seq![hex_char(d as nat)],
{
    if d < 10 {
        push_digit(out, d as u64);
        proof {
            assert(hex_char(d as nat) == digit_char(d as nat));
        }
    } else if d == 10 {
        out.append("a");
        proof {
            reveal_strlit("a");
            assert(out@ =~= old(out)@ + seq![hex_char(d as nat)]);
        }
    } else if d == 11 {
        out.append("b");
        proof {
            reveal_strlit("b");
            assert(out@ =~= old(out)@ + seq![hex_char(d as nat)]);
        }
    } else if d == 12 {
        out.append("c");
        proof {
            reveal_strlit("c");
            assert(out@ =~= old(out)@ + seq![hex_char(d as nat)]);
        }
    } else if d == 13 {
        out.append("d");
        proof {
            reveal_strlit("d");
            assert(out@ =~= old(out)@ + seq![hex_char(d as nat)]);
        }
    } else if d == 14 {
        out.append("e");
        proof {
            reveal_strlit("e");
            assert(out@ =~= old(out)@ + seq![hex_char(d as nat)]);
        }
    } else {
        out.append("f");
        proof {
            reveal_strlit("f");
            assert(out@ =~= old(out)@ + seq![hex_char(d as nat)]);
        }
    }
}

/// Appends `n` in decimal.
fn push_dec(out: &mut String, n: u64)
    ensures
        final(out)@ == old(out)@ + dec_spec(n as nat),
    decreases n,
{
    if n >= 10 {
        push_dec(out, n / 10);
        push_digit(out, n % 10);
        proof {
            assert(out@ =~= old(out)@ + dec_spec(n as nat));
        }
    } else {
        push_digit(out, n);
    }
}

/// Serializes a credential to its canonical JSON record.
#[verifier::rlimit(100)]
pub fn encode_token(t: &TokenResponse) -> (r: String)
    ensures
        r@ == json_of(*t),
{
    let mut out = "{\"access_token\":".to_owned();
    push_char(&mut out, '"');
    append_escaped(&mut out, t.access_token.as_str());
    push_char(&mut out, '"');
    out.append(",\"refresh_token\":");
    match &t.refresh_token {
        Some(s) => {
            push_char(&mut out, '"');
            append_escaped(&mut out, s.as_str());
            push_char(&mut out, '"');
        },
        None => {
            out.append("null");
        },
    }
    out.append(",\"expires_in\":");
    push_dec(&mut out, t.expires_in);
    out.append(",\"token_type\":");
    push_char(&mut out, '"');
    append_escaped(&mut out, t.token_type.as_str());
    push_char(&mut out, '"');
    out.append(",\"expires_at\":");
    match t.expires_at {
        Some(n) => {
            push_dec(&mut out, n);
        },
        None => {
            out.append("null");
        },
    }
    out.append("}");
    proof {
        assert(out@ =~= json_of(*t));
    }
    out
}

// ---------------------------------------------------------------------
// The decoder
// ---------------------------------------------------------------------
/// Positions never run backwards through the digits.
proof fn lemma_digits_end_ge(s: Seq<char>, i: int)
    ensures
        digits_end(s, i) >= i,
    decreases s.len() - i,
{
    if 0 <= i < s.len() && is_digit(s[i]) {
        lemma_digits_end_ge(s, i + 1);
    }
}

/// A longer digit run never has a smaller value.
proof fn lemma_digits_val_mono(s: Seq<char>, i: int, j1: int, j2: int)
    requires
        i <= j1 <= j2,
    ensures
        digits_val(s, i, j2) >= digits_val(s, i, j1),
    decreases j2 - j1,
{
    if j1 < j2 {
        lemma_digits_val_mono(s, i, j1, j2 - 1);
    }
}

/// The literal `lit` expected at `i`, as the spec scanner sees it.
fn expect_lit(s: &str, i: usize, lit: &str) -> (r: Option<usize>)
    requires
        s@.len() <= usize::MAX,
    ensures
        match r {
            Some(j) => expect_at(s@, i as int, lit@) == Some(j as int) && j <= s@.len(),
            None => expect_at(s@, i as int, lit@) is None,
        },
{
    let n = s.unicode_len();
    let m = lit.unicode_len();
    if i > n || m > n - i {
        None
    } else {
        if crate::request::match_at(s, lit, i) {
            Some(i + m)
        } else {
            None
        }
    }
}

/// Is the character `c` at position `i`?
fn expect_ch(s: &str, i: usize, c: char) -> (r: bool)
    requires
        s@.len() <= usize::MAX,
    ensures
        r == (i < s@.len() && s@[i as int] == c),
{
    i < s.unicode_len() && s.get_char(i) == c
}

/// A lowercase hexadecimal digit character's value.
fn hex_of(c: char) -> (r: Option<u32>)
    ensures
        r matches Some(v) ==> is_lhex(c) && v as nat == hex_val(c) && v < 16,
        r is None ==> !is_lhex(c),
{
    let u = c as u32;
    if 48 <= u && u <= 57 {
        Some(u - 48)
    } else if 97 <= u && u <= 102 {
        Some(u - 87)
    } else {
        None
    }
}

/// A digit character's value.
fn digit_of(c: char) -> (r: Option<u64>)
    ensures
        r matches Some(v) ==> is_digit(c) && v as nat == digit_val(c),
        r is None ==> !is_digit(c),
{
    let u = c as u32;
    if 48 <= u && u <= 57 {
        Some((u - 48) as u64)
    } else {
        None
    }
}

/// Scans a JSON string body from just past its opening quote, exactly as
/// the spec scanner does.
fn scan_string(s: &str, i: usize) -> (r: Option<(String, usize)>)
    requires
        i <= s@.len(),
        s@.len() <= usize::MAX,
    ensures
        match r {
            Some(p) => scan_str_spec(s@, i as int) == Some((p.0@, p.1 as int)) && p.1 <= s@.len(),
            None => scan_str_spec(s@, i as int) is None,
        },
    decreases s@.len() - i,
{
    let n = s.unicode_len();
    if i >= n {
        return None;
    }
    let c = s.get_char(i);
    if c == '"' {
        return Some((String::new(), i + 1));
    }
    if c == '\\' {
        if i + 1 >= n {
            return None;
        }
        let d2 = s.get_char(i + 1);
        if d2 == '"' || d2 == '\\' {
            match scan_string(s, i + 2) {
                Some((a, j)) => {
                    let mut pre = String::new();
                    push_char(&mut pre, d2);
                    let res = pre.concat(a.as_str());
                    proof {
                        assert(res@ =~= seq![s@[i + 1]] + a@);
                    }
                    Some((res, j))
                },
                None => None,
            }
        } else if d2 == 'u' {
            if n - i < 6 {
                return None;
            }
            if s.get_char(i + 2) != '0' || s.get_char(i + 3) != '0' {
                return None;
            }
            let h1 = match hex_of(s.get_char(i + 4)) {
                Some(v) => v,
                None => {
                    return None;
                },
            };
            let h2 = match hex_of(s.get_char(i + 5)) {
                Some(v) => v,
                None => {
                    return None;
                },
            };
            let v = 16 * h1 + h2;
            if v >= 32 {
                return None;
            }
            let ch = (v as u8) as char;
            match scan_string(s, i + 6) {
                Some((a, j)) => {
                    let mut pre = String::new();
                    push_char(&mut pre, ch);
                    let res = pre.concat(a.as_str());
                    proof {
                        assert(res@ =~= seq![
                            (((16 * hex_val(s@[i + 4]) + hex_val(s@[i + 5])) as u8) as char),
                        ] + a@);
                    }
                    Some((res, j))
                },
                None => None,
            }
        } else {
            None
        }
    } else if (c as u32) >= 32 {
        match scan_string(s, i + 1) {
            Some((a, j)) => {
                let mut pre = String::new();
                push_char(&mut pre, c);
                let res = pre.concat(a.as_str());
                proof {
                    assert(res@ =~= seq![s@[i as int]] + a@);
                }
                Some((res, j))
            },
            None => None,
        }
    } else {
        None
    }
}

/// Scans a decimal number, exactly as the spec scanner does; `None` also
/// where the digits name a value that does not fit in 64 bits.
fn scan_number(s: &str, i: usize) -> (r: Option<(u64, usize)>)
    requires
        i <= s@.len(),
        s@.len() <= usize::MAX,
    ensures
        match r {
            Some(p) => scan_num_spec(s@, i as int) == Some((p.0 as nat, p.1 as int)) && i < p.1
                <= s@.len(),
            None => scan_num_spec(s@, i as int) is None || (scan_num_spec(s@, i as int) matches
                Some(q) && q.0 > u64::MAX),
        },
{
    let n = s.unicode_len();
    if i >= n {
        return None;
    }
    let c0 = s.get_char(i);
    match digit_of(c0) {
        None => {
            return None;
        },
        Some(_) => {},
    }
    if c0 == '0' && i + 1 < n {
        match digit_of(s.get_char(i + 1)) {
            Some(_) => {
                return None;
            },
            None => {},
        }
    }
    let mut j: usize = i;
    let mut acc: u64 = 0;
    loop
        invariant
            n == s@.len(),
            s@.len() <= usize::MAX,
            i < n,
            i <= j <= n,
            is_digit(s@[i as int]),
            !(s@[i as int] == '0' && i + 1 < n && is_digit(s@[i + 1])),
            digits_end(s@, i as int) == digits_end(s@, j as int),
            acc as nat == digits_val(s@, i as int, j as int),
        ensures
            !(s@[i as int] == '0' && i + 1 < n && is_digit(s@[i + 1])),
            i <= j <= n,
            digits_end(s@, i as int) == digits_end(s@, j as int),
            acc as nat == digits_val(s@, i as int, j as int),
            j == n || !is_digit(s@[j as int]),
        decreases n - j,
    {
        if j >= n {
            break;
        }
        let c = s.get_char(j);
        match digit_of(c) {
            None => {
                break;
            },
            Some(d) => {
                if acc > (u64::MAX - d) / 10 {
                    proof {
                        let q = ((u64::MAX - d) / 10) as nat;
                        vstd::arithmetic::div_mod::lemma_fundamental_div_mod(
                            (u64::MAX - d) as int,
                            10,
                        );
                        assert(acc as nat * 10 >= (q + 1) * 10);
                        assert(digits_val(s@, i as int, j + 1) == acc as nat * 10 + digit_val(
                            s@[j as int],
                        ));
                        assert(digits_val(s@, i as int, j + 1) > u64::MAX);
                        assert(digits_end(s@, j as int) == digits_end(s@, j + 1));
                        lemma_digits_end_ge(s@, j + 1);
                        lemma_digits_val_mono(s@, i as int, j + 1, digits_end(s@, i as int));
                    }
                    return None;
                }
                acc = acc * 10 + d;
                j += 1;
            },
        }
    }
    proof {
        assert(digits_end(s@, j as int) == j);
        lemma_digits_end_ge(s@, i as int);
        assert(digits_end(s@, i as int) == j);
        assert(i < j) by {
            if i == j {
                assert(digits_end(s@, i as int) == digits_end(s@, i + 1));
                lemma_digits_end_ge(s@, i + 1);
            }
        }
    }
    Some((acc, j))
}

/// An optional string field: a quoted string or the word `null`, exactly
/// as the spec scanner sees it.
fn parse_opt_string(s: &str, i: usize) -> (r: Option<(Option<String>, usize)>)
    requires
        i <= s@.len(),
        s@.len() <= usize::MAX,
    ensures
        match r {
            Some(p) => parse_opt_str_at(s@, i as int) matches Some(q) && q.1 == p.1 as int && p.1
                <= s@.len() && (match (p.0, q.0) {
                (Some(a), Some(b)) => a@ == b,
                (None, None) => true,
                _ => false,
            }),
            None => parse_opt_str_at(s@, i as int) is None,
        },
{
    if expect_ch(s, i, '"') {
        match scan_string(s, i + 1) {
            Some((a, j)) => Some((Some(a), j)),
            None => None,
        }
    } else {
        match expect_lit(s, i, "null") {
            Some(j) => Some((None, j)),
            None => None,
        }
    }
}

/// An optional numeric field: the word `null` or digits, exactly as the
/// spec scanner sees it; `None` also where the value does not fit.
fn parse_opt_number(s: &str, i: usize) -> (r: Option<(Option<u64>, usize)>)
    requires
        i <= s@.len(),
        s@.len() <= usize::MAX,
    ensures
        match r {
            Some(p) => parse_opt_num_at(s@, i as int) matches Some(q) && q.1 == p.1 as int && p.1
                <= s@.len() && (match (p.0, q.0) {
                (Some(a), Some(b)) => a as nat == b,
                (None, None) => true,
                _ => false,
            }),
            None => parse_opt_num_at(s@, i as int) is None || (parse_opt_num_at(s@, i as int)
                matches Some(q) && q.0 matches Some(v) && v > u64::MAX),
        },
{
    match expect_lit(s, i, "null") {
        Some(j) => Some((None, j)),
        None => {
            match scan_number(s, i) {
                Some((v, j)) => Some((Some(v), j)),
                None => None,
            }
        },
    }
}

/// From the scanners' verdicts at each stage, the whole input is the
/// canonical record of the assembled credential.
proof fn lemma_parse_assemble(
    sv: Seq<char>,
    t: TokenResponse,
    i1: int,
    i2: int,
    i3: int,
    i4: int,
    i5: int,
    i6: int,
    i7: int,
    i8: int,
    i9: int,
    i10: int,
)
    requires
        expect_at(sv, 0, "{\"access_token\":"@) == Some(i1),
        0 <= i1 < sv.len() && sv[i1] == '"',
        scan_str_spec(sv, i1 + 1) == Some((t.access_token@, i2)),
        expect_at(sv, i2, ",\"refresh_token\":"@) == Some(i3),
        parse_opt_str_at(sv, i3) == Some(
            (
                match t.refresh_token {
                    Some(rt) => Some(rt@),
                    None => None::<Seq<char>>,
                },
                i4,
            ),
        ),
        expect_at(sv, i4, ",\"expires_in\":"@) == Some(i5),
        scan_num_spec(sv, i5) == Some((t.expires_in as nat, i6)),
        expect_at(sv, i6, ",\"token_type\":"@) == Some(i7),
        0 <= i7 < sv.len() && sv[i7] == '"',
        scan_str_spec(sv, i7 + 1) == Some((t.token_type@, i8)),
        expect_at(sv, i8, ",\"expires_at\":"@) == Some(i9),
        parse_opt_num_at(sv, i9) == Some(
            (
                match t.expires_at {
                    Some(v) => Some(v as nat),
                    None => None::<nat>,
                },
                i10,
            ),
        ),
        expect_at(sv, i10, "}"@) == Some(sv.len() as int),
    ensures
        sv == json_of(t),
{
    let len = sv.len() as int;
    // each scanner consumed exactly the piece the format prescribes
    lemma_scan_str_sound(sv, i1 + 1);
    assert(sv.subrange(i1, i1 + 1) =~= seq!['"']);
    lemma_cat_subranges(sv, i1, i1 + 1, i2);
    assert(sv.subrange(i1, i2) =~= quoted(t.access_token@));
    match t.refresh_token {
        Some(rtok) => {
            lemma_scan_str_sound(sv, i3 + 1);
            assert(sv.subrange(i3, i3 + 1) =~= seq!['"']);
            lemma_cat_subranges(sv, i3, i3 + 1, i4);
            assert(sv.subrange(i3, i4) =~= quoted(rtok@));
        },
        None => {
            assert(sv.subrange(i3, i4) == "null"@);
        },
    }
    assert(sv.subrange(i3, i4) == json_opt_str(t.refresh_token));
    lemma_scan_num_sound(sv, i5);
    assert(sv.subrange(i5, i6) == dec_spec(t.expires_in as nat));
    lemma_scan_str_sound(sv, i7 + 1);
    assert(sv.subrange(i7, i7 + 1) =~= seq!['"']);
    lemma_cat_subranges(sv, i7, i7 + 1, i8);
    assert(sv.subrange(i7, i8) =~= quoted(t.token_type@));
    match t.expires_at {
        Some(v) => {
            lemma_scan_num_sound(sv, i9);
            assert(sv.subrange(i9, i10) == dec_spec(v as nat));
        },
        None => {
            assert(sv.subrange(i9, i10) == "null"@);
        },
    }
    assert(sv.subrange(i9, i10) == json_opt_num(t.expires_at));
    // the pieces concatenate back to the whole input
    assert(sv.subrange(i10, len) == "}"@);
    lemma_cat_subranges(sv, i9, i10, len);
    lemma_cat_subranges(sv, i8, i9, len);
    lemma_cat_subranges(sv, i7, i8, len);
    lemma_cat_subranges(sv, i6, i7, len);
    lemma_cat_subranges(sv, i5, i6, len);
    lemma_cat_subranges(sv, i4, i5, len);
    lemma_cat_subranges(sv, i3, i4, len);
    lemma_cat_subranges(sv, i2, i3, len);
    lemma_cat_subranges(sv, i1, i2, len);
    lemma_cat_subranges(sv, 0, i1, len);
    assert(sv.subrange(0, len) =~= sv);
    assert(sv == json_of(t));
}

/// Deserializes a credential from its canonical JSON record. Exactly the
/// records the encoder writes are accepted — anything else is refused,
/// and on acceptance the input is the canonical record of the result —
/// and every field comes back as it was written, provided its numbers
/// fit in 64 bits.
#[verifier::spinoff_prover]
#[verifier::rlimit(100)]
pub fn parse_token(s: &str) -> (r: Option<TokenResponse>)
    ensures
        parse_spec(s@) is None ==> r is None,
        r matches Some(p) ==> s@ == json_of(p),
        match parse_spec(s@) {
            None => true,
            Some(m) => (m.2 <= u64::MAX && (m.4 is None || m.4.unwrap() <= u64::MAX)) ==> (r
                matches Some(p) && {
            &&& p.access_token@ == m.0
            &&& match (p.refresh_token, m.1) {
                (Some(a), Some(b)) => a@ == b,
                (None, None) => true,
                _ => false,
            }
            &&& p.expires_in as nat == m.2
            &&& p.token_type@ == m.3
            &&& match (p.expires_at, m.4) {
                (Some(a), Some(b)) => a as nat == b,
                (None, None) => true,
                _ => false,
            }
        }),
        },
{
    let n = s.unicode_len();
    let i1 = match expect_lit(s, 0, "{\"access_token\":") {
        Some(j) => j,
        None => {
            return None;
        },
    };
    if !expect_ch(s, i1, '"') {
        return None;
    }
    let (acc, i2) = match scan_string(s, i1 + 1) {
        Some(p) => p,
        None => {
            return None;
        },
    };
    let i3 = match expect_lit(s, i2, ",\"refresh_token\":") {
        Some(j) => j,
        None => {
            return None;
        },
    };
    let (rt, i4) = match parse_opt_string(s, i3) {
        Some(p) => p,
        None => {
            return None;
        },
    };
    let i5 = match expect_lit(s, i4, ",\"expires_in\":") {
        Some(j) => j,
        None => {
            return None;
        },
    };
    let (ein, i6) = match scan_number(s, i5) {
        Some(p) => p,
        None => {
            return None;
        },
    };
    let i7 = match expect_lit(s, i6, ",\"token_type\":") {
        Some(j) => j,
        None => {
            return None;
        },
    };
    if !expect_ch(s, i7, '"') {
        return None;
    }
    let (tt, i8) = match scan_string(s, i7 + 1) {
        Some(p) => p,
        None => {
            return None;
        },
    };
    let i9 = match expect_lit(s, i8, ",\"expires_at\":") {
        Some(j) => j,
        None => {
            return None;
        },
    };
    let (eat, i10) = match parse_opt_number(s, i9) {
        Some(p) => p,
        None => {
            return None;
        },
    };
    let i11 = match expect_lit(s, i10, "}") {
        Some(j) => j,
        None => {
            return None;
        },
    };
    if i11 != n {
        return None;
    }
    proof {
        lemma_parse_assemble(
            s@,
            TokenResponse {
                access_token: acc,
                refresh_token: rt,
                expires_in: ein,
                token_type: tt,
                expires_at: eat,
            },
            i1 as int,
            i2 as int,
            i3 as int,
            i4 as int,
            i5 as int,
            i6 as int,
            i7 as int,
            i8 as int,
            i9 as int,
            i10 as int,
        );
    }
    Some(
        TokenResponse {
            access_token: acc,
            refresh_token: rt,
            expires_in: ein,
            token_type: tt,
            expires_at: eat,
        },
    )
}

/// What the token store finds for a profile, once the surrounding
/// process has looked for the record's file.
pub enum ReadOutcome {
    /// No record exists: the distinguished not-found condition, never a
    /// generic error.
    NotFound,
    /// A file exists but does not hold a canonical record.
    Unreadable,
    /// The stored credential.
    Found(TokenResponse),
}

/// Interprets the raw content of a profile's record file: a missing file
/// is `NotFound` — never an error — and a canonical record comes back
/// with every field intact.
pub fn decode_stored(content: Option<&str>) -> (r: ReadOutcome)
    ensures
        (content is None) <==> (r is NotFound),
        match content {
            Some(s) => parse_spec(s@) is None ==> r is Unreadable,
            None => true,
        },
        match content {
            Some(s) => r matches ReadOutcome::Found(p) ==> s@ == json_of(p),
            None => true,
        },
        match content {
            Some(s) => match parse_spec(s@) {
                Some(m) => (m.2 <= u64::MAX && (m.4 is None || m.4.unwrap() <= u64::MAX)) ==> (r
                    matches ReadOutcome::Found(p) && {
                    &&& p.access_token@ == m.0
                    &&& match (p.refresh_token, m.1) {
                        (Some(a), Some(b)) => a@ == b,
                        (None, None) => true,
                        _ => false,
                    }
                    &&& p.expires_in as nat == m.2
                    &&& p.token_type@ == m.3
                    &&& match (p.expires_at, m.4) {
                        (Some(a), Some(b)) => a as nat == b,
                        (None, None) => true,
                        _ => false,
                    }
                }),
                None => true,
            },
            None => true,
        },
{
    match content {
        Some(s) => match parse_token(s) {
            Some(t) => ReadOutcome::Found(t),
            None => ReadOutcome::Unreadable,
        },
        None => ReadOutcome::NotFound,
    }
}

} // verus!
