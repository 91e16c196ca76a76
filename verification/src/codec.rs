//! The persistence codec: renders the whole store as one JSON text,
//! `{"tasks":{"<id>":{...}},"users":{"<id>":{...}}}` with decimal-string
//! keys, and parses such a text back. Parsing checks the shape: every
//! record's key must equal its own id, keys must be distinct, and nothing
//! may follow the closing brace; a text that fails any of this is rejected
//! as a whole. Loading a saved store reproduces it exactly
//! ([`lemma_save_load_round_trip`]).

use vstd::prelude::*;

use crate::store::Database;
use crate::store::DbView;
use crate::store::Keyed;
use crate::store::Task;
use crate::store::TaskView;
use crate::store::User;
use crate::store::UserView;
use crate::store::distinct_keys;

verus! {

// ---------------------------------------------------------------------
// Characters: digits and the hexadecimal digits used by `\u00..` escapes.
// ---------------------------------------------------------------------

pub open spec fn is_digit(c: char) -> bool {
    48 <= c as u32 <= 57
}

pub open spec fn digit_val(c: char) -> nat {
    (c as u32 - 48) as nat
}

pub open spec fn digit_char(d: nat) -> char {
    ((48 + d) as u8) as char
}

pub open spec fn is_hex(c: char) -> bool {
    is_digit(c) || 97 <= c as u32 <= 102
}

pub open spec fn hex_val(c: char) -> nat {
    if is_digit(c) {
        digit_val(c)
    } else {
        (c as u32 - 87) as nat
    }
}

pub open spec fn hex_char(d: nat) -> char {
    if d < 10 {
        digit_char(d)
    } else {
        ((87 + d) as u8) as char
    }
}

proof fn lemma_digit_char_val(d: nat)
    requires
        d < 10,
    ensures
        is_digit(digit_char(d)),
        digit_val(digit_char(d)) == d,
        d != 0 ==> digit_char(d) != '0',
{
}

proof fn lemma_hex_char_val(d: nat)
    requires
        d < 16,
    ensures
        is_hex(hex_char(d)),
        hex_val(hex_char(d)) == d,
{
}

fn digit_char_x(d: u32) -> (c: char)
    requires
        d < 10,
    ensures
        c == digit_char(d as nat),
{
    ((48 + d) as u8) as char
}

fn hex_char_x(d: u32) -> (c: char)
    requires
        d < 16,
    ensures
        c == hex_char(d as nat),
{
    if d < 10 {
        digit_char_x(d)
    } else {
        ((87 + d) as u8) as char
    }
}

// ---------------------------------------------------------------------
// Decimal rendering of a u32, and its value.
// ---------------------------------------------------------------------

pub open spec fn pow10(k: nat) -> nat
    decreases k,
{
    if k == 0 {
        1
    } else {
        10 * pow10((k - 1) as nat)
    }
}

/// The decimal digits of `n`, most significant first; empty for zero.
pub open spec fn dec_digits(n: nat) -> Seq<char>
    decreases n,
{
    if n == 0 {
        Seq::empty()
    } else {
        dec_digits(n / 10).push(digit_char(n % 10))
    }
}

/// A u32 in decimal: `0` is the single digit zero.
pub open spec fn ser_u32(n: u32) -> Seq<char> {
    if n == 0 {
        seq!['0']
    } else {
        dec_digits(n as nat)
    }
}

pub open spec fn all_digits(s: Seq<char>) -> bool {
    forall|i: int| 0 <= i < s.len() ==> is_digit(#[trigger] s[i])
}

/// The number a digit string denotes.
pub open spec fn digits_val(s: Seq<char>) -> nat
    decreases s.len(),
{
    if s.len() == 0 {
        0
    } else {
        digits_val(s.drop_last()) * 10 + digit_val(s.last())
    }
}

proof fn lemma_digits_val_first(s: Seq<char>)
    requires
        s.len() > 0,
    ensures
        digits_val(s) == digit_val(s[0]) * pow10((s.len() - 1) as nat) + digits_val(
            s.drop_first(),
        ),
    decreases s.len(),
{
    if s.len() == 1 {
        assert(s.drop_last() =~= Seq::<char>::empty());
        assert(s.drop_first() =~= Seq::<char>::empty());
        assert(s.last() == s[0]);
        assert(digits_val(Seq::<char>::empty()) == 0);
        assert(pow10(0) == 1);
        assert(digits_val(s) == 0 * 10 + digit_val(s[0]));
        assert(digit_val(s[0]) * pow10(0) == digit_val(s[0]));
    } else {
        let t = s.drop_last();
        assert(t[0] == s[0]);
        lemma_digits_val_first(t);
        assert(t.drop_first() =~= s.drop_first().drop_last());
        assert(s.drop_first().last() == s.last());
        let k = (t.len() - 1) as nat;
        assert(digits_val(s) == digits_val(t) * 10 + digit_val(s.last()));
        assert(digits_val(t) == digit_val(s[0]) * pow10(k) + digits_val(t.drop_first()));
        assert((digit_val(s[0]) * pow10(k) + digits_val(t.drop_first())) * 10 == digit_val(s[0])
            * (10 * pow10(k)) + digits_val(t.drop_first()) * 10) by (nonlinear_arith);
        assert(10 * pow10(k) == pow10((k + 1) as nat));
        assert(digits_val(s.drop_first()) == digits_val(t.drop_first()) * 10 + digit_val(s.last()));
    }
}

proof fn lemma_dec_digits_props(n: nat)
    ensures
        all_digits(dec_digits(n)),
        digits_val(dec_digits(n)) == n,
        n > 0 ==> dec_digits(n).len() >= 1 && dec_digits(n)[0] != '0',
    decreases n,
{
    if n > 0 {
        lemma_dec_digits_props(n / 10);
        let s = dec_digits(n);
        let t = dec_digits(n / 10);
        assert(s == t.push(digit_char(n % 10)));
        lemma_digit_char_val(n % 10);
        assert(s.drop_last() =~= t);
        assert(s.last() == digit_char(n % 10));
        assert(digits_val(s) == (n / 10) * 10 + n % 10);
        assert(forall|i: int| 0 <= i < s.len() ==> is_digit(#[trigger] s[i]));
        if n / 10 > 0 {
            assert(s[0] == t[0]);
        } else {
            assert(s.len() == 1);
            assert(s[0] == digit_char(n % 10));
            assert(n % 10 != 0);
        }
    }
}

fn ser_u32_digits_x(n: u32) -> (r: Vec<char>)
    ensures
        r@ == dec_digits(n as nat),
    decreases n,
{
    if n == 0 {
        Vec::new()
    } else {
        let mut r = ser_u32_digits_x(n / 10);
        r.push(digit_char_x(n % 10));
        r
    }
}

fn ser_u32_x(n: u32) -> (r: Vec<char>)
    ensures
        r@ == ser_u32(n),
{
    if n == 0 {
        let mut r: Vec<char> = Vec::new();
        r.push('0');
        proof {
            assert(r@ =~= seq!['0']);
        }
        r
    } else {
        ser_u32_digits_x(n)
    }
}

// ---------------------------------------------------------------------
// Parsing a u32: a leading zero stands alone, as in JSON.
// ---------------------------------------------------------------------

/// Consumes digits from `i`, accumulating onto `acc`; rejects a value
/// beyond u32.
pub open spec fn parse_u32_digits(s: Seq<char>, i: int, acc: u32) -> Option<(u32, int)>
    decreases s.len() - i,
{
    if i < 0 {
        None
    } else if i >= s.len() {
        Some((acc, i))
    } else if is_digit(s[i]) {
        if acc * 10 + digit_val(s[i]) > u32::MAX {
            None
        } else {
            parse_u32_digits(s, i + 1, (acc * 10 + digit_val(s[i])) as u32)
        }
    } else {
        Some((acc, i))
    }
}

pub open spec fn parse_u32(s: Seq<char>, i: int) -> Option<(u32, int)> {
    if 0 <= i < s.len() && s[i] == '0' {
        Some((0, i + 1))
    } else if 0 <= i < s.len() && is_digit(s[i]) {
        parse_u32_digits(s, i + 1, digit_val(s[i]) as u32)
    } else {
        None
    }
}

proof fn lemma_parse_u32_digits_bounds(s: Seq<char>, i: int, acc: u32)
    requires
        0 <= i <= s.len(),
    ensures
        parse_u32_digits(s, i, acc) matches Some((n, j)) ==> i <= j <= s.len(),
    decreases s.len() - i,
{
    if i < s.len() && is_digit(s[i]) && acc * 10 + digit_val(s[i]) <= u32::MAX {
        lemma_parse_u32_digits_bounds(s, i + 1, (acc * 10 + digit_val(s[i])) as u32);
    }
}

pub proof fn lemma_parse_u32_bounds(s: Seq<char>, i: int)
    requires
        0 <= i,
    ensures
        parse_u32(s, i) matches Some((n, j)) ==> i < j <= s.len(),
{
    if 0 <= i < s.len() && s[i] != '0' && is_digit(s[i]) {
        lemma_parse_u32_digits_bounds(s, i + 1, digit_val(s[i]) as u32);
    }
}

/// Digits laid out in `s` at `i`, followed by a non-digit (or the end),
/// parse to their value, provided the total fits in u32.
proof fn lemma_rt_digits(s: Seq<char>, i: int, ds: Seq<char>, acc: u32)
    requires
        0 <= i,
        i + ds.len() <= s.len(),
        s.subrange(i, i + ds.len()) == ds,
        all_digits(ds),
        acc * pow10(ds.len()) + digits_val(ds) <= u32::MAX,
        i + ds.len() == s.len() || !is_digit(s[i + ds.len()]),
    ensures
        parse_u32_digits(s, i, acc) == Some(
            (((acc * pow10(ds.len()) + digits_val(ds)) as u32), i + ds.len()),
        ),
    decreases ds.len(),
{
    if ds.len() == 0 {
        assert(digits_val(ds) == 0);
        assert(pow10(0) == 1);
        assert(acc * 1 == acc);
        assert(acc * pow10(0) + digits_val(ds) == acc);
    } else {
        let c = ds[0];
        assert(s.subrange(i, i + ds.len())[0] == s[i]);
        assert(s[i] == c);
        assert(is_digit(c));
        let d = digit_val(c);
        let rest = ds.drop_first();
        let l1 = (ds.len() - 1) as nat;
        lemma_digits_val_first(ds);
        assert(digits_val(ds) == d * pow10(l1) + digits_val(rest));
        assert(pow10(ds.len()) == 10 * pow10(l1));
        assert(pow10(l1) >= 1) by {
            lemma_pow10_pos(l1);
        }
        assert(acc * (10 * pow10(l1)) == (acc * 10) * pow10(l1)) by (nonlinear_arith);
        assert((acc * 10) * pow10(l1) + d * pow10(l1) == (acc * 10 + d) * pow10(l1))
            by (nonlinear_arith);
        assert(acc * pow10(ds.len()) + digits_val(ds) == (acc * 10 + d) * pow10(l1) + digits_val(
            rest,
        ));
        assert((acc * 10 + d) * pow10(l1) >= acc * 10 + d) by (nonlinear_arith)
            requires
                pow10(l1) >= 1,
                acc * 10 + d >= 0,
        ;
        assert(acc * 10 + d <= u32::MAX);
        let acc2 = (acc * 10 + d) as u32;
        assert(s.subrange(i + 1, i + 1 + rest.len()) =~= rest) by {
            assert forall|k: int| 0 <= k < rest.len() implies s[i + 1 + k] == rest[k] by {
                assert(s.subrange(i, i + ds.len())[k + 1] == s[i + k + 1]);
            }
        }
        assert(forall|k: int| 0 <= k < rest.len() ==> is_digit(#[trigger] rest[k]) && rest[k]
            == ds[k + 1]);
        lemma_rt_digits(s, i + 1, rest, acc2);
    }
}

proof fn lemma_pow10_pos(k: nat)
    ensures
        pow10(k) >= 1,
    decreases k,
{
    if k > 0 {
        lemma_pow10_pos((k - 1) as nat);
    }
}

/// The serialized form of a u32, followed by a non-digit (or the end),
/// parses back to the same number.
proof fn lemma_rt_u32(s: Seq<char>, i: int, n: u32)
    requires
        0 <= i,
        i + ser_u32(n).len() <= s.len(),
        s.subrange(i, i + ser_u32(n).len()) == ser_u32(n),
        i + ser_u32(n).len() == s.len() || !is_digit(s[i + ser_u32(n).len()]),
    ensures
        parse_u32(s, i) == Some((n, i + ser_u32(n).len())),
{
    if n == 0 {
        assert(s.subrange(i, i + 1)[0] == s[i]);
        assert(s[i] == '0');
    } else {
        lemma_dec_digits_props(n as nat);
        let ds = dec_digits(n as nat);
        assert(s.subrange(i, i + ds.len())[0] == s[i]);
        assert(s[i] == ds[0]);
        assert(s[i] != '0');
        assert(is_digit(s[i]));
        let d = digit_val(ds[0]);
        let rest = ds.drop_first();
        lemma_digits_val_first(ds);
        assert(s.subrange(i + 1, i + 1 + rest.len()) =~= rest) by {
            assert forall|k: int| 0 <= k < rest.len() implies s[i + 1 + k] == rest[k] by {
                assert(s.subrange(i, i + ds.len())[k + 1] == s[i + k + 1]);
            }
        }
        assert(forall|k: int| 0 <= k < rest.len() ==> is_digit(#[trigger] rest[k]) && rest[k]
            == ds[k + 1]);
        assert(d * pow10(rest.len()) + digits_val(rest) == n);
        lemma_rt_digits(s, i + 1, rest, d as u32);
        assert((d * pow10(rest.len()) + digits_val(rest)) as u32 == n);
    }
}

fn parse_u32_digits_x(v: &Vec<char>, i: usize, acc: u32) -> (r: Option<(u32, usize)>)
    requires
        i <= v.len(),
    ensures
        match r {
            Some((n, j)) => parse_u32_digits(v@, i as int, acc) == Some((n, j as int)) && i <= j
                <= v.len(),
            None => parse_u32_digits(v@, i as int, acc) is None,
        },
    decreases v.len() - i,
{
    if i >= v.len() {
        Some((acc, i))
    } else {
        let c = v[i];
        let u = c as u32;
        if 48 <= u && u <= 57 {
            let d = u - 48;
            let wide: u64 = acc as u64 * 10 + d as u64;
            if wide > u32::MAX as u64 {
                None
            } else {
                parse_u32_digits_x(v, i + 1, wide as u32)
            }
        } else {
            Some((acc, i))
        }
    }
}

// ---------------------------------------------------------------------
// JSON strings: quote and backslash are escaped, control characters
// become `\u00..`; everything else stands for itself.
// ---------------------------------------------------------------------

pub open spec fn esc_char(c: char) -> Seq<char> {
    if c == '"' {
        seq!['\\', '"']
    } else if c == '\\' {
        seq!['\\', '\\']
    } else if (c as u32) < 32 {
        seq![
            '\\',
            'u',
            '0',
            '0',
            hex_char((c as u32 / 16) as nat),
            hex_char((c as u32 % 16) as nat),
        ]
    } else {
        seq![c]
    }
}

pub open spec fn esc_string(s: Seq<char>) -> Seq<char>
    decreases s.len(),
{
    if s.len() == 0 {
        Seq::empty()
    } else {
        esc_char(s[0]) + esc_string(s.drop_first())
    }
}

/// A whole JSON string: quote, escaped body, quote.
pub open spec fn ser_string(s: Seq<char>) -> Seq<char> {
    seq!['"'] + esc_string(s) + seq!['"']
}

/// The body of a JSON string from `i` up to and including its closing
/// quote, unescaped.
pub open spec fn parse_str_body(s: Seq<char>, i: int) -> Option<(Seq<char>, int)>
    decreases s.len() - i,
{
    if i < 0 || i >= s.len() {
        None
    } else if s[i] == '"' {
        Some((Seq::empty(), i + 1))
    } else if s[i] == '\\' {
        if i + 1 >= s.len() {
            None
        } else if s[i + 1] == '"' || s[i + 1] == '\\' {
            match parse_str_body(s, i + 2) {
                None => None,
                Some((t, j)) => Some((seq![s[i + 1]] + t, j)),
            }
        } else if s[i + 1] == 'u' {
            if i + 6 > s.len() {
                None
            } else if s[i + 2] == '0' && s[i + 3] == '0' && is_hex(s[i + 4]) && is_hex(s[i + 5])
                && hex_val(s[i + 4]) * 16 + hex_val(s[i + 5]) < 32 {
                match parse_str_body(s, i + 6) {
                    None => None,
                    Some(
                        (t, j),
                    ) => Some(
                        (seq![((hex_val(s[i + 4]) * 16 + hex_val(s[i + 5])) as u8) as char] + t, j),
                    ),
                }
            } else {
                None
            }
        } else {
            None
        }
    } else {
        match parse_str_body(s, i + 1) {
            None => None,
            Some((t, j)) => Some((seq![s[i]] + t, j)),
        }
    }
}

pub open spec fn parse_string(s: Seq<char>, i: int) -> Option<(Seq<char>, int)> {
    if 0 <= i < s.len() && s[i] == '"' {
        parse_str_body(s, i + 1)
    } else {
        None
    }
}

pub proof fn lemma_parse_str_body_bounds(s: Seq<char>, i: int)
    requires
        0 <= i,
    ensures
        parse_str_body(s, i) matches Some((t, j)) ==> i < j <= s.len(),
    decreases s.len() - i,
{
    if 0 <= i < s.len() {
        if s[i] == '"' {
        } else if s[i] == '\\' {
            if i + 1 < s.len() {
                if s[i + 1] == '"' || s[i + 1] == '\\' {
                    lemma_parse_str_body_bounds(s, i + 2);
                } else if s[i + 1] == 'u' && i + 6 <= s.len() {
                    lemma_parse_str_body_bounds(s, i + 6);
                }
            }
        } else {
            lemma_parse_str_body_bounds(s, i + 1);
        }
    }
}

pub proof fn lemma_parse_string_bounds(s: Seq<char>, i: int)
    requires
        0 <= i,
    ensures
        parse_string(s, i) matches Some((t, j)) ==> i < j <= s.len(),
{
    lemma_parse_str_body_bounds(s, i + 1);
}

/// The escaped body of `x` followed by a closing quote parses back to `x`.
proof fn lemma_rt_str_body(s: Seq<char>, i: int, x: Seq<char>)
    requires
        0 <= i,
        i + esc_string(x).len() + 1 <= s.len(),
        s.subrange(i, i + esc_string(x).len() + 1) == esc_string(x) + seq!['"'],
    ensures
        parse_str_body(s, i) == Some((x, i + esc_string(x).len() + 1)),
    decreases x.len(),
{
    let e = esc_string(x);
    let w = e + seq!['"'];
    assert forall|k: int| 0 <= k < w.len() implies s[i + k] == #[trigger] w[k] by {
        assert(s.subrange(i, i + w.len() as int)[k] == s[i + k]);
    }
    if x.len() == 0 {
        assert(s[i] == w[0]);
        assert(w[0] == '"');
        assert(x =~= Seq::<char>::empty());
    } else {
        let c = x[0];
        let ec = esc_char(c);
        let rest = x.drop_first();
        assert(e == ec + esc_string(rest));
        assert forall|k: int| 0 <= k < ec.len() implies s[i + k] == #[trigger] ec[k] by {
            assert(s[i + k] == w[k]);
            assert(w[k] == e[k]);
            assert(e[k] == ec[k]);
        }
        let i2 = i + ec.len();
        assert(s.subrange(i2, i2 + esc_string(rest).len() + 1) =~= esc_string(rest) + seq!['"'])
            by {
            assert forall|k: int| 0 <= k < esc_string(rest).len() + 1 implies s[i2 + k]
                == (esc_string(rest) + seq!['"'])[k] by {
                assert(w[ec.len() + k] == (esc_string(rest) + seq!['"'])[k]);
                assert(s[i + (ec.len() + k)] == w[ec.len() + k]);
            }
        }
        lemma_rt_str_body(s, i2, rest);
        if c == '"' || c == '\\' {
            assert(s[i] == ec[0]);
            assert(s[i + 1] == ec[1]);
            assert(ec[0] == '\\');
            assert(ec[1] == c);
            assert(seq![s[i + 1]] + rest =~= x);
        } else if (c as u32) < 32 {
            assert(s[i] == ec[0]);
            assert(s[i + 1] == ec[1]);
            assert(s[i + 2] == ec[2]);
            assert(s[i + 3] == ec[3]);
            assert(s[i + 4] == ec[4]);
            assert(s[i + 5] == ec[5]);
            assert(ec[0] == '\\' && ec[1] == 'u' && ec[2] == '0' && ec[3] == '0');
            let h1 = (c as u32 / 16) as nat;
            let h2 = (c as u32 % 16) as nat;
            lemma_hex_char_val(h1);
            lemma_hex_char_val(h2);
            assert(ec[4] == hex_char(h1) && ec[5] == hex_char(h2));
            let u = c as u32;
            let code: nat = hex_val(s[i + 4]) * 16 + hex_val(s[i + 5]);
            assert(code == u);
            assert(code < 32);
            let c2 = (code as u8) as char;
            assert(c2 as u32 == code);
            assert(c2 as u32 == c as u32);
            lemma_char_codepoint_injective(c2, c);
            assert(c2 == c);
            assert(seq![c2] + rest =~= x);
        } else {
            assert(s[i] == ec[0]);
            assert(ec[0] == c);
            assert(s[i] != '"' && s[i] != '\\');
            assert(seq![s[i]] + rest =~= x);
        }
    }
}

/// A serialized string parses back to the text it encodes.
proof fn lemma_rt_string(s: Seq<char>, i: int, x: Seq<char>)
    requires
        0 <= i,
        i + ser_string(x).len() <= s.len(),
        s.subrange(i, i + ser_string(x).len()) == ser_string(x),
    ensures
        parse_string(s, i) == Some((x, i + ser_string(x).len())),
{
    let w = ser_string(x);
    assert forall|k: int| 0 <= k < w.len() implies s[i + k] == #[trigger] w[k] by {
        assert(s.subrange(i, i + w.len() as int)[k] == s[i + k]);
    }
    assert(s[i] == w[0]);
    assert(w[0] == '"');
    assert(s.subrange(i + 1, i + 1 + esc_string(x).len() + 1) =~= esc_string(x) + seq!['"']) by {
        assert forall|k: int| 0 <= k < esc_string(x).len() + 1 implies s[i + 1 + k] == (esc_string(
            x,
        ) + seq!['"'])[k] by {
            assert(w[1 + k] == (esc_string(x) + seq!['"'])[k]);
            assert(s[i + (1 + k)] == w[1 + k]);
        }
    }
    lemma_rt_str_body(s, i + 1, x);
}

fn esc_char_x(c: char) -> (r: Vec<char>)
    ensures
        r@ == esc_char(c),
{
    let mut r: Vec<char> = Vec::new();
    if c == '"' {
        r.push('\\');
        r.push('"');
        proof {
            assert(r@ =~= esc_char(c));
        }
    } else if c == '\\' {
        r.push('\\');
        r.push('\\');
        proof {
            assert(r@ =~= esc_char(c));
        }
    } else {
        let u = c as u32;
        if u < 32 {
            r.push('\\');
            r.push('u');
            r.push('0');
            r.push('0');
            r.push(hex_char_x(u / 16));
            r.push(hex_char_x(u % 16));
            proof {
                assert(r@ =~= esc_char(c));
            }
        } else {
            r.push(c);
            proof {
                assert(r@ =~= esc_char(c));
            }
        }
    }
    r
}

fn esc_string_x(s: &String) -> (r: Vec<char>)
    ensures
        r@ == esc_string(s@),
{
    let n = s.as_str().unicode_len();
    let mut r: Vec<char> = Vec::new();
    let mut i: usize = 0;
    while i < n
        invariant
            n == s@.len(),
            i <= n,
            r@ == esc_string(s@.subrange(0, i as int)),
        decreases n - i,
    {
        let mut piece = esc_char_x(s.as_str().get_char(i));
        r.append(&mut piece);
        proof {
            lemma_esc_string_snoc(s@.subrange(0, i as int), s@[i as int]);
            assert(s@.subrange(0, i as int).push(s@[i as int]) =~= s@.subrange(0, i as int + 1));
        }
        i += 1;
    }
    proof {
        assert(s@.subrange(0, n as int) =~= s@);
    }
    r
}

proof fn lemma_esc_string_snoc(s: Seq<char>, c: char)
    ensures
        esc_string(s.push(c)) == esc_string(s) + esc_char(c),
    decreases s.len(),
{
    let t = s.push(c);
    if s.len() == 0 {
        assert(t.drop_first() =~= Seq::<char>::empty());
        assert(esc_string(t) == esc_char(c) + esc_string(Seq::<char>::empty()));
        assert(esc_char(c) + Seq::<char>::empty() =~= Seq::<char>::empty() + esc_char(c));
    } else {
        assert(t[0] == s[0]);
        assert(t.drop_first() =~= s.drop_first().push(c));
        lemma_esc_string_snoc(s.drop_first(), c);
        assert(esc_string(t) == esc_char(s[0]) + (esc_string(s.drop_first()) + esc_char(c)));
        assert(esc_char(s[0]) + (esc_string(s.drop_first()) + esc_char(c)) =~= (esc_char(s[0])
            + esc_string(s.drop_first())) + esc_char(c));
    }
}

fn ser_string_x(s: &String) -> (r: Vec<char>)
    ensures
        r@ == ser_string(s@),
{
    let mut r: Vec<char> = Vec::new();
    r.push('"');
    let mut body = esc_string_x(s);
    r.append(&mut body);
    r.push('"');
    proof {
        assert(r@ =~= ser_string(s@));
    }
    r
}

fn parse_str_body_x(v: &Vec<char>, i: usize) -> (r: Option<(Vec<char>, usize)>)
    requires
        i <= v.len(),
    ensures
        match r {
            Some((t, j)) => parse_str_body(v@, i as int) == Some((t@, j as int)) && i < j
                <= v.len(),
            None => parse_str_body(v@, i as int) is None,
        },
    decreases v.len() - i,
{
    if i >= v.len() {
        None
    } else if v[i] == '"' {
        let empty: Vec<char> = Vec::new();
        proof {
            assert(empty@ =~= Seq::<char>::empty());
        }
        Some((empty, i + 1))
    } else if v[i] == '\\' {
        if i + 1 >= v.len() {
            None
        } else if v[i + 1] == '"' || v[i + 1] == '\\' {
            match parse_str_body_x(v, i + 2) {
                None => None,
                Some((t, j)) => {
                    let mut out: Vec<char> = Vec::new();
                    out.push(v[i + 1]);
                    let mut tail = t;
                    out.append(&mut tail);
                    proof {
                        assert(out@ =~= seq![v@[i as int + 1]] + t@);
                    }
                    Some((out, j))
                },
            }
        } else if v[i + 1] == 'u' {
            if v.len() - i < 6 {
                None
            } else if v[i + 2] == '0' && v[i + 3] == '0' && is_hex_x(v[i + 4]) && is_hex_x(
                v[i + 5],
            ) {
                let code = hex_val_x(v[i + 4]) * 16 + hex_val_x(v[i + 5]);
                if code >= 32 {
                    return None;
                }
                match parse_str_body_x(v, i + 6) {
                    None => None,
                    Some((t, j)) => {
                        let mut out: Vec<char> = Vec::new();
                        out.push((code as u8) as char);
                        let mut tail = t;
                        out.append(&mut tail);
                        proof {
                            assert(out@ =~= seq![((code as u8) as char)] + t@);
                        }
                        Some((out, j))
                    },
                }
            } else {
                None
            }
        } else {
            None
        }
    } else {
        match parse_str_body_x(v, i + 1) {
            None => None,
            Some((t, j)) => {
                let mut out: Vec<char> = Vec::new();
                out.push(v[i]);
                let mut tail = t;
                out.append(&mut tail);
                proof {
                    assert(out@ =~= seq![v@[i as int]] + t@);
                }
                Some((out, j))
            },
        }
    }
}

fn is_hex_x(c: char) -> (r: bool)
    ensures
        r == is_hex(c),
{
    let u = c as u32;
    (48 <= u && u <= 57) || (97 <= u && u <= 102)
}

fn hex_val_x(c: char) -> (r: u32)
    requires
        is_hex(c),
    ensures
        r == hex_val(c),
        r < 16,
{
    let u = c as u32;
    if 48 <= u && u <= 57 {
        u - 48
    } else {
        u - 87
    }
}

fn parse_string_x(v: &Vec<char>, i: usize) -> (r: Option<(Vec<char>, usize)>)
    requires
        i <= v.len(),
    ensures
        match r {
            Some((t, j)) => parse_string(v@, i as int) == Some((t@, j as int)) && i < j <= v.len(),
            None => parse_string(v@, i as int) is None,
        },
{
    if i < v.len() && v[i] == '"' {
        parse_str_body_x(v, i + 1)
    } else {
        None
    }
}

fn parse_u32_x(v: &Vec<char>, i: usize) -> (r: Option<(u32, usize)>)
    requires
        i <= v.len(),
    ensures
        match r {
            Some((n, j)) => parse_u32(v@, i as int) == Some((n, j as int)) && i < j <= v.len(),
            None => parse_u32(v@, i as int) is None,
        },
{
    if i >= v.len() {
        None
    } else {
        let c = v[i];
        if c == '0' {
            Some((0, i + 1))
        } else {
            let u = c as u32;
            if 48 <= u && u <= 57 {
                parse_u32_digits_x(v, i + 1, u - 48)
            } else {
                None
            }
        }
    }
}

proof fn lemma_char_codepoint_injective(a: char, b: char)
    requires
        a as u32 == b as u32,
    ensures
        a == b,
{
}

// ---------------------------------------------------------------------
// Fixed literals of the format, booleans, and helpers on layouts.
// ---------------------------------------------------------------------

pub open spec fn lit_true() -> Seq<char> {
    seq!['t', 'r', 'u', 'e']
}

pub open spec fn lit_false() -> Seq<char> {
    seq!['f', 'a', 'l', 's', 'e']
}

pub open spec fn lit_task_open() -> Seq<char> {
    seq!['{', '"', 'i', 'd', '"', ':']
}

pub open spec fn lit_name_key() -> Seq<char> {
    seq![',', '"', 'n', 'a', 'm', 'e', '"', ':']
}

pub open spec fn lit_completed_key() -> Seq<char> {
    seq![',', '"', 'c', 'o', 'm', 'p', 'l', 'e', 't', 'e', 'd', '"', ':']
}

pub open spec fn lit_username_key() -> Seq<char> {
    seq![',', '"', 'u', 's', 'e', 'r', 'n', 'a', 'm', 'e', '"', ':']
}

pub open spec fn lit_password_key() -> Seq<char> {
    seq![',', '"', 'p', 'a', 's', 's', 'w', 'o', 'r', 'd', '"', ':']
}

pub open spec fn lit_store_open() -> Seq<char> {
    seq!['{', '"', 't', 'a', 's', 'k', 's', '"', ':']
}

pub open spec fn lit_users_key() -> Seq<char> {
    seq![',', '"', 'u', 's', 'e', 'r', 's', '"', ':']
}

pub open spec fn ser_bool(b: bool) -> Seq<char> {
    if b {
        lit_true()
    } else {
        lit_false()
    }
}

/// `Some(i + lit.len())` exactly when `lit` lies in `s` at `i`.
pub open spec fn parse_lit(s: Seq<char>, i: int, lit: Seq<char>) -> Option<int> {
    if 0 <= i && i + lit.len() <= s.len() && s.subrange(i, i + lit.len()) == lit {
        Some(i + lit.len())
    } else {
        None
    }
}

pub open spec fn parse_bool(s: Seq<char>, i: int) -> Option<(bool, int)> {
    if parse_lit(s, i, lit_true()) is Some {
        Some((true, i + 4))
    } else if parse_lit(s, i, lit_false()) is Some {
        Some((false, i + 5))
    } else {
        None
    }
}

/// Every character of `w` lies in `s` at offset `i`.
proof fn lemma_chars_at(s: Seq<char>, i: int, w: Seq<char>)
    requires
        0 <= i,
        i + w.len() <= s.len(),
        s.subrange(i, i + w.len()) == w,
    ensures
        forall|k: int| 0 <= k < w.len() ==> s[i + k] == #[trigger] w[k],
{
    assert forall|k: int| 0 <= k < w.len() implies s[i + k] == #[trigger] w[k] by {
        assert(s.subrange(i, i + w.len() as int)[k] == s[i + k]);
    }
}

/// A stretch of `s` equal to `a + b` splits into one equal to `a` and one
/// equal to `b`.
proof fn lemma_split_at(s: Seq<char>, i: int, a: Seq<char>, b: Seq<char>)
    requires
        0 <= i,
        i + a.len() + b.len() <= s.len(),
        s.subrange(i, i + a.len() + b.len()) == a + b,
    ensures
        s.subrange(i, i + a.len()) == a,
        s.subrange(i + a.len(), i + a.len() + b.len()) == b,
{
    let w = a + b;
    lemma_chars_at(s, i, w);
    assert(s.subrange(i, i + a.len()) =~= a) by {
        assert forall|k: int| 0 <= k < a.len() implies s.subrange(i, i + a.len() as int)[k]
            == a[k] by {
            assert(s[i + k] == w[k]);
            assert(w[k] == a[k]);
        }
    }
    assert(s.subrange(i + a.len(), i + a.len() + b.len()) =~= b) by {
        assert forall|k: int| 0 <= k < b.len() implies s.subrange(
            i + a.len(),
            i + a.len() + b.len(),
        )[k] == b[k] by {
            assert(s[i + (a.len() + k)] == w[a.len() + k]);
            assert(w[a.len() + k] == b[k]);
        }
    }
}

proof fn lemma_rt_bool(s: Seq<char>, i: int, b: bool)
    requires
        0 <= i,
        i + ser_bool(b).len() <= s.len(),
        s.subrange(i, i + ser_bool(b).len()) == ser_bool(b),
    ensures
        parse_bool(s, i) == Some((b, i + ser_bool(b).len())),
{
    lemma_chars_at(s, i, ser_bool(b));
    if b {
        assert(ser_bool(b)[0] == 't');
    } else {
        assert(ser_bool(b)[0] == 'f');
        assert(s[i] == 'f');
        if parse_lit(s, i, lit_true()) is Some {
            lemma_chars_at(s, i, lit_true());
            assert(s[i] == lit_true()[0]);
            assert(lit_true()[0] == 't');
            assert(false);
        }
    }
}

// ---------------------------------------------------------------------
// Records: one task or user object, `{"id":..,"name":..,"completed":..}`
// and `{"id":..,"username":..,"password":..}`.
// ---------------------------------------------------------------------

pub open spec fn ser_task(t: TaskView) -> Seq<char> {
    lit_task_open() + ser_u32(t.id) + lit_name_key() + ser_string(t.name) + lit_completed_key()
        + ser_bool(t.completed) + seq!['}']
}

pub open spec fn ser_user(u: UserView) -> Seq<char> {
    lit_task_open() + ser_u32(u.id) + lit_username_key() + ser_string(u.username)
        + lit_password_key() + ser_string(u.password) + seq!['}']
}

pub open spec fn parse_task(s: Seq<char>, i: int) -> Option<(TaskView, int)> {
    match parse_lit(s, i, lit_task_open()) {
        None => None,
        Some(j1) => match parse_u32(s, j1) {
            None => None,
            Some((id, j2)) => match parse_lit(s, j2, lit_name_key()) {
                None => None,
                Some(j3) => match parse_string(s, j3) {
                    None => None,
                    Some((name, j4)) => match parse_lit(s, j4, lit_completed_key()) {
                        None => None,
                        Some(j5) => match parse_bool(s, j5) {
                            None => None,
                            Some((completed, j6)) => match parse_lit(s, j6, seq!['}']) {
                                None => None,
                                Some(j7) => Some((TaskView { id, name, completed }, j7)),
                            },
                        },
                    },
                },
            },
        },
    }
}

pub open spec fn parse_user(s: Seq<char>, i: int) -> Option<(UserView, int)> {
    match parse_lit(s, i, lit_task_open()) {
        None => None,
        Some(j1) => match parse_u32(s, j1) {
            None => None,
            Some((id, j2)) => match parse_lit(s, j2, lit_username_key()) {
                None => None,
                Some(j3) => match parse_string(s, j3) {
                    None => None,
                    Some((username, j4)) => match parse_lit(s, j4, lit_password_key()) {
                        None => None,
                        Some(j5) => match parse_string(s, j5) {
                            None => None,
                            Some((password, j6)) => match parse_lit(s, j6, seq!['}']) {
                                None => None,
                                Some(j7) => Some((UserView { id, username, password }, j7)),
                            },
                        },
                    },
                },
            },
        },
    }
}

/// One collection entry: the decimal key in quotes, a colon, the record;
/// the key must equal the record's own id.
pub open spec fn parse_task_entry(s: Seq<char>, i: int) -> Option<(TaskView, int)> {
    match parse_lit(s, i, seq!['"']) {
        None => None,
        Some(j1) => match parse_u32(s, j1) {
            None => None,
            Some((key, j2)) => match parse_lit(s, j2, seq!['"', ':']) {
                None => None,
                Some(j3) => match parse_task(s, j3) {
                    None => None,
                    Some((t, j4)) => if t.id == key {
                        Some((t, j4))
                    } else {
                        None
                    },
                },
            },
        },
    }
}

pub open spec fn parse_user_entry(s: Seq<char>, i: int) -> Option<(UserView, int)> {
    match parse_lit(s, i, seq!['"']) {
        None => None,
        Some(j1) => match parse_u32(s, j1) {
            None => None,
            Some((key, j2)) => match parse_lit(s, j2, seq!['"', ':']) {
                None => None,
                Some(j3) => match parse_user(s, j3) {
                    None => None,
                    Some((u, j4)) => if u.id == key {
                        Some((u, j4))
                    } else {
                        None
                    },
                },
            },
        },
    }
}

pub proof fn lemma_parse_task_bounds(s: Seq<char>, i: int)
    ensures
        parse_task(s, i) matches Some((t, j)) ==> 0 <= i < j <= s.len(),
{
    if let Some(j1) = parse_lit(s, i, lit_task_open()) {
        lemma_parse_u32_bounds(s, j1);
        if let Some((id, j2)) = parse_u32(s, j1) {
            if let Some(j3) = parse_lit(s, j2, lit_name_key()) {
                lemma_parse_string_bounds(s, j3);
            }
        }
    }
}

pub proof fn lemma_parse_user_bounds(s: Seq<char>, i: int)
    ensures
        parse_user(s, i) matches Some((u, j)) ==> 0 <= i < j <= s.len(),
{
    if let Some(j1) = parse_lit(s, i, lit_task_open()) {
        lemma_parse_u32_bounds(s, j1);
        if let Some((id, j2)) = parse_u32(s, j1) {
            if let Some(j3) = parse_lit(s, j2, lit_username_key()) {
                lemma_parse_string_bounds(s, j3);
                if let Some((un, j4)) = parse_string(s, j3) {
                    if let Some(j5) = parse_lit(s, j4, lit_password_key()) {
                        lemma_parse_string_bounds(s, j5);
                    }
                }
            }
        }
    }
}

pub proof fn lemma_parse_task_entry_bounds(s: Seq<char>, i: int)
    ensures
        parse_task_entry(s, i) matches Some((t, j)) ==> 0 <= i < j <= s.len(),
{
    if let Some(j1) = parse_lit(s, i, seq!['"']) {
        lemma_parse_u32_bounds(s, j1);
        if let Some((key, j2)) = parse_u32(s, j1) {
            if let Some(j3) = parse_lit(s, j2, seq!['"', ':']) {
                lemma_parse_task_bounds(s, j3);
            }
        }
    }
}

pub proof fn lemma_parse_user_entry_bounds(s: Seq<char>, i: int)
    ensures
        parse_user_entry(s, i) matches Some((u, j)) ==> 0 <= i < j <= s.len(),
{
    if let Some(j1) = parse_lit(s, i, seq!['"']) {
        lemma_parse_u32_bounds(s, j1);
        if let Some((key, j2)) = parse_u32(s, j1) {
            if let Some(j3) = parse_lit(s, j2, seq!['"', ':']) {
                lemma_parse_user_bounds(s, j3);
            }
        }
    }
}

// ---------------------------------------------------------------------
// Collections: `{}` or `{entry,entry,...}`, keys pairwise distinct.
// ---------------------------------------------------------------------

/// Some record of `s` carries the key `k`.
pub open spec fn has_key<R: Keyed>(s: Seq<R>, k: u32) -> bool {
    exists|i: int| 0 <= i < s.len() && s[i].key() == k
}

/// One entry: the decimal key in quotes, a colon, the record.
pub open spec fn ser_task_entry(t: TaskView) -> Seq<char> {
    seq!['"'] + ser_u32(t.id) + seq!['"', ':'] + ser_task(t)
}

pub open spec fn ser_user_entry(u: UserView) -> Seq<char> {
    seq!['"'] + ser_u32(u.id) + seq!['"', ':'] + ser_user(u)
}

/// The entries of a collection, in order, commas between them.
pub open spec fn ser_task_entries(s: Seq<TaskView>) -> Seq<char>
    decreases s.len(),
{
    if s.len() == 0 {
        Seq::empty()
    } else if s.len() == 1 {
        ser_task_entry(s[0])
    } else {
        ser_task_entry(s[0]) + seq![','] + ser_task_entries(s.drop_first())
    }
}

pub open spec fn ser_user_entries(s: Seq<UserView>) -> Seq<char>
    decreases s.len(),
{
    if s.len() == 0 {
        Seq::empty()
    } else if s.len() == 1 {
        ser_user_entry(s[0])
    } else {
        ser_user_entry(s[0]) + seq![','] + ser_user_entries(s.drop_first())
    }
}

pub open spec fn ser_task_coll(s: Seq<TaskView>) -> Seq<char> {
    seq!['{'] + ser_task_entries(s) + seq!['}']
}

pub open spec fn ser_user_coll(s: Seq<UserView>) -> Seq<char> {
    seq!['{'] + ser_user_entries(s) + seq!['}']
}

/// The entries of a collection and its closing brace, from `i`. Rejects a
/// key repeating an earlier one, and a comma before the brace.
pub open spec fn parse_task_entries(s: Seq<char>, i: int) -> Option<(Seq<TaskView>, int)>
    decreases s.len() - i,
    via parse_task_entries_dec
{
    if parse_lit(s, i, seq!['}']) is Some {
        Some((Seq::empty(), i + 1))
    } else {
        match parse_task_entry(s, i) {
            None => None,
            Some((t, j)) => if parse_lit(s, j, seq!['}']) is Some {
                Some((seq![t], j + 1))
            } else if parse_lit(s, j, seq![',']) is Some {
                match parse_task_entries(s, j + 1) {
                    None => None,
                    Some((ts, k)) => if ts.len() > 0 && !has_key(ts, t.id) {
                        Some((seq![t] + ts, k))
                    } else {
                        None
                    },
                }
            } else {
                None
            },
        }
    }
}

#[via_fn]
proof fn parse_task_entries_dec(s: Seq<char>, i: int) {
    lemma_parse_task_entry_bounds(s, i);
}

pub open spec fn parse_user_entries(s: Seq<char>, i: int) -> Option<(Seq<UserView>, int)>
    decreases s.len() - i,
    via parse_user_entries_dec
{
    if parse_lit(s, i, seq!['}']) is Some {
        Some((Seq::empty(), i + 1))
    } else {
        match parse_user_entry(s, i) {
            None => None,
            Some((u, j)) => if parse_lit(s, j, seq!['}']) is Some {
                Some((seq![u], j + 1))
            } else if parse_lit(s, j, seq![',']) is Some {
                match parse_user_entries(s, j + 1) {
                    None => None,
                    Some((us, k)) => if us.len() > 0 && !has_key(us, u.id) {
                        Some((seq![u] + us, k))
                    } else {
                        None
                    },
                }
            } else {
                None
            },
        }
    }
}

#[via_fn]
proof fn parse_user_entries_dec(s: Seq<char>, i: int) {
    lemma_parse_user_entry_bounds(s, i);
}

pub open spec fn parse_task_coll(s: Seq<char>, i: int) -> Option<(Seq<TaskView>, int)> {
    match parse_lit(s, i, seq!['{']) {
        None => None,
        Some(j) => parse_task_entries(s, j),
    }
}

pub open spec fn parse_user_coll(s: Seq<char>, i: int) -> Option<(Seq<UserView>, int)> {
    match parse_lit(s, i, seq!['{']) {
        None => None,
        Some(j) => parse_user_entries(s, j),
    }
}

/// A parsed collection has pairwise distinct keys: the parser rejected
/// anything else.
pub proof fn lemma_parse_task_entries_distinct(s: Seq<char>, i: int)
    ensures
        parse_task_entries(s, i) matches Some((ts, j)) ==> distinct_keys(ts),
    decreases s.len() - i,
{
    if parse_lit(s, i, seq!['}']) is Some {
    } else {
        if let Some((t, j)) = parse_task_entry(s, i) {
            lemma_parse_task_entry_bounds(s, i);
            if parse_lit(s, j, seq!['}']) is Some {
            } else if parse_lit(s, j, seq![',']) is Some {
                lemma_parse_task_entries_distinct(s, j + 1);
                if let Some((ts, k)) = parse_task_entries(s, j + 1) {
                    if ts.len() > 0 && !has_key(ts, t.id) {
                        let w = seq![t] + ts;
                        assert forall|a: int, b: int| 0 <= a < b < w.len() implies w[a].key()
                            != w[b].key() by {
                            if a == 0 {
                                assert(w[b] == ts[b - 1]);
                                if w[a].key() == w[b].key() {
                                    assert(ts[b - 1].key() == t.id);
                                    assert(has_key(ts, t.id));
                                }
                            } else {
                                assert(w[a] == ts[a - 1]);
                                assert(w[b] == ts[b - 1]);
                            }
                        }
                    }
                }
            }
        }
    }
}

pub proof fn lemma_parse_user_entries_distinct(s: Seq<char>, i: int)
    ensures
        parse_user_entries(s, i) matches Some((us, j)) ==> distinct_keys(us),
    decreases s.len() - i,
{
    if parse_lit(s, i, seq!['}']) is Some {
    } else {
        if let Some((u, j)) = parse_user_entry(s, i) {
            lemma_parse_user_entry_bounds(s, i);
            if parse_lit(s, j, seq!['}']) is Some {
            } else if parse_lit(s, j, seq![',']) is Some {
                lemma_parse_user_entries_distinct(s, j + 1);
                if let Some((us, k)) = parse_user_entries(s, j + 1) {
                    if us.len() > 0 && !has_key(us, u.id) {
                        let w = seq![u] + us;
                        assert forall|a: int, b: int| 0 <= a < b < w.len() implies w[a].key()
                            != w[b].key() by {
                            if a == 0 {
                                assert(w[b] == us[b - 1]);
                                if w[a].key() == w[b].key() {
                                    assert(us[b - 1].key() == u.id);
                                    assert(has_key(us, u.id));
                                }
                            } else {
                                assert(w[a] == us[a - 1]);
                                assert(w[b] == us[b - 1]);
                            }
                        }
                    }
                }
            }
        }
    }
}

// ---------------------------------------------------------------------
// The whole store.
// ---------------------------------------------------------------------

pub open spec fn ser_store(d: DbView) -> Seq<char> {
    lit_store_open() + ser_task_coll(d.tasks) + lit_users_key() + ser_user_coll(d.users)
        + seq!['}']
}

pub open spec fn parse_store(s: Seq<char>, i: int) -> Option<(DbView, int)> {
    match parse_lit(s, i, lit_store_open()) {
        None => None,
        Some(j1) => match parse_task_coll(s, j1) {
            None => None,
            Some((tasks, j2)) => match parse_lit(s, j2, lit_users_key()) {
                None => None,
                Some(j3) => match parse_user_coll(s, j3) {
                    None => None,
                    Some((users, j4)) => match parse_lit(s, j4, seq!['}']) {
                        None => None,
                        Some(j5) => Some((DbView { tasks, users }, j5)),
                    },
                },
            },
        },
    }
}

/// The whole text parses as one store with nothing after it.
pub open spec fn parse_store_text(s: Seq<char>) -> Option<DbView> {
    match parse_store(s, 0) {
        None => None,
        Some((d, j)) => if j == s.len() {
            Some(d)
        } else {
            None
        },
    }
}

// ---------------------------------------------------------------------
// The round trip: what `ser_*` lays out, `parse_*` reads back.
// ---------------------------------------------------------------------

proof fn lemma_rt_task(s: Seq<char>, i: int, t: TaskView)
    requires
        0 <= i,
        i + ser_task(t).len() <= s.len(),
        s.subrange(i, i + ser_task(t).len()) == ser_task(t),
    ensures
        parse_task(s, i) == Some((t, i + ser_task(t).len())),
{
    let a = lit_task_open();
    let b = ser_u32(t.id);
    let c = lit_name_key();
    let d = ser_string(t.name);
    let e = lit_completed_key();
    let f = ser_bool(t.completed);
    let g = seq!['}'];
    let r5 = f + g;
    let r4 = e + r5;
    let r3 = d + r4;
    let r2 = c + r3;
    let r1 = b + r2;
    assert(ser_task(t) =~= a + r1);
    lemma_split_at(s, i, a, r1);
    let i1 = i + a.len();
    lemma_split_at(s, i1, b, r2);
    let i2 = i1 + b.len();
    lemma_split_at(s, i2, c, r3);
    let i3 = i2 + c.len();
    lemma_split_at(s, i3, d, r4);
    let i4 = i3 + d.len();
    lemma_split_at(s, i4, e, r5);
    let i5 = i4 + e.len();
    lemma_split_at(s, i5, f, g);
    let i6 = i5 + f.len();
    lemma_chars_at(s, i2, c);
    assert(s[i2] == c[0]);
    assert(c[0] == ',');
    lemma_rt_u32(s, i1, t.id);
    lemma_rt_string(s, i3, t.name);
    lemma_rt_bool(s, i5, t.completed);
    assert(parse_lit(s, i, a) == Some(i1));
    assert(parse_lit(s, i2, c) == Some(i3));
    assert(parse_lit(s, i4, e) == Some(i5));
    assert(parse_lit(s, i6, g) == Some(i6 + 1));
    assert(TaskView { id: t.id, name: t.name, completed: t.completed } == t);
    assert(i6 + 1 == i + ser_task(t).len());
}

proof fn lemma_rt_user(s: Seq<char>, i: int, u: UserView)
    requires
        0 <= i,
        i + ser_user(u).len() <= s.len(),
        s.subrange(i, i + ser_user(u).len()) == ser_user(u),
    ensures
        parse_user(s, i) == Some((u, i + ser_user(u).len())),
{
    let a = lit_task_open();
    let b = ser_u32(u.id);
    let c = lit_username_key();
    let d = ser_string(u.username);
    let e = lit_password_key();
    let f = ser_string(u.password);
    let g = seq!['}'];
    let r5 = f + g;
    let r4 = e + r5;
    let r3 = d + r4;
    let r2 = c + r3;
    let r1 = b + r2;
    assert(ser_user(u) =~= a + r1);
    lemma_split_at(s, i, a, r1);
    let i1 = i + a.len();
    lemma_split_at(s, i1, b, r2);
    let i2 = i1 + b.len();
    lemma_split_at(s, i2, c, r3);
    let i3 = i2 + c.len();
    lemma_split_at(s, i3, d, r4);
    let i4 = i3 + d.len();
    lemma_split_at(s, i4, e, r5);
    let i5 = i4 + e.len();
    lemma_split_at(s, i5, f, g);
    let i6 = i5 + f.len();
    lemma_chars_at(s, i2, c);
    assert(s[i2] == c[0]);
    assert(c[0] == ',');
    lemma_rt_u32(s, i1, u.id);
    lemma_rt_string(s, i3, u.username);
    lemma_rt_string(s, i5, u.password);
    assert(parse_lit(s, i, a) == Some(i1));
    assert(parse_lit(s, i2, c) == Some(i3));
    assert(parse_lit(s, i4, e) == Some(i5));
    assert(parse_lit(s, i6, g) == Some(i6 + 1));
    assert(UserView { id: u.id, username: u.username, password: u.password } == u);
    assert(i6 + 1 == i + ser_user(u).len());
}

proof fn lemma_rt_task_entry(s: Seq<char>, i: int, t: TaskView)
    requires
        0 <= i,
        i + ser_task_entry(t).len() <= s.len(),
        s.subrange(i, i + ser_task_entry(t).len()) == ser_task_entry(t),
    ensures
        parse_task_entry(s, i) == Some((t, i + ser_task_entry(t).len())),
{
    let a = seq!['"'];
    let b = ser_u32(t.id);
    let c = seq!['"', ':'];
    let d = ser_task(t);
    let r2 = c + d;
    let r1 = b + r2;
    assert(ser_task_entry(t) =~= a + r1);
    lemma_split_at(s, i, a, r1);
    let i1 = i + 1;
    lemma_split_at(s, i1, b, r2);
    let i2 = i1 + b.len();
    lemma_split_at(s, i2, c, d);
    let i3 = i2 + 2;
    lemma_chars_at(s, i2, c);
    assert(s[i2] == c[0]);
    assert(c[0] == '"');
    lemma_rt_u32(s, i1, t.id);
    lemma_rt_task(s, i3, t);
    assert(parse_lit(s, i, a) == Some(i1));
    assert(parse_lit(s, i2, c) == Some(i3));
}

proof fn lemma_rt_user_entry(s: Seq<char>, i: int, u: UserView)
    requires
        0 <= i,
        i + ser_user_entry(u).len() <= s.len(),
        s.subrange(i, i + ser_user_entry(u).len()) == ser_user_entry(u),
    ensures
        parse_user_entry(s, i) == Some((u, i + ser_user_entry(u).len())),
{
    let a = seq!['"'];
    let b = ser_u32(u.id);
    let c = seq!['"', ':'];
    let d = ser_user(u);
    let r2 = c + d;
    let r1 = b + r2;
    assert(ser_user_entry(u) =~= a + r1);
    lemma_split_at(s, i, a, r1);
    let i1 = i + 1;
    lemma_split_at(s, i1, b, r2);
    let i2 = i1 + b.len();
    lemma_split_at(s, i2, c, d);
    let i3 = i2 + 2;
    lemma_chars_at(s, i2, c);
    assert(s[i2] == c[0]);
    assert(c[0] == '"');
    lemma_rt_u32(s, i1, u.id);
    lemma_rt_user(s, i3, u);
    assert(parse_lit(s, i, a) == Some(i1));
    assert(parse_lit(s, i2, c) == Some(i3));
}

proof fn lemma_rt_task_entries(s: Seq<char>, i: int, ts: Seq<TaskView>)
    requires
        0 <= i,
        distinct_keys(ts),
        i + ser_task_entries(ts).len() + 1 <= s.len(),
        s.subrange(i, i + ser_task_entries(ts).len() + 1) == ser_task_entries(ts) + seq!['}'],
    ensures
        parse_task_entries(s, i) == Some((ts, i + ser_task_entries(ts).len() + 1)),
    decreases ts.len(),
{
    let w = ser_task_entries(ts) + seq!['}'];
    lemma_chars_at(s, i, w);
    if ts.len() == 0 {
        assert(s[i] == w[0]);
        assert(w[0] == '}');
        assert(s.subrange(i, i + 1) =~= seq!['}']);
        assert(parse_lit(s, i, seq!['}']) == Some(i + 1));
        assert(ts =~= Seq::<TaskView>::empty());
    } else {
        let ent = ser_task_entry(ts[0]);
        assert(s[i] == w[0]);
        assert(w[0] == ent[0]);
        assert(ent[0] == '"');
        if parse_lit(s, i, seq!['}']) is Some {
            lemma_chars_at(s, i, seq!['}']);
            assert(s[i] == '}');
            assert(false);
        }
        if ts.len() == 1 {
            lemma_split_at(s, i, ent, seq!['}']);
            lemma_rt_task_entry(s, i, ts[0]);
            let j = i + ent.len();
            assert(parse_lit(s, j, seq!['}']) == Some(j + 1));
            assert(seq![ts[0]] =~= ts);
        } else {
            let rest = ts.drop_first();
            let er = ser_task_entries(rest);
            assert(ser_task_entries(ts) + seq!['}'] =~= ent + (seq![','] + (er + seq!['}'])));
            lemma_split_at(s, i, ent, seq![','] + (er + seq!['}']));
            let j = i + ent.len();
            lemma_split_at(s, j, seq![','], er + seq!['}']);
            lemma_rt_task_entry(s, i, ts[0]);
            lemma_chars_at(s, j, seq![',']);
            assert(s[j] == seq![','][0]);
            assert(seq![','][0] == ',');
            if parse_lit(s, j, seq!['}']) is Some {
                lemma_chars_at(s, j, seq!['}']);
                assert(s[j] == seq!['}'][0]);
                assert(seq!['}'][0] == '}');
                assert(false);
            }
            assert(parse_lit(s, j, seq![',']) == Some(j + 1));
            assert(forall|a: int, b: int|
                0 <= a < b < rest.len() ==> rest[a] == ts[a + 1] && rest[b] == ts[b + 1]);
            assert(distinct_keys(rest));
            lemma_rt_task_entries(s, j + 1, rest);
            assert(rest.len() > 0);
            if has_key(rest, ts[0].id) {
                let k = choose|k: int| 0 <= k < rest.len() && rest[k].key() == ts[0].id;
                assert(rest[k] == ts[k + 1]);
                assert(ts[k + 1].key() == ts[0].key());
                assert(false);
            }
            assert(seq![ts[0]] + rest =~= ts);
        }
    }
}

proof fn lemma_rt_user_entries(s: Seq<char>, i: int, us: Seq<UserView>)
    requires
        0 <= i,
        distinct_keys(us),
        i + ser_user_entries(us).len() + 1 <= s.len(),
        s.subrange(i, i + ser_user_entries(us).len() + 1) == ser_user_entries(us) + seq!['}'],
    ensures
        parse_user_entries(s, i) == Some((us, i + ser_user_entries(us).len() + 1)),
    decreases us.len(),
{
    let w = ser_user_entries(us) + seq!['}'];
    lemma_chars_at(s, i, w);
    if us.len() == 0 {
        assert(s[i] == w[0]);
        assert(w[0] == '}');
        assert(s.subrange(i, i + 1) =~= seq!['}']);
        assert(parse_lit(s, i, seq!['}']) == Some(i + 1));
        assert(us =~= Seq::<UserView>::empty());
    } else {
        let ent = ser_user_entry(us[0]);
        assert(s[i] == w[0]);
        assert(w[0] == ent[0]);
        assert(ent[0] == '"');
        if parse_lit(s, i, seq!['}']) is Some {
            lemma_chars_at(s, i, seq!['}']);
            assert(s[i] == '}');
            assert(false);
        }
        if us.len() == 1 {
            lemma_split_at(s, i, ent, seq!['}']);
            lemma_rt_user_entry(s, i, us[0]);
            let j = i + ent.len();
            assert(parse_lit(s, j, seq!['}']) == Some(j + 1));
            assert(seq![us[0]] =~= us);
        } else {
            let rest = us.drop_first();
            let er = ser_user_entries(rest);
            assert(ser_user_entries(us) + seq!['}'] =~= ent + (seq![','] + (er + seq!['}'])));
            lemma_split_at(s, i, ent, seq![','] + (er + seq!['}']));
            let j = i + ent.len();
            lemma_split_at(s, j, seq![','], er + seq!['}']);
            lemma_rt_user_entry(s, i, us[0]);
            lemma_chars_at(s, j, seq![',']);
            assert(s[j] == seq![','][0]);
            assert(seq![','][0] == ',');
            if parse_lit(s, j, seq!['}']) is Some {
                lemma_chars_at(s, j, seq!['}']);
                assert(s[j] == seq!['}'][0]);
                assert(seq!['}'][0] == '}');
                assert(false);
            }
            assert(parse_lit(s, j, seq![',']) == Some(j + 1));
            assert(forall|a: int, b: int|
                0 <= a < b < rest.len() ==> rest[a] == us[a + 1] && rest[b] == us[b + 1]);
            assert(distinct_keys(rest));
            lemma_rt_user_entries(s, j + 1, rest);
            assert(rest.len() > 0);
            if has_key(rest, us[0].id) {
                let k = choose|k: int| 0 <= k < rest.len() && rest[k].key() == us[0].id;
                assert(rest[k] == us[k + 1]);
                assert(us[k + 1].key() == us[0].key());
                assert(false);
            }
            assert(seq![us[0]] + rest =~= us);
        }
    }
}

proof fn lemma_rt_task_coll(s: Seq<char>, i: int, ts: Seq<TaskView>)
    requires
        0 <= i,
        distinct_keys(ts),
        i + ser_task_coll(ts).len() <= s.len(),
        s.subrange(i, i + ser_task_coll(ts).len()) == ser_task_coll(ts),
    ensures
        parse_task_coll(s, i) == Some((ts, i + ser_task_coll(ts).len())),
{
    let er = ser_task_entries(ts);
    assert(ser_task_coll(ts) =~= seq!['{'] + (er + seq!['}']));
    lemma_split_at(s, i, seq!['{'], er + seq!['}']);
    assert(parse_lit(s, i, seq!['{']) == Some(i + 1));
    lemma_rt_task_entries(s, i + 1, ts);
}

proof fn lemma_rt_user_coll(s: Seq<char>, i: int, us: Seq<UserView>)
    requires
        0 <= i,
        distinct_keys(us),
        i + ser_user_coll(us).len() <= s.len(),
        s.subrange(i, i + ser_user_coll(us).len()) == ser_user_coll(us),
    ensures
        parse_user_coll(s, i) == Some((us, i + ser_user_coll(us).len())),
{
    let er = ser_user_entries(us);
    assert(ser_user_coll(us) =~= seq!['{'] + (er + seq!['}']));
    lemma_split_at(s, i, seq!['{'], er + seq!['}']);
    assert(parse_lit(s, i, seq!['{']) == Some(i + 1));
    lemma_rt_user_entries(s, i + 1, us);
}

proof fn lemma_rt_store(s: Seq<char>, i: int, d: DbView)
    requires
        0 <= i,
        distinct_keys(d.tasks),
        distinct_keys(d.users),
        i + ser_store(d).len() <= s.len(),
        s.subrange(i, i + ser_store(d).len()) == ser_store(d),
    ensures
        parse_store(s, i) == Some((d, i + ser_store(d).len())),
{
    let a = lit_store_open();
    let b = ser_task_coll(d.tasks);
    let c = lit_users_key();
    let e = ser_user_coll(d.users);
    let g = seq!['}'];
    let r3 = e + g;
    let r2 = c + r3;
    let r1 = b + r2;
    assert(ser_store(d) =~= a + r1);
    lemma_split_at(s, i, a, r1);
    let i1 = i + a.len();
    lemma_split_at(s, i1, b, r2);
    let i2 = i1 + b.len();
    lemma_split_at(s, i2, c, r3);
    let i3 = i2 + c.len();
    lemma_split_at(s, i3, e, g);
    let i4 = i3 + e.len();
    lemma_rt_task_coll(s, i1, d.tasks);
    lemma_rt_user_coll(s, i3, d.users);
    assert(parse_lit(s, i, a) == Some(i1));
    assert(parse_lit(s, i2, c) == Some(i3));
    assert(parse_lit(s, i4, g) == Some(i4 + 1));
    assert(DbView { tasks: d.tasks, users: d.users } == d);
    assert(i4 + 1 == i + ser_store(d).len());
}

/// The round trip: a store rendered by the serializer is read back whole,
/// both collections exactly as they were, the empty store included.
pub proof fn lemma_save_load_round_trip(d: DbView)
    requires
        distinct_keys(d.tasks),
        distinct_keys(d.users),
    ensures
        parse_store_text(ser_store(d)) == Some(d),
{
    let s = ser_store(d);
    assert(s.subrange(0, s.len() as int) =~= s);
    lemma_rt_store(s, 0, d);
}

// ---------------------------------------------------------------------
// Executable parsing, mirroring the specification functions.
// ---------------------------------------------------------------------

/// Relies on `String`'s `FromIterator<char>` impl (`collect`): the string
/// of exactly the given characters, in order.
#[verifier::external_body]
fn chars_to_string(v: Vec<char>) -> (r: String)
    ensures
        r@ == v@,
{
    v.into_iter().collect()
}

fn str_chars(s: &str) -> (r: Vec<char>)
    ensures
        r@ == s@,
{
    let n = s.unicode_len();
    let mut r: Vec<char> = Vec::new();
    let mut i: usize = 0;
    while i < n
        invariant
            n == s@.len(),
            i <= n,
            r@.len() == i,
            forall|k: int| 0 <= k < i ==> r@[k] == s@[k],
        decreases n - i,
    {
        r.push(s.get_char(i));
        i += 1;
    }
    proof {
        assert(r@ =~= s@);
    }
    r
}

fn parse_lit_x(v: &Vec<char>, i: usize, lit: &Vec<char>) -> (r: Option<usize>)
    requires
        i <= v.len(),
    ensures
        match r {
            Some(j) => parse_lit(v@, i as int, lit@) == Some(j as int) && i <= j <= v.len(),
            None => parse_lit(v@, i as int, lit@) is None,
        },
{
    if v.len() - i < lit.len() {
        return None;
    }
    let mut k: usize = 0;
    while k < lit.len()
        invariant
            i + lit.len() <= v.len(),
            k <= lit.len(),
            forall|m: int| 0 <= m < k ==> v@[i + m] == lit@[m],
        decreases lit.len() - k,
    {
        if v[i + k] != lit[k] {
            proof {
                let w = v@.subrange(i as int, i as int + lit@.len() as int);
                if parse_lit(v@, i as int, lit@) is Some {
                    assert(w == lit@);
                    assert(w[k as int] == v@[i + k]);
                }
            }
            return None;
        }
        k += 1;
    }
    proof {
        assert(v@.subrange(i as int, i as int + lit@.len() as int) =~= lit@) by {
            assert forall|m: int| 0 <= m < lit@.len() implies v@.subrange(
                i as int,
                i as int + lit@.len() as int,
            )[m] == lit@[m] by {
                assert(v@.subrange(i as int, i as int + lit@.len() as int)[m] == v@[i + m]);
            }
        }
    }
    Some(i + lit.len())
}

fn lit_brace_close_x() -> (r: Vec<char>)
    ensures
        r@ == seq!['}'],
{
    let mut r: Vec<char> = Vec::new();
    r.push('}');
    proof {
        assert(r@ =~= seq!['}']);
    }
    r
}

fn lit_comma_x() -> (r: Vec<char>)
    ensures
        r@ == seq![','],
{
    let mut r: Vec<char> = Vec::new();
    r.push(',');
    proof {
        assert(r@ =~= seq![',']);
    }
    r
}

fn lit_quote_x() -> (r: Vec<char>)
    ensures
        r@ == seq!['"'],
{
    let mut r: Vec<char> = Vec::new();
    r.push('"');
    proof {
        assert(r@ =~= seq!['"']);
    }
    r
}

fn lit_quote_colon_x() -> (r: Vec<char>)
    ensures
        r@ == seq!['"', ':'],
{
    let mut r: Vec<char> = Vec::new();
    r.push('"');
    r.push(':');
    proof {
        assert(r@ =~= seq!['"', ':']);
    }
    r
}

fn lit_true_x() -> (r: Vec<char>)
    ensures
        r@ == lit_true(),
{
    let mut r: Vec<char> = Vec::new();
    r.push('t');
    r.push('r');
    r.push('u');
    r.push('e');
    proof {
        assert(r@ =~= lit_true());
    }
    r
}

fn lit_false_x() -> (r: Vec<char>)
    ensures
        r@ == lit_false(),
{
    let mut r: Vec<char> = Vec::new();
    r.push('f');
    r.push('a');
    r.push('l');
    r.push('s');
    r.push('e');
    proof {
        assert(r@ =~= lit_false());
    }
    r
}

fn lit_task_open_x() -> (r: Vec<char>)
    ensures
        r@ == lit_task_open(),
{
    let mut r: Vec<char> = Vec::new();
    r.push('{');
    r.push('"');
    r.push('i');
    r.push('d');
    r.push('"');
    r.push(':');
    proof {
        assert(r@ =~= lit_task_open());
    }
    r
}

fn lit_name_key_x() -> (r: Vec<char>)
    ensures
        r@ == lit_name_key(),
{
    let mut r: Vec<char> = Vec::new();
    r.push(',');
    r.push('"');
    r.push('n');
    r.push('a');
    r.push('m');
    r.push('e');
    r.push('"');
    r.push(':');
    proof {
        assert(r@ =~= lit_name_key());
    }
    r
}

fn lit_completed_key_x() -> (r: Vec<char>)
    ensures
        r@ == lit_completed_key(),
{
    let mut r: Vec<char> = Vec::new();
    r.push(',');
    r.push('"');
    r.push('c');
    r.push('o');
    r.push('m');
    r.push('p');
    r.push('l');
    r.push('e');
    r.push('t');
    r.push('e');
    r.push('d');
    r.push('"');
    r.push(':');
    proof {
        assert(r@ =~= lit_completed_key());
    }
    r
}

fn lit_username_key_x() -> (r: Vec<char>)
    ensures
        r@ == lit_username_key(),
{
    let mut r: Vec<char> = Vec::new();
    r.push(',');
    r.push('"');
    r.push('u');
    r.push('s');
    r.push('e');
    r.push('r');
    r.push('n');
    r.push('a');
    r.push('m');
    r.push('e');
    r.push('"');
    r.push(':');
    proof {
        assert(r@ =~= lit_username_key());
    }
    r
}

fn lit_password_key_x() -> (r: Vec<char>)
    ensures
        r@ == lit_password_key(),
{
    let mut r: Vec<char> = Vec::new();
    r.push(',');
    r.push('"');
    r.push('p');
    r.push('a');
    r.push('s');
    r.push('s');
    r.push('w');
    r.push('o');
    r.push('r');
    r.push('d');
    r.push('"');
    r.push(':');
    proof {
        assert(r@ =~= lit_password_key());
    }
    r
}

fn lit_store_open_x() -> (r: Vec<char>)
    ensures
        r@ == lit_store_open(),
{
    let mut r: Vec<char> = Vec::new();
    r.push('{');
    r.push('"');
    r.push('t');
    r.push('a');
    r.push('s');
    r.push('k');
    r.push('s');
    r.push('"');
    r.push(':');
    proof {
        assert(r@ =~= lit_store_open());
    }
    r
}

fn lit_users_key_x() -> (r: Vec<char>)
    ensures
        r@ == lit_users_key(),
{
    let mut r: Vec<char> = Vec::new();
    r.push(',');
    r.push('"');
    r.push('u');
    r.push('s');
    r.push('e');
    r.push('r');
    r.push('s');
    r.push('"');
    r.push(':');
    proof {
        assert(r@ =~= lit_users_key());
    }
    r
}

fn parse_bool_x(v: &Vec<char>, i: usize) -> (r: Option<(bool, usize)>)
    requires
        i <= v.len(),
    ensures
        match r {
            Some((b, j)) => parse_bool(v@, i as int) == Some((b, j as int)) && i <= j <= v.len(),
            None => parse_bool(v@, i as int) is None,
        },
{
    let tl = lit_true_x();
    match parse_lit_x(v, i, &tl) {
        Some(j) => Some((true, j)),
        None => {
            let fl = lit_false_x();
            match parse_lit_x(v, i, &fl) {
                Some(j) => Some((false, j)),
                None => None,
            }
        },
    }
}

fn parse_task_x(v: &Vec<char>, i: usize) -> (r: Option<(Task, usize)>)
    requires
        i <= v.len(),
    ensures
        match r {
            Some((t, j)) => parse_task(v@, i as int) == Some((t@, j as int)) && i < j <= v.len(),
            None => parse_task(v@, i as int) is None,
        },
{
    let l1 = lit_task_open_x();
    let j1 = match parse_lit_x(v, i, &l1) {
        None => {
            return None;
        },
        Some(j) => j,
    };
    let (id, j2) = match parse_u32_x(v, j1) {
        None => {
            return None;
        },
        Some(p) => p,
    };
    let l2 = lit_name_key_x();
    let j3 = match parse_lit_x(v, j2, &l2) {
        None => {
            return None;
        },
        Some(j) => j,
    };
    let (name_chars, j4) = match parse_string_x(v, j3) {
        None => {
            return None;
        },
        Some(p) => p,
    };
    let l3 = lit_completed_key_x();
    let j5 = match parse_lit_x(v, j4, &l3) {
        None => {
            return None;
        },
        Some(j) => j,
    };
    let (completed, j6) = match parse_bool_x(v, j5) {
        None => {
            return None;
        },
        Some(p) => p,
    };
    let l4 = lit_brace_close_x();
    let j7 = match parse_lit_x(v, j6, &l4) {
        None => {
            return None;
        },
        Some(j) => j,
    };
    let t = Task { id, name: chars_to_string(name_chars), completed };
    Some((t, j7))
}

fn parse_user_x(v: &Vec<char>, i: usize) -> (r: Option<(User, usize)>)
    requires
        i <= v.len(),
    ensures
        match r {
            Some((u, j)) => parse_user(v@, i as int) == Some((u@, j as int)) && i < j <= v.len(),
            None => parse_user(v@, i as int) is None,
        },
{
    let l1 = lit_task_open_x();
    let j1 = match parse_lit_x(v, i, &l1) {
        None => {
            return None;
        },
        Some(j) => j,
    };
    let (id, j2) = match parse_u32_x(v, j1) {
        None => {
            return None;
        },
        Some(p) => p,
    };
    let l2 = lit_username_key_x();
    let j3 = match parse_lit_x(v, j2, &l2) {
        None => {
            return None;
        },
        Some(j) => j,
    };
    let (username_chars, j4) = match parse_string_x(v, j3) {
        None => {
            return None;
        },
        Some(p) => p,
    };
    let l3 = lit_password_key_x();
    let j5 = match parse_lit_x(v, j4, &l3) {
        None => {
            return None;
        },
        Some(j) => j,
    };
    let (password_chars, j6) = match parse_string_x(v, j5) {
        None => {
            return None;
        },
        Some(p) => p,
    };
    let l4 = lit_brace_close_x();
    let j7 = match parse_lit_x(v, j6, &l4) {
        None => {
            return None;
        },
        Some(j) => j,
    };
    let u = User {
        id,
        username: chars_to_string(username_chars),
        password: chars_to_string(password_chars),
    };
    Some((u, j7))
}

fn parse_task_entry_x(v: &Vec<char>, i: usize) -> (r: Option<(Task, usize)>)
    requires
        i <= v.len(),
    ensures
        match r {
            Some((t, j)) => parse_task_entry(v@, i as int) == Some((t@, j as int)) && i < j
                <= v.len(),
            None => parse_task_entry(v@, i as int) is None,
        },
{
    let q = lit_quote_x();
    let j1 = match parse_lit_x(v, i, &q) {
        None => {
            return None;
        },
        Some(j) => j,
    };
    let (key, j2) = match parse_u32_x(v, j1) {
        None => {
            return None;
        },
        Some(p) => p,
    };
    let qc = lit_quote_colon_x();
    let j3 = match parse_lit_x(v, j2, &qc) {
        None => {
            return None;
        },
        Some(j) => j,
    };
    let (t, j4) = match parse_task_x(v, j3) {
        None => {
            return None;
        },
        Some(p) => p,
    };
    if t.id == key {
        Some((t, j4))
    } else {
        None
    }
}

fn parse_user_entry_x(v: &Vec<char>, i: usize) -> (r: Option<(User, usize)>)
    requires
        i <= v.len(),
    ensures
        match r {
            Some((u, j)) => parse_user_entry(v@, i as int) == Some((u@, j as int)) && i < j
                <= v.len(),
            None => parse_user_entry(v@, i as int) is None,
        },
{
    let q = lit_quote_x();
    let j1 = match parse_lit_x(v, i, &q) {
        None => {
            return None;
        },
        Some(j) => j,
    };
    let (key, j2) = match parse_u32_x(v, j1) {
        None => {
            return None;
        },
        Some(p) => p,
    };
    let qc = lit_quote_colon_x();
    let j3 = match parse_lit_x(v, j2, &qc) {
        None => {
            return None;
        },
        Some(j) => j,
    };
    let (u, j4) = match parse_user_x(v, j3) {
        None => {
            return None;
        },
        Some(p) => p,
    };
    if u.id == key {
        Some((u, j4))
    } else {
        None
    }
}

fn tasks_have_id(ts: &Vec<Task>, id: u32) -> (r: bool)
    ensures
        r == has_key(ts@.map_values(|t: Task| t@), id),
{
    let ghost m = ts@.map_values(|t: Task| t@);
    let mut i: usize = 0;
    while i < ts.len()
        invariant
            i <= ts.len(),
            m == ts@.map_values(|t: Task| t@),
            forall|k: int| 0 <= k < i ==> m[k].key() != id,
        decreases ts.len() - i,
    {
        if ts[i].id == id {
            proof {
                assert(m[i as int] == ts@[i as int]@);
                assert(m[i as int].key() == id);
            }
            return true;
        }
        proof {
            assert(m[i as int] == ts@[i as int]@);
        }
        i += 1;
    }
    proof {
        if has_key(m, id) {
            let k = choose|k: int| 0 <= k < m.len() && m[k].key() == id;
            assert(false);
        }
    }
    false
}

fn users_have_id(us: &Vec<User>, id: u32) -> (r: bool)
    ensures
        r == has_key(us@.map_values(|u: User| u@), id),
{
    let ghost m = us@.map_values(|u: User| u@);
    let mut i: usize = 0;
    while i < us.len()
        invariant
            i <= us.len(),
            m == us@.map_values(|u: User| u@),
            forall|k: int| 0 <= k < i ==> m[k].key() != id,
        decreases us.len() - i,
    {
        if us[i].id == id {
            proof {
                assert(m[i as int] == us@[i as int]@);
                assert(m[i as int].key() == id);
            }
            return true;
        }
        proof {
            assert(m[i as int] == us@[i as int]@);
        }
        i += 1;
    }
    proof {
        if has_key(m, id) {
            let k = choose|k: int| 0 <= k < m.len() && m[k].key() == id;
            assert(false);
        }
    }
    false
}

fn parse_task_entries_x(v: &Vec<char>, i: usize) -> (r: Option<(Vec<Task>, usize)>)
    requires
        i <= v.len(),
    ensures
        match r {
            Some((ts, j)) => parse_task_entries(v@, i as int) == Some(
                (ts@.map_values(|t: Task| t@), j as int),
            ) && i < j <= v.len(),
            None => parse_task_entries(v@, i as int) is None,
        },
    decreases v.len() - i,
{
    let bc = lit_brace_close_x();
    if let Some(j0) = parse_lit_x(v, i, &bc) {
        let out: Vec<Task> = Vec::new();
        proof {
            assert(out@.map_values(|t: Task| t@) =~= Seq::<TaskView>::empty());
        }
        return Some((out, j0));
    }
    let (t, j) = match parse_task_entry_x(v, i) {
        None => {
            return None;
        },
        Some(p) => p,
    };
    if let Some(j2) = parse_lit_x(v, j, &bc) {
        let mut out: Vec<Task> = Vec::new();
        let ghost tv = t@;
        out.push(t);
        proof {
            assert(out@.map_values(|t: Task| t@) =~= seq![tv]);
        }
        return Some((out, j2));
    }
    let cm = lit_comma_x();
    let j2 = match parse_lit_x(v, j, &cm) {
        None => {
            return None;
        },
        Some(j2) => j2,
    };
    match parse_task_entries_x(v, j2) {
        None => None,
        Some((rest, k)) => {
            if rest.len() > 0 && !tasks_have_id(&rest, t.id) {
                let ghost tv = t@;
                let ghost restv = rest@.map_values(|t: Task| t@);
                let mut out: Vec<Task> = Vec::new();
                out.push(t);
                let mut tail = rest;
                out.append(&mut tail);
                proof {
                    assert(out@.map_values(|t: Task| t@) =~= seq![tv] + restv);
                }
                Some((out, k))
            } else {
                None
            }
        },
    }
}

fn parse_user_entries_x(v: &Vec<char>, i: usize) -> (r: Option<(Vec<User>, usize)>)
    requires
        i <= v.len(),
    ensures
        match r {
            Some((us, j)) => parse_user_entries(v@, i as int) == Some(
                (us@.map_values(|u: User| u@), j as int),
            ) && i < j <= v.len(),
            None => parse_user_entries(v@, i as int) is None,
        },
    decreases v.len() - i,
{
    let bc = lit_brace_close_x();
    if let Some(j0) = parse_lit_x(v, i, &bc) {
        let out: Vec<User> = Vec::new();
        proof {
            assert(out@.map_values(|u: User| u@) =~= Seq::<UserView>::empty());
        }
        return Some((out, j0));
    }
    let (u, j) = match parse_user_entry_x(v, i) {
        None => {
            return None;
        },
        Some(p) => p,
    };
    if let Some(j2) = parse_lit_x(v, j, &bc) {
        let mut out: Vec<User> = Vec::new();
        let ghost uv = u@;
        out.push(u);
        proof {
            assert(out@.map_values(|u: User| u@) =~= seq![uv]);
        }
        return Some((out, j2));
    }
    let cm = lit_comma_x();
    let j2 = match parse_lit_x(v, j, &cm) {
        None => {
            return None;
        },
        Some(j2) => j2,
    };
    match parse_user_entries_x(v, j2) {
        None => None,
        Some((rest, k)) => {
            if rest.len() > 0 && !users_have_id(&rest, u.id) {
                let ghost uv = u@;
                let ghost restv = rest@.map_values(|u: User| u@);
                let mut out: Vec<User> = Vec::new();
                out.push(u);
                let mut tail = rest;
                out.append(&mut tail);
                proof {
                    assert(out@.map_values(|u: User| u@) =~= seq![uv] + restv);
                }
                Some((out, k))
            } else {
                None
            }
        },
    }
}

fn parse_store_x(v: &Vec<char>) -> (r: Option<(Database, usize)>)
    ensures
        match r {
            Some((db, j)) => parse_store(v@, 0) == Some((db@, j as int)) && j <= v.len(),
            None => parse_store(v@, 0) is None,
        },
{
    let l1 = lit_store_open_x();
    let j1 = match parse_lit_x(v, 0, &l1) {
        None => {
            return None;
        },
        Some(j) => j,
    };
    let ob = lit_open_brace_x();
    let j1b = match parse_lit_x(v, j1, &ob) {
        None => {
            return None;
        },
        Some(j) => j,
    };
    let (tasks, j2) = match parse_task_entries_x(v, j1b) {
        None => {
            return None;
        },
        Some(p) => p,
    };
    let l2 = lit_users_key_x();
    let j3 = match parse_lit_x(v, j2, &l2) {
        None => {
            return None;
        },
        Some(j) => j,
    };
    let j3b = match parse_lit_x(v, j3, &ob) {
        None => {
            return None;
        },
        Some(j) => j,
    };
    let (users, j4) = match parse_user_entries_x(v, j3b) {
        None => {
            return None;
        },
        Some(p) => p,
    };
    let bc = lit_brace_close_x();
    let j5 = match parse_lit_x(v, j4, &bc) {
        None => {
            return None;
        },
        Some(j) => j,
    };
    let db = Database { tasks, users };
    proof {
        assert(db@ =~= DbView {
            tasks: db.tasks@.map_values(|t: Task| t@),
            users: db.users@.map_values(|u: User| u@),
        });
    }
    Some((db, j5))
}

fn lit_open_brace_x() -> (r: Vec<char>)
    ensures
        r@ == seq!['{'],
{
    let mut r: Vec<char> = Vec::new();
    r.push('{');
    proof {
        assert(r@ =~= seq!['{']);
    }
    r
}

// ---------------------------------------------------------------------
// Executable serialization.
// ---------------------------------------------------------------------

fn ser_bool_x(b: bool) -> (r: Vec<char>)
    ensures
        r@ == ser_bool(b),
{
    if b {
        lit_true_x()
    } else {
        lit_false_x()
    }
}

fn ser_task_x(t: &Task) -> (r: Vec<char>)
    ensures
        r@ == ser_task(t@),
{
    let mut r = lit_task_open_x();
    let mut p = ser_u32_x(t.id);
    r.append(&mut p);
    let mut p = lit_name_key_x();
    r.append(&mut p);
    let mut p = ser_string_x(&t.name);
    r.append(&mut p);
    let mut p = lit_completed_key_x();
    r.append(&mut p);
    let mut p = ser_bool_x(t.completed);
    r.append(&mut p);
    r.push('}');
    proof {
        assert(r@ =~= ser_task(t@));
    }
    r
}

fn ser_user_x(u: &User) -> (r: Vec<char>)
    ensures
        r@ == ser_user(u@),
{
    let mut r = lit_task_open_x();
    let mut p = ser_u32_x(u.id);
    r.append(&mut p);
    let mut p = lit_username_key_x();
    r.append(&mut p);
    let mut p = ser_string_x(&u.username);
    r.append(&mut p);
    let mut p = lit_password_key_x();
    r.append(&mut p);
    let mut p = ser_string_x(&u.password);
    r.append(&mut p);
    r.push('}');
    proof {
        assert(r@ =~= ser_user(u@));
    }
    r
}

fn ser_task_entry_x(t: &Task) -> (r: Vec<char>)
    ensures
        r@ == ser_task_entry(t@),
{
    let mut r: Vec<char> = Vec::new();
    r.push('"');
    let mut p = ser_u32_x(t.id);
    r.append(&mut p);
    r.push('"');
    r.push(':');
    let mut p = ser_task_x(t);
    r.append(&mut p);
    proof {
        assert(r@ =~= ser_task_entry(t@));
    }
    r
}

fn ser_user_entry_x(u: &User) -> (r: Vec<char>)
    ensures
        r@ == ser_user_entry(u@),
{
    let mut r: Vec<char> = Vec::new();
    r.push('"');
    let mut p = ser_u32_x(u.id);
    r.append(&mut p);
    r.push('"');
    r.push(':');
    let mut p = ser_user_x(u);
    r.append(&mut p);
    proof {
        assert(r@ =~= ser_user_entry(u@));
    }
    r
}

fn ser_task_entries_x(ts: &Vec<Task>, i: usize) -> (r: Vec<char>)
    requires
        i <= ts.len(),
    ensures
        r@ == ser_task_entries(ts@.map_values(|t: Task| t@).skip(i as int)),
    decreases ts.len() - i,
{
    let ghost m = ts@.map_values(|t: Task| t@);
    if i == ts.len() {
        proof {
            assert(m.skip(i as int) =~= Seq::<TaskView>::empty());
        }
        Vec::new()
    } else {
        let mut r = ser_task_entry_x(&ts[i]);
        proof {
            assert(m.skip(i as int)[0] == m[i as int]);
            assert(m[i as int] == ts@[i as int]@);
        }
        if i + 1 == ts.len() {
            proof {
                assert(m.skip(i as int).len() == 1);
            }
            r
        } else {
            r.push(',');
            let mut rest = ser_task_entries_x(ts, i + 1);
            r.append(&mut rest);
            proof {
                assert(m.skip(i as int).drop_first() =~= m.skip(i as int + 1));
                assert(r@ =~= ser_task_entry(m.skip(i as int)[0]) + seq![','] + ser_task_entries(
                    m.skip(i as int).drop_first(),
                ));
            }
            r
        }
    }
}

fn ser_user_entries_x(us: &Vec<User>, i: usize) -> (r: Vec<char>)
    requires
        i <= us.len(),
    ensures
        r@ == ser_user_entries(us@.map_values(|u: User| u@).skip(i as int)),
    decreases us.len() - i,
{
    let ghost m = us@.map_values(|u: User| u@);
    if i == us.len() {
        proof {
            assert(m.skip(i as int) =~= Seq::<UserView>::empty());
        }
        Vec::new()
    } else {
        let mut r = ser_user_entry_x(&us[i]);
        proof {
            assert(m.skip(i as int)[0] == m[i as int]);
            assert(m[i as int] == us@[i as int]@);
        }
        if i + 1 == us.len() {
            proof {
                assert(m.skip(i as int).len() == 1);
            }
            r
        } else {
            r.push(',');
            let mut rest = ser_user_entries_x(us, i + 1);
            r.append(&mut rest);
            proof {
                assert(m.skip(i as int).drop_first() =~= m.skip(i as int + 1));
                assert(r@ =~= ser_user_entry(m.skip(i as int)[0]) + seq![','] + ser_user_entries(
                    m.skip(i as int).drop_first(),
                ));
            }
            r
        }
    }
}

fn ser_store_x(db: &Database) -> (r: Vec<char>)
    ensures
        r@ == ser_store(db@),
{
    let mut r = lit_store_open_x();
    r.push('{');
    let mut p = ser_task_entries_x(&db.tasks, 0);
    r.append(&mut p);
    r.push('}');
    let mut p = lit_users_key_x();
    r.append(&mut p);
    r.push('{');
    let mut p = ser_user_entries_x(&db.users, 0);
    r.append(&mut p);
    r.push('}');
    r.push('}');
    proof {
        assert(db@.tasks.skip(0) =~= db@.tasks);
        assert(db@.users.skip(0) =~= db@.users);
        assert(r@ =~= ser_store(db@));
    }
    r
}

// ---------------------------------------------------------------------
// Response bodies: a JSON array of the records, in the store's order.
// ---------------------------------------------------------------------

pub open spec fn ser_task_list(s: Seq<TaskView>) -> Seq<char>
    decreases s.len(),
{
    if s.len() == 0 {
        Seq::empty()
    } else if s.len() == 1 {
        ser_task(s[0])
    } else {
        ser_task(s[0]) + seq![','] + ser_task_list(s.drop_first())
    }
}

pub open spec fn ser_task_array(s: Seq<TaskView>) -> Seq<char> {
    seq!['['] + ser_task_list(s) + seq![']']
}

pub open spec fn ser_user_list(s: Seq<UserView>) -> Seq<char>
    decreases s.len(),
{
    if s.len() == 0 {
        Seq::empty()
    } else if s.len() == 1 {
        ser_user(s[0])
    } else {
        ser_user(s[0]) + seq![','] + ser_user_list(s.drop_first())
    }
}

pub open spec fn ser_user_array(s: Seq<UserView>) -> Seq<char> {
    seq!['['] + ser_user_list(s) + seq![']']
}

fn ser_task_list_x(ts: &Vec<Task>, i: usize) -> (r: Vec<char>)
    requires
        i <= ts.len(),
    ensures
        r@ == ser_task_list(ts@.map_values(|t: Task| t@).skip(i as int)),
    decreases ts.len() - i,
{
    let ghost m = ts@.map_values(|t: Task| t@);
    if i == ts.len() {
        proof {
            assert(m.skip(i as int) =~= Seq::<TaskView>::empty());
        }
        Vec::new()
    } else {
        let mut r = ser_task_x(&ts[i]);
        proof {
            assert(m.skip(i as int)[0] == m[i as int]);
            assert(m[i as int] == ts@[i as int]@);
        }
        if i + 1 == ts.len() {
            proof {
                assert(m.skip(i as int).len() == 1);
            }
            r
        } else {
            r.push(',');
            let mut rest = ser_task_list_x(ts, i + 1);
            r.append(&mut rest);
            proof {
                assert(m.skip(i as int).drop_first() =~= m.skip(i as int + 1));
                assert(r@ =~= ser_task(m.skip(i as int)[0]) + seq![','] + ser_task_list(
                    m.skip(i as int).drop_first(),
                ));
            }
            r
        }
    }
}

fn ser_user_list_x(us: &Vec<User>, i: usize) -> (r: Vec<char>)
    requires
        i <= us.len(),
    ensures
        r@ == ser_user_list(us@.map_values(|u: User| u@).skip(i as int)),
    decreases us.len() - i,
{
    let ghost m = us@.map_values(|u: User| u@);
    if i == us.len() {
        proof {
            assert(m.skip(i as int) =~= Seq::<UserView>::empty());
        }
        Vec::new()
    } else {
        let mut r = ser_user_x(&us[i]);
        proof {
            assert(m.skip(i as int)[0] == m[i as int]);
            assert(m[i as int] == us@[i as int]@);
        }
        if i + 1 == us.len() {
            proof {
                assert(m.skip(i as int).len() == 1);
            }
            r
        } else {
            r.push(',');
            let mut rest = ser_user_list_x(us, i + 1);
            r.append(&mut rest);
            proof {
                assert(m.skip(i as int).drop_first() =~= m.skip(i as int + 1));
                assert(r@ =~= ser_user(m.skip(i as int)[0]) + seq![','] + ser_user_list(
                    m.skip(i as int).drop_first(),
                ));
            }
            r
        }
    }
}

// ---------------------------------------------------------------------
// The public face of the codec.
// ---------------------------------------------------------------------

/// One task as a JSON object.
pub fn task_json(t: &Task) -> (r: String)
    ensures
        r@ == ser_task(t@),
{
    chars_to_string(ser_task_x(t))
}

/// One user as a JSON object.
pub fn user_json(u: &User) -> (r: String)
    ensures
        r@ == ser_user(u@),
{
    chars_to_string(ser_user_x(u))
}

/// A JSON array of the given tasks, in their order.
pub fn tasks_json(ts: &Vec<Task>) -> (r: String)
    ensures
        r@ == ser_task_array(ts@.map_values(|t: Task| t@)),
{
    let mut v: Vec<char> = Vec::new();
    v.push('[');
    let mut p = ser_task_list_x(ts, 0);
    v.append(&mut p);
    v.push(']');
    proof {
        assert(ts@.map_values(|t: Task| t@).skip(0) =~= ts@.map_values(|t: Task| t@));
        assert(v@ =~= ser_task_array(ts@.map_values(|t: Task| t@)));
    }
    chars_to_string(v)
}

/// A JSON array of the given users, in their order.
pub fn users_json(us: &Vec<User>) -> (r: String)
    ensures
        r@ == ser_user_array(us@.map_values(|u: User| u@)),
{
    let mut v: Vec<char> = Vec::new();
    v.push('[');
    let mut p = ser_user_list_x(us, 0);
    v.append(&mut p);
    v.push(']');
    proof {
        assert(us@.map_values(|u: User| u@).skip(0) =~= us@.map_values(|u: User| u@));
        assert(v@ =~= ser_user_array(us@.map_values(|u: User| u@)));
    }
    chars_to_string(v)
}

/// Renders the whole store as the persisted JSON text. Writing it to the
/// store's file is the caller's part.
pub fn save(db: &Database) -> (r: String)
    ensures
        r@ == ser_store(db@),
{
    chars_to_string(ser_store_x(db))
}

/// Reads a persisted text back into a store: the exact inverse of [`save`]
/// on what [`save`] wrote, and absence on any text that does not parse as
/// a whole store (the caller decides the fallback).
pub fn load(text: &str) -> (r: Option<Database>)
    ensures
        match r {
            Some(db) => parse_store_text(text@) == Some(db@) && db.wf(),
            None => parse_store_text(text@) is None,
        },
{
    let v = str_chars(text);
    match parse_store_x(&v) {
        None => None,
        Some((db, j)) => {
            if j == v.len() {
                proof {
                    if let Some(j1) = parse_lit(v@, 0, lit_store_open()) {
                        if let Some(j1b) = parse_lit(v@, j1, seq!['{']) {
                            lemma_parse_task_entries_distinct(v@, j1b);
                            if let Some((ts, j2)) = parse_task_entries(v@, j1b) {
                                if let Some(j3) = parse_lit(v@, j2, lit_users_key()) {
                                    if let Some(j3b) = parse_lit(v@, j3, seq!['{']) {
                                        lemma_parse_user_entries_distinct(v@, j3b);
                                    }
                                }
                            }
                        }
                    }
                }
                Some(db)
            } else {
                None
            }
        },
    }
}

} // verus!
