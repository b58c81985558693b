//! The address history file: the saved address lists of each target, as
//! JSON text.
//!
//! The text is `{"targets":[...]}` with one object per target,
//! `{"target":T,"ipv4_masked":L,"ipv4_raw":L,"ipv6_masked":L,"ipv6_raw":L}`,
//! where `T` is `{"pid":N}`, `{"name":S}` or `{"bundle":S}` and each `L` is
//! a list of strings, written without spaces. Reading accepts exactly the
//! texts that writing produces.

use vstd::prelude::*;

use crate::session::PreservedData;
use crate::sessions::target_key;
use crate::text::{
    chars_of, decimal, digit, digit_char, hex_digit_char, is_prefix_of, push_char, push_signed_decimal, push_str,
    signed_decimal, strs,
};
use crate::types::MonitorTarget;

verus! {

// ---------------------------------------------------------------------
// Strings
// ---------------------------------------------------------------------

/// One character inside a JSON string: quote and backslash behind a
/// backslash, control characters as `\u00XX`, any other as itself.
pub open spec fn escape_char(c: char) -> Seq<char> {
    if c == '"' {
        seq!['\\', '"']
    } else if c == '\\' {
        seq!['\\', '\\']
    } else if (c as int) < 0x20 {
        seq!['\\', 'u', '0', '0', hex_digit_char((c as int / 16) as nat), hex_digit_char((c as int % 16) as nat)]
    } else {
        seq![c]
    }
}

/// The characters of a text, each escaped.
pub open spec fn escaped(s: Seq<char>) -> Seq<char>
    decreases s.len(),
{
    if s.len() == 0 {
        Seq::empty()
    } else {
        escape_char(s[0]) + escaped(s.drop_first())
    }
}

/// A text as a JSON string.
pub open spec fn json_string(s: Seq<char>) -> Seq<char> {
    seq!['"'] + escaped(s) + seq!['"']
}

/// The value of a lowercase hexadecimal digit.
spec fn hex_value(c: char) -> Option<nat> {
    if '0' <= c && c <= '9' {
        Some((c as int - '0' as int) as nat)
    } else if 'a' <= c && c <= 'f' {
        Some((c as int - 'a' as int + 10) as nat)
    } else {
        None
    }
}

/// Reads the rest of a JSON string, after its opening quote: the text and
/// what follows the closing quote.
spec fn unescape(s: Seq<char>) -> Option<(Seq<char>, Seq<char>)>
    decreases s.len(),
{
    if s.len() == 0 {
        None
    } else if s[0] == '"' {
        Some((Seq::empty(), s.drop_first()))
    } else if s[0] == '\\' {
        if s.len() >= 2 && (s[1] == '"' || s[1] == '\\') {
            match unescape(s.skip(2)) {
                Some((b, r)) => Some((seq![s[1]] + b, r)),
                None => None,
            }
        } else if s.len() >= 6 && s[1] == 'u' && s[2] == '0' && s[3] == '0' && (s[4] == '0' || s[4]
            == '1') && hex_value(s[5]) is Some {
            let v = (if s[4] == '0' { 0nat } else { 16nat }) + hex_value(s[5])->Some_0;
            match unescape(s.skip(6)) {
                Some((b, r)) => Some((seq![v as char] + b, r)),
                None => None,
            }
        } else {
            None
        }
    } else if (s[0] as int) < 0x20 {
        None
    } else {
        match unescape(s.drop_first()) {
            Some((b, r)) => Some((seq![s[0]] + b, r)),
            None => None,
        }
    }
}

/// Reads a JSON string at the start of `s`: the text and what follows.
spec fn parse_json_string(s: Seq<char>) -> Option<(Seq<char>, Seq<char>)> {
    if s.len() > 0 && s[0] == '"' {
        unescape(s.drop_first())
    } else {
        None
    }
}

proof fn lemma_char_range(c: char)
    ensures
        0 <= c as int <= 0x10FFFF,
        (c as u32) as int == c as int,
{
}

proof fn lemma_hex_value(d: nat)
    requires
        d < 16,
    ensures
        hex_value(hex_digit_char(d)) == Some(d),
{
}

proof fn lemma_unescape_escaped(x: Seq<char>, rest: Seq<char>)
    ensures
        unescape(escaped(x) + seq!['"'] + rest) == Some((x, rest)),
    decreases x.len(),
{
    let s = escaped(x) + seq!['"'] + rest;
    if x.len() == 0 {
        assert(s =~= seq!['"'] + rest);
        assert(s.drop_first() =~= rest);
    } else {
        let c = x[0];
        let e = escape_char(c);
        let t = escaped(x.drop_first()) + seq!['"'] + rest;
        assert(s =~= e + t);
        lemma_unescape_escaped(x.drop_first(), rest);
        assert(seq![c] + x.drop_first() =~= x);
        if c == '"' || c == '\\' {
            assert(s[0] == '\\' && s[1] == c);
            assert(s.skip(2) =~= t);
            assert(unescape(s) == Some((seq![c] + x.drop_first(), rest)));
        } else if (c as int) < 0x20 {
            let ci = c as int;
            lemma_char_range(c);
            let hi = (ci / 16) as nat;
            let lo = (ci % 16) as nat;
            lemma_hex_value(lo);
            assert(s[0] == '\\' && s[1] == 'u' && s[2] == '0' && s[3] == '0');
            assert(s[4] == hex_digit_char(hi) && s[5] == hex_digit_char(lo));
            assert((hi == 0 || hi == 1) && ci == 16 * hi + lo) by (nonlinear_arith)
                requires
                    0 <= ci < 32,
                    hi == ci / 16,
                    lo == ci % 16,
            ;
            assert(s.skip(6) =~= t);
            let v = (if s[4] == '0' { 0nat } else { 16nat }) + lo;
            assert(v == c as int);
            assert((v as char) == c);
            assert(unescape(s) == Some((seq![c] + x.drop_first(), rest)));
        } else {
            assert(s[0] == c);
            assert(s.drop_first() =~= t);
            assert(unescape(s) == Some((seq![c] + x.drop_first(), rest)));
        }
    }
}

proof fn lemma_escaped_cons(c: char, b: Seq<char>)
    ensures
        escaped(seq![c] + b) == escape_char(c) + escaped(b),
{
    let nb = seq![c] + b;
    assert(nb.drop_first() =~= b);
}

proof fn lemma_unescape_sound(s: Seq<char>)
    requires
        unescape(s) is Some,
    ensures
        s == escaped(unescape(s)->Some_0.0) + seq!['"'] + unescape(s)->Some_0.1,
        unescape(s)->Some_0.1.len() < s.len(),
    decreases s.len(),
{
    if s[0] == '"' {
        assert(s =~= escaped(Seq::<char>::empty()) + seq!['"'] + s.drop_first());
    } else if s[0] == '\\' {
        if s.len() >= 2 && (s[1] == '"' || s[1] == '\\') {
            let t = s.skip(2);
            lemma_unescape_sound(t);
            let b = unescape(t)->Some_0.0;
            let r = unescape(t)->Some_0.1;
            lemma_escaped_cons(s[1], b);
            assert(escape_char(s[1]) =~= s.take(2));
            assert(s =~= s.take(2) + t);
            assert(s =~= escaped(seq![s[1]] + b) + seq!['"'] + r);
        } else {
            let t = s.skip(6);
            let v = (if s[4] == '0' { 0nat } else { 16nat }) + hex_value(s[5])->Some_0;
            lemma_unescape_sound(t);
            let b = unescape(t)->Some_0.0;
            let r = unescape(t)->Some_0.1;
            let c = v as char;
            assert(c as int == v);
            lemma_escaped_cons(c, b);
            assert(hex_digit_char((c as int % 16) as nat) == s[5]);
            assert(hex_digit_char((c as int / 16) as nat) == s[4]);
            assert(escape_char(c) =~= s.take(6));
            assert(s =~= s.take(6) + t);
            assert(s =~= escaped(seq![c] + b) + seq!['"'] + r);
        }
    } else {
        let t = s.drop_first();
        lemma_unescape_sound(t);
        let b = unescape(t)->Some_0.0;
        let r = unescape(t)->Some_0.1;
        lemma_escaped_cons(s[0], b);
        assert(escape_char(s[0]) == seq![s[0]]);
        assert(s =~= seq![s[0]] + t);
        assert(s =~= escaped(seq![s[0]] + b) + seq!['"'] + r);
    }
}

/// `r` with `p` put before the text it read.
spec fn prepend(p: Seq<char>, r: Option<(Seq<char>, Seq<char>)>) -> Option<(Seq<char>, Seq<char>)> {
    match r {
        Some((b, rest)) => Some((p + b, rest)),
        None => None,
    }
}

fn hex_digit_value(c: char) -> (r: Option<u32>)
    ensures
        match hex_value(c) {
            Some(v) => r == Some(v as u32),
            None => r is None,
        },
{
    if '0' <= c && c <= '9' {
        Some((c as u32) - ('0' as u32))
    } else if 'a' <= c && c <= 'f' {
        Some((c as u32) - ('a' as u32) + 10)
    } else {
        None
    }
}

/// Reads a JSON string at `pos`: its text and the position after it.
fn read_string(input: &Vec<char>, pos: usize) -> (r: Option<(String, usize)>)
    requires
        pos <= input.len(),
    ensures
        match r {
            Some((s, end)) => pos < end <= input.len() && parse_json_string(input@.skip(pos as int)) == Some(
                (s@, input@.skip(end as int)),
            ),
            None => parse_json_string(input@.skip(pos as int)) is None,
        },
{
    if pos >= input.len() || input[pos] != '"' {
        return None;
    }
    assert(input@.skip(pos as int)[0] == '"');
    assert(input@.skip(pos as int).drop_first() =~= input@.skip(pos + 1));
    let mut out = String::new();
    let mut i: usize = pos + 1;
    while i < input.len()
        invariant
            pos + 1 <= i <= input.len(),
            input@[pos as int] == '"',
            parse_json_string(input@.skip(pos as int)) == unescape(input@.skip(pos + 1)),
            unescape(input@.skip(pos + 1)) == prepend(out@, unescape(input@.skip(i as int))),
        decreases input.len() - i,
    {
        let ghost t = input@.skip(i as int);
        let c = input[i];
        assert(t[0] == c);
        proof {
            lemma_char_range(c);
        }
        if c == '"' {
            assert(t.drop_first() =~= input@.skip(i + 1));
            assert(unescape(t) == Some((Seq::<char>::empty(), t.drop_first())));
            assert(out@ + Seq::<char>::empty() =~= out@);
            return Some((out, i + 1));
        } else if c == '\\' {
            if i + 1 < input.len() && (input[i + 1] == '"' || input[i + 1] == '\\') {
                let e = input[i + 1];
                assert(t[1] == e);
                assert(t.skip(2) =~= input@.skip(i + 2));
                assert(unescape(t) == prepend(seq![e], unescape(t.skip(2))));
                proof {
                    match unescape(input@.skip(i + 2)) {
                        Some((b, r)) => {
                            assert(out@.push(e) + b =~= out@ + (seq![e] + b));
                        },
                        None => {},
                    }
                }
                push_char(&mut out, e);
                i = i + 2;
            } else if input.len() - i > 5 && input[i + 1] == 'u' && input[i + 2] == '0' && input[i + 3] == '0'
                && (input[i + 4] == '0' || input[i + 4] == '1') {
                assert(t[1] == 'u' && t[2] == '0' && t[3] == '0' && t[4] == input[i + 4] && t[5] == input[i + 5]);
                match hex_digit_value(input[i + 5]) {
                    Some(lo) => {
                        let hi: u32 = if input[i + 4] == '0' { 0 } else { 16 };
                        let v: u32 = hi + lo;
                        let ch: char = (v as u8) as char;
                        assert(t.skip(6) =~= input@.skip(i + 6));
                        proof {
                            assert(ch == (v as nat) as char);
                            assert(hex_value(t[5]) == Some(lo as nat));
                            assert(unescape(t) == prepend(seq![ch], unescape(t.skip(6))));
                            match unescape(input@.skip(i + 6)) {
                                Some((b, r)) => {
                                    assert(out@.push(ch) + b =~= out@ + (seq![ch] + b));
                                },
                                None => {},
                            }
                        }
                        push_char(&mut out, ch);
                        i = i + 6;
                    },
                    None => {
                        return None;
                    },
                }
            } else {
                return None;
            }
        } else if (c as u32) < 0x20 {
            return None;
        } else {
            assert(t.drop_first() =~= input@.skip(i + 1));
            assert(unescape(t) == prepend(seq![c], unescape(t.drop_first())));
            proof {
                match unescape(input@.skip(i + 1)) {
                    Some((b, r)) => {
                        assert(out@.push(c) + b =~= out@ + (seq![c] + b));
                    },
                    None => {},
                }
            }
            push_char(&mut out, c);
            i = i + 1;
        }
    }
    assert(input@.skip(i as int).len() == 0);
    None
}

proof fn lemma_escaped_concat(a: Seq<char>, b: Seq<char>)
    ensures
        escaped(a + b) == escaped(a) + escaped(b),
    decreases a.len(),
{
    if a.len() == 0 {
        assert(a + b =~= b);
        assert(escaped(a) + escaped(b) =~= escaped(b));
    } else {
        lemma_escaped_concat(a.drop_first(), b);
        assert((a + b).drop_first() =~= a.drop_first() + b);
        assert((a + b)[0] == a[0]);
        assert(escaped(a + b) =~= escape_char(a[0]) + (escaped(a.drop_first()) + escaped(b)));
    }
}

proof fn lemma_escaped_single(c: char)
    ensures
        escaped(seq![c]) == escape_char(c),
{
    assert(seq![c].drop_first() =~= Seq::<char>::empty());
    assert(escaped(Seq::<char>::empty()) == Seq::<char>::empty());
    assert(seq![c][0] == c);
    assert(escape_char(c) + Seq::<char>::empty() =~= escape_char(c));
}

/// Appends the escaped form of one character.
fn push_escaped_char(out: &mut String, c: char)
    ensures
        final(out)@ == old(out)@ + escape_char(c),
{
    let ghost start = out@;
    proof {
        lemma_char_range(c);
    }
    if c == '"' {
        push_char(out, '\\');
        push_char(out, '"');
    } else if c == '\\' {
        push_char(out, '\\');
        push_char(out, '\\');
    } else if (c as u32) < 0x20 {
        let v = c as u32;
        push_char(out, '\\');
        push_char(out, 'u');
        push_char(out, '0');
        push_char(out, '0');
        push_char(out, digit((v / 16) as u64));
        push_char(out, digit((v % 16) as u64));
    } else {
        push_char(out, c);
    }
    assert(out@ =~= start + escape_char(c));
}

/// Appends a text as a JSON string.
fn push_json_string(out: &mut String, s: &str)
    ensures
        final(out)@ == old(out)@ + json_string(s@),
{
    let ghost start = out@;
    push_char(out, '"');
    let n = s.unicode_len();
    for i in 0..n
        invariant
            n == s@.len(),
            out@ == start + seq!['"'] + escaped(s@.take(i as int)),
    {
        let c = s.get_char(i);
        push_escaped_char(out, c);
        proof {
            assert(s@.take(i + 1) =~= s@.take(i as int) + seq![c]);
            lemma_escaped_concat(s@.take(i as int), seq![c]);
            lemma_escaped_single(c);
        }
    }
    push_char(out, '"');
    assert(s@.take(n as int) =~= s@);
    assert(out@ =~= start + json_string(s@));
}

// ---------------------------------------------------------------------
// Numbers
// ---------------------------------------------------------------------

/// The value of a decimal digit.
spec fn digit_value(c: char) -> Option<nat> {
    if '0' <= c && c <= '9' {
        Some((c as int - '0' as int) as nat)
    } else {
        None
    }
}

/// How many decimal digits `s` starts with.
spec fn leading_digits(s: Seq<char>) -> nat
    decreases s.len(),
{
    if s.len() > 0 && digit_value(s[0]) is Some {
        1 + leading_digits(s.drop_first())
    } else {
        0
    }
}

/// The number that decimal digits write.
spec fn digits_value(d: Seq<char>) -> nat
    decreases d.len(),
{
    if d.len() == 0 {
        0
    } else {
        digits_value(d.drop_last()) * 10 + match digit_value(d.last()) {
            Some(v) => v,
            None => 0,
        }
    }
}

/// All characters of `d` are decimal digits.
spec fn all_digits(d: Seq<char>) -> bool {
    forall|i: int| 0 <= i < d.len() ==> #[trigger] digit_value(d[i]) is Some
}

/// Reads a natural number written without leading zeros at the start of
/// `s`, and what follows it.
spec fn parse_nat(s: Seq<char>) -> Option<(nat, Seq<char>)> {
    let k = leading_digits(s);
    if k == 0 {
        None
    } else if s[0] == '0' {
        Some((0, s.drop_first()))
    } else {
        Some((digits_value(s.take(k as int)), s.skip(k as int)))
    }
}

/// Reads a 32-bit integer written as `signed_decimal` gives it at the
/// start of `s`, and what follows it.
spec fn parse_int(s: Seq<char>) -> Option<(i32, Seq<char>)> {
    if s.len() > 0 && s[0] == '-' {
        match parse_nat(s.drop_first()) {
            Some((n, r)) => if 0 < n && n <= 0x8000_0000 {
                Some(((-n) as i32, r))
            } else {
                None
            },
            None => None,
        }
    } else {
        match parse_nat(s) {
            Some((n, r)) => if n < 0x8000_0000 {
                Some((n as i32, r))
            } else {
                None
            },
            None => None,
        }
    }
}

proof fn lemma_digit_char_value(d: nat)
    requires
        d < 10,
    ensures
        digit_value(digit_char(d)) == Some(d),
{
}

proof fn lemma_decimal_digits(n: nat)
    ensures
        all_digits(decimal(n)),
        decimal(n).len() > 0,
        digits_value(decimal(n)) == n,
        (decimal(n)[0] == '0') == (n == 0),
    decreases n,
{
    if n < 10 {
        lemma_digit_char_value(n);
        assert(decimal(n).drop_last() =~= Seq::<char>::empty());
        assert(digits_value(Seq::<char>::empty()) == 0);
        assert(decimal(n).last() == digit_char(n));
    } else {
        lemma_decimal_digits(n / 10);
        lemma_digit_char_value(n % 10);
        let d = decimal(n);
        assert(d.drop_last() =~= decimal(n / 10));
        assert(d[0] == decimal(n / 10)[0]);
        assert forall|i: int| 0 <= i < d.len() implies #[trigger] digit_value(d[i]) is Some by {
            if i < d.len() - 1 {
                assert(d[i] == decimal(n / 10)[i]);
            }
        }
        assert(d.last() == digit_char(n % 10));
        assert(digits_value(d) == digits_value(decimal(n / 10)) * 10 + n % 10);
        assert(n == (n / 10) * 10 + n % 10);
    }
}

proof fn lemma_leading_digits(s: Seq<char>, j: int)
    requires
        0 <= j <= s.len(),
        all_digits(s.take(j)),
        j == s.len() || digit_value(s[j]) is None,
    ensures
        leading_digits(s) == j,
    decreases j,
{
    if j > 0 {
        assert(digit_value(s.take(j)[0]) is Some);
        let t = s.drop_first();
        assert forall|i: int| 0 <= i < j - 1 implies #[trigger] digit_value(t.take(j - 1)[i]) is Some by {
            assert(t.take(j - 1)[i] == s.take(j)[i + 1]);
        }
        if j < s.len() {
            assert(t[j - 1] == s[j]);
        }
        lemma_leading_digits(t, j - 1);
    } else {
        if s.len() > 0 {
            assert(s[0] == s[j]);
        }
    }
}

proof fn lemma_leading_digits_bounds(s: Seq<char>)
    ensures
        leading_digits(s) <= s.len(),
        all_digits(s.take(leading_digits(s) as int)),
        leading_digits(s) < s.len() ==> digit_value(s[leading_digits(s) as int]) is None,
    decreases s.len(),
{
    if s.len() > 0 && digit_value(s[0]) is Some {
        let t = s.drop_first();
        lemma_leading_digits_bounds(t);
        let k = leading_digits(s) as int;
        assert forall|i: int| 0 <= i < k implies #[trigger] digit_value(s.take(k)[i]) is Some by {
            if i > 0 {
                assert(s.take(k)[i] == t.take(k - 1)[i - 1]);
            }
        }
        if k < s.len() {
            assert(s[k] == t[k - 1]);
        }
    } else {
        assert(s.take(0) =~= Seq::<char>::empty());
    }
}

proof fn lemma_digits_value_canonical(d: Seq<char>)
    requires
        d.len() > 0,
        all_digits(d),
        d[0] != '0',
    ensures
        decimal(digits_value(d)) == d,
        digits_value(d) >= 1,
    decreases d.len(),
{
    let x = digit_value(d.last())->Some_0;
    assert(digit_value(d[d.len() - 1]) is Some);
    assert(x < 10);
    if d.len() == 1 {
        assert(d.drop_last() =~= Seq::<char>::empty());
        assert(digits_value(Seq::<char>::empty()) == 0);
        assert(digits_value(d) == x);
        assert(x != 0);
        assert(digit_char(x) == d[0]);
        assert(decimal(x) =~= d);
    } else {
        let p = d.drop_last();
        assert forall|i: int| 0 <= i < p.len() implies #[trigger] digit_value(p[i]) is Some by {
            assert(p[i] == d[i]);
        }
        assert(p[0] == d[0]);
        lemma_digits_value_canonical(p);
        let v = digits_value(d);
        let vp = digits_value(p);
        assert(v == vp * 10 + x);
        assert(v / 10 == vp && v % 10 == x) by (nonlinear_arith)
            requires
                v == vp * 10 + x,
                x < 10,
        ;
        assert(digit_char(x) == d.last());
        assert(decimal(v) == decimal(vp).push(digit_char(x)));
        assert(d =~= p.push(d.last()));
    }
}

proof fn lemma_digits_value_grows(d: Seq<char>, j: int)
    requires
        0 <= j <= d.len(),
    ensures
        digits_value(d.take(j)) <= digits_value(d),
    decreases d.len(),
{
    if j < d.len() {
        assert(d.drop_last().take(j) =~= d.take(j));
        lemma_digits_value_grows(d.drop_last(), j);
    } else {
        assert(d.take(j) =~= d);
    }
}

proof fn lemma_parse_int_complete(n: i32, rest: Seq<char>)
    requires
        rest.len() == 0 || digit_value(rest[0]) is None,
    ensures
        parse_int(signed_decimal(n as int) + rest) == Some((n, rest)),
{
    let m: nat = if n < 0 { (-(n as int)) as nat } else { n as nat };
    lemma_decimal_digits(m);
    let d = decimal(m);
    let s = d + rest;
    assert(s.take(d.len() as int) =~= d);
    assert(s.skip(d.len() as int) =~= rest);
    if rest.len() > 0 {
        assert(s[d.len() as int] == rest[0]);
    }
    lemma_leading_digits(s, d.len() as int);
    assert(s[0] == d[0]);
    if m == 0 {
        assert(d.len() == 1) by {
            assert(d == seq![digit_char(0)]);
        }
        assert(s.drop_first() =~= rest);
    }
    assert(parse_nat(s) == Some((m, rest)));
    if n < 0 {
        assert((seq!['-'] + s).drop_first() =~= s);
        assert(signed_decimal(n as int) + rest =~= seq!['-'] + s);
    } else {
        assert(signed_decimal(n as int) == d);
        assert(digit_value(s[0]) is Some);
    }
}

proof fn lemma_parse_nat_sound(s: Seq<char>)
    requires
        parse_nat(s) is Some,
    ensures
        s == decimal(parse_nat(s)->Some_0.0) + parse_nat(s)->Some_0.1,
        s.len() > 0 && digit_value(s[0]) is Some,
{
    lemma_leading_digits_bounds(s);
    let k = leading_digits(s) as int;
    assert(s.take(k)[0] == s[0]);
    if s[0] == '0' {
        assert(decimal(0) == seq!['0']);
        assert(s =~= seq!['0'] + s.drop_first());
    } else {
        lemma_digits_value_canonical(s.take(k));
        assert(s =~= s.take(k) + s.skip(k));
    }
}

proof fn lemma_parse_int_sound(s: Seq<char>)
    requires
        parse_int(s) is Some,
    ensures
        s == signed_decimal(parse_int(s)->Some_0.0 as int) + parse_int(s)->Some_0.1,
{
    if s.len() > 0 && s[0] == '-' {
        let t = s.drop_first();
        lemma_parse_nat_sound(t);
        let n = parse_nat(t)->Some_0.0;
        let v = parse_int(s)->Some_0.0;
        assert(v as int == -(n as int));
        assert(s =~= seq!['-'] + t);
    } else {
        lemma_parse_nat_sound(s);
    }
}

fn decimal_digit(c: char) -> (r: Option<u32>)
    ensures
        match digit_value(c) {
            Some(v) => r == Some(v as u32),
            None => r is None,
        },
{
    if '0' <= c && c <= '9' {
        Some((c as u32) - ('0' as u32))
    } else {
        None
    }
}

/// Reads a 32-bit integer at `pos` (see `parse_int`): its value and the
/// position after it.
fn read_int(input: &Vec<char>, pos: usize) -> (r: Option<(i32, usize)>)
    requires
        pos <= input.len(),
    ensures
        match r {
            Some((n, end)) => pos < end <= input.len() && parse_int(input@.skip(pos as int)) == Some(
                (n, input@.skip(end as int)),
            ),
            None => parse_int(input@.skip(pos as int)) is None,
        },
{
    let ghost s = input@.skip(pos as int);
    let neg = pos < input.len() && input[pos] == '-';
    let start: usize = if neg { pos + 1 } else { pos };
    let ghost t = input@.skip(start as int);
    proof {
        if neg {
            assert(s[0] == '-');
            assert(s.drop_first() =~= t);
        } else {
            if s.len() > 0 {
                assert(s[0] == input@[pos as int]);
            }
            assert(s =~= t);
        }
    }
    if start >= input.len() {
        assert(t.len() == 0);
        assert(leading_digits(t) == 0);
        return None;
    }
    assert(t[0] == input@[start as int]);
    let first = match decimal_digit(input[start]) {
        Some(v) => v,
        None => {
            assert(leading_digits(t) == 0);
            return None;
        },
    };
    if input[start] == '0' {
        assert(leading_digits(t) > 0);
        assert(t.drop_first() =~= input@.skip(start + 1));
        if neg {
            return None;
        }
        return Some((0, start + 1));
    }
    let mut value: u64 = first as u64;
    let mut i: usize = start + 1;
    proof {
        assert(t.take(1).drop_last() =~= Seq::<char>::empty());
        assert(digits_value(Seq::<char>::empty()) == 0);
        assert(t.take(1).last() == t[0]);
    }
    while i < input.len()
        invariant
            start < i <= input.len(),
            t == input@.skip(start as int),
            all_digits(t.take(i - start)),
            value == digits_value(t.take(i - start)),
            value <= 0x8000_0000,
            input@[start as int] != '0',
            t[0] == input@[start as int],
            digit_value(t[0]) is Some,
            neg ==> s.len() > 0 && s[0] == '-' && s.drop_first() == t,
            !neg ==> s == t,
            s == input@.skip(pos as int),
        ensures
            start < i <= input.len(),
            all_digits(t.take(i - start)),
            value == digits_value(t.take(i - start)),
            value <= 0x8000_0000,
            i == input.len() || digit_value(input@[i as int]) is None,
        decreases input.len() - i,
    {
        let d = match decimal_digit(input[i]) {
            Some(d) => d,
            None => {
                break;
            },
        };
        let ghost k = i - start;
        proof {
            assert(t[k] == input@[i as int]);
            assert(t.take(k + 1).drop_last() =~= t.take(k));
            assert(t.take(k + 1).last() == t[k]);
            assert forall|j: int| 0 <= j < k + 1 implies #[trigger] digit_value(t.take(k + 1)[j]) is Some by {
                if j < k {
                    assert(t.take(k + 1)[j] == t.take(k)[j]);
                }
            }
        }
        value = value * 10 + d as u64;
        i = i + 1;
        if value > 0x8000_0000 {
            proof {
                lemma_leading_digits_bounds(t);
                let kk = leading_digits(t) as int;
                let m = i - start;
                assert(m <= kk) by {
                    if kk < m {
                        assert(digit_value(t.take(m)[kk]) is Some);
                        assert(t.take(m)[kk] == t[kk]);
                    }
                };
                assert(t.take(kk).take(m) =~= t.take(m));
                lemma_digits_value_grows(t.take(kk), m);
                assert(kk > 0);
                assert(parse_nat(t) == Some((digits_value(t.take(kk)), t.skip(kk))));
            }
            return None;
        }
    }
    let ghost k = i - start;
    proof {
        if i < input.len() {
            assert(t[k] == input@[i as int]);
        }
        lemma_leading_digits(t, k);
    }
    assert(t.skip(k) =~= input@.skip(i as int));
    proof {
        assert(t.take(k)[0] == t[0]);
        lemma_digits_value_canonical(t.take(k));
        assert(parse_nat(t) == Some((value as nat, t.skip(k))));
    }
    if neg {
        let n: i64 = -(value as i64);
        Some((n as i32, i))
    } else {
        if value >= 0x8000_0000 {
            return None;
        }
        Some((value as i32, i))
    }
}

// ---------------------------------------------------------------------
// Lists of strings
// ---------------------------------------------------------------------

/// The items of a list after its first, each behind a comma.
pub open spec fn more_strings(l: Seq<Seq<char>>) -> Seq<char>
    decreases l.len(),
{
    if l.len() == 0 {
        Seq::empty()
    } else {
        seq![','] + json_string(l[0]) + more_strings(l.drop_first())
    }
}

/// A list of texts as a JSON array of strings.
#[verifier::opaque]
pub open spec fn json_list(l: Seq<Seq<char>>) -> Seq<char> {
    if l.len() == 0 {
        seq!['[', ']']
    } else {
        seq!['['] + json_string(l[0]) + more_strings(l.drop_first()) + seq![']']
    }
}

/// Reads the rest of an array of strings after its first item: the items
/// and what follows the closing bracket.
spec fn parse_more_strings(s: Seq<char>) -> Option<(Seq<Seq<char>>, Seq<char>)>
    decreases s.len(),
{
    if s.len() > 0 && s[0] == ']' {
        Some((Seq::empty(), s.drop_first()))
    } else if s.len() > 0 && s[0] == ',' {
        match parse_json_string(s.drop_first()) {
            Some((x, r)) => if r.len() < s.len() {
                match parse_more_strings(r) {
                    Some((xs, r2)) => Some((seq![x] + xs, r2)),
                    None => None,
                }
            } else {
                None
            },
            None => None,
        }
    } else {
        None
    }
}

/// Reads an array of strings at the start of `s`, and what follows it.
#[verifier::opaque]
spec fn parse_list(s: Seq<char>) -> Option<(Seq<Seq<char>>, Seq<char>)> {
    if s.len() >= 2 && s[0] == '[' && s[1] == ']' {
        Some((Seq::empty(), s.skip(2)))
    } else if s.len() > 0 && s[0] == '[' {
        match parse_json_string(s.drop_first()) {
            Some((x, r)) => match parse_more_strings(r) {
                Some((xs, r2)) => Some((seq![x] + xs, r2)),
                None => None,
            },
            None => None,
        }
    } else {
        None
    }
}

proof fn lemma_parse_json_string(x: Seq<char>, rest: Seq<char>)
    ensures
        parse_json_string(json_string(x) + rest) == Some((x, rest)),
{
    let s = json_string(x) + rest;
    assert(s[0] == '"');
    assert(s.drop_first() =~= escaped(x) + seq!['"'] + rest);
    lemma_unescape_escaped(x, rest);
}

proof fn lemma_parse_json_string_sound(s: Seq<char>)
    requires
        parse_json_string(s) is Some,
    ensures
        s == json_string(parse_json_string(s)->Some_0.0) + parse_json_string(s)->Some_0.1,
        parse_json_string(s)->Some_0.1.len() < s.len(),
{
    lemma_unescape_sound(s.drop_first());
    assert(s =~= seq![s[0]] + s.drop_first());
}

proof fn lemma_parse_more_strings(l: Seq<Seq<char>>, rest: Seq<char>)
    ensures
        parse_more_strings(more_strings(l) + seq![']'] + rest) == Some((l, rest)),
    decreases l.len(),
{
    let s = more_strings(l) + seq![']'] + rest;
    if l.len() == 0 {
        assert(s =~= seq![']'] + rest);
        assert(s.drop_first() =~= rest);
    } else {
        let t = more_strings(l.drop_first()) + seq![']'] + rest;
        assert(s =~= seq![','] + (json_string(l[0]) + t));
        assert(s.drop_first() =~= json_string(l[0]) + t);
        lemma_parse_json_string(l[0], t);
        assert(t.len() < s.len());
        lemma_parse_more_strings(l.drop_first(), rest);
        assert(seq![l[0]] + l.drop_first() =~= l);
    }
}

proof fn lemma_parse_list(l: Seq<Seq<char>>, rest: Seq<char>)
    ensures
        parse_list(json_list(l) + rest) == Some((l, rest)),
{
    reveal(parse_list); reveal(json_list);
    let s = json_list(l) + rest;
    if l.len() == 0 {
        assert(s.skip(2) =~= rest);
    } else {
        let t = more_strings(l.drop_first()) + seq![']'] + rest;
        assert(s =~= seq!['['] + (json_string(l[0]) + t));
        assert(s.drop_first() =~= json_string(l[0]) + t);
        assert(s[1] == '"');
        lemma_parse_json_string(l[0], t);
        lemma_parse_more_strings(l.drop_first(), rest);
        assert(seq![l[0]] + l.drop_first() =~= l);
    }
}

proof fn lemma_parse_more_strings_sound(s: Seq<char>)
    requires
        parse_more_strings(s) is Some,
    ensures
        s == more_strings(parse_more_strings(s)->Some_0.0) + seq![']'] + parse_more_strings(s)->Some_0.1,
    decreases s.len(),
{
    if s[0] == ']' {
        assert(more_strings(Seq::<Seq<char>>::empty()) == Seq::<char>::empty());
        assert(s =~= more_strings(Seq::<Seq<char>>::empty()) + seq![']'] + s.drop_first());
    } else {
        let t = s.drop_first();
        lemma_parse_json_string_sound(t);
        let x = parse_json_string(t)->Some_0.0;
        let r = parse_json_string(t)->Some_0.1;
        lemma_parse_more_strings_sound(r);
        let xs = parse_more_strings(r)->Some_0.0;
        let r2 = parse_more_strings(r)->Some_0.1;
        let l = seq![x] + xs;
        assert(l.drop_first() =~= xs);
        assert(l[0] == x);
        assert(s =~= seq![','] + t);
        assert(s =~= more_strings(l) + seq![']'] + r2);
    }
}

proof fn lemma_parse_list_sound(s: Seq<char>)
    requires
        parse_list(s) is Some,
    ensures
        s == json_list(parse_list(s)->Some_0.0) + parse_list(s)->Some_0.1,
{
    reveal(parse_list); reveal(json_list);
    if s.len() >= 2 && s[0] == '[' && s[1] == ']' {
        assert(s =~= seq!['[', ']'] + s.skip(2));
    } else {
        let t = s.drop_first();
        lemma_parse_json_string_sound(t);
        let x = parse_json_string(t)->Some_0.0;
        let r = parse_json_string(t)->Some_0.1;
        lemma_parse_more_strings_sound(r);
        let xs = parse_more_strings(r)->Some_0.0;
        let r2 = parse_more_strings(r)->Some_0.1;
        let l = seq![x] + xs;
        assert(l.drop_first() =~= xs);
        assert(l[0] == x);
        assert(s =~= seq!['['] + t);
        assert(s =~= json_list(l) + r2);
    }
}

/// `r` with the items `p` put before the ones it read.
spec fn prepend_items(p: Seq<Seq<char>>, r: Option<(Seq<Seq<char>>, Seq<char>)>) -> Option<(Seq<Seq<char>>, Seq<char>)> {
    match r {
        Some((xs, rest)) => Some((p + xs, rest)),
        None => None,
    }
}

/// Reads an array of strings at `pos`: its items and the position after it.
fn read_list(input: &Vec<char>, pos: usize) -> (r: Option<(Vec<String>, usize)>)
    requires
        pos <= input.len(),
    ensures
        match r {
            Some((l, end)) => pos < end <= input.len() && parse_list(input@.skip(pos as int)) == Some(
                (strs(l@), input@.skip(end as int)),
            ),
            None => parse_list(input@.skip(pos as int)) is None,
        },
{
    reveal(parse_list);
    let ghost s = input@.skip(pos as int);
    if pos >= input.len() || input[pos] != '[' {
        proof {
            if s.len() > 0 {
                assert(s[0] == input@[pos as int]);
            }
        }
        return None;
    }
    assert(s[0] == '[');
    if input.len() - pos >= 2 && input[pos + 1] == ']' {
        assert(s[1] == ']');
        assert(s.skip(2) =~= input@.skip(pos + 2));
        let empty: Vec<String> = Vec::new();
        assert(strs(empty@) =~= Seq::<Seq<char>>::empty());
        return Some((empty, pos + 2));
    }
    proof {
        if s.len() >= 2 {
            assert(s[1] == input@[pos + 1]);
        }
    }
    assert(s.drop_first() =~= input@.skip(pos + 1));
    let (first, mut i) = match read_string(input, pos + 1) {
        Some(v) => v,
        None => {
            return None;
        },
    };
    let mut out: Vec<String> = Vec::new();
    out.push(first);
    proof {
        assert(strs(out@) =~= seq![out@[0]@]);
    }
    while i < input.len()
        invariant
            pos < i <= input.len(),
            s == input@.skip(pos as int),
            parse_list(s) == prepend_items(strs(out@), parse_more_strings(input@.skip(i as int))),
        decreases input.len() - i,
    {
        let ghost t = input@.skip(i as int);
        assert(t[0] == input@[i as int]);
        if input[i] == ']' {
            assert(t.drop_first() =~= input@.skip(i + 1));
            assert(strs(out@) + Seq::<Seq<char>>::empty() =~= strs(out@));
            return Some((out, i + 1));
        } else if input[i] == ',' {
            assert(t.drop_first() =~= input@.skip(i + 1));
            match read_string(input, i + 1) {
                Some((x, j)) => {
                    let ghost before = strs(out@);
                    proof {
                        assert(input@.skip(j as int).len() < t.len());
                        match parse_more_strings(input@.skip(j as int)) {
                            Some((xs, r2)) => {
                                assert(before.push(x@) + xs =~= before + (seq![x@] + xs));
                            },
                            None => {},
                        }
                    }
                    out.push(x);
                    assert(strs(out@) =~= before.push(x@));
                    i = j;
                },
                None => {
                    return None;
                },
            }
        } else {
            return None;
        }
    }
    assert(input@.skip(i as int).len() == 0);
    None
}

/// Appends a list of texts as a JSON array of strings.
fn push_json_list(out: &mut String, l: &[String])
    ensures
        final(out)@ == old(out)@ + json_list(strs(l@)),
{
    reveal(json_list);
    let ghost start = out@;
    let ghost v = strs(l@);
    push_char(out, '[');
    if l.len() > 0 {
        push_json_string(out, l[0].as_str());
        let mut i: usize = 1;
        while i < l.len()
            invariant
                1 <= i <= l.len(),
                v == strs(l@),
                out@ + more_strings(v.subrange(i as int, v.len() as int)) == start + seq!['['] + json_string(v[0])
                    + more_strings(v.drop_first()),
            decreases l.len() - i,
        {
            let ghost before = out@;
            push_char(out, ',');
            push_json_string(out, l[i].as_str());
            proof {
                let rest = v.subrange(i as int, v.len() as int);
                assert(rest[0] == l@[i as int]@);
                assert(rest.drop_first() =~= v.subrange(i + 1, v.len() as int));
                assert(out@ + more_strings(v.subrange(i + 1, v.len() as int)) =~= before + more_strings(rest));
            }
            i = i + 1;
        }
        proof {
            assert(v.subrange(1, v.len() as int) =~= v.drop_first());
            assert(more_strings(v.subrange(l.len() as int, v.len() as int)) == Seq::<char>::empty()) by {
                assert(v.subrange(l.len() as int, v.len() as int) =~= Seq::<Seq<char>>::empty());
            }
            assert(out@ + Seq::<char>::empty() =~= out@);
        }
    }
    push_char(out, ']');
    assert(out@ =~= start + json_list(v));
}

// ---------------------------------------------------------------------
// Targets
// ---------------------------------------------------------------------

spec fn pid_open() -> Seq<char> {
    seq!['{', '"', 'p', 'i', 'd', '"', ':']
}

spec fn name_open() -> Seq<char> {
    seq!['{', '"', 'n', 'a', 'm', 'e', '"', ':']
}

spec fn bundle_open() -> Seq<char> {
    seq!['{', '"', 'b', 'u', 'n', 'd', 'l', 'e', '"', ':']
}

/// Whether a target's contents (see `target_key`) are those of a target.
pub open spec fn valid_key(k: (int, i32, Seq<char>)) -> bool {
    ||| (k.0 == 0 && k.2 == Seq::<char>::empty())
    ||| ((k.0 == 1 || k.0 == 2) && k.1 == 0)
}

/// A target as a JSON object: `{"pid":N}`, `{"name":S}` or `{"bundle":S}`.
#[verifier::opaque]
pub open spec fn json_target(k: (int, i32, Seq<char>)) -> Seq<char> {
    if k.0 == 0 {
        seq!['{', '"', 'p', 'i', 'd', '"', ':'] + signed_decimal(k.1 as int) + seq!['}']
    } else if k.0 == 1 {
        seq!['{', '"', 'n', 'a', 'm', 'e', '"', ':'] + json_string(k.2) + seq!['}']
    } else {
        seq!['{', '"', 'b', 'u', 'n', 'd', 'l', 'e', '"', ':'] + json_string(k.2) + seq!['}']
    }
}

/// `r` when it starts with a closing brace, past it.
spec fn after_brace(r: Seq<char>) -> Option<Seq<char>> {
    if r.len() > 0 && r[0] == '}' {
        Some(r.drop_first())
    } else {
        None
    }
}

/// Reads a target object at the start of `s`, and what follows it.
#[verifier::opaque]
spec fn parse_target(s: Seq<char>) -> Option<((int, i32, Seq<char>), Seq<char>)> {
    if is_prefix_of(pid_open(), s) {
        match parse_int(s.skip(7)) {
            Some((p, r)) => match after_brace(r) {
                Some(r2) => Some(((0, p, Seq::empty()), r2)),
                None => None,
            },
            None => None,
        }
    } else if is_prefix_of(name_open(), s) {
        match parse_json_string(s.skip(8)) {
            Some((n, r)) => match after_brace(r) {
                Some(r2) => Some(((1, 0i32, n), r2)),
                None => None,
            },
            None => None,
        }
    } else if is_prefix_of(bundle_open(), s) {
        match parse_json_string(s.skip(10)) {
            Some((b, r)) => match after_brace(r) {
                Some(r2) => Some(((2, 0i32, b), r2)),
                None => None,
            },
            None => None,
        }
    } else {
        None
    }
}

proof fn lemma_parse_target(k: (int, i32, Seq<char>), rest: Seq<char>)
    requires
        valid_key(k),
    ensures
        parse_target(json_target(k) + rest) == Some((k, rest)),
{
    reveal(parse_target); reveal(json_target);
    let s = json_target(k) + rest;
    let tail = seq!['}'] + rest;
    assert(tail.drop_first() =~= rest);
    if k.0 == 0 {
        assert(s =~= pid_open() + (signed_decimal(k.1 as int) + tail));
        assert(s.subrange(0, 7) =~= pid_open());
        assert(s.skip(7) =~= signed_decimal(k.1 as int) + tail);
        lemma_parse_int_complete(k.1, tail);
        assert(k =~= (0int, k.1, Seq::<char>::empty()));
    } else if k.0 == 1 {
        assert(s =~= name_open() + (json_string(k.2) + tail));
        assert(s[2] == 'n');
        assert(!is_prefix_of(pid_open(), s)) by {
            if is_prefix_of(pid_open(), s) {
                assert(s.subrange(0, 7)[2] == s[2]);
            }
        }
        assert(s.subrange(0, 8) =~= name_open());
        assert(s.skip(8) =~= json_string(k.2) + tail);
        lemma_parse_json_string(k.2, tail);
    } else {
        assert(s =~= bundle_open() + (json_string(k.2) + tail));
        assert(s[2] == 'b');
        assert(!is_prefix_of(pid_open(), s)) by {
            if is_prefix_of(pid_open(), s) {
                assert(s.subrange(0, 7)[2] == s[2]);
            }
        }
        assert(!is_prefix_of(name_open(), s)) by {
            if is_prefix_of(name_open(), s) {
                assert(s.subrange(0, 8)[2] == s[2]);
            }
        }
        assert(s.subrange(0, 10) =~= bundle_open());
        assert(s.skip(10) =~= json_string(k.2) + tail);
        lemma_parse_json_string(k.2, tail);
    }
}

#[verifier::rlimit(30)]
proof fn lemma_parse_target_sound(s: Seq<char>)
    requires
        parse_target(s) is Some,
    ensures
        valid_key(parse_target(s)->Some_0.0),
        s == json_target(parse_target(s)->Some_0.0) + parse_target(s)->Some_0.1,
{
    reveal(parse_target); reveal(json_target);
    let k = parse_target(s)->Some_0.0;
    let r2 = parse_target(s)->Some_0.1;
    if is_prefix_of(pid_open(), s) {
        lemma_parse_int_sound(s.skip(7));
        let r = parse_int(s.skip(7))->Some_0.1;
        assert(r =~= seq!['}'] + r2);
        assert(s =~= s.subrange(0, 7) + s.skip(7));
        assert(s =~= json_target(k) + r2);
    } else if is_prefix_of(name_open(), s) {
        lemma_parse_json_string_sound(s.skip(8));
        let r = parse_json_string(s.skip(8))->Some_0.1;
        assert(r =~= seq!['}'] + r2);
        assert(s =~= s.subrange(0, 8) + s.skip(8));
        assert(s =~= json_target(k) + r2);
    } else {
        lemma_parse_json_string_sound(s.skip(10));
        let r = parse_json_string(s.skip(10))->Some_0.1;
        assert(r =~= seq!['}'] + r2);
        assert(s =~= s.subrange(0, 10) + s.skip(10));
        assert(s =~= json_target(k) + r2);
    }
}

/// Whether the text `lit` occurs at `pos`.
fn occurs_at_pos(input: &Vec<char>, pos: usize, lit: &str) -> (r: bool)
    requires
        pos <= input.len(),
    ensures
        r == is_prefix_of(lit@, input@.skip(pos as int)),
{
    let n = lit.unicode_len();
    if input.len() - pos < n {
        return false;
    }
    let ghost s = input@.skip(pos as int);
    for i in 0..n
        invariant
            n == lit@.len(),
            n <= input.len() - pos,
            s == input@.skip(pos as int),
            forall|j: int| 0 <= j < i ==> s[j] == lit@[j],
    {
        if input[pos + i] != lit.get_char(i) {
            assert(s.subrange(0, n as int)[i as int] == s[i as int]);
            return false;
        }
    }
    assert(s.subrange(0, n as int) =~= lit@);
    true
}

/// The JSON text of a target has the closing brace after `r`.
fn brace_at(input: &Vec<char>, j: usize) -> (r: bool)
    requires
        j <= input.len(),
    ensures
        r == (after_brace(input@.skip(j as int)) is Some),
        r ==> after_brace(input@.skip(j as int)) == Some(input@.skip(j + 1)),
{
    if j < input.len() && input[j] == '}' {
        assert(input@.skip(j as int)[0] == '}');
        assert(input@.skip(j as int).drop_first() =~= input@.skip(j + 1));
        true
    } else {
        proof {
            if j < input.len() {
                assert(input@.skip(j as int)[0] == input@[j as int]);
            }
        }
        false
    }
}

/// Reads a target object at `pos`: the target and the position after it.
fn read_target(input: &Vec<char>, pos: usize) -> (r: Option<(MonitorTarget, usize)>)
    requires
        pos <= input.len(),
    ensures
        match r {
            Some((t, end)) => pos < end <= input.len() && parse_target(input@.skip(pos as int)) == Some(
                (target_key(t), input@.skip(end as int)),
            ),
            None => parse_target(input@.skip(pos as int)) is None,
        },
{
    reveal(parse_target);
    let ghost s = input@.skip(pos as int);
    proof {
        reveal_strlit("{\"pid\":");
        reveal_strlit("{\"name\":");
        reveal_strlit("{\"bundle\":");
        assert("{\"pid\":"@ =~= pid_open());
        assert("{\"name\":"@ =~= name_open());
        assert("{\"bundle\":"@ =~= bundle_open());
    }
    if occurs_at_pos(input, pos, "{\"pid\":") {
        assert(s.skip(7) =~= input@.skip(pos + 7));
        match read_int(input, pos + 7) {
            Some((p, j)) => {
                if brace_at(input, j) {
                    assert(target_key(MonitorTarget::Pid(p)) =~= (0int, p, Seq::<char>::empty()));
                    Some((MonitorTarget::Pid(p), j + 1))
                } else {
                    None
                }
            },
            None => None,
        }
    } else if occurs_at_pos(input, pos, "{\"name\":") {
        assert(s.skip(8) =~= input@.skip(pos + 8));
        match read_string(input, pos + 8) {
            Some((n, j)) => {
                if brace_at(input, j) {
                    Some((MonitorTarget::Name(n), j + 1))
                } else {
                    None
                }
            },
            None => None,
        }
    } else if occurs_at_pos(input, pos, "{\"bundle\":") {
        assert(s.skip(10) =~= input@.skip(pos + 10));
        match read_string(input, pos + 10) {
            Some((b, j)) => {
                if brace_at(input, j) {
                    Some((MonitorTarget::Bundle(b), j + 1))
                } else {
                    None
                }
            },
            None => None,
        }
    } else {
        None
    }
}

/// Appends a target as a JSON object.
fn push_json_target(out: &mut String, t: &MonitorTarget)
    ensures
        final(out)@ == old(out)@ + json_target(target_key(*t)),
{
    reveal(json_target);
    let ghost start = out@;
    proof {
        reveal_strlit("{\"pid\":");
        reveal_strlit("{\"name\":");
        reveal_strlit("{\"bundle\":");
    }
    match t {
        MonitorTarget::Pid(p) => {
            push_str(out, "{\"pid\":");
            push_signed_decimal(out, *p);
        },
        MonitorTarget::Name(n) => {
            push_str(out, "{\"name\":");
            push_json_string(out, n.as_str());
        },
        MonitorTarget::Bundle(b) => {
            push_str(out, "{\"bundle\":");
            push_json_string(out, b.as_str());
        },
    }
    push_char(out, '}');
    assert(out@ =~= start + json_target(target_key(*t)));
}

// ---------------------------------------------------------------------
// Entries and the whole history
// ---------------------------------------------------------------------

/// A target by its contents, with its four address lists (IPv4 masked,
/// IPv4 raw, IPv6 masked, IPv6 raw).
pub type EntryView = ((int, i32, Seq<char>), (Seq<Seq<char>>, Seq<Seq<char>>, Seq<Seq<char>>, Seq<Seq<char>>));

pub open spec fn target_open() -> Seq<char> {
    seq!['{', '\"', 't', 'a', 'r', 'g', 'e', 't', '\"', ':']
}

pub open spec fn ipv4_masked_key() -> Seq<char> {
    seq![',', '\"', 'i', 'p', 'v', '4', '_', 'm', 'a', 's', 'k', 'e', 'd', '\"', ':']
}

pub open spec fn ipv4_raw_key() -> Seq<char> {
    seq![',', '\"', 'i', 'p', 'v', '4', '_', 'r', 'a', 'w', '\"', ':']
}

pub open spec fn ipv6_masked_key() -> Seq<char> {
    seq![',', '\"', 'i', 'p', 'v', '6', '_', 'm', 'a', 's', 'k', 'e', 'd', '\"', ':']
}

pub open spec fn ipv6_raw_key() -> Seq<char> {
    seq![',', '\"', 'i', 'p', 'v', '6', '_', 'r', 'a', 'w', '\"', ':']
}

pub open spec fn history_open() -> Seq<char> {
    seq!['{', '\"', 't', 'a', 'r', 'g', 'e', 't', 's', '\"', ':', '[']
}

/// A key and a list of texts, followed by `rest`.
#[verifier::opaque]
pub open spec fn keyed_list(key: Seq<char>, l: Seq<Seq<char>>, rest: Seq<char>) -> Seq<char> {
    key + (json_list(l) + rest)
}

/// The four address lists of an entry and its closing brace, followed by
/// `rest`.
#[verifier::opaque]
pub open spec fn fields_then(
    ls: (Seq<Seq<char>>, Seq<Seq<char>>, Seq<Seq<char>>, Seq<Seq<char>>),
    rest: Seq<char>,
) -> Seq<char> {
    keyed_list(
        ipv4_masked_key(),
        ls.0,
        keyed_list(
            ipv4_raw_key(),
            ls.1,
            keyed_list(ipv6_masked_key(), ls.2, keyed_list(ipv6_raw_key(), ls.3, seq!['}'] + rest)),
        ),
    )
}

/// One target's entry as a JSON object, followed by `rest`.
#[verifier::opaque]
pub open spec fn entry_then(e: EntryView, rest: Seq<char>) -> Seq<char> {
    target_open() + (json_target(e.0) + fields_then(e.1, rest))
}

/// One target's entry as a JSON object.
pub open spec fn json_entry(e: EntryView) -> Seq<char> {
    entry_then(e, Seq::empty())
}

proof fn lemma_assoc(a: Seq<char>, b: Seq<char>, c: Seq<char>)
    ensures
        (a + b) + c == a + (b + c),
{
    assert((a + b) + c =~= a + (b + c));
}

proof fn lemma_keyed_list_then(key: Seq<char>, l: Seq<Seq<char>>, a: Seq<char>, rest: Seq<char>)
    ensures
        keyed_list(key, l, a) + rest == keyed_list(key, l, a + rest),
{
    reveal(keyed_list);
    lemma_assoc(json_list(l), a, rest);
    lemma_assoc(key, json_list(l) + a, rest);
}

proof fn lemma_entry_then(e: EntryView, rest: Seq<char>)
    ensures
        json_entry(e) + rest == entry_then(e, rest),
{
    reveal(entry_then); reveal(fields_then);
    let ls = e.1;
    let z = Seq::<char>::empty();
    assert(seq!['}'] + z =~= seq!['}']);
    lemma_assoc(seq!['}'], z, rest);
    lemma_keyed_list_then(ipv6_raw_key(), ls.3, seq!['}'] + z, rest);
    let f3 = keyed_list(ipv6_raw_key(), ls.3, seq!['}'] + z);
    lemma_keyed_list_then(ipv6_masked_key(), ls.2, f3, rest);
    let f2 = keyed_list(ipv6_masked_key(), ls.2, f3);
    lemma_keyed_list_then(ipv4_raw_key(), ls.1, f2, rest);
    let f1 = keyed_list(ipv4_raw_key(), ls.1, f2);
    lemma_keyed_list_then(ipv4_masked_key(), ls.0, f1, rest);
    let f0 = keyed_list(ipv4_masked_key(), ls.0, f1);
    assert(fields_then(ls, z) == f0);
    lemma_assoc(json_target(e.0), f0, rest);
    lemma_assoc(target_open(), json_target(e.0) + f0, rest);
}

/// `s` past the text `lit`, when it starts with it.
spec fn expect(lit: Seq<char>, s: Seq<char>) -> Option<Seq<char>> {
    if is_prefix_of(lit, s) {
        Some(s.skip(lit.len() as int))
    } else {
        None
    }
}

/// Reads a key and a list of texts at the start of `s`, and what follows.
#[verifier::opaque]
spec fn parse_keyed_list(key: Seq<char>, s: Seq<char>) -> Option<(Seq<Seq<char>>, Seq<char>)> {
    match expect(key, s) {
        Some(t) => parse_list(t),
        None => None,
    }
}

/// Reads the four address lists of an entry and its closing brace.
#[verifier::opaque]
spec fn parse_fields(s: Seq<char>) -> Option<(
    (Seq<Seq<char>>, Seq<Seq<char>>, Seq<Seq<char>>, Seq<Seq<char>>),
    Seq<char>,
)> {
    match parse_keyed_list(ipv4_masked_key(), s) {
        None => None,
        Some((l1, s1)) => match parse_keyed_list(ipv4_raw_key(), s1) {
            None => None,
            Some((l2, s2)) => match parse_keyed_list(ipv6_masked_key(), s2) {
                None => None,
                Some((l3, s3)) => match parse_keyed_list(ipv6_raw_key(), s3) {
                    None => None,
                    Some((l4, s4)) => match after_brace(s4) {
                        None => None,
                        Some(s5) => Some(((l1, l2, l3, l4), s5)),
                    },
                },
            },
        },
    }
}

/// Reads an entry at the start of `s`, and what follows it.
#[verifier::opaque]
spec fn parse_entry(s: Seq<char>) -> Option<(EntryView, Seq<char>)> {
    match expect(target_open(), s) {
        None => None,
        Some(s1) => match parse_target(s1) {
            None => None,
            Some((k, s2)) => match parse_fields(s2) {
                None => None,
                Some((ls, s3)) => Some(((k, ls), s3)),
            },
        },
    }
}

proof fn lemma_expect(lit: Seq<char>, rest: Seq<char>)
    ensures
        expect(lit, lit + rest) == Some(rest),
{
    assert((lit + rest).subrange(0, lit.len() as int) =~= lit);
    assert((lit + rest).skip(lit.len() as int) =~= rest);
}

proof fn lemma_expect_sound(lit: Seq<char>, s: Seq<char>)
    requires
        expect(lit, s) is Some,
    ensures
        s == lit + expect(lit, s)->Some_0,
{
    assert(s =~= s.subrange(0, lit.len() as int) + s.skip(lit.len() as int));
}

proof fn lemma_parse_keyed_list(key: Seq<char>, l: Seq<Seq<char>>, rest: Seq<char>)
    ensures
        parse_keyed_list(key, keyed_list(key, l, rest)) == Some((l, rest)),
{
    reveal(parse_keyed_list); reveal(keyed_list);
    lemma_expect(key, json_list(l) + rest);
    lemma_parse_list(l, rest);
}

proof fn lemma_parse_keyed_list_sound(key: Seq<char>, s: Seq<char>)
    requires
        parse_keyed_list(key, s) is Some,
    ensures
        s == keyed_list(key, parse_keyed_list(key, s)->Some_0.0, parse_keyed_list(key, s)->Some_0.1),
{
    reveal(parse_keyed_list); reveal(keyed_list);
    lemma_expect_sound(key, s);
    lemma_parse_list_sound(expect(key, s)->Some_0);
}

proof fn lemma_parse_fields(
    ls: (Seq<Seq<char>>, Seq<Seq<char>>, Seq<Seq<char>>, Seq<Seq<char>>),
    rest: Seq<char>,
)
    ensures
        parse_fields(fields_then(ls, rest)) == Some((ls, rest)),
{
    reveal(parse_fields); reveal(fields_then);
    let r4 = seq!['}'] + rest;
    let r3 = keyed_list(ipv6_raw_key(), ls.3, r4);
    let r2 = keyed_list(ipv6_masked_key(), ls.2, r3);
    let r1 = keyed_list(ipv4_raw_key(), ls.1, r2);
    lemma_parse_keyed_list(ipv4_masked_key(), ls.0, r1);
    lemma_parse_keyed_list(ipv4_raw_key(), ls.1, r2);
    lemma_parse_keyed_list(ipv6_masked_key(), ls.2, r3);
    lemma_parse_keyed_list(ipv6_raw_key(), ls.3, r4);
    assert(r4[0] == '}');
    assert(r4.drop_first() =~= rest);
    assert(ls =~= (ls.0, ls.1, ls.2, ls.3));
}

proof fn lemma_parse_fields_sound(s: Seq<char>)
    requires
        parse_fields(s) is Some,
    ensures
        s == fields_then(parse_fields(s)->Some_0.0, parse_fields(s)->Some_0.1),
{
    reveal(parse_fields); reveal(fields_then);
    lemma_parse_keyed_list_sound(ipv4_masked_key(), s);
    let s1 = parse_keyed_list(ipv4_masked_key(), s)->Some_0.1;
    lemma_parse_keyed_list_sound(ipv4_raw_key(), s1);
    let s2 = parse_keyed_list(ipv4_raw_key(), s1)->Some_0.1;
    lemma_parse_keyed_list_sound(ipv6_masked_key(), s2);
    let s3 = parse_keyed_list(ipv6_masked_key(), s2)->Some_0.1;
    lemma_parse_keyed_list_sound(ipv6_raw_key(), s3);
    let s4 = parse_keyed_list(ipv6_raw_key(), s3)->Some_0.1;
    let s5 = after_brace(s4)->Some_0;
    assert(s4 =~= seq!['}'] + s5);
}

proof fn lemma_parse_entry(e: EntryView, rest: Seq<char>)
    requires
        valid_key(e.0),
    ensures
        parse_entry(json_entry(e) + rest) == Some((e, rest)),
{
    reveal(parse_entry); reveal(entry_then);
    lemma_entry_then(e, rest);
    let r2 = fields_then(e.1, rest);
    lemma_expect(target_open(), json_target(e.0) + r2);
    lemma_parse_target(e.0, r2);
    lemma_parse_fields(e.1, rest);
    assert(e =~= (e.0, e.1));
}

proof fn lemma_parse_entry_sound(s: Seq<char>)
    requires
        parse_entry(s) is Some,
    ensures
        valid_key(parse_entry(s)->Some_0.0.0),
        s == json_entry(parse_entry(s)->Some_0.0) + parse_entry(s)->Some_0.1,
        parse_entry(s)->Some_0.1.len() < s.len(),
{
    reveal(parse_entry); reveal(entry_then);
    lemma_expect_sound(target_open(), s);
    let s1 = expect(target_open(), s)->Some_0;
    lemma_parse_target_sound(s1);
    let s2 = parse_target(s1)->Some_0.1;
    lemma_parse_fields_sound(s2);
    let e = parse_entry(s)->Some_0.0;
    let s3 = parse_entry(s)->Some_0.1;
    assert(s == entry_then(e, s3));
    lemma_entry_then(e, s3);
}

/// The entries of a history after its first, each behind a comma.
pub open spec fn more_entries(v: Seq<EntryView>) -> Seq<char>
    decreases v.len(),
{
    if v.len() == 0 {
        Seq::empty()
    } else {
        seq![','] + json_entry(v[0]) + more_entries(v.drop_first())
    }
}

/// The history file's text for the given entries.
pub open spec fn json_history(v: Seq<EntryView>) -> Seq<char> {
    if v.len() == 0 {
        history_open() + seq![']', '}']
    } else {
        history_open() + json_entry(v[0]) + more_entries(v.drop_first()) + seq![']', '}']
    }
}

/// Every entry's target is a target's contents.
pub open spec fn valid_history(v: Seq<EntryView>) -> bool {
    forall|i: int| 0 <= i < v.len() ==> valid_key(#[trigger] v[i].0)
}

/// Reads the rest of the entries after the first: the entries and what
/// follows the closing bracket.
spec fn parse_more_entries(s: Seq<char>) -> Option<(Seq<EntryView>, Seq<char>)>
    decreases s.len(),
{
    if s.len() > 0 && s[0] == ']' {
        Some((Seq::empty(), s.drop_first()))
    } else if s.len() > 0 && s[0] == ',' {
        match parse_entry(s.drop_first()) {
            Some((e, r)) => if r.len() < s.len() {
                match parse_more_entries(r) {
                    Some((es, r2)) => Some((seq![e] + es, r2)),
                    None => None,
                }
            } else {
                None
            },
            None => None,
        }
    } else {
        None
    }
}

/// Reads the entries after the opening of a history file's text: the
/// entries and what follows the closing bracket.
spec fn history_body(t: Seq<char>) -> Option<(Seq<EntryView>, Seq<char>)> {
    if t.len() > 0 && t[0] == ']' {
        Some((Seq::<EntryView>::empty(), t.drop_first()))
    } else {
        match parse_entry(t) {
            Some((e, r)) => prepend_entries(seq![e], parse_more_entries(r)),
            None => None,
        }
    }
}

/// The entries a history file's text holds, if it is one.
spec fn parse_history(s: Seq<char>) -> Option<Seq<EntryView>> {
    match expect(history_open(), s) {
        None => None,
        Some(t) => match history_body(t) {
            Some((v, r)) => if r == seq!['}'] {
                Some(v)
            } else {
                None
            },
            None => None,
        },
    }
}

/// `r` with the entries `p` put before the ones it read.
spec fn prepend_entries(p: Seq<EntryView>, r: Option<(Seq<EntryView>, Seq<char>)>) -> Option<(Seq<EntryView>, Seq<char>)> {
    match r {
        Some((es, rest)) => Some((p + es, rest)),
        None => None,
    }
}

proof fn lemma_entry_starts(e: EntryView)
    ensures
        json_entry(e).len() > 0,
        json_entry(e)[0] == '{',
{
    reveal(entry_then);
    assert(json_entry(e)[0] == target_open()[0]);
}

proof fn lemma_parse_more_entries(v: Seq<EntryView>, rest: Seq<char>)
    requires
        valid_history(v),
    ensures
        parse_more_entries(more_entries(v) + seq![']'] + rest) == Some((v, rest)),
    decreases v.len(),
{
    let s = more_entries(v) + seq![']'] + rest;
    if v.len() == 0 {
        assert(s =~= seq![']'] + rest);
        assert(s.drop_first() =~= rest);
    } else {
        let t = more_entries(v.drop_first()) + seq![']'] + rest;
        assert(s =~= seq![','] + (json_entry(v[0]) + t));
        assert(s.drop_first() =~= json_entry(v[0]) + t);
        assert(valid_key(v[0].0));
        lemma_parse_entry(v[0], t);
        assert(t.len() < s.len());
        assert forall|i: int| 0 <= i < v.drop_first().len() implies valid_key(#[trigger] v.drop_first()[i].0) by {
            assert(v.drop_first()[i] == v[i + 1]);
        }
        lemma_parse_more_entries(v.drop_first(), rest);
        assert(seq![v[0]] + v.drop_first() =~= v);
    }
}

proof fn lemma_parse_more_entries_sound(s: Seq<char>)
    requires
        parse_more_entries(s) is Some,
    ensures
        valid_history(parse_more_entries(s)->Some_0.0),
        s == more_entries(parse_more_entries(s)->Some_0.0) + seq![']'] + parse_more_entries(s)->Some_0.1,
    decreases s.len(),
{
    if s[0] == ']' {
        assert(more_entries(Seq::<EntryView>::empty()) == Seq::<char>::empty());
        assert(s =~= more_entries(Seq::<EntryView>::empty()) + seq![']'] + s.drop_first());
    } else {
        let t = s.drop_first();
        lemma_parse_entry_sound(t);
        let e = parse_entry(t)->Some_0.0;
        let r = parse_entry(t)->Some_0.1;
        lemma_parse_more_entries_sound(r);
        let es = parse_more_entries(r)->Some_0.0;
        let r2 = parse_more_entries(r)->Some_0.1;
        let v = seq![e] + es;
        assert(v.drop_first() =~= es);
        assert(v[0] == e);
        assert forall|i: int| 0 <= i < v.len() implies valid_key(#[trigger] v[i].0) by {
            if i > 0 {
                assert(v[i] == es[i - 1]);
            }
        }
        assert(s =~= seq![','] + t);
        assert(s =~= more_entries(v) + seq![']'] + r2);
    }
}

proof fn lemma_parse_history(v: Seq<EntryView>)
    requires
        valid_history(v),
    ensures
        parse_history(json_history(v)) == Some(v),
{
    let s = json_history(v);
    if v.len() == 0 {
        lemma_expect(history_open(), seq![']', '}']);
        assert(s == history_open() + seq![']', '}']);
        assert(seq![']', '}'].drop_first() =~= seq!['}']);
    } else {
        let t = json_entry(v[0]) + (more_entries(v.drop_first()) + seq![']'] + seq!['}']);
        assert(s =~= history_open() + t);
        lemma_expect(history_open(), t);
        lemma_entry_starts(v[0]);
        assert(t[0] == json_entry(v[0])[0]);
        assert(valid_key(v[0].0));
        lemma_parse_entry(v[0], more_entries(v.drop_first()) + seq![']'] + seq!['}']);
        assert forall|i: int| 0 <= i < v.drop_first().len() implies valid_key(#[trigger] v.drop_first()[i].0) by {
            assert(v.drop_first()[i] == v[i + 1]);
        }
        lemma_parse_more_entries(v.drop_first(), seq!['}']);
        assert(seq![v[0]] + v.drop_first() =~= v);
    }
}

proof fn lemma_parse_history_sound(s: Seq<char>)
    requires
        parse_history(s) is Some,
    ensures
        valid_history(parse_history(s)->Some_0),
        json_history(parse_history(s)->Some_0) == s,
{
    lemma_expect_sound(history_open(), s);
    let t = expect(history_open(), s)->Some_0;
    if t.len() > 0 && t[0] == ']' {
        assert(t.drop_first() == seq!['}']);
        assert(t =~= seq![t[0]] + t.drop_first());
        assert(t =~= seq![']', '}']);
    } else {
        lemma_parse_entry_sound(t);
        let e = parse_entry(t)->Some_0.0;
        let r = parse_entry(t)->Some_0.1;
        lemma_parse_more_entries_sound(r);
        let es = parse_more_entries(r)->Some_0.0;
        let v = seq![e] + es;
        assert(v.drop_first() =~= es);
        assert(v[0] == e);
        assert forall|i: int| 0 <= i < v.len() implies valid_key(#[trigger] v[i].0) by {
            if i > 0 {
                assert(v[i] == es[i - 1]);
            }
        }
        assert(s =~= json_history(v));
    }
}

// ---------------------------------------------------------------------
// Reading and writing the history file
// ---------------------------------------------------------------------

/// One saved entry by its contents.
pub open spec fn entry_view(e: (MonitorTarget, PreservedData)) -> EntryView {
    (target_key(e.0), e.1.lists())
}

/// Saved entries by their contents.
pub open spec fn history_view(h: Seq<(MonitorTarget, PreservedData)>) -> Seq<EntryView> {
    h.map_values(|e: (MonitorTarget, PreservedData)| entry_view(e))
}

/// The position after the text `lit` at `pos`, when it is there.
fn expect_at(input: &Vec<char>, pos: usize, lit: &str) -> (r: Option<usize>)
    requires
        pos <= input.len(),
    ensures
        match expect(lit@, input@.skip(pos as int)) {
            Some(t) => r == Some((pos + lit@.len()) as usize) && pos + lit@.len() <= input.len() && t
                == input@.skip(pos + lit@.len()),
            None => r is None,
        },
{
    if occurs_at_pos(input, pos, lit) {
        let n = lit.unicode_len();
        assert(input@.skip(pos as int).skip(n as int) =~= input@.skip(pos + n));
        Some(pos + n)
    } else {
        None
    }
}

/// Reads a key and a list of texts at `pos`.
fn read_keyed_list(input: &Vec<char>, pos: usize, key: &str) -> (r: Option<(Vec<String>, usize)>)
    requires
        pos <= input.len(),
    ensures
        match r {
            Some((l, end)) => pos < end <= input.len() && parse_keyed_list(key@, input@.skip(pos as int))
                == Some((strs(l@), input@.skip(end as int))),
            None => parse_keyed_list(key@, input@.skip(pos as int)) is None,
        },
{
    reveal(parse_keyed_list);
    match expect_at(input, pos, key) {
        Some(i) => read_list(input, i),
        None => None,
    }
}

/// Reads the four address lists of an entry and its closing brace at `pos`.
fn read_fields(input: &Vec<char>, pos: usize) -> (r: Option<(PreservedData, usize)>)
    requires
        pos <= input.len(),
    ensures
        match r {
            Some((d, end)) => pos < end <= input.len() && parse_fields(input@.skip(pos as int)) == Some(
                (d.lists(), input@.skip(end as int)),
            ),
            None => parse_fields(input@.skip(pos as int)) is None,
        },
{
    reveal(parse_fields);
    proof {
        reveal_strlit(",\"ipv4_masked\":");
        reveal_strlit(",\"ipv4_raw\":");
        reveal_strlit(",\"ipv6_masked\":");
        reveal_strlit(",\"ipv6_raw\":");
        assert(",\"ipv4_masked\":"@ =~= ipv4_masked_key());
        assert(",\"ipv4_raw\":"@ =~= ipv4_raw_key());
        assert(",\"ipv6_masked\":"@ =~= ipv6_masked_key());
        assert(",\"ipv6_raw\":"@ =~= ipv6_raw_key());
    }
    let (l1, i1) = match read_keyed_list(input, pos, ",\"ipv4_masked\":") {
        Some(v) => v,
        None => {
            return None;
        },
    };
    let (l2, i2) = match read_keyed_list(input, i1, ",\"ipv4_raw\":") {
        Some(v) => v,
        None => {
            return None;
        },
    };
    let (l3, i3) = match read_keyed_list(input, i2, ",\"ipv6_masked\":") {
        Some(v) => v,
        None => {
            return None;
        },
    };
    let (l4, i4) = match read_keyed_list(input, i3, ",\"ipv6_raw\":") {
        Some(v) => v,
        None => {
            return None;
        },
    };
    if brace_at(input, i4) {
        let d = PreservedData { ipv4_masked: l1, ipv4_raw: l2, ipv6_masked: l3, ipv6_raw: l4 };
        Some((d, i4 + 1))
    } else {
        None
    }
}

/// Reads an entry at `pos`.
fn read_entry(input: &Vec<char>, pos: usize) -> (r: Option<((MonitorTarget, PreservedData), usize)>)
    requires
        pos <= input.len(),
    ensures
        match r {
            Some((e, end)) => pos < end <= input.len() && parse_entry(input@.skip(pos as int)) == Some(
                (entry_view(e), input@.skip(end as int)),
            ),
            None => parse_entry(input@.skip(pos as int)) is None,
        },
{
    reveal(parse_entry);
    proof {
        reveal_strlit("{\"target\":");
        assert("{\"target\":"@ =~= target_open());
    }
    let i = match expect_at(input, pos, "{\"target\":") {
        Some(i) => i,
        None => {
            return None;
        },
    };
    let (t, j) = match read_target(input, i) {
        Some(v) => v,
        None => {
            return None;
        },
    };
    match read_fields(input, j) {
        Some((d, k)) => Some(((t, d), k)),
        None => None,
    }
}

/// The entries a history file's text holds (see `json_history`): `None`
/// exactly when the text is not the history text of any entries.
pub fn decode_history(text: &str) -> (r: Option<Vec<(MonitorTarget, PreservedData)>>)
    ensures
        match r {
            Some(h) => json_history(history_view(h@)) == text@,
            None => forall|v: Seq<EntryView>| valid_history(v) ==> json_history(v) != text@,
        },
{
    let input = chars_of(text);
    let r = read_history(&input);
    proof {
        if r is Some {
            lemma_parse_history_sound(text@);
        } else {
            assert forall|v: Seq<EntryView>| valid_history(v) implies json_history(v) != text@ by {
                lemma_parse_history(v);
            }
        }
    }
    r
}

fn read_history(input: &Vec<char>) -> (r: Option<Vec<(MonitorTarget, PreservedData)>>)
    ensures
        match r {
            Some(h) => parse_history(input@) == Some(history_view(h@)),
            None => parse_history(input@) is None,
        },
{
    proof {
        reveal_strlit("{\"targets\":[");
        assert("{\"targets\":["@ =~= history_open());
        assert(input@.skip(0) =~= input@);
    }
    let i = match expect_at(input, 0, "{\"targets\":[") {
        Some(i) => i,
        None => {
            return None;
        },
    };
    let ghost t = input@.skip(i as int);
    let mut entries: Vec<(MonitorTarget, PreservedData)> = Vec::new();
    let mut k: usize = i;
    if i < input.len() && input[i] == ']' {
        assert(t[0] == ']');
        assert(t.drop_first() =~= input@.skip(i + 1));
        assert(history_view(entries@) =~= Seq::<EntryView>::empty());
        k = i + 1;
    } else {
        proof {
            if i < input.len() {
                assert(t[0] == input@[i as int]);
            }
        }
        let (first, j) = match read_entry(input, i) {
            Some(v) => v,
            None => {
                return None;
            },
        };
        entries.push(first);
        assert(history_view(entries@) =~= seq![entry_view(first)]);
        let mut p: usize = j;
        loop
            invariant_except_break
                i < p <= input.len(),
                history_body(t) == prepend_entries(history_view(entries@), parse_more_entries(input@.skip(p as int))),
            invariant
                t == input@.skip(i as int),
                parse_history(input@) == match history_body(t) {
                    Some((v, r)) => if r == seq!['}'] {
                        Some(v)
                    } else {
                        None
                    },
                    None => None,
                },
            ensures
                k <= input.len(),
                history_body(t) == Some((history_view(entries@), input@.skip(k as int))),
            decreases input.len() - p,
        {
            let ghost u = input@.skip(p as int);
            if p < input.len() && input[p] == ']' {
                assert(u[0] == ']');
                assert(u.drop_first() =~= input@.skip(p + 1));
                assert(history_view(entries@) + Seq::<EntryView>::empty() =~= history_view(entries@));
                k = p + 1;
                break;
            } else if p < input.len() && input[p] == ',' {
                assert(u[0] == ',');
                assert(u.drop_first() =~= input@.skip(p + 1));
                match read_entry(input, p + 1) {
                    Some((e, q)) => {
                        let ghost before = history_view(entries@);
                        proof {
                            assert(input@.skip(q as int).len() < u.len());
                            match parse_more_entries(input@.skip(q as int)) {
                                Some((es, r2)) => {
                                    assert(before.push(entry_view(e)) + es =~= before + (seq![entry_view(e)] + es));
                                },
                                None => {},
                            }
                        }
                        entries.push(e);
                        assert(history_view(entries@) =~= before.push(entry_view(e)));
                        p = q;
                    },
                    None => {
                        return None;
                    },
                }
            } else {
                proof {
                    if p < input.len() {
                        assert(u[0] == input@[p as int]);
                    }
                }
                return None;
            }
        }
    }
    if k < input.len() && input.len() - k == 1 && input[k] == '}' {
        assert(input@.skip(k as int) =~= seq!['}']);
        Some(entries)
    } else {
        proof {
            if input@.skip(k as int) == seq!['}'] {
                assert(input@.skip(k as int).len() == 1);
                assert(input@.skip(k as int)[0] == input@[k as int]);
            }
        }
        None
    }
}

/// Appends one entry as a JSON object.
fn push_json_entry(out: &mut String, e: &(MonitorTarget, PreservedData))
    ensures
        final(out)@ == old(out)@ + json_entry(entry_view(*e)),
{
    let ghost start = out@;
    let ghost v = entry_view(*e);
    proof {
        reveal_strlit("{\"target\":");
        reveal_strlit(",\"ipv4_masked\":");
        reveal_strlit(",\"ipv4_raw\":");
        reveal_strlit(",\"ipv6_masked\":");
        reveal_strlit(",\"ipv6_raw\":");
    }
    push_str(out, "{\"target\":");
    push_json_target(out, &e.0);
    let ghost a = out@;
    push_str(out, ",\"ipv4_masked\":");
    push_json_list(out, e.1.ipv4_masked.as_slice());
    push_str(out, ",\"ipv4_raw\":");
    push_json_list(out, e.1.ipv4_raw.as_slice());
    push_str(out, ",\"ipv6_masked\":");
    push_json_list(out, e.1.ipv6_masked.as_slice());
    push_str(out, ",\"ipv6_raw\":");
    push_json_list(out, e.1.ipv6_raw.as_slice());
    push_char(out, '}');
    proof {
        reveal(entry_then);
        reveal(fields_then);
        reveal(keyed_list);
        let f = fields_then(v.1, Seq::<char>::empty());
        assert(out@ =~= a + f);
        assert(a =~= start + target_open() + json_target(v.0));
        assert(json_entry(v) =~= target_open() + (json_target(v.0) + f));
        assert(out@ =~= start + json_entry(v));
    }
}

/// The history file's text for the given entries (see `json_history`).
pub fn encode_history(entries: &Vec<(MonitorTarget, PreservedData)>) -> (r: String)
    ensures
        r@ == json_history(history_view(entries@)),
{
    let ghost v = history_view(entries@);
    let mut out = String::new();
    proof {
        reveal_strlit("{\"targets\":[");
    }
    push_str(&mut out, "{\"targets\":[");
    let ghost start = out@;
    if entries.len() > 0 {
        push_json_entry(&mut out, &entries[0]);
        let mut i: usize = 1;
        while i < entries.len()
            invariant
                1 <= i <= entries.len(),
                v == history_view(entries@),
                out@ + more_entries(v.subrange(i as int, v.len() as int)) == start + json_entry(v[0])
                    + more_entries(v.drop_first()),
            decreases entries.len() - i,
        {
            let ghost before = out@;
            push_char(&mut out, ',');
            push_json_entry(&mut out, &entries[i]);
            proof {
                let rest = v.subrange(i as int, v.len() as int);
                assert(rest[0] == entry_view(entries@[i as int]));
                assert(rest.drop_first() =~= v.subrange(i + 1, v.len() as int));
                assert(out@ + more_entries(v.subrange(i + 1, v.len() as int)) =~= before + more_entries(rest));
            }
            i = i + 1;
        }
        proof {
            assert(v.subrange(1, v.len() as int) =~= v.drop_first());
            assert(more_entries(v.subrange(entries.len() as int, v.len() as int)) == Seq::<char>::empty()) by {
                assert(v.subrange(entries.len() as int, v.len() as int) =~= Seq::<EntryView>::empty());
            }
            assert(out@ + Seq::<char>::empty() =~= out@);
        }
    }
    push_char(&mut out, ']');
    push_char(&mut out, '}');
    proof {
        assert("{\"targets\":["@ =~= history_open());
        assert(out@ =~= json_history(v));
    }
    out
}

/// Saved entries always have targets' contents.
pub proof fn law_saved_entries_valid(h: Seq<(MonitorTarget, PreservedData)>)
    ensures
        valid_history(history_view(h)),
{
    assert forall|i: int| 0 <= i < history_view(h).len() implies valid_key(#[trigger] history_view(h)[i].0) by {
        assert(history_view(h)[i] == entry_view(h[i]));
    }
}

/// Different entries give different texts: the history text determines
/// the entries it was written from.
pub proof fn law_history_text_determines_entries(a: Seq<EntryView>, b: Seq<EntryView>)
    requires
        valid_history(a),
        valid_history(b),
        json_history(a) == json_history(b),
    ensures
        a == b,
{
    lemma_parse_history(a);
    lemma_parse_history(b);
}

/// Reading back what was written gives the entries that were written:
/// when `encode_history` wrote `h` and `decode_history` read that text,
/// it read entries (not `None`) and they are `h`'s, in order.
pub proof fn law_decode_after_encode(
    h: Seq<(MonitorTarget, PreservedData)>,
    decoded: Option<Seq<(MonitorTarget, PreservedData)>>,
)
    requires
        match decoded {
            Some(d) => json_history(history_view(d)) == json_history(history_view(h)),
            None => forall|v: Seq<EntryView>| valid_history(v) ==> json_history(v) != json_history(history_view(h)),
        },
    ensures
        decoded is Some,
        history_view(decoded->Some_0) == history_view(h),
{
    law_saved_entries_valid(h);
    if let Some(d) = decoded {
        law_saved_entries_valid(d);
        law_history_text_determines_entries(history_view(d), history_view(h));
    }
}

} // verus!
