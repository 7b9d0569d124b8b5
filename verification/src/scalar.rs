//! How the text of a plain scalar becomes a value under Psych's rules
//! (`ScalarScanner#tokenize`, for the types a config file can hold). Dates
//! and times, which Psych refuses to load safely, stay strings.

use vstd::prelude::*;

use crate::text::{chars_of, int_text, string_of};
use crate::yaml::{FloatLit, Value, ValueV};

verus! {

// ---------------------------------------------------------------------------
// Characters.
// ---------------------------------------------------------------------------

pub open spec fn lower(c: char) -> char {
    if 'A' <= c && c <= 'Z' { ((c as int) + 32) as char } else { c }
}

/// `str::eq_ignore_ascii_case` against an ASCII word.
pub open spec fn ci_eq(s: Seq<char>, w: Seq<char>) -> bool {
    s.len() == w.len() && forall|i: int| 0 <= i < s.len() ==> lower(#[trigger] s[i]) == lower(w[i])
}

pub open spec fn is_ascii_digit(c: char) -> bool {
    '0' <= c && c <= '9'
}

/// A digit's value in any radix up to 36; 36 for anything else.
pub open spec fn digit_val(c: char) -> int {
    if '0' <= c && c <= '9' {
        c as int - 48
    } else if 'a' <= c && c <= 'z' {
        c as int - 87
    } else if 'A' <= c && c <= 'Z' {
        c as int - 55
    } else {
        36
    }
}

/// `char::is_digit(radix)`.
pub open spec fn is_digit_radix(c: char, radix: int) -> bool {
    digit_val(c) < radix
}

/// The separators Psych allows inside numbers.
pub open spec fn is_sep(c: char) -> bool {
    c == '_' || c == ','
}

/// The text without its separators.
pub open spec fn drop_seps(s: Seq<char>) -> Seq<char>
    decreases s.len(),
{
    if s.len() == 0 {
        s
    } else if is_sep(s.last()) {
        drop_seps(s.drop_last())
    } else {
        drop_seps(s.drop_last()).push(s.last())
    }
}

/// The number the digits stand for in `radix`.
pub open spec fn radix_value(d: Seq<char>, radix: int) -> int
    decreases d.len(),
{
    if d.len() == 0 {
        0
    } else {
        radix_value(d.drop_last(), radix) * radix + digit_val(d.last())
    }
}

/// The position of the first character at or after `i` that is not a separator.
pub open spec fn skip_seps(s: Seq<char>, i: int) -> int
    decreases s.len() - i,
{
    if 0 <= i < s.len() && is_sep(s[i]) { skip_seps(s, i + 1) } else { i }
}

// ---------------------------------------------------------------------------
// Integers: Psych's INTEGER_LEGACY.
// ---------------------------------------------------------------------------

/// Digits of `radix` and separators, with a digit before the first non-separator.
pub open spec fn digits_ok(t: Seq<char>, radix: int) -> bool {
    let k = skip_seps(t, 0);
    &&& k < t.len()
    &&& is_digit_radix(t[k], radix)
    &&& forall|i: int| 0 <= i < t.len() ==> is_digit_radix(#[trigger] t[i], radix) || is_sep(t[i])
}

/// Decimal digits, a separator only between two digits.
pub open spec fn decimal_ok(b: Seq<char>) -> bool {
    &&& b.len() > 0
    &&& is_ascii_digit(b[0])
    &&& forall|i: int|
        0 <= i < b.len() ==> is_ascii_digit(#[trigger] b[i]) || (is_sep(b[i]) && i + 1 < b.len()
            && is_ascii_digit(b[i + 1]))
}

/// The sign and what follows it.
pub open spec fn signed(s: Seq<char>) -> (bool, Seq<char>) {
    if s.len() > 0 && s[0] == '-' {
        (true, s.subrange(1, s.len() as int))
    } else if s.len() > 0 && s[0] == '+' {
        (false, s.subrange(1, s.len() as int))
    } else {
        (false, s)
    }
}

/// The digits of an unsigned integer literal and their radix.
pub open spec fn int_digits(b: Seq<char>) -> Option<(Seq<char>, int)> {
    if b.len() >= 2 && b[0] == '0' && b[1] == 'b' {
        let t = b.subrange(2, b.len() as int);
        if digits_ok(t, 2) { Some((t, 2)) } else { None }
    } else if b.len() >= 2 && b[0] == '0' && b[1] == 'x' {
        let t = b.subrange(2, b.len() as int);
        if digits_ok(t, 16) { Some((t, 16)) } else { None }
    } else if b == seq!['0'] {
        Some((b, 10))
    } else if b.len() >= 1 && b[0] == '0' {
        let t = b.subrange(1, b.len() as int);
        if digits_ok(t, 8) { Some((t, 8)) } else { None }
    } else if decimal_ok(b) {
        Some((b, 10))
    } else {
        None
    }
}

/// Psych's INTEGER_LEGACY: binary, octal (leading 0), decimal and hex, with `_`
/// and `,` allowed. The magnitude must fit in an `i64`.
pub open spec fn parse_int_spec(s: Seq<char>) -> Option<int> {
    let (negative, body) = signed(s);
    match int_digits(body) {
        None => None,
        Some((t, radix)) => {
            let v = radix_value(drop_seps(t), radix);
            if v > i64::MAX { None } else { Some(if negative { -v } else { v }) }
        },
    }
}

// ---------------------------------------------------------------------------
// Floats: Psych's FLOAT, `[-+]?([0-9][0-9_,]*)?\.[0-9]*([eE][-+][0-9]+)?`.
// ---------------------------------------------------------------------------

/// The first position at or after `i` holding one of `a` and `b`.
pub open spec fn find_char(s: Seq<char>, a: char, b: char, i: int) -> Option<int>
    decreases s.len() - i,
{
    if i < 0 || i >= s.len() {
        None
    } else if s[i] == a || s[i] == b {
        Some(i)
    } else {
        find_char(s, a, b, i + 1)
    }
}

pub open spec fn all_digits(s: Seq<char>) -> bool {
    forall|i: int| 0 <= i < s.len() ==> is_ascii_digit(#[trigger] s[i])
}

/// The part of a float before its `.`: empty, or a digit then digits and separators.
pub open spec fn int_part_ok(p: Seq<char>) -> bool {
    p.len() == 0 || (is_ascii_digit(p[0]) && forall|i: int|
        0 <= i < p.len() ==> is_ascii_digit(#[trigger] p[i]) || is_sep(p[i]))
}

/// An exponent after its `e`: a sign, then at least one digit.
pub open spec fn exponent_ok(x: Seq<char>) -> bool {
    x.len() >= 2 && (x[0] == '+' || x[0] == '-') && all_digits(x.subrange(1, x.len() as int))
}

/// What Psych makes of a float literal: `None` when it is not one. A lone
/// `.` (with a sign or not) stays a string; a literal with no digit before
/// its exponent is refused by std's float parser, and so is not a float.
pub open spec fn parse_float_spec(s: Seq<char>) -> Option<ValueV> {
    let body = if s.len() > 0 && (s[0] == '+' || s[0] == '-') { s.subrange(1, s.len() as int) } else { s };
    match find_char(body, '.', '.', 0) {
        None => None,
        Some(d) => {
            let int_part = body.subrange(0, d);
            let rest = body.subrange(d + 1, body.len() as int);
            let (fraction, exponent) = match find_char(rest, 'e', 'E', 0) {
                Some(e) => (rest.subrange(0, e), Some(rest.subrange(e + 1, rest.len() as int))),
                None => (rest, None::<Seq<char>>),
            };
            if !int_part_ok(int_part) || !all_digits(fraction) {
                None
            } else if exponent is Some && !exponent_ok(exponent->0) {
                None
            } else if int_part.len() == 0 && fraction.len() == 0 {
                if exponent is None { Some(ValueV::Str(s)) } else { None }
            } else {
                Some(ValueV::Float(drop_seps(s)))
            }
        },
    }
}

// ---------------------------------------------------------------------------
// Plain scalars.
// ---------------------------------------------------------------------------

/// The text after a `:` symbol marker, without its quotes.
pub open spec fn symbol_text(sym: Seq<char>) -> Seq<char> {
    if sym.len() >= 2 && sym[0] == '"' && sym[sym.len() - 1] == '"' {
        sym.subrange(1, sym.len() - 1)
    } else if sym.len() >= 2 && sym[0] == '\'' && sym[sym.len() - 1] == '\'' {
        sym.subrange(1, sym.len() - 1)
    } else {
        sym
    }
}

/// Psych's `ScalarScanner#tokenize`.
pub open spec fn resolve_plain_spec(s: Seq<char>) -> ValueV {
    let unsigned = signed(s).1;
    if s.len() == 0 || s == seq!['~'] || ci_eq(s, "null"@) {
        ValueV::Null
    } else if ci_eq(s, "yes"@) || ci_eq(s, "true"@) || ci_eq(s, "on"@) {
        ValueV::Bool(true)
    } else if ci_eq(s, "no"@) || ci_eq(s, "false"@) || ci_eq(s, "off"@) {
        ValueV::Bool(false)
    } else if ci_eq(unsigned, ".inf"@) {
        ValueV::Float(if signed(s).0 { "-inf"@ } else { "inf"@ })
    } else if ci_eq(s, ".nan"@) {
        ValueV::Float("NaN"@)
    } else if s.len() >= 2 && s[0] == ':' {
        ValueV::Str(symbol_text(s.subrange(1, s.len() as int)))
    } else if parse_float_spec(s) is Some {
        parse_float_spec(s)->0
    } else if parse_int_spec(s) is Some {
        ValueV::Int(parse_int_spec(s)->0)
    } else {
        ValueV::Str(s)
    }
}


// ---------------------------------------------------------------------------
// Facts about the definitions.
// ---------------------------------------------------------------------------

proof fn lemma_drop_seps_append(a: Seq<char>, b: Seq<char>)
    ensures
        drop_seps(a + b) == drop_seps(a) + drop_seps(b),
    decreases b.len(),
{
    if b.len() == 0 {
        assert(a + b == a);
        assert(drop_seps(b) == b);
        assert(drop_seps(a) + drop_seps(b) == drop_seps(a));
    } else {
        lemma_drop_seps_append(a, b.drop_last());
        assert((a + b).drop_last() == a + b.drop_last());
        assert((a + b).last() == b.last());
    }
}

proof fn lemma_radix_value_nonneg(d: Seq<char>, radix: int)
    requires
        radix >= 1,
    ensures
        radix_value(d, radix) >= 0,
    decreases d.len(),
{
    if d.len() > 0 {
        lemma_radix_value_nonneg(d.drop_last(), radix);
        let x = radix_value(d.drop_last(), radix);
        assert(x * radix >= 0) by (nonlinear_arith)
            requires
                x >= 0,
                radix >= 1,
        ;
    }
}

proof fn lemma_radix_value_grows(a: Seq<char>, b: Seq<char>, radix: int)
    requires
        radix >= 1,
    ensures
        radix_value(a + b, radix) >= radix_value(a, radix),
    decreases b.len(),
{
    if b.len() == 0 {
        assert(a + b == a);
    } else {
        lemma_radix_value_grows(a, b.drop_last(), radix);
        assert((a + b).drop_last() == a + b.drop_last());
        lemma_radix_value_nonneg(a + b.drop_last(), radix);
        let x = radix_value(a + b.drop_last(), radix);
        assert(x * radix >= x) by (nonlinear_arith)
            requires
                x >= 0,
                radix >= 1,
        ;
    }
}

// ---------------------------------------------------------------------------
// The code.
// ---------------------------------------------------------------------------

fn lower_char(c: char) -> (r: char)
    ensures
        r == lower(c),
{
    if 'A' <= c && c <= 'Z' {
        let b: u8 = (c as u8) + 32;
        b as char
    } else {
        c
    }
}

/// `str::eq_ignore_ascii_case` against an ASCII word.
pub fn eq_ignore_case(s: &[char], w: &str) -> (r: bool)
    ensures
        r == ci_eq(s@, w@),
{
    let wc = chars_of(w);
    if s.len() != wc.len() {
        return false;
    }
    let mut i: usize = 0;
    while i < s.len()
        invariant
            s.len() == wc.len(),
            wc@ == w@,
            i <= s.len(),
            forall|j: int| 0 <= j < i ==> lower(#[trigger] s@[j]) == lower(w@[j]),
        decreases s.len() - i,
    {
        if lower_char(s[i]) != lower_char(wc[i]) {
            return false;
        }
        i += 1;
    }
    true
}

fn is_sep_char(c: char) -> (r: bool)
    ensures
        r == is_sep(c),
{
    c == '_' || c == ','
}

fn is_digit_char(c: char) -> (r: bool)
    ensures
        r == is_ascii_digit(c),
{
    '0' <= c && c <= '9'
}

fn digit_value(c: char) -> (d: u32)
    ensures
        d == digit_val(c),
{
    if '0' <= c && c <= '9' {
        (c as u32) - 48
    } else if 'a' <= c && c <= 'z' {
        (c as u32) - 87
    } else if 'A' <= c && c <= 'Z' {
        (c as u32) - 55
    } else {
        36
    }
}

/// `s[from..]`.
fn tail(s: &[char], from: usize) -> (r: Vec<char>)
    requires
        from <= s.len(),
    ensures
        r@ == s@.subrange(from as int, s@.len() as int),
{
    let mut r: Vec<char> = Vec::new();
    crate::text::push_range(&mut r, s, from, s.len());
    r
}

/// `s[..to]`.
fn head(s: &[char], to: usize) -> (r: Vec<char>)
    requires
        to <= s.len(),
    ensures
        r@ == s@.subrange(0, to as int),
{
    let mut r: Vec<char> = Vec::new();
    crate::text::push_range(&mut r, s, 0, to);
    r
}

/// The text without its separators.
pub fn without_seps(s: &[char]) -> (r: Vec<char>)
    ensures
        r@ == drop_seps(s@),
{
    let mut r: Vec<char> = Vec::new();
    let mut i: usize = 0;
    while i < s.len()
        invariant
            i <= s.len(),
            r@ == drop_seps(s@.subrange(0, i as int)),
        decreases s.len() - i,
    {
        assert(s@.subrange(0, i + 1).drop_last() == s@.subrange(0, i as int));
        if !is_sep_char(s[i]) {
            r.push(s[i]);
        }
        i += 1;
    }
    assert(s@.subrange(0, s@.len() as int) == s@);
    r
}

fn digits_valid(t: &[char], radix: u32) -> (r: bool)
    ensures
        r == digits_ok(t@, radix as int),
{
    let mut k: usize = 0;
    while k < t.len() && is_sep_char(t[k])
        invariant
            k <= t.len(),
            skip_seps(t@, 0) == skip_seps(t@, k as int),
        decreases t.len() - k,
    {
        k += 1;
    }
    if k >= t.len() || digit_value(t[k]) >= radix {
        return false;
    }
    let mut i: usize = 0;
    while i < t.len()
        invariant
            i <= t.len(),
            forall|j: int| 0 <= j < i ==> is_digit_radix(#[trigger] t@[j], radix as int) || is_sep(t@[j]),
        decreases t.len() - i,
    {
        if !(digit_value(t[i]) < radix || is_sep_char(t[i])) {
            return false;
        }
        i += 1;
    }
    true
}

fn decimal_valid(b: &[char]) -> (r: bool)
    ensures
        r == decimal_ok(b@),
{
    if b.len() == 0 || !is_digit_char(b[0]) {
        return false;
    }
    let mut i: usize = 0;
    while i < b.len()
        invariant
            i <= b.len(),
            forall|j: int|
                0 <= j < i ==> is_ascii_digit(#[trigger] b@[j]) || (is_sep(b@[j]) && j + 1 < b@.len()
                    && is_ascii_digit(b@[j + 1])),
        decreases b.len() - i,
    {
        if !(is_digit_char(b[i]) || (is_sep_char(b[i]) && i + 1 < b.len() && is_digit_char(b[i + 1]))) {
            return false;
        }
        i += 1;
    }
    true
}

/// The value of digits and separators in `radix`, or `None` past `i64::MAX`.
fn digits_value(t: &[char], radix: u32) -> (r: Option<u64>)
    requires
        2 <= radix <= 16,
        forall|j: int| 0 <= j < t@.len() ==> is_digit_radix(#[trigger] t@[j], radix as int) || is_sep(t@[j]),
    ensures
        match r {
            Some(v) => v == radix_value(drop_seps(t@), radix as int) && v <= i64::MAX,
            None => radix_value(drop_seps(t@), radix as int) > i64::MAX,
        },
{
    let mut acc: u64 = 0;
    let mut i: usize = 0;
    while i < t.len()
        invariant
            2 <= radix <= 16,
            forall|j: int| 0 <= j < t@.len() ==> is_digit_radix(#[trigger] t@[j], radix as int) || is_sep(t@[j]),
            i <= t.len(),
            acc <= i64::MAX,
            acc == radix_value(drop_seps(t@.subrange(0, i as int)), radix as int),
        decreases t.len() - i,
    {
        let ghost pre = t@.subrange(0, i as int);
        assert(t@.subrange(0, i + 1).drop_last() == pre);
        if !is_sep_char(t[i]) {
            let d = digit_value(t[i]);
            assert(is_digit_radix(t@[i as int], radix as int));
            assert((acc as u128) * (radix as u128) <= 0x7fff_ffff_ffff_ffffu128 * 16) by (nonlinear_arith)
                requires
                    acc <= 0x7fff_ffff_ffff_ffffu64,
                    radix <= 16,
            ;
            let next: u128 = (acc as u128) * (radix as u128) + (d as u128);
            assert(drop_seps(t@.subrange(0, i + 1)) == drop_seps(pre).push(t@[i as int]));
            assert(drop_seps(pre).push(t@[i as int]).drop_last() == drop_seps(pre));
            if next > 0x7fff_ffff_ffff_ffff {
                proof {
                    let whole = t@.subrange(0, i + 1) + t@.subrange(i + 1, t@.len() as int);
                    assert(whole == t@);
                    lemma_drop_seps_append(t@.subrange(0, i + 1), t@.subrange(i + 1, t@.len() as int));
                    lemma_radix_value_grows(
                        drop_seps(t@.subrange(0, i + 1)),
                        drop_seps(t@.subrange(i + 1, t@.len() as int)),
                        radix as int,
                    );
                }
                return None;
            }
            acc = next as u64;
        }
        i += 1;
    }
    assert(t@.subrange(0, t@.len() as int) == t@);
    Some(acc)
}

/// Psych's INTEGER_LEGACY: binary, octal (leading 0), decimal and hex, with
/// `_` and `,` allowed.
pub fn parse_int(s: &[char]) -> (r: Option<i64>)
    ensures
        match r {
            Some(v) => parse_int_spec(s@) == Some(v as int),
            None => parse_int_spec(s@).is_none(),
        },
{
    let negative = s.len() > 0 && s[0] == '-';
    let start: usize = if s.len() > 0 && (s[0] == '-' || s[0] == '+') { 1 } else { 0 };
    let body = tail(s, start);
    assert(body@ == signed(s@).1);
    assert(negative == signed(s@).0);
    let n = body.len();
    let digits: Vec<char>;
    let radix: u32;
    if n >= 2 && body[0] == '0' && body[1] == 'b' {
        digits = tail(body.as_slice(), 2);
        radix = 2;
    } else if n >= 2 && body[0] == '0' && body[1] == 'x' {
        digits = tail(body.as_slice(), 2);
        radix = 16;
    } else if n == 1 && body[0] == '0' {
        assert(body@ =~= seq!['0']);
        proof {
            let z = seq!['0'];
            assert(z.drop_last() =~= Seq::<char>::empty());
            assert(drop_seps(z.drop_last()) == Seq::<char>::empty());
            assert(drop_seps(z) =~= z);
            assert(z.drop_last().len() == 0);
            assert(radix_value(z.drop_last(), 10) == 0);
            assert(radix_value(z, 10) == 0);
        }
        return Some(0);
    } else if n >= 1 && body[0] == '0' {
        assert(body@ != seq!['0']);
        digits = tail(body.as_slice(), 1);
        radix = 8;
    } else {
        assert(body@ != seq!['0']);
        if !decimal_valid(body.as_slice()) {
            return None;
        }
        digits = body;
        radix = 10;
    }
    if radix != 10 && !digits_valid(digits.as_slice(), radix) {
        return None;
    }
    assert(int_digits(signed(s@).1) == Some((digits@, radix as int)));
    match digits_value(digits.as_slice(), radix) {
        None => None,
        Some(v) => {
            let v = v as i64;
            if negative { Some(-v) } else { Some(v) }
        },
    }
}


/// The first position holding `a` or `b`.
fn find_either(s: &[char], a: char, b: char) -> (r: Option<usize>)
    ensures
        match r {
            Some(i) => i < s@.len() && find_char(s@, a, b, 0) == Some(i as int),
            None => find_char(s@, a, b, 0).is_none(),
        },
{
    let mut i: usize = 0;
    while i < s.len()
        invariant
            i <= s.len(),
            find_char(s@, a, b, 0) == find_char(s@, a, b, i as int),
        decreases s.len() - i,
    {
        if s[i] == a || s[i] == b {
            return Some(i);
        }
        i += 1;
    }
    None
}

fn digits_only(s: &[char]) -> (r: bool)
    ensures
        r == all_digits(s@),
{
    let mut i: usize = 0;
    while i < s.len()
        invariant
            i <= s.len(),
            forall|j: int| 0 <= j < i ==> is_ascii_digit(#[trigger] s@[j]),
        decreases s.len() - i,
    {
        if !is_digit_char(s[i]) {
            return false;
        }
        i += 1;
    }
    true
}

fn int_part_valid(p: &[char]) -> (r: bool)
    ensures
        r == int_part_ok(p@),
{
    if p.len() == 0 {
        return true;
    }
    if !is_digit_char(p[0]) {
        return false;
    }
    let mut i: usize = 0;
    while i < p.len()
        invariant
            i <= p.len(),
            forall|j: int| 0 <= j < i ==> is_ascii_digit(#[trigger] p@[j]) || is_sep(p@[j]),
        decreases p.len() - i,
    {
        if !(is_digit_char(p[i]) || is_sep_char(p[i])) {
            return false;
        }
        i += 1;
    }
    true
}

fn exponent_valid(x: &[char]) -> (r: bool)
    ensures
        r == exponent_ok(x@),
{
    if x.len() < 2 || !(x[0] == '+' || x[0] == '-') {
        return false;
    }
    let digits = tail(x, 1);
    digits_only(digits.as_slice())
}

/// Psych's FLOAT: the value of a float literal, or `None` when `s` is not one.
pub fn parse_float(s: &[char]) -> (r: Option<Value>)
    ensures
        match r {
            Some(v) => parse_float_spec(s@) == Some(v@),
            None => parse_float_spec(s@).is_none(),
        },
{
    let start: usize = if s.len() > 0 && (s[0] == '+' || s[0] == '-') { 1 } else { 0 };
    let body = tail(s, start);
    assert(body@ == (if s@.len() > 0 && (s@[0] == '+' || s@[0] == '-') {
        s@.subrange(1, s@.len() as int)
    } else {
        s@
    }));
    let d = match find_either(body.as_slice(), '.', '.') {
        None => return None,
        Some(d) => d,
    };
    let int_part = head(body.as_slice(), d);
    let rest = tail(body.as_slice(), d + 1);
    let (fraction, exponent): (Vec<char>, Option<Vec<char>>) = match find_either(rest.as_slice(), 'e', 'E') {
        Some(e) => (head(rest.as_slice(), e), Some(tail(rest.as_slice(), e + 1))),
        None => (rest, None),
    };
    if !int_part_valid(int_part.as_slice()) || !digits_only(fraction.as_slice()) {
        return None;
    }
    let has_exponent = exponent.is_some();
    match exponent {
        Some(x) => {
            if !exponent_valid(x.as_slice()) {
                return None;
            }
        },
        None => {},
    }
    if int_part.len() == 0 && fraction.len() == 0 {
        if has_exponent {
            return None;
        }
        return Some(Value::Str(string_of(s)));
    }
    let cleaned = without_seps(s);
    Some(Value::Float(FloatLit { text: string_of(cleaned.as_slice()) }))
}

/// Psych's `ScalarScanner#tokenize`, for the types a config file can hold.
pub fn resolve_plain(s: &str) -> (v: Value)
    ensures
        v@ == resolve_plain_spec(s@),
{
    let c = chars_of(s);
    if c.len() == 0 || (c.len() == 1 && c[0] == '~') || eq_ignore_case(c.as_slice(), "null") {
        if c.len() == 1 && c[0] == '~' {
            assert(c@ =~= seq!['~']);
        }
        return Value::Null;
    }
    assert(c@ != seq!['~']);
    if eq_ignore_case(c.as_slice(), "yes") || eq_ignore_case(c.as_slice(), "true") || eq_ignore_case(c.as_slice(), "on") {
        return Value::Bool(true);
    }
    if eq_ignore_case(c.as_slice(), "no") || eq_ignore_case(c.as_slice(), "false") || eq_ignore_case(c.as_slice(), "off") {
        return Value::Bool(false);
    }
    let negative = c[0] == '-';
    let start: usize = if c[0] == '-' || c[0] == '+' { 1 } else { 0 };
    let unsigned = tail(c.as_slice(), start);
    assert(unsigned@ == signed(c@).1);
    if eq_ignore_case(unsigned.as_slice(), ".inf") {
        let text = if negative { chars_of("-inf") } else { chars_of("inf") };
        return Value::Float(FloatLit { text: string_of(text.as_slice()) });
    }
    if eq_ignore_case(c.as_slice(), ".nan") {
        let text = chars_of("NaN");
        return Value::Float(FloatLit { text: string_of(text.as_slice()) });
    }
    if c.len() >= 2 && c[0] == ':' {
        let sym = tail(c.as_slice(), 1);
        let n = sym.len();
        let quoted = n >= 2 && ((sym[0] == '"' && sym[n - 1] == '"') || (sym[0] == '\'' && sym[n - 1] == '\''));
        if quoted {
            let inner = head(sym.as_slice(), n - 1);
            let inner = tail(inner.as_slice(), 1);
            assert(inner@ =~= sym@.subrange(1, n - 1));
            return Value::Str(string_of(inner.as_slice()));
        }
        return Value::Str(string_of(sym.as_slice()));
    }
    match parse_float(c.as_slice()) {
        Some(v) => return v,
        None => {},
    }
    match parse_int(c.as_slice()) {
        Some(i) => Value::Int(i),
        None => Value::Str(string_of(c.as_slice())),
    }
}

// ---------------------------------------------------------------------------
// Laws.
// ---------------------------------------------------------------------------

/// `s` spells the lower-case word `w`, each letter in either case.
pub open spec fn spelled_in_any_case(s: Seq<char>, w: Seq<char>) -> bool {
    s.len() == w.len() && forall|i: int|
        0 <= i < s.len() ==> #[trigger] s[i] == w[i] || (s[i] as int) + 32 == (w[i] as int) && 'a' <= w[i] <= 'z'
}

/// A word spelled in any case is equal, ignoring case, to that word and to
/// no other lower-case word.
proof fn lemma_spelled(s: Seq<char>, w: Seq<char>, other: Seq<char>)
    requires
        spelled_in_any_case(s, w),
        forall|i: int| 0 <= i < w.len() ==> 'a' <= #[trigger] w[i] <= 'z' || w[i] == '.',
        forall|i: int| 0 <= i < other.len() ==> 'a' <= #[trigger] other[i] <= 'z' || other[i] == '.',
    ensures
        ci_eq(s, other) == (w == other),
{
    assert forall|i: int| 0 <= i < s.len() implies lower(#[trigger] s[i]) == w[i] by {
        assert(s[i] == w[i] || (s[i] as int) + 32 == (w[i] as int));
    }
    if w.len() == other.len() {
        if ci_eq(s, other) {
            assert forall|i: int| 0 <= i < w.len() implies #[trigger] w[i] == other[i] by {
                assert(lower(s[i]) == lower(other[i]));
            }
            assert(w =~= other);
        }
        if w == other {
            assert forall|i: int| 0 <= i < s.len() implies lower(#[trigger] s[i]) == lower(other[i]) by {
                assert(lower(s[i]) == w[i]);
            }
        }
    }
}

/// Psych's null and booleans are words in any case: `null`, `Null` and `NULL`
/// (and `nUlL`) are null, as are the empty text and `~`; `yes`, `true` and
/// `on` are true; `no`, `false` and `off` are false.
pub proof fn law_null_and_booleans_in_any_case(s: Seq<char>)
    ensures
        (s.len() == 0 || s == seq!['~'] || spelled_in_any_case(s, seq!['n', 'u', 'l', 'l'])) ==> resolve_plain_spec(s)
            == ValueV::Null,
        (spelled_in_any_case(s, seq!['y', 'e', 's']) || spelled_in_any_case(s, seq!['t', 'r', 'u', 'e'])
            || spelled_in_any_case(s, seq!['o', 'n'])) ==> resolve_plain_spec(s) == ValueV::Bool(true),
        (spelled_in_any_case(s, seq!['n', 'o']) || spelled_in_any_case(s, seq!['f', 'a', 'l', 's', 'e'])
            || spelled_in_any_case(s, seq!['o', 'f', 'f'])) ==> resolve_plain_spec(s) == ValueV::Bool(false),
{
    reveal_strlit("null");
    reveal_strlit("yes");
    reveal_strlit("true");
    reveal_strlit("on");
    reveal_strlit("no");
    reveal_strlit("false");
    reveal_strlit("off");
    let words = seq!["null"@, "yes"@, "true"@, "on"@, "no"@, "false"@, "off"@];
    assert("null"@ =~= seq!['n', 'u', 'l', 'l']);
    assert("yes"@ =~= seq!['y', 'e', 's']);
    assert("true"@ =~= seq!['t', 'r', 'u', 'e']);
    assert("on"@ =~= seq!['o', 'n']);
    assert("no"@ =~= seq!['n', 'o']);
    assert("false"@ =~= seq!['f', 'a', 'l', 's', 'e']);
    assert("off"@ =~= seq!['o', 'f', 'f']);
    assert forall|j: int| 0 <= j < words.len() implies forall|i: int|
        0 <= i < #[trigger] words[j].len() ==> 'a' <= #[trigger] words[j][i] <= 'z' || words[j][i] == '.' by {}
    assert forall|j: int, k: int| 0 <= j < words.len() && 0 <= k < words.len() implies spelled_in_any_case(
        s,
        #[trigger] words[j],
    ) ==> ci_eq(s, #[trigger] words[k]) == (j == k) by {
        if spelled_in_any_case(s, words[j]) {
            lemma_spelled(s, words[j], words[k]);
            if j != k {
                assert(words[j] != words[k]) by {
                    if words[j].len() == words[k].len() {
                        assert(words[j][0] != words[k][0] || words[j][1] != words[k][1] || words[j][2] != words[k][2]);
                    }
                }
            }
        }
    }
    if spelled_in_any_case(s, seq!['n', 'u', 'l', 'l']) {
        assert(words[0] == seq!['n', 'u', 'l', 'l']);
    }
    assert(words[1] == seq!['y', 'e', 's'] && words[2] == seq!['t', 'r', 'u', 'e'] && words[3] == seq!['o', 'n']);
    assert(words[4] == seq!['n', 'o'] && words[5] == seq!['f', 'a', 'l', 's', 'e'] && words[6] == seq!['o', 'f', 'f']);
    if spelled_in_any_case(s, words[1]) || spelled_in_any_case(s, words[2]) || spelled_in_any_case(s, words[3])
        || spelled_in_any_case(s, words[4]) || spelled_in_any_case(s, words[5]) || spelled_in_any_case(s, words[6]) {
        assert(s.len() > 0 && s != seq!['~']) by {
            if s == seq!['~'] {
                assert(s[0] == '~');
            }
        }
    }
}

proof fn lemma_find_char_none(s: Seq<char>, a: char, b: char, i: int)
    requires
        0 <= i,
        forall|k: int| i <= k < s.len() ==> #[trigger] s[k] != a && s[k] != b,
    ensures
        find_char(s, a, b, i) is None,
    decreases s.len() - i,
{
    if i < s.len() {
        lemma_find_char_none(s, a, b, i + 1);
    }
}

/// A text that starts with a digit other than `0` and holds only digits and
/// separators is no word, symbol or float: it is an integer, or else itself.
proof fn lemma_decimal_text(s: Seq<char>)
    requires
        s.len() > 0,
        '1' <= s[0] <= '9',
        forall|k: int| 0 <= k < s.len() ==> is_ascii_digit(#[trigger] s[k]) || is_sep(s[k]),
    ensures
        resolve_plain_spec(s) == match parse_int_spec(s) {
            Some(v) => ValueV::Int(v),
            None => ValueV::Str(s),
        },
{
    reveal_strlit("null");
    reveal_strlit("yes");
    reveal_strlit("true");
    reveal_strlit("on");
    reveal_strlit("no");
    reveal_strlit("false");
    reveal_strlit("off");
    reveal_strlit(".inf");
    reveal_strlit(".nan");
    let words = seq!["null"@, "yes"@, "true"@, "on"@, "no"@, "false"@, "off"@, ".inf"@, ".nan"@];
    assert forall|j: int| 0 <= j < words.len() implies !ci_eq(s, #[trigger] words[j]) by {
        if ci_eq(s, words[j]) {
            assert(lower(s[0]) == lower(words[j][0]));
        }
    }
    assert(!ci_eq(s, words[0]) && !ci_eq(s, words[1]) && !ci_eq(s, words[2]) && !ci_eq(s, words[3]));
    assert(!ci_eq(s, words[4]) && !ci_eq(s, words[5]) && !ci_eq(s, words[6]) && !ci_eq(s, words[7]));
    assert(!ci_eq(s, words[8]));
    assert(signed(s).1 == s);
    assert(s != seq!['~']) by {
        if s == seq!['~'] {
            assert(s[0] == '~');
        }
    }
    lemma_find_char_none(s, '.', '.', 0);
    assert(parse_float_spec(s) is None);
}

/// Separators inside a decimal number change nothing: with `_` or `,`
/// between two runs of digits the text reads as the same integer as
/// without it (and where that integer does not fit, each text stays itself).
pub proof fn law_separators_do_not_change_a_number(a: Seq<char>, sep: char, b: Seq<char>)
    requires
        a.len() > 0 && b.len() > 0,
        '1' <= a[0] <= '9',
        all_digits(a) && all_digits(b),
        sep == '_' || sep == ',',
    ensures
        resolve_plain_spec(a + b) is Int || resolve_plain_spec(a + b) == ValueV::Str(a + b),
        resolve_plain_spec(a + seq![sep] + b) == match resolve_plain_spec(a + b) {
            ValueV::Int(v) => ValueV::Int(v),
            _ => ValueV::Str(a + seq![sep] + b),
        },
{
    let s1 = a + seq![sep] + b;
    let s2 = a + b;
    assert forall|k: int| 0 <= k < s1.len() implies is_ascii_digit(#[trigger] s1[k]) || is_sep(s1[k]) by {
        if k < a.len() {
            assert(s1[k] == a[k]);
        } else if k > a.len() {
            assert(s1[k] == b[k - a.len() - 1]);
        }
    }
    assert forall|k: int| 0 <= k < s2.len() implies is_ascii_digit(#[trigger] s2[k]) || is_sep(s2[k]) by {
        if k < a.len() {
            assert(s2[k] == a[k]);
        } else {
            assert(s2[k] == b[k - a.len()]);
        }
    }
    assert(s1[0] == a[0] && s2[0] == a[0]);
    lemma_decimal_text(s1);
    lemma_decimal_text(s2);
    // Both are decimal literals of the same digits.
    assert(decimal_ok(s1)) by {
        assert forall|k: int| 0 <= k < s1.len() implies is_ascii_digit(#[trigger] s1[k]) || (is_sep(s1[k]) && k + 1
            < s1.len() && is_ascii_digit(s1[k + 1])) by {
            if k < a.len() {
                assert(s1[k] == a[k]);
            } else if k == a.len() {
                assert(s1[k + 1] == b[0]);
            } else {
                assert(s1[k] == b[k - a.len() - 1]);
            }
        }
    }
    assert(decimal_ok(s2)) by {
        assert forall|k: int| 0 <= k < s2.len() implies is_ascii_digit(#[trigger] s2[k]) by {
            if k < a.len() {
                assert(s2[k] == a[k]);
            } else {
                assert(s2[k] == b[k - a.len()]);
            }
        }
    }
    assert(signed(s1) == (false, s1));
    assert(signed(s2) == (false, s2));
    assert(int_digits(s1) == Some((s1, 10int))) by {
        if s1 == seq!['0'] {
            assert(s1[0] == '0');
        }
    }
    assert(int_digits(s2) == Some((s2, 10int))) by {
        if s2 == seq!['0'] {
            assert(s2[0] == '0');
        }
    }
    lemma_drop_seps_append(a + seq![sep], b);
    lemma_drop_seps_append(a, seq![sep]);
    lemma_drop_seps_append(a, b);
    assert(drop_seps(seq![sep]) == Seq::<char>::empty()) by {
        let one = seq![sep];
        assert(one.last() == sep && is_sep(sep));
        assert(one.drop_last() =~= Seq::<char>::empty());
        assert(drop_seps(one.drop_last()) == Seq::<char>::empty());
    }
    assert(drop_seps(a) + Seq::<char>::empty() == drop_seps(a));
    assert(drop_seps(s1) == drop_seps(s2));
}

} // verus!
