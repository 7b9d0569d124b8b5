//! Moving between `str` and the character vectors the matchers work on.

use vstd::prelude::*;

verus! {

/// The characters of `s`, in order.
pub fn chars_of(s: &str) -> (r: Vec<char>)
    ensures r@ == s@,
{
    let mut r: Vec<char> = Vec::new();
    for c in it: s.chars()
        invariant
            r@ == it.seq().take(it.index() as int),
    {
        r.push(c);
    }
    r
}

/// The string made of `chars`: std's `FromIterator<&char>` for `String`.
#[verifier::external_body]
pub(crate) fn string_of(chars: &[char]) -> (r: String)
    ensures r@ == chars@,
{
    chars.iter().collect()
}

/// Appends `src[from..to]` to `v`.
pub fn push_range(v: &mut Vec<char>, src: &[char], from: usize, to: usize)
    requires from <= to <= src.len(),
    ensures final(v)@ == old(v)@ + src@.subrange(from as int, to as int),
{
    let mut i = from;
    while i < to
        invariant
            from <= i <= to <= src.len(),
            v@ == old(v)@ + src@.subrange(from as int, i as int),
        decreases to - i,
    {
        v.push(src[i]);
        i += 1;
        assert(src@.subrange(from as int, i as int) == src@.subrange(from as int, i - 1) + seq![src@[i - 1]]);
    }
}

/// Appends the characters of `s` to `v`.
pub fn append(v: &mut Vec<char>, s: &str)
    ensures final(v)@ == old(v)@ + s@,
{
    let ghost start = v@;
    for c in it: s.chars()
        invariant
            v@ == start + it.seq().take(it.index() as int),
    {
        v.push(c);
    }
}

/// Appends all of `src` to `v`.
pub fn extend(v: &mut Vec<char>, src: &[char])
    ensures final(v)@ == old(v)@ + src@,
{
    push_range(v, src, 0, src.len());
    assert(src@.subrange(0, src@.len() as int) == src@);
}

/// The character of a decimal digit.
pub open spec fn digit_char(d: int) -> char {
    (d + 48) as char
}

/// The decimal digits of `n`.
pub open spec fn nat_text(n: nat) -> Seq<char>
    decreases n,
{
    if n < 10 {
        seq![digit_char(n as int)]
    } else {
        nat_text(n / 10) + seq![digit_char((n % 10) as int)]
    }
}

/// An integer in decimal, with a leading `-` when negative.
pub open spec fn int_text(i: int) -> Seq<char> {
    if i < 0 {
        seq!['-'] + nat_text((-i) as nat)
    } else {
        nat_text(i as nat)
    }
}

fn digit(d: u64) -> (c: char)
    requires
        d < 10,
    ensures
        c == digit_char(d as int),
{
    let b: u8 = (d as u8) + 48;
    b as char
}

/// Appends the decimal digits of `n`.
pub fn push_nat(v: &mut Vec<char>, n: u64)
    ensures
        final(v)@ == old(v)@ + nat_text(n as nat),
    decreases n,
{
    if n >= 10 {
        push_nat(v, n / 10);
    }
    v.push(digit(n % 10));
    assert(nat_text(n as nat) == if n < 10 { seq![digit_char(n as int)] } else { nat_text((n / 10) as nat) + seq![digit_char((n % 10) as int)] });
}

/// Appends `i` in decimal.
pub fn push_int(v: &mut Vec<char>, i: i64)
    ensures
        final(v)@ == old(v)@ + int_text(i as int),
{
    if i < 0 {
        v.push('-');
        let m: i128 = -(i as i128);
        push_nat(v, m as u64);
    } else {
        push_nat(v, i as u64);
    }
}

/// Whether two strings hold the same characters.
pub fn str_eq(a: &str, b: &str) -> (r: bool)
    ensures
        r == (a@ == b@),
{
    let x = chars_of(a);
    let y = chars_of(b);
    if x.len() != y.len() {
        return false;
    }
    let mut i: usize = 0;
    while i < x.len()
        invariant
            x.len() == y.len(),
            x@ == a@,
            y@ == b@,
            i <= x.len(),
            forall|j: int| 0 <= j < i ==> x@[j] == y@[j],
        decreases x.len() - i,
    {
        if x[i] != y[i] {
            return false;
        }
        i += 1;
    }
    assert(x@ =~= y@);
    true
}

/// The parts, separated by `sep`.
pub open spec fn join(parts: Seq<Seq<char>>, sep: Seq<char>) -> Seq<char>
    decreases parts.len(),
{
    if parts.len() == 0 {
        Seq::empty()
    } else if parts.len() == 1 {
        parts[0]
    } else {
        join(parts.drop_last(), sep) + sep + parts.last()
    }
}

/// Appends the parts, separated by `sep`.
pub fn push_join(out: &mut Vec<char>, parts: &Vec<Vec<char>>, sep: &str)
    ensures
        final(out)@ == old(out)@ + join(deep(parts@), sep@),
{
    let ghost start = out@;
    let mut i: usize = 0;
    while i < parts.len()
        invariant
            i <= parts.len(),
            out@ == start + join(deep(parts@).subrange(0, i as int), sep@),
        decreases parts.len() - i,
    {
        if i > 0 {
            append(out, sep);
        }
        extend(out, parts[i].as_slice());
        proof {
            let d = deep(parts@);
            let pre = d.subrange(0, i + 1);
            assert(pre.drop_last() == d.subrange(0, i as int));
            assert(pre.last() == parts@[i as int]@);
            if i == 0 {
                assert(d.subrange(0, 0).len() == 0);
                assert(out@ =~= start + join(pre, sep@));
            } else {
                assert(out@ =~= start + join(pre, sep@));
            }
        }
        i += 1;
    }
    assert(deep(parts@).subrange(0, parts@.len() as int) == deep(parts@));
}

/// A copy of a vector of characters.
pub fn copy_chars(v: &Vec<char>) -> (r: Vec<char>)
    ensures
        r@ == v@,
{
    let mut r: Vec<char> = Vec::new();
    extend(&mut r, v.as_slice());
    r
}

/// The view of each vector.
pub open spec fn deep(v: Seq<Vec<char>>) -> Seq<Seq<char>> {
    v.map_values(|x: Vec<char>| x@)
}

pub proof fn lemma_deep_push(v: Seq<Vec<char>>, x: Vec<char>)
    ensures
        deep(v.push(x)) == deep(v).push(x@),
{
    assert(deep(v.push(x)) =~= deep(v).push(x@));
}

pub proof fn lemma_deep_drop_last(v: Seq<Vec<char>>)
    requires
        v.len() > 0,
    ensures
        deep(v.drop_last()) == deep(v).drop_last(),
{
    assert(deep(v.drop_last()) =~= deep(v).drop_last());
}

/// Rust's `char::is_whitespace`: Unicode's White_Space property.
pub open spec fn is_white(c: char) -> bool {
    let n = c as int;
    (0x9 <= n <= 0xd) || n == 0x20 || n == 0x85 || n == 0xa0 || n == 0x1680 || (0x2000 <= n <= 0x200a) || n
        == 0x2028 || n == 0x2029 || n == 0x202f || n == 0x205f || n == 0x3000
}

/// `char::is_whitespace`.
pub fn is_white_char(c: char) -> (r: bool)
    ensures
        r == is_white(c),
{
    let n = c as u32;
    (0x9 <= n && n <= 0xd) || n == 0x20 || n == 0x85 || n == 0xa0 || n == 0x1680 || (0x2000 <= n && n <= 0x200a)
        || n == 0x2028 || n == 0x2029 || n == 0x202f || n == 0x205f || n == 0x3000
}

/// `str::trim_end`: without trailing whitespace.
pub open spec fn trim_end_white(s: Seq<char>) -> Seq<char>
    decreases s.len(),
{
    if s.len() > 0 && is_white(s.last()) { trim_end_white(s.drop_last()) } else { s }
}

/// `str::trim_start`: without leading whitespace.
pub open spec fn trim_start_white(s: Seq<char>) -> Seq<char>
    decreases s.len(),
{
    if s.len() > 0 && is_white(s[0]) { trim_start_white(s.drop_first()) } else { s }
}

/// `str::trim_end`, on characters.
pub fn trim_end(s: &[char]) -> (r: Vec<char>)
    ensures
        r@ == trim_end_white(s@),
{
    let mut e: usize = s.len();
    assert(s@.subrange(0, e as int) == s@);
    while e > 0 && is_white_char(s[e - 1])
        invariant
            e <= s.len(),
            trim_end_white(s@) == trim_end_white(s@.subrange(0, e as int)),
        decreases e,
    {
        assert(s@.subrange(0, e as int).drop_last() == s@.subrange(0, e - 1));
        e -= 1;
    }
    let mut r: Vec<char> = Vec::new();
    push_range(&mut r, s, 0, e);
    assert(r@ =~= s@.subrange(0, e as int));
    r
}

/// `str::trim`, on characters: without leading and trailing whitespace.
pub fn trim(s: &[char]) -> (r: Vec<char>)
    ensures
        r@ == trim_start_white(trim_end_white(s@)),
{
    let t = trim_end(s);
    let mut b: usize = 0;
    assert(t@.subrange(0, t.len() as int) == t@);
    while b < t.len() && is_white_char(t[b])
        invariant
            b <= t.len(),
            trim_start_white(t@) == trim_start_white(t@.subrange(b as int, t.len() as int)),
        decreases t.len() - b,
    {
        assert(t@.subrange(b as int, t.len() as int).drop_first() == t@.subrange(b + 1, t.len() as int));
        b += 1;
    }
    let mut r: Vec<char> = Vec::new();
    push_range(&mut r, t.as_slice(), b, t.len());
    assert(r@ =~= t@.subrange(b as int, t.len() as int));
    r
}

} // verus!
