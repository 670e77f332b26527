//! Rendering of integers as decimal text, substring search and joining,
//! the small pieces of text handling the formula printers are built from.
use vstd::prelude::*;
use vstd::string::*;

verus! {

/// The text of one decimal digit.
pub open spec fn digit_text(d: int) -> Seq<char> {
    if d == 0 { "0"@ }
    else if d == 1 { "1"@ }
    else if d == 2 { "2"@ }
    else if d == 3 { "3"@ }
    else if d == 4 { "4"@ }
    else if d == 5 { "5"@ }
    else if d == 6 { "6"@ }
    else if d == 7 { "7"@ }
    else if d == 8 { "8"@ }
    else { "9"@ }
}

/// Decimal digits of a natural number, most significant first, no leading zeros.
pub open spec fn nat_decimal(n: nat) -> Seq<char>
    decreases n,
{
    if n < 10 {
        digit_text(n as int)
    } else {
        nat_decimal(n / 10) + digit_text((n % 10) as int)
    }
}

/// Decimal text of an integer, with a leading `-` for negative values.
pub open spec fn int_decimal(v: int) -> Seq<char> {
    if v < 0 { "-"@ + nat_decimal((-v) as nat) } else { nat_decimal(v as nat) }
}

fn digit_str(d: u64) -> (s: &'static str)
    requires
        d < 10,
    ensures
        s@ == digit_text(d as int),
{
    if d == 0 { "0" }
    else if d == 1 { "1" }
    else if d == 2 { "2" }
    else if d == 3 { "3" }
    else if d == 4 { "4" }
    else if d == 5 { "5" }
    else if d == 6 { "6" }
    else if d == 7 { "7" }
    else if d == 8 { "8" }
    else { "9" }
}

/// Appends the decimal digits of `n` to `out`.
fn append_nat_decimal(out: &mut String, n: u64)
    ensures
        final(out)@ == old(out)@ + nat_decimal(n as nat),
    decreases n,
{
    if n < 10 {
        out.append(digit_str(n));
    } else {
        append_nat_decimal(out, n / 10);
        out.append(digit_str(n % 10));
    }
}

/// Decimal text of an unsigned value, as `{}` formats it.
pub fn u64_to_decimal(n: u64) -> (s: String)
    ensures
        s@ == nat_decimal(n as nat),
{
    let mut s = String::new();
    append_nat_decimal(&mut s, n);
    assert(s@ =~= nat_decimal(n as nat));
    s
}

/// Decimal text of a signed value, as `{}` formats it.
pub fn i64_to_decimal(v: i64) -> (s: String)
    ensures
        s@ == int_decimal(v as int),
{
    let mut s = String::new();
    if v < 0 {
        s.append("-");
        // magnitude of v, computed without overflow for i64::MIN
        let m: u64 = if v == i64::MIN { 9223372036854775808u64 } else { (-v) as u64 };
        append_nat_decimal(&mut s, m);
    } else {
        append_nat_decimal(&mut s, v as u64);
    }
    assert(s@ =~= int_decimal(v as int));
    s
}

/// The characters of a string slice, in order.
pub fn chars_of(s: &str) -> (v: Vec<char>)
    ensures
        v@ == s@,
{
    broadcast use vstd::string::axiom_spec_iter;
    let mut v: Vec<char> = Vec::new();
    for c in it: s.chars()
        invariant
            v@ == it.seq().take(it.index() as int),
    {
        v.push(c);
    }
    assert(v@ =~= s@);
    v
}

/// The parts joined with `sep` between consecutive parts.
pub open spec fn spec_join(parts: Seq<Seq<char>>, sep: Seq<char>) -> Seq<char>
    decreases parts.len(),
{
    if parts.len() == 0 {
        Seq::empty()
    } else if parts.len() == 1 {
        parts[0]
    } else {
        spec_join(parts.drop_last(), sep) + sep + parts.last()
    }
}

/// One step of building a joined text: joining one more part.
pub proof fn lemma_join_step(parts: Seq<Seq<char>>, sep: Seq<char>, i: int)
    requires
        0 <= i < parts.len(),
    ensures
        spec_join(parts.take(i + 1), sep) == if i == 0 { parts[0] } else {
            spec_join(parts.take(i), sep) + sep + parts[i]
        },
{
    assert(parts.take(i + 1).drop_last() =~= parts.take(i));
    if i == 0 {
        assert(parts.take(1)[0] == parts[0]);
    }
}

/// The decimal texts of a list of values.
pub open spec fn decimal_parts(values: Seq<i64>) -> Seq<Seq<char>> {
    values.map_values(|v: i64| int_decimal(v as int))
}

/// The values in decimal, separated by `sep`.
pub fn join_decimals(values: &Vec<i64>, sep: &str) -> (s: String)
    ensures
        s@ == spec_join(decimal_parts(values@), sep@),
{
    let mut s = String::new();
    let n = values.len();
    let ghost parts = decimal_parts(values@);
    for i in 0..n
        invariant
            n == values@.len(),
            parts == decimal_parts(values@),
            s@ == spec_join(parts.take(i as int), sep@),
    {
        proof { lemma_join_step(parts, sep@, i as int); }
        if i > 0 {
            s.append(sep);
        }
        let d = i64_to_decimal(values[i]);
        s.append(&d);
    }
    assert(parts.take(n as int) =~= parts);
    s
}

/// `needle` occurs in `hay` as a contiguous block starting at `i`.
pub open spec fn occurs_at(hay: Seq<char>, needle: Seq<char>, i: int) -> bool {
    0 <= i && i + needle.len() <= hay.len() && hay.subrange(i, i + needle.len()) == needle
}

/// `needle` occurs somewhere in `hay`.
pub open spec fn seq_contains_text(hay: Seq<char>, needle: Seq<char>) -> bool {
    exists|i: int| occurs_at(hay, needle, i)
}

/// Substring test, as `str::contains` with a `&str` pattern answers it.
pub fn str_contains(hay: &str, needle: &str) -> (r: bool)
    ensures
        r == seq_contains_text(hay@, needle@),
{
    let hay_v = chars_of(hay);
    let needle_v = chars_of(needle);
    let hn = hay_v.len();
    let nn = needle_v.len();
    if nn > hn {
        assert(!seq_contains_text(hay@, needle@)) by {
            assert forall|i: int| !occurs_at(hay@, needle@, i) by {}
        }
        return false;
    }
    let last = hn - nn;
    let mut i: usize = 0;
    loop
        invariant
            hay_v@ == hay@,
            needle_v@ == needle@,
            hn == hay@.len(),
            nn == needle@.len(),
            last == hn - nn,
            i <= last,
            forall|k: int| 0 <= k < i ==> !occurs_at(hay@, needle@, k),
        decreases last - i,
    {
        let mut j: usize = 0;
        let mut ok = true;
        while j < nn
            invariant
                hay_v@ == hay@,
                needle_v@ == needle@,
                hn == hay@.len(),
                nn == needle@.len(),
                i + nn <= hn,
                j <= nn,
                ok ==> forall|t: int| 0 <= t < j ==> hay@[i + t] == needle@[t],
                !ok ==> !occurs_at(hay@, needle@, i as int),
            decreases nn - j,
        {
            if hay_v[i + j] != needle_v[j] {
                ok = false;
                assert(hay@.subrange(i as int, i + nn)[j as int] != needle@[j as int]);
            }
            j = j + 1;
        }
        if ok {
            assert(hay@.subrange(i as int, i + nn) =~= needle@);
            assert(occurs_at(hay@, needle@, i as int));
            return true;
        }
        if i == last {
            assert forall|k: int| !occurs_at(hay@, needle@, k) by {
                if 0 <= k && k + nn <= hn {
                    assert(k <= i);
                }
            }
            return false;
        }
        i = i + 1;
    }
}

} // verus!

verus! {

/// The text of one hexadecimal digit, lower case.
pub open spec fn hex_digit_text(d: int) -> Seq<char> {
    if d < 10 { digit_text(d) }
    else if d == 10 { "a"@ }
    else if d == 11 { "b"@ }
    else if d == 12 { "c"@ }
    else if d == 13 { "d"@ }
    else if d == 14 { "e"@ }
    else { "f"@ }
}

/// Lower-case hexadecimal digits of a natural number, no leading zeros.
pub open spec fn nat_hex(n: nat) -> Seq<char>
    decreases n,
{
    if n < 16 {
        hex_digit_text(n as int)
    } else {
        nat_hex(n / 16) + hex_digit_text((n % 16) as int)
    }
}

/// `s` with zeros in front up to `width` characters.
pub open spec fn zero_padded(s: Seq<char>, width: nat) -> Seq<char> {
    if s.len() >= width { s } else { Seq::new((width - s.len()) as nat, |i: int| '0') + s }
}

fn hex_digit_str(d: u64) -> (s: &'static str)
    requires
        d < 16,
    ensures
        s@ == hex_digit_text(d as int),
{
    if d < 10 { digit_str(d) }
    else if d == 10 { "a" }
    else if d == 11 { "b" }
    else if d == 12 { "c" }
    else if d == 13 { "d" }
    else if d == 14 { "e" }
    else { "f" }
}

fn append_nat_hex(out: &mut String, n: u64)
    ensures
        final(out)@ == old(out)@ + nat_hex(n as nat),
    decreases n,
{
    if n < 16 {
        out.append(hex_digit_str(n));
    } else {
        append_nat_hex(out, n / 16);
        out.append(hex_digit_str(n % 16));
    }
}

/// Hexadecimal text of an unsigned value, as `{:x}` formats it.
pub fn u64_to_hex(n: u64) -> (s: String)
    ensures
        s@ == nat_hex(n as nat),
{
    let mut s = String::new();
    append_nat_hex(&mut s, n);
    assert(s@ =~= nat_hex(n as nat));
    s
}

/// Hexadecimal text of an unsigned value with zeros in front up to
/// `width` digits, as `{:0width$x}` formats it.
pub fn u64_to_hex_padded(n: u64, width: usize) -> (s: String)
    ensures
        s@ == zero_padded(nat_hex(n as nat), width as nat),
{
    let digits = u64_to_hex(n);
    let len = digits.as_str().unicode_len();
    if len >= width {
        return digits;
    }
    let mut s = String::new();
    proof {
        reveal_strlit("0");
    }
    let pad = width - len;
    for i in 0..pad
        invariant
            s@ == Seq::new(i as nat, |k: int| '0'),
            "0"@ == seq!['0'],
    {
        s.append("0");
        assert(s@ =~= Seq::new((i + 1) as nat, |k: int| '0'));
    }
    s.append(digits.as_str());
    s
}

} // verus!
