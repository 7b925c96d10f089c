use vstd::prelude::*;
use crate::coord::{Coord, COORD_LIMIT, in_range};

verus! {

pub open spec fn is_digit(c: char) -> bool {
    '0' <= c && c <= '9'
}

pub open spec fn digit_value(c: char) -> int {
    c as int - '0' as int
}

pub open spec fn digit_char(d: int) -> char {
    if d == 0 { '0' } else if d == 1 { '1' } else if d == 2 { '2' } else if d == 3 { '3' }
    else if d == 4 { '4' } else if d == 5 { '5' } else if d == 6 { '6' } else if d == 7 { '7' }
    else if d == 8 { '8' } else { '9' }
}

pub open spec fn all_digits(s: Seq<char>) -> bool {
    forall|i: int| 0 <= i < s.len() ==> is_digit(#[trigger] s[i])
}

/// Value of a string of decimal digits.
pub open spec fn digits_value(s: Seq<char>) -> int
    decreases s.len(),
{
    if s.len() == 0 {
        0
    } else {
        digits_value(s.drop_last()) * 10 + digit_value(s.last())
    }
}

/// Decimal digits of `n`, without leading zeros.
pub open spec fn nat_text(n: nat) -> Seq<char>
    decreases n,
{
    if n < 10 {
        seq![digit_char(n as int)]
    } else {
        nat_text(n / 10).push(digit_char((n % 10) as int))
    }
}

/// Fractional part of `f` hundredths: nothing for zero, else a point and one
/// or two digits, without a trailing zero.
pub open spec fn frac_text(f: int) -> Seq<char> {
    if f == 0 {
        Seq::empty()
    } else if f % 10 == 0 {
        seq!['.', digit_char(f / 10)]
    } else {
        seq!['.', digit_char(f / 10), digit_char(f % 10)]
    }
}

pub open spec fn abs(v: int) -> int {
    if v < 0 { -v } else { v }
}

/// Decimal text of `v` hundredths, as in "-11.3" for -1130.
pub open spec fn num_text(v: int) -> Seq<char> {
    (if v < 0 { seq!['-'] } else { Seq::empty() }) + nat_text((abs(v) / 100) as nat) + frac_text(abs(v) % 100)
}

/// Text form of a coordinate: "N<northing>E<easting>", in metres.
pub open spec fn coord_text(c: Coord) -> Seq<char> {
    seq!['N'] + num_text(c.n as int) + seq!['E'] + num_text(c.e as int)
}

/// Hundredths given by the digits after a decimal point: the first two
/// count, later ones are dropped (the value is truncated to the centimetre).
pub open spec fn cents(f: Seq<char>) -> int {
    if f.len() == 0 {
        0
    } else if f.len() == 1 {
        digit_value(f[0]) * 10
    } else {
        digit_value(f[0]) * 10 + digit_value(f[1])
    }
}

/// Hundredths in an unsigned decimal: digits with at most one point and at
/// least one digit ("5", "5.", ".5", "6789745.123"). Digits after the second
/// decimal are dropped, truncating toward zero.
pub open spec fn parse_unsigned(s: Seq<char>) -> Option<int> {
    let p = find(s, '.', 0);
    if p < s.len() {
        let a = s.subrange(0, p);
        let f = s.subrange(p + 1, s.len() as int);
        if all_digits(a) && all_digits(f) && a.len() + f.len() >= 1 {
            Some(digits_value(a) * 100 + cents(f))
        } else {
            None
        }
    } else if s.len() >= 1 && all_digits(s) {
        Some(digits_value(s) * 100)
    } else {
        None
    }
}

/// Hundredths in a decimal with an optional leading minus, when in range.
pub open spec fn parse_number(s: Seq<char>) -> Option<int> {
    let v = if s.len() >= 1 && s[0] == '-' {
        match parse_unsigned(s.drop_first()) {
            Some(u) => Some(-u),
            None => None,
        }
    } else {
        parse_unsigned(s)
    };
    match v {
        Some(x) => if in_range(x) { Some(x) } else { None },
        None => None,
    }
}

/// Position of the first `c` at or after `i`, or the length when there is none.
pub open spec fn find(s: Seq<char>, c: char, i: int) -> int
    decreases s.len() - i,
{
    if i >= s.len() || i < 0 {
        s.len() as int
    } else if s[i] == c {
        i
    } else {
        find(s, c, i + 1)
    }
}

/// The coordinate that a text in the "N<northing>E<easting>" form denotes.
pub open spec fn parse_text(s: Seq<char>) -> Option<Coord> {
    if s.len() >= 1 && s[0] == 'N' {
        let k = find(s, 'E', 1);
        if k < s.len() {
            match (parse_number(s.subrange(1, k)), parse_number(s.subrange(k + 1, s.len() as int))) {
                (Some(n), Some(e)) => Some(Coord { e: e as i32, n: n as i32 }),
                _ => None,
            }
        } else {
            None
        }
    } else {
        None
    }
}

pub open spec fn named(s: Seq<char>) -> Option<Seq<char>> {
    if s == "Austerdalsbreen"@ {
        Some("N6857378.59E74028.82"@)
    } else if s == "Bukkehåmåren"@ {
        Some("N6831287.57E165104.69"@)
    } else if s == "Dalegubben"@ {
        Some("N6929342.17E55699.65"@)
    } else if s == "Dørålseter"@ {
        Some("N6884975.42E228065.39"@)
    } else if s == "Galdhøpiggen"@ {
        Some("N6851889.09E146005.17"@)
    } else if s == "Giklingdalen"@ {
        Some("N6968433.83E181437.49"@)
    } else if s == "Gråkallen"@ {
        Some("N7041229.73E263033.76"@)
    } else if s == "Higravtind"@ {
        Some("N7582614.25E491443.74"@)
    } else if s == "Innerdalen"@ {
        Some("N6970663.77E181965.81"@)
    } else if s == "Jønshornet"@ {
        Some("N6939567.47E51789.75"@)
    } else if s == "Koven"@ {
        Some("N7801561.74E796000.84"@)
    } else if s == "Kufot"@ {
        Some("N7777944.37E829160.64"@)
    } else if s == "Litjdalen"@ {
        Some("N6957527.09E167573.23"@)
    } else if s == "Litlefjellet"@ {
        Some("N6951428.83E129294.17"@)
    } else if s == "Lodalskåpa"@ {
        Some("N6875511.46E89605.11"@)
    } else if s == "Loenvatnet"@ {
        Some("N6878404.9E78921.26"@)
    } else if s == "Neådalssnota"@ {
        Some("N6975732.57E196332.68"@)
    } else if s == "Nordre Sætertind"@ {
        Some("N6934326.09E52020.75"@)
    } else if s == "Nordre Trolltind"@ {
        Some("N6949920.69E125714.78"@)
    } else if s == "Olsanestinden"@ {
        Some("N7590523.96E503865.44"@)
    } else if s == "Midtronden"@ {
        Some("N6878653.14E230391.25"@)
    } else if s == "Olstinden"@ {
        Some("N7539262.19E419471.91"@)
    } else if s == "Rødøyløva"@ {
        Some("N7396875.03E413808.27"@)
    } else if s == "Sanna"@ {
        Some("N7379422.66E368557.76"@)
    } else if s == "Sautso"@ {
        Some("N7761024.88E838717.86"@)
    } else if s == "Slogen"@ {
        Some("N6925227.33E67695.5"@)
    } else if s == "Smedhamran"@ {
        Some("N6877556.88E225420.61"@)
    } else if s == "Smørstabbtindan"@ {
        Some("N6844576.5E135670.28"@)
    } else if s == "Snøheim"@ {
        Some("N6919748.71E207190.05"@)
    } else if s == "Snøhetta"@ {
        Some("N6922988.3E203182.98"@)
    } else if s == "Stetinden"@ {
        Some("N7562126.7E566097.85"@)
    } else if s == "Store Knutholstind"@ {
        Some("N6827003.55E156852.26"@)
    } else if s == "Store Ringstind"@ {
        Some("N6833238.42E116579.44"@)
    } else if s == "Store Skagastølstind"@ {
        Some("N6834962.93E120609"@)
    } else if s == "Store Vengetind"@ {
        Some("N6951177.34E131787.15"@)
    } else if s == "Storsylen"@ {
        Some("N6990928.53E358250.73"@)
    } else if s == "Torghatten"@ {
        Some("N7255964.08E364892.09"@)
    } else {
        None
    }
}

/// What a coordinate string denotes: a named place, or the numeric form.
pub open spec fn parse_spec(s: Seq<char>) -> Option<Coord> {
    match named(s) {
        Some(v) => parse_text(v),
        None => parse_text(s),
    }
}

fn digit_str(d: u32) -> (r: &'static str)
    requires
        d < 10,
    ensures
        r@ == seq![digit_char(d as int)],
{
    proof {
        reveal_strlit("0"); reveal_strlit("1"); reveal_strlit("2"); reveal_strlit("3");
        reveal_strlit("4"); reveal_strlit("5"); reveal_strlit("6"); reveal_strlit("7");
        reveal_strlit("8"); reveal_strlit("9");
    }
    if d == 0 { "0" } else if d == 1 { "1" } else if d == 2 { "2" } else if d == 3 { "3" }
    else if d == 4 { "4" } else if d == 5 { "5" } else if d == 6 { "6" } else if d == 7 { "7" }
    else if d == 8 { "8" } else { "9" }
}

fn push_nat(s: &mut String, n: u32)
    ensures
        final(s)@ == old(s)@ + nat_text(n as nat),
    decreases n,
{
    if n >= 10 {
        push_nat(s, n / 10);
    }
    s.append(digit_str(n % 10));
    proof {
        if n >= 10 {
            assert(final(s)@ =~= old(s)@ + nat_text(n as nat));
        } else {
            assert(final(s)@ =~= old(s)@ + nat_text(n as nat));
        }
    }
}

fn push_num(s: &mut String, v: i32)
    requires
        in_range(v as int),
    ensures
        final(s)@ == old(s)@ + num_text(v as int),
{
    let ghost s0 = s@;
    let a: u32 = if v < 0 {
        proof { reveal_strlit("-"); }
        s.append("-");
        (-(v as i64)) as u32
    } else {
        v as u32
    };
    let ghost s1 = s@;
    push_nat(s, a / 100);
    let f = a % 100;
    if f != 0 {
        proof { reveal_strlit("."); }
        s.append(".");
        s.append(digit_str(f / 10));
        if f % 10 != 0 {
            s.append(digit_str(f % 10));
        }
    }
    proof {
        assert(a as int == abs(v as int));
        assert(s@ =~= s0 + num_text(v as int));
    }
}

proof fn lemma_digits_nonneg(s: Seq<char>)
    requires
        all_digits(s),
    ensures
        digits_value(s) >= 0,
    decreases s.len(),
{
    if s.len() > 0 {
        lemma_digits_nonneg(s.drop_last());
    }
}

/// A prefix of a digit string has no larger value.
proof fn lemma_digits_prefix(s: Seq<char>, j: int)
    requires
        all_digits(s),
        0 <= j <= s.len(),
    ensures
        digits_value(s.subrange(0, j)) <= digits_value(s),
    decreases s.len(),
{
    if j < s.len() {
        let d = s.drop_last();
        assert(d.subrange(0, j) =~= s.subrange(0, j));
        lemma_digits_prefix(d, j);
        lemma_digits_nonneg(d);
    } else {
        assert(s.subrange(0, j) =~= s);
    }
}

/// The two strings hold the same characters.
pub fn str_eq(a: &str, b: &str) -> (r: bool)
    ensures
        r == (a@ == b@),
{
    let n = a.unicode_len();
    if n != b.unicode_len() {
        return false;
    }
    let mut i: usize = 0;
    while i < n
        invariant
            n == a@.len(),
            n == b@.len(),
            i <= n,
            forall|j: int| 0 <= j < i ==> a@[j] == b@[j],
        decreases n - i,
    {
        if a.get_char(i) != b.get_char(i) {
            return false;
        }
        i = i + 1;
    }
    assert(a@ =~= b@);
    true
}

fn named_location(s: &str) -> (r: Option<&'static str>)
    ensures
        match r {
            Some(v) => named(s@) == Some(v@),
            None => named(s@).is_none(),
        },
{
    if str_eq(s, "Austerdalsbreen") {
        return Some("N6857378.59E74028.82");
    }
    if str_eq(s, "Bukkehåmåren") {
        return Some("N6831287.57E165104.69");
    }
    if str_eq(s, "Dalegubben") {
        return Some("N6929342.17E55699.65");
    }
    if str_eq(s, "Dørålseter") {
        return Some("N6884975.42E228065.39");
    }
    if str_eq(s, "Galdhøpiggen") {
        return Some("N6851889.09E146005.17");
    }
    if str_eq(s, "Giklingdalen") {
        return Some("N6968433.83E181437.49");
    }
    if str_eq(s, "Gråkallen") {
        return Some("N7041229.73E263033.76");
    }
    if str_eq(s, "Higravtind") {
        return Some("N7582614.25E491443.74");
    }
    if str_eq(s, "Innerdalen") {
        return Some("N6970663.77E181965.81");
    }
    if str_eq(s, "Jønshornet") {
        return Some("N6939567.47E51789.75");
    }
    if str_eq(s, "Koven") {
        return Some("N7801561.74E796000.84");
    }
    if str_eq(s, "Kufot") {
        return Some("N7777944.37E829160.64");
    }
    if str_eq(s, "Litjdalen") {
        return Some("N6957527.09E167573.23");
    }
    if str_eq(s, "Litlefjellet") {
        return Some("N6951428.83E129294.17");
    }
    if str_eq(s, "Lodalskåpa") {
        return Some("N6875511.46E89605.11");
    }
    if str_eq(s, "Loenvatnet") {
        return Some("N6878404.9E78921.26");
    }
    if str_eq(s, "Neådalssnota") {
        return Some("N6975732.57E196332.68");
    }
    if str_eq(s, "Nordre Sætertind") {
        return Some("N6934326.09E52020.75");
    }
    if str_eq(s, "Nordre Trolltind") {
        return Some("N6949920.69E125714.78");
    }
    if str_eq(s, "Olsanestinden") {
        return Some("N7590523.96E503865.44");
    }
    if str_eq(s, "Midtronden") {
        return Some("N6878653.14E230391.25");
    }
    if str_eq(s, "Olstinden") {
        return Some("N7539262.19E419471.91");
    }
    if str_eq(s, "Rødøyløva") {
        return Some("N7396875.03E413808.27");
    }
    if str_eq(s, "Sanna") {
        return Some("N7379422.66E368557.76");
    }
    if str_eq(s, "Sautso") {
        return Some("N7761024.88E838717.86");
    }
    if str_eq(s, "Slogen") {
        return Some("N6925227.33E67695.5");
    }
    if str_eq(s, "Smedhamran") {
        return Some("N6877556.88E225420.61");
    }
    if str_eq(s, "Smørstabbtindan") {
        return Some("N6844576.5E135670.28");
    }
    if str_eq(s, "Snøheim") {
        return Some("N6919748.71E207190.05");
    }
    if str_eq(s, "Snøhetta") {
        return Some("N6922988.3E203182.98");
    }
    if str_eq(s, "Stetinden") {
        return Some("N7562126.7E566097.85");
    }
    if str_eq(s, "Store Knutholstind") {
        return Some("N6827003.55E156852.26");
    }
    if str_eq(s, "Store Ringstind") {
        return Some("N6833238.42E116579.44");
    }
    if str_eq(s, "Store Skagastølstind") {
        return Some("N6834962.93E120609");
    }
    if str_eq(s, "Store Vengetind") {
        return Some("N6951177.34E131787.15");
    }
    if str_eq(s, "Storsylen") {
        return Some("N6990928.53E358250.73");
    }
    if str_eq(s, "Torghatten") {
        return Some("N7255964.08E364892.09");
    }
    None
}

/// Value of the digits `s[lo..hi]`, when they are all digits and the value is
/// at most `COORD_LIMIT`.
fn digits_exec(s: &str, lo: usize, hi: usize) -> (r: Option<i64>)
    requires
        lo <= hi <= s@.len(),
    ensures
        match r {
            Some(v) => all_digits(s@.subrange(lo as int, hi as int))
                && v == digits_value(s@.subrange(lo as int, hi as int)) && 0 <= v <= COORD_LIMIT,
            None => !all_digits(s@.subrange(lo as int, hi as int))
                || digits_value(s@.subrange(lo as int, hi as int)) > COORD_LIMIT,
        },
{
    let ghost sub = s@.subrange(lo as int, hi as int);
    let mut v: i64 = 0;
    let mut i: usize = lo;
    while i < hi
        invariant
            lo <= i <= hi <= s@.len(),
            sub == s@.subrange(lo as int, hi as int),
            all_digits(s@.subrange(lo as int, i as int)),
            v == digits_value(s@.subrange(lo as int, i as int)),
            0 <= v <= COORD_LIMIT,
        decreases hi - i,
    {
        let c = s.get_char(i);
        if c < '0' || c > '9' {
            assert(!is_digit(sub[i - lo]));
            return None;
        }
        let d = (c as u32 - '0' as u32) as i64;
        proof {
            let p = s@.subrange(lo as int, i + 1);
            assert(p.drop_last() =~= s@.subrange(lo as int, i as int));
            assert(p.last() == c);
        }
        v = v * 10 + d;
        i = i + 1;
        if v > COORD_LIMIT as i64 {
            proof {
                assert(s@.subrange(lo as int, i as int) =~= sub.subrange(0, i - lo));
                if all_digits(sub) {
                    lemma_digits_prefix(sub, i - lo);
                }
            }
            return None;
        }
    }
    assert(s@.subrange(lo as int, i as int) =~= sub);
    Some(v)
}

fn all_digits_exec(s: &str, lo: usize, hi: usize) -> (r: bool)
    requires
        lo <= hi <= s@.len(),
    ensures
        r == all_digits(s@.subrange(lo as int, hi as int)),
{
    let mut i: usize = lo;
    while i < hi
        invariant
            lo <= i <= hi <= s@.len(),
            forall|j: int| lo <= j < i ==> is_digit(s@[j]),
        decreases hi - i,
    {
        let c = s.get_char(i);
        if c < '0' || c > '9' {
            assert(!is_digit(s@.subrange(lo as int, hi as int)[i - lo]));
            return false;
        }
        i = i + 1;
    }
    assert forall|j: int| 0 <= j < hi - lo implies is_digit(#[trigger] s@.subrange(lo as int, hi as int)[j]) by {
        assert(s@.subrange(lo as int, hi as int)[j] == s@[lo + j]);
    }
    true
}

/// Hundredths in the unsigned decimal `s[lo..hi]`, when at most `COORD_LIMIT`.
fn unsigned_exec(s: &str, lo: usize, hi: usize) -> (r: Option<i64>)
    requires
        lo <= hi <= s@.len(),
    ensures
        match r {
            Some(v) => parse_unsigned(s@.subrange(lo as int, hi as int)) == Some(v as int) && v >= 0,
            None => match parse_unsigned(s@.subrange(lo as int, hi as int)) {
                Some(u) => u > COORD_LIMIT,
                None => true,
            },
        },
{
    let ghost sub = s@.subrange(lo as int, hi as int);
    let n = hi - lo;
    let mut p: usize = lo;
    while p < hi && s.get_char(p) != '.'
        invariant
            lo <= p <= hi <= s@.len(),
            sub == s@.subrange(lo as int, hi as int),
            find(sub, '.', 0) == find(sub, '.', p - lo),
        decreases hi - p,
    {
        assert(sub[p - lo] == s@[p as int]);
        p = p + 1;
    }
    if p == hi {
        assert(find(sub, '.', 0) == n);
        if n == 0 {
            return None;
        }
        return match digits_exec(s, lo, hi) {
            Some(a) => Some(a * 100),
            None => {
                proof {
                    assert(s@.subrange(lo as int, hi as int) == sub);
                    if all_digits(sub) {
                        lemma_digits_nonneg(sub);
                    }
                }
                None
            },
        };
    }
    assert(sub[p - lo] == '.');
    assert(find(sub, '.', 0) == p - lo);
    let ghost k: int = p - lo;
    assert(sub.subrange(0, k) =~= s@.subrange(lo as int, p as int));
    assert(sub.subrange(k + 1, n as int) =~= s@.subrange(p + 1, hi as int));
    if !all_digits_exec(s, p + 1, hi) {
        return None;
    }
    if p == lo && p + 1 == hi {
        return None;
    }
    let fl = hi - (p + 1);
    let c: i64 = if fl == 0 {
        0
    } else if fl == 1 {
        let d = s.get_char(p + 1);
        assert(is_digit(s@.subrange(p + 1, hi as int)[0]));
        (d as u32 - '0' as u32) as i64 * 10
    } else {
        let d1 = s.get_char(p + 1);
        let d2 = s.get_char(p + 2);
        assert(is_digit(s@.subrange(p + 1, hi as int)[0]));
        assert(is_digit(s@.subrange(p + 1, hi as int)[1]));
        (d1 as u32 - '0' as u32) as i64 * 10 + (d2 as u32 - '0' as u32) as i64
    };
    assert(c == cents(s@.subrange(p + 1, hi as int)));
    match digits_exec(s, lo, p) {
        Some(a) => Some(a * 100 + c),
        None => {
            proof {
                if all_digits(sub.subrange(0, k)) {
                    lemma_digits_nonneg(sub.subrange(0, k));
                }
            }
            None
        },
    }
}

/// Hundredths in the decimal `s[lo..hi]`, with an optional leading minus.
fn number_exec(s: &str, lo: usize, hi: usize) -> (r: Option<i32>)
    requires
        lo <= hi <= s@.len(),
    ensures
        match r {
            Some(v) => parse_number(s@.subrange(lo as int, hi as int)) == Some(v as int),
            None => parse_number(s@.subrange(lo as int, hi as int)).is_none(),
        },
{
    let ghost sub = s@.subrange(lo as int, hi as int);
    if lo < hi && s.get_char(lo) == '-' {
        assert(sub[0] == '-');
        assert(sub.drop_first() =~= s@.subrange(lo + 1, hi as int));
        match unsigned_exec(s, lo + 1, hi) {
            Some(u) => if u <= COORD_LIMIT as i64 { Some((-u) as i32) } else { None },
            None => None,
        }
    } else {
        assert(lo < hi ==> sub[0] == s@[lo as int]);
        match unsigned_exec(s, lo, hi) {
            Some(u) => if u <= COORD_LIMIT as i64 { Some(u as i32) } else { None },
            None => None,
        }
    }
}

/// The coordinate that `s` denotes in the "N<northing>E<easting>" form.
fn from_text(s: &str) -> (r: Option<Coord>)
    ensures
        r == parse_text(s@),
{
    let n = s.unicode_len();
    if n == 0 || s.get_char(0) != 'N' {
        return None;
    }
    let mut k: usize = 1;
    while k < n && s.get_char(k) != 'E'
        invariant
            n == s@.len(),
            1 <= k <= n,
            find(s@, 'E', 1) == find(s@, 'E', k as int),
        decreases n - k,
    {
        k = k + 1;
    }
    if k == n {
        return None;
    }
    let north = number_exec(s, 1, k);
    let east = number_exec(s, k + 1, n);
    match (north, east) {
        (Some(nv), Some(ev)) => Some(Coord { e: ev, n: nv }),
        _ => None,
    }
}

impl Coord {
    /// Text form "N<northing>E<easting>", in metres with at most two decimals
    /// and no trailing zero, as in "N-11.3E10.5".
    pub fn to_string(&self) -> (r: String)
        requires
            self.valid(),
        ensures
            r@ == coord_text(*self),
    {
        proof { reveal_strlit("N"); reveal_strlit("E"); }
        let mut s = String::from_str("N");
        push_num(&mut s, self.n);
        s.append("E");
        push_num(&mut s, self.e);
        proof {
            assert(s@ =~= coord_text(*self));
        }
        s
    }

    /// The coordinate that `s` denotes: a named place from the gazetteer, or
    /// the "N<northing>E<easting>" form in metres, which must fill the whole
    /// text (nothing before the 'N'). Each number is digits with at most one
    /// point and an optional leading minus; digits after the second decimal are
    /// dropped, truncating toward zero to the centimetre.
    pub fn from_str(s: &str) -> (r: Result<Coord, String>)
        ensures
            match r {
                Ok(c) => parse_spec(s@) == Some(c),
                Err(m) => parse_spec(s@).is_none() && m@ == "Invalid coordinate "@ + s@,
            },
    {
        let found = match named_location(s) {
            Some(v) => from_text(v),
            None => from_text(s),
        };
        match found {
            Some(c) => Ok(c),
            None => Err(String::from_str("Invalid coordinate ").concat(s)),
        }
    }
}

proof fn lemma_digit(d: int)
    requires
        0 <= d < 10,
    ensures
        is_digit(digit_char(d)),
        digit_value(digit_char(d)) == d,
{
}

proof fn lemma_nat_text(n: nat)
    ensures
        nat_text(n).len() >= 1,
        all_digits(nat_text(n)),
        digits_value(nat_text(n)) == n,
    decreases n,
{
    if n < 10 {
        lemma_digit(n as int);
        assert(nat_text(n).drop_last() =~= Seq::<char>::empty());
        assert(digits_value(Seq::<char>::empty()) == 0);
    } else {
        lemma_nat_text(n / 10);
        lemma_digit((n % 10) as int);
        assert(nat_text(n).drop_last() =~= nat_text(n / 10));
        assert(nat_text(n).last() == digit_char((n % 10) as int));
        assert(digits_value(nat_text(n)) == (n / 10) as int * 10 + (n % 10) as int);
    }
}

proof fn lemma_unsigned_text(q: nat, f: int)
    requires
        0 <= f < 100,
    ensures
        parse_unsigned(nat_text(q) + frac_text(f)) == Some(q * 100 + f),
        forall|i: int| 0 <= i < (nat_text(q) + frac_text(f)).len()
            ==> (#[trigger] (nat_text(q) + frac_text(f))[i]) != 'E' && (nat_text(q) + frac_text(f))[i] != '-',
{
    lemma_nat_text(q);
    let a = nat_text(q);
    let s = a + frac_text(f);
    let n = s.len() as int;
    lemma_digit(f / 10);
    lemma_digit(f % 10);
    let k = a.len() as int;
    assert forall|j: int| 0 <= j < k implies s[j] != '.' by {
        assert(s[j] == a[j]);
        assert(is_digit(a[j]));
    }
    if f == 0 {
        assert(s =~= a);
        lemma_find_none(s, '.', 0);
    } else {
        assert(s[k] == '.');
        lemma_find(s, '.', 0, k);
        assert(s.subrange(0, k) =~= a);
        let fr = s.subrange(k + 1, n);
        if f % 10 == 0 {
            assert(fr =~= seq![digit_char(f / 10)]);
        } else {
            assert(fr =~= seq![digit_char(f / 10), digit_char(f % 10)]);
        }
        assert(all_digits(fr));
        assert(cents(fr) == f);
    }
    assert forall|i: int| 0 <= i < s.len() implies (#[trigger] s[i]) != 'E' && s[i] != '-' by {
        if i < a.len() {
            assert(is_digit(a[i]));
        }
    }
}

#[verifier::rlimit(50)]
proof fn lemma_number_text(v: int)
    requires
        in_range(v),
    ensures
        parse_number(num_text(v)) == Some(v),
        forall|i: int| 0 <= i < num_text(v).len() ==> (#[trigger] num_text(v)[i]) != 'E',
{
    let q = (abs(v) / 100) as nat;
    let f = abs(v) % 100;
    lemma_unsigned_text(q, f);
    let u = nat_text(q) + frac_text(f);
    let s = num_text(v);
    if v < 0 {
        assert(s =~= seq!['-'] + u);
        assert(s.drop_first() =~= u);
    } else {
        assert(s =~= u);
        lemma_nat_text(q);
        assert(s[0] == nat_text(q)[0]);
    }
    assert forall|i: int| 0 <= i < s.len() implies (#[trigger] s[i]) != 'E' by {
        if v < 0 && i > 0 {
            assert(s[i] == u[i - 1]);
        }
    }
}

proof fn lemma_find_none(s: Seq<char>, c: char, i: int)
    requires
        0 <= i <= s.len(),
        forall|j: int| i <= j < s.len() ==> s[j] != c,
    ensures
        find(s, c, i) == s.len(),
    decreases s.len() - i,
{
    if i < s.len() {
        lemma_find_none(s, c, i + 1);
    }
}

proof fn lemma_find(s: Seq<char>, c: char, i: int, k: int)
    requires
        0 <= i <= k < s.len(),
        s[k] == c,
        forall|j: int| i <= j < k ==> s[j] != c,
    ensures
        find(s, c, i) == k,
    decreases k - i,
{
    if i < k {
        lemma_find(s, c, i + 1, k);
    }
}

/// No named place reads like a number after its first letter.
proof fn lemma_not_named(s: Seq<char>)
    requires
        s.len() >= 2,
        s[1] == '-' || is_digit(s[1]),
    ensures
        named(s).is_none(),
{
    reveal_strlit("Austerdalsbreen");
    reveal_strlit("Bukkehåmåren");
    reveal_strlit("Dalegubben");
    reveal_strlit("Dørålseter");
    reveal_strlit("Galdhøpiggen");
    reveal_strlit("Giklingdalen");
    reveal_strlit("Gråkallen");
    reveal_strlit("Higravtind");
    reveal_strlit("Innerdalen");
    reveal_strlit("Jønshornet");
    reveal_strlit("Koven");
    reveal_strlit("Kufot");
    reveal_strlit("Litjdalen");
    reveal_strlit("Litlefjellet");
    reveal_strlit("Lodalskåpa");
    reveal_strlit("Loenvatnet");
    reveal_strlit("Neådalssnota");
    reveal_strlit("Nordre Sætertind");
    reveal_strlit("Nordre Trolltind");
    reveal_strlit("Olsanestinden");
    reveal_strlit("Midtronden");
    reveal_strlit("Olstinden");
    reveal_strlit("Rødøyløva");
    reveal_strlit("Sanna");
    reveal_strlit("Sautso");
    reveal_strlit("Slogen");
    reveal_strlit("Smedhamran");
    reveal_strlit("Smørstabbtindan");
    reveal_strlit("Snøheim");
    reveal_strlit("Snøhetta");
    reveal_strlit("Stetinden");
    reveal_strlit("Store Knutholstind");
    reveal_strlit("Store Ringstind");
    reveal_strlit("Store Skagastølstind");
    reveal_strlit("Store Vengetind");
    reveal_strlit("Storsylen");
    reveal_strlit("Torghatten");
}

/// Reading back the text form of a coordinate gives the coordinate: the
/// numeric form parses to it, and no named place has that text.
pub proof fn lemma_round_trip(c: Coord)
    requires
        c.valid(),
    ensures
        parse_text(coord_text(c)) == Some(c),
        parse_spec(coord_text(c)) == Some(c),
{
    let s = coord_text(c);
    let tn = num_text(c.n as int);
    let te = num_text(c.e as int);
    lemma_number_text(c.n as int);
    lemma_number_text(c.e as int);
    let k: int = 1 + tn.len() as int;
    assert(s[k] == 'E');
    assert forall|j: int| 1 <= j < k implies s[j] != 'E' by {
        assert(s[j] == tn[j - 1]);
    }
    lemma_find(s, 'E', 1, k);
    assert(s.subrange(1, k) =~= tn);
    assert(s.subrange(k + 1, s.len() as int) =~= te);
    assert(s[1] == '-' || is_digit(s[1])) by {
        lemma_nat_text((abs(c.n as int) / 100) as nat);
        if c.n >= 0 {
            assert(s[1] == nat_text((abs(c.n as int) / 100) as nat)[0]);
        }
    }
    lemma_not_named(s);
}

} // verus!
