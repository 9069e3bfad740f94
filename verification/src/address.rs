//! Reading the address given to `--connect`: `<address>[:<port>]`, where the
//! address is an IPv4 address, an IPv6 address in brackets, or a host name.
//!
//! The text is read as its UTF-8 bytes. Numbers and addresses are read as
//! Rust's standard library reads them: a port as `u16::from_str`, an IPv4
//! address as `Ipv4Addr::from_str` and an IPv6 address as `Ipv6Addr::from_str`.
use vstd::prelude::*;

use vstd::string::StringSliceAdditionalSpecFns;

use crate::external::random_id;
use crate::types::{
    AddrParseError, AddrV2, AddressState, LocalAddress, ServiceFlags, LOCALHOST_V4,
};

verus! {

/// The first position at or after `i` that holds `c`, or the length of `s`.
pub open spec fn find_from(s: Seq<u8>, c: u8, i: int) -> int
    decreases s.len() - i,
{
    if i >= s.len() {
        s.len() as int
    } else if s[i] == c {
        i
    } else {
        find_from(s, c, i + 1)
    }
}

/// The first position at or after `i` that does not hold `c`, or the length of `s`.
pub open spec fn skip_from(s: Seq<u8>, c: u8, i: int) -> int
    decreases s.len() - i,
{
    if i >= s.len() {
        s.len() as int
    } else if s[i] != c {
        i
    } else {
        skip_from(s, c, i + 1)
    }
}

/// The length in bytes of the whitespace character that `s` ends with, or 0. The
/// whitespace characters are those of Unicode's White_Space property, as
/// `char::is_whitespace` has them: U+0009 to U+000D, U+0020, U+0085, U+00A0,
/// U+1680, U+2000 to U+200A, U+2028, U+2029, U+202F, U+205F and U+3000.
pub open spec fn ws_suffix(s: Seq<u8>) -> int {
    let n = s.len() as int;
    if n >= 1 && (s[n - 1] == 0x20 || (0x09 <= s[n - 1] && s[n - 1] <= 0x0d)) {
        1
    } else if n >= 2 && s[n - 2] == 0xc2 && (s[n - 1] == 0x85 || s[n - 1] == 0xa0) {
        2
    } else if n >= 3 && ((s[n - 3] == 0xe1 && s[n - 2] == 0x9a && s[n - 1] == 0x80) || (s[n - 3]
        == 0xe2 && s[n - 2] == 0x80 && ((0x80 <= s[n - 1] && s[n - 1] <= 0x8a) || s[n - 1] == 0xa8
        || s[n - 1] == 0xa9 || s[n - 1] == 0xaf)) || (s[n - 3] == 0xe2 && s[n - 2] == 0x81 && s[n
        - 1] == 0x9f) || (s[n - 3] == 0xe3 && s[n - 2] == 0x80 && s[n - 1] == 0x80)) {
        3
    } else {
        0
    }
}

/// The length of `s` without its trailing whitespace (`str::trim_end`).
pub open spec fn trim_end_len(s: Seq<u8>) -> int
    decreases s.len(),
{
    let k = ws_suffix(s);
    if k == 0 {
        s.len() as int
    } else {
        trim_end_len(s.subrange(0, s.len() - k))
    }
}

/// The value of `b` as a digit in base `radix` (10 or 16), if it is one.
pub open spec fn digit_value(b: u8, radix: u32) -> Option<int> {
    if 0x30 <= b && b <= 0x39 {
        Some(b - 0x30)
    } else if radix == 16 && 0x61 <= b && b <= 0x66 {
        Some(b - 0x61 + 10)
    } else if radix == 16 && 0x41 <= b && b <= 0x46 {
        Some(b - 0x41 + 10)
    } else {
        None
    }
}

/// The number of digits in base `radix` from position `pos` on.
pub open spec fn digit_run(s: Seq<u8>, pos: int, radix: u32) -> int
    decreases s.len() - pos,
{
    if 0 <= pos < s.len() && digit_value(s[pos], radix) is Some {
        1 + digit_run(s, pos + 1, radix)
    } else {
        0
    }
}

/// A run of digits has no negative length.
pub proof fn lemma_digit_run_nonneg(s: Seq<u8>, pos: int, radix: u32)
    ensures
        digit_run(s, pos, radix) >= 0,
    decreases s.len() - pos,
{
    if 0 <= pos < s.len() && digit_value(s[pos], radix) is Some {
        lemma_digit_run_nonneg(s, pos + 1, radix);
    }
}

/// The value of the `n` digits in base `radix` at position `pos`.
pub open spec fn digits_value(s: Seq<u8>, pos: int, n: int, radix: u32) -> int
    decreases n,
{
    if n <= 0 {
        0
    } else {
        digits_value(s, pos, n - 1, radix) * radix + digit_value(s[pos + n - 1], radix)->Some_0
    }
}

/// Reads a number in base `radix` at `pos`: at least one and at most
/// `max_digits` digits (more digits fail), no leading zero unless allowed, and
/// a value of at most `max`. The number and the position after it.
pub open spec fn read_number(
    s: Seq<u8>,
    pos: int,
    radix: u32,
    max_digits: int,
    allow_zero_prefix: bool,
    max: int,
) -> Option<(int, int)> {
    let n = digit_run(s, pos, radix);
    let v = digits_value(s, pos, n, radix);
    if n == 0 || n > max_digits || v > max || (!allow_zero_prefix && s[pos] == 0x30 && n > 1) {
        None
    } else {
        Some((v, pos + n))
    }
}

/// Reads a number of an IPv4 address at `pos`.
pub open spec fn read_octet(s: Seq<u8>, pos: int) -> Option<(int, int)> {
    read_number(s, pos, 10, 3, false, 255)
}

/// Reads `c` at `pos`, and then an octet.
pub open spec fn read_sep_octet(s: Seq<u8>, pos: int, c: u8) -> Option<(int, int)> {
    if 0 <= pos < s.len() && s[pos] == c {
        read_octet(s, pos + 1)
    } else {
        None
    }
}

/// Reads an IPv4 address at `pos`: four decimal octets separated by dots. The
/// address as its 32 bits, and the position after it.
pub open spec fn read_ipv4(s: Seq<u8>, pos: int) -> Option<(int, int)> {
    match read_octet(s, pos) {
        None => None,
        Some((a, p1)) => match read_sep_octet(s, p1, 0x2e) {
            None => None,
            Some((b, p2)) => match read_sep_octet(s, p2, 0x2e) {
                None => None,
                Some((c, p3)) => match read_sep_octet(s, p3, 0x2e) {
                    None => None,
                    Some((d, p4)) => Some((((a * 256 + b) * 256 + c) * 256 + d, p4)),
                },
            },
        },
    }
}

/// The position after the separator of group `i` at `pos`: none before the
/// first group, a colon before the others.
pub open spec fn after_sep(s: Seq<u8>, pos: int, i: int) -> Option<int> {
    if i == 0 {
        Some(pos)
    } else if 0 <= pos < s.len() && s[pos] == 0x3a {
        Some(pos + 1)
    } else {
        None
    }
}

/// Reads the colon-separated groups `i` to `limit - 1` of an IPv6 address at
/// `pos`, stopping before the first that cannot be read: each is up to four hex
/// digits, or, with room for two groups, an embedded IPv4 address that gives
/// two groups and ends the reading. The groups read, whether an IPv4 address
/// ended them, and the position after them.
pub open spec fn read_groups(s: Seq<u8>, pos: int, i: int, limit: int) -> (Seq<int>, bool, int)
    decreases limit - i,
{
    if i >= limit {
        (Seq::empty(), false, pos)
    } else {
        match after_sep(s, pos, i) {
            None => (Seq::empty(), false, pos),
            Some(p) => {
                let v4 = if i < limit - 1 {
                    read_ipv4(s, p)
                } else {
                    None
                };
                match v4 {
                    Some((v, q)) => (seq![v / 65536, v % 65536], true, q),
                    None => match read_number(s, p, 16, 4, true, 0xffff) {
                        None => (Seq::empty(), false, pos),
                        Some((g, q)) => {
                            let rest = read_groups(s, q, i + 1, limit);
                            (seq![g].add(rest.0), rest.1, rest.2)
                        },
                    },
                }
            },
        }
    }
}

/// The value of 16-bit groups in big-endian order.
pub open spec fn groups_value(g: Seq<int>) -> int
    decreases g.len(),
{
    if g.len() == 0 {
        0
    } else {
        groups_value(g.drop_last()) * 65536 + g.last()
    }
}

/// The IPv6 address that `s` spells, as its 128 bits: eight groups, or fewer
/// with one `::` standing for the missing zero groups; an embedded IPv4 address
/// may end it, but not before the `::`.
pub open spec fn parse_ipv6(s: Seq<u8>) -> Option<u128> {
    let head = read_groups(s, 0, 0, 8);
    if head.0.len() == 8 {
        if head.2 == s.len() {
            Some(groups_value(head.0) as u128)
        } else {
            None
        }
    } else if head.1 {
        None
    } else if head.2 + 1 < s.len() && s[head.2] == 0x3a && s[head.2 + 1] == 0x3a {
        let tail = read_groups(s, head.2 + 2, 0, 7 - head.0.len());
        if tail.2 == s.len() {
            Some(
                groups_value(
                    head.0 + Seq::new((8 - head.0.len() - tail.0.len()) as nat, |j: int| 0int)
                        + tail.0,
                ) as u128,
            )
        } else {
            None
        }
    } else {
        None
    }
}

/// The IPv4 address that `s` spells, as its 32 bits.
pub open spec fn parse_ipv4(s: Seq<u8>) -> Option<u32> {
    match read_ipv4(s, 0) {
        Some((v, p)) => if p == s.len() {
            Some(v as u32)
        } else {
            None
        },
        None => None,
    }
}

/// The value of the decimal digits `s`.
pub open spec fn decimal_value(s: Seq<u8>) -> int
    decreases s.len(),
{
    if s.len() == 0 {
        0
    } else {
        decimal_value(s.drop_last()) * 10 + (s.last() - 0x30)
    }
}

/// Whether every byte of `s` is a decimal digit.
pub open spec fn all_digits(s: Seq<u8>) -> bool {
    forall|i: int| 0 <= i < s.len() ==> 0x30 <= #[trigger] s[i] && s[i] <= 0x39
}

/// The port that `s` spells: decimal digits, after an optional `+`, of a value
/// that fits 16 bits (`u16::from_str`).
pub open spec fn parse_port(s: Seq<u8>) -> Option<u16> {
    let digits = if s.len() > 1 && s[0] == 0x2b {
        s.drop_first()
    } else {
        s
    };
    if digits.len() > 0 && all_digits(digits) && decimal_value(digits) <= 0xffff {
        Some(decimal_value(digits) as u16)
    } else {
        None
    }
}


/// `65536` to the power `n`.
pub open spec fn pow65536(n: nat) -> int
    decreases n,
{
    if n == 0 {
        1
    } else {
        pow65536((n - 1) as nat) * 65536
    }
}

/// Groups of 16 bits have a value below `65536` to the power of their count.
pub proof fn lemma_groups_value_bound(g: Seq<int>)
    requires
        forall|j: int| 0 <= j < g.len() ==> 0 <= #[trigger] g[j] < 65536,
    ensures
        0 <= groups_value(g) < pow65536(g.len()),
    decreases g.len(),
{
    if g.len() > 0 {
        let d = g.drop_last();
        assert forall|j: int| 0 <= j < d.len() implies 0 <= #[trigger] d[j] < 65536 by {
            assert(d[j] == g[j]);
        }
        lemma_groups_value_bound(d);
        let a = groups_value(d);
        let b = g.last();
        let p = pow65536(d.len());
        assert(0 <= a * 65536 + b < p * 65536) by (nonlinear_arith)
            requires
                0 <= a < p,
                0 <= b < 65536,
        ;
    }
}

/// Whether `v` stands for the groups `g`.
pub open spec fn groups_of(v: Seq<u32>, g: Seq<int>) -> bool {
    &&& v.len() == g.len()
    &&& forall|j: int| 0 <= j < v.len() ==> #[trigger] v[j] as int == g[j]
}

/// The first position at or after `from` that holds `c`, or the length of `s`.
pub fn find_byte(s: &[u8], c: u8, from: usize) -> (i: usize)
    requires
        from <= s@.len(),
    ensures
        i as int == find_from(s@, c, from as int),
        from <= i <= s@.len(),
{
    let mut i = from;
    while i < s.len() && s[i] != c
        invariant
            from <= i <= s@.len(),
            find_from(s@, c, i as int) == find_from(s@, c, from as int),
        decreases s@.len() - i,
    {
        i = i + 1;
    }
    i
}

/// The first position at or after `from` that does not hold `c`, or the length of `s`.
pub fn skip_byte(s: &[u8], c: u8, from: usize, end: usize) -> (i: usize)
    requires
        from <= end <= s@.len(),
    ensures
        i as int == from + skip_from(s@.subrange(from as int, end as int), c, 0),
        from <= i <= end,
{
    let ghost t = s@.subrange(from as int, end as int);
    let mut i = from;
    while i < end && s[i] == c
        invariant
            from <= i <= end,
            end <= s@.len(),
            t == s@.subrange(from as int, end as int),
            skip_from(t, c, i - from) == skip_from(t, c, 0),
        decreases end - i,
    {
        assert(t[i - from] == s@[i as int]);
        i = i + 1;
    }
    proof {
        if i < end {
            assert(t[i - from] == s@[i as int]);
        }
    }
    i
}

/// The length of the whitespace character that `s[..n]` ends with, or 0.
fn ws_suffix_at(s: &[u8], n: usize) -> (k: usize)
    requires
        n <= s@.len(),
    ensures
        k as int == ws_suffix(s@.subrange(0, n as int)),
        k <= n,
{
    let ghost t = s@.subrange(0, n as int);
    if n >= 1 && (s[n - 1] == 0x20 || (0x09 <= s[n - 1] && s[n - 1] <= 0x0d)) {
        assert(t[n - 1] == s@[n - 1]);
        return 1;
    }
    proof {
        if n >= 1 {
            assert(t[n - 1] == s@[n - 1]);
        }
        if n >= 2 {
            assert(t[n - 2] == s@[n - 2]);
        }
        if n >= 3 {
            assert(t[n - 3] == s@[n - 3]);
        }
    }
    if n >= 2 && s[n - 2] == 0xc2 && (s[n - 1] == 0x85 || s[n - 1] == 0xa0) {
        return 2;
    }
    if n >= 3 && ((s[n - 3] == 0xe1 && s[n - 2] == 0x9a && s[n - 1] == 0x80) || (s[n - 3] == 0xe2
        && s[n - 2] == 0x80 && ((0x80 <= s[n - 1] && s[n - 1] <= 0x8a) || s[n - 1] == 0xa8 || s[n
        - 1] == 0xa9 || s[n - 1] == 0xaf)) || (s[n - 3] == 0xe2 && s[n - 2] == 0x81 && s[n - 1]
        == 0x9f) || (s[n - 3] == 0xe3 && s[n - 2] == 0x80 && s[n - 1] == 0x80)) {
        return 3;
    }
    0
}

/// The length of `s` without its trailing whitespace.
pub fn trim_end_bytes(s: &[u8]) -> (n: usize)
    ensures
        n as int == trim_end_len(s@),
        n <= s@.len(),
{
    let mut n = s.len();
    assert(s@.subrange(0, n as int) =~= s@);
    loop
        invariant
            n <= s@.len(),
            trim_end_len(s@.subrange(0, n as int)) == trim_end_len(s@),
        decreases n,
    {
        let k = ws_suffix_at(s, n);
        if k == 0 {
            return n;
        }
        proof {
            assert(s@.subrange(0, n as int).subrange(0, n - k) =~= s@.subrange(0, n - k));
        }
        n = n - k;
    }
}

/// The port that `s[a..b]` spells.
#[verifier::loop_isolation(false)]
pub fn parse_port_bytes(s: &[u8], a: usize, b: usize) -> (r: Option<u16>)
    requires
        a <= b <= s@.len(),
    ensures
        r == parse_port(s@.subrange(a as int, b as int)),
{
    let ghost t = s@.subrange(a as int, b as int);
    let start = if b - a > 1 && s[a] == 0x2b {
        a + 1
    } else {
        a
    };
    let ghost digits = s@.subrange(start as int, b as int);
    proof {
        if b - a > 1 && s@[a as int] == 0x2b {
            assert(t[0] == s@[a as int]);
            assert(t.drop_first() =~= digits);
        } else {
            if b - a > 1 {
                assert(t[0] == s@[a as int]);
            }
            assert(t =~= digits);
        }
    }
    if start == b {
        assert(t.len() == 0);
        return None;
    }
    let mut acc: u32 = 0;
    let mut i = start;
    while i < b
        invariant
            start <= i <= b,
            b <= s@.len(),
            digits == s@.subrange(start as int, b as int),
            all_digits(s@.subrange(start as int, i as int)),
            acc as int == if decimal_value(s@.subrange(start as int, i as int)) < 65536 {
                decimal_value(s@.subrange(start as int, i as int))
            } else {
                65536
            },
        decreases b - i,
    {
        let c = s[i];
        if c < 0x30 || c > 0x39 {
            assert(digits[i - start] == c);
            return None;
        }
        proof {
            let p = s@.subrange(start as int, i as int);
            let q = s@.subrange(start as int, i + 1);
            assert(q.drop_last() =~= p);
            assert(q.last() == c);
        }
        let next = acc * 10 + (c - 0x30) as u32;
        acc = if next < 65536 {
            next
        } else {
            65536
        };
        i = i + 1;
        proof {
            let q = s@.subrange(start as int, i as int);
            assert forall|j: int| 0 <= j < q.len() implies 0x30 <= #[trigger] q[j] && q[j] <= 0x39 by {
                if j < q.len() - 1 {
                    assert(q[j] == s@.subrange(start as int, i - 1)[j]);
                }
            }
        }
    }
    assert(s@.subrange(start as int, i as int) =~= digits);
    if acc > 0xffff {
        None
    } else {
        Some(acc as u16)
    }
}

/// The value of `b` as a digit in base `radix`, if it is one.
fn digit_of(b: u8, radix: u32) -> (d: Option<u32>)
    requires
        radix == 10 || radix == 16,
    ensures
        d matches Some(v) ==> digit_value(b, radix) == Some(v as int) && v < radix,
        d is None ==> digit_value(b, radix) is None,
{
    if 0x30 <= b && b <= 0x39 {
        Some((b - 0x30) as u32)
    } else if radix == 16 && 0x61 <= b && b <= 0x66 {
        Some((b - 0x61 + 10) as u32)
    } else if radix == 16 && 0x41 <= b && b <= 0x46 {
        Some((b - 0x41 + 10) as u32)
    } else {
        None
    }
}

/// `radix` to the power `n`, for the digit counts of the numbers read here.
pub open spec fn digits_bound(n: int) -> int {
    if n <= 0 {
        1
    } else if n == 1 {
        16
    } else if n == 2 {
        256
    } else if n == 3 {
        4096
    } else {
        65536
    }
}

/// Reads a number at `pos` as `read_number` does.
pub fn read_number_bytes(
    s: &[u8],
    pos: usize,
    radix: u32,
    max_digits: usize,
    allow_zero_prefix: bool,
    max: u32,
) -> (r: Option<(u32, usize)>)
    requires
        pos <= s@.len(),
        radix == 10 || radix == 16,
        max_digits <= 4,
    ensures
        r matches Some((v, q)) ==> read_number(
            s@,
            pos as int,
            radix,
            max_digits as int,
            allow_zero_prefix,
            max as int,
        ) == Some((v as int, q as int)) && q <= s@.len(),
        r is None ==> read_number(
            s@,
            pos as int,
            radix,
            max_digits as int,
            allow_zero_prefix,
            max as int,
        ) is None,
{
    let len = s.len();
    let mut n: usize = 0;
    let mut v: u32 = 0;
    let mut done = false;
    while !done
        invariant
            len == s@.len(),
            pos + n <= len,
            n <= max_digits,
            max_digits <= 4,
            radix == 10 || radix == 16,
            v as int == digits_value(s@, pos as int, n as int, radix),
            0 <= v < digits_bound(n as int),
            digit_run(s@, pos as int, radix) == n + digit_run(s@, (pos + n) as int, radix),
            done ==> digit_run(s@, (pos + n) as int, radix) == 0,
        decreases len - pos - n + (if done {
            0int
        } else {
            1int
        }),
    {
        if pos + n >= len {
            done = true;
        } else {
            match digit_of(s[pos + n], radix) {
                None => {
                    done = true;
                },
                Some(d) => {
                    if n == max_digits {
                        proof {
                            lemma_digit_run_nonneg(s@, pos + n + 1, radix);
                            assert(digit_run(s@, (pos + n) as int, radix) == 1 + digit_run(s@, pos + n + 1, radix));
                        }
                        return None;
                    }
                    assert(0 <= v * radix + d < digits_bound(n + 1)) by (nonlinear_arith)
                        requires
                            0 <= v < digits_bound(n as int),
                            radix <= 16,
                            d < radix,
                            n < 4,
                            digits_bound(n + 1) == digits_bound(n as int) * 16,
                    ;
                    v = v * radix + d;
                    n = n + 1;
                },
            }
        }
    }
    if n == 0 {
        return None;
    }
    if v > max {
        return None;
    }
    if !allow_zero_prefix && s[pos] == 0x30 && n > 1 {
        return None;
    }
    Some((v, pos + n))
}


/// Reads `c` at `pos`, and then an octet, as `read_sep_octet` does.
fn read_sep_octet_bytes(s: &[u8], pos: usize, c: u8) -> (r: Option<(u32, usize)>)
    requires
        pos <= s@.len(),
    ensures
        r matches Some((v, q)) ==> read_sep_octet(s@, pos as int, c) == Some((v as int, q as int))
            && q <= s@.len() && v <= 255,
        r is None ==> read_sep_octet(s@, pos as int, c) is None,
{
    if pos < s.len() && s[pos] == c {
        read_number_bytes(s, pos + 1, 10, 3, false, 255)
    } else {
        None
    }
}

/// Reads an IPv4 address at `pos`, as `read_ipv4` does.
pub fn read_ipv4_bytes(s: &[u8], pos: usize) -> (r: Option<(u32, usize)>)
    requires
        pos <= s@.len(),
    ensures
        r matches Some((v, q)) ==> read_ipv4(s@, pos as int) == Some((v as int, q as int)) && q
            <= s@.len(),
        r is None ==> read_ipv4(s@, pos as int) is None,
{
    let (a, p1) = match read_number_bytes(s, pos, 10, 3, false, 255) {
        Some(x) => x,
        None => return None,
    };
    let (b, p2) = match read_sep_octet_bytes(s, p1, 0x2e) {
        Some(x) => x,
        None => return None,
    };
    let (c, p3) = match read_sep_octet_bytes(s, p2, 0x2e) {
        Some(x) => x,
        None => return None,
    };
    let (d, p4) = match read_sep_octet_bytes(s, p3, 0x2e) {
        Some(x) => x,
        None => return None,
    };
    Some((((a * 256 + b) * 256 + c) * 256 + d, p4))
}

/// Reads the groups `i` to `limit - 1` of an IPv6 address at `pos`, as
/// `read_groups` does.
pub fn read_groups_bytes(s: &[u8], pos: usize, i: usize, limit: usize) -> (r: (Vec<u32>, bool, usize))
    requires
        pos <= s@.len(),
        i <= limit <= 8,
    ensures
        groups_of(r.0@, read_groups(s@, pos as int, i as int, limit as int).0),
        r.1 == read_groups(s@, pos as int, i as int, limit as int).1,
        r.2 as int == read_groups(s@, pos as int, i as int, limit as int).2,
        r.2 <= s@.len(),
        r.0@.len() <= limit - i,
        forall|j: int| 0 <= j < r.0@.len() ==> #[trigger] r.0@[j] < 65536,
    decreases limit - i,
{
    if i >= limit {
        return (Vec::new(), false, pos);
    }
    let p = if i == 0 {
        pos
    } else if pos < s.len() && s[pos] == 0x3a {
        pos + 1
    } else {
        return (Vec::new(), false, pos);
    };
    assert(after_sep(s@, pos as int, i as int) == Some(p as int));
    if i < limit - 1 {
        match read_ipv4_bytes(s, p) {
            Some((v, q)) => {
                let mut g: Vec<u32> = Vec::new();
                g.push(v / 65536);
                g.push(v % 65536);
                assert(groups_of(g@, seq![v as int / 65536, v as int % 65536]));
                return (g, true, q);
            },
            None => {},
        }
    }
    match read_number_bytes(s, p, 16, 4, true, 0xffff) {
        None => (Vec::new(), false, pos),
        Some((g, q)) => {
            let rest = read_groups_bytes(s, q, i + 1, limit);
            let mut out: Vec<u32> = Vec::new();
            out.push(g);
            let mut j: usize = 0;
            while j < rest.0.len()
                invariant
                    j <= rest.0@.len(),
                    out@ == seq![g] + rest.0@.take(j as int),
                decreases rest.0@.len() - j,
            {
                out.push(rest.0[j]);
                j = j + 1;
                assert(out@ =~= seq![g] + rest.0@.take(j as int));
            }
            assert(rest.0@.take(j as int) =~= rest.0@);
            proof {
                let sp = read_groups(s@, q as int, i + 1, limit as int);
                assert(groups_of(out@, seq![g as int].add(sp.0))) by {
                    assert forall|k: int| 0 <= k < out@.len() implies #[trigger] out@[k] as int == seq![g as int].add(sp.0)[k] by {
                        if k > 0 {
                            assert(out@[k] == rest.0@[k - 1]);
                        }
                    }
                }
                assert forall|k: int| 0 <= k < out@.len() implies #[trigger] out@[k] < 65536 by {
                    if k > 0 {
                        assert(out@[k] == rest.0@[k - 1]);
                    }
                }
            }
            (out, rest.1, rest.2)
        },
    }
}


/// The groups `v` as integers.
pub open spec fn ints(v: Seq<u32>) -> Seq<int> {
    v.map_values(|x: u32| x as int)
}

/// Powers of `65536` grow with the exponent.
pub proof fn lemma_pow65536_mono(a: nat, b: nat)
    requires
        a <= b,
    ensures
        1 <= pow65536(a) <= pow65536(b),
    decreases b,
{
    if b > 0 {
        if a < b {
            lemma_pow65536_mono(a, (b - 1) as nat);
        } else {
            lemma_pow65536_mono((a - 1) as nat, (b - 1) as nat);
        }
    }
}

/// The 128 bits of at most eight 16-bit groups, in big-endian order.
fn groups_to_u128(g: &Vec<u32>) -> (v: u128)
    requires
        g@.len() <= 8,
        forall|j: int| 0 <= j < g@.len() ==> #[trigger] g@[j] < 65536,
    ensures
        v as int == groups_value(ints(g@)),
{
    proof {
        reveal_with_fuel(pow65536, 9);
        assert(pow65536(8) == 0x1_0000_0000_0000_0000_0000_0000_0000_0000int);
    }
    let mut acc: u128 = 0;
    let mut j: usize = 0;
    while j < g.len()
        invariant
            j <= g@.len() <= 8,
            forall|k: int| 0 <= k < g@.len() ==> #[trigger] g@[k] < 65536,
            acc as int == groups_value(ints(g@.take(j as int))),
            pow65536(8) == 0x1_0000_0000_0000_0000_0000_0000_0000_0000int,
        decreases g@.len() - j,
    {
        let ghost t = ints(g@.take(j as int));
        proof {
            assert forall|k: int| 0 <= k < t.len() implies 0 <= #[trigger] t[k] < 65536 by {
                assert(t[k] == g@[k] as int);
            }
            lemma_groups_value_bound(t);
            lemma_pow65536_mono(j as nat, 7);
            let a = acc as int;
            let p = pow65536(j as nat);
            let q = pow65536(7);
            assert(a * 65536 + 65535 < 0x1_0000_0000_0000_0000_0000_0000_0000_0000int) by (nonlinear_arith)
                requires
                    0 <= a < p,
                    p <= q,
                    q * 65536 == 0x1_0000_0000_0000_0000_0000_0000_0000_0000int,
            ;
            assert(ints(g@.take(j + 1)).drop_last() =~= t);
        }
        acc = acc * 65536 + g[j] as u128;
        j = j + 1;
    }
    assert(g@.take(j as int) =~= g@);
    acc
}

/// The IPv6 address that `s` spells, as `parse_ipv6` has it.
pub fn parse_ipv6_bytes(s: &[u8]) -> (r: Option<u128>)
    ensures
        r == parse_ipv6(s@),
{
    let (head, head4, p) = read_groups_bytes(s, 0, 0, 8);
    proof {
        assert(ints(head@) =~= read_groups(s@, 0, 0, 8).0);
    }
    if head.len() == 8 {
        if p == s.len() {
            return Some(groups_to_u128(&head));
        }
        return None;
    }
    if head4 {
        return None;
    }
    if !(p < s.len() && s.len() - p > 1 && s[p] == 0x3a && s[p + 1] == 0x3a) {
        return None;
    }
    let (tail, _, q) = read_groups_bytes(s, p + 2, 0, 7 - head.len());
    proof {
        assert(ints(tail@) =~= read_groups(s@, p + 2, 0, 7 - head@.len()).0);
    }
    if q != s.len() {
        return None;
    }
    let zeros = 8 - head.len() - tail.len();
    let mut all: Vec<u32> = Vec::new();
    let mut j: usize = 0;
    while j < head.len()
        invariant
            j <= head@.len(),
            all@ == head@.take(j as int),
        decreases head@.len() - j,
    {
        all.push(head[j]);
        j = j + 1;
        assert(all@ =~= head@.take(j as int));
    }
    assert(head@.take(j as int) =~= head@);
    let mut z: usize = 0;
    while z < zeros
        invariant
            z <= zeros,
            all@ == head@ + Seq::new(z as nat, |k: int| 0u32),
        decreases zeros - z,
    {
        all.push(0);
        z = z + 1;
        assert(all@ =~= head@ + Seq::new(z as nat, |k: int| 0u32));
    }
    let mut t: usize = 0;
    while t < tail.len()
        invariant
            t <= tail@.len(),
            all@ == head@ + Seq::new(zeros as nat, |k: int| 0u32) + tail@.take(t as int),
        decreases tail@.len() - t,
    {
        all.push(tail[t]);
        t = t + 1;
        assert(all@ =~= head@ + Seq::new(zeros as nat, |k: int| 0u32) + tail@.take(t as int));
    }
    assert(tail@.take(t as int) =~= tail@);
    proof {
        assert(ints(all@) =~= read_groups(s@, 0, 0, 8).0 + Seq::new(
            (8 - read_groups(s@, 0, 0, 8).0.len() - read_groups(s@, p + 2, 0, 7 - head@.len()).0.len()) as nat,
            |j: int| 0int,
        ) + read_groups(s@, p + 2, 0, 7 - head@.len()).0);
        assert forall|k: int| 0 <= k < all@.len() implies #[trigger] all@[k] < 65536 by {
            if k < head@.len() {
                assert(all@[k] == head@[k]);
            } else if k >= head@.len() + zeros {
                assert(all@[k] == tail@[k - head@.len() - zeros]);
            }
        }
    }
    Some(groups_to_u128(&all))
}

/// The IPv4 address that `s` spells, as `parse_ipv4` has it.
pub fn parse_ipv4_bytes(s: &[u8]) -> (r: Option<u32>)
    ensures
        r == parse_ipv4(s@),
{
    match read_ipv4_bytes(s, 0) {
        Some((v, p)) => if p == s.len() {
            Some(v)
        } else {
            None
        },
        None => None,
    }
}


/// What an address to connect to names, with a host name as its bytes.
pub enum HostView {
    Ipv4(u32),
    Ipv6(u128),
    Hostname(Seq<u8>),
}

/// What an address to connect to names: an IP address, or a host name still to
/// be looked up (as its UTF-8 bytes).
#[derive(Debug)]
pub enum ConnectHost {
    Ipv4(u32),
    Ipv6(u128),
    Hostname(Vec<u8>),
}

impl View for ConnectHost {
    type V = HostView;

    open spec fn view(&self) -> HostView {
        match self {
            ConnectHost::Ipv4(a) => HostView::Ipv4(*a),
            ConnectHost::Ipv6(a) => HostView::Ipv6(*a),
            ConnectHost::Hostname(h) => HostView::Hostname(h@),
        }
    }
}

/// An address to connect to, and its port.
#[derive(Debug)]
pub struct ConnectTarget {
    pub host: ConnectHost,
    pub port: u16,
}

/// The target an address parse gives, as mathematical values.
pub open spec fn target_view(r: Result<ConnectTarget, AddrParseError>) -> Result<
    (HostView, u16),
    AddrParseError,
> {
    match r {
        Ok(t) => Ok((t.host@, t.port)),
        Err(e) => Err(e),
    }
}

/// The port of the piece `piece` after the closing bracket of an IPv6 address:
/// the default when the piece is empty, else the piece without its leading
/// colons read as a port.
pub open spec fn bracket_port(piece: Seq<u8>, default_port: u16) -> Result<u16, AddrParseError> {
    if piece.len() == 0 {
        Ok(default_port)
    } else {
        match parse_port(piece.subrange(skip_from(piece, 0x3a, 0), piece.len() as int)) {
            Some(p) => Ok(p),
            None => Err(AddrParseError::InvalidPort),
        }
    }
}

/// What the address `b` (UTF-8 bytes) names, with `default_port` when it gives
/// no port.
///
/// An address starting with `[` is an IPv6 address: it must hold a `]`; after
/// trailing whitespace is trimmed, what lies between the leading brackets and
/// the first `]` is the address, and what follows it up to any next `]` gives
/// the port. An empty address stands for `127.0.0.1`. Any other address is split
/// at colons: the first piece is an IPv4 address, or else a host name; the
/// second, if any, is the port; a third is refused.
pub open spec fn spec_connect_host(b: Seq<u8>, default_port: u16) -> Result<
    (HostView, u16),
    AddrParseError,
> {
    if b.len() > 0 && b[0] == 0x5b {
        if !b.contains(0x5d) {
            Err(AddrParseError::InvalidIpv6)
        } else {
            let t = b.subrange(0, trim_end_len(b));
            let i1 = find_from(t, 0x5d, 0);
            let port = if i1 >= t.len() {
                Ok(default_port)
            } else {
                bracket_port(t.subrange(i1 + 1, find_from(t, 0x5d, i1 + 1)), default_port)
            };
            match port {
                Err(e) => Err(e),
                Ok(p) => {
                    let host = t.subrange(0, i1);
                    match parse_ipv6(host.subrange(skip_from(host, 0x5b, 0), host.len() as int)) {
                        Some(ip) => Ok((HostView::Ipv6(ip), p)),
                        None => Err(AddrParseError::InvalidIpv6),
                    }
                },
            }
        }
    } else if b.len() == 0 {
        Ok((HostView::Ipv4(LOCALHOST_V4), default_port))
    } else {
        let i1 = find_from(b, 0x3a, 0);
        let first = b.subrange(0, i1);
        let port = if i1 >= b.len() {
            Ok(default_port)
        } else {
            let i2 = find_from(b, 0x3a, i1 + 1);
            match parse_port(b.subrange(i1 + 1, i2)) {
                None => Err(AddrParseError::InvalidPort),
                Some(p) => if i2 < b.len() {
                    Err(AddrParseError::Inconclusive)
                } else {
                    Ok(p)
                },
            }
        };
        match port {
            Err(e) => Err(e),
            Ok(p) => match parse_ipv4(first) {
                Some(ip) => Ok((HostView::Ipv4(ip), p)),
                None => Ok((HostView::Hostname(first), p)),
            },
        }
    }
}

/// The bytes `s[a..b]`.
pub fn copy_range(s: &[u8], a: usize, b: usize) -> (v: Vec<u8>)
    requires
        a <= b <= s@.len(),
    ensures
        v@ == s@.subrange(a as int, b as int),
{
    let mut v: Vec<u8> = Vec::new();
    let mut i = a;
    while i < b
        invariant
            a <= i <= b <= s@.len(),
            v@ == s@.subrange(a as int, i as int),
        decreases b - i,
    {
        v.push(s[i]);
        i = i + 1;
        assert(v@ =~= s@.subrange(a as int, i as int));
    }
    v
}

/// Whether `s` holds the byte `c`.
fn contains_byte(s: &[u8], c: u8) -> (b: bool)
    ensures
        b == s@.contains(c),
{
    let i = find_byte(s, c, 0);
    proof {
        lemma_find_from(s@, c, 0);
    }
    i < s.len()
}

/// `find_from` finds the first occurrence at or after `i`, if any.
pub proof fn lemma_find_from(s: Seq<u8>, c: u8, i: int)
    requires
        0 <= i <= s.len(),
    ensures
        i <= find_from(s, c, i) <= s.len(),
        find_from(s, c, i) < s.len() ==> s[find_from(s, c, i)] == c,
        forall|j: int| i <= j < find_from(s, c, i) ==> s[j] != c,
        (find_from(s, c, i) == s.len()) == (forall|j: int| i <= j < s.len() ==> s[j] != c),
    decreases s.len() - i,
{
    if i < s.len() && s[i] != c {
        lemma_find_from(s, c, i + 1);
    }
}


/// Reads the address given to connect to, `<address>[:<port>]`, with
/// `default_port` when it gives no port: an IPv6 address in brackets, an IPv4
/// address, or a host name that is still to be looked up.
pub fn parse_connect_host(address: &str, default_port: u16) -> (r: Result<
    ConnectTarget,
    AddrParseError,
>)
    ensures
        target_view(r) == spec_connect_host(address.spec_bytes(), default_port),
{
    let b = address.as_bytes();
    if b.len() > 0 && b[0] == 0x5b {
        if !contains_byte(b, 0x5d) {
            return Err(AddrParseError::InvalidIpv6);
        }
        let n = trim_end_bytes(b);
        proof {
            lemma_trim_end_len(b@);
        }
        let t = copy_range(b, 0, n);
        let ts = t.as_slice();
        let i1 = find_byte(ts, 0x5d, 0);
        let port = if i1 >= ts.len() {
            default_port
        } else {
            let i2 = find_byte(ts, 0x5d, i1 + 1);
            if i2 == i1 + 1 {
                default_port
            } else {
                let st = skip_byte(ts, 0x3a, i1 + 1, i2);
                proof {
                    let piece = ts@.subrange(i1 + 1, i2 as int);
                    assert(piece.subrange(skip_from(piece, 0x3a, 0), piece.len() as int) =~= ts@.subrange(
                        st as int,
                        i2 as int,
                    ));
                }
                match parse_port_bytes(ts, st, i2) {
                    Some(p) => p,
                    None => return Err(AddrParseError::InvalidPort),
                }
            }
        };
        let hs = skip_byte(ts, 0x5b, 0, i1);
        let host = copy_range(ts, hs, i1);
        proof {
            let h = ts@.subrange(0, i1 as int);
            assert(h.subrange(skip_from(h, 0x5b, 0), h.len() as int) =~= host@);
        }
        match parse_ipv6_bytes(host.as_slice()) {
            Some(ip) => Ok(ConnectTarget { host: ConnectHost::Ipv6(ip), port }),
            None => Err(AddrParseError::InvalidIpv6),
        }
    } else if b.len() == 0 {
        Ok(ConnectTarget { host: ConnectHost::Ipv4(LOCALHOST_V4), port: default_port })
    } else {
        let i1 = find_byte(b, 0x3a, 0);
        let port = if i1 >= b.len() {
            default_port
        } else {
            let i2 = find_byte(b, 0x3a, i1 + 1);
            match parse_port_bytes(b, i1 + 1, i2) {
                None => return Err(AddrParseError::InvalidPort),
                Some(p) => if i2 < b.len() {
                    return Err(AddrParseError::Inconclusive);
                } else {
                    p
                },
            }
        };
        let first = copy_range(b, 0, i1);
        match parse_ipv4_bytes(first.as_slice()) {
            Some(ip) => Ok(ConnectTarget { host: ConnectHost::Ipv4(ip), port }),
            None => Ok(ConnectTarget { host: ConnectHost::Hostname(first), port }),
        }
    }
}

/// Trimming keeps a prefix of the bytes.
pub proof fn lemma_trim_end_len(s: Seq<u8>)
    ensures
        0 <= trim_end_len(s) <= s.len(),
    decreases s.len(),
{
    let k = ws_suffix(s);
    if k != 0 {
        lemma_trim_end_len(s.subrange(0, s.len() - k));
    }
}


/// An address given to connect to: ready to connect, or a host name (with the
/// port) that is still to be looked up.
#[derive(Debug)]
pub enum ResolvedHost {
    Address(LocalAddress),
    Lookup(Vec<u8>, u16),
}

/// A new address record to connect to `address` at `port`: never tried, with no
/// services known, under a random id.
pub fn connect_address(address: AddrV2, port: u16) -> (a: LocalAddress)
    ensures
        a.address == address,
        a.last_connected == 0,
        a.state == AddressState::NeverTried,
        a.services == ServiceFlags(0),
        a.port == port,
{
    LocalAddress::new(address, 0, AddressState::NeverTried, ServiceFlags::none(), port, random_id())
}

/// Resolves the address given to connect to, `<address>[:<port>]`: an IPv4 or
/// IPv6 address gives the address record to connect to; a host name is left to
/// be looked up, with its port.
pub fn resolve_connect_host(address: &str, default_port: u16) -> (r: Result<
    ResolvedHost,
    AddrParseError,
>)
    ensures
        match spec_connect_host(address.spec_bytes(), default_port) {
            Err(e) => r == Err::<ResolvedHost, AddrParseError>(e),
            Ok((HostView::Ipv4(ip), port)) => r matches Ok(ResolvedHost::Address(a)) && a.address
                == AddrV2::Ipv4(ip) && a.port == port && a.state == AddressState::NeverTried
                && a.services == ServiceFlags(0) && a.last_connected == 0,
            Ok((HostView::Ipv6(ip), port)) => r matches Ok(ResolvedHost::Address(a)) && a.address
                == AddrV2::Ipv6(ip) && a.port == port && a.state == AddressState::NeverTried
                && a.services == ServiceFlags(0) && a.last_connected == 0,
            Ok((HostView::Hostname(h), port)) => r matches Ok(ResolvedHost::Lookup(name, p))
                && name@ == h && p == port,
        },
{
    match parse_connect_host(address, default_port) {
        Err(e) => Err(e),
        Ok(target) => match target.host {
            ConnectHost::Ipv4(ip) => Ok(ResolvedHost::Address(connect_address(AddrV2::Ipv4(ip), target.port))),
            ConnectHost::Ipv6(ip) => Ok(ResolvedHost::Address(connect_address(AddrV2::Ipv6(ip), target.port))),
            ConnectHost::Hostname(h) => Ok(ResolvedHost::Lookup(h, target.port)),
        },
    }
}


/// The decimal digits of `n`, without leading zeros, as `Display` writes an
/// unsigned integer.
pub open spec fn decimal_text(n: nat) -> Seq<u8>
    decreases n,
{
    if n < 10 {
        seq![(0x30 + n) as u8]
    } else {
        decimal_text(n / 10).push((0x30 + n % 10) as u8)
    }
}

/// An IPv4 address in dotted decimal, as `Ipv4Addr`'s `Display` writes it.
pub open spec fn ipv4_text(ip: u32) -> Seq<u8> {
    decimal_text((ip / 0x1000000) as nat) + seq![0x2eu8] + decimal_text(((ip / 0x10000) % 0x100) as nat)
        + seq![0x2eu8] + decimal_text(((ip / 0x100) % 0x100) as nat) + seq![0x2eu8] + decimal_text(
        (ip % 0x100) as nat,
    )
}

/// Whether `b` is a decimal digit.
pub open spec fn is_decimal_digit(b: u8) -> bool {
    0x30 <= b && b <= 0x39
}

/// The decimal text of `n`: digits only, as many as `n` needs, no leading zero
/// but for zero itself, and read back it is `n`.
pub proof fn lemma_decimal_text(n: nat)
    ensures
        decimal_text(n).len() >= 1,
        all_digits(decimal_text(n)),
        decimal_value(decimal_text(n)) == n,
        decimal_text(n).len() > 1 ==> decimal_text(n)[0] != 0x30,
        n < 10 ==> decimal_text(n).len() == 1,
        n >= 10 ==> decimal_text(n).len() >= 2,
        n < 100 ==> decimal_text(n).len() <= 2,
        n < 1000 ==> decimal_text(n).len() <= 3,
    decreases n,
{
    let t = decimal_text(n);
    if n < 10 {
        assert(t.drop_last() =~= Seq::<u8>::empty());
        assert(t.last() == (0x30 + n) as u8);
        assert((0x30 + n) as u8 == 0x30 + n);
        assert(decimal_value(t.drop_last()) == 0);
        assert(decimal_value(t) == decimal_value(t.drop_last()) * 10 + (t.last() - 0x30));
    } else {
        lemma_decimal_text(n / 10);
        let u = decimal_text(n / 10);
        assert(t.drop_last() =~= u);
        assert(t.last() == (0x30 + n % 10) as u8);
        assert((0x30 + n % 10) as u8 == 0x30 + n % 10);
        assert(n / 10 * 10 + n % 10 == n);
        assert(decimal_value(t) == decimal_value(t.drop_last()) * 10 + (t.last() - 0x30));
        assert(t[0] == u[0]);
        if n / 10 < 10 {
            assert(u[0] == (0x30 + n / 10) as u8);
        }
        assert forall|i: int| 0 <= i < t.len() implies 0x30 <= #[trigger] t[i] && t[i] <= 0x39 by {
            if i < u.len() {
                assert(t[i] == u[i]);
            }
        }
    }
}

/// A run of exactly `len` digits in base `radix` at `pos`.
pub proof fn lemma_digit_run_exact(s: Seq<u8>, pos: int, len: int, radix: u32)
    requires
        0 <= pos,
        0 <= len,
        pos + len <= s.len(),
        forall|j: int| pos <= j < pos + len ==> #[trigger] digit_value(s[j], radix) is Some,
        pos + len == s.len() || digit_value(s[pos + len], radix) is None,
    ensures
        digit_run(s, pos, radix) == len,
    decreases len,
{
    if len > 0 {
        lemma_digit_run_exact(s, pos + 1, len - 1, radix);
    }
}

/// The digits of `decimal_text(n)`, found at `pos` in `s`, have the value `n`.
pub proof fn lemma_digits_value_text(s: Seq<u8>, pos: int, n: nat)
    requires
        0 <= pos,
        pos + decimal_text(n).len() <= s.len(),
        s.subrange(pos, pos + decimal_text(n).len()) == decimal_text(n),
    ensures
        digits_value(s, pos, decimal_text(n).len() as int, 10) == n,
    decreases n,
{
    let t = decimal_text(n);
    lemma_decimal_text(n);
    let l = t.len() as int;
    assert(s[pos + l - 1] == s.subrange(pos, pos + l)[l - 1]);
    if n < 10 {
        assert(s[pos] == (0x30 + n) as u8);
        assert((0x30 + n) as u8 == 0x30 + n);
        assert(digits_value(s, pos, 0, 10) == 0);
    } else {
        let u = decimal_text(n / 10);
        assert(t =~= u.push((0x30 + n % 10) as u8));
        assert(l == u.len() + 1);
        assert(s.subrange(pos, pos + u.len()) =~= s.subrange(pos, pos + l).subrange(0, u.len() as int));
        assert(t.subrange(0, u.len() as int) =~= u);
        lemma_digits_value_text(s, pos, n / 10);
        assert(s[pos + l - 1] == (0x30 + n % 10) as u8);
        assert((0x30 + n % 10) as u8 == 0x30 + n % 10);
        assert(n / 10 * 10 + n % 10 == n);
    }
}

/// Reading an octet of at most 255 written in decimal at `pos`, followed by the
/// end or by a byte that is no digit, gives the octet and the position after it.
pub proof fn lemma_read_octet_text(s: Seq<u8>, pos: int, n: nat)
    requires
        n <= 255,
        0 <= pos,
        pos + decimal_text(n).len() <= s.len(),
        s.subrange(pos, pos + decimal_text(n).len()) == decimal_text(n),
        pos + decimal_text(n).len() == s.len() || !is_decimal_digit(s[pos + decimal_text(n).len()]),
    ensures
        read_octet(s, pos) == Some((n as int, pos + decimal_text(n).len())),
{
    let t = decimal_text(n);
    lemma_decimal_text(n);
    assert forall|j: int| pos <= j < pos + t.len() implies #[trigger] digit_value(s[j], 10) is Some by {
        assert(s[j] == s.subrange(pos, pos + t.len())[j - pos]);
    }
    lemma_digit_run_exact(s, pos, t.len() as int, 10);
    lemma_digits_value_text(s, pos, n);
    assert(s[pos] == t[0]);
}

/// The dotted decimal text of an IPv4 address, found at `p` at the end of `s`,
/// reads as the address.
pub proof fn lemma_read_ipv4_text(s: Seq<u8>, p: int, ip: u32)
    requires
        0 <= p,
        p + ipv4_text(ip).len() == s.len(),
        s.subrange(p, s.len() as int) == ipv4_text(ip),
    ensures
        read_ipv4(s, p) == Some((ip as int, s.len() as int)),
{
    let a = (ip / 0x1000000) as nat;
    let b = ((ip / 0x10000) % 0x100) as nat;
    let c = ((ip / 0x100) % 0x100) as nat;
    let d = (ip % 0x100) as nat;
    let ta = decimal_text(a);
    let tb = decimal_text(b);
    let tc = decimal_text(c);
    let td = decimal_text(d);
    let dot = seq![0x2eu8];
    let f = ipv4_text(ip);
    lemma_decimal_text(a);
    lemma_decimal_text(b);
    lemma_decimal_text(c);
    lemma_decimal_text(d);
    assert(f =~= ta + dot + tb + dot + tc + dot + td);
    let p1 = ta.len() as int;
    let p2 = p1 + 1 + tb.len();
    let p3 = p2 + 1 + tc.len();
    let p4 = p3 + 1 + td.len();
    assert(f.len() == p4);
    assert forall|j: int| 0 <= j < p4 implies #[trigger] s[p + j] == f[j] by {
        assert(s[p + j] == s.subrange(p, s.len() as int)[j]);
    }
    assert(s.subrange(p, p + p1) =~= ta);
    assert forall|k: int| 0 <= k < tb.len() implies #[trigger] s.subrange(p + p1 + 1, p + p2)[k]
        == tb[k] by {
        assert(s[p + p1 + 1 + k] == f[p1 + 1 + k]);
    }
    assert(s.subrange(p + p1 + 1, p + p2) =~= tb);
    assert forall|k: int| 0 <= k < tc.len() implies #[trigger] s.subrange(p + p2 + 1, p + p3)[k]
        == tc[k] by {
        assert(s[p + p2 + 1 + k] == f[p2 + 1 + k]);
    }
    assert(s.subrange(p + p2 + 1, p + p3) =~= tc);
    assert forall|k: int| 0 <= k < td.len() implies #[trigger] s.subrange(p + p3 + 1, p + p4)[k]
        == td[k] by {
        assert(s[p + p3 + 1 + k] == f[p3 + 1 + k]);
    }
    assert(s.subrange(p + p3 + 1, p + p4) =~= td);
    assert forall|k: int| 0 <= k < ta.len() implies #[trigger] s.subrange(p, p + p1)[k] == ta[k] by {
        assert(s[p + k] == f[k]);
    }
    assert(s[p + p1] == 0x2e && s[p + p2] == 0x2e && s[p + p3] == 0x2e);
    lemma_read_octet_text(s, p, a);
    lemma_read_octet_text(s, p + p1 + 1, b);
    lemma_read_octet_text(s, p + p2 + 1, c);
    lemma_read_octet_text(s, p + p3 + 1, d);
    assert(((a * 256 + b) * 256 + c) * 256 + d == ip) by (nonlinear_arith)
        requires
            a == ip / 0x1000000,
            b == (ip / 0x10000) % 0x100,
            c == (ip / 0x100) % 0x100,
            d == ip % 0x100,
    ;
}

/// The dotted decimal text of an IPv4 address: digits and dots, starting with
/// a digit, and read back as an IPv4 address it is the address.
pub proof fn lemma_ipv4_text(ip: u32)
    ensures
        ipv4_text(ip).len() > 0,
        is_decimal_digit(ipv4_text(ip)[0]),
        forall|j: int|
            0 <= j < ipv4_text(ip).len() ==> is_decimal_digit(#[trigger] ipv4_text(ip)[j])
                || ipv4_text(ip)[j] == 0x2e,
        parse_ipv4(ipv4_text(ip)) == Some(ip),
{
    let a = (ip / 0x1000000) as nat;
    let b = ((ip / 0x10000) % 0x100) as nat;
    let c = ((ip / 0x100) % 0x100) as nat;
    let d = (ip % 0x100) as nat;
    let ta = decimal_text(a);
    let tb = decimal_text(b);
    let tc = decimal_text(c);
    let td = decimal_text(d);
    let dot = seq![0x2eu8];
    let f = ipv4_text(ip);
    lemma_decimal_text(a);
    lemma_decimal_text(b);
    lemma_decimal_text(c);
    lemma_decimal_text(d);
    assert(f =~= ta + dot + tb + dot + tc + dot + td);
    let p1 = ta.len() as int;
    let p2 = p1 + 1 + tb.len();
    let p3 = p2 + 1 + tc.len();
    assert(f.subrange(0, f.len() as int) =~= f);
    lemma_read_ipv4_text(f, 0, ip);
    assert(f[0] == ta[0]);
    assert forall|j: int| 0 <= j < f.len() implies is_decimal_digit(#[trigger] f[j]) || f[j] == 0x2e by {
        if j < p1 {
            assert(f[j] == ta[j]);
        } else if p1 < j < p2 {
            assert(f[j] == tb[j - p1 - 1]);
        } else if p2 < j < p3 {
            assert(f[j] == tc[j - p2 - 1]);
        } else if p3 < j {
            assert(f[j] == td[j - p3 - 1]);
        }
    }
}

/// An IPv4 address written as `Ipv4Addr`'s `Display` writes it, followed by a
/// colon and a port written in decimal, is read back as that address and port;
/// without the port it is read as that address with the default port. Either
/// way it names an address, never a host name to look up.
#[verifier::spinoff_prover]
pub proof fn law_ipv4_text_round_trip(ip: u32, port: u16, default_port: u16)
    ensures
        spec_connect_host(ipv4_text(ip) + seq![0x3au8] + decimal_text(port as nat), default_port)
            == Ok::<(HostView, u16), AddrParseError>((HostView::Ipv4(ip), port)),
        spec_connect_host(ipv4_text(ip), default_port) == Ok::<(HostView, u16), AddrParseError>(
            (HostView::Ipv4(ip), default_port),
        ),
{
    lemma_ipv4_text(ip);
    lemma_decimal_text(port as nat);
    let f = ipv4_text(ip);
    let t = decimal_text(port as nat);
    // Without a port.
    lemma_find_from(f, 0x3a, 0);
    assert(find_from(f, 0x3a, 0) == f.len()) by {
        if find_from(f, 0x3a, 0) < f.len() {
            assert(f[find_from(f, 0x3a, 0)] == 0x3a);
        }
    }
    assert(f.subrange(0, f.len() as int) =~= f);
    // With a port.
    let b = f + seq![0x3au8] + t;
    let n = f.len() as int;
    lemma_find_from(b, 0x3a, 0);
    assert(forall|j: int| 0 <= j < n ==> b[j] == f[j]);
    assert(b[n] == 0x3a);
    assert(find_from(b, 0x3a, 0) == n) by {
        let k = find_from(b, 0x3a, 0);
        if k < n {
            assert(b[k] == f[k]);
        }
    }
    lemma_find_from(b, 0x3a, n + 1);
    assert forall|j: int| n + 1 <= j < b.len() implies b[j] != 0x3a by {
        assert(b[j] == t[j - n - 1]);
    }
    assert(b.subrange(0, n) =~= f);
    assert(b.subrange(n + 1, b.len() as int) =~= t);
    assert(b[0] == f[0]);
    assert(t[0] != 0x2b) by {
        assert(0x30 <= t[0] && t[0] <= 0x39);
    }
}


/// The lower-case hexadecimal digit of `d`, below 16.
pub open spec fn hex_digit(d: nat) -> u8 {
    if d < 10 {
        (0x30 + d) as u8
    } else {
        (0x61 + d - 10) as u8
    }
}

/// The lower-case hexadecimal digits of `n`, without leading zeros, as `{:x}`
/// writes an unsigned integer.
pub open spec fn hex_text(n: nat) -> Seq<u8>
    decreases n,
{
    if n < 16 {
        seq![hex_digit(n)]
    } else {
        hex_text(n / 16).push(hex_digit(n % 16))
    }
}

/// Whether `b` is a lower-case hexadecimal digit.
pub open spec fn is_hex_digit(b: u8) -> bool {
    (0x30 <= b && b <= 0x39) || (0x61 <= b && b <= 0x66)
}

/// The last `n` groups of 16 bits of `x`, most significant first.
pub open spec fn groups_from(x: int, n: nat) -> Seq<int>
    decreases n,
{
    if n == 0 {
        Seq::empty()
    } else {
        groups_from(x / 65536, (n - 1) as nat).push(x % 65536)
    }
}

/// The groups `gs[i..]` of an IPv6 address as text: each in lower-case
/// hexadecimal, with a colon before every group but the first.
pub open spec fn groups_text(gs: Seq<int>, i: int) -> Seq<u8>
    decreases gs.len() - i,
{
    if i < 0 || i >= gs.len() {
        Seq::empty()
    } else {
        (if i == 0 {
            Seq::empty()
        } else {
            seq![0x3au8]
        }) + hex_text(gs[i] as nat) + groups_text(gs, i + 1)
    }
}

/// An IPv6 address written in full: its eight groups of 16 bits in lower-case
/// hexadecimal, without leading zeros, separated by colons. This is how
/// `Ipv6Addr`'s `Display` writes an address that has no two zero groups in a row.
pub open spec fn ipv6_text(ip: u128) -> Seq<u8> {
    groups_text(groups_from(ip as int, 8), 0)
}

/// The hexadecimal text of `n`: lower-case hex digits, as many as `n` needs,
/// and read back it is `n`.
pub proof fn lemma_hex_text(n: nat)
    ensures
        hex_text(n).len() >= 1,
        forall|i: int| 0 <= i < hex_text(n).len() ==> is_hex_digit(#[trigger] hex_text(n)[i]),
        n < 16 ==> hex_text(n).len() == 1,
        n < 256 ==> hex_text(n).len() <= 2,
        n < 4096 ==> hex_text(n).len() <= 3,
        n < 65536 ==> hex_text(n).len() <= 4,
    decreases n,
{
    let t = hex_text(n);
    if n >= 16 {
        lemma_hex_text(n / 16);
        let u = hex_text(n / 16);
        assert(t =~= u.push(hex_digit(n % 16)));
        assert forall|i: int| 0 <= i < t.len() implies is_hex_digit(#[trigger] t[i]) by {
            if i < u.len() {
                assert(t[i] == u[i]);
            }
        }
    }
}

/// A lower-case hex digit read in base 16 is its value.
pub proof fn lemma_hex_digit_value(d: nat)
    requires
        d < 16,
    ensures
        digit_value(hex_digit(d), 16) == Some(d as int),
        is_hex_digit(hex_digit(d)),
{
}

/// The digits of `hex_text(n)`, found at `pos` in `s`, have the value `n`.
pub proof fn lemma_hex_value_text(s: Seq<u8>, pos: int, n: nat)
    requires
        0 <= pos,
        pos + hex_text(n).len() <= s.len(),
        s.subrange(pos, pos + hex_text(n).len()) == hex_text(n),
    ensures
        digits_value(s, pos, hex_text(n).len() as int, 16) == n,
    decreases n,
{
    let t = hex_text(n);
    lemma_hex_text(n);
    let l = t.len() as int;
    assert(s[pos + l - 1] == s.subrange(pos, pos + l)[l - 1]);
    if n < 16 {
        assert(s[pos] == hex_digit(n));
        lemma_hex_digit_value(n);
        assert(digits_value(s, pos, 0, 16) == 0);
    } else {
        let u = hex_text(n / 16);
        assert(t =~= u.push(hex_digit(n % 16)));
        assert(l == u.len() + 1);
        assert(s.subrange(pos, pos + u.len()) =~= s.subrange(pos, pos + l).subrange(0, u.len() as int));
        assert(t.subrange(0, u.len() as int) =~= u);
        lemma_hex_value_text(s, pos, n / 16);
        assert(s[pos + l - 1] == hex_digit(n % 16));
        lemma_hex_digit_value(n % 16);
        assert(n / 16 * 16 + n % 16 == n);
    }
}

/// A run of digits in base `radix` at `pos` ends at the latest where a byte
/// that is no such digit stands.
pub proof fn lemma_digit_run_le(s: Seq<u8>, pos: int, len: int, radix: u32)
    requires
        0 <= pos,
        0 <= len,
        pos + len >= s.len() || digit_value(s[pos + len], radix) is None,
    ensures
        digit_run(s, pos, radix) <= len,
    decreases len,
{
    if len > 0 && 0 <= pos < s.len() && digit_value(s[pos], radix) is Some {
        lemma_digit_run_le(s, pos + 1, len - 1, radix);
    }
}

/// A group written in hex at `pos`, and followed by a colon or by the end, is
/// no IPv4 address, and reads as the group.
pub proof fn lemma_read_hex_group(s: Seq<u8>, pos: int, g: nat)
    requires
        g < 65536,
        0 <= pos,
        pos + hex_text(g).len() <= s.len(),
        s.subrange(pos, pos + hex_text(g).len()) == hex_text(g),
        pos + hex_text(g).len() == s.len() || s[pos + hex_text(g).len()] == 0x3a,
    ensures
        read_ipv4(s, pos) is None,
        read_number(s, pos, 16, 4, true, 0xffff) == Some((g as int, pos + hex_text(g).len())),
{
    let t = hex_text(g);
    let l = t.len() as int;
    lemma_hex_text(g);
    assert forall|j: int| pos <= j < pos + l implies #[trigger] digit_value(s[j], 16) is Some by {
        assert(s[j] == t[j - pos]);
    }
    lemma_digit_run_exact(s, pos, l, 16);
    lemma_hex_value_text(s, pos, g);
    lemma_digit_run_le(s, pos, l, 10);
    lemma_digit_run_nonneg(s, pos, 10);
    let n10 = digit_run(s, pos, 10);
    if 0 <= pos + n10 < s.len() {
        if n10 < l {
            assert(s[pos + n10] == t[n10]);
        }
        assert(s[pos + n10] != 0x2e);
    }
}

/// No group can be read at `e`: it is the end, or holds no hex digit.
pub open spec fn no_group_at(s: Seq<u8>, e: int) -> bool {
    e < 0 || e >= s.len() || digit_value(s[e], 16) is None
}

/// Reading stops at `e` after `m` groups: before the first group when no group
/// can be read there, and after a later one when no colon followed by a group
/// stands there.
pub open spec fn groups_stop_at(s: Seq<u8>, e: int, m: int) -> bool {
    if m == 0 {
        no_group_at(s, e)
    } else {
        e >= s.len() || s[e] != 0x3a || no_group_at(s, e + 1)
    }
}

/// Reading groups `i..limit - 1` at `pos`, where the text of the groups
/// `gs[i..]` stands, followed by the end or a colon, gives those groups, and
/// stops at the end of their text: all `limit` groups were read, or reading
/// could go no further.
#[verifier::spinoff_prover]
pub proof fn lemma_read_groups_text(s: Seq<u8>, pos: int, gs: Seq<int>, i: int, limit: int)
    requires
        gs.len() <= limit <= 8,
        0 <= i <= gs.len(),
        forall|k: int| 0 <= k < gs.len() ==> 0 <= #[trigger] gs[k] < 65536,
        0 <= pos,
        pos + groups_text(gs, i).len() <= s.len(),
        s.subrange(pos, pos + groups_text(gs, i).len()) == groups_text(gs, i),
        pos + groups_text(gs, i).len() == s.len() || s[pos + groups_text(gs, i).len()] == 0x3a,
        gs.len() < limit ==> groups_stop_at(s, pos + groups_text(gs, i).len(), gs.len() as int),
    ensures
        read_groups(s, pos, i, limit) == (gs.subrange(i, gs.len() as int), false, pos
            + groups_text(gs, i).len()),
    decreases gs.len() - i,
{
    let m = gs.len() as int;
    if i == m {
        assert(gs.subrange(m, m) =~= Seq::<int>::empty());
        if i < limit {
            let p = if i == 0 {
                pos
            } else {
                pos + 1
            };
            if after_sep(s, pos, i) is Some {
                assert(after_sep(s, pos, i) == Some(p));
                assert(no_group_at(s, p));
                assert(digit_run(s, p, 10) == 0);
                assert(digit_run(s, p, 16) == 0);
            }
        }
    } else {
        let sep: Seq<u8> = if i == 0 {
            Seq::empty()
        } else {
            seq![0x3au8]
        };
        let g = gs[i] as nat;
        let h = hex_text(g);
        let rest = groups_text(gs, i + 1);
        let e = pos + groups_text(gs, i).len();
        let tail = s.subrange(pos, e);
        assert(tail == sep + h + rest);
        assert(tail.len() == sep.len() + h.len() + rest.len());
        let p = pos + sep.len();
        if i > 0 {
            assert(s[pos] == tail[0]);
        }
        assert(after_sep(s, pos, i) == Some(p));
        lemma_hex_text(g);
        let q = p + h.len();
        assert(s.subrange(p, q) =~= tail.subrange(sep.len() as int, (sep.len() + h.len()) as int));
        assert(s.subrange(p, q) =~= h);
        assert forall|k: int| 0 <= k < rest.len() implies #[trigger] s.subrange(q, e)[k]
            == rest[k] by {
            assert(s[q + k] == tail[sep.len() + h.len() + k]);
        }
        assert(s.subrange(q, e) =~= rest);
        if rest.len() > 0 {
            assert(i + 1 < m);
            assert(rest[0] == 0x3a);
            assert(s[q] == rest[0]);
        } else {
            assert(q == e);
        }
        lemma_read_hex_group(s, p, g);
        lemma_read_groups_text(s, q, gs, i + 1, limit);
        assert(seq![gs[i]].add(gs.subrange(i + 1, m)) =~= gs.subrange(i, m));
    }
}

/// The text of groups `i..`: hex digits and colons, starting with a hex digit
/// at the first group.
pub proof fn lemma_groups_text_bytes(gs: Seq<int>, i: int)
    requires
        0 <= i <= gs.len(),
        forall|k: int| 0 <= k < gs.len() ==> 0 <= #[trigger] gs[k] < 65536,
    ensures
        forall|j: int|
            0 <= j < groups_text(gs, i).len() ==> is_hex_digit(#[trigger] groups_text(gs, i)[j])
                || groups_text(gs, i)[j] == 0x3a,
        i == 0 && gs.len() > 0 ==> groups_text(gs, i).len() > 0 && is_hex_digit(groups_text(gs, i)[0]),
    decreases gs.len() - i,
{
    if i < gs.len() {
        lemma_groups_text_bytes(gs, i + 1);
        let sep: Seq<u8> = if i == 0 {
            Seq::empty()
        } else {
            seq![0x3au8]
        };
        let h = hex_text(gs[i] as nat);
        let rest = groups_text(gs, i + 1);
        let t = groups_text(gs, i);
        assert(t == sep + h + rest);
        lemma_hex_text(gs[i] as nat);
        assert forall|j: int| 0 <= j < t.len() implies is_hex_digit(#[trigger] t[j]) || t[j] == 0x3a by {
            if j < sep.len() {
                assert(t[j] == sep[j]);
            } else if j < sep.len() + h.len() {
                assert(t[j] == h[j - sep.len()]);
            } else {
                assert(t[j] == rest[j - sep.len() - h.len()]);
            }
        }
        if i == 0 {
            assert(t[0] == h[0]);
        }
    }
}

/// The groups of `x`, read back, are `x` modulo `65536` to the power of their count.
pub proof fn lemma_groups_from(x: int, n: nat)
    requires
        0 <= x,
    ensures
        groups_from(x, n).len() == n,
        forall|k: int| 0 <= k < n ==> 0 <= #[trigger] groups_from(x, n)[k] < 65536,
        groups_value(groups_from(x, n)) == x % pow65536(n),
    decreases n,
{
    if n > 0 {
        let m = (n - 1) as nat;
        lemma_groups_from(x / 65536, m);
        let g = groups_from(x, n);
        let d = groups_from(x / 65536, m);
        assert(g.drop_last() =~= d);
        assert forall|k: int| 0 <= k < n implies 0 <= #[trigger] g[k] < 65536 by {
            if k < m {
                assert(g[k] == d[k]);
            }
        }
        lemma_pow65536_pos(m);
        vstd::arithmetic::div_mod::lemma_breakdown(x, 65536, pow65536(m));
        vstd::arithmetic::mul::lemma_mul_is_commutative(65536, pow65536(m));
        vstd::arithmetic::mul::lemma_mul_is_commutative(65536, (x / 65536) % pow65536(m));
    }
}

/// `65536` to any power is positive.
pub proof fn lemma_pow65536_pos(n: nat)
    ensures
        pow65536(n) > 0,
    decreases n,
{
    if n > 0 {
        lemma_pow65536_pos((n - 1) as nat);
    }
}

/// Whether `b` is ASCII and no whitespace.
pub open spec fn plain_ascii(b: u8) -> bool {
    b < 0x80 && b != 0x20 && !(0x09 <= b && b <= 0x0d)
}

/// Text of ASCII bytes that does not end with whitespace is left whole by trimming.
pub proof fn lemma_trim_plain(b: Seq<u8>)
    requires
        b.len() > 0,
        forall|j: int| 0 <= j < b.len() ==> #[trigger] b[j] < 0x80,
        plain_ascii(b.last()),
    ensures
        trim_end_len(b) == b.len(),
{
    assert(ws_suffix(b) == 0);
}

/// The full text of an IPv6 address: hex digits and colons, starting with a
/// hex digit, and read back as an IPv6 address it is the address.
pub proof fn lemma_ipv6_text(ip: u128)
    ensures
        ipv6_text(ip).len() > 0,
        is_hex_digit(ipv6_text(ip)[0]),
        forall|j: int|
            0 <= j < ipv6_text(ip).len() ==> is_hex_digit(#[trigger] ipv6_text(ip)[j])
                || ipv6_text(ip)[j] == 0x3a,
        parse_ipv6(ipv6_text(ip)) == Some(ip),
{
    let gs = groups_from(ip as int, 8);
    let g = ipv6_text(ip);
    lemma_ipv6_groups(ip);
    lemma_groups_text_bytes(gs, 0);
    assert(g.subrange(0, g.len() as int) =~= g);
    lemma_read_groups_text(g, 0, gs, 0, 8);
    assert(gs.subrange(0, 8) =~= gs);
}

/// `[g]`, where `g` is hex digits, colons and dots that read as the IPv6 address
/// `ip`, is read as `ip` with the default port.
#[verifier::spinoff_prover]
pub proof fn lemma_bracketed(g: Seq<u8>, ip: u128, default_port: u16)
    requires
        g.len() > 0,
        forall|j: int| 0 <= j < g.len() ==> is_hex_digit(#[trigger] g[j]) || g[j] == 0x3a || g[j]
            == 0x2e,
        parse_ipv6(g) == Some(ip),
    ensures
        spec_connect_host(seq![0x5bu8] + g + seq![0x5du8], default_port) == Ok::<
            (HostView, u16),
            AddrParseError,
        >((HostView::Ipv6(ip), default_port)),
{
    let n = g.len() as int;
    let b = seq![0x5bu8] + g + seq![0x5du8];
    assert forall|j: int| 0 <= j < b.len() implies #[trigger] b[j] < 0x80 by {
        if 1 <= j <= n {
            assert(b[j] == g[j - 1]);
        }
    }
    lemma_trim_plain(b);
    assert(b.subrange(0, b.len() as int) =~= b);
    assert(b.contains(0x5d)) by {
        assert(b[n + 1] == 0x5d);
    }
    lemma_find_from(b, 0x5d, 0);
    assert(find_from(b, 0x5d, 0) == n + 1) by {
        let k = find_from(b, 0x5d, 0);
        if k < n + 1 && k >= 1 {
            assert(b[k] == g[k - 1]);
        }
    }
    assert(b.subrange(n + 2, n + 2).len() == 0);
    let hb = b.subrange(0, n + 1);
    assert(is_hex_digit(g[0]) || g[0] == 0x3a || g[0] == 0x2e);
    assert(hb[0] == 0x5b && hb[1] == g[0]);
    assert(skip_from(hb, 0x5b, 1) == 1);
    assert(hb.subrange(1, hb.len() as int) =~= g);
}

/// `[g]:p`, where `g` is hex digits, colons and dots that read as the IPv6 address
/// `ip` and `p` is a port written in decimal, is read as `ip` and that port.
#[verifier::spinoff_prover]
#[verifier::rlimit(50)]
pub proof fn lemma_bracketed_port(g: Seq<u8>, ip: u128, port: u16, default_port: u16)
    requires
        g.len() > 0,
        forall|j: int| 0 <= j < g.len() ==> is_hex_digit(#[trigger] g[j]) || g[j] == 0x3a || g[j]
            == 0x2e,
        parse_ipv6(g) == Some(ip),
    ensures
        spec_connect_host(
            seq![0x5bu8] + g + seq![0x5du8, 0x3au8] + decimal_text(port as nat),
            default_port,
        ) == Ok::<(HostView, u16), AddrParseError>((HostView::Ipv6(ip), port)),
{
    lemma_decimal_text(port as nat);
    let t = decimal_text(port as nat);
    let n = g.len() as int;
    let c = seq![0x5bu8] + g + seq![0x5du8, 0x3au8] + t;
    assert forall|j: int| 0 <= j < c.len() implies #[trigger] c[j] < 0x80 by {
        if 1 <= j <= n {
            assert(c[j] == g[j - 1]);
        } else if j >= n + 3 {
            assert(c[j] == t[j - n - 3]);
        }
    }
    assert(c.last() == t.last());
    lemma_trim_plain(c);
    assert(c.subrange(0, c.len() as int) =~= c);
    assert(c.contains(0x5d)) by {
        assert(c[n + 1] == 0x5d);
    }
    lemma_find_from(c, 0x5d, 0);
    assert(find_from(c, 0x5d, 0) == n + 1) by {
        let k = find_from(c, 0x5d, 0);
        if k < n + 1 && k >= 1 {
            assert(c[k] == g[k - 1]);
        }
    }
    lemma_find_from(c, 0x5d, n + 2);
    assert forall|j: int| n + 2 <= j < c.len() implies c[j] != 0x5d by {
        if j > n + 2 {
            assert(c[j] == t[j - n - 3]);
        }
    }
    let piece = c.subrange(n + 2, c.len() as int);
    assert(piece =~= seq![0x3au8] + t);
    assert(piece[1] == t[0]);
    assert(skip_from(piece, 0x3a, 1) == 1);
    assert(piece.subrange(1, piece.len() as int) =~= t);
    assert(t[0] != 0x2b);
    let hc = c.subrange(0, n + 1);
    assert(is_hex_digit(g[0]) || g[0] == 0x3a || g[0] == 0x2e);
    assert(hc[0] == 0x5b && hc[1] == g[0]);
    assert(skip_from(hc, 0x5b, 1) == 1);
    assert(hc.subrange(1, hc.len() as int) =~= g);
}

/// An IPv6 address with its groups `a` to `7 - b` written as `::`: its first
/// `a` groups, `::`, and its last `b` groups, each in lower-case hexadecimal
/// without leading zeros. When the address has two or more zero groups in a
/// row and maps no IPv4 address, `Ipv6Addr`'s `Display` writes this text for
/// the first of its longest runs of zero groups.
pub open spec fn ipv6_text_compressed(ip: u128, a: nat, b: nat) -> Seq<u8> {
    let gs = groups_from(ip as int, 8);
    groups_text(gs.subrange(0, a as int), 0) + seq![0x3au8, 0x3au8] + groups_text(
        gs.subrange(8 - b, 8),
        0,
    )
}

/// The groups `a` to `7 - b` of `ip` are zero.
pub open spec fn zero_groups(ip: u128, a: nat, b: nat) -> bool {
    forall|k: int| a <= k < 8 - b ==> #[trigger] groups_from(ip as int, 8)[k] == 0
}

/// The groups of an IPv6 address are its eight groups of 16 bits.
pub proof fn lemma_ipv6_groups(ip: u128)
    ensures
        groups_from(ip as int, 8).len() == 8,
        forall|k: int| 0 <= k < 8 ==> 0 <= #[trigger] groups_from(ip as int, 8)[k] < 65536,
        groups_value(groups_from(ip as int, 8)) == ip,
{
    lemma_groups_from(ip as int, 8);
    assert(pow65536(8) == 0x1_0000_0000_0000_0000_0000_0000_0000_0000) by {
        reveal_with_fuel(pow65536, 9);
    }
    vstd::arithmetic::div_mod::lemma_small_mod(ip as nat, pow65536(8) as nat);
}

/// The compressed text of an IPv6 address: hex digits and colons, and read
/// back as an IPv6 address it is the address.
#[verifier::spinoff_prover]
pub proof fn lemma_ipv6_text_compressed(ip: u128, a: nat, b: nat)
    requires
        a + b <= 7,
        zero_groups(ip, a, b),
    ensures
        ipv6_text_compressed(ip, a, b).len() > 0,
        forall|j: int|
            0 <= j < ipv6_text_compressed(ip, a, b).len() ==> is_hex_digit(
                #[trigger] ipv6_text_compressed(ip, a, b)[j],
            ) || ipv6_text_compressed(ip, a, b)[j] == 0x3a,
        parse_ipv6(ipv6_text_compressed(ip, a, b)) == Some(ip),
{
    let gs = groups_from(ip as int, 8);
    lemma_ipv6_groups(ip);
    let h = gs.subrange(0, a as int);
    let t = gs.subrange(8 - b, 8);
    let th = groups_text(h, 0);
    let tt = groups_text(t, 0);
    let c = ipv6_text_compressed(ip, a, b);
    assert(c == th + seq![0x3au8, 0x3au8] + tt);
    lemma_groups_text_bytes(h, 0);
    lemma_groups_text_bytes(t, 0);
    let n = th.len() as int;
    assert forall|j: int| 0 <= j < c.len() implies is_hex_digit(#[trigger] c[j]) || c[j] == 0x3a by {
        if j < n {
            assert(c[j] == th[j]);
        } else if j >= n + 2 {
            assert(c[j] == tt[j - n - 2]);
        }
    }
    // The groups before `::`.
    assert(c.subrange(0, n) =~= th);
    assert(c[n] == 0x3a && c[n + 1] == 0x3a);
    assert(groups_stop_at(c, n, a as int));
    lemma_read_groups_text(c, 0, h, 0, 8);
    assert(h.subrange(0, a as int) =~= h);
    // The groups after it.
    assert(c.subrange(n + 2, n + 2 + tt.len()) =~= tt);
    lemma_read_groups_text(c, n + 2, t, 0, 7 - a);
    assert(t.subrange(0, b as int) =~= t);
    // The zero groups between them.
    let z = Seq::new((8 - a - b) as nat, |j: int| 0int);
    assert(h + z + t =~= gs) by {
        assert forall|k: int| 0 <= k < 8 implies #[trigger] (h + z + t)[k] == gs[k] by {
            if a <= k < 8 - b {
                assert(gs[k] == 0);
            }
        }
    }
}

/// An IPv6 address written with `::` in place of a run of its zero groups, as
/// `ipv6_text_compressed` writes it, in brackets and followed by a colon and a
/// port written in decimal, is read back as that address and port; in
/// brackets alone it is read as that address with the default port.
pub proof fn law_ipv6_text_compressed_round_trip(
    ip: u128,
    a: nat,
    b: nat,
    port: u16,
    default_port: u16,
)
    requires
        a + b <= 7,
        zero_groups(ip, a, b),
    ensures
        spec_connect_host(
            seq![0x5bu8] + ipv6_text_compressed(ip, a, b) + seq![0x5du8, 0x3au8] + decimal_text(
                port as nat,
            ),
            default_port,
        ) == Ok::<(HostView, u16), AddrParseError>((HostView::Ipv6(ip), port)),
        spec_connect_host(seq![0x5bu8] + ipv6_text_compressed(ip, a, b) + seq![0x5du8], default_port)
            == Ok::<(HostView, u16), AddrParseError>((HostView::Ipv6(ip), default_port)),
{
    lemma_ipv6_text_compressed(ip, a, b);
    lemma_bracketed(ipv6_text_compressed(ip, a, b), ip, default_port);
    lemma_bracketed_port(ipv6_text_compressed(ip, a, b), ip, port, default_port);
}

/// An IPv4 address mapped into IPv6 as `Ipv6Addr`'s `Display` writes it:
/// `::ffff:` and the IPv4 address in dotted decimal.
pub open spec fn ipv4_mapped_text(v4: u32) -> Seq<u8> {
    seq![0x3au8, 0x3au8, 0x66u8, 0x66u8, 0x66u8, 0x66u8, 0x3au8] + ipv4_text(v4)
}

/// Zero groups read back as zero.
pub proof fn lemma_groups_value_zeros(n: nat)
    ensures
        groups_value(Seq::new(n, |j: int| 0int)) == 0,
    decreases n,
{
    if n > 0 {
        assert(Seq::new(n, |j: int| 0int).drop_last() =~= Seq::new((n - 1) as nat, |j: int| 0int));
        lemma_groups_value_zeros((n - 1) as nat);
    }
}

/// After `ffff:` in the text of an IPv4 address mapped into IPv6, the two
/// groups of the IPv4 address are read, and the reading ends the text.
#[verifier::spinoff_prover]
pub proof fn lemma_ipv4_mapped_tail(v4: u32)
    ensures
        read_groups(ipv4_mapped_text(v4), 6, 1, 7) == (
            seq![v4 as int / 65536, v4 as int % 65536],
            true,
            ipv4_mapped_text(v4).len() as int,
        ),
{
    let m = ipv4_mapped_text(v4);
    assert(m[6] == 0x3a);
    assert(after_sep(m, 6, 1) == Some(7int));
    assert(m.subrange(7, m.len() as int) =~= ipv4_text(v4));
    lemma_read_ipv4_text(m, 7, v4);
}

/// After the `::` of an IPv4 address mapped into IPv6, the groups read are
/// `ffff` and the two groups of the IPv4 address, and the reading ends the text.
#[verifier::spinoff_prover]
pub proof fn lemma_ipv4_mapped_groups(v4: u32)
    ensures
        read_groups(ipv4_mapped_text(v4), 2, 0, 7) == (
            seq![0xffffint, v4 as int / 65536, v4 as int % 65536],
            true,
            ipv4_mapped_text(v4).len() as int,
        ),
{
    let m = ipv4_mapped_text(v4);
    assert(hex_text(0xffff) =~= seq![0x66u8, 0x66u8, 0x66u8, 0x66u8]) by {
        reveal_with_fuel(hex_text, 5);
    }
    assert(m.subrange(2, 6) =~= hex_text(0xffff));
    assert(m[6] == 0x3a);
    lemma_read_hex_group(m, 2, 0xffff);
    lemma_ipv4_mapped_tail(v4);
    assert(after_sep(m, 2, 0) == Some(2int));
    assert(seq![0xffffint].add(seq![v4 as int / 65536, v4 as int % 65536]) =~= seq![
        0xffffint,
        v4 as int / 65536,
        v4 as int % 65536,
    ]);
}

/// Five zero groups, `ffff` and the two groups of an IPv4 address have the
/// value of `::ffff:` followed by the address.
pub proof fn lemma_ipv4_mapped_value(v4: u32)
    ensures
        groups_value(
            Seq::new(5, |j: int| 0int) + seq![0xffffint, v4 as int / 65536, v4 as int % 65536],
        ) == 0xffff_0000_0000 + v4,
{
    let hi = v4 as int / 65536;
    let lo = v4 as int % 65536;
    let z = Seq::new(5, |j: int| 0int);
    let g1 = z + seq![0xffffint];
    let g2 = z + seq![0xffffint, hi];
    let g = z + seq![0xffffint, hi, lo];
    lemma_groups_value_zeros(5);
    assert(g1.drop_last() =~= z);
    assert(groups_value(g1) == groups_value(z) * 65536 + 0xffff);
    assert(g2.drop_last() =~= g1);
    assert(groups_value(g2) == groups_value(g1) * 65536 + hi);
    assert(g.drop_last() =~= g2);
    assert(groups_value(g) == groups_value(g2) * 65536 + lo);
    assert(hi * 65536 + lo == v4);
}

/// The text of an IPv4 address mapped into IPv6: hex digits, colons and dots,
/// and read back as an IPv6 address it is `::ffff:` followed by the 32 bits of
/// the IPv4 address.
#[verifier::spinoff_prover]
#[verifier::rlimit(50)]
pub proof fn lemma_ipv4_mapped_text(v4: u32)
    ensures
        forall|j: int|
            0 <= j < ipv4_mapped_text(v4).len() ==> is_hex_digit(#[trigger] ipv4_mapped_text(v4)[j])
                || ipv4_mapped_text(v4)[j] == 0x3a || ipv4_mapped_text(v4)[j] == 0x2e,
        ipv4_mapped_text(v4).len() > 0,
        parse_ipv6(ipv4_mapped_text(v4)) == Some((0xffff_0000_0000 + v4) as u128),
{
    let f = ipv4_text(v4);
    let m = ipv4_mapped_text(v4);
    lemma_ipv4_text(v4);
    assert forall|j: int| 0 <= j < m.len() implies is_hex_digit(#[trigger] m[j]) || m[j] == 0x3a
        || m[j] == 0x2e by {
        if j >= 7 {
            assert(m[j] == f[j - 7]);
        }
    }
    // Nothing before the `::`.
    assert(groups_text(Seq::<int>::empty(), 0) =~= Seq::<u8>::empty());
    assert(m.subrange(0, 0) =~= Seq::<u8>::empty());
    lemma_read_groups_text(m, 0, Seq::<int>::empty(), 0, 8);
    assert(Seq::<int>::empty().subrange(0, 0) =~= Seq::<int>::empty());
    lemma_ipv4_mapped_groups(v4);
    lemma_ipv4_mapped_value(v4);
    let hi = v4 as int / 65536;
    let lo = v4 as int % 65536;
    assert(Seq::<int>::empty() + Seq::new(5, |j: int| 0int) + seq![0xffffint, hi, lo] =~= Seq::new(
        5,
        |j: int| 0int,
    ) + seq![0xffffint, hi, lo]);
}

/// An IPv4 address mapped into IPv6, written as `ipv4_mapped_text` writes it,
/// in brackets and followed by a colon and a port written in decimal, is read
/// back as that IPv6 address and port; in brackets alone it is read as that
/// address with the default port.
pub proof fn law_ipv4_mapped_text_round_trip(v4: u32, port: u16, default_port: u16)
    ensures
        spec_connect_host(
            seq![0x5bu8] + ipv4_mapped_text(v4) + seq![0x5du8, 0x3au8] + decimal_text(port as nat),
            default_port,
        ) == Ok::<(HostView, u16), AddrParseError>(
            (HostView::Ipv6((0xffff_0000_0000 + v4) as u128), port),
        ),
        spec_connect_host(seq![0x5bu8] + ipv4_mapped_text(v4) + seq![0x5du8], default_port) == Ok::<
            (HostView, u16),
            AddrParseError,
        >((HostView::Ipv6((0xffff_0000_0000 + v4) as u128), default_port)),
{
    lemma_ipv4_mapped_text(v4);
    lemma_bracketed(ipv4_mapped_text(v4), (0xffff_0000_0000 + v4) as u128, default_port);
    lemma_bracketed_port(ipv4_mapped_text(v4), (0xffff_0000_0000 + v4) as u128, port, default_port);
}

/// An IPv6 address written in full as `ipv6_text` writes it, in brackets and
/// followed by a colon and a port written in decimal, is read back as that
/// address and port; in brackets alone it is read as that address with the
/// default port.
pub proof fn law_ipv6_text_round_trip(ip: u128, port: u16, default_port: u16)
    ensures
        spec_connect_host(
            seq![0x5bu8] + ipv6_text(ip) + seq![0x5du8, 0x3au8] + decimal_text(port as nat),
            default_port,
        ) == Ok::<(HostView, u16), AddrParseError>((HostView::Ipv6(ip), port)),
        spec_connect_host(seq![0x5bu8] + ipv6_text(ip) + seq![0x5du8], default_port) == Ok::<
            (HostView, u16),
            AddrParseError,
        >((HostView::Ipv6(ip), default_port)),
{
    lemma_ipv6_text(ip);
    lemma_bracketed(ipv6_text(ip), ip, default_port);
    lemma_bracketed_port(ipv6_text(ip), ip, port, default_port);
}


/// The length of the run of zero groups of `gs` that starts at `i`.
pub open spec fn zero_run(gs: Seq<int>, i: int) -> int
    decreases gs.len() - i,
{
    if 0 <= i < gs.len() && gs[i] == 0 {
        1 + zero_run(gs, i + 1)
    } else {
        0
    }
}

/// The start and length of the first longest run of zero groups of `gs` at or
/// after `i`, or `best` if none from there is longer.
pub open spec fn longest_zero_run(gs: Seq<int>, i: int, best: (int, int)) -> (int, int)
    decreases gs.len() - i,
{
    if i < 0 || i >= gs.len() {
        best
    } else if zero_run(gs, i) > best.1 {
        longest_zero_run(gs, i + 1, (i, zero_run(gs, i)))
    } else {
        longest_zero_run(gs, i + 1, best)
    }
}

/// An IPv6 address as `Ipv6Addr`'s `Display` writes it: an address that maps
/// an IPv4 address as `::ffff:a.b.c.d`; otherwise with the first longest run of
/// two or more zero groups written as `::`; otherwise in full.
pub open spec fn ipv6_display_text(ip: u128) -> Seq<u8> {
    let run = longest_zero_run(groups_from(ip as int, 8), 0, (0, 0));
    if ip as int / 0x1_0000_0000 == 0xffff {
        ipv4_mapped_text((ip as int % 0x1_0000_0000) as u32)
    } else if run.1 > 1 {
        ipv6_text_compressed(ip, run.0 as nat, (8 - run.0 - run.1) as nat)
    } else {
        ipv6_text(ip)
    }
}

/// A run of zero groups is zero groups, within `gs`.
pub proof fn lemma_zero_run(gs: Seq<int>, i: int)
    ensures
        zero_run(gs, i) >= 0,
        zero_run(gs, i) > 0 ==> 0 <= i && i + zero_run(gs, i) <= gs.len(),
        forall|k: int| i <= k < i + zero_run(gs, i) ==> #[trigger] gs[k] == 0,
    decreases gs.len() - i,
{
    if 0 <= i < gs.len() && gs[i] == 0 {
        lemma_zero_run(gs, i + 1);
    }
}

/// The longest run found is a run of zero groups within `gs`.
pub proof fn lemma_longest_zero_run(gs: Seq<int>, i: int, best: (int, int))
    requires
        best.1 >= 0,
        best.1 > 0 ==> 0 <= best.0 && best.0 + best.1 <= gs.len(),
        forall|k: int| best.0 <= k < best.0 + best.1 ==> #[trigger] gs[k] == 0,
    ensures
        longest_zero_run(gs, i, best).1 >= 0,
        longest_zero_run(gs, i, best).1 > 0 ==> 0 <= longest_zero_run(gs, i, best).0
            && longest_zero_run(gs, i, best).0 + longest_zero_run(gs, i, best).1 <= gs.len(),
        forall|k: int|
            longest_zero_run(gs, i, best).0 <= k < longest_zero_run(gs, i, best).0
                + longest_zero_run(gs, i, best).1 ==> #[trigger] gs[k] == 0,
    decreases gs.len() - i,
{
    if !(i < 0 || i >= gs.len()) {
        lemma_zero_run(gs, i);
        if zero_run(gs, i) > best.1 {
            lemma_longest_zero_run(gs, i + 1, (i, zero_run(gs, i)));
        } else {
            lemma_longest_zero_run(gs, i + 1, best);
        }
    }
}

/// What `Ipv6Addr`'s `Display` writes for an address, in brackets and followed
/// by a colon and a port written in decimal, is read back as that address and
/// port; in brackets alone it is read as that address with the default port.
/// With `law_ipv4_text_round_trip`, this is the round trip of every address
/// and port as `Display` writes them.
pub proof fn law_ipv6_display_round_trip(ip: u128, port: u16, default_port: u16)
    ensures
        spec_connect_host(
            seq![0x5bu8] + ipv6_display_text(ip) + seq![0x5du8, 0x3au8] + decimal_text(port as nat),
            default_port,
        ) == Ok::<(HostView, u16), AddrParseError>((HostView::Ipv6(ip), port)),
        spec_connect_host(seq![0x5bu8] + ipv6_display_text(ip) + seq![0x5du8], default_port) == Ok::<
            (HostView, u16),
            AddrParseError,
        >((HostView::Ipv6(ip), default_port)),
{
    let gs = groups_from(ip as int, 8);
    let run = longest_zero_run(gs, 0, (0, 0));
    if ip as int / 0x1_0000_0000 == 0xffff {
        let v4 = (ip as int % 0x1_0000_0000) as u32;
        assert(0xffff_0000_0000 + v4 == ip);
        law_ipv4_mapped_text_round_trip(v4, port, default_port);
    } else if run.1 > 1 {
        lemma_ipv6_groups(ip);
        lemma_longest_zero_run(gs, 0, (0, 0));
        let a = run.0 as nat;
        let b = (8 - run.0 - run.1) as nat;
        assert(zero_groups(ip, a, b)) by {
            assert forall|k: int| a <= k < 8 - b implies #[trigger] groups_from(ip as int, 8)[k] == 0 by {
                assert(gs[k] == 0);
            }
        }
        law_ipv6_text_compressed_round_trip(ip, a, b, port, default_port);
    } else {
        law_ipv6_text_round_trip(ip, port, default_port);
    }
}

} // verus!
