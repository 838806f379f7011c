//! Textual socket endpoints.
//!
//! An endpoint is a literal IP address with a port: `a.b.c.d:port` for IPv4,
//! or `[groups]:port` for IPv6, where `groups` is eight colon-separated
//! groups of one to four hexadecimal digits, with at most one `::` standing
//! for one or more zero groups. No hostnames, no zone indices, no embedded
//! IPv4 tails. An IPv4 octet is one to three decimal digits, at most 255,
//! with no leading zero; a port is decimal digits, at most 65535 (leading
//! zeros allowed).
//!
//! The grammar is stated by the `spec` functions here; `parse_address`
//! returns exactly what they accept, and `validate_addresses` checks a whole
//! configuration. Formatting renders an address back as text, IPv6 in its
//! canonical form: lowercase hexadecimal, no leading zeros, the leftmost
//! longest run of two or more zero groups compressed to `::`.

use vstd::prelude::*;
use vstd::string::StrSliceExecFns;
use vstd::string::StringExecFns;

verus! {

// ---------------------------------------------------------------------------
// Characters and digit strings
// ---------------------------------------------------------------------------
/// A decimal digit `0` to `9`.
pub open spec fn is_dec_digit(c: char) -> bool {
    '0' as int <= c as int <= '9' as int
}

/// The value of a decimal digit.
pub open spec fn dec_digit_val(c: char) -> int {
    c as int - '0' as int
}

/// A hexadecimal digit, either case.
pub open spec fn is_hex_digit(c: char) -> bool {
    is_dec_digit(c) || 'a' as int <= c as int <= 'f' as int || 'A' as int <= c as int
        <= 'F' as int
}

/// The value of a hexadecimal digit.
pub open spec fn hex_digit_val(c: char) -> int {
    if is_dec_digit(c) {
        dec_digit_val(c)
    } else if 'a' as int <= c as int <= 'f' as int {
        c as int - 'a' as int + 10
    } else {
        c as int - 'A' as int + 10
    }
}

pub open spec fn all_dec_digits(s: Seq<char>) -> bool {
    forall|i: int| 0 <= i < s.len() ==> is_dec_digit(#[trigger] s[i])
}

pub open spec fn all_hex_digits(s: Seq<char>) -> bool {
    forall|i: int| 0 <= i < s.len() ==> is_hex_digit(#[trigger] s[i])
}

/// The number a string of decimal digits denotes.
pub open spec fn dec_val(s: Seq<char>) -> int
    decreases s.len(),
{
    if s.len() == 0 {
        0
    } else {
        dec_val(s.drop_last()) * 10 + dec_digit_val(s.last())
    }
}

/// The number a string of hexadecimal digits denotes.
pub open spec fn hex_val(s: Seq<char>) -> int
    decreases s.len(),
{
    if s.len() == 0 {
        0
    } else {
        hex_val(s.drop_last()) * 16 + hex_digit_val(s.last())
    }
}

/// `base` to the power `n`.
pub open spec fn pow_of(base: int, n: nat) -> int
    decreases n,
{
    if n == 0 {
        1
    } else {
        base * pow_of(base, (n - 1) as nat)
    }
}

/// A string of decimal digits denotes a number below `10 ^ length`.
pub proof fn lemma_dec_val_bound(s: Seq<char>)
    requires
        all_dec_digits(s),
    ensures
        0 <= dec_val(s) < pow_of(10, s.len()),
    decreases s.len(),
{
    if s.len() > 0 {
        lemma_dec_val_bound(s.drop_last());
    }
}

/// A string of hexadecimal digits denotes a number below `16 ^ length`.
pub proof fn lemma_hex_val_bound(s: Seq<char>)
    requires
        all_hex_digits(s),
    ensures
        0 <= hex_val(s) < pow_of(16, s.len()),
    decreases s.len(),
{
    if s.len() > 0 {
        lemma_hex_val_bound(s.drop_last());
    }
}

// ---------------------------------------------------------------------------
// The pieces of the grammar
// ---------------------------------------------------------------------------
/// The value of one IPv4 octet text: one to three decimal digits, at most
/// 255, no leading zero.
pub open spec fn octet_of(s: Seq<char>) -> Option<u8> {
    if 1 <= s.len() <= 3 && all_dec_digits(s) && (s[0] == '0' ==> s.len() == 1) && dec_val(s)
        <= 255 {
        Some(dec_val(s) as u8)
    } else {
        None
    }
}

/// The value of one IPv6 group text: one to four hexadecimal digits.
pub open spec fn group_of(s: Seq<char>) -> Option<u16> {
    if 1 <= s.len() <= 4 && all_hex_digits(s) {
        Some(hex_val(s) as u16)
    } else {
        None
    }
}

/// The value of a port text: decimal digits, at most 65535; leading zeros
/// are accepted.
pub open spec fn port_of(s: Seq<char>) -> Option<u16> {
    if s.len() >= 1 && all_dec_digits(s) && dec_val(s) <= 65535 {
        Some(dec_val(s) as u16)
    } else {
        None
    }
}

// ---------------------------------------------------------------------------
// Finding separators and splitting
// ---------------------------------------------------------------------------
/// Index of the first occurrence of `c`.
pub open spec fn find_char(s: Seq<char>, c: char) -> Option<int>
    decreases s.len(),
{
    if s.len() == 0 {
        None
    } else if s[0] == c {
        Some(0int)
    } else {
        match find_char(s.drop_first(), c) {
            None => None,
            Some(i) => Some(i + 1),
        }
    }
}

/// `find_char` returns exactly the least index holding `c`.
pub proof fn lemma_find_char(s: Seq<char>, c: char)
    ensures
        match find_char(s, c) {
            Some(i) => 0 <= i < s.len() && s[i] == c && (forall|j: int| 0 <= j < i ==> s[j] != c),
            None => forall|j: int| 0 <= j < s.len() ==> s[j] != c,
        },
    decreases s.len(),
{
    if s.len() > 0 && s[0] != c {
        let tail = s.drop_first();
        lemma_find_char(tail, c);
        assert(forall|j: int| 0 <= j < tail.len() ==> tail[j] == s[j + 1]);
        match find_char(tail, c) {
            Some(i) => {
                assert(s[i + 1] == tail[i]);
                assert forall|j: int| 0 <= j < i + 1 implies s[j] != c by {
                    if j > 0 {
                        assert(tail[j - 1] != c);
                    }
                }
            },
            None => {
                assert forall|j: int| 0 <= j < s.len() implies s[j] != c by {
                    if j > 0 {
                        assert(tail[j - 1] != c);
                    }
                }
            },
        }
    }
}

/// The first occurrence determines `find_char`.
pub proof fn lemma_find_char_is(s: Seq<char>, c: char, i: int)
    requires
        0 <= i < s.len(),
        s[i] == c,
        forall|j: int| 0 <= j < i ==> s[j] != c,
    ensures
        find_char(s, c) == Some(i),
{
    lemma_find_char(s, c);
    match find_char(s, c) {
        None => {
            assert(s[i] != c);
        },
        Some(k) => {
            if k < i {
                assert(s[k] != c);
            }
            if i < k {
                assert(s[i] != c);
            }
        },
    }
}

/// Absence of `c` determines `find_char`.
pub proof fn lemma_find_char_none(s: Seq<char>, c: char)
    requires
        forall|j: int| 0 <= j < s.len() ==> s[j] != c,
    ensures
        find_char(s, c) is None,
{
    lemma_find_char(s, c);
    if find_char(s, c) is Some {
        let i = find_char(s, c)->Some_0;
        assert(s[i] == c);
    }
}

/// The parts of `s` between occurrences of `sep`: always one more part than
/// there are separators, and a part may be empty.
pub open spec fn split_on(s: Seq<char>, sep: char) -> Seq<Seq<char>>
    decreases s.len(),
{
    match find_char(s, sep) {
        None => seq![s],
        Some(i) => {
            proof {
                lemma_find_char(s, sep);
            }
            if 0 <= i < s.len() {
                seq![s.take(i)] + split_on(s.skip(i + 1), sep)
            } else {
                seq![s]
            }
        },
    }
}

/// Index of the first `::`.
pub open spec fn find_double_colon(s: Seq<char>) -> Option<int>
    decreases s.len(),
{
    if s.len() < 2 {
        None
    } else if s[0] == ':' && s[1] == ':' {
        Some(0int)
    } else {
        match find_double_colon(s.drop_first()) {
            None => None,
            Some(i) => Some(i + 1),
        }
    }
}

/// `find_double_colon` returns exactly the least index starting a `::`.
pub proof fn lemma_find_double_colon(s: Seq<char>)
    ensures
        match find_double_colon(s) {
            Some(i) => 0 <= i < s.len() - 1 && s[i] == ':' && s[i + 1] == ':' && (forall|j: int|
                0 <= j < i ==> !(#[trigger] s[j] == ':' && s[j + 1] == ':')),
            None => forall|j: int| 0 <= j < s.len() - 1 ==> !(#[trigger] s[j] == ':' && s[j + 1] == ':'),
        },
    decreases s.len(),
{
    if s.len() >= 2 && !(s[0] == ':' && s[1] == ':') {
        let tail = s.drop_first();
        lemma_find_double_colon(tail);
        assert(forall|j: int| 0 <= j < tail.len() ==> tail[j] == s[j + 1]);
        match find_double_colon(tail) {
            Some(i) => {
                assert(s[i + 1] == tail[i] && s[i + 2] == tail[i + 1]);
                assert forall|j: int| 0 <= j < i + 1 implies !(#[trigger] s[j] == ':' && s[j + 1] == ':') by {
                    if j > 0 {
                        assert(!(tail[j - 1] == ':' && tail[j] == ':'));
                    }
                }
            },
            None => {
                assert forall|j: int| 0 <= j < s.len() - 1 implies !(#[trigger] s[j] == ':' && s[j + 1]
                    == ':') by {
                    if j > 0 {
                        assert(!(tail[j - 1] == ':' && tail[j] == ':'));
                    }
                }
            },
        }
    }
}

/// The first `::` determines `find_double_colon`.
pub proof fn lemma_find_double_colon_is(s: Seq<char>, i: int)
    requires
        0 <= i < s.len() - 1,
        s[i] == ':',
        s[i + 1] == ':',
        forall|j: int| 0 <= j < i ==> !(#[trigger] s[j] == ':' && s[j + 1] == ':'),
    ensures
        find_double_colon(s) == Some(i),
{
    lemma_find_double_colon(s);
    match find_double_colon(s) {
        None => {
            assert(!(s[i] == ':' && s[i + 1] == ':'));
        },
        Some(k) => {
            if k < i {
                assert(!(s[k] == ':' && s[k + 1] == ':'));
            }
            if i < k {
                assert(!(s[i] == ':' && s[i + 1] == ':'));
            }
        },
    }
}

/// Absence of `::` determines `find_double_colon`.
pub proof fn lemma_find_double_colon_none(s: Seq<char>)
    requires
        forall|j: int| 0 <= j < s.len() - 1 ==> !(#[trigger] s[j] == ':' && s[j + 1] == ':'),
    ensures
        find_double_colon(s) is None,
{
    lemma_find_double_colon(s);
    if find_double_colon(s) is Some {
        let i = find_double_colon(s)->Some_0;
        assert(s[i] == ':' && s[i + 1] == ':');
    }
}

// ---------------------------------------------------------------------------
// Addresses
// ---------------------------------------------------------------------------
/// The octet values of a sequence of octet texts, or `None` if any is
/// malformed.
pub open spec fn octets_of(parts: Seq<Seq<char>>) -> Option<Seq<u8>>
    decreases parts.len(),
{
    if parts.len() == 0 {
        Some(Seq::empty())
    } else {
        match (octet_of(parts[0]), octets_of(parts.drop_first())) {
            (Some(o), Some(rest)) => Some(seq![o] + rest),
            _ => None,
        }
    }
}

/// The group values of a sequence of group texts, or `None` if any is
/// malformed.
pub open spec fn groups_of(parts: Seq<Seq<char>>) -> Option<Seq<u16>>
    decreases parts.len(),
{
    if parts.len() == 0 {
        Some(Seq::empty())
    } else {
        match (group_of(parts[0]), groups_of(parts.drop_first())) {
            (Some(g), Some(rest)) => Some(seq![g] + rest),
            _ => None,
        }
    }
}

/// The four octets of an IPv4 address text.
pub open spec fn spec_v4(s: Seq<char>) -> Option<Seq<u8>> {
    let parts = split_on(s, '.');
    if parts.len() == 4 {
        octets_of(parts)
    } else {
        None
    }
}

/// The groups denoted by a colon-separated group list; the empty text denotes
/// the empty list.
pub open spec fn group_list_of(s: Seq<char>) -> Option<Seq<u16>> {
    if s.len() == 0 {
        Some(Seq::empty())
    } else {
        groups_of(split_on(s, ':'))
    }
}

/// The eight groups of an IPv6 address text: either eight explicit groups, or
/// one `::` standing for the missing (all-zero) groups between at most seven
/// explicit ones.
pub open spec fn spec_v6(s: Seq<char>) -> Option<Seq<u16>> {
    match find_double_colon(s) {
        None => {
            let parts = split_on(s, ':');
            if parts.len() == 8 {
                groups_of(parts)
            } else {
                None
            }
        },
        Some(i) => {
            match (group_list_of(s.take(i)), group_list_of(s.skip(i + 2))) {
                (Some(l), Some(r)) => {
                    if l.len() + r.len() <= 7 {
                        Some(l + Seq::new((8 - l.len() - r.len()) as nat, |k: int| 0u16) + r)
                    } else {
                        None
                    }
                },
                _ => None,
            }
        },
    }
}

/// An IPv4 socket address text: the address, a colon, the port.
pub open spec fn spec_socket_v4(s: Seq<char>) -> Option<(Seq<u8>, u16)> {
    match find_char(s, ':') {
        None => None,
        Some(i) => {
            match (spec_v4(s.take(i)), port_of(s.skip(i + 1))) {
                (Some(o), Some(p)) => Some((o, p)),
                _ => None,
            }
        },
    }
}

/// An IPv6 socket address text: the address in brackets, a colon, the port.
pub open spec fn spec_socket_v6(s: Seq<char>) -> Option<(Seq<u16>, u16)> {
    if s.len() >= 1 && s[0] == '[' {
        match find_char(s, ']') {
            None => None,
            Some(j) => {
                if 0 <= j && j + 1 < s.len() && s[j + 1] == ':' {
                    match (spec_v6(s.subrange(1, j)), port_of(s.skip(j + 2))) {
                        (Some(g), Some(p)) => Some((g, p)),
                        _ => None,
                    }
                } else {
                    None
                }
            },
        }
    } else {
        None
    }
}

/// A well-formed socket endpoint text, of either family.
pub open spec fn spec_valid_endpoint(s: Seq<char>) -> bool {
    spec_socket_v4(s) is Some || spec_socket_v6(s) is Some
}

// ---------------------------------------------------------------------------
// Scanning text
// ---------------------------------------------------------------------------
/// First occurrence of `c` in `s[start..end)`, if any.
fn scan_char(s: &str, start: usize, end: usize, c: char) -> (r: Option<usize>)
    requires
        start <= end <= s@.len(),
    ensures
        match r {
            Some(k) => start <= k < end && s@[k as int] == c && (forall|j: int|
                start <= j < k ==> s@[j] != c),
            None => forall|j: int| start <= j < end ==> s@[j] != c,
        },
{
    let mut i = start;
    while i < end
        invariant
            start <= i <= end <= s@.len(),
            forall|j: int| start <= j < i ==> s@[j] != c,
        decreases end - i,
    {
        if s.get_char(i) == c {
            return Some(i);
        }
        i = i + 1;
    }
    None
}

/// First `::` in `s[start..end)`, if any.
fn scan_double_colon(s: &str, start: usize, end: usize) -> (r: Option<usize>)
    requires
        start <= end <= s@.len(),
    ensures
        match r {
            Some(k) => start <= k && k + 1 < end && s@[k as int] == ':' && s@[k + 1] == ':' && (
            forall|j: int| start <= j < k ==> !(#[trigger] s@[j] == ':' && s@[j + 1] == ':')),
            None => forall|j: int|
                start <= j && j + 1 < end ==> !(#[trigger] s@[j] == ':' && s@[j + 1] == ':'),
        },
{
    let mut i = start;
    while end - i > 1
        invariant
            start <= i <= end <= s@.len(),
            forall|j: int| start <= j < i ==> !(#[trigger] s@[j] == ':' && s@[j + 1] == ':'),
        decreases end - i,
    {
        if s.get_char(i) == ':' && s.get_char(i + 1) == ':' {
            return Some(i);
        }
        i = i + 1;
    }
    None
}

// ---------------------------------------------------------------------------
// Parsing digit strings
// ---------------------------------------------------------------------------
/// Parse one IPv4 octet from `s[start..end)`.
fn parse_octet(s: &str, start: usize, end: usize) -> (r: Option<u8>)
    requires
        start <= end <= s@.len(),
    ensures
        r == octet_of(s@.subrange(start as int, end as int)),
{
    let ghost sub = s@.subrange(start as int, end as int);
    let n = end - start;
    if n < 1 || n > 3 {
        return None;
    }
    if n > 1 && s.get_char(start) == '0' {
        proof {
            assert(sub[0] == '0');
        }
        return None;
    }
    let mut i = start;
    let mut acc: u32 = 0;
    while i < end
        invariant
            start <= i <= end <= s@.len(),
            end - start <= 3,
            sub == s@.subrange(start as int, end as int),
            all_dec_digits(sub.take(i - start)),
            acc == dec_val(sub.take(i - start)),
            acc < 1000,
        decreases end - i,
    {
        let c = s.get_char(i);
        let v = c as u32;
        proof {
            assert(sub[i - start] == c);
        }
        if v < 48 || v > 57 {
            proof {
                assert(!is_dec_digit(c));
            }
            return None;
        }
        proof {
            let k = i - start;
            assert(sub.take(k + 1).drop_last() =~= sub.take(k));
            assert(sub.take(k + 1).last() == c);
            lemma_dec_val_bound(sub.take(k));
            assert(pow_of(10, 0) == 1);
            assert(pow_of(10, 1) == 10);
            assert(pow_of(10, 2) == 100);
            assert(acc < 100);
        }
        acc = acc * 10 + (v - 48);
        i = i + 1;
    }
    proof {
        assert(sub.take(end - start) =~= sub);
    }
    if acc <= 255 {
        Some(acc as u8)
    } else {
        None
    }
}

/// Parse one IPv6 group from `s[start..end)`.
fn parse_group(s: &str, start: usize, end: usize) -> (r: Option<u16>)
    requires
        start <= end <= s@.len(),
    ensures
        r == group_of(s@.subrange(start as int, end as int)),
{
    let ghost sub = s@.subrange(start as int, end as int);
    let n = end - start;
    if n < 1 || n > 4 {
        return None;
    }
    let mut i = start;
    let mut acc: u32 = 0;
    while i < end
        invariant
            start <= i <= end <= s@.len(),
            end - start <= 4,
            sub == s@.subrange(start as int, end as int),
            all_hex_digits(sub.take(i - start)),
            acc == hex_val(sub.take(i - start)),
            acc < 65536,
        decreases end - i,
    {
        let c = s.get_char(i);
        let v = c as u32;
        proof {
            assert(sub[i - start] == c);
        }
        let d: u32 = if 48 <= v && v <= 57 {
            v - 48
        } else if 97 <= v && v <= 102 {
            v - 87
        } else if 65 <= v && v <= 70 {
            v - 55
        } else {
            proof {
                assert(!is_hex_digit(c));
            }
            return None;
        };
        proof {
            assert(is_hex_digit(c) && d == hex_digit_val(c));
            let k = i - start;
            assert(sub.take(k + 1).drop_last() =~= sub.take(k));
            assert(sub.take(k + 1).last() == c);
            lemma_hex_val_bound(sub.take(k));
            assert(pow_of(16, 0) == 1);
            assert(pow_of(16, 1) == 16);
            assert(pow_of(16, 2) == 256);
            assert(pow_of(16, 3) == 4096);
            assert(acc < 4096);
        }
        acc = acc * 16 + d;
        i = i + 1;
    }
    proof {
        assert(sub.take(end - start) =~= sub);
        lemma_hex_val_bound(sub);
        assert(pow_of(16, 0) == 1);
        assert(pow_of(16, 1) == 16);
        assert(pow_of(16, 2) == 256);
        assert(pow_of(16, 3) == 4096);
        assert(pow_of(16, 4) == 65536);
    }
    Some(acc as u16)
}

/// Parse a port from `s[start..end)`.
fn parse_port(s: &str, start: usize, end: usize) -> (r: Option<u16>)
    requires
        start <= end <= s@.len(),
    ensures
        r == port_of(s@.subrange(start as int, end as int)),
{
    let ghost sub = s@.subrange(start as int, end as int);
    if end - start < 1 {
        return None;
    }
    let mut i = start;
    let mut acc: u32 = 0;
    while i < end
        invariant
            start <= i <= end <= s@.len(),
            sub == s@.subrange(start as int, end as int),
            all_dec_digits(sub.take(i - start)),
            acc <= 65535 ==> acc == dec_val(sub.take(i - start)),
            acc > 65535 ==> dec_val(sub.take(i - start)) > 65535,
            acc <= 655359,
        decreases end - i,
    {
        let c = s.get_char(i);
        let v = c as u32;
        proof {
            assert(sub[i - start] == c);
        }
        if v < 48 || v > 57 {
            proof {
                assert(!is_dec_digit(c));
            }
            return None;
        }
        proof {
            let k = i - start;
            assert(sub.take(k + 1).drop_last() =~= sub.take(k));
            assert(sub.take(k + 1).last() == c);
            lemma_dec_val_bound(sub.take(k));
        }
        if acc <= 65535 {
            acc = acc * 10 + (v - 48);
        }
        i = i + 1;
    }
    proof {
        assert(sub.take(end - start) =~= sub);
    }
    if acc <= 65535 {
        Some(acc as u16)
    } else {
        None
    }
}

// ---------------------------------------------------------------------------
// Parsing part lists
// ---------------------------------------------------------------------------
/// Parse the dot-separated octet texts of `s[start..end)`.
fn parse_octets(s: &str, start: usize, end: usize) -> (r: Option<Vec<u8>>)
    requires
        start <= end <= s@.len(),
    ensures
        ({
            let parts = split_on(s@.subrange(start as int, end as int), '.');
            match r {
                Some(v) => octets_of(parts) == Some(v@) && v@.len() == parts.len(),
                None => octets_of(parts) is None,
            }
        }),
    decreases end - start,
{
    let ghost sub = s@.subrange(start as int, end as int);
    match scan_char(s, start, end, '.') {
        None => {
            proof {
                assert forall|j: int| 0 <= j < sub.len() implies sub[j] != '.' by {
                    assert(sub[j] == s@[j + start]);
                }
                lemma_find_char_none(sub, '.');
                assert(split_on(sub, '.') == seq![sub]);
                assert(seq![sub].drop_first() =~= Seq::<Seq<char>>::empty());
            }
            match parse_octet(s, start, end) {
                Some(o) => {
                    let mut v: Vec<u8> = Vec::new();
                    v.push(o);
                    proof {
                        assert(octets_of(Seq::<Seq<char>>::empty()) == Some(Seq::<u8>::empty()));
                        assert(seq![sub][0] == sub);
                        assert(octets_of(seq![sub]) == Some(seq![o] + Seq::<u8>::empty()));
                        assert(v@ =~= seq![o] + Seq::<u8>::empty());
                    }
                    Some(v)
                },
                None => None,
            }
        },
        Some(k) => {
            proof {
                assert forall|j: int| 0 <= j < k - start implies sub[j] != '.' by {
                    assert(sub[j] == s@[j + start]);
                }
                assert(sub[k - start] == s@[k as int]);
                lemma_find_char_is(sub, '.', k - start);
                assert(sub.take(k - start) =~= s@.subrange(start as int, k as int));
                assert(sub.skip(k - start + 1) =~= s@.subrange(k + 1, end as int));
                assert(split_on(sub, '.') == seq![sub.take(k - start)] + split_on(
                    sub.skip(k - start + 1),
                    '.',
                ));
                assert((seq![sub.take(k - start)] + split_on(sub.skip(k - start + 1), '.'))[0]
                    == sub.take(k - start));
                assert((seq![sub.take(k - start)] + split_on(
                    sub.skip(k - start + 1),
                    '.',
                )).drop_first() =~= split_on(sub.skip(k - start + 1), '.'));
            }
            let first = parse_octet(s, start, k);
            match first {
                None => None,
                Some(o) => {
                    match parse_octets(s, k + 1, end) {
                        None => None,
                        Some(rest) => {
                            let mut v = rest;
                            v.insert(0, o);
                            proof {
                                assert(v@ =~= seq![o] + v@.drop_first());
                            }
                            Some(v)
                        },
                    }
                },
            }
        },
    }
}

/// Parse the colon-separated group texts of `s[start..end)`.
fn parse_groups(s: &str, start: usize, end: usize) -> (r: Option<Vec<u16>>)
    requires
        start <= end <= s@.len(),
    ensures
        ({
            let parts = split_on(s@.subrange(start as int, end as int), ':');
            match r {
                Some(v) => groups_of(parts) == Some(v@) && v@.len() == parts.len(),
                None => groups_of(parts) is None,
            }
        }),
    decreases end - start,
{
    let ghost sub = s@.subrange(start as int, end as int);
    match scan_char(s, start, end, ':') {
        None => {
            proof {
                assert forall|j: int| 0 <= j < sub.len() implies sub[j] != ':' by {
                    assert(sub[j] == s@[j + start]);
                }
                lemma_find_char_none(sub, ':');
                assert(split_on(sub, ':') == seq![sub]);
                assert(seq![sub].drop_first() =~= Seq::<Seq<char>>::empty());
            }
            match parse_group(s, start, end) {
                Some(g) => {
                    let mut v: Vec<u16> = Vec::new();
                    v.push(g);
                    proof {
                        assert(groups_of(Seq::<Seq<char>>::empty()) == Some(Seq::<u16>::empty()));
                        assert(seq![sub][0] == sub);
                        assert(groups_of(seq![sub]) == Some(seq![g] + Seq::<u16>::empty()));
                        assert(v@ =~= seq![g] + Seq::<u16>::empty());
                    }
                    Some(v)
                },
                None => None,
            }
        },
        Some(k) => {
            proof {
                assert forall|j: int| 0 <= j < k - start implies sub[j] != ':' by {
                    assert(sub[j] == s@[j + start]);
                }
                assert(sub[k - start] == s@[k as int]);
                lemma_find_char_is(sub, ':', k - start);
                assert(sub.take(k - start) =~= s@.subrange(start as int, k as int));
                assert(sub.skip(k - start + 1) =~= s@.subrange(k + 1, end as int));
                assert(split_on(sub, ':') == seq![sub.take(k - start)] + split_on(
                    sub.skip(k - start + 1),
                    ':',
                ));
                assert((seq![sub.take(k - start)] + split_on(sub.skip(k - start + 1), ':'))[0]
                    == sub.take(k - start));
                assert((seq![sub.take(k - start)] + split_on(
                    sub.skip(k - start + 1),
                    ':',
                )).drop_first() =~= split_on(sub.skip(k - start + 1), ':'));
            }
            let first = parse_group(s, start, k);
            match first {
                None => None,
                Some(g) => {
                    match parse_groups(s, k + 1, end) {
                        None => None,
                        Some(rest) => {
                            let mut v = rest;
                            v.insert(0, g);
                            proof {
                                assert(v@ =~= seq![g] + v@.drop_first());
                            }
                            Some(v)
                        },
                    }
                },
            }
        },
    }
}

// ---------------------------------------------------------------------------
// Parsing addresses
// ---------------------------------------------------------------------------
/// Parse an IPv4 address text from `s[start..end)`.
fn parse_v4_text(s: &str, start: usize, end: usize) -> (r: Option<Vec<u8>>)
    requires
        start <= end <= s@.len(),
    ensures
        match r {
            Some(v) => spec_v4(s@.subrange(start as int, end as int)) == Some(v@) && v@.len() == 4,
            None => spec_v4(s@.subrange(start as int, end as int)) is None,
        },
{
    match parse_octets(s, start, end) {
        None => None,
        Some(v) => {
            if v.len() == 4 {
                Some(v)
            } else {
                None
            }
        },
    }
}

/// Parse an IPv6 address text from `s[start..end)`.
fn parse_v6_text(s: &str, start: usize, end: usize) -> (r: Option<Vec<u16>>)
    requires
        start <= end <= s@.len(),
    ensures
        match r {
            Some(v) => spec_v6(s@.subrange(start as int, end as int)) == Some(v@) && v@.len() == 8,
            None => spec_v6(s@.subrange(start as int, end as int)) is None,
        },
{
    let ghost sub = s@.subrange(start as int, end as int);
    match scan_double_colon(s, start, end) {
        None => {
            proof {
                assert forall|j: int| 0 <= j < sub.len() - 1 implies !(#[trigger] sub[j] == ':'
                    && sub[j + 1] == ':') by {
                    assert(sub[j] == s@[j + start] && sub[j + 1] == s@[j + start + 1]);
                }
                lemma_find_double_colon_none(sub);
            }
            match parse_groups(s, start, end) {
                None => None,
                Some(v) => {
                    if v.len() == 8 {
                        Some(v)
                    } else {
                        None
                    }
                },
            }
        },
        Some(i) => {
            proof {
                assert forall|j: int| 0 <= j < i - start implies !(#[trigger] sub[j] == ':' && sub[j
                    + 1] == ':') by {
                    assert(sub[j] == s@[j + start] && sub[j + 1] == s@[j + start + 1]);
                }
                assert(sub[i - start] == s@[i as int] && sub[i - start + 1] == s@[i + 1]);
                lemma_find_double_colon_is(sub, i - start);
                assert(sub.take(i - start) =~= s@.subrange(start as int, i as int));
                assert(sub.skip(i - start + 2) =~= s@.subrange(i + 2, end as int));
            }
            let left: Vec<u16> = if i == start {
                proof {
                    assert(sub.take(0) =~= Seq::<char>::empty());
                }
                Vec::new()
            } else {
                match parse_groups(s, start, i) {
                    None => {
                        return None;
                    },
                    Some(v) => v,
                }
            };
            let right: Vec<u16> = if i + 2 == end {
                proof {
                    assert(sub.skip(i - start + 2) =~= Seq::<char>::empty());
                }
                Vec::new()
            } else {
                match parse_groups(s, i + 2, end) {
                    None => {
                        return None;
                    },
                    Some(v) => v,
                }
            };
            proof {
                assert(group_list_of(sub.take(i - start)) == Some(left@));
                assert(group_list_of(sub.skip(i - start + 2)) == Some(right@));
            }
            if left.len() <= 7 && right.len() <= 7 - left.len() {
                let zeros = 8 - left.len() - right.len();
                let ghost left0 = left@;
                let ghost right0 = right@;
                let mut v = left;
                let mut z: usize = 0;
                while z < zeros
                    invariant
                        z <= zeros,
                        v@ == left0 + Seq::new(z as nat, |k: int| 0u16),
                    decreases zeros - z,
                {
                    v.push(0);
                    z = z + 1;
                    proof {
                        assert(v@ =~= left0 + Seq::new(z as nat, |k: int| 0u16));
                    }
                }
                let mut tail = right;
                v.append(&mut tail);
                proof {
                    assert(v@ == left0 + Seq::new(zeros as nat, |k: int| 0u16) + right0);
                }
                Some(v)
            } else {
                None
            }
        },
    }
}

// ---------------------------------------------------------------------------
// Endpoints
// ---------------------------------------------------------------------------
/// A validated IP address, as plain numbers: four octets or eight groups.
#[derive(Debug, Clone)]
pub enum IpAddress {
    V4(Vec<u8>),
    V6(Vec<u16>),
}

/// A validated socket endpoint: an IP address and a port.
#[derive(Debug, Clone)]
pub struct SocketAddress {
    pub ip: IpAddress,
    pub port: u16,
}

/// Rejection of a malformed endpoint text; carries the offending text.
#[derive(Debug, Clone)]
pub struct AddressParseError {
    pub address: String,
}

impl SocketAddress {
    /// Four octets for IPv4, eight groups for IPv6.
    pub open spec fn wf(self) -> bool {
        match self.ip {
            IpAddress::V4(o) => o@.len() == 4,
            IpAddress::V6(g) => g@.len() == 8,
        }
    }

    /// This endpoint is exactly what the text `s` denotes.
    pub open spec fn matches_text(self, s: Seq<char>) -> bool {
        match self.ip {
            IpAddress::V4(o) => spec_socket_v4(s) == Some((o@, self.port)),
            IpAddress::V6(g) => spec_socket_v6(s) == Some((g@, self.port)),
        }
    }

    /// Whether this is an IPv4 endpoint.
    pub fn is_ipv4(&self) -> (r: bool)
        ensures
            r == self.ip is V4,
    {
        match &self.ip {
            IpAddress::V4(_) => true,
            IpAddress::V6(_) => false,
        }
    }

    /// Whether this is an IPv6 endpoint.
    pub fn is_ipv6(&self) -> (r: bool)
        ensures
            r == self.ip is V6,
    {
        match &self.ip {
            IpAddress::V4(_) => false,
            IpAddress::V6(_) => true,
        }
    }

    /// The port.
    pub fn port(&self) -> (r: u16)
        ensures
            r == self.port,
    {
        self.port
    }
}

/// A text whose first character is not a decimal digit denotes no IPv4
/// socket address.
proof fn lemma_socket_v4_none(s: Seq<char>)
    requires
        s.len() > 0,
        !is_dec_digit(s[0]),
    ensures
        spec_socket_v4(s) is None,
{
    match find_char(s, ':') {
        None => {},
        Some(i) => {
            lemma_find_char(s, ':');
            let a = s.take(i);
            let parts = split_on(a, '.');
            if parts.len() == 4 {
                match find_char(a, '.') {
                    None => {
                        assert(parts == seq![a]);
                    },
                    Some(d) => {
                        lemma_find_char(a, '.');
                        assert(parts[0] == a.take(d));
                        if d == 0 {
                            assert(parts[0].len() == 0);
                            assert(octet_of(parts[0]) is None);
                        } else {
                            assert(parts[0][0] == s[0]);
                            assert(octet_of(parts[0]) is None);
                        }
                    },
                }
            }
        },
    }
}

/// Parse a socket endpoint text: a literal IPv4 or IPv6 address with a port.
/// Returns the endpoint the text denotes, or the text itself as the error
/// when it denotes none.
pub fn parse_address(s: &str) -> (r: Result<SocketAddress, AddressParseError>)
    ensures
        r is Ok <==> spec_valid_endpoint(s@),
        match r {
            Ok(a) => a.wf() && a.matches_text(s@),
            Err(e) => e.address@ == s@,
        },
{
    let n = s.unicode_len();
    if n >= 1 && s.get_char(0) == '[' {
        proof {
            lemma_socket_v4_none(s@);
        }
        match scan_char(s, 0, n, ']') {
            None => {
                proof {
                    lemma_find_char_none(s@, ']');
                }
                Err(AddressParseError { address: String::from_str(s) })
            },
            Some(j) => {
                proof {
                    lemma_find_char_is(s@, ']', j as int);
                }
                if j + 1 < n && s.get_char(j + 1) == ':' {
                    let groups = parse_v6_text(s, 1, j);
                    let port = parse_port(s, j + 2, n);
                    proof {
                        assert(s@.skip(j + 2) =~= s@.subrange(j + 2, n as int));
                    }
                    match (groups, port) {
                        (Some(g), Some(p)) => Ok(
                            SocketAddress { ip: IpAddress::V6(g), port: p },
                        ),
                        _ => Err(AddressParseError { address: String::from_str(s) }),
                    }
                } else {
                    Err(AddressParseError { address: String::from_str(s) })
                }
            },
        }
    } else {
        match scan_char(s, 0, n, ':') {
            None => {
                proof {
                    lemma_find_char_none(s@, ':');
                }
                Err(AddressParseError { address: String::from_str(s) })
            },
            Some(i) => {
                proof {
                    lemma_find_char_is(s@, ':', i as int);
                    assert(s@.take(i as int) =~= s@.subrange(0, i as int));
                    assert(s@.skip(i + 1) =~= s@.subrange(i + 1, n as int));
                }
                let octets = parse_v4_text(s, 0, i);
                let port = parse_port(s, i + 1, n);
                match (octets, port) {
                    (Some(o), Some(p)) => Ok(SocketAddress { ip: IpAddress::V4(o), port: p }),
                    _ => Err(AddressParseError { address: String::from_str(s) }),
                }
            },
        }
    }
}

/// Validate a whole configuration: the source endpoint and every destination
/// endpoint must parse. On failure the error carries the first text that does
/// not.
pub fn validate_addresses(source: &String, destinations: &Vec<String>) -> (r: Result<
    (),
    AddressParseError,
>)
    ensures
        r is Ok <==> spec_valid_endpoint(source@) && (forall|i: int|
            0 <= i < destinations@.len() ==> spec_valid_endpoint(#[trigger] destinations@[i]@)),
        r is Err ==> !spec_valid_endpoint((r->Err_0).address@),
        r is Err ==> if !spec_valid_endpoint(source@) {
            (r->Err_0).address@ == source@
        } else {
            exists|i: int|
                #![trigger destinations@[i]]
                0 <= i < destinations@.len() && (r->Err_0).address@ == destinations@[i]@
                    && !spec_valid_endpoint(destinations@[i]@) && (forall|j: int|
                    0 <= j < i ==> spec_valid_endpoint(#[trigger] destinations@[j]@))
        },
{
    match parse_address(source.as_str()) {
        Err(e) => {
            return Err(e);
        },
        Ok(_) => {},
    }
    let mut i: usize = 0;
    while i < destinations.len()
        invariant
            i <= destinations@.len(),
            spec_valid_endpoint(source@),
            forall|j: int| 0 <= j < i ==> spec_valid_endpoint(#[trigger] destinations@[j]@),
        decreases destinations@.len() - i,
    {
        match parse_address(destinations[i].as_str()) {
            Err(e) => {
                return Err(e);
            },
            Ok(_) => {},
        }
        i = i + 1;
    }
    Ok(())
}

// ---------------------------------------------------------------------------
// Rendering addresses as text
// ---------------------------------------------------------------------------
/// The character of one decimal digit value.
pub open spec fn dec_digit_char(d: int) -> char {
    if d == 0 {
        '0'
    } else if d == 1 {
        '1'
    } else if d == 2 {
        '2'
    } else if d == 3 {
        '3'
    } else if d == 4 {
        '4'
    } else if d == 5 {
        '5'
    } else if d == 6 {
        '6'
    } else if d == 7 {
        '7'
    } else if d == 8 {
        '8'
    } else {
        '9'
    }
}

/// The lowercase character of one hexadecimal digit value.
pub open spec fn hex_digit_char(d: int) -> char {
    if d < 10 {
        dec_digit_char(d)
    } else if d == 10 {
        'a'
    } else if d == 11 {
        'b'
    } else if d == 12 {
        'c'
    } else if d == 13 {
        'd'
    } else if d == 14 {
        'e'
    } else {
        'f'
    }
}

/// The decimal text of a number, without leading zeros.
pub open spec fn dec_text(n: int) -> Seq<char>
    decreases n,
    when n >= 0
{
    if n < 10 {
        seq![dec_digit_char(n)]
    } else {
        dec_text(n / 10).push(dec_digit_char(n % 10))
    }
}

/// The lowercase hexadecimal text of a number, without leading zeros.
pub open spec fn hex_text(n: int) -> Seq<char>
    decreases n,
    when n >= 0
{
    if n < 16 {
        seq![hex_digit_char(n)]
    } else {
        hex_text(n / 16).push(hex_digit_char(n % 16))
    }
}

/// The text of an IPv4 address: four decimal octets joined by dots.
pub open spec fn v4_text(o: Seq<u8>) -> Seq<char>
    recommends
        o.len() == 4,
{
    dec_text(o[0] as int) + seq!['.'] + dec_text(o[1] as int) + seq!['.'] + dec_text(o[2] as int)
        + seq!['.'] + dec_text(o[3] as int)
}

/// The hexadecimal texts of a sequence of groups.
pub open spec fn hex_texts(g: Seq<u16>) -> Seq<Seq<char>> {
    Seq::new(g.len(), |i: int| hex_text(g[i] as int))
}

/// Texts joined by single colons.
pub open spec fn join_colon(parts: Seq<Seq<char>>) -> Seq<char>
    decreases parts.len(),
{
    if parts.len() == 0 {
        Seq::empty()
    } else if parts.len() == 1 {
        parts[0]
    } else {
        parts[0] + seq![':'] + join_colon(parts.drop_first())
    }
}

/// The number of zero groups starting at `i`.
pub open spec fn zero_run(g: Seq<u16>, i: int) -> int
    decreases g.len() - i,
    when 0 <= i <= g.len()
{
    if i < g.len() && g[i] == 0 {
        1 + zero_run(g, i + 1)
    } else {
        0
    }
}

/// The leftmost longest run of zero groups at or after `i`: its start and
/// length (start `g.len()` and length zero when there is none).
pub open spec fn best_zero_run(g: Seq<u16>, i: int) -> (int, int)
    decreases g.len() - i,
    when 0 <= i <= g.len()
{
    if i >= g.len() {
        (i, 0)
    } else {
        let cur = zero_run(g, i);
        let rest = best_zero_run(g, i + 1);
        if cur >= rest.1 {
            (i, cur)
        } else {
            rest
        }
    }
}

/// The canonical text of an IPv6 address: lowercase hexadecimal groups
/// without leading zeros, with the leftmost longest run of two or more zero
/// groups compressed to `::`.
pub open spec fn v6_text(g: Seq<u16>) -> Seq<char>
    recommends
        g.len() == 8,
{
    let br = best_zero_run(g, 0);
    if br.1 < 2 {
        join_colon(hex_texts(g))
    } else {
        join_colon(hex_texts(g.take(br.0))) + seq![':', ':'] + join_colon(
            hex_texts(g.skip(br.0 + br.1)),
        )
    }
}

/// The text of one decimal digit.
fn dec_digit_str(d: u8) -> (r: &'static str)
    requires
        d < 10,
    ensures
        r@ == seq![dec_digit_char(d as int)],
{
    match d {
        0 => {
            proof {
                reveal_strlit("0");
                assert("0"@ =~= seq!['0']);
            }
            "0"
        },
        1 => {
            proof {
                reveal_strlit("1");
                assert("1"@ =~= seq!['1']);
            }
            "1"
        },
        2 => {
            proof {
                reveal_strlit("2");
                assert("2"@ =~= seq!['2']);
            }
            "2"
        },
        3 => {
            proof {
                reveal_strlit("3");
                assert("3"@ =~= seq!['3']);
            }
            "3"
        },
        4 => {
            proof {
                reveal_strlit("4");
                assert("4"@ =~= seq!['4']);
            }
            "4"
        },
        5 => {
            proof {
                reveal_strlit("5");
                assert("5"@ =~= seq!['5']);
            }
            "5"
        },
        6 => {
            proof {
                reveal_strlit("6");
                assert("6"@ =~= seq!['6']);
            }
            "6"
        },
        7 => {
            proof {
                reveal_strlit("7");
                assert("7"@ =~= seq!['7']);
            }
            "7"
        },
        8 => {
            proof {
                reveal_strlit("8");
                assert("8"@ =~= seq!['8']);
            }
            "8"
        },
        _ => {
            proof {
                reveal_strlit("9");
                assert("9"@ =~= seq!['9']);
            }
            "9"
        },
    }
}

/// The lowercase text of one hexadecimal digit.
fn hex_digit_str(d: u8) -> (r: &'static str)
    requires
        d < 16,
    ensures
        r@ == seq![hex_digit_char(d as int)],
{
    if d < 10 {
        dec_digit_str(d)
    } else {
        match d {
            10 => {
                proof {
                    reveal_strlit("a");
                    assert("a"@ =~= seq!['a']);
                }
                "a"
            },
            11 => {
                proof {
                    reveal_strlit("b");
                    assert("b"@ =~= seq!['b']);
                }
                "b"
            },
            12 => {
                proof {
                    reveal_strlit("c");
                    assert("c"@ =~= seq!['c']);
                }
                "c"
            },
            13 => {
                proof {
                    reveal_strlit("d");
                    assert("d"@ =~= seq!['d']);
                }
                "d"
            },
            14 => {
                proof {
                    reveal_strlit("e");
                    assert("e"@ =~= seq!['e']);
                }
                "e"
            },
            _ => {
                proof {
                    reveal_strlit("f");
                    assert("f"@ =~= seq!['f']);
                }
                "f"
            },
        }
    }
}

/// The decimal text of one octet.
fn dec_u8_string(n: u8) -> (r: String)
    ensures
        r@ == dec_text(n as int),
    decreases n,
{
    if n < 10 {
        String::from_str(dec_digit_str(n))
    } else {
        let mut front = dec_u8_string(n / 10);
        front.append(dec_digit_str(n % 10));
        proof {
            assert(front@ =~= dec_text((n / 10) as int).push(dec_digit_char((n % 10) as int)));
        }
        front
    }
}

/// The lowercase hexadecimal text of one group.
fn hex_u16_string(n: u16) -> (r: String)
    ensures
        r@ == hex_text(n as int),
    decreases n,
{
    if n < 16 {
        String::from_str(hex_digit_str(n as u8))
    } else {
        let mut front = hex_u16_string(n / 16);
        front.append(hex_digit_str((n % 16) as u8));
        proof {
            assert(front@ =~= hex_text((n / 16) as int).push(hex_digit_char((n % 16) as int)));
        }
        front
    }
}

/// The dotted decimal text of four octets.
fn v4_string(o: &Vec<u8>) -> (r: String)
    requires
        o@.len() == 4,
    ensures
        r@ == v4_text(o@),
{
    proof {
        reveal_strlit(".");
        assert("."@ =~= seq!['.']);
    }
    let mut s = dec_u8_string(o[0]);
    s.append(".");
    let b = dec_u8_string(o[1]);
    s.append(b.as_str());
    s.append(".");
    let c = dec_u8_string(o[2]);
    s.append(c.as_str());
    s.append(".");
    let d = dec_u8_string(o[3]);
    s.append(d.as_str());
    s
}

/// The hexadecimal texts of `g[start..end)`, joined by colons.
fn join_groups(g: &Vec<u16>, start: usize, end: usize) -> (r: String)
    requires
        start <= end <= g@.len(),
    ensures
        r@ == join_colon(hex_texts(g@.subrange(start as int, end as int))),
    decreases end - start,
{
    let ghost sub = g@.subrange(start as int, end as int);
    if start == end {
        proof {
            assert(hex_texts(sub).len() == 0);
        }
        String::new()
    } else if end - start == 1 {
        let s = hex_u16_string(g[start]);
        proof {
            assert(hex_texts(sub).len() == 1);
            assert(hex_texts(sub)[0] == hex_text(g@[start as int] as int));
        }
        s
    } else {
        proof {
            reveal_strlit(":");
            assert(":"@ =~= seq![':']);
        }
        let mut s = hex_u16_string(g[start]);
        s.append(":");
        let rest = join_groups(g, start + 1, end);
        s.append(rest.as_str());
        proof {
            let parts = hex_texts(sub);
            assert(parts.len() >= 2);
            assert(parts[0] == hex_text(g@[start as int] as int));
            assert(parts.drop_first() =~= hex_texts(g@.subrange(start + 1, end as int)));
        }
        s
    }
}

/// The length of the zero run starting at `i`.
fn zero_run_at(g: &Vec<u16>, i: usize) -> (r: usize)
    requires
        i <= g@.len(),
    ensures
        r as int == zero_run(g@, i as int),
        i + r <= g@.len(),
{
    let mut j = i;
    while j < g.len() && g[j] == 0
        invariant
            i <= j <= g@.len(),
            forall|k: int| i <= k < j ==> g@[k] == 0,
        decreases g@.len() - j,
    {
        j = j + 1;
    }
    proof {
        lemma_zero_run_between(g@, i as int, j as int);
    }
    j - i
}

/// Zeros on `[i, j)` and a non-zero (or the end) at `j` pin the run length.
proof fn lemma_zero_run_between(g: Seq<u16>, i: int, j: int)
    requires
        0 <= i <= j <= g.len(),
        forall|k: int| i <= k < j ==> g[k] == 0,
        j == g.len() || g[j] != 0,
    ensures
        zero_run(g, i) == j - i,
    decreases j - i,
{
    if i < j {
        lemma_zero_run_between(g, i + 1, j);
    }
}

/// The leftmost longest zero run of the whole sequence.
fn best_run(g: &Vec<u16>) -> (r: (usize, usize))
    ensures
        (r.0 as int, r.1 as int) == best_zero_run(g@, 0),
        r.0 + r.1 <= g@.len(),
{
    let n = g.len();
    let mut bs: usize = n;
    let mut bl: usize = 0;
    let mut i: usize = n;
    while i > 0
        invariant
            i <= n,
            n == g@.len(),
            (bs as int, bl as int) == best_zero_run(g@, i as int),
            bs + bl <= n,
        decreases i,
    {
        i = i - 1;
        let cur = zero_run_at(g, i);
        if cur >= bl {
            bs = i;
            bl = cur;
        }
    }
    (bs, bl)
}

/// The canonical text of eight groups.
fn v6_string(g: &Vec<u16>) -> (r: String)
    requires
        g@.len() == 8,
    ensures
        r@ == v6_text(g@),
{
    let (bs, bl) = best_run(g);
    if bl < 2 {
        let s = join_groups(g, 0, 8);
        proof {
            assert(g@.subrange(0, 8) =~= g@);
        }
        s
    } else {
        proof {
            reveal_strlit("::");
            assert("::"@ =~= seq![':', ':']);
            assert(g@.subrange(0, bs as int) =~= g@.take(bs as int));
            assert(g@.subrange(bs + bl, 8) =~= g@.skip(bs + bl));
        }
        let mut s = join_groups(g, 0, bs);
        s.append("::");
        let rest = join_groups(g, bs + bl, 8);
        s.append(rest.as_str());
        s
    }
}

impl SocketAddress {
    /// The text of the address part: dotted decimal for IPv4, canonical
    /// lowercase form for IPv6.
    pub open spec fn spec_ip_text(self) -> Seq<char> {
        match self.ip {
            IpAddress::V4(o) => v4_text(o@),
            IpAddress::V6(g) => v6_text(g@),
        }
    }

    /// Render the address part as text.
    pub fn ip_string(&self) -> (r: String)
        requires
            self.wf(),
        ensures
            r@ == self.spec_ip_text(),
    {
        match &self.ip {
            IpAddress::V4(o) => v4_string(o),
            IpAddress::V6(g) => v6_string(g),
        }
    }
}

// ---------------------------------------------------------------------------
// Rendering and parsing are inverse
// ---------------------------------------------------------------------------
/// A positive base has positive powers.
proof fn lemma_pow_pos(base: int, n: nat)
    requires
        base >= 1,
    ensures
        pow_of(base, n) >= 1,
    decreases n,
{
    if n > 0 {
        lemma_pow_pos(base, (n - 1) as nat);
        let p = pow_of(base, (n - 1) as nat);
        assert(base * p >= 1) by (nonlinear_arith)
            requires
                base >= 1,
                p >= 1,
        ;
    }
}

/// Decimal text consists of digits and reads back as the number itself.
pub proof fn lemma_dec_text_val(n: int)
    requires
        n >= 0,
    ensures
        all_dec_digits(dec_text(n)),
        dec_text(n).len() >= 1,
        dec_val(dec_text(n)) == n,
        n > 0 ==> dec_text(n)[0] != '0',
        n == 0 ==> dec_text(n) == seq!['0'],
    decreases n,
{
    if n < 10 {
        let t = dec_text(n);
        assert(t == seq![dec_digit_char(n)]);
        assert(t.drop_last() =~= Seq::<char>::empty());
        assert(dec_val(t) == dec_val(Seq::<char>::empty()) * 10 + dec_digit_val(t.last()));
    } else {
        lemma_dec_text_val(n / 10);
        let front = dec_text(n / 10);
        let t = dec_text(n);
        assert(t == front.push(dec_digit_char(n % 10)));
        assert(t.drop_last() =~= front);
        assert(dec_val(t) == dec_val(front) * 10 + dec_digit_val(t.last()));
        assert(all_dec_digits(t)) by {
            assert(forall|i: int| 0 <= i < front.len() ==> t[i] == front[i]);
        }
        assert(t[0] == front[0]);
    }
}

/// Hexadecimal text consists of hexadecimal digits and reads back as the
/// number itself.
pub proof fn lemma_hex_text_val(n: int)
    requires
        n >= 0,
    ensures
        all_hex_digits(hex_text(n)),
        hex_text(n).len() >= 1,
        hex_val(hex_text(n)) == n,
    decreases n,
{
    if n < 16 {
        let t = hex_text(n);
        assert(t == seq![hex_digit_char(n)]);
        assert(t.drop_last() =~= Seq::<char>::empty());
        assert(hex_val(t) == hex_val(Seq::<char>::empty()) * 16 + hex_digit_val(t.last()));
    } else {
        lemma_hex_text_val(n / 16);
        let front = hex_text(n / 16);
        let t = hex_text(n);
        assert(t == front.push(hex_digit_char(n % 16)));
        assert(t.drop_last() =~= front);
        assert(hex_val(t) == hex_val(front) * 16 + hex_digit_val(t.last()));
        assert(all_hex_digits(t)) by {
            assert(forall|i: int| 0 <= i < front.len() ==> t[i] == front[i]);
        }
    }
}

/// A number below `10 ^ k` has decimal text of at most `k` characters.
proof fn lemma_dec_text_len(n: int, k: nat)
    requires
        k >= 1,
        0 <= n < pow_of(10, k),
    ensures
        dec_text(n).len() <= k,
    decreases n,
{
    if n >= 10 {
        assert(pow_of(10, k) == 10 * pow_of(10, (k - 1) as nat));
        lemma_pow_pos(10, (k - 1) as nat);
        if k == 1 {
            assert(pow_of(10, 1) == 10);
        }
        lemma_dec_text_len(n / 10, (k - 1) as nat);
    }
}

/// A number below `16 ^ k` has hexadecimal text of at most `k` characters.
proof fn lemma_hex_text_len(n: int, k: nat)
    requires
        k >= 1,
        0 <= n < pow_of(16, k),
    ensures
        hex_text(n).len() <= k,
    decreases n,
{
    if n >= 16 {
        assert(pow_of(16, k) == 16 * pow_of(16, (k - 1) as nat));
        lemma_pow_pos(16, (k - 1) as nat);
        if k == 1 {
            assert(pow_of(16, 1) == 16);
        }
        lemma_hex_text_len(n / 16, (k - 1) as nat);
    }
}

/// An octet's decimal text reads back as exactly that octet.
pub proof fn lemma_octet_round_trip(n: u8)
    ensures
        octet_of(dec_text(n as int)) == Some(n),
{
    lemma_dec_text_val(n as int);
    assert(pow_of(10, 0) == 1);
    assert(pow_of(10, 1) == 10);
    assert(pow_of(10, 2) == 100);
    assert(pow_of(10, 3) == 1000);
    lemma_dec_text_len(n as int, 3);
    let t = dec_text(n as int);
    if t[0] == '0' {
        assert(n == 0);
    }
}

/// A group's hexadecimal text reads back as exactly that group.
pub proof fn lemma_group_round_trip(n: u16)
    ensures
        group_of(hex_text(n as int)) == Some(n),
{
    lemma_hex_text_val(n as int);
    assert(pow_of(16, 0) == 1);
    assert(pow_of(16, 1) == 16);
    assert(pow_of(16, 2) == 256);
    assert(pow_of(16, 3) == 4096);
    assert(pow_of(16, 4) == 65536);
    lemma_hex_text_len(n as int, 4);
}

/// A port's decimal text reads back as exactly that port.
pub proof fn lemma_port_round_trip(n: u16)
    ensures
        port_of(dec_text(n as int)) == Some(n),
{
    lemma_dec_text_val(n as int);
}

/// A decimal digit is none of the grammar's separators.
proof fn lemma_digit_not_sep(c: char)
    requires
        is_dec_digit(c),
    ensures
        c != '.' && c != ':' && c != '[' && c != ']',
{
}

/// A hexadecimal digit is none of the grammar's separators.
proof fn lemma_hex_digit_not_sep(c: char)
    requires
        is_hex_digit(c),
    ensures
        c != '.' && c != ':' && c != '[' && c != ']',
{
}

/// Splitting after a separator-free prefix peels exactly that prefix.
proof fn lemma_split_step(a: Seq<char>, b: Seq<char>, sep: char)
    requires
        forall|j: int| 0 <= j < a.len() ==> a[j] != sep,
    ensures
        split_on(a + seq![sep] + b, sep) == seq![a] + split_on(b, sep),
{
    let s = a + seq![sep] + b;
    assert(s[a.len() as int] == sep);
    assert forall|j: int| 0 <= j < a.len() implies s[j] != sep by {
        assert(s[j] == a[j]);
    }
    lemma_find_char_is(s, sep, a.len() as int);
    assert(s.take(a.len() as int) =~= a);
    assert(s.skip(a.len() as int + 1) =~= b);
}

/// A separator-free text is a single part.
proof fn lemma_split_single(a: Seq<char>, sep: char)
    requires
        forall|j: int| 0 <= j < a.len() ==> a[j] != sep,
    ensures
        split_on(a, sep) == seq![a],
{
    lemma_find_char_none(a, sep);
}

/// The dotted decimal text of four octets parses back as exactly those
/// octets.
pub proof fn lemma_v4_text_parses(o: Seq<u8>)
    requires
        o.len() == 4,
    ensures
        spec_v4(v4_text(o)) == Some(o),
        forall|j: int|
            0 <= j < v4_text(o).len() ==> (is_dec_digit(#[trigger] v4_text(o)[j]) || v4_text(o)[j]
                == '.'),
{
    let d0 = dec_text(o[0] as int);
    let d1 = dec_text(o[1] as int);
    let d2 = dec_text(o[2] as int);
    let d3 = dec_text(o[3] as int);
    lemma_dec_text_val(o[0] as int);
    lemma_dec_text_val(o[1] as int);
    lemma_dec_text_val(o[2] as int);
    lemma_dec_text_val(o[3] as int);
    let t = v4_text(o);
    let r2 = d2 + seq!['.'] + d3;
    let r1 = d1 + seq!['.'] + r2;
    assert(t =~= d0 + seq!['.'] + r1);
    assert forall|j: int| 0 <= j < d0.len() implies d0[j] != '.' by {
        lemma_digit_not_sep(d0[j]);
    }
    assert forall|j: int| 0 <= j < d1.len() implies d1[j] != '.' by {
        lemma_digit_not_sep(d1[j]);
    }
    assert forall|j: int| 0 <= j < d2.len() implies d2[j] != '.' by {
        lemma_digit_not_sep(d2[j]);
    }
    assert forall|j: int| 0 <= j < d3.len() implies d3[j] != '.' by {
        lemma_digit_not_sep(d3[j]);
    }
    lemma_split_step(d0, r1, '.');
    lemma_split_step(d1, r2, '.');
    lemma_split_step(d2, d3, '.');
    lemma_split_single(d3, '.');
    let parts = split_on(t, '.');
    assert(parts =~= seq![d0, d1, d2, d3]);
    lemma_octet_round_trip(o[0]);
    lemma_octet_round_trip(o[1]);
    lemma_octet_round_trip(o[2]);
    lemma_octet_round_trip(o[3]);
    let suffix3 = seq![d3];
    let suffix2 = seq![d2, d3];
    let suffix1 = seq![d1, d2, d3];
    assert(octets_of(Seq::<Seq<char>>::empty()) == Some(Seq::<u8>::empty()));
    assert(suffix3.drop_first() =~= Seq::<Seq<char>>::empty());
    assert(octets_of(suffix3) == Some(seq![o[3]] + Seq::<u8>::empty()));
    assert(suffix2.drop_first() =~= suffix3);
    assert(octets_of(suffix2) == Some(seq![o[2]] + (seq![o[3]] + Seq::<u8>::empty())));
    assert(suffix1.drop_first() =~= suffix2);
    assert(octets_of(suffix1) == Some(seq![o[1]] + (seq![o[2]] + (seq![o[3]] + Seq::<u8>::empty()))));
    assert(parts.drop_first() =~= suffix1);
    assert(octets_of(parts) == Some(
        seq![o[0]] + (seq![o[1]] + (seq![o[2]] + (seq![o[3]] + Seq::<u8>::empty()))),
    ));
    assert(seq![o[0]] + (seq![o[1]] + (seq![o[2]] + (seq![o[3]] + Seq::<u8>::empty()))) =~= o);
    // character classes, for the enclosing socket text
    assert forall|j: int| 0 <= j < t.len() implies (is_dec_digit(#[trigger] t[j]) || t[j]
        == '.') by {
        if j < d0.len() {
            assert(t[j] == d0[j]);
        } else if j == d0.len() {
            assert(t[j] == '.');
        } else {
            let j1 = j - d0.len() - 1;
            assert(t[j] == r1[j1]);
            if j1 < d1.len() {
                assert(r1[j1] == d1[j1]);
            } else if j1 == d1.len() {
                assert(r1[j1] == '.');
            } else {
                let j2 = j1 - d1.len() - 1;
                assert(r1[j1] == r2[j2]);
                if j2 < d2.len() {
                    assert(r2[j2] == d2[j2]);
                } else if j2 == d2.len() {
                    assert(r2[j2] == '.');
                } else {
                    assert(r2[j2] == d3[j2 - d2.len() - 1]);
                }
            }
        }
    }
}

/// The hexadecimal texts of the groups read back as exactly those groups.
proof fn lemma_groups_of_hex(g: Seq<u16>)
    ensures
        groups_of(hex_texts(g)) == Some(g),
    decreases g.len(),
{
    let parts = hex_texts(g);
    if g.len() == 0 {
        assert(parts.len() == 0);
        assert(Some(Seq::<u16>::empty()) == Some(g));
    } else {
        lemma_group_round_trip(g[0]);
        assert(parts[0] == hex_text(g[0] as int));
        assert(parts.drop_first() =~= hex_texts(g.drop_first()));
        lemma_groups_of_hex(g.drop_first());
        assert(groups_of(parts) == Some(seq![g[0]] + g.drop_first()));
        assert(seq![g[0]] + g.drop_first() =~= g);
    }
}

/// Every character of a joined group list is a hexadecimal digit or a single
/// colon; the text is non-empty, starts and ends with a digit.
proof fn lemma_hex_join_chars(g: Seq<u16>)
    requires
        g.len() >= 1,
    ensures
        join_colon(hex_texts(g)).len() >= 1,
        forall|j: int|
            0 <= j < join_colon(hex_texts(g)).len() ==> (is_hex_digit(
                #[trigger] join_colon(hex_texts(g))[j],
            ) || join_colon(hex_texts(g))[j] == ':'),
        is_hex_digit(join_colon(hex_texts(g))[0]),
        is_hex_digit(join_colon(hex_texts(g)).last()),
    decreases g.len(),
{
    let parts = hex_texts(g);
    let t = join_colon(parts);
    lemma_hex_text_val(g[0] as int);
    let h0 = hex_text(g[0] as int);
    if g.len() == 1 {
        assert(t == parts[0]);
        assert(parts[0] == h0);
    } else {
        assert(parts.drop_first() =~= hex_texts(g.drop_first()));
        lemma_hex_join_chars(g.drop_first());
        let rest = join_colon(hex_texts(g.drop_first()));
        assert(t == h0 + seq![':'] + rest);
        assert(t[0] == h0[0]);
        assert(t.last() == rest.last());
        assert forall|j: int| 0 <= j < t.len() implies (is_hex_digit(#[trigger] t[j]) || t[j]
            == ':') by {
            if j < h0.len() {
                assert(t[j] == h0[j]);
            } else if j == h0.len() {
                assert(t[j] == ':');
            } else {
                assert(t[j] == rest[j - h0.len() - 1]);
            }
        }
    }
}

/// A joined group list never holds two adjacent colons.
proof fn lemma_hex_join_no_dc(g: Seq<u16>)
    requires
        g.len() >= 1,
    ensures
        forall|j: int|
            0 <= j < join_colon(hex_texts(g)).len() - 1 ==> !(#[trigger] join_colon(
                hex_texts(g),
            )[j] == ':' && join_colon(hex_texts(g))[j + 1] == ':'),
    decreases g.len(),
{
    let parts = hex_texts(g);
    let t = join_colon(parts);
    lemma_hex_text_val(g[0] as int);
    let h0 = hex_text(g[0] as int);
    if g.len() == 1 {
        assert(t == h0);
        assert forall|j: int| 0 <= j < t.len() - 1 implies !(#[trigger] t[j] == ':' && t[j + 1]
            == ':') by {
            assert(is_hex_digit(t[j]));
            lemma_hex_digit_not_sep(t[j]);
        }
    } else {
        assert(parts.drop_first() =~= hex_texts(g.drop_first()));
        lemma_hex_join_no_dc(g.drop_first());
        lemma_hex_join_chars(g.drop_first());
        let rest = join_colon(hex_texts(g.drop_first()));
        assert(t == h0 + seq![':'] + rest);
        assert forall|j: int| 0 <= j < t.len() - 1 implies !(#[trigger] t[j] == ':' && t[j + 1]
            == ':') by {
            if j + 1 < h0.len() {
                assert(t[j] == h0[j] && is_hex_digit(h0[j]));
                lemma_hex_digit_not_sep(h0[j]);
            } else if j + 1 == h0.len() {
                assert(t[j] == h0[j] && is_hex_digit(h0[j]));
                lemma_hex_digit_not_sep(h0[j]);
            } else if j == h0.len() {
                // t[j] is the separator; the next character starts the rest,
                // which begins with a digit.
                assert(t[j + 1] == rest[0]);
                lemma_hex_digit_not_sep(rest[0]);
            } else {
                assert(t[j] == rest[j - h0.len() - 1]);
                assert(t[j + 1] == rest[j - h0.len()]);
            }
        }
    }
}

/// Splitting a joined group list on colons gives the group texts back.
proof fn lemma_hex_join_split(g: Seq<u16>)
    requires
        g.len() >= 1,
    ensures
        split_on(join_colon(hex_texts(g)), ':') == hex_texts(g),
    decreases g.len(),
{
    let parts = hex_texts(g);
    let t = join_colon(parts);
    lemma_hex_text_val(g[0] as int);
    let h0 = hex_text(g[0] as int);
    assert forall|j: int| 0 <= j < h0.len() implies h0[j] != ':' by {
        lemma_hex_digit_not_sep(h0[j]);
    }
    if g.len() == 1 {
        assert(t == h0);
        lemma_split_single(h0, ':');
        assert(seq![h0] =~= parts);
    } else {
        assert(parts.drop_first() =~= hex_texts(g.drop_first()));
        lemma_hex_join_split(g.drop_first());
        let rest = join_colon(hex_texts(g.drop_first()));
        assert(t == h0 + seq![':'] + rest);
        lemma_split_step(h0, rest, ':');
        assert(seq![h0] + hex_texts(g.drop_first()) =~= parts);
    }
}

/// The groups covered by a zero run are zero, and the run stays in bounds.
proof fn lemma_zero_run_zeros(g: Seq<u16>, i: int)
    requires
        0 <= i <= g.len(),
    ensures
        i + zero_run(g, i) <= g.len(),
        zero_run(g, i) >= 0,
        forall|k: int| i <= k < i + zero_run(g, i) ==> g[k] == 0,
    decreases g.len() - i,
{
    if i < g.len() && g[i] == 0 {
        lemma_zero_run_zeros(g, i + 1);
    }
}

/// The best zero run really is a zero run, in bounds.
proof fn lemma_best_run_props(g: Seq<u16>, i: int)
    requires
        0 <= i <= g.len(),
    ensures
        i <= best_zero_run(g, i).0 <= g.len(),
        best_zero_run(g, i).1 == zero_run(g, best_zero_run(g, i).0),
    decreases g.len() - i,
{
    if i < g.len() {
        lemma_best_run_props(g, i + 1);
    }
}

/// The canonical text of eight groups parses back as exactly those groups.
pub proof fn lemma_v6_text_parses(g: Seq<u16>)
    requires
        g.len() == 8,
    ensures
        spec_v6(v6_text(g)) == Some(g),
        forall|j: int|
            0 <= j < v6_text(g).len() ==> (is_hex_digit(#[trigger] v6_text(g)[j]) || v6_text(g)[j]
                == ':'),
{
    let br = best_zero_run(g, 0);
    lemma_best_run_props(g, 0);
    let bs = br.0;
    let bl = br.1;
    lemma_zero_run_zeros(g, bs);
    if bl < 2 {
        let t = join_colon(hex_texts(g));
        lemma_hex_join_chars(g);
        lemma_hex_join_no_dc(g);
        lemma_find_double_colon_none(t);
        lemma_hex_join_split(g);
        assert(split_on(t, ':').len() == 8);
        lemma_groups_of_hex(g);
    } else {
        let left = g.take(bs);
        let right = g.skip(bs + bl);
        let jl = join_colon(hex_texts(left));
        let jr = join_colon(hex_texts(right));
        let t = jl + seq![':', ':'] + jr;
        assert(v6_text(g) == t);
        let ll: int = jl.len() as int;
        if bs > 0 {
            lemma_hex_join_chars(left);
            lemma_hex_join_no_dc(left);
        } else {
            assert(hex_texts(left).len() == 0);
            assert(jl.len() == 0);
        }
        if bs + bl < 8 {
            lemma_hex_join_chars(right);
            lemma_hex_join_no_dc(right);
        } else {
            assert(hex_texts(right).len() == 0);
            assert(jr.len() == 0);
        }
        // the compression is the first double colon
        assert(t[ll] == ':' && t[ll + 1] == ':');
        assert forall|j: int| 0 <= j < ll implies !(#[trigger] t[j] == ':' && t[j + 1] == ':') by {
            assert(t[j] == jl[j]);
            if j + 1 < ll {
                assert(t[j + 1] == jl[j + 1]);
            } else {
                // the last character of the left join is a digit
                assert(jl[j] == jl.last());
                assert(is_hex_digit(jl[j]));
                lemma_hex_digit_not_sep(jl[j]);
            }
        }
        lemma_find_double_colon_is(t, ll);
        // the left of the compression reads back as the leading groups
        assert(t.take(ll) =~= jl);
        if bs == 0 {
            assert(group_list_of(jl) == Some(Seq::<u16>::empty()));
            assert(left =~= Seq::<u16>::empty());
        } else {
            lemma_hex_join_split(left);
            lemma_groups_of_hex(left);
            assert(group_list_of(jl) == Some(left));
        }
        // the right of the compression reads back as the trailing groups
        assert(t.skip(ll + 2) =~= jr);
        if bs + bl == 8 {
            assert(group_list_of(jr) == Some(Seq::<u16>::empty()));
            assert(right =~= Seq::<u16>::empty());
        } else {
            lemma_hex_join_split(right);
            lemma_groups_of_hex(right);
            assert(group_list_of(jr) == Some(right));
        }
        // the compressed groups are exactly the zero run
        assert(left.len() + right.len() == 8 - bl);
        let mid = Seq::new((8 - left.len() - right.len()) as nat, |k: int| 0u16);
        assert(left + mid + right =~= g) by {
            assert(forall|k: int| bs <= k < bs + bl ==> #[trigger] g[k] == 0);
        }
        assert(spec_v6(t) == Some(left + mid + right));
        // character classes, for the enclosing socket text
        assert forall|j: int| 0 <= j < t.len() implies (is_hex_digit(#[trigger] t[j]) || t[j]
            == ':') by {
            if j < ll {
                assert(t[j] == jl[j]);
            } else if j < ll + 2 {
                assert(t[j] == ':');
            } else {
                assert(t[j] == jr[j - ll - 2]);
            }
        }
    }
}

/// The full text of an endpoint: the address, bracketed for IPv6, then a
/// colon and the port in decimal.
pub open spec fn socket_text(a: SocketAddress) -> Seq<char> {
    match a.ip {
        IpAddress::V4(o) => v4_text(o@) + seq![':'] + dec_text(a.port as int),
        IpAddress::V6(g) => seq!['['] + v6_text(g@) + seq![']'] + seq![':'] + dec_text(
            a.port as int,
        ),
    }
}

/// Round-trip law: rendering a well-formed endpoint as text and parsing that
/// text gives the endpoint back. `socket_text` is built from the same
/// `v4_text`/`v6_text` that `ip_string` renders and the same `dec_text` of
/// the port, so what the library prints, it accepts, and reads as the same
/// address.
pub proof fn lemma_endpoint_round_trip(a: SocketAddress)
    requires
        a.wf(),
    ensures
        spec_valid_endpoint(socket_text(a)),
        a.matches_text(socket_text(a)),
{
    lemma_dec_text_val(a.port as int);
    lemma_port_round_trip(a.port);
    let pt = dec_text(a.port as int);
    match a.ip {
        IpAddress::V4(o) => {
            lemma_v4_text_parses(o@);
            let vt = v4_text(o@);
            let t = vt + seq![':'] + pt;
            let ll: int = vt.len() as int;
            assert(t[ll] == ':');
            assert forall|j: int| 0 <= j < ll implies t[j] != ':' by {
                assert(t[j] == vt[j]);
                if vt[j] == '.' {
                } else {
                    lemma_digit_not_sep(vt[j]);
                }
            }
            lemma_find_char_is(t, ':', ll);
            assert(t.take(ll) =~= vt);
            assert(t.skip(ll + 1) =~= pt);
            assert(spec_socket_v4(t) == Some((o@, a.port)));
        },
        IpAddress::V6(g) => {
            lemma_v6_text_parses(g@);
            let vt = v6_text(g@);
            let t = seq!['['] + vt + seq![']'] + seq![':'] + pt;
            let lb: int = 1 + vt.len() as int;
            assert(t[0] == '[');
            assert(t[lb] == ']');
            assert(t[lb + 1] == ':');
            assert forall|j: int| 0 <= j < lb implies t[j] != ']' by {
                if j == 0 {
                } else {
                    assert(t[j] == vt[j - 1]);
                    if vt[j - 1] == ':' {
                    } else {
                        lemma_hex_digit_not_sep(vt[j - 1]);
                    }
                }
            }
            lemma_find_char_is(t, ']', lb);
            assert(t.subrange(1, lb) =~= vt);
            assert(t.skip(lb + 2) =~= pt);
            assert(spec_socket_v6(t) == Some((g@, a.port)));
        },
    }
}

} // verus!
