//! IP addresses as plain numeric values, with a verified parser and renderer
//! for the textual literal forms that a hosts file may contain.
//!
//! The accepted grammar follows the common address-literal rules: an IPv4
//! literal is four decimal octets (no leading zeros, each at most 255)
//! separated by dots; an IPv6 literal is up to eight hexadecimal groups of at
//! most four digits separated by colons, with at most one `::` standing for a
//! run of zero groups, and optionally a trailing embedded IPv4 literal taking
//! the place of the last two groups. The renderer produces the canonical
//! shortened form: lowercase hex digits without leading zeros, the leftmost
//! longest run of two or more zero groups compressed to `::`, and the
//! IPv4-mapped prefix rendered as `::ffff:` followed by the IPv4 literal.
use vstd::prelude::*;

verus! {

/// Address family of an IP address.
#[derive(Debug, PartialEq, Eq, Structural, Clone, Copy)]
pub enum HostsPartFamily {
    IPv4,
    IPv6,
}

/// An IP address held as plain numeric values: four octets for IPv4, eight
/// 16-bit groups for IPv6.
#[derive(Debug, PartialEq, Eq, Structural, Clone, Copy)]
pub enum IpAddress {
    V4(u8, u8, u8, u8),
    V6(u16, u16, u16, u16, u16, u16, u16, u16),
}

impl IpAddress {
    /// The family of this address.
    pub open spec fn spec_family(self) -> HostsPartFamily {
        match self {
            IpAddress::V4(..) => HostsPartFamily::IPv4,
            IpAddress::V6(..) => HostsPartFamily::IPv6,
        }
    }

    /// The eight groups of an IPv6 address, as a sequence.
    pub open spec fn v6_groups(self) -> Seq<u16>
        recommends
            self is V6,
    {
        match self {
            IpAddress::V4(..) => Seq::empty(),
            IpAddress::V6(g0, g1, g2, g3, g4, g5, g6, g7) => seq![g0, g1, g2, g3, g4, g5, g6, g7],
        }
    }

    /// Whether this address is IPv4.
    pub fn is_ipv4(&self) -> (r: bool)
        ensures
            r == (self.spec_family() == HostsPartFamily::IPv4),
    {
        match self {
            IpAddress::V4(..) => true,
            IpAddress::V6(..) => false,
        }
    }

    /// Whether this address is IPv6.
    pub fn is_ipv6(&self) -> (r: bool)
        ensures
            r == (self.spec_family() == HostsPartFamily::IPv6),
    {
        match self {
            IpAddress::V4(..) => false,
            IpAddress::V6(..) => true,
        }
    }

    /// The family of this address.
    pub fn family(&self) -> (f: HostsPartFamily)
        ensures
            f == self.spec_family(),
    {
        match self {
            IpAddress::V4(..) => HostsPartFamily::IPv4,
            IpAddress::V6(..) => HostsPartFamily::IPv6,
        }
    }
}

// ---------------------------------------------------------------------------
// Character classes and digit values
// ---------------------------------------------------------------------------

/// A decimal digit.
pub open spec fn is_dec_digit(c: char) -> bool {
    48 <= c as u32 && c as u32 <= 57
}

/// A hexadecimal digit (either case).
pub open spec fn is_hex_digit_char(c: char) -> bool {
    is_dec_digit(c) || (97 <= c as u32 && c as u32 <= 102) || (65 <= c as u32 && c as u32 <= 70)
}

/// Numeric value of a hexadecimal digit.
pub open spec fn hex_digit_val(c: char) -> int {
    if is_dec_digit(c) {
        c as u32 - 48
    } else if 97 <= c as u32 && c as u32 <= 102 {
        c as u32 - 87
    } else {
        c as u32 - 55
    }
}

fn exec_is_dec_digit(c: char) -> (r: bool)
    ensures
        r == is_dec_digit(c),
{
    let u = c as u32;
    48 <= u && u <= 57
}

fn exec_is_hex_digit(c: char) -> (r: bool)
    ensures
        r == is_hex_digit_char(c),
{
    let u = c as u32;
    (48 <= u && u <= 57) || (97 <= u && u <= 102) || (65 <= u && u <= 70)
}

fn exec_hex_digit_val(c: char) -> (v: u32)
    requires
        is_hex_digit_char(c),
    ensures
        v as int == hex_digit_val(c),
        v < 16,
{
    let u = c as u32;
    if 48 <= u && u <= 57 {
        u - 48
    } else if 97 <= u && u <= 102 {
        u - 87
    } else {
        u - 55
    }
}

// ---------------------------------------------------------------------------
// Digit runs and their values
// ---------------------------------------------------------------------------

/// Length of the run of decimal digits starting at `i`.
pub open spec fn dec_run_len(s: Seq<char>, i: int) -> int
    decreases s.len() - i,
{
    if 0 <= i && i < s.len() && is_dec_digit(s[i]) {
        1 + dec_run_len(s, i + 1)
    } else {
        0
    }
}

/// Length of the run of hexadecimal digits starting at `i`.
pub open spec fn hex_run_len(s: Seq<char>, i: int) -> int
    decreases s.len() - i,
{
    if 0 <= i && i < s.len() && is_hex_digit_char(s[i]) {
        1 + hex_run_len(s, i + 1)
    } else {
        0
    }
}

/// Value of the `n` decimal digits starting at `i`.
pub open spec fn dec_value(s: Seq<char>, i: int, n: int) -> int
    decreases n,
{
    if n <= 0 {
        0
    } else {
        dec_value(s, i, n - 1) * 10 + (s[i + n - 1] as u32 - 48)
    }
}

/// Value of the `n` hexadecimal digits starting at `i`.
pub open spec fn hex_value(s: Seq<char>, i: int, n: int) -> int
    decreases n,
{
    if n <= 0 {
        0
    } else {
        hex_value(s, i, n - 1) * 16 + hex_digit_val(s[i + n - 1])
    }
}

pub proof fn lemma_dec_run_props(s: Seq<char>, i: int)
    requires
        0 <= i <= s.len(),
    ensures
        0 <= dec_run_len(s, i),
        i + dec_run_len(s, i) <= s.len(),
        forall|k: int| i <= k < i + dec_run_len(s, i) ==> is_dec_digit(#[trigger] s[k]),
        i + dec_run_len(s, i) < s.len() ==> !is_dec_digit(s[i + dec_run_len(s, i)]),
    decreases s.len() - i,
{
    if i < s.len() && is_dec_digit(s[i]) {
        lemma_dec_run_props(s, i + 1);
    }
}

pub proof fn lemma_hex_run_props(s: Seq<char>, i: int)
    requires
        0 <= i <= s.len(),
    ensures
        0 <= hex_run_len(s, i),
        i + hex_run_len(s, i) <= s.len(),
        forall|k: int| i <= k < i + hex_run_len(s, i) ==> is_hex_digit_char(#[trigger] s[k]),
        i + hex_run_len(s, i) < s.len() ==> !is_hex_digit_char(s[i + hex_run_len(s, i)]),
    decreases s.len() - i,
{
    if i < s.len() && is_hex_digit_char(s[i]) {
        lemma_hex_run_props(s, i + 1);
    }
}

pub proof fn lemma_dec_value_bound(s: Seq<char>, i: int, n: int)
    requires
        0 <= n,
        forall|k: int| i <= k < i + n ==> is_dec_digit(#[trigger] s[k]),
    ensures
        0 <= dec_value(s, i, n),
        n <= 1 ==> dec_value(s, i, n) < 10,
        n <= 2 ==> dec_value(s, i, n) < 100,
        n <= 3 ==> dec_value(s, i, n) < 1000,
        n <= 4 ==> dec_value(s, i, n) < 10000,
    decreases n,
{
    if n > 0 {
        lemma_dec_value_bound(s, i, n - 1);
    }
}

pub proof fn lemma_hex_value_bound(s: Seq<char>, i: int, n: int)
    requires
        0 <= n <= 4,
        forall|k: int| i <= k < i + n ==> is_hex_digit_char(#[trigger] s[k]),
    ensures
        0 <= hex_value(s, i, n),
        hex_value(s, i, n) < 65536,
        n <= 3 ==> hex_value(s, i, n) < 4096,
        n <= 2 ==> hex_value(s, i, n) < 256,
        n <= 1 ==> hex_value(s, i, n) < 16,
    decreases n,
{
    if n > 0 {
        lemma_hex_value_bound(s, i, n - 1);
    }
}

fn exec_dec_run_len(s: &Vec<char>, i: usize) -> (n: usize)
    requires
        i <= s@.len(),
    ensures
        n as int == dec_run_len(s@, i as int),
        i + n <= s@.len(),
{
    proof {
        lemma_dec_run_props(s@, i as int);
    }
    let mut j = i;
    while j < s.len() && exec_is_dec_digit(s[j])
        invariant
            i <= j <= s@.len(),
            dec_run_len(s@, i as int) == (j - i) + dec_run_len(s@, j as int),
        decreases s@.len() - j,
    {
        j = j + 1;
    }
    j - i
}

fn exec_hex_run_len(s: &Vec<char>, i: usize) -> (n: usize)
    requires
        i <= s@.len(),
    ensures
        n as int == hex_run_len(s@, i as int),
        i + n <= s@.len(),
{
    proof {
        lemma_hex_run_props(s@, i as int);
    }
    let mut j = i;
    while j < s.len() && exec_is_hex_digit(s[j])
        invariant
            i <= j <= s@.len(),
            hex_run_len(s@, i as int) == (j - i) + hex_run_len(s@, j as int),
        decreases s@.len() - j,
    {
        j = j + 1;
    }
    j - i
}

fn exec_dec_value(s: &Vec<char>, i: usize, n: usize) -> (v: u32)
    requires
        n <= 4,
        i + n <= s@.len(),
        forall|k: int| i <= k < i + n ==> is_dec_digit(#[trigger] s@[k]),
    ensures
        v as int == dec_value(s@, i as int, n as int),
        v < 10000,
{
    proof {
        lemma_dec_value_bound(s@, i as int, n as int);
    }
    let slen = s.len();
    let mut v: u32 = 0;
    let mut k: usize = 0;
    while k < n
        invariant
            0 <= k <= n,
            n <= 4,
            i + n <= slen == s@.len(),
            forall|m: int| i <= m < i + n ==> is_dec_digit(#[trigger] s@[m]),
            v as int == dec_value(s@, i as int, k as int),
            v < 10000,
        decreases n - k,
    {
        proof {
            lemma_dec_value_bound(s@, i as int, k as int);
            lemma_dec_value_bound(s@, i as int, (k + 1) as int);
        }
        v = v * 10 + (s[i + k] as u32 - 48);
        k = k + 1;
    }
    v
}

fn exec_hex_value(s: &Vec<char>, i: usize, n: usize) -> (v: u32)
    requires
        n <= 4,
        i + n <= s@.len(),
        forall|k: int| i <= k < i + n ==> is_hex_digit_char(#[trigger] s@[k]),
    ensures
        v as int == hex_value(s@, i as int, n as int),
        v < 65536,
{
    proof {
        lemma_hex_value_bound(s@, i as int, n as int);
    }
    let slen = s.len();
    let mut v: u32 = 0;
    let mut k: usize = 0;
    while k < n
        invariant
            0 <= k <= n,
            n <= 4,
            i + n <= slen == s@.len(),
            forall|m: int| i <= m < i + n ==> is_hex_digit_char(#[trigger] s@[m]),
            v as int == hex_value(s@, i as int, k as int),
            v < 65536,
        decreases n - k,
    {
        proof {
            lemma_hex_value_bound(s@, i as int, k as int);
            lemma_hex_value_bound(s@, i as int, (k + 1) as int);
        }
        v = v * 16 + exec_hex_digit_val(s[i + k]);
        k = k + 1;
    }
    v
}

// ---------------------------------------------------------------------------
// Parsing: IPv4
// ---------------------------------------------------------------------------

/// Parse one decimal octet at `i`: one to three digits, no leading zero,
/// value at most 255. Returns the value and the position after it.
pub open spec fn parse_octet(s: Seq<char>, i: int) -> Option<(u8, int)> {
    let n = dec_run_len(s, i);
    if n == 0 || n > 3 {
        None
    } else if n > 1 && s[i] == '0' {
        None
    } else {
        let v = dec_value(s, i, n);
        if v > 255 {
            None
        } else {
            Some((v as u8, i + n))
        }
    }
}

/// Parse `.` followed by an octet.
pub open spec fn parse_dot_octet(s: Seq<char>, i: int) -> Option<(u8, int)> {
    if 0 <= i && i < s.len() && s[i] == '.' {
        parse_octet(s, i + 1)
    } else {
        None
    }
}

/// Parse an IPv4 literal starting at `i`: four octets separated by dots.
pub open spec fn parse_ipv4_at(s: Seq<char>, i: int) -> Option<((u8, u8, u8, u8), int)> {
    match parse_octet(s, i) {
        None => None,
        Some((a, j1)) => match parse_dot_octet(s, j1) {
            None => None,
            Some((b, j2)) => match parse_dot_octet(s, j2) {
                None => None,
                Some((c, j3)) => match parse_dot_octet(s, j3) {
                    None => None,
                    Some((d, j4)) => Some(((a, b, c, d), j4)),
                },
            },
        },
    }
}

fn exec_parse_octet(s: &Vec<char>, i: usize) -> (r: Option<(u8, usize)>)
    requires
        i <= s@.len(),
    ensures
        r is Some ==> {
            let (v, j) = r->Some_0;
            parse_octet(s@, i as int) == Some((v, j as int)) && i < j <= s@.len()
        },
        r is None ==> parse_octet(s@, i as int) is None,
{
    proof {
        lemma_dec_run_props(s@, i as int);
    }
    let slen = s.len();
    let n = exec_dec_run_len(s, i);
    if n == 0 || n > 3 {
        return None;
    }
    if n > 1 && s[i] == '0' {
        return None;
    }
    let v = exec_dec_value(s, i, n);
    if v > 255 {
        None
    } else {
        assert(i + n <= slen);
        Some((v as u8, i + n))
    }
}

fn exec_parse_dot_octet(s: &Vec<char>, i: usize) -> (r: Option<(u8, usize)>)
    requires
        i <= s@.len(),
    ensures
        r is Some ==> {
            let (v, j) = r->Some_0;
            parse_dot_octet(s@, i as int) == Some((v, j as int)) && i < j <= s@.len()
        },
        r is None ==> parse_dot_octet(s@, i as int) is None,
{
    if i < s.len() && s[i] == '.' {
        exec_parse_octet(s, i + 1)
    } else {
        None
    }
}

fn exec_parse_ipv4_at(s: &Vec<char>, i: usize) -> (r: Option<((u8, u8, u8, u8), usize)>)
    requires
        i <= s@.len(),
    ensures
        r is Some ==> {
            let (q, j) = r->Some_0;
            parse_ipv4_at(s@, i as int) == Some((q, j as int)) && i < j <= s@.len()
        },
        r is None ==> parse_ipv4_at(s@, i as int) is None,
{
    match exec_parse_octet(s, i) {
        None => None,
        Some((a, j1)) => match exec_parse_dot_octet(s, j1) {
            None => None,
            Some((b, j2)) => match exec_parse_dot_octet(s, j2) {
                None => None,
                Some((c, j3)) => match exec_parse_dot_octet(s, j3) {
                    None => None,
                    Some((d, j4)) => Some(((a, b, c, d), j4)),
                },
            },
        },
    }
}

// ---------------------------------------------------------------------------
// Parsing: IPv6
// ---------------------------------------------------------------------------

/// Parse one hexadecimal group at `i`: one to four hex digits.
pub open spec fn parse_hex_group(s: Seq<char>, i: int) -> Option<(u16, int)> {
    let n = hex_run_len(s, i);
    if n == 0 || n > 4 {
        None
    } else {
        Some((hex_value(s, i, n) as u16, i + n))
    }
}

/// Parse a group, preceded by `:` unless it is the first of its list.
pub open spec fn parse_sep_group(s: Seq<char>, i: int, first: bool) -> Option<(u16, int)> {
    if first {
        parse_hex_group(s, i)
    } else if 0 <= i && i < s.len() && s[i] == ':' {
        parse_hex_group(s, i + 1)
    } else {
        None
    }
}

/// Parse an embedded IPv4 literal, preceded by `:` unless first.
pub open spec fn parse_sep_ipv4(s: Seq<char>, i: int, first: bool) -> Option<(
    (u8, u8, u8, u8),
    int,
)> {
    if first {
        parse_ipv4_at(s, i)
    } else if 0 <= i && i < s.len() && s[i] == ':' {
        parse_ipv4_at(s, i + 1)
    } else {
        None
    }
}

/// Parse up to `remaining` groups starting at `i`. An embedded IPv4 literal
/// may take the place of the last two groups when at least two remain.
/// Returns the groups read, the position after them, and whether an embedded
/// IPv4 literal ended the list.
pub open spec fn parse_groups(s: Seq<char>, i: int, remaining: int, first: bool) -> (
    Seq<u16>,
    int,
    bool,
)
    decreases remaining,
{
    if remaining <= 0 {
        (Seq::empty(), i, false)
    } else {
        let v4 = if remaining >= 2 {
            parse_sep_ipv4(s, i, first)
        } else {
            None
        };
        match v4 {
            Some(((a, b, c, d), j)) => (
                seq![
                    (a as int * 256 + b as int) as u16,
                    (c as int * 256 + d as int) as u16,
                ],
                j,
                true,
            ),
            None => match parse_sep_group(s, i, first) {
                None => (Seq::empty(), i, false),
                Some((g, j)) => {
                    let r = parse_groups(s, j, remaining - 1, false);
                    (seq![g] + r.0, r.1, r.2)
                },
            },
        }
    }
}

/// Parse an IPv6 literal starting at `i`: either eight groups, or some head
/// groups, `::`, and some tail groups, the `::` standing for at least one
/// zero group. An embedded IPv4 literal is allowed only at the very end.
pub open spec fn parse_ipv6_at(s: Seq<char>, i: int) -> Option<(Seq<u16>, int)> {
    let head = parse_groups(s, i, 8, true);
    if head.0.len() == 8 {
        Some((head.0, head.1))
    } else if head.2 {
        None
    } else if head.1 + 2 <= s.len() && s[head.1] == ':' && s[head.1 + 1] == ':' {
        let limit = 8 - head.0.len() - 1;
        let tail = parse_groups(s, head.1 + 2, limit as int, true);
        let zeros = 8 - head.0.len() - tail.0.len();
        Some((head.0 + Seq::new(zeros as nat, |x: int| 0u16) + tail.0, tail.1))
    } else {
        None
    }
}

/// Parse a full IP literal: an IPv4 literal, or else an IPv6 literal, either
/// consuming the entire string. A string whose IPv4 parse succeeds without
/// reaching the end is rejected outright, with no IPv6 attempt.
pub open spec fn ip_of_chars(s: Seq<char>) -> Option<IpAddress> {
    match parse_ipv4_at(s, 0) {
        Some((q, j)) => if j == s.len() {
            Some(IpAddress::V4(q.0, q.1, q.2, q.3))
        } else {
            None
        },
        None => match parse_ipv6_at(s, 0) {
            Some((g, j)) => if j == s.len() {
                Some(
                    IpAddress::V6(g[0], g[1], g[2], g[3], g[4], g[5], g[6], g[7]),
                )
            } else {
                None
            },
            None => None,
        },
    }
}

pub proof fn lemma_parse_octet_props(s: Seq<char>, i: int)
    requires
        0 <= i <= s.len(),
    ensures
        parse_octet(s, i) is Some ==> i < parse_octet(s, i)->Some_0.1 <= s.len(),
{
    lemma_dec_run_props(s, i);
}

pub proof fn lemma_parse_dot_octet_props(s: Seq<char>, i: int)
    requires
        0 <= i <= s.len(),
    ensures
        parse_dot_octet(s, i) is Some ==> i < parse_dot_octet(s, i)->Some_0.1 <= s.len(),
{
    if 0 <= i && i < s.len() && s[i] == '.' {
        lemma_parse_octet_props(s, i + 1);
    }
}

pub proof fn lemma_parse_ipv4_props(s: Seq<char>, i: int)
    requires
        0 <= i <= s.len(),
    ensures
        parse_ipv4_at(s, i) is Some ==> i < parse_ipv4_at(s, i)->Some_0.1 <= s.len(),
{
    lemma_parse_octet_props(s, i);
    match parse_octet(s, i) {
        None => {},
        Some((a, j1)) => {
            lemma_parse_dot_octet_props(s, j1);
            match parse_dot_octet(s, j1) {
                None => {},
                Some((b, j2)) => {
                    lemma_parse_dot_octet_props(s, j2);
                    match parse_dot_octet(s, j2) {
                        None => {},
                        Some((c, j3)) => {
                            lemma_parse_dot_octet_props(s, j3);
                        },
                    }
                },
            }
        },
    }
}

pub proof fn lemma_parse_hex_group_props(s: Seq<char>, i: int)
    requires
        0 <= i <= s.len(),
    ensures
        parse_hex_group(s, i) is Some ==> i < parse_hex_group(s, i)->Some_0.1 <= s.len(),
{
    lemma_hex_run_props(s, i);
}

pub proof fn lemma_parse_sep_group_props(s: Seq<char>, i: int, first: bool)
    requires
        0 <= i <= s.len(),
    ensures
        parse_sep_group(s, i, first) is Some ==> i < parse_sep_group(s, i, first)->Some_0.1
            <= s.len(),
{
    if first {
        lemma_parse_hex_group_props(s, i);
    } else if 0 <= i && i < s.len() && s[i] == ':' {
        lemma_parse_hex_group_props(s, i + 1);
    }
}

pub proof fn lemma_parse_sep_ipv4_props(s: Seq<char>, i: int, first: bool)
    requires
        0 <= i <= s.len(),
    ensures
        parse_sep_ipv4(s, i, first) is Some ==> i < parse_sep_ipv4(s, i, first)->Some_0.1
            <= s.len(),
{
    if first {
        lemma_parse_ipv4_props(s, i);
    } else if 0 <= i && i < s.len() && s[i] == ':' {
        lemma_parse_ipv4_props(s, i + 1);
    }
}

pub proof fn lemma_parse_groups_props(s: Seq<char>, i: int, remaining: int, first: bool)
    requires
        0 <= i <= s.len(),
        0 <= remaining,
    ensures
        ({
            let r = parse_groups(s, i, remaining, first);
            i <= r.1 <= s.len() && r.0.len() <= remaining
        }),
    decreases remaining,
{
    if remaining > 0 {
        if remaining >= 2 {
            lemma_parse_sep_ipv4_props(s, i, first);
        }
        let v4 = if remaining >= 2 {
            parse_sep_ipv4(s, i, first)
        } else {
            None
        };
        match v4 {
            Some(_) => {},
            None => {
                lemma_parse_sep_group_props(s, i, first);
                match parse_sep_group(s, i, first) {
                    None => {},
                    Some((g, j)) => {
                        lemma_parse_groups_props(s, j, remaining - 1, false);
                    },
                }
            },
        }
    }
}

fn exec_parse_hex_group(s: &Vec<char>, i: usize) -> (r: Option<(u16, usize)>)
    requires
        i <= s@.len(),
    ensures
        r is Some ==> {
            let (v, j) = r->Some_0;
            parse_hex_group(s@, i as int) == Some((v, j as int)) && i < j <= s@.len()
        },
        r is None ==> parse_hex_group(s@, i as int) is None,
{
    proof {
        lemma_hex_run_props(s@, i as int);
    }
    let slen = s.len();
    let n = exec_hex_run_len(s, i);
    if n == 0 || n > 4 {
        None
    } else {
        let v = exec_hex_value(s, i, n);
        assert(i + n <= slen);
        Some((v as u16, i + n))
    }
}

fn exec_parse_sep_group(s: &Vec<char>, i: usize, first: bool) -> (r: Option<(u16, usize)>)
    requires
        i <= s@.len(),
    ensures
        r is Some ==> {
            let (v, j) = r->Some_0;
            parse_sep_group(s@, i as int, first) == Some((v, j as int)) && i < j <= s@.len()
        },
        r is None ==> parse_sep_group(s@, i as int, first) is None,
{
    if first {
        exec_parse_hex_group(s, i)
    } else if i < s.len() && s[i] == ':' {
        exec_parse_hex_group(s, i + 1)
    } else {
        None
    }
}

fn exec_parse_sep_ipv4(s: &Vec<char>, i: usize, first: bool) -> (r: Option<(
    (u8, u8, u8, u8),
    usize,
)>)
    requires
        i <= s@.len(),
    ensures
        r is Some ==> {
            let (q, j) = r->Some_0;
            parse_sep_ipv4(s@, i as int, first) == Some((q, j as int)) && i < j <= s@.len()
        },
        r is None ==> parse_sep_ipv4(s@, i as int, first) is None,
{
    if first {
        exec_parse_ipv4_at(s, i)
    } else if i < s.len() && s[i] == ':' {
        exec_parse_ipv4_at(s, i + 1)
    } else {
        None
    }
}

fn exec_parse_groups(s: &Vec<char>, i: usize, remaining: usize, first: bool) -> (r: (
    Vec<u16>,
    usize,
    bool,
))
    requires
        i <= s@.len(),
    ensures
        ({
            let g = parse_groups(s@, i as int, remaining as int, first);
            r.0@ == g.0 && r.1 as int == g.1 && r.2 == g.2 && i <= r.1 <= s@.len()
        }),
    decreases remaining,
{
    proof {
        lemma_parse_groups_props(s@, i as int, remaining as int, first);
    }
    if remaining == 0 {
        (Vec::new(), i, false)
    } else {
        let v4 = if remaining >= 2 {
            exec_parse_sep_ipv4(s, i, first)
        } else {
            None
        };
        match v4 {
            Some(((a, b, c, d), j)) => {
                let mut gs: Vec<u16> = Vec::new();
                gs.push((a as u16) * 256 + (b as u16));
                gs.push((c as u16) * 256 + (d as u16));
                proof {
                    let g = parse_groups(s@, i as int, remaining as int, first);
                    assert(gs@ =~= g.0);
                }
                (gs, j, true)
            },
            None => {
                match exec_parse_sep_group(s, i, first) {
                    None => (Vec::new(), i, false),
                    Some((g0, j)) => {
                        let rest = exec_parse_groups(s, j, remaining - 1, false);
                        let mut gs: Vec<u16> = Vec::new();
                        gs.push(g0);
                        let mut k: usize = 0;
                        while k < rest.0.len()
                            invariant
                                0 <= k <= rest.0@.len(),
                                gs@ == seq![g0] + rest.0@.take(k as int),
                            decreases rest.0@.len() - k,
                        {
                            gs.push(rest.0[k]);
                            proof {
                                assert(gs@ =~= seq![g0] + rest.0@.take(k + 1 as int));
                            }
                            k = k + 1;
                        }
                        proof {
                            assert(rest.0@.take(rest.0@.len() as int) =~= rest.0@);
                            assert(gs@ =~= seq![g0] + rest.0@);
                        }
                        (gs, rest.1, rest.2)
                    },
                }
            },
        }
    }
}

fn exec_parse_ipv6_at(s: &Vec<char>, i: usize) -> (r: Option<(Vec<u16>, usize)>)
    requires
        i <= s@.len(),
    ensures
        r is Some ==> {
            let (g, j) = r->Some_0;
            parse_ipv6_at(s@, i as int) == Some((g@, j as int)) && g@.len() == 8 && i <= j
                <= s@.len()
        },
        r is None ==> parse_ipv6_at(s@, i as int) is None,
{
    proof {
        lemma_parse_groups_props(s@, i as int, 8, true);
    }
    let (head, j, headv4) = exec_parse_groups(s, i, 8, true);
    if head.len() == 8 {
        Some((head, j))
    } else if headv4 {
        None
    } else if j < s.len() && j + 1 < s.len() && s[j] == ':' && s[j + 1] == ':' {
        let limit = 8 - head.len() - 1;
        proof {
            lemma_parse_groups_props(s@, j + 2 as int, limit as int, true);
        }
        let (tail, j2, _) = exec_parse_groups(s, j + 2, limit, true);
        let zeros = 8 - head.len() - tail.len();
        let mut g: Vec<u16> = head;
        let mut z: usize = 0;
        while z < zeros
            invariant
                0 <= z <= zeros,
                g@ == parse_groups(s@, i as int, 8, true).0 + Seq::new(z as nat, |x: int| 0u16),
            decreases zeros - z,
        {
            g.push(0);
            proof {
                assert(g@ =~= parse_groups(s@, i as int, 8, true).0 + Seq::new(
                    (z + 1) as nat,
                    |x: int| 0u16,
                ));
            }
            z = z + 1;
        }
        let mut k: usize = 0;
        while k < tail.len()
            invariant
                0 <= k <= tail@.len(),
                g@ == parse_groups(s@, i as int, 8, true).0 + Seq::new(zeros as nat, |x: int| 0u16)
                    + tail@.take(k as int),
            decreases tail@.len() - k,
        {
            g.push(tail[k]);
            proof {
                assert(g@ =~= parse_groups(s@, i as int, 8, true).0 + Seq::new(
                    zeros as nat,
                    |x: int| 0u16,
                ) + tail@.take(k + 1 as int));
            }
            k = k + 1;
        }
        proof {
            assert(tail@.take(tail@.len() as int) =~= tail@);
            let spec_r = parse_ipv6_at(s@, i as int);
            assert(g@ =~= spec_r->Some_0.0);
        }
        Some((g, j2))
    } else {
        None
    }
}

// ---------------------------------------------------------------------------
// Rendering
// ---------------------------------------------------------------------------

/// The character for a digit value below sixteen, lowercase.
pub open spec fn digit_char(d: int) -> char {
    if d == 0 {
        '0'
    } else if d == 1 {
        '1'
    } else if d == 2 {
        '2'
    } else if d == 3 {
        '3'
    } else if d == 4 {
        '4'
    } else if d == 5 {
        '5'
    } else if d == 6 {
        '6'
    } else if d == 7 {
        '7'
    } else if d == 8 {
        '8'
    } else if d == 9 {
        '9'
    } else if d == 10 {
        'a'
    } else if d == 11 {
        'b'
    } else if d == 12 {
        'c'
    } else if d == 13 {
        'd'
    } else if d == 14 {
        'e'
    } else {
        'f'
    }
}

/// Decimal text of an octet, without leading zeros.
pub open spec fn chars_of_u8_dec(v: u8) -> Seq<char> {
    let x = v as int;
    if x < 10 {
        seq![digit_char(x)]
    } else if x < 100 {
        seq![digit_char(x / 10), digit_char(x % 10)]
    } else {
        seq![digit_char(x / 100), digit_char((x / 10) % 10), digit_char(x % 10)]
    }
}

/// Lowercase hexadecimal text of a group, without leading zeros.
pub open spec fn chars_of_u16_hex(v: u16) -> Seq<char> {
    let x = v as int;
    if x < 16 {
        seq![digit_char(x)]
    } else if x < 256 {
        seq![digit_char(x / 16), digit_char(x % 16)]
    } else if x < 4096 {
        seq![digit_char(x / 256), digit_char((x / 16) % 16), digit_char(x % 16)]
    } else {
        seq![
            digit_char(x / 4096),
            digit_char((x / 256) % 16),
            digit_char((x / 16) % 16),
            digit_char(x % 16),
        ]
    }
}

/// Text of an IPv4 address: four decimal octets separated by dots.
pub open spec fn chars_of_ipv4(a: u8, b: u8, c: u8, d: u8) -> Seq<char> {
    chars_of_u8_dec(a) + seq!['.'] + chars_of_u8_dec(b) + seq!['.'] + chars_of_u8_dec(c)
        + seq!['.'] + chars_of_u8_dec(d)
}

/// Hexadecimal groups joined by single colons.
pub open spec fn join_hex_groups(g: Seq<u16>) -> Seq<char>
    decreases g.len(),
{
    if g.len() == 0 {
        Seq::empty()
    } else if g.len() == 1 {
        chars_of_u16_hex(g[0])
    } else {
        chars_of_u16_hex(g[0]) + seq![':'] + join_hex_groups(g.drop_first())
    }
}

/// Length of the run of zero groups starting at `i`.
pub open spec fn zero_run_at(g: Seq<u16>, i: int) -> int
    decreases g.len() - i,
{
    if 0 <= i && i < g.len() && g[i] == 0 {
        1 + zero_run_at(g, i + 1)
    } else {
        0
    }
}

/// The longest run of zero groups starting at or after `i`.
pub open spec fn max_run_from(g: Seq<u16>, i: int) -> int
    decreases g.len() - i,
{
    if 0 <= i && i < g.len() {
        let r = zero_run_at(g, i);
        let m = max_run_from(g, i + 1);
        if r >= m {
            r
        } else {
            m
        }
    } else {
        0
    }
}

/// The first position at or after `i` whose zero run has length `l`.
pub open spec fn run_start(g: Seq<u16>, i: int, l: int) -> int
    decreases g.len() - i,
{
    if i < 0 || i >= g.len() {
        i
    } else if zero_run_at(g, i) == l {
        i
    } else {
        run_start(g, i + 1, l)
    }
}

/// Whether eight groups form an IPv4-mapped address (`::ffff:a.b.c.d`).
pub open spec fn is_v4_mapped(g: Seq<u16>) -> bool {
    g.len() == 8 && g[0] == 0 && g[1] == 0 && g[2] == 0 && g[3] == 0 && g[4] == 0 && g[5]
        == 0xffff
}

/// Canonical text of an IPv6 address: the IPv4-mapped form when applicable,
/// else the groups with the leftmost longest zero run of length at least two
/// compressed to `::`.
pub open spec fn chars_of_ipv6(g: Seq<u16>) -> Seq<char>
    recommends
        g.len() == 8,
{
    if is_v4_mapped(g) {
        seq![':', ':', 'f', 'f', 'f', 'f', ':'] + chars_of_ipv4(
            (g[6] as int / 256) as u8,
            (g[6] as int % 256) as u8,
            (g[7] as int / 256) as u8,
            (g[7] as int % 256) as u8,
        )
    } else {
        let l = max_run_from(g, 0);
        if l >= 2 {
            let st = run_start(g, 0, l);
            join_hex_groups(g.take(st)) + seq![':', ':'] + join_hex_groups(g.skip(st + l))
        } else {
            join_hex_groups(g)
        }
    }
}

/// Canonical text of an IP address.
pub open spec fn chars_of_ip(ip: IpAddress) -> Seq<char> {
    match ip {
        IpAddress::V4(a, b, c, d) => chars_of_ipv4(a, b, c, d),
        IpAddress::V6(..) => chars_of_ipv6(ip.v6_groups()),
    }
}

fn digit_str(d: u32) -> (r: &'static str)
    requires
        d < 16,
    ensures
        r@ == seq![digit_char(d as int)],
{
    let r: &'static str = if d == 0 {
        "0"
    } else if d == 1 {
        "1"
    } else if d == 2 {
        "2"
    } else if d == 3 {
        "3"
    } else if d == 4 {
        "4"
    } else if d == 5 {
        "5"
    } else if d == 6 {
        "6"
    } else if d == 7 {
        "7"
    } else if d == 8 {
        "8"
    } else if d == 9 {
        "9"
    } else if d == 10 {
        "a"
    } else if d == 11 {
        "b"
    } else if d == 12 {
        "c"
    } else if d == 13 {
        "d"
    } else if d == 14 {
        "e"
    } else {
        "f"
    };
    proof {
        reveal_strlit("0");
        reveal_strlit("1");
        reveal_strlit("2");
        reveal_strlit("3");
        reveal_strlit("4");
        reveal_strlit("5");
        reveal_strlit("6");
        reveal_strlit("7");
        reveal_strlit("8");
        reveal_strlit("9");
        reveal_strlit("a");
        reveal_strlit("b");
        reveal_strlit("c");
        reveal_strlit("d");
        reveal_strlit("e");
        reveal_strlit("f");
        assert(r@ =~= seq![digit_char(d as int)]);
    }
    r
}

fn render_u8_dec(v: u8, out: &mut String)
    ensures
        final(out)@ == old(out)@ + chars_of_u8_dec(v),
{
    let x = v as u32;
    if x < 10 {
        out.append(digit_str(x));
    } else if x < 100 {
        out.append(digit_str(x / 10));
        out.append(digit_str(x % 10));
    } else {
        out.append(digit_str(x / 100));
        out.append(digit_str((x / 10) % 10));
        out.append(digit_str(x % 10));
    }
    proof {
        assert(final(out)@ =~= old(out)@ + chars_of_u8_dec(v));
    }
}

fn render_u16_hex(v: u16, out: &mut String)
    ensures
        final(out)@ == old(out)@ + chars_of_u16_hex(v),
{
    let x = v as u32;
    if x < 16 {
        out.append(digit_str(x));
    } else if x < 256 {
        out.append(digit_str(x / 16));
        out.append(digit_str(x % 16));
    } else if x < 4096 {
        out.append(digit_str(x / 256));
        out.append(digit_str((x / 16) % 16));
        out.append(digit_str(x % 16));
    } else {
        out.append(digit_str(x / 4096));
        out.append(digit_str((x / 256) % 16));
        out.append(digit_str((x / 16) % 16));
        out.append(digit_str(x % 16));
    }
    proof {
        assert(final(out)@ =~= old(out)@ + chars_of_u16_hex(v));
    }
}

fn render_ipv4(a: u8, b: u8, c: u8, d: u8, out: &mut String)
    ensures
        final(out)@ == old(out)@ + chars_of_ipv4(a, b, c, d),
{
    proof {
        reveal_strlit(".");
    }
    render_u8_dec(a, out);
    out.append(".");
    render_u8_dec(b, out);
    out.append(".");
    render_u8_dec(c, out);
    out.append(".");
    render_u8_dec(d, out);
    proof {
        assert(final(out)@ =~= old(out)@ + chars_of_ipv4(a, b, c, d));
    }
}

fn render_join(g: &Vec<u16>, from: usize, to: usize, out: &mut String)
    requires
        from <= to <= g@.len(),
    ensures
        final(out)@ == old(out)@ + join_hex_groups(g@.subrange(from as int, to as int)),
    decreases to - from,
{
    if from < to {
        render_u16_hex(g[from], out);
        if from + 1 < to {
            proof {
                reveal_strlit(":");
            }
            out.append(":");
            render_join(g, from + 1, to, out);
            proof {
                let sub = g@.subrange(from as int, to as int);
                assert(sub.drop_first() =~= g@.subrange(from + 1 as int, to as int));
                assert(final(out)@ =~= old(out)@ + join_hex_groups(sub));
            }
        } else {
            proof {
                let sub = g@.subrange(from as int, to as int);
                assert(sub.len() == 1 && sub[0] == g@[from as int]);
                assert(final(out)@ =~= old(out)@ + join_hex_groups(sub));
            }
        }
    } else {
        proof {
            assert(g@.subrange(from as int, to as int) =~= Seq::<u16>::empty());
            assert(final(out)@ =~= old(out)@ + join_hex_groups(
                g@.subrange(from as int, to as int),
            ));
        }
    }
}

fn exec_zero_run_at(g: &Vec<u16>, i: usize) -> (n: usize)
    requires
        i <= g@.len(),
    ensures
        n as int == zero_run_at(g@, i as int),
        i + n <= g@.len(),
    decreases g@.len() - i,
{
    if i < g.len() && g[i] == 0 {
        1 + exec_zero_run_at(g, i + 1)
    } else {
        0
    }
}

fn exec_max_run_from(g: &Vec<u16>, i: usize) -> (m: usize)
    requires
        i <= g@.len(),
    ensures
        m as int == max_run_from(g@, i as int),
        m <= g@.len(),
    decreases g@.len() - i,
{
    if i < g.len() {
        let r = exec_zero_run_at(g, i);
        let m = exec_max_run_from(g, i + 1);
        if r >= m {
            r
        } else {
            m
        }
    } else {
        0
    }
}

fn exec_run_start(g: &Vec<u16>, i: usize, l: usize) -> (r: usize)
    requires
        i <= g@.len(),
    ensures
        r as int == run_start(g@, i as int, l as int),
        r <= g@.len(),
    decreases g@.len() - i,
{
    if i >= g.len() {
        i
    } else if exec_zero_run_at(g, i) == l {
        i
    } else {
        exec_run_start(g, i + 1, l)
    }
}

/// The position found by `run_start` for the maximal run length really
/// carries a zero run of that length.
proof fn lemma_run_start_finds(g: Seq<u16>, i: int, l: int)
    requires
        0 <= i <= g.len(),
        max_run_from(g, i) == l,
        l >= 1,
    ensures
        ({
            let st = run_start(g, i, l);
            i <= st && st + l <= g.len() && zero_run_at(g, st) == l
        }),
    decreases g.len() - i,
{
    lemma_zero_run_bound(g, i);
    if i < g.len() {
        let r = zero_run_at(g, i);
        let m = max_run_from(g, i + 1);
        if r == l {
        } else {
            assert(m == l);
            lemma_run_start_finds(g, i + 1, l);
        }
    }
}

proof fn lemma_zero_run_bound(g: Seq<u16>, i: int)
    requires
        0 <= i <= g.len(),
    ensures
        0 <= zero_run_at(g, i),
        i + zero_run_at(g, i) <= g.len(),
        forall|k: int| i <= k < i + zero_run_at(g, i) ==> #[trigger] g[k] == 0,
        i + zero_run_at(g, i) < g.len() ==> g[i + zero_run_at(g, i)] != 0,
    decreases g.len() - i,
{
    if i < g.len() && g[i] == 0 {
        lemma_zero_run_bound(g, i + 1);
    }
}

/// Render the canonical text of an IP address.
pub fn render_ip_address(ip: &IpAddress) -> (r: String)
    ensures
        r@ == chars_of_ip(*ip),
{
    let mut out = String::new();
    match ip {
        IpAddress::V4(a, b, c, d) => {
            render_ipv4(*a, *b, *c, *d, &mut out);
        },
        IpAddress::V6(g0, g1, g2, g3, g4, g5, g6, g7) => {
            let mut g: Vec<u16> = Vec::new();
            g.push(*g0);
            g.push(*g1);
            g.push(*g2);
            g.push(*g3);
            g.push(*g4);
            g.push(*g5);
            g.push(*g6);
            g.push(*g7);
            proof {
                assert(g@ =~= ip.v6_groups());
            }
            if g[0] == 0 && g[1] == 0 && g[2] == 0 && g[3] == 0 && g[4] == 0 && g[5] == 0xffff {
                proof {
                    reveal_strlit("::ffff:");
                }
                out.append("::ffff:");
                let hi6 = (g[6] / 256) as u8;
                let lo6 = (g[6] % 256) as u8;
                let hi7 = (g[7] / 256) as u8;
                let lo7 = (g[7] % 256) as u8;
                render_ipv4(hi6, lo6, hi7, lo7, &mut out);
                proof {
                    assert("::ffff:"@ =~= seq![':', ':', 'f', 'f', 'f', 'f', ':']);
                    assert(out@ =~= chars_of_ip(*ip));
                }
            } else {
                let l = exec_max_run_from(&g, 0);
                if l >= 2 {
                    proof {
                        lemma_run_start_finds(g@, 0, l as int);
                    }
                    let st = exec_run_start(&g, 0, l);
                    render_join(&g, 0, st, &mut out);
                    proof {
                        reveal_strlit("::");
                    }
                    out.append("::");
                    render_join(&g, st + l, 8, &mut out);
                    proof {
                        assert("::"@ =~= seq![':', ':']);
                        assert(g@.subrange(0, st as int) =~= g@.take(st as int));
                        assert(g@.subrange(st + l as int, 8) =~= g@.skip(st + l as int));
                        assert(out@ =~= chars_of_ip(*ip));
                    }
                } else {
                    render_join(&g, 0, 8, &mut out);
                    proof {
                        assert(g@.subrange(0, 8) =~= g@);
                        assert(out@ =~= chars_of_ip(*ip));
                    }
                }
            }
        },
    }
    out
}

// ---------------------------------------------------------------------------
// The renderer's output parses back to the same address
// ---------------------------------------------------------------------------

proof fn lemma_digit_char_props(d: int)
    requires
        0 <= d < 16,
    ensures
        is_hex_digit_char(digit_char(d)),
        hex_digit_val(digit_char(d)) == d,
        d < 10 ==> is_dec_digit(digit_char(d)) && digit_char(d) as u32 - 48 == d,
        d >= 10 ==> !is_dec_digit(digit_char(d)),
        (digit_char(d) == '0') == (d == 0),
{
}

proof fn lemma_chars_of_u8_dec_props(v: u8)
    ensures
        1 <= chars_of_u8_dec(v).len() <= 3,
        forall|k: int|
            0 <= k < chars_of_u8_dec(v).len() ==> is_dec_digit(#[trigger] chars_of_u8_dec(v)[k]),
        v >= 10 ==> chars_of_u8_dec(v)[0] != '0',
{
    let x = v as int;
    if x < 10 {
        lemma_digit_char_props(x);
    } else if x < 100 {
        lemma_digit_char_props(x / 10);
        lemma_digit_char_props(x % 10);
    } else {
        lemma_digit_char_props(x / 100);
        lemma_digit_char_props((x / 10) % 10);
        lemma_digit_char_props(x % 10);
    }
}

proof fn lemma_chars_of_u16_hex_props(v: u16)
    ensures
        1 <= chars_of_u16_hex(v).len() <= 4,
        forall|k: int|
            0 <= k < chars_of_u16_hex(v).len() ==> is_hex_digit_char(
                #[trigger] chars_of_u16_hex(v)[k],
            ),
{
    let x = v as int;
    if x < 16 {
        lemma_digit_char_props(x);
    } else if x < 256 {
        lemma_digit_char_props(x / 16);
        lemma_digit_char_props(x % 16);
    } else if x < 4096 {
        lemma_digit_char_props(x / 256);
        lemma_digit_char_props((x / 16) % 16);
        lemma_digit_char_props(x % 16);
    } else {
        lemma_digit_char_props(x / 4096);
        lemma_digit_char_props((x / 256) % 16);
        lemma_digit_char_props((x / 16) % 16);
        lemma_digit_char_props(x % 16);
    }
}

proof fn lemma_dec_run_exact(s: Seq<char>, p: int, n: int)
    requires
        0 <= p,
        0 <= n,
        p + n <= s.len(),
        forall|k: int| p <= k < p + n ==> is_dec_digit(#[trigger] s[k]),
        p + n == s.len() || !is_dec_digit(s[p + n]),
    ensures
        dec_run_len(s, p) == n,
    decreases n,
{
    if n > 0 {
        lemma_dec_run_exact(s, p + 1, n - 1);
    }
}

proof fn lemma_hex_run_exact(s: Seq<char>, p: int, n: int)
    requires
        0 <= p,
        0 <= n,
        p + n <= s.len(),
        forall|k: int| p <= k < p + n ==> is_hex_digit_char(#[trigger] s[k]),
        p + n == s.len() || !is_hex_digit_char(s[p + n]),
    ensures
        hex_run_len(s, p) == n,
    decreases n,
{
    if n > 0 {
        lemma_hex_run_exact(s, p + 1, n - 1);
    }
}

/// An octet's rendered text, followed by anything but another digit, parses
/// back to the octet.
proof fn lemma_octet_parse_at(s: Seq<char>, p: int, v: u8)
    requires
        0 <= p,
        p + chars_of_u8_dec(v).len() <= s.len(),
        s.subrange(p, p + chars_of_u8_dec(v).len()) == chars_of_u8_dec(v),
        p + chars_of_u8_dec(v).len() == s.len() || !is_dec_digit(
            s[p + chars_of_u8_dec(v).len()],
        ),
    ensures
        parse_octet(s, p) == Some((v, p + chars_of_u8_dec(v).len())),
{
    reveal_with_fuel(dec_value, 5);
    let cv = chars_of_u8_dec(v);
    let n = cv.len() as int;
    lemma_chars_of_u8_dec_props(v);
    assert(forall|k: int| p <= k < p + n ==> s[k] == cv[k - p]);
    lemma_dec_run_exact(s, p, n);
    let x = v as int;
    if x < 10 {
        lemma_digit_char_props(x);
        assert(dec_value(s, p, 1) == s[p] as u32 - 48);
        assert(dec_value(s, p, n) == x);
    } else if x < 100 {
        lemma_digit_char_props(x / 10);
        lemma_digit_char_props(x % 10);
        assert(dec_value(s, p, 2) == dec_value(s, p, 1) * 10 + (s[p + 1] as u32 - 48));
        assert(dec_value(s, p, n) == (x / 10) * 10 + x % 10);
        assert(dec_value(s, p, n) == x);
    } else {
        lemma_digit_char_props(x / 100);
        lemma_digit_char_props((x / 10) % 10);
        lemma_digit_char_props(x % 10);
        assert(dec_value(s, p, 3) == dec_value(s, p, 2) * 10 + (s[p + 2] as u32 - 48));
        assert(dec_value(s, p, 2) == dec_value(s, p, 1) * 10 + (s[p + 1] as u32 - 48));
        assert(dec_value(s, p, n) == ((x / 100) * 10 + (x / 10) % 10) * 10 + x % 10);
        assert(x == (x / 100) * 100 + (x % 100) && x % 100 == ((x % 100) / 10) * 10 + x % 10)
            by (nonlinear_arith);
        assert((x / 10) % 10 == (x % 100) / 10) by (nonlinear_arith);
        assert(dec_value(s, p, n) == x);
    }
    if n > 1 {
        assert(s[p] == cv[0]);
        assert(s[p] != '0');
    }
}

/// A hex group's rendered text, followed by anything but another hex digit,
/// parses back to the group.
proof fn lemma_hex_group_parse_at(s: Seq<char>, p: int, v: u16)
    requires
        0 <= p,
        p + chars_of_u16_hex(v).len() <= s.len(),
        s.subrange(p, p + chars_of_u16_hex(v).len()) == chars_of_u16_hex(v),
        p + chars_of_u16_hex(v).len() == s.len() || !is_hex_digit_char(
            s[p + chars_of_u16_hex(v).len()],
        ),
    ensures
        parse_hex_group(s, p) == Some((v, p + chars_of_u16_hex(v).len())),
{
    reveal_with_fuel(hex_value, 6);
    let cv = chars_of_u16_hex(v);
    let n = cv.len() as int;
    lemma_chars_of_u16_hex_props(v);
    assert(forall|k: int| p <= k < p + n ==> s[k] == cv[k - p]);
    lemma_hex_run_exact(s, p, n);
    let x = v as int;
    if x < 16 {
        lemma_digit_char_props(x);
        assert(hex_value(s, p, 1) == hex_digit_val(s[p]));
        assert(hex_value(s, p, n) == x);
    } else if x < 256 {
        lemma_digit_char_props(x / 16);
        lemma_digit_char_props(x % 16);
        assert(hex_value(s, p, 2) == hex_value(s, p, 1) * 16 + hex_digit_val(s[p + 1]));
        assert(hex_value(s, p, n) == (x / 16) * 16 + x % 16);
        assert(hex_value(s, p, n) == x);
    } else if x < 4096 {
        lemma_digit_char_props(x / 256);
        lemma_digit_char_props((x / 16) % 16);
        lemma_digit_char_props(x % 16);
        assert(hex_value(s, p, 3) == hex_value(s, p, 2) * 16 + hex_digit_val(s[p + 2]));
        assert(hex_value(s, p, 2) == hex_value(s, p, 1) * 16 + hex_digit_val(s[p + 1]));
        assert(hex_value(s, p, n) == ((x / 256) * 16 + (x / 16) % 16) * 16 + x % 16);
        assert(x == (x / 256) * 256 + (x % 256) && x % 256 == ((x % 256) / 16) * 16 + x % 16)
            by (nonlinear_arith);
        assert((x / 16) % 16 == (x % 256) / 16) by (nonlinear_arith);
        assert(hex_value(s, p, n) == x);
    } else {
        lemma_digit_char_props(x / 4096);
        lemma_digit_char_props((x / 256) % 16);
        lemma_digit_char_props((x / 16) % 16);
        lemma_digit_char_props(x % 16);
        assert(hex_value(s, p, 4) == hex_value(s, p, 3) * 16 + hex_digit_val(s[p + 3]));
        assert(hex_value(s, p, 3) == hex_value(s, p, 2) * 16 + hex_digit_val(s[p + 2]));
        assert(hex_value(s, p, 2) == hex_value(s, p, 1) * 16 + hex_digit_val(s[p + 1]));
        assert(hex_value(s, p, n) == (((x / 4096) * 16 + (x / 256) % 16) * 16 + (x / 16) % 16)
            * 16 + x % 16);
        assert(x == (x / 4096) * 4096 + x % 4096 && x % 4096 == ((x % 4096) / 256) * 256 + x % 256
            && x % 256 == ((x % 256) / 16) * 16 + x % 16) by (nonlinear_arith);
        assert((x / 256) % 16 == (x % 4096) / 256 && (x / 16) % 16 == (x % 256) / 16)
            by (nonlinear_arith);
        assert(hex_value(s, p, n) == x);
    }
}

/// An IPv4 parse fails wherever the character just after the leading digit
/// run is not a dot.
proof fn lemma_parse_ipv4_none(s: Seq<char>, p: int)
    requires
        0 <= p <= s.len(),
        p + dec_run_len(s, p) == s.len() || s[p + dec_run_len(s, p)] != '.',
    ensures
        parse_ipv4_at(s, p) is None,
{
    lemma_dec_run_props(s, p);
}

/// An IPv4 parse fails at the start of a rendered hex group that is followed
/// by a colon or the end of the text.
proof fn lemma_ipv4_fails_at_group(s: Seq<char>, p: int, v: u16)
    requires
        0 <= p,
        p + chars_of_u16_hex(v).len() <= s.len(),
        s.subrange(p, p + chars_of_u16_hex(v).len()) == chars_of_u16_hex(v),
        p + chars_of_u16_hex(v).len() == s.len() || s[p + chars_of_u16_hex(v).len()] == ':',
    ensures
        parse_ipv4_at(s, p) is None,
{
    let cv = chars_of_u16_hex(v);
    let h = cv.len() as int;
    lemma_chars_of_u16_hex_props(v);
    assert(forall|k: int| p <= k < p + h ==> s[k] == cv[k - p]);
    lemma_dec_run_props(s, p);
    let run = dec_run_len(s, p);
    if p + run > p + h {
        assert(is_dec_digit(s[p + h]));
        assert(false);
    }
    if run < h {
        assert(s[p + run] == cv[run]);
        assert(is_hex_digit_char(s[p + run]));
        assert(!is_dec_digit(s[p + run]));
        assert(s[p + run] != '.');
    } else {
        assert(p + run == s.len() || s[p + run] == ':');
    }
    lemma_parse_ipv4_none(s, p);
}

/// A rendered IPv4 literal that ends the text parses back to its octets.
#[verifier::rlimit(50)]
proof fn lemma_ipv4_parse_at(s: Seq<char>, p: int, a: u8, b: u8, c: u8, d: u8)
    requires
        0 <= p <= s.len(),
        s.subrange(p, s.len() as int) == chars_of_ipv4(a, b, c, d),
    ensures
        parse_ipv4_at(s, p) == Some(((a, b, c, d), s.len() as int)),
{
    let ca = chars_of_u8_dec(a);
    let cb = chars_of_u8_dec(b);
    let cc = chars_of_u8_dec(c);
    let cd = chars_of_u8_dec(d);
    lemma_chars_of_u8_dec_props(a);
    lemma_chars_of_u8_dec_props(b);
    lemma_chars_of_u8_dec_props(c);
    lemma_chars_of_u8_dec_props(d);
    let la = ca.len() as int;
    let lb = cb.len() as int;
    let lc = cc.len() as int;
    let ld = cd.len() as int;
    let full = chars_of_ipv4(a, b, c, d);
    assert(s.len() - p == full.len());
    assert forall|k: int| p <= k < s.len() implies s[k] == full[k - p] by {
        assert(s[k] == s.subrange(p, s.len() as int)[k - p]);
    }
    let pa = p;
    let pb = pa + la + 1;
    let pc = pb + lb + 1;
    let pd = pc + lc + 1;
    assert(s.subrange(pa, pa + la) =~= ca);
    assert(s[pa + la] == '.');
    assert(!is_dec_digit('.'));
    lemma_octet_parse_at(s, pa, a);
    assert(s.subrange(pb, pb + lb) =~= cb);
    assert(s[pb + lb] == '.');
    lemma_octet_parse_at(s, pb, b);
    assert(s.subrange(pc, pc + lc) =~= cc);
    assert(s[pc + lc] == '.');
    lemma_octet_parse_at(s, pc, c);
    assert(s.subrange(pd, pd + ld) =~= cd);
    assert(pd + ld == s.len());
    lemma_octet_parse_at(s, pd, d);
    assert(parse_dot_octet(s, pa + la) == Some((b, pb + lb)));
    assert(parse_dot_octet(s, pb + lb) == Some((c, pc + lc)));
    assert(parse_dot_octet(s, pc + lc) == Some((d, pd + ld)));
}

/// A joined list of rendered groups, followed by either the end of the text
/// or a double colon, is read back group for group.
proof fn lemma_join_parse(s: Seq<char>, p: int, gs: Seq<u16>, rem: int, first: bool)
    requires
        0 <= p,
        gs.len() <= rem,
        !first ==> p < s.len() && s[p] == ':',
        ({
            let jstart = if first {
                p
            } else {
                p + 1
            };
            let after = jstart + join_hex_groups(gs).len();
            after <= s.len() && s.subrange(jstart, after) == join_hex_groups(gs) && (after
                == s.len() || (after + 2 <= s.len() && s[after] == ':' && s[after + 1] == ':'))
        }),
    ensures
        parse_groups(s, p, rem, first) == (
            gs,
            if gs.len() == 0 {
                p
            } else {
                (if first {
                    p
                } else {
                    p + 1
                }) + join_hex_groups(gs).len()
            },
            false,
        ),
    decreases gs.len(),
{
    let jstart = if first {
        p
    } else {
        p + 1
    };
    let jn = join_hex_groups(gs);
    let after = jstart + jn.len();
    if gs.len() == 0 {
        // Nothing to read: the group attempt and the embedded IPv4 attempt
        // both fail at the end of the text or at a colon.
        assert(jstart == after);
        if jstart < s.len() {
            assert(s[jstart] == ':');
        }
        assert(hex_run_len(s, jstart) == 0);
        assert(dec_run_len(s, jstart) == 0);
        lemma_parse_ipv4_none(s, jstart);
        if rem > 0 {
            assert(parse_sep_group(s, p, first) is None);
            if rem >= 2 {
                assert(parse_sep_ipv4(s, p, first) is None);
            }
        }
    } else {
        let g0 = gs[0];
        let c0 = chars_of_u16_hex(g0);
        let h = c0.len() as int;
        lemma_chars_of_u16_hex_props(g0);
        let rest = gs.drop_first();
        let jrest = join_hex_groups(rest);
        if gs.len() == 1 {
            assert(jn =~= c0);
        } else {
            assert(jn == c0 + seq![':'] + jrest);
        }
        assert forall|k: int| 0 <= k < jn.len() implies s[jstart + k] == jn[k] by {
            assert(jn[k] == s.subrange(jstart, after)[k]);
        }
        assert(s.subrange(jstart, jstart + h) =~= c0);
        // Character after this group: a colon (more groups or the boundary)
        // or the end of the text.
        if gs.len() >= 2 {
            assert(jn[h] == (c0 + seq![':'])[h]);
            assert(jn[h] == ':');
            assert(s[jstart + h] == ':');
        }
        assert(jstart + h == s.len() || s[jstart + h] == ':');
        assert(!is_hex_digit_char(':'));
        lemma_hex_group_parse_at(s, jstart, g0);
        if rem >= 2 {
            lemma_ipv4_fails_at_group(s, jstart, g0);
            assert(parse_sep_ipv4(s, p, first) is None);
        }
        assert(parse_sep_group(s, p, first) == Some((g0, jstart + h)));
        // The rest of the list follows at the group's end.
        let p2 = jstart + h;
        if rest.len() == 0 {
            // The list ends here: any further group or embedded IPv4 attempt
            // fails at the end of the text or at the double colon.
            assert(after == p2);
            if rem - 1 > 0 {
                if p2 < s.len() {
                    assert(s[p2] == ':' && p2 + 1 < s.len() && s[p2 + 1] == ':');
                    assert(hex_run_len(s, p2 + 1) == 0);
                    assert(dec_run_len(s, p2 + 1) == 0);
                    lemma_parse_ipv4_none(s, p2 + 1);
                }
                assert(parse_sep_group(s, p2, false) is None);
                if rem - 1 >= 2 {
                    assert(parse_sep_ipv4(s, p2, false) is None);
                }
            }
            assert(parse_groups(s, p2, rem - 1, false) == (rest, p2, false));
            assert(seq![g0] + rest =~= gs);
        } else {
            assert(s[p2] == ':');
            let jstart2 = p2 + 1;
            assert forall|k: int| 0 <= k < jrest.len() implies s[jstart2 + k] == jrest[k] by {
                assert(s[jstart2 + k] == jn[h + 1 + k]);
                assert(jn[h + 1 + k] == jrest[k]);
            }
            assert(s.subrange(jstart2, jstart2 + jrest.len()) =~= jrest);
            lemma_join_parse(s, p2, rest, rem - 1, false);
            assert(seq![g0] + rest =~= gs);
        }
    }
}

/// Classification of rendered address text: every character is a hex digit,
/// a colon, or a dot, and the text is never empty.
pub open spec fn is_ip_literal_char(c: char) -> bool {
    is_hex_digit_char(c) || c == ':' || c == '.'
}

proof fn lemma_join_chars_class(gs: Seq<u16>)
    ensures
        forall|k: int|
            0 <= k < join_hex_groups(gs).len() ==> is_ip_literal_char(
                #[trigger] join_hex_groups(gs)[k],
            ),
    decreases gs.len(),
{
    if gs.len() == 1 {
        lemma_chars_of_u16_hex_props(gs[0]);
    } else if gs.len() > 1 {
        lemma_chars_of_u16_hex_props(gs[0]);
        lemma_join_chars_class(gs.drop_first());
        let c0 = chars_of_u16_hex(gs[0]);
        let h = c0.len() as int;
        let jrest = join_hex_groups(gs.drop_first());
        let jn = join_hex_groups(gs);
        assert(jn == c0 + seq![':'] + jrest);
        assert forall|k: int| 0 <= k < jn.len() implies is_ip_literal_char(jn[k]) by {
            if k < h {
                assert(jn[k] == c0[k]);
            } else if k == h {
                assert(jn[k] == ':');
            } else {
                assert(jn[k] == jrest[k - h - 1]);
            }
        }
    }
}

proof fn lemma_ipv4_chars_class(a: u8, b: u8, c: u8, d: u8)
    ensures
        forall|k: int|
            0 <= k < chars_of_ipv4(a, b, c, d).len() ==> is_ip_literal_char(
                #[trigger] chars_of_ipv4(a, b, c, d)[k],
            ),
        chars_of_ipv4(a, b, c, d).len() >= 1,
{
    lemma_chars_of_u8_dec_props(a);
    lemma_chars_of_u8_dec_props(b);
    lemma_chars_of_u8_dec_props(c);
    lemma_chars_of_u8_dec_props(d);
}

/// Every character of a rendered IP address belongs to the address-literal
/// alphabet, and the text is nonempty.
pub proof fn lemma_ip_chars_class(ip: IpAddress)
    ensures
        chars_of_ip(ip).len() >= 1,
        forall|k: int|
            0 <= k < chars_of_ip(ip).len() ==> is_ip_literal_char(#[trigger] chars_of_ip(ip)[k]),
{
    match ip {
        IpAddress::V4(a, b, c, d) => {
            lemma_ipv4_chars_class(a, b, c, d);
        },
        IpAddress::V6(..) => {
            let g = ip.v6_groups();
            if is_v4_mapped(g) {
                lemma_ipv4_chars_class(
                    (g[6] as int / 256) as u8,
                    (g[6] as int % 256) as u8,
                    (g[7] as int / 256) as u8,
                    (g[7] as int % 256) as u8,
                );
            } else {
                let l = max_run_from(g, 0);
                if l >= 2 {
                    let st = run_start(g, 0, l);
                    lemma_join_chars_class(g.take(st));
                    lemma_join_chars_class(g.skip(st + l));
                } else {
                    lemma_join_chars_class(g);
                    lemma_max_run_exists(g, 0);
                    assert(join_hex_groups(g).len() >= 1) by {
                        lemma_chars_of_u16_hex_props(g[0]);
                    }
                }
            }
        },
    }
}

proof fn lemma_max_run_exists(g: Seq<u16>, i: int)
    requires
        0 <= i <= g.len(),
    ensures
        max_run_from(g, i) >= 0,
        i < g.len() ==> max_run_from(g, i) >= zero_run_at(g, i),
    decreases g.len() - i,
{
    if i < g.len() {
        lemma_max_run_exists(g, i + 1);
    }
}

/// Parsing the canonical rendering of an address yields that address back.
pub proof fn lemma_ip_round_trip(ip: IpAddress)
    ensures
        ip_of_chars(chars_of_ip(ip)) == Some(ip),
{
    let s = chars_of_ip(ip);
    match ip {
        IpAddress::V4(a, b, c, d) => {
            assert(s.subrange(0, s.len() as int) =~= s);
            lemma_ipv4_parse_at(s, 0, a, b, c, d);
        },
        IpAddress::V6(g0, g1, g2, g3, g4, g5, g6, g7) => {
            let g = ip.v6_groups();
            assert(g.len() == 8);
            if is_v4_mapped(g) {
                lemma_v6_mapped_round_trip(ip);
            } else {
                lemma_v6_general_round_trip(ip);
            }
        },
    }
}

#[verifier::rlimit(80)]
proof fn lemma_v6_mapped_round_trip(ip: IpAddress)
    requires
        ip is V6,
        is_v4_mapped(ip.v6_groups()),
    ensures
        ip_of_chars(chars_of_ip(ip)) == Some(ip),
{
    let g = ip.v6_groups();
    let s = chars_of_ip(ip);
    let a = (g[6] as int / 256) as u8;
    let b = (g[6] as int % 256) as u8;
    let c = (g[7] as int / 256) as u8;
    let d = (g[7] as int % 256) as u8;
    let pre = seq![':', ':', 'f', 'f', 'f', 'f', ':'];
    let v4c = chars_of_ipv4(a, b, c, d);
    assert(s =~= pre + v4c);
    lemma_ipv4_chars_class(a, b, c, d);
    // The IPv4 attempt at the start fails on the leading colon.
    assert(s[0] == ':');
    assert(dec_run_len(s, 0) == 0);
    lemma_parse_ipv4_none(s, 0);
    // Head groups: none; the text starts with the double colon.
    assert(hex_run_len(s, 0) == 0);
    assert(parse_sep_group(s, 0, true) is None);
    assert(parse_sep_ipv4(s, 0, true) is None);
    assert(parse_groups(s, 0, 8, true) == (Seq::<u16>::empty(), 0int, false));
    assert(s[1] == ':');
    // Tail: the group `ffff`, then the embedded IPv4 literal.
    let cf = chars_of_u16_hex(0xffff);
    assert(cf =~= seq!['f', 'f', 'f', 'f']) by {
        lemma_digit_char_props(15);
    }
    assert(s.subrange(2, 6) =~= cf);
    assert(s[6] == ':');
    assert(!is_hex_digit_char(':'));
    lemma_hex_group_parse_at(s, 2, 0xffff);
    assert(dec_run_len(s, 2) == 0) by {
        assert(s[2] == 'f');
        assert(!is_dec_digit('f'));
    }
    lemma_parse_ipv4_none(s, 2);
    assert(parse_sep_ipv4(s, 2, true) is None);
    assert(parse_sep_group(s, 2, true) == Some((0xffffu16, 6int)));
    // After `ffff`, a colon and the IPv4 literal reaching the end.
    assert(s.subrange(7, s.len() as int) =~= v4c);
    lemma_ipv4_parse_at(s, 7, a, b, c, d);
    assert(parse_sep_ipv4(s, 6, false) == Some((((a, b, c, d)), s.len() as int)));
    let lo = (a as int * 256 + b as int) as u16;
    let hi = (c as int * 256 + d as int) as u16;
    assert(parse_groups(s, 6, 6, false) == (seq![lo, hi], s.len() as int, true));
    assert(parse_groups(s, 2, 7, true) == (seq![0xffffu16, lo, hi], s.len() as int, true));
    assert(lo == g[6] && hi == g[7]);
    let assembled = Seq::<u16>::empty() + Seq::new(5nat, |x: int| 0u16) + seq![0xffffu16, lo, hi];
    assert(assembled =~= g);
    assert(parse_ipv6_at(s, 0) == Some((assembled, s.len() as int)));
    assert(ip_of_chars(s) == Some(IpAddress::V6(g[0], g[1], g[2], g[3], g[4], g[5], g[6], g[7])));
    assert(IpAddress::V6(g[0], g[1], g[2], g[3], g[4], g[5], g[6], g[7]) == ip);
}

#[verifier::rlimit(80)]
proof fn lemma_v6_general_round_trip(ip: IpAddress)
    requires
        ip is V6,
        !is_v4_mapped(ip.v6_groups()),
    ensures
        ip_of_chars(chars_of_ip(ip)) == Some(ip),
{
    let g = ip.v6_groups();
    let s = chars_of_ip(ip);
    let l = max_run_from(g, 0);
    if l >= 2 {
        let st = run_start(g, 0, l);
        lemma_run_start_finds(g, 0, l);
        lemma_zero_run_bound(g, st);
        let head = g.take(st);
        let tail = g.skip(st + l);
        let jh = join_hex_groups(head);
        let jt = join_hex_groups(tail);
        assert(s =~= jh + seq![':', ':'] + jt);
        // Head groups, then the double colon.
        assert(s.subrange(0, jh.len() as int) =~= jh);
        assert(s[jh.len() as int] == ':' && s[jh.len() as int + 1] == ':');
        lemma_join_parse(s, 0, head, 8, true);
        let hpos = if head.len() == 0 {
            0int
        } else {
            jh.len() as int
        };
        assert(head.len() == 0 ==> jh.len() == 0);
        assert(hpos == jh.len() as int);
        assert(parse_groups(s, 0, 8, true) == (head, hpos, false));
        assert(head.len() < 8);
        // Tail groups reach the end of the text.
        let tstart = jh.len() as int + 2;
        assert(s.subrange(tstart, s.len() as int) =~= jt);
        assert(tail.len() == 8 - st - l);
        let limit = 8 - head.len() - 1;
        assert(tail.len() <= limit);
        lemma_join_parse(s, tstart, tail, limit as int, true);
        let tpos = if tail.len() == 0 {
            tstart
        } else {
            tstart + jt.len() as int
        };
        assert(tail.len() == 0 ==> jt.len() == 0);
        assert(tpos == s.len());
        assert(parse_groups(s, tstart, limit as int, true) == (tail, s.len() as int, false));
        let zeros = 8 - head.len() - tail.len();
        assert(zeros == l);
        let assembled = head + Seq::new(zeros as nat, |x: int| 0u16) + tail;
        assert(assembled =~= g);
        assert(parse_ipv6_at(s, 0) == Some((assembled, s.len() as int)));
        // The IPv4 attempt at the very start fails.
        if st == 0 {
            assert(s[0] == ':');
            assert(dec_run_len(s, 0) == 0);
            lemma_parse_ipv4_none(s, 0);
        } else {
            lemma_chars_of_u16_hex_props(g[0]);
            let c0 = chars_of_u16_hex(head[0]);
            if head.len() == 1 {
                assert(jh =~= c0);
            } else {
                assert(jh =~= c0 + seq![':'] + join_hex_groups(head.drop_first()));
            }
            assert(s.subrange(0, c0.len() as int) =~= c0);
            assert(s[c0.len() as int] == ':');
            lemma_ipv4_fails_at_group(s, 0, head[0]);
        }
        assert(ip_of_chars(s) == Some(
            IpAddress::V6(g[0], g[1], g[2], g[3], g[4], g[5], g[6], g[7]),
        ));
        assert(IpAddress::V6(g[0], g[1], g[2], g[3], g[4], g[5], g[6], g[7]) == ip);
    } else {
        // No compression: eight groups joined, reaching the end.
        assert(s =~= join_hex_groups(g));
        assert(s.subrange(0, s.len() as int) =~= s);
        lemma_join_parse(s, 0, g, 8, true);
        assert(parse_groups(s, 0, 8, true) == (g, s.len() as int, false));
        assert(parse_ipv6_at(s, 0) == Some((g, s.len() as int)));
        let c0 = chars_of_u16_hex(g[0]);
        assert(join_hex_groups(g) =~= c0 + seq![':'] + join_hex_groups(g.drop_first()));
        assert(s.subrange(0, c0.len() as int) =~= c0);
        assert(s[c0.len() as int] == ':');
        lemma_ipv4_fails_at_group(s, 0, g[0]);
        assert(ip_of_chars(s) == Some(
            IpAddress::V6(g[0], g[1], g[2], g[3], g[4], g[5], g[6], g[7]),
        ));
        assert(IpAddress::V6(g[0], g[1], g[2], g[3], g[4], g[5], g[6], g[7]) == ip);
    }
}

/// Parse a full IP address literal held in a character vector.
pub fn parse_ip_address(s: &Vec<char>) -> (r: Option<IpAddress>)
    ensures
        r == ip_of_chars(s@),
{
    match exec_parse_ipv4_at(s, 0) {
        Some(((a, b, c, d), j)) => {
            if j == s.len() {
                Some(IpAddress::V4(a, b, c, d))
            } else {
                None
            }
        },
        None => {
            match exec_parse_ipv6_at(s, 0) {
                Some((g, j)) => {
                    if j == s.len() {
                        Some(IpAddress::V6(g[0], g[1], g[2], g[3], g[4], g[5], g[6], g[7]))
                    } else {
                        None
                    }
                },
                None => None,
            }
        },
    }
}

} // verus!
