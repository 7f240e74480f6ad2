//! The hosts-file data model and its line-oriented parser.
//!
//! A file is an ordered sequence of parts: active entries, commented-out
//! entries, plain comments, and blank lines. The grammar is line oriented;
//! lines are separated by `\n`, `\r\n`, or `\n\r`. Parsing the whole text
//! must consume it entirely; any remainder is a fatal parse error.
use vstd::prelude::*;

use crate::errors::HostsError;
use crate::ip::{is_hex_digit_char, ip_of_chars, HostsPartFamily, IpAddress};

verus! {

// ---------------------------------------------------------------------------
// Character classes
// ---------------------------------------------------------------------------

/// Whether a character counts as Unicode alphanumeric. The result of
/// `char::is_alphanumeric` depends on the character alone, so it bears a
/// name; nothing more is assumed of it.
pub uninterp spec fn is_unicode_alphanumeric(c: char) -> bool;

/// Relies on char::is_alphanumeric: whether a character is Unicode
/// alphanumeric is a function of the character alone.
#[verifier::external_body]
fn char_is_alphanumeric(c: char) -> (r: bool)
    ensures
        r == is_unicode_alphanumeric(c),
{
    c.is_alphanumeric()
}

/// A space or a tab: the in-line separators of the grammar.
pub open spec fn is_space_char(c: char) -> bool {
    c == ' ' || c == '\t'
}

/// An ASCII letter or digit.
pub open spec fn is_ascii_alphanumeric_char(c: char) -> bool {
    (48 <= c as u32 && c as u32 <= 57) || (65 <= c as u32 && c as u32 <= 90) || (97 <= c as u32
        && c as u32 <= 122)
}

/// A character allowed in a hostname or alias: alphanumeric, `-`, `_` or
/// `.`. Within ASCII the alphanumeric characters are exactly the letters and
/// digits; beyond ASCII the Unicode classification decides.
pub open spec fn is_alias_char(c: char) -> bool {
    if (c as u32) < 128 {
        is_ascii_alphanumeric_char(c) || c == '-' || c == '_' || c == '.'
    } else {
        is_unicode_alphanumeric(c)
    }
}

/// A character that may appear in an address token: hex digit, `:` or `.`.
pub open spec fn is_ip_char(c: char) -> bool {
    is_hex_digit_char(c) || c == ':' || c == '.'
}

/// Whether a character may belong to an address token.
pub fn maybe_ip_addr(byt: char) -> (r: bool)
    ensures
        r == is_ip_char(byt),
{
    let u = byt as u32;
    (48 <= u && u <= 57) || (97 <= u && u <= 102) || (65 <= u && u <= 70) || byt == ':' || byt
        == '.'
}

/// Whether a character may belong to a hostname or alias token.
pub fn maybe_hostname_alias(byt: char) -> (r: bool)
    ensures
        r == is_alias_char(byt),
{
    let u = byt as u32;
    if u < 128 {
        (48 <= u && u <= 57) || (65 <= u && u <= 90) || (97 <= u && u <= 122) || byt == '-' || byt
            == '_' || byt == '.'
    } else {
        char_is_alphanumeric(byt)
    }
}

/// Whether a character is an in-line whitespace separator.
pub fn is_space(byt: char) -> (r: bool)
    ensures
        r == is_space_char(byt),
{
    byt == ' ' || byt == '\t'
}

// ---------------------------------------------------------------------------
// The data model
// ---------------------------------------------------------------------------

/// Part of a hosts file, representing all of the possible values.
#[derive(Debug)]
pub enum HostsPart {
    /// An active mapping: an address, one or more hostnames, and an optional
    /// trailing comment.
    Entry(IpAddress, Vec<String>, Option<String>),
    /// A mapping line disabled by a leading `#`; structurally identical to
    /// `Entry` and still considered by hostname and address lookups.
    CommentedEntry(IpAddress, Vec<String>, Option<String>),
    /// A comment line: `#` followed by arbitrary text up to the line break.
    Comment(String),
    /// A blank line, holding its whitespace verbatim.
    Empty(String),
}

/// The mathematical model of a part: the same shape over sequences.
pub enum PartView {
    Entry { ip: IpAddress, hosts: Seq<Seq<char>>, comment: Option<Seq<char>> },
    CommentedEntry { ip: IpAddress, hosts: Seq<Seq<char>>, comment: Option<Seq<char>> },
    Comment { text: Seq<char> },
    Empty { text: Seq<char> },
}

/// Views of a sequence of hostname strings.
pub open spec fn str_views(hs: Seq<String>) -> Seq<Seq<char>> {
    hs.map_values(|h: String| h@)
}

/// View of an optional comment string.
pub open spec fn opt_view(c: Option<String>) -> Option<Seq<char>> {
    match c {
        Some(x) => Some(x@),
        None => None,
    }
}

/// Views of a sequence of parts.
pub open spec fn part_views(ps: Seq<HostsPart>) -> Seq<PartView> {
    ps.map_values(|p: HostsPart| p@)
}

impl View for HostsPart {
    type V = PartView;

    open spec fn view(&self) -> PartView {
        match self {
            HostsPart::Entry(ip, hosts, comment) => PartView::Entry {
                ip: *ip,
                hosts: str_views(hosts@),
                comment: opt_view(*comment),
            },
            HostsPart::CommentedEntry(ip, hosts, comment) => PartView::CommentedEntry {
                ip: *ip,
                hosts: str_views(hosts@),
                comment: opt_view(*comment),
            },
            HostsPart::Comment(text) => PartView::Comment { text: text@ },
            HostsPart::Empty(text) => PartView::Empty { text: text@ },
        }
    }
}

impl PartView {
    /// Whether the part is an entry (active or commented) whose address is
    /// the given one.
    pub open spec fn spec_matches_ip(self, ip: IpAddress) -> bool {
        match self {
            PartView::Entry { ip: own, .. } => own == ip,
            PartView::CommentedEntry { ip: own, .. } => own == ip,
            _ => false,
        }
    }

    /// Whether the part is an entry (active or commented) whose hostnames
    /// contain the given one.
    pub open spec fn spec_matches_hostname(self, h: Seq<char>) -> bool {
        match self {
            PartView::Entry { hosts, .. } => hosts.contains(h),
            PartView::CommentedEntry { hosts, .. } => hosts.contains(h),
            _ => false,
        }
    }

    /// Whether the part is a blank line.
    pub open spec fn spec_is_empty(self) -> bool {
        self is Empty
    }

    /// Whether the part is a commented-out entry.
    pub open spec fn spec_is_commented(self) -> bool {
        self is CommentedEntry
    }

    /// The family of the part's address, if it has one.
    pub open spec fn spec_family(self) -> Option<HostsPartFamily> {
        match self {
            PartView::Entry { ip, .. } => Some(ip.spec_family()),
            PartView::CommentedEntry { ip, .. } => Some(ip.spec_family()),
            _ => None,
        }
    }
}

fn eq_string_vecs(a: &Vec<String>, b: &Vec<String>) -> (r: bool)
    ensures
        r == (str_views(a@) == str_views(b@)),
{
    if a.len() != b.len() {
        assert(str_views(a@).len() != str_views(b@).len());
        return false;
    }
    let n = a.len();
    let mut k: usize = 0;
    while k < n
        invariant
            0 <= k <= n,
            n == a@.len() == b@.len(),
            forall|j: int| 0 <= j < k ==> str_views(a@)[j] == str_views(b@)[j],
        decreases n - k,
    {
        if !a[k].eq(&b[k]) {
            assert(str_views(a@)[k as int] != str_views(b@)[k as int]);
            return false;
        }
        k = k + 1;
    }
    proof {
        assert(str_views(a@) =~= str_views(b@));
    }
    true
}

fn eq_opt_strings(a: &Option<String>, b: &Option<String>) -> (r: bool)
    ensures
        r == (opt_view(*a) == opt_view(*b)),
{
    match (a, b) {
        (Some(x), Some(y)) => x.eq(y),
        (None, None) => true,
        _ => false,
    }
}

impl PartialEq for HostsPart {
    /// Structural equality of the parts' models.
    fn eq(&self, other: &HostsPart) -> (r: bool) {
        match (self, other) {
            (HostsPart::Entry(ip1, h1, c1), HostsPart::Entry(ip2, h2, c2)) => {
                let r = *ip1 == *ip2 && eq_string_vecs(h1, h2) && eq_opt_strings(c1, c2);
                r
            },
            (HostsPart::CommentedEntry(ip1, h1, c1), HostsPart::CommentedEntry(ip2, h2, c2)) => {
                let r = *ip1 == *ip2 && eq_string_vecs(h1, h2) && eq_opt_strings(c1, c2);
                r
            },
            (HostsPart::Comment(t1), HostsPart::Comment(t2)) => t1.eq(t2),
            (HostsPart::Empty(t1), HostsPart::Empty(t2)) => t1.eq(t2),
            _ => false,
        }
    }
}

impl vstd::std_specs::cmp::PartialEqSpecImpl for HostsPart {
    open spec fn obeys_eq_spec() -> bool {
        true
    }

    open spec fn eq_spec(&self, other: &HostsPart) -> bool {
        self@ == other@
    }
}

fn clone_string_vec(v: &Vec<String>) -> (r: Vec<String>)
    ensures
        r@ == v@,
{
    let mut r: Vec<String> = Vec::new();
    let mut k: usize = 0;
    while k < v.len()
        invariant
            0 <= k <= v@.len(),
            r@ == v@.take(k as int),
        decreases v@.len() - k,
    {
        r.push(v[k].clone());
        proof {
            assert(r@ =~= v@.take(k + 1 as int));
        }
        k = k + 1;
    }
    proof {
        assert(v@.take(v@.len() as int) =~= v@);
    }
    r
}

pub(crate) fn clone_opt_string(c: &Option<String>) -> (r: Option<String>)
    ensures
        opt_view(r) == opt_view(*c),
{
    match c {
        Some(x) => Some(x.clone()),
        None => None,
    }
}

impl Clone for HostsPart {
    /// A clone has the same model as the original.
    fn clone(&self) -> (r: Self)
        ensures
            r@ == self@,
    {
        match self {
            HostsPart::Entry(ip, hosts, comment) => HostsPart::Entry(
                *ip,
                clone_string_vec(hosts),
                clone_opt_string(comment),
            ),
            HostsPart::CommentedEntry(ip, hosts, comment) => HostsPart::CommentedEntry(
                *ip,
                clone_string_vec(hosts),
                clone_opt_string(comment),
            ),
            HostsPart::Comment(text) => HostsPart::Comment(text.clone()),
            HostsPart::Empty(text) => HostsPart::Empty(text.clone()),
        }
    }
}

impl HostsPart {
    /// Checks whether a hosts file part matches the provided IP address.
    /// Considers commented-out entries.
    pub fn matches_ip(&self, ip_needle: &IpAddress) -> (r: bool)
        ensures
            r == self@.spec_matches_ip(*ip_needle),
    {
        match self {
            HostsPart::Entry(ip, ..) => *ip == *ip_needle,
            HostsPart::CommentedEntry(ip, ..) => *ip == *ip_needle,
            _ => false,
        }
    }

    /// Checks whether a hosts file part contains the provided hostname.
    /// Aliases are considered, as are commented-out entries.
    pub fn matches_hostname(&self, host_needle: &str) -> (r: bool)
        ensures
            r == self@.spec_matches_hostname(host_needle@),
    {
        match self {
            HostsPart::Entry(_, hosts, ..) => contains_hostname(hosts, host_needle),
            HostsPart::CommentedEntry(_, hosts, ..) => contains_hostname(hosts, host_needle),
            _ => false,
        }
    }

    /// Checks whether a hosts file part is a blank line.
    pub fn is_empty(&self) -> (r: bool)
        ensures
            r == self@.spec_is_empty(),
    {
        match self {
            HostsPart::Empty(..) => true,
            _ => false,
        }
    }

    /// Checks whether a hosts file part is a commented-out entry.
    pub fn is_commented(&self) -> (r: bool)
        ensures
            r == self@.spec_is_commented(),
    {
        match self {
            HostsPart::CommentedEntry(..) => true,
            _ => false,
        }
    }

    /// If a hosts file part carries an IP address, returns that address's
    /// family. Considers commented-out entries.
    pub fn get_family(&self) -> (r: Option<HostsPartFamily>)
        ensures
            r == self@.spec_family(),
    {
        match self {
            HostsPart::Entry(ip, ..) => Some(ip.family()),
            HostsPart::CommentedEntry(ip, ..) => Some(ip.family()),
            _ => None,
        }
    }
}

/// Whether one of the hostname strings equals the needle.
pub fn contains_hostname(hosts: &Vec<String>, needle: &str) -> (r: bool)
    ensures
        r == str_views(hosts@).contains(needle@),
{
    let owned: String = needle.to_owned();
    let n = hosts.len();
    let mut k: usize = 0;
    while k < n
        invariant
            0 <= k <= n,
            n == hosts@.len(),
            owned@ == needle@,
            forall|j: int| 0 <= j < k ==> str_views(hosts@)[j] != needle@,
        decreases n - k,
    {
        if hosts[k].eq(&owned) {
            assert(str_views(hosts@)[k as int] == needle@);
            return true;
        }
        k = k + 1;
    }
    proof {
        if str_views(hosts@).contains(needle@) {
            let j = choose|j: int|
                0 <= j < str_views(hosts@).len() && str_views(hosts@)[j] == needle@;
            assert(false);
        }
    }
    false
}

// ---------------------------------------------------------------------------
// Runs of characters
// ---------------------------------------------------------------------------

/// Length of the run of spaces and tabs starting at `i`.
pub open spec fn space_run_len(s: Seq<char>, i: int) -> int
    decreases s.len() - i,
{
    if 0 <= i && i < s.len() && is_space_char(s[i]) {
        1 + space_run_len(s, i + 1)
    } else {
        0
    }
}

/// Length of the run of hostname characters starting at `i`.
pub open spec fn alias_run_len(s: Seq<char>, i: int) -> int
    decreases s.len() - i,
{
    if 0 <= i && i < s.len() && is_alias_char(s[i]) {
        1 + alias_run_len(s, i + 1)
    } else {
        0
    }
}

/// Length of the run of address-token characters starting at `i`.
pub open spec fn ip_run_len(s: Seq<char>, i: int) -> int
    decreases s.len() - i,
{
    if 0 <= i && i < s.len() && is_ip_char(s[i]) {
        1 + ip_run_len(s, i + 1)
    } else {
        0
    }
}

/// Length of the run of characters other than `\r` and `\n` starting at `i`.
pub open spec fn not_crlf_run_len(s: Seq<char>, i: int) -> int
    decreases s.len() - i,
{
    if 0 <= i && i < s.len() && s[i] != '\r' && s[i] != '\n' {
        1 + not_crlf_run_len(s, i + 1)
    } else {
        0
    }
}

pub proof fn lemma_space_run_props(s: Seq<char>, i: int)
    requires
        0 <= i <= s.len(),
    ensures
        0 <= space_run_len(s, i),
        i + space_run_len(s, i) <= s.len(),
        forall|k: int| i <= k < i + space_run_len(s, i) ==> is_space_char(#[trigger] s[k]),
        i + space_run_len(s, i) < s.len() ==> !is_space_char(s[i + space_run_len(s, i)]),
    decreases s.len() - i,
{
    if i < s.len() && is_space_char(s[i]) {
        lemma_space_run_props(s, i + 1);
    }
}

pub proof fn lemma_alias_run_props(s: Seq<char>, i: int)
    requires
        0 <= i <= s.len(),
    ensures
        0 <= alias_run_len(s, i),
        i + alias_run_len(s, i) <= s.len(),
        forall|k: int| i <= k < i + alias_run_len(s, i) ==> is_alias_char(#[trigger] s[k]),
        i + alias_run_len(s, i) < s.len() ==> !is_alias_char(s[i + alias_run_len(s, i)]),
    decreases s.len() - i,
{
    if i < s.len() && is_alias_char(s[i]) {
        lemma_alias_run_props(s, i + 1);
    }
}

pub proof fn lemma_ip_run_props(s: Seq<char>, i: int)
    requires
        0 <= i <= s.len(),
    ensures
        0 <= ip_run_len(s, i),
        i + ip_run_len(s, i) <= s.len(),
        forall|k: int| i <= k < i + ip_run_len(s, i) ==> is_ip_char(#[trigger] s[k]),
        i + ip_run_len(s, i) < s.len() ==> !is_ip_char(s[i + ip_run_len(s, i)]),
    decreases s.len() - i,
{
    if i < s.len() && is_ip_char(s[i]) {
        lemma_ip_run_props(s, i + 1);
    }
}

pub proof fn lemma_not_crlf_run_props(s: Seq<char>, i: int)
    requires
        0 <= i <= s.len(),
    ensures
        0 <= not_crlf_run_len(s, i),
        i + not_crlf_run_len(s, i) <= s.len(),
        forall|k: int|
            i <= k < i + not_crlf_run_len(s, i) ==> #[trigger] s[k] != '\r' && s[k] != '\n',
        i + not_crlf_run_len(s, i) < s.len() ==> (s[i + not_crlf_run_len(s, i)] == '\r' || s[i
            + not_crlf_run_len(s, i)] == '\n'),
    decreases s.len() - i,
{
    if i < s.len() && s[i] != '\r' && s[i] != '\n' {
        lemma_not_crlf_run_props(s, i + 1);
    }
}

pub(crate) fn exec_space_run_len(t: &Vec<char>, i: usize) -> (n: usize)
    requires
        i <= t@.len(),
    ensures
        n as int == space_run_len(t@, i as int),
        i + n <= t@.len(),
{
    proof {
        lemma_space_run_props(t@, i as int);
    }
    let mut j = i;
    while j < t.len() && is_space(t[j])
        invariant
            i <= j <= t@.len(),
            space_run_len(t@, i as int) == (j - i) + space_run_len(t@, j as int),
        decreases t@.len() - j,
    {
        j = j + 1;
    }
    j - i
}

pub(crate) fn exec_alias_run_len(t: &Vec<char>, i: usize) -> (n: usize)
    requires
        i <= t@.len(),
    ensures
        n as int == alias_run_len(t@, i as int),
        i + n <= t@.len(),
{
    proof {
        lemma_alias_run_props(t@, i as int);
    }
    let mut j = i;
    while j < t.len() && maybe_hostname_alias(t[j])
        invariant
            i <= j <= t@.len(),
            alias_run_len(t@, i as int) == (j - i) + alias_run_len(t@, j as int),
        decreases t@.len() - j,
    {
        j = j + 1;
    }
    j - i
}

pub(crate) fn exec_ip_run_len(t: &Vec<char>, i: usize) -> (n: usize)
    requires
        i <= t@.len(),
    ensures
        n as int == ip_run_len(t@, i as int),
        i + n <= t@.len(),
{
    proof {
        lemma_ip_run_props(t@, i as int);
    }
    let mut j = i;
    while j < t.len() && maybe_ip_addr(t[j])
        invariant
            i <= j <= t@.len(),
            ip_run_len(t@, i as int) == (j - i) + ip_run_len(t@, j as int),
        decreases t@.len() - j,
    {
        j = j + 1;
    }
    j - i
}

fn exec_not_crlf_run_len(t: &Vec<char>, i: usize) -> (n: usize)
    requires
        i <= t@.len(),
    ensures
        n as int == not_crlf_run_len(t@, i as int),
        i + n <= t@.len(),
{
    proof {
        lemma_not_crlf_run_props(t@, i as int);
    }
    let mut j = i;
    while j < t.len() && t[j] != '\r' && t[j] != '\n'
        invariant
            i <= j <= t@.len(),
            not_crlf_run_len(t@, i as int) == (j - i) + not_crlf_run_len(t@, j as int),
        decreases t@.len() - j,
    {
        j = j + 1;
    }
    j - i
}

// ---------------------------------------------------------------------------
// Line breaks
// ---------------------------------------------------------------------------

/// Length of the line separator at `i`: `\r\n` and `\n\r` count two
/// characters, a lone `\n` one, anything else none (a lone `\r` is not a
/// separator).
pub open spec fn linebreak_len(s: Seq<char>, i: int) -> int {
    if 0 <= i && i < s.len() && s[i] == '\r' {
        if i + 1 < s.len() && s[i + 1] == '\n' {
            2
        } else {
            0
        }
    } else if 0 <= i && i < s.len() && s[i] == '\n' {
        if i + 1 < s.len() && s[i + 1] == '\r' {
            2
        } else {
            1
        }
    } else {
        0
    }
}

fn exec_linebreak_len(t: &Vec<char>, i: usize) -> (l: usize)
    requires
        i <= t@.len(),
    ensures
        l as int == linebreak_len(t@, i as int),
        i + l <= t@.len(),
{
    if i < t.len() && t[i] == '\r' {
        if i + 1 < t.len() && t[i + 1] == '\n' {
            2
        } else {
            0
        }
    } else if i < t.len() && t[i] == '\n' {
        if i + 1 < t.len() && t[i + 1] == '\r' {
            2
        } else {
            1
        }
    } else {
        0
    }
}

// ---------------------------------------------------------------------------
// The grammar, line by line
// ---------------------------------------------------------------------------

/// A comment: optional spaces, `#`, then everything up to the line break —
/// possibly nothing. Yields the text after `#` and the position after it.
pub open spec fn parse_comment_at(s: Seq<char>, i: int) -> Option<(Seq<char>, int)> {
    let j = i + space_run_len(s, i);
    if 0 <= j && j < s.len() && s[j] == '#' {
        let n = not_crlf_run_len(s, j + 1);
        Some((s.subrange(j + 1, j + 1 + n), j + 1 + n))
    } else {
        None
    }
}

/// Further hostnames, each preceded by at least one space or tab. Stops
/// before any trailing whitespace that is not followed by another hostname.
pub open spec fn parse_more_hostnames(s: Seq<char>, i: int) -> (Seq<Seq<char>>, int)
    decreases s.len() - i,
{
    let m = space_run_len(s, i);
    let n = alias_run_len(s, i + m);
    if m >= 1 && n >= 1 && 0 <= i && i + m + n <= s.len() {
        let r = parse_more_hostnames(s, i + m + n);
        (seq![s.subrange(i + m, i + m + n)] + r.0, r.1)
    } else {
        (Seq::empty(), i)
    }
}

/// One or more hostnames separated by whitespace.
pub open spec fn parse_hostnames(s: Seq<char>, i: int) -> Option<(Seq<Seq<char>>, int)> {
    let n = alias_run_len(s, i);
    if n == 0 {
        None
    } else {
        let r = parse_more_hostnames(s, i + n);
        Some((seq![s.subrange(i, i + n)] + r.0, r.1))
    }
}

/// An entry body: an address token that parses as an IP literal, at least
/// one space or tab, hostnames, optional trailing whitespace, and an
/// optional comment.
pub open spec fn parse_entry_at(s: Seq<char>, i: int) -> Option<
    ((IpAddress, Seq<Seq<char>>, Option<Seq<char>>), int),
> {
    let n = ip_run_len(s, i);
    if n == 0 {
        None
    } else {
        match ip_of_chars(s.subrange(i, i + n)) {
            None => None,
            Some(ip) => {
                let m = space_run_len(s, i + n);
                if m == 0 {
                    None
                } else {
                    match parse_hostnames(s, i + n + m) {
                        None => None,
                        Some((hosts, q)) => {
                            let q2 = q + space_run_len(s, q);
                            match parse_comment_at(s, q2) {
                                Some((txt, e)) => Some(((ip, hosts, Some(txt)), e)),
                                None => Some(((ip, hosts, None), q2)),
                            }
                        },
                    }
                }
            },
        }
    }
}

/// A commented-out entry: optional spaces, `#`, optional spaces, then an
/// entry body.
pub open spec fn parse_commented_entry_at(s: Seq<char>, i: int) -> Option<
    ((IpAddress, Seq<Seq<char>>, Option<Seq<char>>), int),
> {
    let j = i + space_run_len(s, i);
    if 0 <= j && j < s.len() && s[j] == '#' {
        let k = j + 1 + space_run_len(s, j + 1);
        parse_entry_at(s, k)
    } else {
        None
    }
}

/// A blank line: whitespace only, up to a line break or the end of the
/// text. Yields the whitespace verbatim.
pub open spec fn parse_empty_at(s: Seq<char>, i: int) -> Option<(Seq<char>, int)> {
    let n = space_run_len(s, i);
    let j = i + n;
    if j == s.len() || linebreak_len(s, j) > 0 {
        Some((s.subrange(i, j), j))
    } else {
        None
    }
}

/// One element of the file, trying the alternatives in order: a commented
/// entry, a comment, an entry, a blank line.
pub open spec fn parse_element_at(s: Seq<char>, i: int) -> Option<(PartView, int)> {
    match parse_commented_entry_at(s, i) {
        Some(((ip, hosts, comment), e)) => Some(
            (PartView::CommentedEntry { ip, hosts, comment }, e),
        ),
        None => match parse_comment_at(s, i) {
            Some((text, e)) => Some((PartView::Comment { text }, e)),
            None => match parse_entry_at(s, i) {
                Some(((ip, hosts, comment), e)) => Some((PartView::Entry { ip, hosts, comment }, e)),
                None => match parse_empty_at(s, i) {
                    Some((text, e)) => Some((PartView::Empty { text }, e)),
                    None => None,
                },
            },
        },
    }
}

/// The whole document from `i`: elements separated by line breaks. Returns
/// the parts read and the position of the unparsed remainder.
pub open spec fn parse_document_at(s: Seq<char>, i: int) -> (Seq<PartView>, int)
    decreases s.len() - i,
{
    match parse_element_at(s, i) {
        None => (Seq::empty(), i),
        Some((p, j)) => {
            let l = linebreak_len(s, j);
            if l >= 1 && i <= j && j + l <= s.len() {
                let r = parse_document_at(s, j + l);
                (seq![p] + r.0, r.1)
            } else {
                (seq![p], j)
            }
        },
    }
}

/// The whole document: all elements, required to consume the entire text.
pub open spec fn parse_document(s: Seq<char>) -> Option<Seq<PartView>> {
    let r = parse_document_at(s, 0);
    if r.1 == s.len() {
        Some(r.0)
    } else {
        None
    }
}

pub proof fn lemma_parse_comment_props(s: Seq<char>, i: int)
    requires
        0 <= i <= s.len(),
    ensures
        parse_comment_at(s, i) is Some ==> i < parse_comment_at(s, i)->Some_0.1 <= s.len(),
{
    lemma_space_run_props(s, i);
    let j = i + space_run_len(s, i);
    if 0 <= j && j < s.len() && s[j] == '#' {
        lemma_not_crlf_run_props(s, j + 1);
    }
}

pub proof fn lemma_parse_more_hostnames_props(s: Seq<char>, i: int)
    requires
        0 <= i <= s.len(),
    ensures
        i <= parse_more_hostnames(s, i).1 <= s.len(),
    decreases s.len() - i,
{
    lemma_space_run_props(s, i);
    let m = space_run_len(s, i);
    lemma_alias_run_props(s, i + m);
    let n = alias_run_len(s, i + m);
    if m >= 1 && n >= 1 && i + m + n <= s.len() {
        lemma_parse_more_hostnames_props(s, i + m + n);
    }
}

pub proof fn lemma_parse_hostnames_props(s: Seq<char>, i: int)
    requires
        0 <= i <= s.len(),
    ensures
        parse_hostnames(s, i) is Some ==> i < parse_hostnames(s, i)->Some_0.1 <= s.len(),
{
    lemma_alias_run_props(s, i);
    let n = alias_run_len(s, i);
    if n >= 1 {
        lemma_parse_more_hostnames_props(s, i + n);
    }
}

pub proof fn lemma_parse_entry_props(s: Seq<char>, i: int)
    requires
        0 <= i <= s.len(),
    ensures
        parse_entry_at(s, i) is Some ==> i < parse_entry_at(s, i)->Some_0.1 <= s.len(),
{
    lemma_ip_run_props(s, i);
    let n = ip_run_len(s, i);
    if n >= 1 {
        lemma_space_run_props(s, i + n);
        let m = space_run_len(s, i + n);
        if m >= 1 {
            lemma_parse_hostnames_props(s, i + n + m);
            match parse_hostnames(s, i + n + m) {
                Some((hosts, q)) => {
                    lemma_space_run_props(s, q);
                    let q2 = q + space_run_len(s, q);
                    lemma_parse_comment_props(s, q2);
                },
                None => {},
            }
        }
    }
}

pub proof fn lemma_parse_commented_entry_props(s: Seq<char>, i: int)
    requires
        0 <= i <= s.len(),
    ensures
        parse_commented_entry_at(s, i) is Some ==> i < parse_commented_entry_at(s, i)->Some_0.1
            <= s.len(),
{
    lemma_space_run_props(s, i);
    let j = i + space_run_len(s, i);
    if 0 <= j && j < s.len() && s[j] == '#' {
        lemma_space_run_props(s, j + 1);
        let k = j + 1 + space_run_len(s, j + 1);
        lemma_parse_entry_props(s, k);
    }
}

pub proof fn lemma_parse_empty_props(s: Seq<char>, i: int)
    requires
        0 <= i <= s.len(),
    ensures
        parse_empty_at(s, i) is Some ==> i <= parse_empty_at(s, i)->Some_0.1 <= s.len(),
{
    lemma_space_run_props(s, i);
}

pub proof fn lemma_parse_element_props(s: Seq<char>, i: int)
    requires
        0 <= i <= s.len(),
    ensures
        parse_element_at(s, i) is Some ==> i <= parse_element_at(s, i)->Some_0.1 <= s.len(),
{
    lemma_parse_commented_entry_props(s, i);
    lemma_parse_comment_props(s, i);
    lemma_parse_entry_props(s, i);
    lemma_parse_empty_props(s, i);
}

// ---------------------------------------------------------------------------
// The executable parser
// ---------------------------------------------------------------------------

/// Relies on String::push: appends exactly the one given character.
#[verifier::external_body]
fn push_char(s: &mut String, c: char)
    ensures
        final(s)@ == old(s)@.push(c),
{
    s.push(c);
}

pub(crate) fn string_of_range(t: &Vec<char>, from: usize, to: usize) -> (r: String)
    requires
        from <= to <= t@.len(),
    ensures
        r@ == t@.subrange(from as int, to as int),
{
    let mut r = String::new();
    let mut k = from;
    while k < to
        invariant
            from <= k <= to <= t@.len(),
            r@ == t@.subrange(from as int, k as int),
        decreases to - k,
    {
        push_char(&mut r, t[k]);
        proof {
            assert(t@.subrange(from as int, k + 1 as int) =~= t@.subrange(from as int, k as int).push(
                t@[k as int],
            ));
        }
        k = k + 1;
    }
    r
}

pub(crate) fn vec_of_range(t: &Vec<char>, from: usize, to: usize) -> (r: Vec<char>)
    requires
        from <= to <= t@.len(),
    ensures
        r@ == t@.subrange(from as int, to as int),
{
    let mut r: Vec<char> = Vec::new();
    let mut k = from;
    while k < to
        invariant
            from <= k <= to <= t@.len(),
            r@ == t@.subrange(from as int, k as int),
        decreases to - k,
    {
        r.push(t[k]);
        proof {
            assert(t@.subrange(from as int, k + 1 as int) =~= t@.subrange(from as int, k as int).push(
                t@[k as int],
            ));
        }
        k = k + 1;
    }
    r
}

/// The characters of a string, in order.
pub fn chars_of_str(s: &str) -> (t: Vec<char>)
    ensures
        t@ == s@,
{
    let n = s.unicode_len();
    let mut t: Vec<char> = Vec::new();
    let mut i: usize = 0;
    while i < n
        invariant
            0 <= i <= n,
            n == s@.len(),
            t@ == s@.take(i as int),
        decreases n - i,
    {
        t.push(s.get_char(i));
        proof {
            assert(t@ =~= s@.take(i + 1 as int));
        }
        i = i + 1;
    }
    proof {
        assert(s@.take(n as int) =~= s@);
    }
    t
}

fn exec_parse_comment_at(t: &Vec<char>, i: usize) -> (r: Option<(String, usize)>)
    requires
        i <= t@.len(),
    ensures
        r is Some ==> {
            let (text, e) = r->Some_0;
            parse_comment_at(t@, i as int) == Some((text@, e as int)) && i < e <= t@.len()
        },
        r is None ==> parse_comment_at(t@, i as int) is None,
{
    proof {
        lemma_parse_comment_props(t@, i as int);
    }
    let tlen = t.len();
    let j = i + exec_space_run_len(t, i);
    if j < t.len() && t[j] == '#' {
        let n = exec_not_crlf_run_len(t, j + 1);
        Some((string_of_range(t, j + 1, j + 1 + n), j + 1 + n))
    } else {
        None
    }
}

fn exec_parse_hostnames(t: &Vec<char>, i: usize) -> (r: Option<(Vec<String>, usize)>)
    requires
        i <= t@.len(),
    ensures
        r is Some ==> {
            let (hosts, e) = r->Some_0;
            parse_hostnames(t@, i as int) == Some((str_views(hosts@), e as int)) && i < e
                <= t@.len()
        },
        r is None ==> parse_hostnames(t@, i as int) is None,
{
    proof {
        lemma_parse_hostnames_props(t@, i as int);
    }
    let tlen = t.len();
    let n0 = exec_alias_run_len(t, i);
    if n0 == 0 {
        return None;
    }
    let ghost full = parse_hostnames(t@, i as int)->Some_0;
    let mut hosts: Vec<String> = Vec::new();
    hosts.push(string_of_range(t, i, i + n0));
    let mut pos: usize = i + n0;
    proof {
        assert(str_views(hosts@) =~= seq![t@.subrange(i as int, i + n0 as int)]);
    }
    loop
        invariant_except_break
            i < pos <= t@.len(),
            t@.len() == tlen,
            full.0 == str_views(hosts@) + parse_more_hostnames(t@, pos as int).0,
            full.1 == parse_more_hostnames(t@, pos as int).1,
        ensures
            i < pos <= t@.len(),
            full.0 == str_views(hosts@),
            full.1 == pos as int,
        decreases t@.len() - pos,
    {
        proof {
            lemma_parse_more_hostnames_props(t@, pos as int);
            lemma_space_run_props(t@, pos as int);
        }
        let m = exec_space_run_len(t, pos);
        let n = exec_alias_run_len(t, pos + m);
        if m >= 1 && n >= 1 {
            let ghost before = hosts@;
            hosts.push(string_of_range(t, pos + m, pos + m + n));
            proof {
                let tok = t@.subrange(pos + m as int, pos + m + n as int);
                assert(str_views(hosts@) =~= str_views(before).push(tok));
                let rest = parse_more_hostnames(t@, pos + m + n as int);
                assert(parse_more_hostnames(t@, pos as int).0 == seq![tok] + rest.0);
                assert(str_views(before) + parse_more_hostnames(t@, pos as int).0 =~= str_views(
                    hosts@,
                ) + rest.0);
            }
            pos = pos + m + n;
        } else {
            proof {
                assert(parse_more_hostnames(t@, pos as int).0 =~= Seq::<Seq<char>>::empty());
                assert(full.0 =~= str_views(hosts@));
            }
            break ;
        }
    }
    Some((hosts, pos))
}

fn exec_parse_entry_at(t: &Vec<char>, i: usize) -> (r: Option<
    ((IpAddress, Vec<String>, Option<String>), usize),
>)
    requires
        i <= t@.len(),
    ensures
        r is Some ==> {
            let ((ip, hosts, comment), e) = r->Some_0;
            parse_entry_at(t@, i as int) == Some(
                ((ip, str_views(hosts@), opt_view(comment)), e as int),
            ) && i < e <= t@.len()
        },
        r is None ==> parse_entry_at(t@, i as int) is None,
{
    proof {
        lemma_parse_entry_props(t@, i as int);
    }
    let tlen = t.len();
    let n = exec_ip_run_len(t, i);
    if n == 0 {
        return None;
    }
    let token = vec_of_range(t, i, i + n);
    match crate::ip::parse_ip_address(&token) {
        None => None,
        Some(ip) => {
            let m = exec_space_run_len(t, i + n);
            if m == 0 {
                return None;
            }
            match exec_parse_hostnames(t, i + n + m) {
                None => None,
                Some((hosts, q)) => {
                    let q2 = q + exec_space_run_len(t, q);
                    match exec_parse_comment_at(t, q2) {
                        Some((txt, e)) => Some(((ip, hosts, Some(txt)), e)),
                        None => Some(((ip, hosts, None), q2)),
                    }
                },
            }
        },
    }
}

fn exec_parse_commented_entry_at(t: &Vec<char>, i: usize) -> (r: Option<
    ((IpAddress, Vec<String>, Option<String>), usize),
>)
    requires
        i <= t@.len(),
    ensures
        r is Some ==> {
            let ((ip, hosts, comment), e) = r->Some_0;
            parse_commented_entry_at(t@, i as int) == Some(
                ((ip, str_views(hosts@), opt_view(comment)), e as int),
            ) && i < e <= t@.len()
        },
        r is None ==> parse_commented_entry_at(t@, i as int) is None,
{
    proof {
        lemma_parse_commented_entry_props(t@, i as int);
    }
    let tlen = t.len();
    let j = i + exec_space_run_len(t, i);
    if j < t.len() && t[j] == '#' {
        let k = j + 1 + exec_space_run_len(t, j + 1);
        exec_parse_entry_at(t, k)
    } else {
        None
    }
}

fn exec_parse_empty_at(t: &Vec<char>, i: usize) -> (r: Option<(String, usize)>)
    requires
        i <= t@.len(),
    ensures
        r is Some ==> {
            let (text, e) = r->Some_0;
            parse_empty_at(t@, i as int) == Some((text@, e as int)) && i <= e <= t@.len()
        },
        r is None ==> parse_empty_at(t@, i as int) is None,
{
    let tlen = t.len();
    let n = exec_space_run_len(t, i);
    let j = i + n;
    let l = exec_linebreak_len(t, j);
    if j == t.len() || l > 0 {
        Some((string_of_range(t, i, j), j))
    } else {
        None
    }
}

fn exec_parse_element_at(t: &Vec<char>, i: usize) -> (r: Option<(HostsPart, usize)>)
    requires
        i <= t@.len(),
    ensures
        r is Some ==> {
            let (p, e) = r->Some_0;
            parse_element_at(t@, i as int) == Some((p@, e as int)) && i <= e <= t@.len()
        },
        r is None ==> parse_element_at(t@, i as int) is None,
{
    match exec_parse_commented_entry_at(t, i) {
        Some(((ip, hosts, comment), e)) => Some((HostsPart::CommentedEntry(ip, hosts, comment), e)),
        None => match exec_parse_comment_at(t, i) {
            Some((text, e)) => Some((HostsPart::Comment(text), e)),
            None => match exec_parse_entry_at(t, i) {
                Some(((ip, hosts, comment), e)) => Some((HostsPart::Entry(ip, hosts, comment), e)),
                None => match exec_parse_empty_at(t, i) {
                    Some((text, e)) => Some((HostsPart::Empty(text), e)),
                    None => None,
                },
            },
        },
    }
}

fn exec_parse_document(t: &Vec<char>) -> (r: (Vec<HostsPart>, usize))
    ensures
        part_views(r.0@) == parse_document_at(t@, 0).0,
        r.1 as int == parse_document_at(t@, 0).1,
        r.1 <= t@.len(),
{
    let tlen = t.len();
    let mut acc: Vec<HostsPart> = Vec::new();
    let mut pos: usize = 0;
    proof {
        assert(part_views(acc@) + parse_document_at(t@, 0).0 =~= parse_document_at(t@, 0).0);
    }
    loop
        invariant
            0 <= pos <= t@.len(),
            t@.len() == tlen,
            parse_document_at(t@, 0).0 == part_views(acc@) + parse_document_at(t@, pos as int).0,
            parse_document_at(t@, 0).1 == parse_document_at(t@, pos as int).1,
        decreases t@.len() - pos + 1,
    {
        match exec_parse_element_at(t, pos) {
            None => {
                proof {
                    assert(parse_document_at(t@, pos as int) == (Seq::<PartView>::empty(),
                    pos as int));
                    assert(part_views(acc@) + Seq::<PartView>::empty() =~= part_views(acc@));
                }
                return (acc, pos);
            },
            Some((p, j)) => {
                let l = exec_linebreak_len(t, j);
                let ghost before = acc@;
                acc.push(p);
                proof {
                    assert(part_views(acc@) =~= part_views(before).push(p@));
                }
                if l == 0 {
                    proof {
                        assert(parse_document_at(t@, pos as int) == (seq![p@], j as int));
                        assert(part_views(before) + seq![p@] =~= part_views(acc@));
                    }
                    return (acc, j);
                }
                proof {
                    let rest = parse_document_at(t@, j + l as int);
                    assert(parse_document_at(t@, pos as int).0 == seq![p@] + rest.0);
                    assert(part_views(before) + (seq![p@] + rest.0) =~= part_views(acc@) + rest.0);
                }
                pos = j + l;
            },
        }
    }
}

/// Parses the whole text, returning the unparsed remainder and the parts
/// read before it. A fully parsed text leaves an empty remainder.
pub fn parse_hosts_file<'a>(input: &'a str) -> (r: (&'a str, Vec<HostsPart>))
    ensures
        part_views(r.1@) == parse_document_at(input@, 0).0,
        r.0@ == input@.subrange(parse_document_at(input@, 0).1, input@.len() as int),
{
    let t = chars_of_str(input);
    let (parts, pos) = exec_parse_document(&t);
    let n = input.unicode_len();
    let remainder = input.substring_char(pos, n);
    (remainder, parts)
}

/// Parses a hosts file text and returns the resulting parts, or a parse
/// error holding the unparsed remainder if the grammar does not cover the
/// entire text.
pub fn try_parse_hosts(read: &str) -> (r: Result<Vec<HostsPart>, HostsError>)
    ensures
        r is Ok <==> parse_document(read@) is Some,
        r is Ok ==> part_views(r->Ok_0@) == parse_document(read@)->Some_0,
        r is Err ==> r->Err_0 is Parse && r->Err_0->Parse_0@ == read@.subrange(
            parse_document_at(read@, 0).1,
            read@.len() as int,
        ),
{
    let t = chars_of_str(read);
    let (parts, pos) = exec_parse_document(&t);
    let n = read.unicode_len();
    if pos == n {
        Ok(parts)
    } else {
        Err(HostsError::Parse(string_of_range(&t, pos, t.len())))
    }
}

} // verus!
