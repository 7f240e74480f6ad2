//! The laws the library upholds, stated and proved over the models that the
//! executable functions' contracts use.
use vstd::prelude::*;

use crate::engine::{
    apply_action, apply_define, apply_define_exclusive, apply_remove, first_hostname_match,
    hosts_without, new_entry, parts_not_matching, remove_host_from_part, run_actions, ActionError,
};
use crate::ip::{chars_of_ip, ip_of_chars, is_hex_digit_char, IpAddress};
use crate::opts::ActionView;
use crate::parse::{
    alias_run_len, is_alias_char, is_ip_char, is_space_char, ip_run_len, linebreak_len,
    not_crlf_run_len, parse_comment_at, parse_commented_entry_at, parse_document,
    parse_document_at, parse_element_at, parse_empty_at, parse_entry_at, parse_hostnames,
    parse_more_hostnames, space_run_len, PartView,
};
use crate::render::{join_hosts, pad_to_column, render_entry_body, render_part, render_parts};

verus! {

/// The hostname an action targets.
pub open spec fn action_hostname(a: ActionView) -> Seq<char> {
    match a {
        ActionView::Remove(h) => h,
        ActionView::Define(_, h) => h,
        ActionView::DefineExclusive(_, h) => h,
    }
}

/// Whitelist gate: an action whose hostname is not whitelisted fails with
/// the not-whitelisted error, and a batch consisting of it leaves the part
/// sequence unchanged.
pub proof fn lemma_whitelist_gate(ps: Seq<PartView>, a: ActionView, wl: Seq<Seq<char>>)
    requires
        !wl.contains(action_hostname(a)),
    ensures
        apply_action(ps, a, wl) == Err::<Seq<PartView>, ActionError>(
            ActionError::NotWhitelisted(action_hostname(a)),
        ),
        run_actions(ps, seq![a], wl) == (ps, Some(ActionError::NotWhitelisted(action_hostname(a)))),
{
    let acts = seq![a];
    assert(acts[0] == a);
}

/// Idempotence of the additive define: applying it a second time right away
/// changes nothing, because the entry the first application ensured is an
/// exact match for the second.
pub proof fn lemma_define_idempotent(ps: Seq<PartView>, ip: IpAddress, h: Seq<char>)
    requires
        apply_define(ps, ip, h) is Ok,
    ensures
        apply_define(apply_define(ps, ip, h)->Ok_0, ip, h) == apply_define(ps, ip, h),
{
    let ps2 = apply_define(ps, ip, h)->Ok_0;
    if exists|i: int|
        0 <= i < ps.len() && (#[trigger] ps[i]).spec_matches_ip(ip) && ps[i].spec_matches_hostname(
            h,
        ) {
        assert(ps2 == ps);
    } else {
        let pos = crate::engine::define_insert_pos(ps, ip, h);
        crate::engine::lemma_last_match_end(ps, ip, h);
        assert(0 <= pos <= ps.len());
        assert(ps2 == ps.insert(pos, new_entry(ip, h)));
        assert(ps2[pos] == new_entry(ip, h));
        assert(seq![h].contains(h)) by {
            assert(seq![h][0] == h);
        }
        assert(ps2[pos].spec_matches_ip(ip) && ps2[pos].spec_matches_hostname(h));
        assert(exists|i: int|
            0 <= i < ps2.len() && (#[trigger] ps2[i]).spec_matches_ip(ip)
                && ps2[i].spec_matches_hostname(h));
    }
}

/// The parts an exclusive define keeps from the tail carry no trace of the
/// hostname.
proof fn lemma_parts_not_matching_props(ps: Seq<PartView>, h: Seq<char>)
    ensures
        forall|k: int|
            0 <= k < parts_not_matching(ps, h).len() ==> !(#[trigger] parts_not_matching(ps, h)[k]).spec_matches_hostname(
                h,
            ),
    decreases ps.len(),
{
    if ps.len() > 0 {
        lemma_parts_not_matching_props(ps.drop_first(), h);
        let rest = parts_not_matching(ps.drop_first(), h);
        let whole = parts_not_matching(ps, h);
        assert(forall|k: int| 0 <= k < whole.len() ==> {
            if !ps[0].spec_matches_hostname(h) {
                whole[k] == (seq![ps[0]] + rest)[k]
            } else {
                whole[k] == rest[k]
            }
        });
    }
}

/// No part before the first hostname match carries the hostname.
proof fn lemma_first_match_prefix(ps: Seq<PartView>, h: Seq<char>)
    ensures
        0 <= first_hostname_match(ps, h) <= ps.len(),
        forall|j: int|
            0 <= j < first_hostname_match(ps, h) ==> !(#[trigger] ps[j]).spec_matches_hostname(h),
    decreases ps.len(),
{
    if ps.len() > 0 {
        if !ps[0].spec_matches_hostname(h) {
            lemma_first_match_prefix(ps.drop_first(), h);
            let rest = ps.drop_first();
            assert(forall|j: int| 1 <= j < first_hostname_match(ps, h) ==> ps[j] == rest[j - 1]);
        }
    }
}

/// Exclusivity of the exclusive define: afterwards exactly one part carries
/// the hostname — the fresh entry, which holds the given address.
pub proof fn lemma_define_exclusive_exclusive(ps: Seq<PartView>, ip: IpAddress, h: Seq<char>)
    ensures
        ({
            let r = apply_define_exclusive(ps, ip, h);
            let fm = first_hostname_match(ps, h);
            &&& 0 <= fm <= ps.len()
            &&& r[fm] == new_entry(ip, h)
            &&& r[fm].spec_matches_hostname(h)
            &&& r[fm].spec_matches_ip(ip)
            &&& forall|i: int|
                0 <= i < r.len() && i != fm ==> !(#[trigger] r[i]).spec_matches_hostname(h)
        }),
{
    let r = apply_define_exclusive(ps, ip, h);
    let fm = first_hostname_match(ps, h);
    lemma_first_match_prefix(ps, h);
    lemma_parts_not_matching_props(ps.skip(fm), h);
    assert(ps.take(fm).len() == fm);
    assert(r[fm] == new_entry(ip, h));
    assert(seq![h].contains(h)) by {
        assert(seq![h][0] == h);
    }
    assert forall|i: int| 0 <= i < r.len() && i != fm implies !(#[trigger] r[i]).spec_matches_hostname(
        h,
    ) by {
        if i < fm {
            assert(r[i] == ps.take(fm)[i]);
            assert(ps.take(fm)[i] == ps[i]);
        } else {
            assert(r[i] == parts_not_matching(ps.skip(fm), h)[i - fm - 1]);
        }
    }
}

/// No hostname left behind by the removal equals the removed one, and every
/// other hostname is kept exactly when the original list held it.
pub proof fn lemma_hosts_without_props(hs: Seq<Seq<char>>, h: Seq<char>)
    ensures
        forall|k: int| 0 <= k < hosts_without(hs, h).len() ==> #[trigger] hosts_without(hs, h)[k]
            != h,
        forall|x: Seq<char>|
            x != h ==> (#[trigger] hosts_without(hs, h).contains(x) <==> hs.contains(x)),
    decreases hs.len(),
{
    if hs.len() > 0 {
        lemma_hosts_without_props(hs.drop_first(), h);
        let rest = hosts_without(hs.drop_first(), h);
        let whole = hosts_without(hs, h);
        assert forall|x: Seq<char>| x != h implies (#[trigger] whole.contains(x) <==> hs.contains(
            x,
        )) by {
            if whole.contains(x) {
                let k = choose|k: int| 0 <= k < whole.len() && whole[k] == x;
                if hs[0] != h && k == 0 {
                    assert(hs.contains(x)) by {
                        assert(hs[0] == x);
                    }
                } else {
                    let off = if hs[0] == h {
                        0int
                    } else {
                        1int
                    };
                    assert(rest[k - off] == x);
                    assert(rest.contains(x));
                    assert(hs.drop_first().contains(x));
                    let j = choose|j: int|
                        0 <= j < hs.drop_first().len() && hs.drop_first()[j] == x;
                    assert(hs[j + 1] == x);
                }
            }
            if hs.contains(x) {
                let j = choose|j: int| 0 <= j < hs.len() && hs[j] == x;
                if j == 0 {
                    assert(whole[0] == x);
                } else {
                    assert(hs.drop_first()[j - 1] == x);
                    assert(hs.drop_first().contains(x));
                    assert(rest.contains(x));
                    let k = choose|k: int| 0 <= k < rest.len() && rest[k] == x;
                    let off = if hs[0] == h {
                        0int
                    } else {
                        1int
                    };
                    assert(whole[k + off] == x);
                }
            }
        }
    }
}

/// Removal preserves siblings: an entry holding other hostnames besides the
/// removed one stays in place with the same address, the same comment, and
/// the remaining hostnames in their original relative order — the order
/// `hosts_without` keeps by construction.
pub proof fn lemma_remove_preserves_siblings(
    ip: IpAddress,
    hosts: Seq<Seq<char>>,
    comment: Option<Seq<char>>,
    h: Seq<char>,
)
    requires
        hosts.contains(h),
        hosts_without(hosts, h).len() > 0,
    ensures
        remove_host_from_part(PartView::Entry { ip, hosts, comment }, h) == seq![
            PartView::Entry { ip, hosts: hosts_without(hosts, h), comment },
        ],
        forall|k: int| 0 <= k < hosts_without(hosts, h).len() ==> #[trigger] hosts_without(
            hosts,
            h,
        )[k] != h,
        forall|x: Seq<char>|
            x != h ==> (#[trigger] hosts_without(hosts, h).contains(x) <==> hosts.contains(x)),
{
    lemma_hosts_without_props(hosts, h);
}

/// A removal never leaves a part that still carries the hostname.
pub proof fn lemma_remove_removes(ps: Seq<PartView>, h: Seq<char>)
    ensures
        forall|i: int|
            0 <= i < apply_remove(ps, h).len() && (#[trigger] apply_remove(ps, h)[i]) is Entry
                ==> !apply_remove(ps, h)[i].spec_matches_hostname(h),
    decreases ps.len(),
{
    if ps.len() > 0 {
        lemma_remove_removes(ps.drop_first(), h);
        let head = remove_host_from_part(ps[0], h);
        let rest = apply_remove(ps.drop_first(), h);
        assert forall|i: int|
            0 <= i < apply_remove(ps, h).len() && (#[trigger] apply_remove(ps, h)[i]) is Entry implies !apply_remove(
            ps,
            h,
        )[i].spec_matches_hostname(h) by {
            if i < head.len() {
                assert(apply_remove(ps, h)[i] == head[i]);
                match ps[0] {
                    PartView::Entry { ip, hosts, comment } => {
                        if hosts.contains(h) {
                            let remaining = hosts_without(hosts, h);
                            lemma_hosts_without_props(hosts, h);
                            if remaining.len() > 0 {
                                assert(head[0] == PartView::Entry {
                                    ip,
                                    hosts: remaining,
                                    comment,
                                });
                                if remaining.contains(h) {
                                    let k = choose|k: int|
                                        0 <= k < remaining.len() && remaining[k] == h;
                                    assert(false);
                                }
                            }
                        }
                    },
                    _ => {},
                }
            } else {
                assert(apply_remove(ps, h)[i] == rest[i - head.len()]);
            }
        }
    }
}


// ---------------------------------------------------------------------------
// The round-trip law
// ---------------------------------------------------------------------------

/// A hostname the renderer can reproduce: nonempty, hostname characters only.
pub open spec fn wf_hostname(h: Seq<char>) -> bool {
    h.len() >= 1 && forall|k: int| 0 <= k < h.len() ==> is_alias_char(#[trigger] h[k])
}

/// A comment text the renderer can reproduce: free of line breaks. It may
/// be empty: a bare `#` line is a comment with empty text.
pub open spec fn wf_comment_text(tx: Seq<char>) -> bool {
    forall|k: int| 0 <= k < tx.len() ==> #[trigger] tx[k] != '\r' && tx[k] != '\n'
}

/// A comment whose own text, after its leading whitespace, does not parse as
/// an entry body: rendering it cannot turn it into a commented-out entry.
pub open spec fn comment_safe(text: Seq<char>) -> bool {
    parse_entry_at(text, space_run_len(text, 0)) is None
}

/// A part the parser could have produced: what the round trip preserves.
/// A well-formed hostname list: nonempty, every name well formed.
pub open spec fn wf_hosts(hosts: Seq<Seq<char>>) -> bool {
    hosts.len() >= 1 && forall|k: int| 0 <= k < hosts.len() ==> wf_hostname(#[trigger] hosts[k])
}

/// A well-formed optional trailing comment.
pub open spec fn wf_opt_comment(c: Option<Seq<char>>) -> bool {
    c is Some ==> wf_comment_text(c->0)
}

/// Whitespace only: what a blank line may hold.
pub open spec fn wf_empty_text(t: Seq<char>) -> bool {
    forall|k: int| 0 <= k < t.len() ==> is_space_char(#[trigger] t[k])
}

pub open spec fn wf_part(p: PartView) -> bool {
    match p {
        PartView::Entry { ip, hosts, comment } => wf_hosts(hosts) && wf_opt_comment(comment),
        PartView::CommentedEntry { ip, hosts, comment } => wf_hosts(hosts) && wf_opt_comment(
            comment,
        ),
        PartView::Comment { text } => wf_comment_text(text) && comment_safe(text),
        PartView::Empty { text } => wf_empty_text(text),
    }
}

// Exact-run lemmas: a region of known characters with a stopping boundary
// pins the run length.

proof fn lemma_space_run_exact(s: Seq<char>, p: int, n: int)
    requires
        0 <= p,
        0 <= n,
        p + n <= s.len(),
        forall|k: int| p <= k < p + n ==> is_space_char(#[trigger] s[k]),
        p + n == s.len() || !is_space_char(s[p + n]),
    ensures
        space_run_len(s, p) == n,
    decreases n,
{
    if n > 0 {
        lemma_space_run_exact(s, p + 1, n - 1);
    }
}

proof fn lemma_alias_run_exact(s: Seq<char>, p: int, n: int)
    requires
        0 <= p,
        0 <= n,
        p + n <= s.len(),
        forall|k: int| p <= k < p + n ==> is_alias_char(#[trigger] s[k]),
        p + n == s.len() || !is_alias_char(s[p + n]),
    ensures
        alias_run_len(s, p) == n,
    decreases n,
{
    if n > 0 {
        lemma_alias_run_exact(s, p + 1, n - 1);
    }
}

proof fn lemma_ip_run_exact(s: Seq<char>, p: int, n: int)
    requires
        0 <= p,
        0 <= n,
        p + n <= s.len(),
        forall|k: int| p <= k < p + n ==> is_ip_char(#[trigger] s[k]),
        p + n == s.len() || !is_ip_char(s[p + n]),
    ensures
        ip_run_len(s, p) == n,
    decreases n,
{
    if n > 0 {
        lemma_ip_run_exact(s, p + 1, n - 1);
    }
}

proof fn lemma_not_crlf_run_exact(s: Seq<char>, p: int, n: int)
    requires
        0 <= p,
        0 <= n,
        p + n <= s.len(),
        forall|k: int| p <= k < p + n ==> #[trigger] s[k] != '\r' && s[k] != '\n',
        p + n == s.len() || s[p + n] == '\r' || s[p + n] == '\n',
    ensures
        not_crlf_run_len(s, p) == n,
    decreases n,
{
    if n > 0 {
        lemma_not_crlf_run_exact(s, p + 1, n - 1);
    }
}

// Locality: a line's parse depends only on the line. `t` stands for the text
// of the line, embedded in `s` at offset `a` and ending at a line break or
// at the end of `s`.

/// The line `t` occurs in `s` at offset `a`, ending at a line break or the
/// end of the text.
pub open spec fn embedded(s: Seq<char>, a: int, t: Seq<char>) -> bool {
    0 <= a && a + t.len() <= s.len() && s.subrange(a, a + t.len()) == t && (a + t.len() == s.len()
        || s[a + t.len()] == '\n' || s[a + t.len()] == '\r')
}

proof fn lemma_embedded_chars(s: Seq<char>, a: int, t: Seq<char>)
    requires
        embedded(s, a, t),
    ensures
        forall|x: int| 0 <= x < t.len() ==> s[a + x] == #[trigger] t[x],
{
    assert forall|x: int| 0 <= x < t.len() implies s[a + x] == #[trigger] t[x] by {
        assert(t[x] == s.subrange(a, a + t.len())[x]);
    }
}

proof fn lemma_space_run_local(s: Seq<char>, a: int, t: Seq<char>, j: int)
    requires
        embedded(s, a, t),
        0 <= j <= t.len(),
    ensures
        space_run_len(s, a + j) == space_run_len(t, j),
    decreases t.len() - j,
{
    lemma_embedded_chars(s, a, t);
    if j < t.len() {
        if is_space_char(t[j]) {
            lemma_space_run_local(s, a, t, j + 1);
        }
    }
}

proof fn lemma_alias_run_local(s: Seq<char>, a: int, t: Seq<char>, j: int)
    requires
        embedded(s, a, t),
        0 <= j <= t.len(),
    ensures
        alias_run_len(s, a + j) == alias_run_len(t, j),
    decreases t.len() - j,
{
    lemma_embedded_chars(s, a, t);
    if j < t.len() {
        if is_alias_char(t[j]) {
            lemma_alias_run_local(s, a, t, j + 1);
        }
    }
}

proof fn lemma_ip_run_local(s: Seq<char>, a: int, t: Seq<char>, j: int)
    requires
        embedded(s, a, t),
        0 <= j <= t.len(),
    ensures
        ip_run_len(s, a + j) == ip_run_len(t, j),
    decreases t.len() - j,
{
    lemma_embedded_chars(s, a, t);
    if j < t.len() {
        if is_ip_char(t[j]) {
            lemma_ip_run_local(s, a, t, j + 1);
        }
    }
}

proof fn lemma_not_crlf_run_local(s: Seq<char>, a: int, t: Seq<char>, j: int)
    requires
        embedded(s, a, t),
        0 <= j <= t.len(),
    ensures
        not_crlf_run_len(s, a + j) == not_crlf_run_len(t, j),
    decreases t.len() - j,
{
    lemma_embedded_chars(s, a, t);
    if j < t.len() {
        if t[j] != '\r' && t[j] != '\n' {
            lemma_not_crlf_run_local(s, a, t, j + 1);
        }
    }
}

proof fn lemma_subrange_local(s: Seq<char>, a: int, t: Seq<char>, x: int, y: int)
    requires
        embedded(s, a, t),
        0 <= x <= y <= t.len(),
    ensures
        s.subrange(a + x, a + y) == t.subrange(x, y),
{
    lemma_embedded_chars(s, a, t);
    assert(s.subrange(a + x, a + y) =~= t.subrange(x, y));
}

proof fn lemma_more_hostnames_local(s: Seq<char>, a: int, t: Seq<char>, j: int)
    requires
        embedded(s, a, t),
        0 <= j <= t.len(),
    ensures
        ({
            let r = parse_more_hostnames(t, j);
            parse_more_hostnames(s, a + j) == (r.0, a + r.1)
        }),
    decreases t.len() - j,
{
    lemma_embedded_chars(s, a, t);
    crate::parse::lemma_space_run_props(t, j);
    lemma_space_run_local(s, a, t, j);
    let m = space_run_len(t, j);
    crate::parse::lemma_alias_run_props(t, j + m);
    lemma_alias_run_local(s, a, t, j + m);
    let n = alias_run_len(t, j + m);
    if m >= 1 && n >= 1 && j + m + n <= t.len() {
        lemma_subrange_local(s, a, t, j + m, j + m + n);
        lemma_more_hostnames_local(s, a, t, j + m + n);
    }
}

proof fn lemma_hostnames_local(s: Seq<char>, a: int, t: Seq<char>, j: int)
    requires
        embedded(s, a, t),
        0 <= j <= t.len(),
    ensures
        parse_hostnames(t, j) is None ==> parse_hostnames(s, a + j) is None,
        parse_hostnames(t, j) is Some ==> {
            let (hs, e) = parse_hostnames(t, j)->Some_0;
            parse_hostnames(s, a + j) == Some((hs, a + e))
        },
{
    lemma_alias_run_local(s, a, t, j);
    crate::parse::lemma_alias_run_props(t, j);
    let n = alias_run_len(t, j);
    if n >= 1 {
        lemma_subrange_local(s, a, t, j, j + n);
        lemma_more_hostnames_local(s, a, t, j + n);
    }
}

proof fn lemma_comment_local(s: Seq<char>, a: int, t: Seq<char>, j: int)
    requires
        embedded(s, a, t),
        0 <= j <= t.len(),
    ensures
        parse_comment_at(t, j) is None ==> parse_comment_at(s, a + j) is None,
        parse_comment_at(t, j) is Some ==> {
            let (tx, e) = parse_comment_at(t, j)->Some_0;
            parse_comment_at(s, a + j) == Some((tx, a + e))
        },
{
    lemma_embedded_chars(s, a, t);
    lemma_space_run_local(s, a, t, j);
    crate::parse::lemma_space_run_props(t, j);
    let jq = j + space_run_len(t, j);
    if jq < t.len() && t[jq] == '#' {
        crate::parse::lemma_not_crlf_run_props(t, jq + 1);
        lemma_not_crlf_run_local(s, a, t, jq + 1);
        let n = not_crlf_run_len(t, jq + 1);
        lemma_subrange_local(s, a, t, jq + 1, jq + 1 + n);
    } else {
        // On the embedded side the same position holds the same character,
        // the line break, or the end of the text: never `#`.
        if jq == t.len() {
            assert(a + jq == s.len() || s[a + jq] == '\n' || s[a + jq] == '\r');
        }
    }
}

proof fn lemma_entry_local(s: Seq<char>, a: int, t: Seq<char>, j: int)
    requires
        embedded(s, a, t),
        0 <= j <= t.len(),
    ensures
        parse_entry_at(t, j) is None ==> parse_entry_at(s, a + j) is None,
        parse_entry_at(t, j) is Some ==> {
            let (v, e) = parse_entry_at(t, j)->Some_0;
            parse_entry_at(s, a + j) == Some((v, a + e))
        },
{
    lemma_ip_run_local(s, a, t, j);
    crate::parse::lemma_ip_run_props(t, j);
    let n = ip_run_len(t, j);
    if n >= 1 {
        lemma_subrange_local(s, a, t, j, j + n);
        lemma_space_run_local(s, a, t, j + n);
        crate::parse::lemma_space_run_props(t, j + n);
        let m = space_run_len(t, j + n);
        if m >= 1 {
            lemma_hostnames_local(s, a, t, j + n + m);
            crate::parse::lemma_parse_hostnames_props(t, j + n + m);
            match parse_hostnames(t, j + n + m) {
                None => {},
                Some((hs, q)) => {
                    lemma_space_run_local(s, a, t, q);
                    crate::parse::lemma_space_run_props(t, q);
                    let q2 = q + space_run_len(t, q);
                    lemma_comment_local(s, a, t, q2);
                },
            }
        }
    }
}

// The rendered text of each part parses back to the part.

proof fn lemma_more_hosts_parse(s: Seq<char>, q: int, rest: Seq<Seq<char>>)
    requires
        0 <= q,
        forall|k: int| 0 <= k < rest.len() ==> wf_hostname(#[trigger] rest[k]),
        ({
            let more = if rest.len() == 0 {
                Seq::<char>::empty()
            } else {
                seq![' '] + join_hosts(rest)
            };
            q + more.len() <= s.len() && s.subrange(q, q + more.len()) == more && {
                let b = q + more.len();
                b == s.len() || s[b] == '\n' || (b + 1 < s.len() && s[b] == ' ' && s[b + 1]
                    == '#')
            }
        }),
    ensures
        ({
            let more = if rest.len() == 0 {
                Seq::<char>::empty()
            } else {
                seq![' '] + join_hosts(rest)
            };
            parse_more_hostnames(s, q) == (rest, q + more.len())
        }),
    decreases rest.len(),
{
    let more = if rest.len() == 0 {
        Seq::<char>::empty()
    } else {
        seq![' '] + join_hosts(rest)
    };
    assert forall|x: int| 0 <= x < more.len() implies s[q + x] == #[trigger] more[x] by {
        assert(more[x] == s.subrange(q, q + more.len())[x]);
    }
    let b = q + more.len();
    if rest.len() == 0 {
        // No further hostname: either no whitespace follows, or a single
        // space followed by `#`, which holds no hostname character.
        if b == s.len() || s[b] == '\n' {
            lemma_space_run_exact(s, q, 0);
            assert(parse_more_hostnames(s, q) == (Seq::<Seq<char>>::empty(), q));
        } else {
            assert(s[q] == ' ' && s[q + 1] == '#');
            lemma_space_run_exact(s, q, 1);
            lemma_alias_run_exact(s, q + 1, 0);
            assert(parse_more_hostnames(s, q) == (Seq::<Seq<char>>::empty(), q));
        }
    } else {
        let h0 = rest[0];
        let jh = join_hosts(rest);
        let tail = rest.drop_first();
        if rest.len() == 1 {
            assert(jh == h0);
        } else {
            assert(jh == h0 + seq![' '] + join_hosts(tail));
        }
        assert(s[q + 0] == more[0]);
        assert(more[0] == ' ');
        assert(s[q] == ' ');
        assert(s[q + 1] == more[1]);
        assert(more[1] == h0[0]);
        assert(is_alias_char(h0[0]));
        lemma_space_run_exact(s, q, 1);
        // The hostname token.
        assert forall|k: int| q + 1 <= k < q + 1 + h0.len() implies is_alias_char(
            #[trigger] s[k],
        ) by {
            assert(s[k] == more[k - q]);
            assert(more[k - q] == h0[k - q - 1]);
        }
        let after0 = q + 1 + h0.len();
        if rest.len() == 1 {
            assert(after0 == b);
            if b < s.len() {
                assert(!is_alias_char(s[b]));
            }
        } else {
            assert(s[after0] == more[after0 - q]);
            assert(more[after0 - q] == ' ');
            assert(!is_alias_char(' '));
        }
        lemma_alias_run_exact(s, q + 1, h0.len() as int);
        assert forall|x: int| 0 <= x < h0.len() implies s.subrange(q + 1, after0)[x] == h0[x] by {
            assert(s[q + (1 + x)] == more[1 + x]);
            assert(more[1 + x] == jh[x]);
            assert(jh[x] == h0[x]);
        }
        assert(s.subrange(q + 1, after0) =~= h0);
        // The rest of the list.
        let more2 = if tail.len() == 0 {
            Seq::<char>::empty()
        } else {
            seq![' '] + join_hosts(tail)
        };
        assert forall|x: int| 0 <= x < more2.len() implies s.subrange(
            after0,
            after0 + more2.len(),
        )[x] == more2[x] by {
            assert(s[q + (1 + h0.len() + x)] == more[1 + h0.len() + x]);
            assert(more[1 + h0.len() + x] == jh[h0.len() + x]);
            assert(jh[h0.len() + x] == more2[x]);
        }
        assert(s.subrange(after0, after0 + more2.len()) =~= more2);
        lemma_more_hosts_parse(s, after0, tail);
        assert(parse_more_hostnames(s, q) == (seq![h0] + tail, after0 + more2.len()));
        assert(seq![h0] + tail =~= rest);
        assert(after0 + more2.len() == b);
    }
}

proof fn lemma_join_hosts_parse(s: Seq<char>, p: int, hosts: Seq<Seq<char>>)
    requires
        0 <= p,
        hosts.len() >= 1,
        forall|k: int| 0 <= k < hosts.len() ==> wf_hostname(#[trigger] hosts[k]),
        p + join_hosts(hosts).len() <= s.len(),
        s.subrange(p, p + join_hosts(hosts).len()) == join_hosts(hosts),
        ({
            let b = p + join_hosts(hosts).len();
            b == s.len() || s[b] == '\n' || (b + 1 < s.len() && s[b] == ' ' && s[b + 1] == '#')
        }),
    ensures
        parse_hostnames(s, p) == Some((hosts, p + join_hosts(hosts).len())),
{
    let jh = join_hosts(hosts);
    let b = p + jh.len();
    assert forall|x: int| 0 <= x < jh.len() implies s[p + x] == #[trigger] jh[x] by {
        assert(jh[x] == s.subrange(p, b)[x]);
    }
    let h0 = hosts[0];
    let tail = hosts.drop_first();
    if hosts.len() == 1 {
        assert(jh == h0);
    } else {
        assert(jh == h0 + seq![' '] + join_hosts(tail));
    }
    assert forall|k: int| p <= k < p + h0.len() implies is_alias_char(#[trigger] s[k]) by {
        assert(s[k] == jh[k - p]);
        assert(jh[k - p] == h0[k - p]);
    }
    let after0 = p + h0.len();
    if hosts.len() == 1 {
        if b < s.len() {
            assert(!is_alias_char(s[b]));
        }
    } else {
        assert(s[after0] == jh[after0 - p]);
        assert(jh[after0 - p] == ' ');
    }
    lemma_alias_run_exact(s, p, h0.len() as int);
    assert forall|x: int| 0 <= x < h0.len() implies s.subrange(p, after0)[x] == h0[x] by {
        assert(s[p + x] == jh[x]);
        assert(jh[x] == h0[x]);
    }
    assert(s.subrange(p, after0) =~= h0);
    let more2 = if tail.len() == 0 {
        Seq::<char>::empty()
    } else {
        seq![' '] + join_hosts(tail)
    };
    assert forall|x: int| 0 <= x < more2.len() implies s.subrange(
        after0,
        after0 + more2.len(),
    )[x] == more2[x] by {
        assert(s[p + (h0.len() + x)] == jh[h0.len() + x]);
        assert(jh[h0.len() + x] == more2[x]);
    }
    assert(s.subrange(after0, after0 + more2.len()) =~= more2);
    lemma_more_hosts_parse(s, after0, tail);
    assert(parse_hostnames(s, p) == Some((seq![h0] + tail, after0 + more2.len())));
    assert(seq![h0] + tail =~= hosts);
    assert(after0 + more2.len() == b);
}


/// Helper: the first character of a rendered line is never a carriage
/// return, so a rendered newline separator is always read as one character.
proof fn lemma_render_first_char(p: PartView)
    requires
        wf_part(p),
    ensures
        render_part(p).len() == 0 || render_part(p)[0] != '\r',
{
    match p {
        PartView::Entry { ip, hosts, comment } => {
            crate::ip::lemma_ip_chars_class(ip);
            assert(render_part(p)[0] == chars_of_ip(ip)[0]);
            assert(crate::ip::is_ip_literal_char(chars_of_ip(ip)[0]));
        },
        PartView::CommentedEntry { .. } => {
            assert(render_part(p)[0] == '#');
        },
        PartView::Comment { text } => {
            assert(render_part(p)[0] == '#');
        },
        PartView::Empty { text } => {
            if text.len() > 0 {
                assert(is_space_char(render_part(p)[0]));
            }
        },
    }
}

/// How the rendered entry body decomposes, character by character.
proof fn lemma_entry_body_index(ip: IpAddress, hosts: Seq<Seq<char>>, comment: Option<Seq<char>>)
    ensures
        ({
            let body = render_entry_body(ip, hosts, comment);
            let ipc = chars_of_ip(ip);
            let n = ipc.len() as int;
            let pad = pad_to_column(n);
            let m = pad.len() as int + 1;
            let jh = join_hosts(hosts);
            let ctail = match comment {
                Some(c) => seq![' ', '#'] + c,
                None => Seq::<char>::empty(),
            };
            &&& body.len() == n + m + jh.len() + ctail.len()
            &&& forall|x: int| 0 <= x < n ==> #[trigger] body[x] == ipc[x]
            &&& forall|x: int| n <= x < n + m - 1 ==> #[trigger] body[x] == pad[x - n]
            &&& body[n + m - 1] == '\t'
            &&& forall|x: int| n + m <= x < n + m + jh.len() ==> #[trigger] body[x] == jh[x - n
                - m]
            &&& forall|x: int|
                n + m + jh.len() <= x < body.len() ==> #[trigger] body[x] == ctail[x - n - m
                    - jh.len()]
        }),
{
}

/// Decoding the head of a rendered entry body: the address token, its
/// parse, the whitespace run, and the hostname region.
#[verifier::rlimit(100)]
proof fn lemma_entry_head_parse(
    s: Seq<char>,
    p: int,
    ip: IpAddress,
    hosts: Seq<Seq<char>>,
    comment: Option<Seq<char>>,
)
    requires
        0 <= p,
        hosts.len() >= 1,
        forall|k: int| 0 <= k < hosts.len() ==> wf_hostname(#[trigger] hosts[k]),
        p + render_entry_body(ip, hosts, comment).len() <= s.len(),
        s.subrange(p, p + render_entry_body(ip, hosts, comment).len()) == render_entry_body(
            ip,
            hosts,
            comment,
        ),
    ensures
        ({
            let ipc = chars_of_ip(ip);
            let n = ipc.len() as int;
            let m = pad_to_column(n).len() as int + 1;
            let jh = join_hosts(hosts);
            &&& ip_run_len(s, p) == n
            &&& ip_of_chars(s.subrange(p, p + n)) == Some(ip)
            &&& space_run_len(s, p + n) == m
            &&& s.subrange(p + n + m, p + n + m + jh.len()) == jh
        }),
{
    let body = render_entry_body(ip, hosts, comment);
    let e = p + body.len();
    lemma_entry_body_index(ip, hosts, comment);
    assert forall|x: int| 0 <= x < body.len() implies s[p + x] == #[trigger] body[x] by {
        assert(body[x] == s.subrange(p, e)[x]);
    }
    let ipc = chars_of_ip(ip);
    let n = ipc.len() as int;
    let pad = pad_to_column(n);
    let m = pad.len() as int + 1;
    let jh = join_hosts(hosts);
    crate::ip::lemma_ip_chars_class(ip);
    // The address token.
    assert forall|k: int| p <= k < p + n implies is_ip_char(#[trigger] s[k]) by {
        assert(s[k] == body[k - p]);
        assert(body[k - p] == ipc[k - p]);
        assert(crate::ip::is_ip_literal_char(ipc[k - p]));
    }
    assert(s[p + n] == body[n]);
    assert(!is_ip_char(body[n])) by {
        if m - 1 > 0 {
            assert(body[n] == pad[0]);
            assert(pad[0] == ' ');
        } else {
            assert(body[n] == '\t');
        }
    }
    lemma_ip_run_exact(s, p, n);
    assert forall|x: int| 0 <= x < n implies s.subrange(p, p + n)[x] == ipc[x] by {
        assert(s[p + x] == body[x]);
    }
    assert(s.subrange(p, p + n) =~= ipc);
    crate::ip::lemma_ip_round_trip(ip);
    // The padding and the tab.
    assert forall|k: int| p + n <= k < p + n + m implies is_space_char(#[trigger] s[k]) by {
        assert(s[k] == body[k - p]);
        if k - p < n + m - 1 {
            assert(body[k - p] == pad[k - p - n]);
            assert(pad[k - p - n] == ' ');
        } else {
            assert(body[k - p] == '\t');
        }
    }
    assert(jh[0] == hosts[0][0]) by {
        if hosts.len() == 1 {
            assert(jh == hosts[0]);
        } else {
            assert(jh == hosts[0] + seq![' '] + join_hosts(hosts.drop_first()));
        }
    }
    assert(!is_space_char(s[p + n + m])) by {
        assert(s[p + (n + m)] == body[n + m]);
        assert(body[n + m] == jh[0]);
        assert(is_alias_char(jh[0]));
    }
    lemma_space_run_exact(s, p + n, m);
    // The hostname region.
    assert forall|x: int| 0 <= x < jh.len() implies s.subrange(p + n + m, p + n + m + jh.len())[x]
        == jh[x] by {
        assert(s[p + (n + m + x)] == body[n + m + x]);
        assert(body[n + m + x] == jh[x]);
    }
    assert(s.subrange(p + n + m, p + n + m + jh.len()) =~= jh);
}

/// The rendered body of an entry, embedded up to a line break or the end of
/// the text, parses back to its pieces.
#[verifier::rlimit(100)]
proof fn lemma_entry_body_parse(
    s: Seq<char>,
    p: int,
    ip: IpAddress,
    hosts: Seq<Seq<char>>,
    comment: Option<Seq<char>>,
)
    requires
        0 <= p,
        hosts.len() >= 1,
        forall|k: int| 0 <= k < hosts.len() ==> wf_hostname(#[trigger] hosts[k]),
        comment is Some ==> wf_comment_text(comment->0),
        p + render_entry_body(ip, hosts, comment).len() <= s.len(),
        s.subrange(p, p + render_entry_body(ip, hosts, comment).len()) == render_entry_body(
            ip,
            hosts,
            comment,
        ),
        p + render_entry_body(ip, hosts, comment).len() == s.len() || s[p + render_entry_body(
            ip,
            hosts,
            comment,
        ).len()] == '\n',
    ensures
        parse_entry_at(s, p) == Some(((ip, hosts, comment), p + render_entry_body(
            ip,
            hosts,
            comment,
        ).len())),
{
    let body = render_entry_body(ip, hosts, comment);
    let e = p + body.len();
    lemma_entry_body_index(ip, hosts, comment);
    lemma_entry_head_parse(s, p, ip, hosts, comment);
    let ipc = chars_of_ip(ip);
    let n = ipc.len() as int;
    let pad = pad_to_column(n);
    let m = pad.len() as int + 1;
    let jh = join_hosts(hosts);
    let hstart = p + n + m;
    let q = hstart + jh.len();
    match comment {
        Some(c) => {
            lemma_entry_comment_parse(s, p, ip, hosts, c);
        },
        None => {
            assert(q == e);
            lemma_join_hosts_parse(s, hstart, hosts);
            lemma_space_run_exact(s, q, 0);
            assert(parse_comment_at(s, q) is None);
            assert(parse_entry_at(s, p) == Some(((ip, hosts, comment), e)));
        },
    }
}

/// The tail of an entry with a trailing comment: one space, the marker, and
/// the comment text to the end of the line.
#[verifier::rlimit(100)]
proof fn lemma_entry_comment_parse(
    s: Seq<char>,
    p: int,
    ip: IpAddress,
    hosts: Seq<Seq<char>>,
    c: Seq<char>,
)
    requires
        0 <= p,
        hosts.len() >= 1,
        forall|k: int| 0 <= k < hosts.len() ==> wf_hostname(#[trigger] hosts[k]),
        wf_comment_text(c),
        p + render_entry_body(ip, hosts, Some(c)).len() <= s.len(),
        s.subrange(p, p + render_entry_body(ip, hosts, Some(c)).len()) == render_entry_body(
            ip,
            hosts,
            Some(c),
        ),
        p + render_entry_body(ip, hosts, Some(c)).len() == s.len() || s[p + render_entry_body(
            ip,
            hosts,
            Some(c),
        ).len()] == '\n',
        ip_run_len(s, p) == chars_of_ip(ip).len(),
        ip_of_chars(s.subrange(p, p + chars_of_ip(ip).len() as int)) == Some(ip),
        space_run_len(s, p + chars_of_ip(ip).len() as int) == pad_to_column(
            chars_of_ip(ip).len() as int,
        ).len() + 1,
        ({
            let n = chars_of_ip(ip).len() as int;
            let m = pad_to_column(n).len() as int + 1;
            s.subrange(p + n + m, p + n + m + join_hosts(hosts).len() as int) == join_hosts(hosts)
        }),
    ensures
        parse_entry_at(s, p) == Some(((ip, hosts, Some(c)), p + render_entry_body(
            ip,
            hosts,
            Some(c),
        ).len())),
{
    let body = render_entry_body(ip, hosts, Some(c));
    let e = p + body.len();
    lemma_entry_body_index(ip, hosts, Some(c));
    assert forall|x: int| 0 <= x < body.len() implies s[p + x] == #[trigger] body[x] by {
        assert(body[x] == s.subrange(p, e)[x]);
    }
    let ipc = chars_of_ip(ip);
    let n = ipc.len() as int;
    let pad = pad_to_column(n);
    let m = pad.len() as int + 1;
    let jh = join_hosts(hosts);
    let ctail = seq![' ', '#'] + c;
    let hstart = p + n + m;
    let q = hstart + jh.len();
    assert(s[q] == ' ') by {
        assert(s[p + (n + m + jh.len())] == body[n + m + jh.len()]);
        assert(body[n + m + jh.len()] == ctail[0]);
    }
    assert(s[q + 1] == '#') by {
        assert(s[p + (n + m + jh.len() + 1)] == body[n + m + jh.len() + 1]);
        assert(body[n + m + jh.len() + 1] == ctail[1]);
    }
    lemma_join_hosts_parse(s, hstart, hosts);
    assert(!is_space_char('#'));
    lemma_space_run_exact(s, q, 1);
    lemma_space_run_exact(s, q + 1, 0);
    // The comment text.
    assert forall|k: int| q + 2 <= k < e implies #[trigger] s[k] != '\r' && s[k] != '\n' by {
        assert(s[k] == body[k - p]);
        assert(body[k - p] == ctail[k - p - n - m - jh.len()]);
        assert(ctail[k - p - n - m - jh.len()] == c[k - q - 2]);
    }
    lemma_not_crlf_run_exact(s, q + 2, c.len() as int);
    assert forall|x: int| 0 <= x < c.len() implies s.subrange(q + 2, e)[x] == c[x] by {
        assert(s[p + (n + m + jh.len() + 2 + x)] == body[n + m + jh.len() + 2 + x]);
        assert(body[n + m + jh.len() + 2 + x] == ctail[2 + x]);
        assert(ctail[2 + x] == c[x]);
    }
    assert(s.subrange(q + 2, e) =~= c);
    assert(parse_comment_at(s, q + 1) == Some((c, e)));
    assert(parse_entry_at(s, p) == Some(((ip, hosts, Some(c)), e)));
}

/// An active entry's line parses back to the entry: the earlier grammar
/// alternatives fail at its first character.
#[verifier::rlimit(100)]
proof fn lemma_element_entry(
    s: Seq<char>,
    p: int,
    ip: IpAddress,
    hosts: Seq<Seq<char>>,
    comment: Option<Seq<char>>,
)
    requires
        0 <= p,
        wf_part(PartView::Entry { ip, hosts, comment }),
        p + render_part(PartView::Entry { ip, hosts, comment }).len() <= s.len(),
        s.subrange(p, p + render_part(PartView::Entry { ip, hosts, comment }).len())
            == render_part(PartView::Entry { ip, hosts, comment }),
        p + render_part(PartView::Entry { ip, hosts, comment }).len() == s.len() || s[p
            + render_part(PartView::Entry { ip, hosts, comment }).len()] == '\n',
    ensures
        parse_element_at(s, p) == Some(
            (PartView::Entry { ip, hosts, comment }, p + render_part(
                PartView::Entry { ip, hosts, comment },
            ).len()),
        ),
{
    let line = render_part(PartView::Entry { ip, hosts, comment });
    assert(wf_hosts(hosts) && wf_opt_comment(comment));
    crate::ip::lemma_ip_chars_class(ip);
    lemma_entry_body_index(ip, hosts, comment);
    assert(s[p + 0] == line[0]) by {
        assert(line[0] == s.subrange(p, p + line.len())[0]);
    }
    assert(line[0] == chars_of_ip(ip)[0]);
    assert(crate::ip::is_ip_literal_char(line[0]));
    assert(!is_space_char(s[p]));
    lemma_space_run_exact(s, p, 0);
    assert(s[p] != '#');
    assert(parse_commented_entry_at(s, p) is None);
    assert(parse_comment_at(s, p) is None);
    lemma_entry_body_parse(s, p, ip, hosts, comment);
}

/// A commented-out entry's line parses back to the part.
#[verifier::rlimit(100)]
proof fn lemma_element_centry(
    s: Seq<char>,
    p: int,
    ip: IpAddress,
    hosts: Seq<Seq<char>>,
    comment: Option<Seq<char>>,
)
    requires
        0 <= p,
        wf_part(PartView::CommentedEntry { ip, hosts, comment }),
        p + render_part(PartView::CommentedEntry { ip, hosts, comment }).len() <= s.len(),
        s.subrange(p, p + render_part(PartView::CommentedEntry { ip, hosts, comment }).len())
            == render_part(PartView::CommentedEntry { ip, hosts, comment }),
        p + render_part(PartView::CommentedEntry { ip, hosts, comment }).len() == s.len() || s[p
            + render_part(PartView::CommentedEntry { ip, hosts, comment }).len()] == '\n',
    ensures
        parse_element_at(s, p) == Some(
            (PartView::CommentedEntry { ip, hosts, comment }, p + render_part(
                PartView::CommentedEntry { ip, hosts, comment },
            ).len()),
        ),
{
    let line = render_part(PartView::CommentedEntry { ip, hosts, comment });
    assert(wf_hosts(hosts) && wf_opt_comment(comment));
    let body = render_entry_body(ip, hosts, comment);
    let e = p + line.len();
    assert(line == seq!['#', ' '] + body);
    assert forall|x: int| 0 <= x < line.len() implies s[p + x] == #[trigger] line[x] by {
        assert(line[x] == s.subrange(p, e)[x]);
    }
    assert(s[p + 0] == line[0]);
    assert(line[0] == '#');
    assert(s[p] == '#');
    assert(!is_space_char('#'));
    lemma_space_run_exact(s, p, 0);
    assert(s[p + 1] == line[1]);
    assert(line[1] == ' ');
    crate::ip::lemma_ip_chars_class(ip);
    lemma_entry_body_index(ip, hosts, comment);
    assert(s[p + 2] == line[2]);
    assert(line[2] == body[0]);
    assert(body[0] == chars_of_ip(ip)[0]);
    assert(crate::ip::is_ip_literal_char(body[0]));
    assert(!is_space_char(s[p + 2]));
    lemma_space_run_exact(s, p + 1, 1);
    assert forall|x: int| 0 <= x < body.len() implies s.subrange(p + 2, e)[x] == body[x] by {
        assert(s[p + (2 + x)] == line[2 + x]);
        assert(line[2 + x] == body[x]);
    }
    assert(s.subrange(p + 2, e) =~= body);
    lemma_entry_body_parse(s, p + 2, ip, hosts, comment);
    assert(parse_commented_entry_at(s, p) == Some(((ip, hosts, comment), e)));
}

/// A comment line parses back to the comment: by its well-formedness no
/// entry body hides after the marker.
#[verifier::rlimit(100)]
proof fn lemma_element_comment(s: Seq<char>, p: int, text: Seq<char>)
    requires
        0 <= p,
        wf_part(PartView::Comment { text }),
        p + render_part(PartView::Comment { text }).len() <= s.len(),
        s.subrange(p, p + render_part(PartView::Comment { text }).len()) == render_part(
            PartView::Comment { text },
        ),
        p + render_part(PartView::Comment { text }).len() == s.len() || s[p + render_part(
            PartView::Comment { text },
        ).len()] == '\n',
    ensures
        parse_element_at(s, p) == Some(
            (PartView::Comment { text }, p + render_part(PartView::Comment { text }).len()),
        ),
{
    let line = render_part(PartView::Comment { text });
    assert(wf_comment_text(text) && comment_safe(text));
    let e = p + line.len();
    assert(line == seq!['#'] + text);
    assert forall|x: int| 0 <= x < line.len() implies s[p + x] == #[trigger] line[x] by {
        assert(line[x] == s.subrange(p, e)[x]);
    }
    assert(s[p + 0] == line[0]);
    assert(line[0] == '#');
    assert(s[p] == '#');
    lemma_space_run_exact(s, p, 0);
    assert forall|x: int| 0 <= x < text.len() implies s.subrange(p + 1, e)[x] == text[x] by {
        assert(s[p + (1 + x)] == line[1 + x]);
        assert(line[1 + x] == text[x]);
    }
    assert(s.subrange(p + 1, e) =~= text);
    assert(embedded(s, p + 1, text));
    lemma_space_run_local(s, p + 1, text, 0);
    let sp = space_run_len(text, 0);
    crate::parse::lemma_space_run_props(text, 0);
    lemma_entry_local(s, p + 1, text, sp);
    assert(parse_entry_at(s, p + 1 + sp) is None);
    assert(parse_commented_entry_at(s, p) is None);
    assert forall|k: int| p + 1 <= k < e implies #[trigger] s[k] != '\r' && s[k] != '\n' by {
        assert(s[k] == line[k - p]);
        assert(line[k - p] == text[k - p - 1]);
    }
    lemma_not_crlf_run_exact(s, p + 1, text.len() as int);
    assert(parse_comment_at(s, p) == Some((text, e)));
}

/// A blank line parses back to the blank part.
#[verifier::rlimit(100)]
proof fn lemma_element_empty(s: Seq<char>, p: int, text: Seq<char>)
    requires
        0 <= p,
        wf_part(PartView::Empty { text }),
        p + text.len() <= s.len(),
        s.subrange(p, p + text.len()) == text,
        p + text.len() == s.len() || s[p + text.len()] == '\n',
    ensures
        parse_element_at(s, p) == Some((PartView::Empty { text }, p + text.len())),
{
    let e = p + text.len();
    assert(wf_empty_text(text));
    assert forall|x: int| 0 <= x < text.len() implies s[p + x] == #[trigger] text[x] by {
        assert(text[x] == s.subrange(p, e)[x]);
    }
    assert forall|k: int| p <= k < e implies is_space_char(#[trigger] s[k]) by {
        assert(s[p + (k - p)] == text[k - p]);
        assert(is_space_char(text[k - p]));
        assert(s[k] == text[k - p]);
    }
    lemma_space_run_exact(s, p, text.len() as int);
    if e < s.len() {
        assert(s[e] == '\n');
    }
    assert(parse_commented_entry_at(s, p) is None);
    assert(parse_comment_at(s, p) is None);
    assert(ip_run_len(s, p) == 0) by {
        lemma_ip_run_exact(s, p, 0);
    }
    assert(parse_entry_at(s, p) is None);
    assert(s.subrange(p, e) =~= text);
    assert(linebreak_len(s, e) > 0 || e == s.len());
    assert(parse_empty_at(s, p) == Some((text, e)));
}

/// The rendered line of a well-formed part, embedded up to a line break or
/// the end of the text, parses back to exactly that part.
proof fn lemma_element_round_trip(s: Seq<char>, p: int, pv: PartView)
    requires
        0 <= p,
        wf_part(pv),
        p + render_part(pv).len() <= s.len(),
        s.subrange(p, p + render_part(pv).len()) == render_part(pv),
        p + render_part(pv).len() == s.len() || s[p + render_part(pv).len()] == '\n',
    ensures
        parse_element_at(s, p) == Some((pv, p + render_part(pv).len())),
{
    match pv {
        PartView::Entry { ip, hosts, comment } => {
            lemma_element_entry(s, p, ip, hosts, comment);
        },
        PartView::CommentedEntry { ip, hosts, comment } => {
            lemma_element_centry(s, p, ip, hosts, comment);
        },
        PartView::Comment { text } => {
            lemma_element_comment(s, p, text);
        },
        PartView::Empty { text } => {
            lemma_element_empty(s, p, text);
        },
    }
}


// Parse output is well formed: what the parser builds, the renderer can
// reproduce.

proof fn lemma_more_hostnames_wf(s: Seq<char>, j: int)
    requires
        0 <= j <= s.len(),
    ensures
        forall|k: int|
            0 <= k < parse_more_hostnames(s, j).0.len() ==> wf_hostname(
                #[trigger] parse_more_hostnames(s, j).0[k],
            ),
    decreases s.len() - j,
{
    crate::parse::lemma_space_run_props(s, j);
    let m = space_run_len(s, j);
    crate::parse::lemma_alias_run_props(s, j + m);
    let n = alias_run_len(s, j + m);
    if m >= 1 && n >= 1 && j + m + n <= s.len() {
        lemma_more_hostnames_wf(s, j + m + n);
        let tok = s.subrange(j + m, j + m + n);
        assert(wf_hostname(tok)) by {
            assert forall|x: int| 0 <= x < tok.len() implies is_alias_char(#[trigger] tok[x]) by {
                assert(tok[x] == s[j + m + x]);
            }
        }
        let rest = parse_more_hostnames(s, j + m + n).0;
        let whole = parse_more_hostnames(s, j).0;
        assert(whole == seq![tok] + rest);
        assert forall|k: int| 0 <= k < whole.len() implies wf_hostname(#[trigger] whole[k]) by {
            if k == 0 {
                assert(whole[k] == tok);
            } else {
                assert(whole[k] == rest[k - 1]);
            }
        }
    }
}

proof fn lemma_parse_hostnames_wf(s: Seq<char>, j: int)
    requires
        0 <= j <= s.len(),
        parse_hostnames(s, j) is Some,
    ensures
        wf_hosts(parse_hostnames(s, j)->Some_0.0),
{
    crate::parse::lemma_alias_run_props(s, j);
    let n = alias_run_len(s, j);
    lemma_more_hostnames_wf(s, j + n);
    let tok = s.subrange(j, j + n);
    assert(wf_hostname(tok)) by {
        assert forall|x: int| 0 <= x < tok.len() implies is_alias_char(#[trigger] tok[x]) by {
            assert(tok[x] == s[j + x]);
        }
    }
    let rest = parse_more_hostnames(s, j + n).0;
    let whole = parse_hostnames(s, j)->Some_0.0;
    assert(whole == seq![tok] + rest);
    assert forall|k: int| 0 <= k < whole.len() implies wf_hostname(#[trigger] whole[k]) by {
        if k == 0 {
            assert(whole[k] == tok);
        } else {
            assert(whole[k] == rest[k - 1]);
        }
    }
}

proof fn lemma_parse_comment_wf(s: Seq<char>, j: int)
    requires
        0 <= j <= s.len(),
        parse_comment_at(s, j) is Some,
    ensures
        wf_comment_text(parse_comment_at(s, j)->Some_0.0),
{
    crate::parse::lemma_space_run_props(s, j);
    let jq = j + space_run_len(s, j);
    crate::parse::lemma_not_crlf_run_props(s, jq + 1);
    let n = not_crlf_run_len(s, jq + 1);
    let tx = s.subrange(jq + 1, jq + 1 + n);
    assert forall|x: int| 0 <= x < tx.len() implies #[trigger] tx[x] != '\r' && tx[x] != '\n' by {
        assert(tx[x] == s[jq + 1 + x]);
    }
}

proof fn lemma_parse_entry_wf(s: Seq<char>, i: int)
    requires
        0 <= i <= s.len(),
        parse_entry_at(s, i) is Some,
    ensures
        wf_hosts(parse_entry_at(s, i)->Some_0.0.1),
        wf_opt_comment(parse_entry_at(s, i)->Some_0.0.2),
{
    crate::parse::lemma_ip_run_props(s, i);
    let n = ip_run_len(s, i);
    crate::parse::lemma_space_run_props(s, i + n);
    let m = space_run_len(s, i + n);
    lemma_parse_hostnames_wf(s, i + n + m);
    crate::parse::lemma_parse_hostnames_props(s, i + n + m);
    let q = parse_hostnames(s, i + n + m)->Some_0.1;
    crate::parse::lemma_space_run_props(s, q);
    let q2 = q + space_run_len(s, q);
    if parse_comment_at(s, q2) is Some {
        lemma_parse_comment_wf(s, q2);
    }
}

/// Everything the parser yields for one element is well formed; in
/// particular a comment line only becomes a `Comment` after the
/// commented-entry alternative has failed, which makes the comment safe to
/// re-render.
proof fn lemma_parse_element_wf(s: Seq<char>, i: int)
    requires
        0 <= i <= s.len(),
        parse_element_at(s, i) is Some,
    ensures
        wf_part(parse_element_at(s, i)->Some_0.0),
{
    crate::parse::lemma_space_run_props(s, i);
    let j = i + space_run_len(s, i);
    if parse_commented_entry_at(s, i) is Some {
        crate::parse::lemma_space_run_props(s, j + 1);
        let k = j + 1 + space_run_len(s, j + 1);
        lemma_parse_entry_wf(s, k);
    } else if parse_comment_at(s, i) is Some {
        lemma_parse_comment_wf(s, i);
        // The commented-entry alternative failed although the marker is
        // there, so the text after the marker holds no entry body; the same
        // failure holds of the text standalone.
        assert(j < s.len() && s[j] == '#');
        crate::parse::lemma_space_run_props(s, j + 1);
        let k = j + 1 + space_run_len(s, j + 1);
        assert(parse_entry_at(s, k) is None);
        crate::parse::lemma_not_crlf_run_props(s, j + 1);
        let n = not_crlf_run_len(s, j + 1);
        let text = s.subrange(j + 1, j + 1 + n);
        assert(embedded(s, j + 1, text)) by {
            assert(s.subrange(j + 1, j + 1 + n) =~= text);
        }
        lemma_space_run_local(s, j + 1, text, 0);
        let sp = space_run_len(text, 0);
        crate::parse::lemma_space_run_props(text, 0);
        lemma_entry_local(s, j + 1, text, sp);
        assert(space_run_len(s, j + 1) == sp);
        assert(parse_entry_at(text, sp) is None) by {
            if parse_entry_at(text, sp) is Some {
                assert(parse_entry_at(s, j + 1 + sp) is Some);
            }
        }
        assert(comment_safe(text));
    } else if parse_entry_at(s, i) is Some {
        lemma_parse_entry_wf(s, i);
    } else {
        let n = space_run_len(s, i);
        let text = s.subrange(i, i + n);
        assert(wf_empty_text(text)) by {
            assert forall|x: int| 0 <= x < text.len() implies is_space_char(
                #[trigger] text[x],
            ) by {
                assert(text[x] == s[i + x]);
            }
        }
    }
}

/// Every part the document parser yields is well formed.
proof fn lemma_parse_doc_wf(s: Seq<char>, i: int)
    requires
        0 <= i <= s.len(),
    ensures
        forall|k: int|
            0 <= k < parse_document_at(s, i).0.len() ==> wf_part(
                #[trigger] parse_document_at(s, i).0[k],
            ),
    decreases s.len() - i,
{
    crate::parse::lemma_parse_element_props(s, i);
    match parse_element_at(s, i) {
        None => {},
        Some((pv, j)) => {
            lemma_parse_element_wf(s, i);
            let l = linebreak_len(s, j);
            if l >= 1 && i <= j && j + l <= s.len() {
                lemma_parse_doc_wf(s, j + l);
                let rest = parse_document_at(s, j + l).0;
                let whole = parse_document_at(s, i).0;
                assert(whole == seq![pv] + rest);
                assert forall|k: int| 0 <= k < whole.len() implies wf_part(
                    #[trigger] whole[k],
                ) by {
                    if k == 0 {
                        assert(whole[k] == pv);
                    } else {
                        assert(whole[k] == rest[k - 1]);
                    }
                }
            } else {
                let whole = parse_document_at(s, i).0;
                assert(whole == seq![pv]);
                assert(forall|k: int| 0 <= k < whole.len() ==> #[trigger] whole[k] == pv);
            }
        },
    }
}

/// One step of the document round trip: the first line parses to the first
/// part, one newline separates it, and the rest of the text renders the rest
/// of the parts.
#[verifier::rlimit(100)]
proof fn lemma_render_parse_step(s: Seq<char>, ps: Seq<PartView>, i: int)
    requires
        0 <= i <= s.len(),
        ps.len() >= 1,
        forall|k: int| 0 <= k < ps.len() ==> wf_part(#[trigger] ps[k]),
        s.subrange(i, s.len() as int) == render_parts(ps),
    ensures
        ({
            let lb = i + render_part(ps[0]).len();
            &&& lb + 1 <= s.len()
            &&& parse_element_at(s, i) == Some((ps[0], lb))
            &&& linebreak_len(s, lb) == 1
            &&& s.subrange(lb + 1, s.len() as int) == render_parts(ps.drop_first())
        }),
{
    let line = render_part(ps[0]);
    let lb = i + line.len();
    let whole = render_parts(ps);
    let rest_text = render_parts(ps.drop_first());
    assert(whole == line + seq!['\n'] + rest_text);
    assert forall|x: int| 0 <= x < whole.len() implies s[i + x] == #[trigger] whole[x] by {
        assert(whole[x] == s.subrange(i, s.len() as int)[x]);
    }
    assert forall|x: int| 0 <= x < line.len() implies s.subrange(i, lb)[x] == line[x] by {
        assert(s[i + x] == whole[x]);
        assert(whole[x] == line[x]);
    }
    assert(s.subrange(i, lb) =~= line);
    assert(s[lb] == '\n') by {
        assert(s[i + line.len()] == whole[line.len() as int]);
    }
    lemma_element_round_trip(s, i, ps[0]);
    // The separator is exactly one newline: the next line never begins with
    // a carriage return.
    assert(linebreak_len(s, lb) == 1) by {
        if lb + 1 < s.len() {
            assert(s[lb + 1] == whole[line.len() as int + 1]);
            assert(whole[line.len() as int + 1] == rest_text[0]);
            if ps.len() >= 2 {
                assert(rest_text == render_part(ps.drop_first()[0]) + seq!['\n'] + render_parts(
                    ps.drop_first().drop_first(),
                ));
                assert(wf_part(ps.drop_first()[0])) by {
                    assert(ps.drop_first()[0] == ps[1]);
                }
                lemma_render_first_char(ps.drop_first()[0]);
                if render_part(ps.drop_first()[0]).len() > 0 {
                    assert(rest_text[0] == render_part(ps.drop_first()[0])[0]);
                } else {
                    assert(rest_text[0] == '\n');
                }
            } else {
                assert(rest_text =~= Seq::<char>::empty());
                assert(false);
            }
        }
    }
    assert forall|x: int| 0 <= x < rest_text.len() implies s.subrange(lb + 1, s.len() as int)[x]
        == rest_text[x] by {
        assert(s[i + (line.len() + 1 + x)] == whole[line.len() as int + 1 + x]);
        assert(whole[line.len() as int + 1 + x] == rest_text[x]);
    }
    assert(s.subrange(lb + 1, s.len() as int) =~= rest_text);
}

/// Parsing the rendering of well-formed parts reads them all back, plus the
/// final blank line that the trailing newline produces.
proof fn lemma_render_parse_doc(s: Seq<char>, ps: Seq<PartView>, i: int)
    requires
        0 <= i <= s.len(),
        forall|k: int| 0 <= k < ps.len() ==> wf_part(#[trigger] ps[k]),
        s.subrange(i, s.len() as int) == render_parts(ps),
    ensures
        parse_document_at(s, i) == (
            ps.push(PartView::Empty { text: Seq::empty() }),
            s.len() as int,
        ),
    decreases ps.len(),
{
    if ps.len() == 0 {
        assert(i == s.len());
        assert(space_run_len(s, i) == 0);
        assert(ip_run_len(s, i) == 0);
        assert(parse_commented_entry_at(s, i) is None);
        assert(parse_comment_at(s, i) is None);
        assert(parse_entry_at(s, i) is None);
        assert(s.subrange(i, i) =~= Seq::<char>::empty());
        assert(parse_empty_at(s, i) == Some((Seq::<char>::empty(), i)));
        assert(linebreak_len(s, i) == 0);
        assert(parse_document_at(s, i) == (
            seq![PartView::Empty { text: Seq::empty() }],
            s.len() as int,
        ));
        assert(seq![PartView::Empty { text: Seq::empty() }] =~= Seq::<PartView>::empty().push(
            PartView::Empty { text: Seq::empty() },
        ));
    } else {
        lemma_render_parse_step(s, ps, i);
        let lb = i + render_part(ps[0]).len();
        assert forall|k: int| 0 <= k < ps.drop_first().len() implies wf_part(
            #[trigger] ps.drop_first()[k],
        ) by {
            assert(ps.drop_first()[k] == ps[k + 1]);
        }
        lemma_render_parse_doc(s, ps.drop_first(), lb + 1);
        assert(parse_document_at(s, i) == (
            seq![ps[0]] + parse_document_at(s, lb + 1).0,
            s.len() as int,
        ));
        assert(seq![ps[0]] + ps.drop_first().push(PartView::Empty { text: Seq::empty() })
            =~= ps.push(PartView::Empty { text: Seq::empty() }));
    }
}

/// Trimming drops a final blank part.
proof fn lemma_trim_of_push_empty(ps: Seq<PartView>)
    ensures
        crate::engine::spec_trim(ps.push(PartView::Empty { text: Seq::empty() }))
            == crate::engine::spec_trim(ps),
{
    let e = PartView::Empty { text: Seq::empty() };
    assert(ps.push(e).last() == e);
    assert(ps.push(e).drop_last() =~= ps);
}

/// Trimming keeps well-formed parts well formed and is idempotent.
proof fn lemma_trim_wf(ps: Seq<PartView>)
    requires
        forall|k: int| 0 <= k < ps.len() ==> wf_part(#[trigger] ps[k]),
    ensures
        forall|k: int|
            0 <= k < crate::engine::spec_trim(ps).len() ==> wf_part(
                #[trigger] crate::engine::spec_trim(ps)[k],
            ),
        crate::engine::spec_trim(crate::engine::spec_trim(ps)) == crate::engine::spec_trim(ps),
    decreases ps.len(),
{
    if ps.len() > 0 && ps.last().spec_is_empty() {
        assert forall|k: int| 0 <= k < ps.drop_last().len() implies wf_part(
            #[trigger] ps.drop_last()[k],
        ) by {
            assert(ps.drop_last()[k] == ps[k]);
        }
        lemma_trim_wf(ps.drop_last());
    }
}

/// Round-trip law, render side: rendering any well-formed part sequence and
/// parsing the text back yields the same parts, with one final blank part
/// from the trailing newline.
pub proof fn lemma_render_round_trip(ps: Seq<PartView>)
    requires
        forall|k: int| 0 <= k < ps.len() ==> wf_part(#[trigger] ps[k]),
    ensures
        parse_document(render_parts(ps)) == Some(
            ps.push(PartView::Empty { text: Seq::empty() }),
        ),
{
    let s = render_parts(ps);
    assert(s.subrange(0, s.len() as int) =~= s);
    lemma_render_parse_doc(s, ps, 0);
}

/// Round-trip law: parsing the output of rendering an already-parsed,
/// trimmed sequence yields a sequence that trims back to the original.
pub proof fn lemma_parse_render_round_trip(text: Seq<char>)
    requires
        parse_document(text) is Some,
    ensures
        ({
            let ps = crate::engine::spec_trim(parse_document(text)->Some_0);
            &&& parse_document(render_parts(ps)) == Some(
                ps.push(PartView::Empty { text: Seq::empty() }),
            )
            &&& crate::engine::spec_trim(parse_document(render_parts(ps))->Some_0) == ps
        }),
{
    let ps0 = parse_document(text)->Some_0;
    lemma_parse_doc_wf(text, 0);
    lemma_trim_wf(ps0);
    let ps = crate::engine::spec_trim(ps0);
    lemma_render_round_trip(ps);
    lemma_trim_of_push_empty(ps);
}

} // verus!
