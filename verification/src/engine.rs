//! The mutation engine: applies a batch of actions to the part sequence, in
//! order, stopping at the first violation. Every action first passes the
//! whitelist gate. The engine also owns the whitespace clean-up passes: the
//! trailing-empty trim and the compaction of runs of blank lines.
use vstd::prelude::*;

use crate::config::HostsmodConfig;
use crate::errors::HostsError;
use crate::ip::{HostsPartFamily, IpAddress};
use crate::opts::{action_views, Action, ActionView, HostsArgs};
use crate::parse::{opt_view, part_views, str_views, HostsPart, PartView};

verus! {

// ---------------------------------------------------------------------------
// The engine's model
// ---------------------------------------------------------------------------

/// The model of an engine failure.
pub enum ActionError {
    /// The action's hostname is not whitelisted.
    NotWhitelisted(Seq<char>),
    /// The define would give the hostname two addresses of one family.
    DuplicateFamily(Seq<char>, HostsPartFamily),
}

/// The model of the engine failures among the run's errors.
pub open spec fn action_err_of(e: HostsError) -> ActionError {
    match e {
        HostsError::NotWhitelisted(h) => ActionError::NotWhitelisted(h@),
        HostsError::DuplicateFamily(h, f) => ActionError::DuplicateFamily(h@, f),
        _ => ActionError::NotWhitelisted(Seq::empty()),
    }
}

/// A fresh entry holding exactly one hostname and no comment.
pub open spec fn new_entry(ip: IpAddress, h: Seq<char>) -> PartView {
    PartView::Entry { ip, hosts: seq![h], comment: None }
}

/// The hostnames of a list without the given one.
pub open spec fn hosts_without(hs: Seq<Seq<char>>, h: Seq<char>) -> Seq<Seq<char>>
    decreases hs.len(),
{
    if hs.len() == 0 {
        Seq::empty()
    } else {
        (if hs[0] == h {
            Seq::empty()
        } else {
            seq![hs[0]]
        }) + hosts_without(hs.drop_first(), h)
    }
}

/// What removal leaves of one part: an active entry loses the hostname, and
/// disappears when no hostname is left; everything else stays.
pub open spec fn remove_host_from_part(p: PartView, h: Seq<char>) -> Seq<PartView> {
    match p {
        PartView::Entry { ip, hosts, comment } => {
            if hosts.contains(h) {
                let remaining = hosts_without(hosts, h);
                if remaining.len() == 0 {
                    Seq::empty()
                } else {
                    seq![PartView::Entry { ip, hosts: remaining, comment }]
                }
            } else {
                seq![p]
            }
        },
        _ => seq![p],
    }
}

/// Removal applied across the sequence. Commented-out entries are not
/// touched.
pub open spec fn apply_remove(ps: Seq<PartView>, h: Seq<char>) -> Seq<PartView>
    decreases ps.len(),
{
    if ps.len() == 0 {
        Seq::empty()
    } else {
        remove_host_from_part(ps[0], h) + apply_remove(ps.drop_first(), h)
    }
}

/// Whether a part matches the address or the hostname of a define.
pub open spec fn matches_either(p: PartView, ip: IpAddress, h: Seq<char>) -> bool {
    p.spec_matches_ip(ip) || p.spec_matches_hostname(h)
}

/// One past the last part matching the address or hostname; zero when none
/// matches.
pub open spec fn last_match_end(ps: Seq<PartView>, ip: IpAddress, h: Seq<char>) -> int
    decreases ps.len(),
{
    if ps.len() == 0 {
        0
    } else if matches_either(ps.last(), ip, h) {
        ps.len() as int
    } else {
        last_match_end(ps.drop_last(), ip, h)
    }
}

/// Where a define inserts its new entry: right after the last part matching
/// the address or hostname, or at the end when none matches.
pub open spec fn define_insert_pos(ps: Seq<PartView>, ip: IpAddress, h: Seq<char>) -> int {
    if exists|i: int| 0 <= i < ps.len() && matches_either(#[trigger] ps[i], ip, h) {
        last_match_end(ps, ip, h)
    } else {
        ps.len() as int
    }
}

/// The additive define. A part matching both address and hostname makes it
/// a no-op; a part carrying the hostname under another address of the same
/// family is a fatal conflict; otherwise a fresh entry is inserted after the
/// last related part.
pub open spec fn apply_define(ps: Seq<PartView>, ip: IpAddress, h: Seq<char>) -> Result<
    Seq<PartView>,
    ActionError,
> {
    if exists|i: int|
        0 <= i < ps.len() && (#[trigger] ps[i]).spec_matches_ip(ip) && ps[i].spec_matches_hostname(
            h,
        ) {
        Ok(ps)
    } else if exists|i: int|
        0 <= i < ps.len() && (#[trigger] ps[i]).spec_matches_hostname(h) && ps[i].spec_family()
            == Some(ip.spec_family()) {
        Err(ActionError::DuplicateFamily(h, ip.spec_family()))
    } else {
        Ok(ps.insert(define_insert_pos(ps, ip, h), new_entry(ip, h)))
    }
}

/// Index of the first part whose hostnames contain the given one; the length
/// when none does.
pub open spec fn first_hostname_match(ps: Seq<PartView>, h: Seq<char>) -> int
    decreases ps.len(),
{
    if ps.len() == 0 {
        0
    } else if ps[0].spec_matches_hostname(h) {
        0
    } else {
        1 + first_hostname_match(ps.drop_first(), h)
    }
}

/// The parts of a sequence whose hostnames do not contain the given one.
pub open spec fn parts_not_matching(ps: Seq<PartView>, h: Seq<char>) -> Seq<PartView>
    decreases ps.len(),
{
    if ps.len() == 0 {
        Seq::empty()
    } else {
        (if ps[0].spec_matches_hostname(h) {
            Seq::empty()
        } else {
            seq![ps[0]]
        }) + parts_not_matching(ps.drop_first(), h)
    }
}

/// The exclusive define: every part carrying the hostname is removed, and a
/// fresh entry is inserted at the position of the first of them, or at the
/// end when there was none.
pub open spec fn apply_define_exclusive(ps: Seq<PartView>, ip: IpAddress, h: Seq<char>) -> Seq<
    PartView,
> {
    let fm = first_hostname_match(ps, h);
    ps.take(fm) + seq![new_entry(ip, h)] + parts_not_matching(ps.skip(fm), h)
}

/// One action against the sequence, after the whitelist gate.
pub open spec fn apply_action(ps: Seq<PartView>, a: ActionView, wl: Seq<Seq<char>>) -> Result<
    Seq<PartView>,
    ActionError,
> {
    match a {
        ActionView::Remove(h) => if !wl.contains(h) {
            Err(ActionError::NotWhitelisted(h))
        } else {
            Ok(apply_remove(ps, h))
        },
        ActionView::Define(ip, h) => if !wl.contains(h) {
            Err(ActionError::NotWhitelisted(h))
        } else {
            apply_define(ps, ip, h)
        },
        ActionView::DefineExclusive(ip, h) => if !wl.contains(h) {
            Err(ActionError::NotWhitelisted(h))
        } else {
            Ok(apply_define_exclusive(ps, ip, h))
        },
    }
}

/// The whole batch, applied in order. On a failure the sequence keeps the
/// state the earlier actions left it in; nothing is rolled back, and nothing
/// is persisted by the caller.
pub open spec fn run_actions(ps: Seq<PartView>, acts: Seq<ActionView>, wl: Seq<Seq<char>>) -> (
    Seq<PartView>,
    Option<ActionError>,
)
    decreases acts.len(),
{
    if acts.len() == 0 {
        (ps, None)
    } else {
        match apply_action(ps, acts[0], wl) {
            Ok(ps2) => run_actions(ps2, acts.drop_first(), wl),
            Err(e) => (ps, Some(e)),
        }
    }
}

// ---------------------------------------------------------------------------
// The executable engine
// ---------------------------------------------------------------------------

fn exec_hosts_without(hosts: &Vec<String>, h: &String) -> (r: Vec<String>)
    ensures
        str_views(r@) == hosts_without(str_views(hosts@), h@),
{
    let ghost full = str_views(hosts@);
    let mut r: Vec<String> = Vec::new();
    let mut k: usize = 0;
    proof {
        assert(full.skip(0) =~= full);
        assert(str_views(r@) + hosts_without(full.skip(0), h@) =~= hosts_without(full, h@));
    }
    while k < hosts.len()
        invariant
            0 <= k <= hosts@.len(),
            full == str_views(hosts@),
            hosts_without(full, h@) == str_views(r@) + hosts_without(full.skip(k as int), h@),
        decreases hosts@.len() - k,
    {
        let ghost before = r@;
        let ghost tail = full.skip(k as int);
        if !hosts[k].eq(h) {
            r.push(hosts[k].clone());
            proof {
                assert(str_views(r@) =~= str_views(before).push(full[k as int]));
            }
        }
        proof {
            assert(tail[0] == full[k as int]);
            assert(tail.drop_first() =~= full.skip(k + 1 as int));
            assert(str_views(r@) + hosts_without(full.skip(k + 1 as int), h@) =~= str_views(before)
                + hosts_without(tail, h@));
        }
        k = k + 1;
    }
    proof {
        assert(full.skip(hosts@.len() as int) =~= Seq::<Seq<char>>::empty());
        assert(str_views(r@) + hosts_without(full.skip(hosts@.len() as int), h@) =~= str_views(r@));
    }
    r
}

fn exec_apply_remove(hosts: &mut Vec<HostsPart>, h: &String)
    ensures
        part_views(final(hosts)@) == apply_remove(part_views(old(hosts)@), h@),
{
    let ghost full = part_views(old(hosts)@);
    let mut r: Vec<HostsPart> = Vec::new();
    let mut k: usize = 0;
    proof {
        assert(full.skip(0) =~= full);
        assert(part_views(r@) + apply_remove(full.skip(0), h@) =~= apply_remove(full, h@));
    }
    while k < hosts.len()
        invariant
            0 <= k <= hosts@.len(),
            full == part_views(hosts@),
            apply_remove(full, h@) == part_views(r@) + apply_remove(full.skip(k as int), h@),
        decreases hosts@.len() - k,
    {
        let ghost before = r@;
        let ghost tail = full.skip(k as int);
        match &hosts[k] {
            HostsPart::Entry(ip, entry_hosts, comment) => {
                if crate::parse::contains_hostname(entry_hosts, h.as_str()) {
                    let remaining = exec_hosts_without(entry_hosts, h);
                    if remaining.len() > 0 {
                        r.push(HostsPart::Entry(*ip, remaining, crate::parse::clone_opt_string(comment)));
                        proof {
                            assert(part_views(r@) =~= part_views(before).push(
                                remove_host_from_part(full[k as int], h@)[0],
                            ));
                        }
                    } else {
                        proof {
                            assert(remove_host_from_part(full[k as int], h@) =~= Seq::<
                                PartView,
                            >::empty());
                        }
                    }
                } else {
                    r.push(hosts[k].clone());
                    proof {
                        assert(part_views(r@) =~= part_views(before).push(full[k as int]));
                    }
                }
            },
            _ => {
                r.push(hosts[k].clone());
                proof {
                    assert(part_views(r@) =~= part_views(before).push(full[k as int]));
                }
            },
        }
        proof {
            assert(tail[0] == full[k as int]);
            assert(tail.drop_first() =~= full.skip(k + 1 as int));
            assert(part_views(r@) + apply_remove(full.skip(k + 1 as int), h@) =~= part_views(before)
                + apply_remove(tail, h@));
        }
        k = k + 1;
    }
    proof {
        assert(full.skip(hosts@.len() as int) =~= Seq::<PartView>::empty());
        assert(part_views(r@) + apply_remove(full.skip(hosts@.len() as int), h@) =~= part_views(
            r@,
        ));
    }
    *hosts = r;
}

/// The recursive insert position agrees with the greatest matching index.
pub proof fn lemma_last_match_end(ps: Seq<PartView>, ip: IpAddress, h: Seq<char>)
    ensures
        (exists|i: int| 0 <= i < ps.len() && matches_either(#[trigger] ps[i], ip, h)) ==> {
            let e = last_match_end(ps, ip, h);
            0 < e <= ps.len() && matches_either(ps[e - 1], ip, h) && forall|j: int|
                e <= j < ps.len() ==> !matches_either(#[trigger] ps[j], ip, h)
        },
        !(exists|i: int| 0 <= i < ps.len() && matches_either(#[trigger] ps[i], ip, h))
            ==> last_match_end(ps, ip, h) == 0,
    decreases ps.len(),
{
    if ps.len() > 0 {
        if matches_either(ps.last(), ip, h) {
        } else {
            lemma_last_match_end(ps.drop_last(), ip, h);
            assert(forall|i: int| 0 <= i < ps.len() - 1 ==> ps.drop_last()[i] == ps[i]);
            if exists|i: int| 0 <= i < ps.len() && matches_either(#[trigger] ps[i], ip, h) {
                let i = choose|i: int| 0 <= i < ps.len() && matches_either(#[trigger] ps[i], ip, h);
                assert(i < ps.len() - 1);
                assert(matches_either(ps.drop_last()[i], ip, h));
            }
        }
    }
}

fn exec_apply_define(hosts: &mut Vec<HostsPart>, ip: &IpAddress, h: &String) -> (r: Result<
    (),
    HostsError,
>)
    ensures
        r is Ok ==> apply_define(part_views(old(hosts)@), *ip, h@) == Ok::<
            Seq<PartView>,
            ActionError,
        >(part_views(final(hosts)@)),
        r is Err ==> apply_define(part_views(old(hosts)@), *ip, h@) == Err::<
            Seq<PartView>,
            ActionError,
        >(action_err_of(r->Err_0)) && final(hosts)@ == old(hosts)@ && r->Err_0 is DuplicateFamily,
{
    let ghost full = part_views(old(hosts)@);
    let n = hosts.len();
    // First pass: an exact match makes the whole action a no-op.
    let mut k: usize = 0;
    while k < n
        invariant
            0 <= k <= n,
            n == hosts@.len(),
            full == part_views(hosts@),
            forall|j: int|
                0 <= j < k ==> !((#[trigger] full[j]).spec_matches_ip(*ip)
                    && full[j].spec_matches_hostname(h@)),
        decreases n - k,
    {
        if hosts[k].matches_ip(ip) && hosts[k].matches_hostname(h.as_str()) {
            proof {
                assert((#[trigger] full[k as int]).spec_matches_ip(*ip)
                    && full[k as int].spec_matches_hostname(h@));
            }
            return Ok(());
        }
        k = k + 1;
    }
    // Second pass: a same-family mapping of the hostname elsewhere is fatal.
    let fam = ip.family();
    let mut k2: usize = 0;
    while k2 < n
        invariant
            0 <= k2 <= n,
            n == hosts@.len(),
            full == part_views(hosts@),
            fam == ip.spec_family(),
            forall|j: int|
                0 <= j < n ==> !((#[trigger] full[j]).spec_matches_ip(*ip)
                    && full[j].spec_matches_hostname(h@)),
            forall|j: int|
                0 <= j < k2 ==> !((#[trigger] full[j]).spec_matches_hostname(h@) && full[j].spec_family()
                    == Some(ip.spec_family())),
        decreases n - k2,
    {
        if hosts[k2].matches_hostname(h.as_str()) {
            match hosts[k2].get_family() {
                Some(f) => {
                    if f == fam {
                        proof {
                            assert((#[trigger] full[k2 as int]).spec_matches_hostname(h@)
                                && full[k2 as int].spec_family() == Some(ip.spec_family()));
                            assert(!(exists|i: int|
                                0 <= i < full.len() && (#[trigger] full[i]).spec_matches_ip(*ip)
                                    && full[i].spec_matches_hostname(h@)));
                        }
                        return Err(HostsError::DuplicateFamily(h.clone(), fam));
                    }
                },
                None => {},
            }
        }
        k2 = k2 + 1;
    }
    // Third pass: find the insert position, one past the last related part.
    proof {
        lemma_last_match_end(full, *ip, h@);
    }
    let mut pos: usize = n;
    let mut any: bool = false;
    let mut k3: usize = 0;
    while k3 < n
        invariant
            0 <= k3 <= n,
            n == hosts@.len(),
            full == part_views(hosts@),
            !any ==> pos == n && forall|j: int|
                0 <= j < k3 ==> !matches_either(#[trigger] full[j], *ip, h@),
            any ==> 0 < pos <= k3 && matches_either(full[pos - 1], *ip, h@) && forall|j: int|
                pos <= j < k3 ==> !matches_either(#[trigger] full[j], *ip, h@),
        decreases n - k3,
    {
        if hosts[k3].matches_ip(ip) || hosts[k3].matches_hostname(h.as_str()) {
            pos = k3 + 1;
            any = true;
        }
        k3 = k3 + 1;
    }
    proof {
        if any {
            assert(matches_either(full[pos - 1], *ip, h@));
            assert(pos as int == define_insert_pos(full, *ip, h@));
        } else {
            assert(forall|j: int| 0 <= j < n ==> !matches_either(#[trigger] full[j], *ip, h@));
            assert(pos as int == define_insert_pos(full, *ip, h@));
        }
    }
    let mut single: Vec<String> = Vec::new();
    single.push(h.clone());
    hosts.insert(pos, HostsPart::Entry(*ip, single, None));
    proof {
        assert(str_views(seq![*h]) =~= seq![h@]);
        assert(part_views(hosts@) =~= full.insert(pos as int, new_entry(*ip, h@)));
    }
    Ok(())
}

fn exec_apply_define_exclusive(hosts: &mut Vec<HostsPart>, ip: &IpAddress, h: &String)
    ensures
        part_views(final(hosts)@) == apply_define_exclusive(part_views(old(hosts)@), *ip, h@),
{
    let ghost full = part_views(old(hosts)@);
    let n = hosts.len();
    // Find the first part carrying the hostname.
    let mut fm: usize = 0;
    while fm < n && !hosts[fm].matches_hostname(h.as_str())
        invariant
            0 <= fm <= n,
            n == hosts@.len(),
            full == part_views(hosts@),
            forall|j: int| 0 <= j < fm ==> !(#[trigger] full[j]).spec_matches_hostname(h@),
        decreases n - fm,
    {
        fm = fm + 1;
    }
    proof {
        lemma_first_match_whole(full, fm as int, h@);
    }
    // Keep the prefix, insert the fresh entry, and keep the non-matching
    // parts of the rest.
    let mut r: Vec<HostsPart> = Vec::new();
    let mut k: usize = 0;
    while k < fm
        invariant
            0 <= k <= fm <= n,
            n == hosts@.len(),
            full == part_views(hosts@),
            part_views(r@) == full.take(k as int),
        decreases fm - k,
    {
        let ghost before = r@;
        r.push(hosts[k].clone());
        proof {
            assert(part_views(r@) =~= part_views(before).push(full[k as int]));
            assert(part_views(r@) =~= full.take(k + 1 as int));
        }
        k = k + 1;
    }
    let mut single: Vec<String> = Vec::new();
    single.push(h.clone());
    r.push(HostsPart::Entry(*ip, single, None));
    proof {
        assert(str_views(seq![*h]) =~= seq![h@]);
        assert(part_views(r@) =~= full.take(fm as int) + seq![new_entry(*ip, h@)]);
    }
    let ghost mid = part_views(r@);
    let ghost rest = full.skip(fm as int);
    let mut k2: usize = fm;
    proof {
        assert(rest.skip(0) =~= rest);
        assert(mid + parts_not_matching(rest.skip(0), h@) =~= mid + parts_not_matching(rest, h@));
    }
    while k2 < n
        invariant
            fm <= k2 <= n,
            n == hosts@.len(),
            full == part_views(hosts@),
            rest == full.skip(fm as int),
            mid + parts_not_matching(rest, h@) == part_views(r@) + parts_not_matching(
                rest.skip(k2 - fm as int),
                h@,
            ),
        decreases n - k2,
    {
        let ghost before = r@;
        let ghost tail = rest.skip(k2 - fm as int);
        if !hosts[k2].matches_hostname(h.as_str()) {
            r.push(hosts[k2].clone());
            proof {
                assert(part_views(r@) =~= part_views(before).push(full[k2 as int]));
            }
        }
        proof {
            assert(tail[0] == full[k2 as int]);
            assert(tail.drop_first() =~= rest.skip(k2 + 1 - fm as int));
            assert(part_views(r@) + parts_not_matching(rest.skip(k2 + 1 - fm as int), h@)
                =~= part_views(before) + parts_not_matching(tail, h@));
        }
        k2 = k2 + 1;
    }
    proof {
        assert(rest.skip(n - fm as int) =~= Seq::<PartView>::empty());
        assert(part_views(r@) + parts_not_matching(rest.skip(n - fm as int), h@) =~= part_views(
            r@,
        ));
        assert(part_views(r@) =~= apply_define_exclusive(full, *ip, h@));
    }
    *hosts = r;
}

proof fn lemma_first_match_whole(full: Seq<PartView>, fm: int, h: Seq<char>)
    requires
        0 <= fm <= full.len(),
        forall|j: int| 0 <= j < fm ==> !(#[trigger] full[j]).spec_matches_hostname(h),
        fm < full.len() ==> full[fm].spec_matches_hostname(h),
    ensures
        first_hostname_match(full, h) == fm,
    decreases fm,
{
    if fm == 0 {
        if full.len() > 0 {
        }
    } else {
        assert(!full[0].spec_matches_hostname(h));
        assert(first_hostname_match(full, h) == 1 + first_hostname_match(full.drop_first(), h));
        let rest = full.drop_first();
        assert(forall|j: int|
            0 <= j < fm - 1 ==> !(#[trigger] rest[j]).spec_matches_hostname(h));
        assert(fm - 1 < rest.len() ==> rest[fm - 1] == full[fm]);
        lemma_first_match_whole(rest, fm - 1, h);
    }
}

/// Applies the batch of requested actions to the part sequence, in order,
/// stopping at the first whitelist or duplicate-family violation. On an
/// error the sequence keeps the state the earlier actions produced; the
/// caller persists nothing.
pub fn perform_actions(opts: &mut HostsArgs, hosts: &mut Vec<HostsPart>, config: &HostsmodConfig) -> (r:
    Result<(), HostsError>)
    ensures
        ({
            let run = run_actions(
                part_views(old(hosts)@),
                action_views(old(opts).actions@),
                str_views(config.whitelist@),
            );
            &&& part_views(final(hosts)@) == run.0
            &&& (r is Ok <==> run.1 is None)
            &&& (r is Err ==> run.1 == Some(action_err_of(r->Err_0)) && (r->Err_0 is NotWhitelisted
                || r->Err_0 is DuplicateFamily))
        }),
        final(opts).dry_run == old(opts).dry_run,
        final(opts).verbose == old(opts).verbose,
        final(opts).generate_sample_config == old(opts).generate_sample_config,
        final(opts).actions@ == old(opts).actions@,
{
    let ghost orig = part_views(old(hosts)@);
    let ghost allacts = action_views(old(opts).actions@);
    let ghost wl = str_views(config.whitelist@);
    let n = opts.actions.len();
    let mut k: usize = 0;
    proof {
        assert(allacts.skip(0) =~= allacts);
    }
    while k < n
        invariant
            0 <= k <= n,
            n == opts.actions@.len(),
            orig == part_views(old(hosts)@),
            allacts == action_views(opts.actions@),
            wl == str_views(config.whitelist@),
            run_actions(orig, allacts, wl) == run_actions(
                part_views(hosts@),
                allacts.skip(k as int),
                wl,
            ),
            opts.dry_run == old(opts).dry_run,
            opts.verbose == old(opts).verbose,
            opts.generate_sample_config == old(opts).generate_sample_config,
            opts.actions@ == old(opts).actions@,
        decreases n - k,
    {
        let ghost tail = allacts.skip(k as int);
        let ghost cur = part_views(hosts@);
        proof {
            assert(tail[0] == allacts[k as int]);
            assert(allacts[k as int] == opts.actions@[k as int]@);
            assert(tail.drop_first() =~= allacts.skip(k + 1 as int));
        }
        match &opts.actions[k] {
            Action::Remove(h) => {
                if !config.is_whitelisted(h.as_str()) {
                    proof {
                        assert(apply_action(cur, tail[0], wl) == Err::<Seq<PartView>, ActionError>(
                            ActionError::NotWhitelisted(h@),
                        ));
                        assert(run_actions(cur, tail, wl) == (
                            cur,
                            Some(ActionError::NotWhitelisted(h@)),
                        ));
                        assert(run_actions(orig, allacts, wl) == (
                            cur,
                            Some(ActionError::NotWhitelisted(h@)),
                        ));
                    }
                    let hc = h.clone();
                    proof {
                        assert(hc@ == h@);
                        assert(action_err_of(HostsError::NotWhitelisted(hc))
                            == ActionError::NotWhitelisted(h@));
                    }
                    return Err(HostsError::NotWhitelisted(hc));
                }
                exec_apply_remove(hosts, h);
                proof {
                    assert(apply_action(cur, tail[0], wl) == Ok::<Seq<PartView>, ActionError>(
                        part_views(hosts@),
                    ));
                }
            },
            Action::Define(ip, h) => {
                if !config.is_whitelisted(h.as_str()) {
                    proof {
                        assert(apply_action(cur, tail[0], wl) == Err::<Seq<PartView>, ActionError>(
                            ActionError::NotWhitelisted(h@),
                        ));
                        assert(run_actions(cur, tail, wl) == (
                            cur,
                            Some(ActionError::NotWhitelisted(h@)),
                        ));
                        assert(run_actions(orig, allacts, wl) == (
                            cur,
                            Some(ActionError::NotWhitelisted(h@)),
                        ));
                    }
                    let hc = h.clone();
                    proof {
                        assert(hc@ == h@);
                        assert(action_err_of(HostsError::NotWhitelisted(hc))
                            == ActionError::NotWhitelisted(h@));
                    }
                    return Err(HostsError::NotWhitelisted(hc));
                }
                match exec_apply_define(hosts, ip, h) {
                    Ok(()) => {
                        proof {
                            assert(apply_action(cur, tail[0], wl) == Ok::<
                                Seq<PartView>,
                                ActionError,
                            >(part_views(hosts@)));
                        }
                    },
                    Err(e) => {
                        proof {
                            assert(apply_action(cur, tail[0], wl) == Err::<
                                Seq<PartView>,
                                ActionError,
                            >(action_err_of(e)));
                            assert(run_actions(cur, tail, wl) == (cur, Some(action_err_of(e))));
                        }
                        return Err(e);
                    },
                }
            },
            Action::DefineExclusive(ip, h) => {
                if !config.is_whitelisted(h.as_str()) {
                    proof {
                        assert(apply_action(cur, tail[0], wl) == Err::<Seq<PartView>, ActionError>(
                            ActionError::NotWhitelisted(h@),
                        ));
                        assert(run_actions(cur, tail, wl) == (
                            cur,
                            Some(ActionError::NotWhitelisted(h@)),
                        ));
                        assert(run_actions(orig, allacts, wl) == (
                            cur,
                            Some(ActionError::NotWhitelisted(h@)),
                        ));
                    }
                    let hc = h.clone();
                    proof {
                        assert(hc@ == h@);
                        assert(action_err_of(HostsError::NotWhitelisted(hc))
                            == ActionError::NotWhitelisted(h@));
                    }
                    return Err(HostsError::NotWhitelisted(hc));
                }
                exec_apply_define_exclusive(hosts, ip, h);
                proof {
                    assert(apply_action(cur, tail[0], wl) == Ok::<Seq<PartView>, ActionError>(
                        part_views(hosts@),
                    ));
                }
            },
        }
        k = k + 1;
    }
    proof {
        assert(allacts.skip(n as int) =~= Seq::<ActionView>::empty());
    }
    Ok(())
}

// ---------------------------------------------------------------------------
// Whitespace clean-up
// ---------------------------------------------------------------------------

/// The sequence with its trailing blank parts dropped.
pub open spec fn spec_trim(ps: Seq<PartView>) -> Seq<PartView>
    decreases ps.len(),
{
    if ps.len() > 0 && ps.last().spec_is_empty() {
        spec_trim(ps.drop_last())
    } else {
        ps
    }
}

/// Drops the trailing blank parts.
pub fn trim_hosts_parts(hosts: &mut Vec<HostsPart>)
    ensures
        part_views(final(hosts)@) == spec_trim(part_views(old(hosts)@)),
{
    let ghost full = part_views(old(hosts)@);
    let mut n = hosts.len();
    proof {
        assert(full.take(hosts@.len() as int) =~= full);
    }
    while n > 0 && hosts[n - 1].is_empty()
        invariant
            0 <= n <= hosts@.len(),
            full == part_views(hosts@),
            spec_trim(full) == spec_trim(full.take(n as int)),
        decreases n,
    {
        proof {
            let pre = full.take(n as int);
            assert(pre.last() == full[n - 1]);
            assert(pre.drop_last() =~= full.take(n - 1 as int));
        }
        n = n - 1;
    }
    proof {
        let pre = full.take(n as int);
        if n > 0 {
            assert(pre.last() == full[n - 1]);
        }
        assert(spec_trim(pre) == pre);
    }
    hosts.truncate(n);
    proof {
        assert(part_views(hosts@) =~= part_views(old(hosts)@.subrange(0, n as int)));
        assert(part_views(old(hosts)@.subrange(0, n as int)) =~= full.take(n as int));
    }
}

/// The sequence with every run of blank parts reduced to its first one.
pub open spec fn spec_compact(ps: Seq<PartView>, prev_empty: bool) -> Seq<PartView>
    decreases ps.len(),
{
    if ps.len() == 0 {
        Seq::empty()
    } else {
        (if ps[0].spec_is_empty() && prev_empty {
            Seq::empty()
        } else {
            seq![ps[0]]
        }) + spec_compact(ps.drop_first(), ps[0].spec_is_empty())
    }
}

/// Reduces every run of consecutive blank parts to its first one.
pub fn compact_empty_runs(hosts: &mut Vec<HostsPart>)
    ensures
        part_views(final(hosts)@) == spec_compact(part_views(old(hosts)@), false),
{
    let ghost full = part_views(old(hosts)@);
    let mut r: Vec<HostsPart> = Vec::new();
    let mut prev_empty: bool = false;
    let mut k: usize = 0;
    proof {
        assert(full.skip(0) =~= full);
        assert(part_views(r@) + spec_compact(full.skip(0), false) =~= spec_compact(full, false));
    }
    while k < hosts.len()
        invariant
            0 <= k <= hosts@.len(),
            full == part_views(hosts@),
            spec_compact(full, false) == part_views(r@) + spec_compact(
                full.skip(k as int),
                prev_empty,
            ),
        decreases hosts@.len() - k,
    {
        let ghost before = r@;
        let ghost tail = full.skip(k as int);
        let empty_here = hosts[k].is_empty();
        if !(empty_here && prev_empty) {
            r.push(hosts[k].clone());
            proof {
                assert(part_views(r@) =~= part_views(before).push(full[k as int]));
            }
        }
        proof {
            assert(tail[0] == full[k as int]);
            assert(tail.drop_first() =~= full.skip(k + 1 as int));
            assert(part_views(r@) + spec_compact(full.skip(k + 1 as int), full[k as int].spec_is_empty())
                =~= part_views(before) + spec_compact(tail, prev_empty));
        }
        prev_empty = empty_here;
        k = k + 1;
    }
    proof {
        assert(full.skip(hosts@.len() as int) =~= Seq::<PartView>::empty());
        assert(part_views(r@) + spec_compact(full.skip(hosts@.len() as int), prev_empty)
            =~= part_views(r@));
    }
    *hosts = r;
}

/// Whether two part sequences are structurally equal: the persistence
/// controller's no-op test.
pub fn hosts_parts_equal(a: &Vec<HostsPart>, b: &Vec<HostsPart>) -> (r: bool)
    ensures
        r == (part_views(a@) == part_views(b@)),
{
    if a.len() != b.len() {
        assert(part_views(a@).len() != part_views(b@).len());
        return false;
    }
    let n = a.len();
    let mut k: usize = 0;
    while k < n
        invariant
            0 <= k <= n,
            n == a@.len() == b@.len(),
            forall|j: int| 0 <= j < k ==> part_views(a@)[j] == part_views(b@)[j],
        decreases n - k,
    {
        if !(a[k].eq(&b[k])) {
            assert(part_views(a@)[k as int] != part_views(b@)[k as int]);
            return false;
        }
        k = k + 1;
    }
    proof {
        assert(part_views(a@) =~= part_views(b@));
    }
    true
}

} // verus!
