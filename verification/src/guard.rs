//! The invariant guard: before anything is rendered or written, the run
//! re-derives which protected mappings are present and refuses to proceed if
//! a protected line was altered or a protected mapping appeared or
//! disappeared. The whole guard is bypassed when the dangerous-operations
//! flag is set.
use vstd::prelude::*;

use crate::config::{entry_views, HostsEntry};
use crate::errors::HostsError;
use crate::ip::IpAddress;
use crate::parse::{part_views, HostsPart, PartView};

verus! {

/// Whether some part carries exactly this protected mapping.
pub open spec fn mapping_present(ps: Seq<PartView>, ip: IpAddress, h: Seq<char>) -> bool {
    exists|i: int|
        0 <= i < ps.len() && (#[trigger] ps[i]).spec_matches_ip(ip) && ps[i].spec_matches_hostname(
            h,
        )
}

/// One presence flag per protected mapping.
pub open spec fn presence_vector(ps: Seq<PartView>, table: Seq<(IpAddress, Seq<char>)>) -> Seq<
    bool,
> {
    Seq::new(table.len(), |k: int| mapping_present(ps, table[k].0, table[k].1))
}

/// No part carries a protected hostname under an address foreign to the
/// protected table: every part matching some protected hostname with a
/// different address is itself one of the protected mappings.
pub open spec fn untouched_ok(ps: Seq<PartView>, table: Seq<(IpAddress, Seq<char>)>) -> bool {
    forall|i: int, k: int|
        0 <= i < ps.len() && 0 <= k < table.len() && (#[trigger] ps[i]).spec_matches_hostname(
            (#[trigger] table[k]).1,
        ) && !ps[i].spec_matches_ip(table[k].0) ==> exists|j: int|
            0 <= j < table.len() && ps[i].spec_matches_ip((#[trigger] table[j]).0)
                && ps[i].spec_matches_hostname(table[j].1)
}

/// Computes the presence flag of each protected mapping.
pub fn protected_presence(parts: &Vec<HostsPart>, table: &Vec<HostsEntry>) -> (r: Vec<bool>)
    ensures
        r@ == presence_vector(part_views(parts@), entry_views(table@)),
{
    let ghost ps = part_views(parts@);
    let ghost tv = entry_views(table@);
    let mut r: Vec<bool> = Vec::new();
    let mut k: usize = 0;
    while k < table.len()
        invariant
            0 <= k <= table@.len(),
            ps == part_views(parts@),
            tv == entry_views(table@),
            r@.len() == k,
            forall|j: int| 0 <= j < k ==> r@[j] == mapping_present(ps, tv[j].0, tv[j].1),
        decreases table@.len() - k,
    {
        let mut found = false;
        let mut i: usize = 0;
        while i < parts.len()
            invariant
                0 <= i <= parts@.len(),
                0 <= k < table@.len(),
                ps == part_views(parts@),
                tv == entry_views(table@),
                found ==> mapping_present(ps, tv[k as int].0, tv[k as int].1),
                !found ==> forall|m: int|
                    0 <= m < i ==> !((#[trigger] ps[m]).spec_matches_ip(tv[k as int].0)
                        && ps[m].spec_matches_hostname(tv[k as int].1)),
            decreases parts@.len() - i,
        {
            if parts[i].matches_ip(&table[k].ip) && parts[i].matches_hostname(
                table[k].hostname.as_str(),
            ) {
                proof {
                    assert((#[trigger] ps[i as int]).spec_matches_ip(tv[k as int].0)
                        && ps[i as int].spec_matches_hostname(tv[k as int].1));
                }
                found = true;
            }
            i = i + 1;
        }
        proof {
            if !found {
                assert(!mapping_present(ps, tv[k as int].0, tv[k as int].1));
            }
        }
        r.push(found);
        k = k + 1;
    }
    proof {
        assert(r@ =~= presence_vector(ps, tv));
    }
    r
}

/// Checks that no part carries a protected hostname under an address that
/// the protected table does not itself pair with that part.
pub fn check_untouchable(parts: &Vec<HostsPart>, table: &Vec<HostsEntry>) -> (ok: bool)
    ensures
        ok == untouched_ok(part_views(parts@), entry_views(table@)),
{
    let ghost ps = part_views(parts@);
    let ghost tv = entry_views(table@);
    let mut i: usize = 0;
    while i < parts.len()
        invariant
            0 <= i <= parts@.len(),
            ps == part_views(parts@),
            tv == entry_views(table@),
            forall|a: int, k: int|
                0 <= a < i && 0 <= k < tv.len() && (#[trigger] ps[a]).spec_matches_hostname(
                    (#[trigger] tv[k]).1,
                ) && !ps[a].spec_matches_ip(tv[k].0) ==> exists|j: int|
                    0 <= j < tv.len() && ps[a].spec_matches_ip((#[trigger] tv[j]).0)
                        && ps[a].spec_matches_hostname(tv[j].1),
        decreases parts@.len() - i,
    {
        let mut k: usize = 0;
        while k < table.len()
            invariant
                0 <= k <= table@.len(),
                0 <= i < parts@.len(),
                ps == part_views(parts@),
                tv == entry_views(table@),
                forall|m: int|
                    0 <= m < k && (#[trigger] ps[i as int]).spec_matches_hostname(tv[m].1) && !ps[i as int].spec_matches_ip(
                        tv[m].0,
                    ) ==> exists|j: int|
                        0 <= j < tv.len() && ps[i as int].spec_matches_ip((#[trigger] tv[j]).0)
                            && ps[i as int].spec_matches_hostname(tv[j].1),
            decreases table@.len() - k,
        {
            if parts[i].matches_hostname(table[k].hostname.as_str()) && !parts[i].matches_ip(
                &table[k].ip,
            ) {
                // The pair must be explained by some protected entry.
                let mut explained = false;
                let mut j: usize = 0;
                while j < table.len()
                    invariant
                        0 <= j <= table@.len(),
                        0 <= i < parts@.len(),
                        ps == part_views(parts@),
                        tv == entry_views(table@),
                        explained ==> exists|x: int|
                            0 <= x < tv.len() && ps[i as int].spec_matches_ip(
                                (#[trigger] tv[x]).0,
                            ) && ps[i as int].spec_matches_hostname(tv[x].1),
                        !explained ==> forall|x: int|
                            0 <= x < j ==> !(ps[i as int].spec_matches_ip((#[trigger] tv[x]).0)
                                && ps[i as int].spec_matches_hostname(tv[x].1)),
                    decreases table@.len() - j,
                {
                    if parts[i].matches_ip(&table[j].ip) && parts[i].matches_hostname(
                        table[j].hostname.as_str(),
                    ) {
                        proof {
                            assert(ps[i as int].spec_matches_ip((#[trigger] tv[j as int]).0)
                                && ps[i as int].spec_matches_hostname(tv[j as int].1));
                        }
                        explained = true;
                    }
                    j = j + 1;
                }
                if !explained {
                    proof {
                        assert(ps[i as int].spec_matches_hostname(tv[k as int].1) && !ps[i as int].spec_matches_ip(
                            tv[k as int].0,
                        ));
                        assert(!untouched_ok(ps, tv));
                    }
                    return false;
                }
            }
            k = k + 1;
        }
        i = i + 1;
    }
    true
}

/// Whether two presence vectors agree.
fn presence_equal(a: &Vec<bool>, b: &Vec<bool>) -> (r: bool)
    ensures
        r == (a@ == b@),
{
    if a.len() != b.len() {
        return false;
    }
    let n = a.len();
    let mut k: usize = 0;
    while k < n
        invariant
            0 <= k <= n,
            n == a@.len() == b@.len(),
            forall|j: int| 0 <= j < k ==> a@[j] == b@[j],
        decreases n - k,
    {
        if a[k] != b[k] {
            return false;
        }
        k = k + 1;
    }
    proof {
        assert(a@ =~= b@);
    }
    true
}

/// The whole guard. With the dangerous-operations flag set it accepts
/// anything. Otherwise it refuses a sequence in which some part carries a
/// protected hostname under an unexplained address, and refuses a run over
/// which any protected mapping's presence changed.
pub fn verify_hosts_integrity(
    before: &Vec<HostsPart>,
    after: &Vec<HostsPart>,
    table: &Vec<HostsEntry>,
    dangerous: bool,
) -> (r: Result<(), HostsError>)
    ensures
        dangerous ==> r is Ok,
        !dangerous ==> (r is Ok <==> untouched_ok(part_views(after@), entry_views(table@))
            && presence_vector(part_views(before@), entry_views(table@)) == presence_vector(
            part_views(after@),
            entry_views(table@),
        )),
        !dangerous && r is Err ==> (r->Err_0 is UntouchableChanged <==> !untouched_ok(
            part_views(after@),
            entry_views(table@),
        )),
        !dangerous && r is Err ==> (r->Err_0 is UntouchableChanged
            || r->Err_0 is ProtectedMembershipChanged),
{
    if dangerous {
        return Ok(());
    }
    if !check_untouchable(after, table) {
        return Err(HostsError::UntouchableChanged);
    }
    let pre = protected_presence(before, table);
    let post = protected_presence(after, table);
    if !presence_equal(&pre, &post) {
        return Err(HostsError::ProtectedMembershipChanged);
    }
    Ok(())
}

} // verus!
