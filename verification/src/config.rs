//! The run's configuration — a whitelist of hostnames that actions may
//! touch and a flag unlocking dangerous operations — and the fixed table of
//! protected mappings that must never change while that flag is off.
use vstd::prelude::*;

use crate::ip::IpAddress;
use crate::parse::str_views;

verus! {

/// Placeholder in the protected table that stands for the machine's own
/// hostname, resolved at run start.
pub const RESERVED_HOSTNAME: &'static str = "%HOSTNAME%";

/// The loopback hostname.
pub const RESERVED_LOCALHOST: &'static str = "localhost";

/// The IPv6 loopback hostname.
pub const RESERVED_IP6_LOCALHOST: &'static str = "ip6-localhost";

/// The IPv6 loopback alias.
pub const RESERVED_IP6_LOOPBACK: &'static str = "ip6-loopback";

/// The IPv6 all-nodes multicast hostname.
pub const RESERVED_IP6_ALLNODES: &'static str = "ip6-allnodes";

/// The IPv6 all-routers multicast hostname.
pub const RESERVED_IP6_ALLROUTERS: &'static str = "ip6-allrouters";

/// A protected mapping: an address and the hostname bound to it.
#[derive(Debug)]
pub struct HostsEntry {
    /// The protected address.
    pub ip: IpAddress,
    /// The protected hostname.
    pub hostname: String,
}

/// The model of a protected mapping.
pub open spec fn entry_views(t: Seq<HostsEntry>) -> Seq<(IpAddress, Seq<char>)> {
    t.map_values(|e: HostsEntry| (e.ip, e.hostname@))
}

/// The protected table, with the placeholder row resolved to the given
/// machine hostname: both loopback addresses under their usual names, the
/// machine's own name, and the link-local all-nodes and all-routers
/// multicast mappings.
pub open spec fn protected_table(hostname: Seq<char>) -> Seq<(IpAddress, Seq<char>)> {
    seq![
        (IpAddress::V4(127, 0, 0, 1), "localhost"@),
        (IpAddress::V4(127, 0, 1, 1), hostname),
        (IpAddress::V6(0, 0, 0, 0, 0, 0, 0, 1), "localhost"@),
        (IpAddress::V6(0, 0, 0, 0, 0, 0, 0, 1), "ip6-localhost"@),
        (IpAddress::V6(0, 0, 0, 0, 0, 0, 0, 1), "ip6-loopback"@),
        (IpAddress::V6(0xff02, 0, 0, 0, 0, 0, 0, 1), "ip6-allnodes"@),
        (IpAddress::V6(0xff02, 0, 0, 0, 0, 0, 0, 2), "ip6-allrouters"@),
    ]
}

/// Builds the protected table with the placeholder resolved to the actual
/// machine hostname.
pub fn dont_touch_entries(hostname: &str) -> (r: Vec<HostsEntry>)
    ensures
        entry_views(r@) == protected_table(hostname@),
{
    let mut r: Vec<HostsEntry> = Vec::new();
    r.push(
        HostsEntry { ip: IpAddress::V4(127, 0, 0, 1), hostname: String::from_str(
            RESERVED_LOCALHOST,
        ) },
    );
    r.push(HostsEntry { ip: IpAddress::V4(127, 0, 1, 1), hostname: hostname.to_owned() });
    r.push(
        HostsEntry { ip: IpAddress::V6(0, 0, 0, 0, 0, 0, 0, 1), hostname: String::from_str(
            RESERVED_LOCALHOST,
        ) },
    );
    r.push(
        HostsEntry { ip: IpAddress::V6(0, 0, 0, 0, 0, 0, 0, 1), hostname: String::from_str(
            RESERVED_IP6_LOCALHOST,
        ) },
    );
    r.push(
        HostsEntry { ip: IpAddress::V6(0, 0, 0, 0, 0, 0, 0, 1), hostname: String::from_str(
            RESERVED_IP6_LOOPBACK,
        ) },
    );
    r.push(
        HostsEntry { ip: IpAddress::V6(0xff02, 0, 0, 0, 0, 0, 0, 1), hostname: String::from_str(
            RESERVED_IP6_ALLNODES,
        ) },
    );
    r.push(
        HostsEntry { ip: IpAddress::V6(0xff02, 0, 0, 0, 0, 0, 0, 2), hostname: String::from_str(
            RESERVED_IP6_ALLROUTERS,
        ) },
    );
    proof {
        assert(entry_views(r@) =~= protected_table(hostname@));
    }
    r
}

/// Serde-style default used by the configuration: the dangerous-operations
/// flag is off unless the configuration explicitly enables it.
pub fn safely_false() -> (r: bool)
    ensures
        r == false,
{
    false
}

/// The run's configuration.
pub struct HostsmodConfig {
    /// Hostnames that actions may touch.
    pub whitelist: Vec<String>,
    /// Disables the invariant guard over the protected table.
    pub enable_dangerous_operations: bool,
}

/// A whitelisted name wrapped in double quotes.
pub open spec fn quoted_name(h: Seq<char>) -> Seq<char> {
    seq!['"'] + h + seq!['"']
}

/// The quoted whitelist names joined by commas.
pub open spec fn quoted_join(wl: Seq<Seq<char>>) -> Seq<char>
    decreases wl.len(),
{
    if wl.len() == 0 {
        Seq::empty()
    } else if wl.len() == 1 {
        quoted_name(wl[0])
    } else {
        quoted_name(wl[0]) + ", "@ + quoted_join(wl.drop_first())
    }
}

/// The configuration's debug text: the whitelist alone. The
/// dangerous-operations flag is deliberately not shown.
pub open spec fn spec_config_debug_text(wl: Seq<Seq<char>>) -> Seq<char> {
    "HostsmodConfig { whitelist: ["@ + quoted_join(wl) + "] }"@
}

fn append_quoted_from(wl: &Vec<String>, from: usize, out: &mut String)
    requires
        from <= wl@.len(),
    ensures
        final(out)@ == old(out)@ + quoted_join(str_views(wl@).skip(from as int)),
    decreases wl@.len() - from,
{
    let ghost tail = str_views(wl@).skip(from as int);
    if from < wl.len() {
        proof {
            reveal_strlit("\"");
        }
        out.append("\"");
        out.append(wl[from].as_str());
        out.append("\"");
        if from + 1 < wl.len() {
            proof {
                reveal_strlit(", ");
            }
            out.append(", ");
            append_quoted_from(wl, from + 1, out);
            proof {
                assert("\""@ =~= seq!['"']);
                assert(tail.drop_first() =~= str_views(wl@).skip(from + 1 as int));
                assert(tail[0] == wl@[from as int]@);
                assert(final(out)@ =~= old(out)@ + quoted_join(tail));
            }
        } else {
            proof {
                assert("\""@ =~= seq!['"']);
                assert(tail.len() == 1 && tail[0] == wl@[from as int]@);
                assert(final(out)@ =~= old(out)@ + quoted_join(tail));
            }
        }
    } else {
        proof {
            assert(tail =~= Seq::<Seq<char>>::empty());
            assert(final(out)@ =~= old(out)@ + quoted_join(tail));
        }
    }
}

impl HostsmodConfig {
    /// The debug text of the configuration: it names the whitelist and
    /// nothing else, keeping the dangerous-operations flag out of casual
    /// output.
    pub fn debug_text(&self) -> (r: String)
        ensures
            r@ == spec_config_debug_text(str_views(self.whitelist@)),
    {
        let mut out = String::new();
        out.append("HostsmodConfig { whitelist: [");
        append_quoted_from(&self.whitelist, 0, &mut out);
        out.append("] }");
        proof {
            assert(str_views(self.whitelist@).skip(0) =~= str_views(self.whitelist@));
            assert(out@ =~= spec_config_debug_text(str_views(self.whitelist@)));
        }
        out
    }

    /// Whether the hostname is whitelisted.
    pub fn is_whitelisted(&self, host: &str) -> (r: bool)
        ensures
            r == str_views(self.whitelist@).contains(host@),
    {
        crate::parse::contains_hostname(&self.whitelist, host)
    }
}

impl Default for HostsmodConfig {
    /// The default configuration: an empty whitelist and the guard enabled.
    fn default() -> (r: Self)
        ensures
            r.whitelist@.len() == 0,
            !r.enable_dangerous_operations,
    {
        HostsmodConfig { whitelist: Vec::new(), enable_dangerous_operations: false }
    }
}

} // verus!
