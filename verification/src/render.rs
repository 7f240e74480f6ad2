//! The renderer: the deterministic text form of a part sequence, one line
//! per part, each line followed by a newline. Entry addresses are left-padded
//! with spaces to a fixed minimum column width and followed by a tab;
//! hostnames are separated by single spaces; a trailing comment is rendered
//! as a space, `#`, and the text verbatim.
use vstd::prelude::*;

use crate::ip::{chars_of_ip, render_ip_address, IpAddress};
use crate::parse::{part_views, str_views, HostsPart, PartView};

verus! {

/// Minimum column width the rendered address is padded to.
pub const ADDRESS_COLUMN_WIDTH: usize = 20;

/// Hostnames joined by single spaces.
pub open spec fn join_hosts(hs: Seq<Seq<char>>) -> Seq<char>
    decreases hs.len(),
{
    if hs.len() == 0 {
        Seq::empty()
    } else if hs.len() == 1 {
        hs[0]
    } else {
        hs[0] + seq![' '] + join_hosts(hs.drop_first())
    }
}

/// The spaces padding an address of the given length to the column width.
pub open spec fn pad_to_column(n: int) -> Seq<char> {
    if n >= ADDRESS_COLUMN_WIDTH {
        Seq::empty()
    } else {
        Seq::new((ADDRESS_COLUMN_WIDTH - n) as nat, |k: int| ' ')
    }
}

/// The text of an entry body: padded address, tab, hostnames, and the
/// optional comment after ` #`.
pub open spec fn render_entry_body(
    ip: IpAddress,
    hosts: Seq<Seq<char>>,
    comment: Option<Seq<char>>,
) -> Seq<char> {
    chars_of_ip(ip) + pad_to_column(chars_of_ip(ip).len() as int) + seq!['\t'] + join_hosts(hosts)
        + (match comment {
        Some(c) => seq![' ', '#'] + c,
        None => Seq::empty(),
    })
}

/// The text of one part, without its line break.
pub open spec fn render_part(p: PartView) -> Seq<char> {
    match p {
        PartView::Entry { ip, hosts, comment } => render_entry_body(ip, hosts, comment),
        PartView::CommentedEntry { ip, hosts, comment } => seq!['#', ' '] + render_entry_body(
            ip,
            hosts,
            comment,
        ),
        PartView::Comment { text } => seq!['#'] + text,
        PartView::Empty { text } => text,
    }
}

/// The text of a part sequence: each part's line followed by a newline.
pub open spec fn render_parts(ps: Seq<PartView>) -> Seq<char>
    decreases ps.len(),
{
    if ps.len() == 0 {
        Seq::empty()
    } else {
        render_part(ps[0]) + seq!['\n'] + render_parts(ps.drop_first())
    }
}

fn append_pad(out: &mut String, n: usize)
    ensures
        final(out)@ == old(out)@ + pad_to_column(n as int),
{
    proof {
        reveal_strlit(" ");
    }
    if n >= ADDRESS_COLUMN_WIDTH {
        proof {
            assert(final(out)@ =~= old(out)@ + pad_to_column(n as int));
        }
        return ;
    }
    let mut k = n;
    while k < ADDRESS_COLUMN_WIDTH
        invariant
            n <= k <= ADDRESS_COLUMN_WIDTH,
            n < ADDRESS_COLUMN_WIDTH,
            out@ == old(out)@ + Seq::new((k - n) as nat, |x: int| ' '),
        decreases ADDRESS_COLUMN_WIDTH - k,
    {
        out.append(" ");
        proof {
            reveal_strlit(" ");
            assert(" "@ =~= seq![' ']);
            assert(old(out)@ + Seq::new((k + 1 - n) as nat, |x: int| ' ') =~= (old(out)@ + Seq::new(
                (k - n) as nat,
                |x: int| ' ',
            )) + seq![' ']);
        }
        k = k + 1;
    }
    proof {
        assert(out@ =~= old(out)@ + pad_to_column(n as int));
    }
}

fn append_hosts_from(hosts: &Vec<String>, from: usize, out: &mut String)
    requires
        from <= hosts@.len(),
    ensures
        final(out)@ == old(out)@ + join_hosts(str_views(hosts@).skip(from as int)),
    decreases hosts@.len() - from,
{
    let ghost tail = str_views(hosts@).skip(from as int);
    if from < hosts.len() {
        out.append(hosts[from].as_str());
        if from + 1 < hosts.len() {
            proof {
                reveal_strlit(" ");
            }
            out.append(" ");
            append_hosts_from(hosts, from + 1, out);
            proof {
                assert(" "@ =~= seq![' ']);
                assert(tail.drop_first() =~= str_views(hosts@).skip(from + 1 as int));
                assert(tail[0] == hosts@[from as int]@);
                assert(final(out)@ =~= old(out)@ + join_hosts(tail));
            }
        } else {
            proof {
                assert(tail.len() == 1 && tail[0] == hosts@[from as int]@);
                assert(final(out)@ =~= old(out)@ + join_hosts(tail));
            }
        }
    } else {
        proof {
            assert(tail =~= Seq::<Seq<char>>::empty());
            assert(final(out)@ =~= old(out)@ + join_hosts(tail));
        }
    }
}

fn append_entry_body(
    ip: &IpAddress,
    hosts: &Vec<String>,
    comment: &Option<String>,
    out: &mut String,
)
    ensures
        final(out)@ == old(out)@ + render_entry_body(
            *ip,
            str_views(hosts@),
            crate::parse::opt_view(*comment),
        ),
{
    let ip_text = render_ip_address(ip);
    let n = ip_text.as_str().unicode_len();
    out.append(ip_text.as_str());
    append_pad(out, n);
    proof {
        reveal_strlit("\t");
        reveal_strlit(" #");
    }
    out.append("\t");
    append_hosts_from(hosts, 0, out);
    proof {
        assert(str_views(hosts@).skip(0) =~= str_views(hosts@));
    }
    match comment {
        Some(c) => {
            out.append(" #");
            out.append(c.as_str());
        },
        None => {},
    }
    proof {
        assert("\t"@ =~= seq!['\t']);
        assert(" #"@ =~= seq![' ', '#']);
        assert(final(out)@ =~= old(out)@ + render_entry_body(
            *ip,
            str_views(hosts@),
            crate::parse::opt_view(*comment),
        ));
    }
}

/// Renders the text of the whole part sequence.
pub fn generate_hosts_file(parsed: &Vec<HostsPart>) -> (r: String)
    ensures
        r@ == render_parts(part_views(parsed@)),
{
    proof {
        reveal_strlit("# ");
        reveal_strlit("#");
        reveal_strlit("\n");
    }
    let ghost full = part_views(parsed@);
    let mut out = String::new();
    let mut k: usize = 0;
    proof {
        assert(full.skip(0) =~= full);
    }
    while k < parsed.len()
        invariant
            0 <= k <= parsed@.len(),
            full == part_views(parsed@),
            render_parts(full) == out@ + render_parts(full.skip(k as int)),
        decreases parsed@.len() - k,
    {
        let ghost before = out@;
        let ghost tail = full.skip(k as int);
        match &parsed[k] {
            HostsPart::Empty(text) => {
                out.append(text.as_str());
            },
            HostsPart::Comment(text) => {
                out.append("#");
                out.append(text.as_str());
            },
            HostsPart::CommentedEntry(ip, hosts, comment) => {
                out.append("# ");
                append_entry_body(ip, hosts, comment, &mut out);
            },
            HostsPart::Entry(ip, hosts, comment) => {
                append_entry_body(ip, hosts, comment, &mut out);
            },
        }
        out.append("\n");
        proof {
            reveal_strlit("#");
            reveal_strlit("# ");
            reveal_strlit("\n");
            assert("#"@ =~= seq!['#']);
            assert("# "@ =~= seq!['#', ' ']);
            assert("\n"@ =~= seq!['\n']);
            assert(tail[0] == full[k as int]);
            assert(tail.drop_first() =~= full.skip(k + 1 as int));
            assert(out@ =~= before + render_part(full[k as int]) + seq!['\n']);
            assert(render_parts(tail) == render_part(tail[0]) + seq!['\n'] + render_parts(
                tail.drop_first(),
            ));
            assert(out@ + render_parts(full.skip(k + 1 as int)) =~= before + render_parts(tail));
        }
        k = k + 1;
    }
    proof {
        assert(full.skip(parsed@.len() as int) =~= Seq::<PartView>::empty());
        assert(render_parts(full) =~= out@);
    }
    out
}

} // verus!
