//! Writing the merged hosts in the grammar of a DNS server.
use vstd::prelude::*;
use crate::hostset::{HostSet, views, strictly_sorted};
use crate::host::lemma_host_lt_order;
use crate::text::chars_of;

verus! {

/// The grammars a merged blocklist can be written in.
#[derive(Debug, Clone, Copy, PartialEq, Eq, Structural)]
pub enum BlocklistOutput {
    /// `local-zone: "<host>" always_nxdomain`
    Unbound,
    /// `address=/<host>/`
    Dnsmasq,
    /// `0.0.0.0 <host>`
    Hosts,
}

/// The line that blocks one host, with its line feed.
pub open spec fn line_for(f: BlocklistOutput, h: Seq<char>) -> Seq<char> {
    match f {
        BlocklistOutput::Unbound => "local-zone: \""@ + h + "\" always_nxdomain\n"@,
        BlocklistOutput::Dnsmasq => "address=/"@ + h + "/\n"@,
        BlocklistOutput::Hosts => "0.0.0.0 "@ + h + "\n"@,
    }
}

/// The lines for the hosts `hs`, one per host, in their order.
pub open spec fn output_lines(f: BlocklistOutput, hs: Seq<Seq<char>>) -> Seq<Seq<char>> {
    hs.map_values(|h: Seq<char>| line_for(f, h))
}

/// Lines written one after another.
pub open spec fn join_lines(ls: Seq<Seq<char>>) -> Seq<char>
    decreases ls.len(),
{
    if ls.len() == 0 {
        Seq::empty()
    } else {
        join_lines(ls.drop_last()) + ls.last()
    }
}

/// The text written for the hosts `hs`, in their order.
pub open spec fn render(f: BlocklistOutput, hs: Seq<Seq<char>>) -> Seq<char> {
    join_lines(output_lines(f, hs))
}

proof fn lemma_line_for_injective(f: BlocklistOutput, a: Seq<char>, b: Seq<char>)
    requires
        line_for(f, a) == line_for(f, b),
    ensures
        a == b,
{
    let (p, q) = match f {
        BlocklistOutput::Unbound => ("local-zone: \""@, "\" always_nxdomain\n"@),
        BlocklistOutput::Dnsmasq => ("address=/"@, "/\n"@),
        BlocklistOutput::Hosts => ("0.0.0.0 "@, "\n"@),
    };
    let la = p + a + q;
    let lb = p + b + q;
    assert(la == line_for(f, a));
    assert(lb == line_for(f, b));
    assert(a.len() == b.len());
    assert(a =~= la.subrange(p.len() as int, (p.len() + a.len()) as int));
    assert(b =~= lb.subrange(p.len() as int, (p.len() + b.len()) as int));
}

/// Of hosts in ascending order, a host is written exactly when it is among them, and no line is
/// written twice.
pub proof fn lemma_written_hosts(f: BlocklistOutput, hs: Seq<Seq<char>>, h: Seq<char>)
    requires
        strictly_sorted(hs),
    ensures
        output_lines(f, hs).contains(line_for(f, h)) == hs.contains(h),
        output_lines(f, hs).no_duplicates(),
{
    let ls = output_lines(f, hs);
    if ls.contains(line_for(f, h)) {
        let k = choose|k: int| 0 <= k < ls.len() && ls[k] == line_for(f, h);
        lemma_line_for_injective(f, hs[k], h);
        assert(hs[k] == h);
    }
    if hs.contains(h) {
        let k = choose|k: int| 0 <= k < hs.len() && hs[k] == h;
        assert(ls[k] == line_for(f, h));
    }
    assert forall|i: int, j: int| 0 <= i < ls.len() && 0 <= j < ls.len() && i != j implies ls[i]
        != ls[j] by {
        if ls[i] == ls[j] {
            lemma_line_for_injective(f, hs[i], hs[j]);
            if i < j {
                lemma_host_lt_order(hs[i], hs[j], hs[j]);
            } else {
                lemma_host_lt_order(hs[j], hs[i], hs[i]);
            }
        }
    }
}

/// The format of each name.
pub open spec fn format_named(s: Seq<char>) -> Option<BlocklistOutput> {
    if s == "unbound"@ {
        Some(BlocklistOutput::Unbound)
    } else if s == "dnsmasq"@ {
        Some(BlocklistOutput::Dnsmasq)
    } else if s == "hosts"@ {
        Some(BlocklistOutput::Hosts)
    } else {
        None
    }
}

/// A format name that is none of the known ones.
#[derive(Debug)]
pub struct UnknownFormat {
    pub name: String,
}

fn same_text(a: &str, b: &str) -> (r: bool)
    ensures
        r == (a@ == b@),
{
    let x = chars_of(a);
    let y = chars_of(b);
    if x.len() != y.len() {
        return false;
    }
    let mut i: usize = 0;
    while i < x.len()
        invariant
            x@ == a@,
            y@ == b@,
            x.len() == y.len(),
            i <= x.len(),
            forall|j: int| 0 <= j < i ==> x@[j] == y@[j],
        decreases x.len() - i,
    {
        if x[i] != y[i] {
            return false;
        }
        i = i + 1;
    }
    assert(x@ =~= y@);
    true
}

impl BlocklistOutput {
    /// The format of a name: `unbound`, `dnsmasq` or `hosts`.
    pub fn from_name(s: &str) -> (r: Result<BlocklistOutput, UnknownFormat>)
        ensures
            match format_named(s@) {
                Some(f) => r == Ok::<BlocklistOutput, UnknownFormat>(f),
                None => r matches Err(e) && e.name@ == s@,
            },
    {
        if same_text(s, "unbound") {
            Ok(BlocklistOutput::Unbound)
        } else if same_text(s, "dnsmasq") {
            Ok(BlocklistOutput::Dnsmasq)
        } else if same_text(s, "hosts") {
            Ok(BlocklistOutput::Hosts)
        } else {
            Err(UnknownFormat { name: s.to_owned() })
        }
    }

    /// Appends to `out` one line per host of `merged`, in ascending order.
    pub fn write_to(self, merged: &HostSet, out: &mut String)
        ensures
            final(out)@ == old(out)@ + render(self, merged.seq()),
            strictly_sorted(merged.seq()),
            merged.seq().to_set() == merged@,
    {
        let hosts = merged.hosts();
        let ghost start = out@;
        let mut i: usize = 0;
        assert(views(hosts@).subrange(0, 0) =~= Seq::<Seq<char>>::empty());
        while i < hosts.len()
            invariant
                views(hosts@) == merged.seq(),
                i <= hosts.len(),
                out@ == start + render(self, views(hosts@).subrange(0, i as int)),
            decreases hosts.len() - i,
        {
            let ghost pre = views(hosts@).subrange(0, i as int);
            let ghost post = views(hosts@).subrange(0, i + 1);
            assert(output_lines(self, post).drop_last() =~= output_lines(self, pre));
            assert(post.drop_last() =~= pre);
            let h = hosts[i].as_str();
            assert(post.last() == h@);
            match self {
                BlocklistOutput::Unbound => {
                    out.append("local-zone: \"");
                    out.append(h);
                    out.append("\" always_nxdomain\n");
                },
                BlocklistOutput::Dnsmasq => {
                    out.append("address=/");
                    out.append(h);
                    out.append("/\n");
                },
                BlocklistOutput::Hosts => {
                    out.append("0.0.0.0 ");
                    out.append(h);
                    out.append("\n");
                },
            }
            assert(out@ =~= start + render(self, post));
            i = i + 1;
        }
        assert(views(hosts@).subrange(0, i as int) =~= merged.seq());
    }
}

impl UnknownFormat {
    /// `Unknown format: <name>, valid formats are: unbound, dnsmasq, hosts`
    pub fn message(&self) -> (r: String)
        ensures
            r@ == "Unknown format: "@ + self.name@ + ", valid formats are: unbound, dnsmasq, hosts"@,
    {
        let mut r = String::new();
        r.append("Unknown format: ");
        r.append(self.name.as_str());
        r.append(", valid formats are: unbound, dnsmasq, hosts");
        r
    }
}

} // verus!
