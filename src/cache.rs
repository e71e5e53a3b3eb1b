//! Naming the files that keep each source's last fetched text.
use vstd::prelude::*;
use crate::text::chars_of;

verus! {

/// How one character of a URL is written in a file name: `%` as `%25`, `/` as `%2F`, any other
/// character as itself.
pub open spec fn escape_char(c: char) -> Seq<char> {
    if c == '%' {
        seq!['%', '2', '5']
    } else if c == '/' {
        seq!['%', '2', 'F']
    } else {
        seq![c]
    }
}

/// The file name under which a source's text is kept: its URL with each character escaped.
pub open spec fn entry_name_spec(url: Seq<char>) -> Seq<char>
    decreases url.len(),
{
    if url.len() == 0 {
        Seq::empty()
    } else {
        escape_char(url[0]) + entry_name_spec(url.drop_first())
    }
}

proof fn lemma_entry_name_push(url: Seq<char>, c: char)
    ensures
        entry_name_spec(url.push(c)) == entry_name_spec(url) + escape_char(c),
    decreases url.len(),
{
    if url.len() == 0 {
        assert(url.push(c).drop_first() =~= Seq::<char>::empty());
        assert(url.push(c)[0] == c);
        assert(entry_name_spec(Seq::<char>::empty()) == Seq::<char>::empty());
        assert(entry_name_spec(url) == Seq::<char>::empty());
        assert(entry_name_spec(url.push(c)) =~= escape_char(c));
    } else {
        assert(url.push(c).drop_first() =~= url.drop_first().push(c));
        assert(url.push(c)[0] == url[0]);
        lemma_entry_name_push(url.drop_first(), c);
        assert(entry_name_spec(url.push(c)) =~= entry_name_spec(url) + escape_char(c));
    }
}

/// A file name never holds `/`, so every entry lies directly in the cache directory.
pub proof fn lemma_entry_name_flat(url: Seq<char>)
    ensures
        !entry_name_spec(url).contains('/'),
    decreases url.len(),
{
    if url.len() > 0 {
        lemma_entry_name_flat(url.drop_first());
        let e = escape_char(url[0]);
        let rest = entry_name_spec(url.drop_first());
        assert forall|i: int| 0 <= i < (e + rest).len() implies (e + rest)[i] != '/' by {
            if i >= e.len() {
                assert((e + rest)[i] == rest[i - e.len()]);
            }
        }
    }
}

/// Two sources share a file name only when their URLs are the same.
pub proof fn lemma_entry_name_injective(a: Seq<char>, b: Seq<char>)
    requires
        entry_name_spec(a) == entry_name_spec(b),
    ensures
        a == b,
    decreases a.len(),
{
    let ea = entry_name_spec(a);
    if a.len() == 0 {
        if b.len() > 0 {
            assert(entry_name_spec(b).len() >= escape_char(b[0]).len());
        }
        assert(b =~= Seq::<char>::empty());
    } else {
        assert(b.len() > 0) by {
            if b.len() == 0 {
                assert(ea.len() >= escape_char(a[0]).len());
            }
        }
        let xa = escape_char(a[0]);
        let xb = escape_char(b[0]);
        let ra = entry_name_spec(a.drop_first());
        let rb = entry_name_spec(b.drop_first());
        assert(ea == xa + ra);
        assert(ea == xb + rb);
        assert(ea[0] == xa[0]);
        assert(ea[0] == xb[0]);
        if xa.len() == 3 {
            assert(xb.len() == 3);
            assert(ea[2] == xa[2]);
            assert(ea[2] == xb[2]);
        } else {
            assert(xb.len() == 1);
        }
        assert(a[0] == b[0]);
        assert(ra =~= ea.subrange(xa.len() as int, ea.len() as int));
        assert(rb =~= ea.subrange(xb.len() as int, ea.len() as int));
        lemma_entry_name_injective(a.drop_first(), b.drop_first());
        assert(a =~= seq![a[0]] + a.drop_first());
        assert(b =~= seq![b[0]] + b.drop_first());
    }
}

/// Where the last fetched text of each source is kept: one flat file per source in `dir`.
#[derive(Debug)]
pub struct Cache {
    pub dir: String,
}

impl Cache {
    /// A cache kept in the directory `dir`.
    pub fn new(dir: String) -> (r: Cache)
        ensures
            r.dir@ == dir@,
    {
        Cache { dir }
    }

    /// The name of the file that holds the text of the source at `url`.
    pub fn entry_name(&self, url: &str) -> (r: String)
        ensures
            r@ == entry_name_spec(url@),
    {
        let cs = chars_of(url);
        let mut r = String::new();
        let mut i: usize = 0;
        assert(url@.subrange(0, 0) =~= Seq::<char>::empty());
        while i < cs.len()
            invariant
                cs@ == url@,
                i <= cs.len(),
                r@ == entry_name_spec(url@.subrange(0, i as int)),
            decreases cs.len() - i,
        {
            let c = cs[i];
            let ghost before = r@;
            if c == '%' {
                r.push('%');
                r.push('2');
                r.push('5');
            } else if c == '/' {
                r.push('%');
                r.push('2');
                r.push('F');
            } else {
                r.push(c);
            }
            assert(r@ =~= before + escape_char(c));
            proof {
                lemma_entry_name_push(url@.subrange(0, i as int), c);
                assert(url@.subrange(0, i + 1) =~= url@.subrange(0, i as int).push(c));
            }
            i = i + 1;
        }
        assert(url@.subrange(0, i as int) =~= url@);
        r
    }
}

} // verus!
