//! Sets of hosts, kept sorted and without repeats.
use vstd::prelude::*;
use crate::host::{Host, host_lt, lemma_host_lt_order};
use core::cmp::Ordering;

verus! {

broadcast use vstd::seq_lib::group_seq_properties;

/// The names of a sequence of hosts.
pub open spec fn views(v: Seq<Host>) -> Seq<Seq<char>> {
    v.map_values(|h: Host| h@)
}

/// Strictly ascending in the order of host names: sorted, and without repeats.
pub open spec fn strictly_sorted(s: Seq<Seq<char>>) -> bool {
    forall|i: int, j: int| 0 <= i < j < s.len() ==> host_lt(#[trigger] s[i], #[trigger] s[j])
}

proof fn lemma_below_all_transitive(s: Seq<Seq<char>>, x: Seq<char>, y: Seq<char>)
    requires
        forall|p: int| 0 <= p < s.len() ==> host_lt(#[trigger] s[p], x),
        host_lt(x, y),
    ensures
        forall|p: int| 0 <= p < s.len() ==> host_lt(#[trigger] s[p], y),
{
    assert forall|p: int| 0 <= p < s.len() implies host_lt(#[trigger] s[p], y) by {
        lemma_host_lt_order(s[p], x, y);
    }
}

proof fn lemma_sorted_no_duplicates(s: Seq<Seq<char>>)
    requires
        strictly_sorted(s),
    ensures
        s.no_duplicates(),
        s.to_set().len() == s.len(),
{
    assert forall|i: int, j: int| 0 <= i < s.len() && 0 <= j < s.len() && i != j implies s[i]
        != s[j] by {
        lemma_host_lt_order(s[i], s[j], s[j]);
        lemma_host_lt_order(s[j], s[i], s[i]);
    }
    s.unique_seq_to_set();
}

proof fn lemma_prefix_push(s: Seq<Seq<char>>, i: int)
    requires
        0 <= i < s.len(),
    ensures
        s.subrange(0, i + 1).to_set() == s.subrange(0, i).to_set().insert(s[i]),
{
    assert(s.subrange(0, i + 1) =~= s.subrange(0, i).push(s[i]));
    s.subrange(0, i).lemma_push_to_set_commute(s[i]);
}

/// A set of hosts, held in ascending order without repeats.
pub struct HostSet {
    hosts: Vec<Host>,
}

impl View for HostSet {
    type V = Set<Seq<char>>;

    closed spec fn view(&self) -> Set<Seq<char>> {
        self.seq().to_set()
    }
}

impl HostSet {
    #[verifier::type_invariant]
    closed spec fn inv(&self) -> bool {
        strictly_sorted(self.seq())
    }

    /// The names of the hosts, in ascending order.
    pub closed spec fn seq(&self) -> Seq<Seq<char>> {
        views(self.hosts@)
    }

    /// The empty set.
    pub fn new() -> (r: HostSet)
        ensures
            r@ == Set::<Seq<char>>::empty(),
            r.seq() == Seq::<Seq<char>>::empty(),
    {
        let r = HostSet { hosts: Vec::new() };
        assert(r.seq() =~= Seq::<Seq<char>>::empty());
        r
    }

    /// The hosts in ascending order; their names are this set.
    pub fn hosts(&self) -> (r: &Vec<Host>)
        ensures
            views(r@) == self.seq(),
            strictly_sorted(self.seq()),
            self.seq().to_set() == self@,
            self.seq().len() == self@.len(),
    {
        proof {
            use_type_invariant(self);
            lemma_sorted_no_duplicates(self.seq());
        }
        &self.hosts
    }

    /// The number of hosts.
    pub fn len(&self) -> (r: usize)
        ensures
            r == self@.len(),
            r == self.seq().len(),
    {
        proof {
            use_type_invariant(self);
            lemma_sorted_no_duplicates(self.seq());
        }
        self.hosts.len()
    }

    /// Whether a host of this name is in the set.
    pub fn contains(&self, h: &Host) -> (r: bool)
        ensures
            r == self@.contains(h@),
    {
        proof {
            use_type_invariant(self);
        }
        let ghost s = self.seq();
        let mut lo: usize = 0;
        let mut hi: usize = self.hosts.len();
        while lo < hi
            invariant
                s == self.seq(),
                strictly_sorted(s),
                lo <= hi <= s.len(),
                forall|p: int| 0 <= p < lo ==> host_lt(#[trigger] s[p], h@),
                forall|p: int| hi <= p < s.len() ==> host_lt(h@, #[trigger] s[p]),
            decreases hi - lo,
        {
            let mid = lo + (hi - lo) / 2;
            assert(s[mid as int] == self.hosts@[mid as int]@);
            match self.hosts[mid].compare(h) {
                Ordering::Equal => {
                    assert(s[mid as int] == h@);
                    return true;
                },
                Ordering::Less => {
                    assert forall|p: int| 0 <= p < mid + 1 implies host_lt(#[trigger] s[p], h@) by {
                        if p < mid {
                            lemma_host_lt_order(s[p], s[mid as int], h@);
                        }
                    }
                    lo = mid + 1;
                },
                Ordering::Greater => {
                    assert forall|p: int| mid <= p < s.len() implies host_lt(h@, #[trigger] s[p]) by {
                        if p > mid {
                            lemma_host_lt_order(h@, s[mid as int], s[p]);
                        }
                    }
                    hi = mid;
                },
            }
        }
        assert(!s.contains(h@)) by {
            if s.contains(h@) {
                let p = choose|p: int| 0 <= p < s.len() && s[p] == h@;
                lemma_host_lt_order(h@, h@, h@);
            }
        }
        false
    }

    /// The union of two sets.
    pub fn union(&self, other: &HostSet) -> (r: HostSet)
        ensures
            r@ == self@ + other@,
    {
        proof {
            use_type_invariant(self);
            use_type_invariant(other);
        }
        let a = &self.hosts;
        let b = &other.hosts;
        let ghost sa = self.seq();
        let ghost sb = other.seq();
        let mut out: Vec<Host> = Vec::new();
        let mut i: usize = 0;
        let mut j: usize = 0;
        assert(sa.subrange(0, 0).to_set() =~= Set::empty());
        assert(sb.subrange(0, 0).to_set() =~= Set::empty());
        assert(views(out@).to_set() =~= Set::empty());
        while i < a.len() || j < b.len()
            invariant
                sa == views(a@),
                sb == views(b@),
                strictly_sorted(sa),
                strictly_sorted(sb),
                i <= a.len(),
                j <= b.len(),
                strictly_sorted(views(out@)),
                views(out@).to_set() == sa.subrange(0, i as int).to_set() + sb.subrange(
                    0,
                    j as int,
                ).to_set(),
                i < a.len() ==> forall|p: int|
                    0 <= p < out.len() ==> host_lt(#[trigger] views(out@)[p], sa[i as int]),
                j < b.len() ==> forall|p: int|
                    0 <= p < out.len() ==> host_lt(#[trigger] views(out@)[p], sb[j as int]),
            decreases a.len() + b.len() - i - j,
        {
            let ghost old_out = views(out@);
            let take_a: bool;
            let take_b: bool;
            if i == a.len() {
                take_a = false;
                take_b = true;
            } else if j == b.len() {
                take_a = true;
                take_b = false;
            } else {
                match a[i].compare(&b[j]) {
                    Ordering::Less => {
                        take_a = true;
                        take_b = false;
                    },
                    Ordering::Equal => {
                        take_a = true;
                        take_b = true;
                    },
                    Ordering::Greater => {
                        take_a = false;
                        take_b = true;
                    },
                }
            }
            let ghost x: Seq<char> = if take_a {
                sa[i as int]
            } else {
                sb[j as int]
            };
            if take_a {
                out.push(a[i].copy());
            } else {
                out.push(b[j].copy());
            }
            assert(views(out@) =~= old_out.push(x));
            proof {
                old_out.lemma_push_to_set_commute(x);
                if take_a {
                    lemma_prefix_push(sa, i as int);
                }
                if take_b {
                    lemma_prefix_push(sb, j as int);
                }
                if take_a && i + 1 < a.len() {
                    lemma_below_all_transitive(old_out, x, sa[i + 1]);
                }
                if take_b && j + 1 < b.len() {
                    lemma_below_all_transitive(old_out, x, sb[j + 1]);
                }
            }
            if take_a {
                i = i + 1;
            }
            if take_b {
                j = j + 1;
            }
        }
        assert(sa.subrange(0, sa.len() as int) =~= sa);
        assert(sb.subrange(0, sb.len() as int) =~= sb);
        HostSet { hosts: out }
    }

    /// The set of the names of `v`, which may repeat and come in any order.
    pub fn from_hosts(v: Vec<Host>) -> (r: HostSet)
        ensures
            r@ == views(v@).to_set(),
        decreases v.len(),
    {
        let mut v = v;
        let ghost whole = views(v@);
        if v.len() == 0 {
            let r = HostSet::new();
            assert(whole.to_set() =~= Set::empty());
            r
        } else if v.len() == 1 {
            let h = v.pop().unwrap();
            let mut hosts: Vec<Host> = Vec::new();
            hosts.push(h);
            let r = HostSet { hosts };
            assert(r.seq() =~= whole);
            r
        } else {
            let mid = v.len() / 2;
            let right = v.split_off(mid);
            let ghost lv = views(v@);
            let ghost rv = views(right@);
            assert(whole =~= lv + rv);
            let a = HostSet::from_hosts(v);
            let b = HostSet::from_hosts(right);
            proof {
                vstd::seq_lib::seq_to_set_distributes_over_add(lv, rv);
            }
            a.union(&b)
        }
    }
}

} // verus!
