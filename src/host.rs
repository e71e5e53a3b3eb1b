//! Host names: validation, and the order in which they are kept.
use vstd::prelude::*;
use vstd::utf8::encode_utf8;
use crate::text::{is_white_space, chars_of};
use core::cmp::Ordering;

verus! {

broadcast use vstd::utf8::encode_utf8_decode_utf8;

/// A character that may stand in a host name: not white space, `/` or `"`.
pub open spec fn is_host_char(c: char) -> bool {
    !is_white_space(c) && c != '/' && c != '"'
}

/// A host name: non-empty, and made of host characters only.
pub open spec fn valid_host(s: Seq<char>) -> bool {
    s.len() > 0 && forall|i: int| 0 <= i < s.len() ==> is_host_char(#[trigger] s[i])
}

/// Lexicographic order on byte strings, a proper prefix coming first.
pub open spec fn bytes_lt(a: Seq<u8>, b: Seq<u8>) -> bool
    decreases a.len(),
{
    if a.len() == 0 {
        b.len() > 0
    } else if b.len() == 0 {
        false
    } else if a[0] != b[0] {
        a[0] < b[0]
    } else {
        bytes_lt(a.drop_first(), b.drop_first())
    }
}

/// The order of host names: that of `str`, byte by byte over UTF-8.
pub open spec fn host_lt(a: Seq<char>, b: Seq<char>) -> bool {
    bytes_lt(encode_utf8(a), encode_utf8(b))
}

pub proof fn lemma_bytes_lt_irreflexive(a: Seq<u8>)
    ensures
        !bytes_lt(a, a),
    decreases a.len(),
{
    if a.len() > 0 {
        lemma_bytes_lt_irreflexive(a.drop_first());
    }
}

pub proof fn lemma_bytes_lt_transitive(a: Seq<u8>, b: Seq<u8>, c: Seq<u8>)
    requires
        bytes_lt(a, b),
        bytes_lt(b, c),
    ensures
        bytes_lt(a, c),
    decreases a.len(),
{
    if a.len() > 0 && b.len() > 0 && c.len() > 0 && a[0] == b[0] && b[0] == c[0] {
        lemma_bytes_lt_transitive(a.drop_first(), b.drop_first(), c.drop_first());
    }
}

pub proof fn lemma_bytes_lt_total(a: Seq<u8>, b: Seq<u8>)
    ensures
        a == b || bytes_lt(a, b) || bytes_lt(b, a),
        !(bytes_lt(a, b) && bytes_lt(b, a)),
    decreases a.len(),
{
    if a.len() > 0 && b.len() > 0 && a[0] == b[0] {
        lemma_bytes_lt_total(a.drop_first(), b.drop_first());
        if a.drop_first() == b.drop_first() {
            assert(a =~= b) by {
                assert(a =~= seq![a[0]] + a.drop_first());
                assert(b =~= seq![b[0]] + b.drop_first());
            }
        }
    }
}

/// `host_lt` is a strict total order.
pub proof fn lemma_host_lt_order(a: Seq<char>, b: Seq<char>, c: Seq<char>)
    ensures
        !host_lt(a, a),
        host_lt(a, b) && host_lt(b, c) ==> host_lt(a, c),
        a == b || host_lt(a, b) || host_lt(b, a),
        !(host_lt(a, b) && host_lt(b, a)),
{
    lemma_bytes_lt_irreflexive(encode_utf8(a));
    if host_lt(a, b) && host_lt(b, c) {
        lemma_bytes_lt_transitive(encode_utf8(a), encode_utf8(b), encode_utf8(c));
    }
    lemma_bytes_lt_total(encode_utf8(a), encode_utf8(b));
    if encode_utf8(a) == encode_utf8(b) {
        assert(vstd::utf8::decode_utf8(encode_utf8(a)) == a);
        assert(vstd::utf8::decode_utf8(encode_utf8(b)) == b);
    }
}

proof fn lemma_bytes_lt_common_prefix(a: Seq<u8>, b: Seq<u8>, i: int)
    requires
        0 <= i <= a.len(),
        i <= b.len(),
        a.subrange(0, i) == b.subrange(0, i),
    ensures
        bytes_lt(a, b) == bytes_lt(a.subrange(i, a.len() as int), b.subrange(i, b.len() as int)),
    decreases i,
{
    if i > 0 {
        assert(a[0] == a.subrange(0, i)[0]);
        assert(b[0] == b.subrange(0, i)[0]);
        assert(a.drop_first().subrange(0, i - 1) =~= a.subrange(0, i).drop_first());
        assert(b.drop_first().subrange(0, i - 1) =~= b.subrange(0, i).drop_first());
        lemma_bytes_lt_common_prefix(a.drop_first(), b.drop_first(), i - 1);
        assert(a.drop_first().subrange(i - 1, a.len() - 1) =~= a.subrange(i, a.len() as int));
        assert(b.drop_first().subrange(i - 1, b.len() - 1) =~= b.subrange(i, b.len() as int));
    } else {
        assert(a.subrange(0, a.len() as int) =~= a);
        assert(b.subrange(0, b.len() as int) =~= b);
    }
}

/// A validated host name.
#[derive(Debug)]
pub struct Host {
    name: String,
}

/// A host name that failed validation, with the text that was offered.
#[derive(Debug)]
pub struct HostError {
    pub value: String,
}

impl View for Host {
    type V = Seq<char>;

    closed spec fn view(&self) -> Seq<char> {
        self.name@
    }
}

impl Host {
    #[verifier::type_invariant]
    closed spec fn inv(&self) -> bool {
        valid_host(self.name@)
    }

    /// Accepts `value` as a host name exactly when it is valid, unchanged.
    pub fn try_from(value: String) -> (r: Result<Host, HostError>)
        ensures
            r is Ok <==> valid_host(value@),
            r matches Ok(h) ==> h@ == value@,
            r matches Err(e) ==> e.value@ == value@,
    {
        let cs = chars_of(value.as_str());
        let mut ok = cs.len() > 0;
        let mut i: usize = 0;
        while i < cs.len()
            invariant
                cs@ == value@,
                i <= cs.len(),
                ok == (cs.len() > 0 && forall|j: int| 0 <= j < i ==> is_host_char(#[trigger] cs@[j])),
            decreases cs.len() - i,
        {
            let c = cs[i];
            if c.is_whitespace() || c == '/' || c == '"' {
                ok = false;
            }
            i = i + 1;
        }
        if ok {
            Ok(Host { name: value })
        } else {
            Err(HostError { value })
        }
    }

    /// The host name.
    pub fn as_str(&self) -> (r: &str)
        ensures
            r@ == self@,
            valid_host(self@),
    {
        proof {
            use_type_invariant(self);
        }
        self.name.as_str()
    }

    /// A second host with the same name.
    pub fn copy(&self) -> (r: Host)
        ensures
            r@ == self@,
    {
        proof {
            use_type_invariant(self);
        }
        Host { name: self.name.clone() }
    }

    /// Compares two hosts in the order of `str`.
    pub fn compare(&self, other: &Host) -> (r: Ordering)
        ensures
            r == Ordering::Less <==> host_lt(self@, other@),
            r == Ordering::Equal <==> self@ == other@,
            r == Ordering::Greater <==> host_lt(other@, self@),
    {
        let a = self.name.as_str().as_bytes();
        let b = other.name.as_str().as_bytes();
        proof {
            lemma_host_lt_order(self@, other@, other@);
        }
        let mut i: usize = 0;
        while i < a.len() && i < b.len()
            invariant
                a@ == encode_utf8(self@),
                b@ == encode_utf8(other@),
                i <= a.len(),
                i <= b.len(),
                a@.subrange(0, i as int) == b@.subrange(0, i as int),
            decreases a.len() - i,
        {
            if a[i] != b[i] {
                proof {
                    lemma_bytes_lt_common_prefix(a@, b@, i as int);
                    lemma_bytes_lt_common_prefix(b@, a@, i as int);
                }
                if a[i] < b[i] {
                    return Ordering::Less;
                } else {
                    return Ordering::Greater;
                }
            }
            assert(a@.subrange(0, i + 1) =~= a@.subrange(0, i as int).push(a@[i as int]));
            assert(b@.subrange(0, i + 1) =~= b@.subrange(0, i as int).push(b@[i as int]));
            i = i + 1;
        }
        proof {
            lemma_bytes_lt_common_prefix(a@, b@, i as int);
            lemma_bytes_lt_common_prefix(b@, a@, i as int);
            if a.len() == b.len() {
                assert(a@ =~= a@.subrange(0, i as int));
                assert(b@ =~= b@.subrange(0, i as int));
            }
        }
        if a.len() < b.len() {
            Ordering::Less
        } else if a.len() > b.len() {
            Ordering::Greater
        } else {
            Ordering::Equal
        }
    }
}

impl PartialEq for Host {
    fn eq(&self, other: &Host) -> (r: bool) {
        self.name == other.name
    }
}

impl vstd::std_specs::cmp::PartialEqSpecImpl for Host {
    open spec fn obeys_eq_spec() -> bool {
        true
    }

    open spec fn eq_spec(&self, other: &Host) -> bool {
        self@ == other@
    }
}

impl Eq for Host {

}

impl HostError {
    /// The message for a rejected host name: `<value> is not a valid domain name`.
    pub fn message(&self) -> (r: String)
        ensures
            r@ == self.value@ + " is not a valid domain name"@,
    {
        let mut r = self.value.clone();
        r.append(" is not a valid domain name");
        r
    }
}

} // verus!
