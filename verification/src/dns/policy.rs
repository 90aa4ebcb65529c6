//! What the server does with a name of its own accord: the names it blocks and
//! the names it answers with a local address.
use vstd::prelude::*;
use vstd::slice::slice_subrange;
use vstd::string::StringSliceAdditionalSpecFns;
use crate::text::{
    encodings, find_host, host_entries, lemma_find_host_only_listed, lookup_host, sorted_contains,
    strictly_sorted,
};

verus! {

/// The blocked domains, as bytes. The list must stay strictly sorted: it is
/// searched by halving.
pub open spec fn blocked_spec() -> Seq<Seq<u8>> {
    Seq::empty()
}

/// The blocked domains.
fn blocked() -> (v: Vec<&'static str>)
    ensures
        encodings(v@) == blocked_spec(),
        strictly_sorted(encodings(v@)),
{
    let v: Vec<&'static str> = Vec::new();
    assert(encodings(v@) =~= blocked_spec());
    v
}

/// The host names answered with a local address.
pub open spec fn local_mappings_spec() -> Seq<(Seq<char>, Seq<u8>)> {
    seq![("server.lan"@, seq![192u8, 168u8, 86u8, 89u8])]
}

fn local_mappings() -> (t: Vec<(&'static str, [u8; 4])>)
    ensures
        host_entries(t@) == local_mappings_spec(),
{
    let addr: [u8; 4] = [192, 168, 86, 89];
    assert(addr@ =~= seq![192u8, 168u8, 86u8, 89u8]);
    let t = vec![("server.lan", addr)];
    assert(host_entries(t@) =~= local_mappings_spec());
    t
}

/// The index of the first dot in `s` at or after `from`.
pub open spec fn first_dot(s: Seq<u8>, from: int) -> Option<int>
    decreases s.len() - from,
{
    if from < 0 || from >= s.len() {
        None
    } else if s[from] == 46u8 {
        Some(from)
    } else {
        first_dot(s, from + 1)
    }
}

/// A name is blocked by a list when the list holds it, or the part after its
/// first dot is blocked: the name or one of its parent domains is listed.
pub open spec fn blocked_by(list: Seq<Seq<u8>>, name: Seq<u8>) -> bool
    decreases name.len(),
{
    list.contains(name) || match first_dot(name, 0) {
        Some(i) => if 0 <= i < name.len() {
            blocked_by(list, name.subrange(i + 1, name.len() as int))
        } else {
            false
        },
        None => false,
    }
}

proof fn lemma_first_dot_bounds(s: Seq<u8>, from: int)
    ensures
        first_dot(s, from) matches Some(i) ==> from <= i < s.len() && s[i] == 46u8,
    decreases s.len() - from,
{
    if 0 <= from < s.len() && s[from] != 46u8 {
        lemma_first_dot_bounds(s, from + 1);
    }
}

proof fn lemma_first_dot_after_label(label: Seq<u8>, parent: Seq<u8>, from: int)
    requires
        0 <= from <= label.len(),
    ensures
        first_dot(label + seq![46u8] + parent, from) == match first_dot(label, from) {
            Some(i) => Some(i),
            None => Some(label.len() as int),
        },
    decreases label.len() - from,
{
    let s = label + seq![46u8] + parent;
    if from < label.len() {
        assert(s[from] == label[from]);
        if label[from] != 46u8 {
            lemma_first_dot_after_label(label, parent, from + 1);
        }
    } else {
        assert(s[from] == 46u8);
    }
}

/// A domain that is blocked blocks all its subdomains: putting a label (or
/// several, joined by dots) in front of a blocked name gives a blocked name.
pub proof fn lemma_subdomain_blocked(list: Seq<Seq<u8>>, label: Seq<u8>, parent: Seq<u8>)
    requires
        blocked_by(list, parent),
    ensures
        blocked_by(list, label + seq![46u8] + parent),
    decreases label.len(),
{
    let s = label + seq![46u8] + parent;
    lemma_first_dot_after_label(label, parent, 0);
    lemma_first_dot_bounds(label, 0);
    match first_dot(label, 0) {
        Some(i) => {
            let rest = label.subrange(i + 1, label.len() as int);
            assert(s.subrange(i + 1, s.len() as int) =~= rest + seq![46u8] + parent);
            lemma_subdomain_blocked(list, rest, parent);
        },
        None => {
            assert(s.subrange(label.len() + 1int, s.len() as int) =~= parent);
        },
    }
}

/// The position of the first dot in a byte string.
fn find_dot(s: &[u8]) -> (r: Option<usize>)
    ensures
        match r {
            Some(i) => first_dot(s@, 0) == Some(i as int),
            None => first_dot(s@, 0) is None,
        },
{
    let mut i: usize = 0;
    while i < s.len()
        invariant
            i <= s@.len(),
            first_dot(s@, 0) == first_dot(s@, i as int),
        decreases s@.len() - i,
    {
        if s[i] == 46 {
            return Some(i);
        }
        i = i + 1;
    }
    None
}

/// Whether a name is blocked: it, or one of its parent domains, is on the
/// block list.
pub fn is_blocked(name: &str) -> (r: bool)
    ensures
        r == blocked_by(blocked_spec(), name.spec_bytes()),
{
    let list = blocked();
    let mut rest: &[u8] = name.as_bytes();
    loop
        invariant
            encodings(list@) == blocked_spec(),
            strictly_sorted(encodings(list@)),
            blocked_by(blocked_spec(), name.spec_bytes()) == blocked_by(blocked_spec(), rest@),
        decreases rest@.len(),
    {
        // Exact match by binary search
        if sorted_contains(&list, rest) {
            return true;
        }
        // Strip the leading label and look again
        match find_dot(rest) {
            None => return false,
            Some(i) => {
                proof {
                    lemma_first_dot_bounds(rest@, 0);
                }
                assert(i < rest.len());
                rest = slice_subrange(rest, i + 1, rest.len());
            },
        }
    }
}

/// The local address of a host name, if it has one.
pub fn local_mapping(name: &str) -> (r: Option<[u8; 4]>)
    ensures
        match r {
            Some(a) => find_host(local_mappings_spec(), name@, 0) == Some(a@),
            None => find_host(local_mappings_spec(), name@, 0) is None,
        },
        r matches Some(a) ==> exists|i: int|
            0 <= i < local_mappings_spec().len() && #[trigger] local_mappings_spec()[i] == (name@, a@),
{
    proof {
        lemma_find_host_only_listed(local_mappings_spec(), name@, 0);
    }
    let table = local_mappings();
    lookup_host(&table, name)
}

} // verus!
