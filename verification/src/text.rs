//! Byte and text helpers: ASCII case folding, UTF-8 decoding, byte-string
//! order, sorted-list search and the lookup of a name in a host table.
use vstd::prelude::*;
use vstd::utf8::*;
use vstd::string::*;

verus! {

broadcast use vstd::utf8::encode_utf8_decode_utf8;

/// The lower-case form of an ASCII byte; every other byte is kept.
pub open spec fn ascii_lower(c: u8) -> u8 {
    if 65 <= c <= 90 {
        (c + 32) as u8
    } else {
        c
    }
}

/// `ascii_lower` applied to every byte.
pub open spec fn lower_all(s: Seq<u8>) -> Seq<u8> {
    s.map_values(|c: u8| ascii_lower(c))
}

/// The lower-case form of an ASCII byte, as `u8::to_ascii_lowercase` gives it.
pub fn ascii_lowercase(c: u8) -> (r: u8)
    ensures
        r == ascii_lower(c),
{
    if 65 <= c && c <= 90 {
        c + 32
    } else {
        c
    }
}

/// The error `core::str::from_utf8` gives for bytes that are not UTF-8.
#[verifier::external_type_specification]
#[verifier::external_body]
pub struct ExUtf8Error(core::str::Utf8Error);

/// `core::str::from_utf8`: the text is given exactly when the bytes are valid
/// UTF-8, and its UTF-8 encoding is then those bytes.
#[verifier::external_body]
fn utf8_text(bytes: &[u8]) -> (r: Result<&str, core::str::Utf8Error>)
    ensures
        r is Ok <==> valid_utf8(bytes@),
        r matches Ok(s) ==> s.spec_bytes() == bytes@,
{
    core::str::from_utf8(bytes)
}

/// The text that a byte string reads as: its UTF-8 decoding, or the empty text
/// where it is not UTF-8.
pub open spec fn text_or_empty(bytes: Seq<u8>) -> Seq<char> {
    if valid_utf8(bytes) {
        decode_utf8(bytes)
    } else {
        Seq::empty()
    }
}

/// Reads bytes as text; bytes that are not valid UTF-8 read as the empty text.
pub fn text_or_blank(bytes: &[u8]) -> (r: &str)
    ensures
        r@ == text_or_empty(bytes@),
{
    match utf8_text(bytes) {
        Ok(s) => s,
        Err(_) => {
            proof {
                reveal_strlit("");
            }
            ""
        },
    }
}

/// Two texts are equal exactly when their UTF-8 encodings are.
pub proof fn lemma_text_eq_iff_bytes_eq(a: &str, b: &str)
    ensures
        (a@ == b@) <==> (a.spec_bytes() == b.spec_bytes()),
{
    if a.spec_bytes() == b.spec_bytes() {
        assert(decode_utf8(encode_utf8(a@)) == a@);
        assert(decode_utf8(encode_utf8(b@)) == b@);
    }
}

/// Lexicographic order on byte strings, as std orders byte slices and `str`:
/// a proper prefix comes first.
pub open spec fn bytes_before(a: Seq<u8>, b: Seq<u8>) -> bool
    decreases a.len(),
{
    if a.len() == 0 {
        b.len() > 0
    } else if b.len() == 0 {
        false
    } else if a[0] != b[0] {
        a[0] < b[0]
    } else {
        bytes_before(a.drop_first(), b.drop_first())
    }
}

/// No byte string comes before itself.
pub proof fn lemma_bytes_before_irreflexive(a: Seq<u8>)
    ensures
        !bytes_before(a, a),
    decreases a.len(),
{
    if a.len() > 0 {
        lemma_bytes_before_irreflexive(a.drop_first());
    }
}

/// The order on byte strings is transitive.
pub proof fn lemma_bytes_before_transitive(a: Seq<u8>, b: Seq<u8>, c: Seq<u8>)
    requires
        bytes_before(a, b),
        bytes_before(b, c),
    ensures
        bytes_before(a, c),
    decreases a.len(),
{
    if a.len() > 0 && b.len() > 0 && c.len() > 0 {
        if a[0] == b[0] && b[0] == c[0] {
            lemma_bytes_before_transitive(a.drop_first(), b.drop_first(), c.drop_first());
        }
    }
}

/// The three outcomes of comparing two byte strings.
#[derive(PartialEq, Eq, Structural, Debug, Clone, Copy)]
pub enum Order {
    Before,
    Same,
    After,
}

/// Compares two byte strings lexicographically.
pub fn byte_order(a: &[u8], b: &[u8]) -> (r: Order)
    ensures
        (r == Order::Same) <==> (a@ == b@),
        (r == Order::Before) <==> bytes_before(a@, b@),
        (r == Order::After) <==> bytes_before(b@, a@),
{
    let mut i: usize = 0;
    assert(a@.skip(0) =~= a@);
    assert(b@.skip(0) =~= b@);
    while i < a.len() && i < b.len() && a[i] == b[i]
        invariant
            i <= a@.len(),
            i <= b@.len(),
            a@.take(i as int) == b@.take(i as int),
            bytes_before(a@, b@) == bytes_before(a@.skip(i as int), b@.skip(i as int)),
            bytes_before(b@, a@) == bytes_before(b@.skip(i as int), a@.skip(i as int)),
        decreases a@.len() - i,
    {
        assert(a@.skip(i as int).drop_first() =~= a@.skip(i + 1));
        assert(b@.skip(i as int).drop_first() =~= b@.skip(i + 1));
        assert(a@.take(i + 1) =~= a@.take(i as int).push(a@[i as int]));
        assert(b@.take(i + 1) =~= b@.take(i as int).push(b@[i as int]));
        i = i + 1;
    }
    if i == a.len() && i == b.len() {
        assert(a@ =~= a@.take(i as int));
        assert(b@ =~= b@.take(i as int));
        proof {
            lemma_bytes_before_irreflexive(a@);
        }
        Order::Same
    } else if i == a.len() {
        Order::Before
    } else if i == b.len() {
        Order::After
    } else if a[i] < b[i] {
        Order::Before
    } else {
        Order::After
    }
}

/// Every entry of a list comes strictly before every later entry.
pub open spec fn strictly_sorted(s: Seq<Seq<u8>>) -> bool {
    forall|i: int, j: int| 0 <= i < j < s.len() ==> bytes_before(#[trigger] s[i], #[trigger] s[j])
}

/// The UTF-8 encodings of a list of texts.
pub open spec fn encodings(list: Seq<&str>) -> Seq<Seq<u8>> {
    list.map_values(|s: &str| s.spec_bytes())
}

/// Searches a strictly sorted list of texts for a byte string, by halving the
/// range that may hold it.
pub fn sorted_contains(list: &Vec<&str>, key: &[u8]) -> (r: bool)
    requires
        strictly_sorted(encodings(list@)),
    ensures
        r == encodings(list@).contains(key@),
{
    let ghost keys = encodings(list@);
    let mut lo: usize = 0;
    let mut hi: usize = list.len();
    while lo < hi
        invariant
            lo <= hi <= list@.len(),
            keys == encodings(list@),
            keys.len() == list@.len(),
            strictly_sorted(keys),
            forall|k: int| 0 <= k < lo ==> bytes_before(#[trigger] keys[k], key@),
            forall|k: int| hi <= k < keys.len() ==> bytes_before(key@, #[trigger] keys[k]),
        decreases hi - lo,
    {
        let mid = lo + (hi - lo) / 2;
        let entry: &str = list[mid];
        assert(keys[mid as int] == entry.spec_bytes());
        match byte_order(entry.as_bytes(), key) {
            Order::Same => {
                assert(keys[mid as int] == key@);
                return true;
            },
            Order::Before => {
                assert forall|k: int| 0 <= k < mid + 1 implies bytes_before(#[trigger] keys[k], key@) by {
                    if k < mid {
                        lemma_bytes_before_transitive(keys[k], keys[mid as int], key@);
                    }
                }
                lo = mid + 1;
            },
            Order::After => {
                assert forall|k: int| mid <= k < keys.len() implies bytes_before(key@, #[trigger] keys[k]) by {
                    if k > mid {
                        lemma_bytes_before_transitive(key@, keys[mid as int], keys[k]);
                    }
                }
                hi = mid;
            },
        }
    }
    assert forall|k: int| 0 <= k < keys.len() implies keys[k] != key@ by {
        lemma_bytes_before_irreflexive(key@);
        if k < lo {
            assert(bytes_before(keys[k], key@));
        } else {
            assert(bytes_before(key@, keys[k]));
        }
    }
    false
}

/// Whether two texts are equal, compared byte by byte.
pub fn same_text(a: &str, b: &str) -> (r: bool)
    ensures
        r == (a@ == b@),
{
    proof {
        lemma_text_eq_iff_bytes_eq(a, b);
    }
    byte_order(a.as_bytes(), b.as_bytes()) == Order::Same
}

/// A host table as text names and address bytes.
pub open spec fn host_entries(table: Seq<(&str, [u8; 4])>) -> Seq<(Seq<char>, Seq<u8>)> {
    table.map_values(|e: (&str, [u8; 4])| (e.0@, e.1@))
}

/// The address of the first entry at or after `from` whose name is `name`.
pub open spec fn find_host(table: Seq<(Seq<char>, Seq<u8>)>, name: Seq<char>, from: int) -> Option<
    Seq<u8>,
>
    decreases table.len() - from,
{
    if from < 0 || from >= table.len() {
        None
    } else if table[from].0 == name {
        Some(table[from].1)
    } else {
        find_host(table, name, from + 1)
    }
}

/// A lookup gives an address only for a name that an entry has, and then the
/// address of such an entry; it gives none exactly when no entry (at or after
/// `from`) has the name.
pub proof fn lemma_find_host_only_listed(table: Seq<(Seq<char>, Seq<u8>)>, name: Seq<char>, from: int)
    requires
        0 <= from,
    ensures
        find_host(table, name, from) matches Some(a) ==> exists|i: int|
            from <= i < table.len() && #[trigger] table[i] == (name, a),
        find_host(table, name, from) is None <==> forall|i: int|
            from <= i < table.len() ==> (#[trigger] table[i]).0 != name,
    decreases table.len() - from,
{
    if from < table.len() {
        lemma_find_host_only_listed(table, name, from + 1);
        if table[from].0 != name {
            if let Some(a) = find_host(table, name, from) {
                let i = choose|i: int| from + 1 <= i < table.len() && #[trigger] table[i] == (name, a);
                assert(from <= i < table.len() && table[i] == (name, a));
            }
        } else {
            assert(table[from] == (name, table[from].1));
        }
    }
}

/// The address that a host table gives a name: that of its first entry with
/// this name.
pub fn lookup_host(table: &Vec<(&str, [u8; 4])>, name: &str) -> (r: Option<[u8; 4]>)
    ensures
        match r {
            Some(a) => find_host(host_entries(table@), name@, 0) == Some(a@),
            None => find_host(host_entries(table@), name@, 0) is None,
        },
        r matches Some(a) ==> exists|i: int|
            0 <= i < table@.len() && (#[trigger] table@[i]).0@ == name@ && table@[i].1 == a,
        r is None ==> forall|i: int| 0 <= i < table@.len() ==> (#[trigger] table@[i]).0@ != name@,
{
    let ghost entries = host_entries(table@);
    proof {
        lemma_find_host_only_listed(entries, name@, 0);
    }
    let mut i: usize = 0;
    while i < table.len()
        invariant
            i <= table@.len(),
            entries == host_entries(table@),
            entries.len() == table@.len(),
            find_host(entries, name@, 0) == find_host(entries, name@, i as int),
        decreases table@.len() - i,
    {
        let (host, addr) = table[i];
        assert(entries[i as int] == (host@, addr@));
        if same_text(host, name) {
            return Some(addr);
        }
        i = i + 1;
    }
    assert forall|i: int| 0 <= i < table@.len() implies (#[trigger] table@[i]).0@ != name@ by {
        assert(entries[i] == (table@[i].0@, table@[i].1@));
    }
    None
}

} // verus!
