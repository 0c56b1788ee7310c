//! The order of journals: by name, byte-wise, and then by binding.

use vstd::prelude::*;
use vstd::utf8::{encode_utf8, encode_utf8_decode_utf8};

verus! {

/// How one key stands to another.
#[derive(Clone, Copy, Debug, PartialEq, Eq, Structural)]
pub enum Standing {
    Before,
    Same,
    After,
}

/// Lexicographic order of byte strings.
pub open spec fn bytes_before(a: Seq<u8>, b: Seq<u8>) -> bool
    decreases a.len(),
{
    if b.len() == 0 {
        false
    } else if a.len() == 0 {
        true
    } else if a[0] != b[0] {
        a[0] < b[0]
    } else {
        bytes_before(a.drop_first(), b.drop_first())
    }
}

pub proof fn lemma_bytes_before_total(a: Seq<u8>, b: Seq<u8>)
    ensures
        bytes_before(a, b) || a == b || bytes_before(b, a),
        bytes_before(a, b) ==> !bytes_before(b, a) && a != b,
    decreases a.len(),
{
    if a.len() > 0 && b.len() > 0 && a[0] == b[0] {
        lemma_bytes_before_total(a.drop_first(), b.drop_first());
        assert(a =~= seq![a[0]] + a.drop_first());
        assert(b =~= seq![b[0]] + b.drop_first());
    } else if a.len() == 0 && b.len() == 0 {
        assert(a =~= b);
    }
}

pub proof fn lemma_bytes_before_transitive(a: Seq<u8>, b: Seq<u8>, c: Seq<u8>)
    requires
        bytes_before(a, b),
        bytes_before(b, c),
    ensures
        bytes_before(a, c),
    decreases a.len(),
{
    if a.len() > 0 && a[0] == b[0] && b[0] == c[0] {
        lemma_bytes_before_transitive(a.drop_first(), b.drop_first(), c.drop_first());
    }
}

/// Skipping a common prefix does not change how two byte strings compare.
proof fn lemma_skip_common(a: Seq<u8>, b: Seq<u8>, i: int)
    requires
        0 <= i <= a.len(),
        i <= b.len(),
        forall|j: int| 0 <= j < i ==> a[j] == b[j],
    ensures
        bytes_before(a, b) == bytes_before(a.skip(i), b.skip(i)),
    decreases i,
{
    if i > 0 {
        lemma_skip_common(a.drop_first(), b.drop_first(), i - 1);
        assert(a.drop_first().skip(i - 1) =~= a.skip(i));
        assert(b.drop_first().skip(i - 1) =~= b.skip(i));
    } else {
        assert(a.skip(0) =~= a);
        assert(b.skip(0) =~= b);
    }
}

fn compare_bytes(a: &[u8], b: &[u8]) -> (standing: Standing)
    ensures
        standing == Standing::Before <==> bytes_before(a@, b@),
        standing == Standing::Same <==> a@ == b@,
        standing == Standing::After <==> bytes_before(b@, a@),
{
    let mut i: usize = 0;
    while i < a.len() && i < b.len() && a[i] == b[i]
        invariant
            i <= a@.len(),
            i <= b@.len(),
            forall|j: int| 0 <= j < i ==> a@[j] == b@[j],
        decreases a@.len() - i,
    {
        i += 1;
    }
    proof {
        lemma_skip_common(a@, b@, i as int);
        lemma_skip_common(b@, a@, i as int);
        lemma_bytes_before_total(a@, b@);
        lemma_bytes_before_total(b@, a@);
        if i == a@.len() && i == b@.len() {
            assert(a@ =~= b@);
        }
    }
    if i == a.len() {
        if i == b.len() {
            Standing::Same
        } else {
            Standing::Before
        }
    } else if i == b.len() {
        Standing::After
    } else if a[i] < b[i] {
        Standing::Before
    } else {
        Standing::After
    }
}

/// A journal name and a binding index.
pub type JournalKey = (Seq<char>, u16);

/// Whether `a` sorts before `b`: by the bytes of the journal name, then by binding.
pub open spec fn key_before(a: JournalKey, b: JournalKey) -> bool {
    bytes_before(encode_utf8(a.0), encode_utf8(b.0)) || (a.0 == b.0 && a.1 < b.1)
}

/// The order of keys is strict and total.
pub proof fn key_order_is_total(a: JournalKey, b: JournalKey)
    ensures
        key_before(a, b) || a == b || key_before(b, a),
        key_before(a, b) ==> !key_before(b, a) && a != b,
{
    lemma_bytes_before_total(encode_utf8(a.0), encode_utf8(b.0));
    lemma_bytes_before_total(encode_utf8(b.0), encode_utf8(a.0));
    encode_utf8_decode_utf8(a.0);
    encode_utf8_decode_utf8(b.0);
}

/// The order of keys is transitive.
pub proof fn key_order_is_transitive(a: JournalKey, b: JournalKey, c: JournalKey)
    requires
        key_before(a, b),
        key_before(b, c),
    ensures
        key_before(a, c),
{
    let (x, y, z) = (encode_utf8(a.0), encode_utf8(b.0), encode_utf8(c.0));
    if bytes_before(x, y) && bytes_before(y, z) {
        lemma_bytes_before_transitive(x, y, z);
    }
}

/// Compare two journal keys.
pub fn compare_keys(a: &str, a_binding: u16, b: &str, b_binding: u16) -> (standing: Standing)
    ensures
        standing == Standing::Before <==> key_before((a@, a_binding), (b@, b_binding)),
        standing == Standing::Same <==> (a@, a_binding) == (b@, b_binding),
        standing == Standing::After <==> key_before((b@, b_binding), (a@, a_binding)),
{
    proof {
        key_order_is_total((a@, a_binding), (b@, b_binding));
        key_order_is_total((b@, b_binding), (a@, a_binding));
        encode_utf8_decode_utf8(a@);
        encode_utf8_decode_utf8(b@);
        lemma_bytes_before_total(encode_utf8(a@), encode_utf8(b@));
    }
    match compare_bytes(a.as_bytes(), b.as_bytes()) {
        Standing::Before => Standing::Before,
        Standing::After => Standing::After,
        Standing::Same => {
            if a_binding < b_binding {
                Standing::Before
            } else if a_binding == b_binding {
                Standing::Same
            } else {
                Standing::After
            }
        },
    }
}

/// Of two byte strings, the one with the lesser byte where they first differ is before the
/// other. A proper prefix is before what it is a prefix of.
pub proof fn byte_order_is_told_by_the_first_difference(a: Seq<u8>, b: Seq<u8>, i: int)
    requires
        0 <= i <= a.len(),
        i < b.len(),
        a.take(i) == b.take(i),
        i < a.len() ==> a[i] < b[i],
    ensures
        bytes_before(a, b),
        !bytes_before(b, a),
    decreases i,
{
    if i > 0 {
        assert(a[0] == a.take(i)[0]);
        assert(b[0] == b.take(i)[0]);
        let (ra, rb) = (a.drop_first(), b.drop_first());
        assert(ra.take(i - 1) =~= a.take(i).drop_first());
        assert(rb.take(i - 1) =~= b.take(i).drop_first());
        byte_order_is_told_by_the_first_difference(ra, rb, i - 1);
    }
}

/// Journals are ordered by the encoded bytes of their names, and those of one name by their
/// bindings.
pub proof fn journals_are_ordered_by_name_and_binding(a: JournalKey, b: JournalKey)
    ensures
        bytes_before(encode_utf8(a.0), encode_utf8(b.0)) ==> key_before(a, b),
        a.0 == b.0 ==> (key_before(a, b) <==> a.1 < b.1),
        a.0 != b.0 ==> (key_before(a, b) <==> bytes_before(encode_utf8(a.0), encode_utf8(b.0))),
{
    key_order_is_total(a, b);
    lemma_bytes_before_total(encode_utf8(a.0), encode_utf8(b.0));
    if a.0 == b.0 {
        assert(!bytes_before(encode_utf8(a.0), encode_utf8(b.0)));
    }
}

} // verus!
