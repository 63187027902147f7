use vstd::prelude::*;

verus! {

broadcast use vstd::utf8::encode_utf8_decode_utf8;

/// The UTF-8 bytes of a text.
pub open spec fn bytes_of(s: Seq<char>) -> Seq<u8> {
    vstd::utf8::encode_utf8(s)
}

/// `i` is where `a` and `b` first part: they agree before `i`, and `a` ends at
/// `i` while `b` goes on, or both go on with a smaller byte in `a`.
pub open spec fn first_lower_at(a: Seq<u8>, b: Seq<u8>, i: int) -> bool {
    &&& 0 <= i <= a.len()
    &&& i <= b.len()
    &&& forall|k: int| 0 <= k < i ==> a[k] == b[k]
    &&& (i == a.len() && i < b.len()) || (i < a.len() && i < b.len() && a[i] < b[i])
}

/// Byte-wise lexicographic order, the order of `str`'s `Ord`.
pub open spec fn bytes_less(a: Seq<u8>, b: Seq<u8>) -> bool {
    exists|i: int| first_lower_at(a, b, i)
}

/// Lexicographic order on texts, by their UTF-8 bytes.
pub open spec fn text_less(a: Seq<char>, b: Seq<char>) -> bool {
    bytes_less(bytes_of(a), bytes_of(b))
}

pub proof fn lemma_bytes_less_irreflexive(a: Seq<u8>)
    ensures
        !bytes_less(a, a),
{
}

pub proof fn lemma_bytes_less_asymmetric(a: Seq<u8>, b: Seq<u8>)
    requires
        bytes_less(a, b),
    ensures
        !bytes_less(b, a),
{
    let i = choose|i: int| first_lower_at(a, b, i);
    if bytes_less(b, a) {
        let j = choose|j: int| first_lower_at(b, a, j);
        if i < j {
            assert(a[i] == b[i]);
        } else if j < i {
            assert(a[j] == b[j]);
        }
    }
}

pub proof fn lemma_bytes_less_transitive(a: Seq<u8>, b: Seq<u8>, c: Seq<u8>)
    requires
        bytes_less(a, b),
        bytes_less(b, c),
    ensures
        bytes_less(a, c),
{
    let i = choose|i: int| first_lower_at(a, b, i);
    let j = choose|j: int| first_lower_at(b, c, j);
    if i <= j {
        assert(first_lower_at(a, c, i));
    } else {
        assert(first_lower_at(a, c, j));
    }
}

pub proof fn lemma_text_less_differs(a: Seq<char>, b: Seq<char>)
    requires
        text_less(a, b),
    ensures
        a != b,
{
    lemma_bytes_less_irreflexive(bytes_of(a));
}

/// Compares two texts: negative when `a` comes first, zero when they are the
/// same text, positive when `b` comes first.
pub fn compare_text(a: &str, b: &str) -> (r: i8)
    ensures
        r < 0 <==> text_less(a@, b@),
        r == 0 <==> a@ == b@,
        r > 0 <==> text_less(b@, a@),
{
    let ab = a.as_bytes();
    let bb = b.as_bytes();
    proof {
        assert(ab@ == bytes_of(a@));
        assert(bb@ == bytes_of(b@));
    }
    let mut i: usize = 0;
    while i < ab.len() && i < bb.len() && ab[i] == bb[i]
        invariant
            0 <= i <= ab@.len(),
            i <= bb@.len(),
            forall|k: int| 0 <= k < i ==> ab@[k] == bb@[k],
        decreases ab@.len() - i,
    {
        i = i + 1;
    }
    if i < ab.len() && i < bb.len() {
        if ab[i] < bb[i] {
            assert(first_lower_at(ab@, bb@, i as int));
            proof { lemma_bytes_less_asymmetric(ab@, bb@); }
            -1
        } else {
            assert(first_lower_at(bb@, ab@, i as int));
            proof { lemma_bytes_less_asymmetric(bb@, ab@); }
            1
        }
    } else if i < bb.len() {
        assert(first_lower_at(ab@, bb@, i as int));
        proof { lemma_bytes_less_asymmetric(ab@, bb@); }
        -1
    } else if i < ab.len() {
        assert(first_lower_at(bb@, ab@, i as int));
        proof { lemma_bytes_less_asymmetric(bb@, ab@); }
        1
    } else {
        assert(ab@ =~= bb@);
        assert(vstd::utf8::decode_utf8(bytes_of(a@)) == a@);
        assert(vstd::utf8::decode_utf8(bytes_of(b@)) == b@);
        proof { lemma_bytes_less_irreflexive(ab@); }
        0
    }
}

} // verus!
