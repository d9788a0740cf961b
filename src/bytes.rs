use vstd::prelude::*;

verus! {

/// The path separator byte (`/`).
pub const SEPARATOR: u8 = 0x2f;

/// Appends `name` to `parent` as one more path component, the way a path
/// buffer does it: a separator goes between them unless `parent` is empty
/// or already ends with one.
pub open spec fn join(parent: Seq<u8>, name: Seq<u8>) -> Seq<u8> {
    if parent.len() == 0 || parent.last() == SEPARATOR {
        parent + name
    } else {
        parent.push(SEPARATOR) + name
    }
}

/// Lexicographic comparison of `a[k..]` and `b[k..]`: -1, 0 or 1.
pub open spec fn cmp_from(a: Seq<u8>, b: Seq<u8>, k: int) -> int
    decreases a.len() - k,
{
    if k < 0 || k >= a.len() {
        if k >= 0 && k < b.len() { -1 } else { 0 }
    } else if k >= b.len() {
        1
    } else if a[k] < b[k] {
        -1
    } else if a[k] > b[k] {
        1
    } else {
        cmp_from(a, b, k + 1)
    }
}

/// Lexicographic byte order: -1 when `a < b`, 0 when equal, 1 when `a > b`.
pub open spec fn byte_cmp(a: Seq<u8>, b: Seq<u8>) -> int {
    cmp_from(a, b, 0)
}

proof fn lemma_cmp_from_flip(a: Seq<u8>, b: Seq<u8>, k: int)
    requires
        0 <= k,
    ensures
        cmp_from(a, b, k) == -cmp_from(b, a, k),
    decreases a.len() - k,
{
    if k < a.len() && k < b.len() && a[k] == b[k] {
        lemma_cmp_from_flip(a, b, k + 1);
    }
}

proof fn lemma_cmp_from_same(a: Seq<u8>, k: int)
    requires
        0 <= k,
    ensures
        cmp_from(a, a, k) == 0,
    decreases a.len() - k,
{
    if k < a.len() {
        lemma_cmp_from_same(a, k + 1);
    }
}

/// A byte string compares equal to itself.
pub proof fn lemma_byte_cmp_same(a: Seq<u8>)
    ensures
        byte_cmp(a, a) == 0,
{
    lemma_cmp_from_same(a, 0);
}

/// Byte order is antisymmetric: swapping the operands flips the sign.
pub proof fn lemma_byte_cmp_flip(a: Seq<u8>, b: Seq<u8>)
    ensures
        byte_cmp(a, b) == -byte_cmp(b, a),
{
    lemma_cmp_from_flip(a, b, 0);
}

/// A sequence of byte strings, seen as sequences.
pub open spec fn paths_view(v: Seq<Vec<u8>>) -> Seq<Seq<u8>> {
    v.map_values(|p: Vec<u8>| p@)
}

pub proof fn lemma_paths_view_concat(a: Seq<Vec<u8>>, b: Seq<Vec<u8>>)
    ensures
        paths_view(a + b) == paths_view(a) + paths_view(b),
{
    assert(paths_view(a + b) =~= paths_view(a) + paths_view(b));
}

/// Compares two byte strings lexicographically.
pub fn compare_bytes(a: &Vec<u8>, b: &Vec<u8>) -> (r: i8)
    ensures
        r as int == byte_cmp(a@, b@),
{
    let mut k: usize = 0;
    while k < a.len() && k < b.len()
        invariant
            0 <= k <= a@.len(),
            k <= b@.len(),
            cmp_from(a@, b@, 0) == cmp_from(a@, b@, k as int),
        decreases a.len() - k,
    {
        if a[k] < b[k] {
            return -1;
        } else if a[k] > b[k] {
            return 1;
        }
        k = k + 1;
    }
    if k < b.len() {
        -1
    } else if k < a.len() {
        1
    } else {
        0
    }
}

/// Whether two byte strings are equal.
pub fn bytes_equal(a: &Vec<u8>, b: &Vec<u8>) -> (r: bool)
    ensures
        r == (a@ == b@),
{
    if a.len() != b.len() {
        return false;
    }
    let mut k: usize = 0;
    while k < a.len()
        invariant
            0 <= k <= a@.len(),
            a@.len() == b@.len(),
            forall|m: int| 0 <= m < k ==> a@[m] == b@[m],
        decreases a.len() - k,
    {
        if a[k] != b[k] {
            return false;
        }
        k = k + 1;
    }
    assert(a@ =~= b@);
    true
}

/// Appends the bytes of `src` to `dst`.
pub fn extend_bytes(dst: &mut Vec<u8>, src: &[u8])
    ensures
        final(dst)@ == old(dst)@ + src@,
{
    let mut k: usize = 0;
    while k < src.len()
        invariant
            0 <= k <= src@.len(),
            dst@ == old(dst)@ + src@.subrange(0, k as int),
        decreases src.len() - k,
    {
        dst.push(src[k]);
        k = k + 1;
        assert(dst@ =~= old(dst)@ + src@.subrange(0, k as int));
    }
    assert(src@.subrange(0, src@.len() as int) =~= src@);
}

/// Copies a byte string.
pub fn copy_bytes(src: &Vec<u8>) -> (r: Vec<u8>)
    ensures
        r@ == src@,
{
    let mut r: Vec<u8> = Vec::new();
    extend_bytes(&mut r, src.as_slice());
    assert(r@ =~= src@);
    r
}

/// `name` appended to `parent` as one more path component.
pub fn join_path(parent: &Vec<u8>, name: &Vec<u8>) -> (r: Vec<u8>)
    ensures
        r@ == join(parent@, name@),
{
    let mut r = copy_bytes(parent);
    if parent.len() > 0 && parent[parent.len() - 1] != SEPARATOR {
        r.push(SEPARATOR);
    }
    extend_bytes(&mut r, name.as_slice());
    r
}

} // verus!
