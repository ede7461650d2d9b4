use std::hash::Hasher;

use vstd::prelude::*;

use crate::sprite::InputSprite;

verus! {

/// The XxHash64 digest (seed 0) of a byte sequence.
pub uninterp spec fn xxhash64_of(bytes: Seq<u8>) -> u64;

/// Relies on twox_hash::XxHash64 (seed 0, one `write`, then `finish`): the digest of
/// the bytes, a function of the bytes alone.
#[verifier::external_body]
fn content_hash(bytes: &Vec<u8>) -> (r: u64)
    ensures
        r == xxhash64_of(bytes@),
{
    let mut hasher = twox_hash::XxHash64::with_seed(0);
    hasher.write(bytes.as_slice());
    hasher.finish()
}

/// The pixel bytes of each sprite, in input order.
pub open spec fn pixels(input: Seq<InputSprite>) -> Seq<Seq<u8>> {
    input.map_values(|s: InputSprite| s.bytes@)
}

/// `c` is the first index whose bytes equal those of index `i`.
pub open spec fn is_canonical(pix: Seq<Seq<u8>>, i: int, c: int) -> bool {
    &&& 0 <= c <= i
    &&& pix[c] == pix[i]
    &&& forall|j: int| 0 <= j < c ==> pix[j] != pix[i]
}

/// The alias table: for each input index, the first index with the same bytes. An
/// index that is its own entry is kept for packing; any other is a duplicate of the
/// sprite at its entry.
pub open spec fn alias_table(pix: Seq<Seq<u8>>, canon: Seq<usize>) -> bool {
    &&& canon.len() == pix.len()
    &&& forall|i: int| 0 <= i < pix.len() ==> #[trigger] is_canonical(pix, i, canon[i] as int)
}

/// The first index is the only one: no two indices are canonical for one input.
pub proof fn lemma_canonical_unique(pix: Seq<Seq<u8>>, i: int, c1: int, c2: int)
    requires
        is_canonical(pix, i, c1),
        is_canonical(pix, i, c2),
    ensures
        c1 == c2,
{
}

/// The entry of a kept index is the index itself, so an entry is always a kept index.
pub proof fn lemma_canonical_kept(pix: Seq<Seq<u8>>, canon: Seq<usize>, i: int)
    requires
        alias_table(pix, canon),
        0 <= i < pix.len(),
    ensures
        canon[i] <= i,
        canon[canon[i] as int] == canon[i],
{
    let c = canon[i] as int;
    assert(is_canonical(pix, i, c));
    assert(is_canonical(pix, c, canon[c] as int));
    assert(is_canonical(pix, c, c));
    lemma_canonical_unique(pix, c, c, canon[c] as int);
}

/// Two equal byte buffers.
fn same_bytes(a: &Vec<u8>, b: &Vec<u8>) -> (r: bool)
    ensures
        r == (a@ == b@),
{
    if a.len() != b.len() {
        return false;
    }
    let mut k: usize = 0;
    while k < a.len()
        invariant
            a@.len() == b@.len(),
            k <= a@.len(),
            forall|q: int| 0 <= q < k ==> a@[q] == b@[q],
        decreases a.len() - k,
    {
        if a[k] != b[k] {
            return false;
        }
        k = k + 1;
    }
    proof {
        assert(a@ =~= b@);
    }
    true
}

/// Resolves duplicates: each index is mapped to the first index with byte-identical
/// pixels. Digests filter the candidates; bytes decide.
pub fn resolve_aliases(input: &Vec<InputSprite>) -> (canon: Vec<usize>)
    ensures
        alias_table(pixels(input@), canon@),
{
    let ghost pix = pixels(input@);
    let n = input.len();
    let mut hashes: Vec<u64> = Vec::new();
    let mut canon: Vec<usize> = Vec::new();
    let mut i: usize = 0;
    while i < n
        invariant
            n == input@.len(),
            pix == pixels(input@),
            i <= n,
            hashes@.len() == i,
            canon@.len() == i,
            forall|j: int| 0 <= j < i ==> hashes@[j] == xxhash64_of(#[trigger] pix[j]),
            forall|j: int| 0 <= j < i ==> #[trigger] is_canonical(pix, j, canon@[j] as int),
        decreases n - i,
    {
        let h = content_hash(&input[i].bytes);
        proof {
            assert(pix[i as int] == input@[i as int].bytes@);
        }
        let mut c: usize = i;
        let mut j: usize = 0;
        let mut found = false;
        while j < i && !found
            invariant
                n == input@.len(),
                pix == pixels(input@),
                i < n,
                j <= i,
                hashes@.len() == i,
                h == xxhash64_of(pix[i as int]),
                forall|q: int| 0 <= q < i ==> hashes@[q] == xxhash64_of(#[trigger] pix[q]),
                !found ==> c == i,
                found ==> c < i && j == i && pix[c as int] == pix[i as int],
                forall|q: int| 0 <= q < j && q < c ==> pix[q] != pix[i as int],
            decreases i - j,
        {
            if hashes[j] == h && same_bytes(&input[j].bytes, &input[i].bytes) {
                c = j;
                found = true;
                j = i;
            } else {
              proof {
                assert(pix[j as int] == input@[j as int].bytes@);
                if pix[j as int] == pix[i as int] {
                    assert(hashes@[j as int] == xxhash64_of(pix[j as int]));
                }
              }
              j = j + 1;
            }
        }
        proof {
            assert(pix[c as int] == input@[c as int].bytes@);
            assert(is_canonical(pix, i as int, c as int));
        }
        hashes.push(h);
        canon.push(c);
        i = i + 1;
    }
    canon
}

} // verus!
