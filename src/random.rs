use vstd::prelude::*;
use crate::bytes::{be_u64, read_be_u64};
use crate::merkle::{hash_sha, sha256_of};

verus! {

/// The bytes that the next extension step hashes: the last 32 bytes, or all of them if fewer.
pub open spec fn seed_window(data: Seq<u8>) -> Seq<u8> {
    if data.len() > 32 {
        data.subrange(data.len() - 32, data.len() as int)
    } else {
        data
    }
}

/// `seed` after `k` extension steps, each of which appends the digest of the current window.
pub open spec fn extended_seed(seed: Seq<u8>, k: nat) -> Seq<u8>
    decreases k,
{
    if k == 0 {
        seed
    } else {
        let d = extended_seed(seed, (k - 1) as nat);
        d + sha256_of(seed_window(d))
    }
}

/// How many extension steps bring `len` bytes to at least `need`, at 32 bytes a step.
pub open spec fn extension_steps(len: nat, need: nat) -> nat {
    if len >= need {
        0
    } else {
        ((need - len + 31) / 32) as nat
    }
}

/// The index that the word `w` gives: `w mod modulus`, or, when multiples of `e` are excluded,
/// `w` reduced into `modulus (e - 1) / e` slots and spread out so that every `e`-th index is skipped.
pub open spec fn index_from_word(w: int, modulus: int, e: int) -> int {
    if e == 0 {
        w % modulus
    } else {
        let x = w % (modulus * (e - 1) / e);
        x + 1 + x / (e - 1)
    }
}

/// `modulus` and `e` fit together: `e == 0` with a positive modulus, or `e >= 2` leaving at
/// least one slot, `modulus (e - 1) / e >= 1`.
pub open spec fn compatible_modulus(modulus: int, e: int) -> bool {
    ||| e == 0 && modulus > 0
    ||| e >= 2 && modulus * (e - 1) / e >= 1
}

proof fn lemma_skip_multiples(x: int, modulus: int, e: int)
    requires
        e >= 2,
        0 <= x < modulus * (e - 1) / e,
    ensures
        x + 1 + x / (e - 1) < modulus,
        (x + 1 + x / (e - 1)) % e != 0,
{
    let a = x / (e - 1);
    let b = x % (e - 1);
    let mm = modulus * (e - 1) / e;
    vstd::arithmetic::div_mod::lemma_fundamental_div_mod(x, e - 1);
    vstd::arithmetic::div_mod::lemma_mod_bound(x, e - 1);
    vstd::arithmetic::div_mod::lemma_fundamental_div_mod(modulus * (e - 1), e);
    vstd::arithmetic::div_mod::lemma_mod_bound(modulus * (e - 1), e);
    assert(mm * e <= modulus * (e - 1));
    assert(e * (x + 1) <= mm * e) by (nonlinear_arith)
        requires
            x + 1 <= mm,
            e >= 2,
    ;
    assert(e * (x + 1) == (e - 1) * (a * e) + e * (b + 1)) by (nonlinear_arith)
        requires
            x == (e - 1) * a + b,
    ;
    assert((a * e + b + 1) * (e - 1) == (e - 1) * (a * e) + (b + 1) * (e - 1)) by (nonlinear_arith);
    assert((b + 1) * (e - 1) == e * (b + 1) - (b + 1)) by (nonlinear_arith);
    assert((a * e + b + 1) * (e - 1) < modulus * (e - 1));
    assert(a * e + b + 1 < modulus) by (nonlinear_arith)
        requires
            (a * e + b + 1) * (e - 1) < modulus * (e - 1),
            e >= 2,
    ;
    assert(x + 1 + a == e * a + (b + 1)) by (nonlinear_arith)
        requires
            x == (e - 1) * a + b,
    ;
    vstd::arithmetic::div_mod::lemma_fundamental_div_mod_converse(e * a + (b + 1), e, a, b + 1);
}

/// Whether `modulus` and `e` fit together for `get_pseudorandom_indices`.
pub fn is_compatible_modulus(modulus: u64, e: u64) -> (r: bool)
    ensures
        r == compatible_modulus(modulus as int, e as int),
{
    if e == 0 {
        return modulus > 0;
    }
    if e == 1 {
        return false;
    }
    proof {
        assert((modulus as int) * ((e - 1) as int) < 0x1_0000_0000_0000_0000_0000_0000_0000_0000) by (nonlinear_arith)
            requires modulus < 0x1_0000_0000_0000_0000, e < 0x1_0000_0000_0000_0000, e >= 2;
    }
    (modulus as u128) * ((e - 1) as u128) / (e as u128) >= 1
}

/// `count` pseudorandom indices below `modulus` drawn from `seed`: the seed is extended by
/// hashing until it holds `8 * count` bytes, and each 8-byte big-endian word gives one index.
/// With `exclude_multiples_of` nonzero no index is a multiple of it.
pub fn get_pseudorandom_indices(seed: &[u8], modulus: u64, count: usize, exclude_multiples_of: u64) -> (r: Vec<u64>)
    requires
        compatible_modulus(modulus as int, exclude_multiples_of as int),
        count <= usize::MAX / 8,
        seed.len() + 8 * count + 32 <= usize::MAX,
    ensures
        r.len() == count,
        forall|i: int| 0 <= i < count ==> #[trigger] r[i] as int == index_from_word(
            be_u64(extended_seed(seed@, extension_steps(seed@.len(), 8 * count as nat)), 8 * i),
            modulus as int,
            exclude_multiples_of as int,
        ),
        forall|i: int| 0 <= i < count ==> #[trigger] r[i] < modulus,
        exclude_multiples_of != 0 ==> forall|i: int| 0 <= i < count ==> #[trigger] (r[i] % exclude_multiples_of) != 0,
{
    let mut data: Vec<u8> = Vec::new();
    let mut i: usize = 0;
    while i < seed.len()
        invariant
            i <= seed.len(),
            data@ == seed@.subrange(0, i as int),
        decreases seed.len() - i,
    {
        data.push(seed[i]);
        i = i + 1;
        proof {
            assert(data@ =~= seed@.subrange(0, i as int));
        }
    }
    proof {
        assert(data@ =~= seed@);
    }
    let need: usize = 8 * count;
    let ghost k: nat = 0;
    while data.len() < need
        invariant
            data@ == extended_seed(seed@, k),
            data.len() == seed.len() + 32 * k,
            k > 0 ==> data.len() < need + 32,
            k <= extension_steps(seed@.len(), need as nat),
            k < extension_steps(seed@.len(), need as nat) <==> data.len() < need,
            need == 8 * count,
            seed.len() + 8 * count + 32 <= usize::MAX,
        decreases extension_steps(seed@.len(), need as nat) - k,
    {
        let len = data.len();
        let start: usize = if len > 32 { len - 32 } else { 0 };
        let mut window: Vec<u8> = Vec::new();
        let mut j: usize = start;
        while j < len
            invariant
                start <= j <= len,
                len == data.len(),
                window@ == data@.subrange(start as int, j as int),
            decreases len - j,
        {
            window.push(data[j]);
            j = j + 1;
            proof {
                assert(window@ =~= data@.subrange(start as int, j as int));
            }
        }
        proof {
            if len <= 32 {
                assert(data@.subrange(0, len as int) =~= data@);
            }
        }
        let digest = hash_sha(window);
        let mut j: usize = 0;
        let ghost before = data@;
        while j < digest.len()
            invariant
                j <= digest.len(),
                digest.len() == 32,
                data@ == before + digest@.subrange(0, j as int),
            decreases digest.len() - j,
        {
            data.push(digest[j]);
            j = j + 1;
            proof {
                assert(data@ =~= before + digest@.subrange(0, j as int));
            }
        }
        proof {
            assert(digest@.subrange(0, 32) =~= digest@);
            k = k + 1;
        }
    }
    let mut out: Vec<u64> = Vec::new();
    let mut i: usize = 0;
    while i < count
        invariant
            i <= count,
            need == 8 * count,
            data.len() >= need,
            data@ == extended_seed(seed@, extension_steps(seed@.len(), 8 * count as nat)),
            compatible_modulus(modulus as int, exclude_multiples_of as int),
            out.len() == i,
            forall|t: int| 0 <= t < i ==> #[trigger] out[t] as int == index_from_word(
                be_u64(data@, 8 * t), modulus as int, exclude_multiples_of as int),
            forall|t: int| 0 <= t < i ==> #[trigger] out[t] < modulus,
            exclude_multiples_of != 0 ==> forall|t: int| 0 <= t < i ==> #[trigger] (out[t] % exclude_multiples_of) != 0,
        decreases count - i,
    {
        let w = read_be_u64(&data, 8 * i);
        let v: u64 = if exclude_multiples_of == 0 {
            w % modulus
        } else {
            let e = exclude_multiples_of;
            proof {
                assert((modulus as int) * ((e - 1) as int) < 0x1_0000_0000_0000_0000_0000_0000_0000_0000) by (nonlinear_arith)
                    requires modulus < 0x1_0000_0000_0000_0000, e < 0x1_0000_0000_0000_0000, e >= 2;
                assert((modulus as int) * ((e - 1) as int) <= (modulus as int) * (e as int)) by (nonlinear_arith)
                    requires e >= 2;
                vstd::arithmetic::div_mod::lemma_div_is_ordered((modulus as int) * ((e - 1) as int), (modulus as int) * (e as int), e as int);
                vstd::arithmetic::div_mod::lemma_div_by_multiple(modulus as int, e as int);
            }
            let real_modulus: u64 = ((modulus as u128) * ((e - 1) as u128) / (e as u128)) as u64;
            let x = w % real_modulus;
            proof {
                lemma_skip_multiples(x as int, modulus as int, e as int);
            }
            x + 1 + x / (e - 1)
        };
        out.push(v);
        i = i + 1;
    }
    out
}

} // verus!
