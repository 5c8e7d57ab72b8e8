//! The additive linear secret-sharing primitives that masking rests on.
//!
//! A secret field element is split into one share per party: all but one
//! share are drawn at random, and the last is the difference that makes the
//! whole run sum to the secret. Reconstruction is the modular sum of every
//! share, so it needs all of them — which is exactly when a jar releases its
//! contents.

use vstd::prelude::*;
use crate::modular::{add_mod, add_mod_val, bytes_lt, le_val, lemma_add_sub_mod, sub_mod};

verus! {

/// The modular sum of a run of little-endian byte strings.
pub open spec fn shares_sum(s: Seq<Seq<u8>>, p: nat) -> nat
    decreases s.len(),
{
    if s.len() == 0 {
        0
    } else {
        add_mod_val(shares_sum(s.drop_last(), p), le_val(s.last()), p)
    }
}

/// Relies on rand's `RngCore::fill_bytes` on `ThreadRng` to fill a buffer
/// with random bytes; nothing is assumed of the contents.
#[verifier::external_body]
fn random_bytes(n: usize) -> (r: Vec<u8>)
    ensures
        r@.len() == n,
{
    let mut buf = vec![0u8; n];
    rand::RngCore::fill_bytes(&mut rand::thread_rng(), &mut buf);
    buf
}

/// Draw a uniform element of the field below the given odd modulus, by
/// rejection sampling; after many failed draws it falls back to zero, which
/// keeps every contract (the adjusted share still makes sums work out).
pub fn random_below(p: &Vec<u8>) -> (r: Vec<u8>)
    requires
        le_val(p@) > 0,
    ensures
        r@.len() == p@.len(),
        le_val(r@) < le_val(p@),
{
    let mut tries: usize = 0;
    while tries < 256
        invariant
            le_val(p@) > 0,
        decreases 256 - tries,
    {
        let cand = random_bytes(p.len());
        if bytes_lt(&cand, p) {
            return cand;
        }
        tries = tries + 1;
    }
    let mut zero: Vec<u8> = Vec::new();
    let mut i: usize = 0;
    while i < p.len()
        invariant
            i <= p@.len(),
            zero@.len() == i,
            forall|j: int| 0 <= j < i ==> zero@[j] == 0,
        decreases p@.len() - i,
    {
        zero.push(0u8);
        i = i + 1;
    }
    proof {
        crate::modular::lemma_le_val_zero(zero@);
    }
    zero
}

/// Split a field element into `n` shares over the modulus `p` whose modular
/// sum is the element itself: the one-per-party form of a masked secret.
pub fn share_secret(secret: &Vec<u8>, n: usize, p: &Vec<u8>) -> (r: Vec<Vec<u8>>)
    requires
        n >= 1,
        secret@.len() == p@.len(),
        le_val(secret@) < le_val(p@),
    ensures
        r@.len() == n,
        forall|j: int|
            0 <= j < n ==> (#[trigger] r@[j])@.len() == p@.len() && le_val(r@[j]@) < le_val(p@),
        shares_sum(r@.map_values(|v: Vec<u8>| v@), le_val(p@)) == le_val(secret@),
{
    let mut shares: Vec<Vec<u8>> = Vec::new();
    let mut acc: Vec<u8> = {
        let mut z: Vec<u8> = Vec::new();
        let mut i: usize = 0;
        while i < p.len()
            invariant
                i <= p@.len(),
                z@.len() == i,
                forall|j: int| 0 <= j < i ==> z@[j] == 0,
            decreases p@.len() - i,
        {
            z.push(0u8);
            i = i + 1;
        }
        proof {
            crate::modular::lemma_le_val_zero(z@);
        }
        z
    };
    let mut k: usize = 0;
    while k < n - 1
        invariant
            k <= n - 1,
            n >= 1,
            secret@.len() == p@.len(),
            le_val(secret@) < le_val(p@),
            le_val(p@) > 0,
            shares@.len() == k,
            acc@.len() == p@.len(),
            le_val(acc@) < le_val(p@),
            forall|j: int|
                0 <= j < k ==> (#[trigger] shares@[j])@.len() == p@.len() && le_val(shares@[j]@)
                    < le_val(p@),
            shares_sum(shares@.map_values(|v: Vec<u8>| v@), le_val(p@)) == le_val(acc@),
        decreases n - 1 - k,
    {
        let draw = random_below(p);
        proof {
            let old_m = shares@.map_values(|v: Vec<u8>| v@);
            assert(old_m.push(draw@).drop_last() =~= old_m);
            assert(shares@.push(draw).map_values(|v: Vec<u8>| v@) =~= old_m.push(draw@));
        }
        acc = add_mod(&acc, &draw, p);
        shares.push(draw);
        k = k + 1;
    }
    // The last share absorbs the difference, so the whole run sums back to
    // the secret.
    let last = sub_mod(secret, &acc, p);
    proof {
        let old_m = shares@.map_values(|v: Vec<u8>| v@);
        assert(old_m.push(last@).drop_last() =~= old_m);
        assert(shares@.push(last).map_values(|v: Vec<u8>| v@) =~= old_m.push(last@));
        lemma_add_sub_mod(le_val(secret@), le_val(acc@), le_val(p@));
    }
    shares.push(last);
    shares
}

/// The byte string standing for one, at the given width.
fn one_bytes(w: usize) -> (r: Vec<u8>)
    requires
        w >= 1,
    ensures
        r@.len() == w,
        le_val(r@) == 1,
{
    let mut z: Vec<u8> = Vec::new();
    z.push(1u8);
    let mut i: usize = 1;
    while i < w
        invariant
            1 <= i <= w,
            z@.len() == i,
            z@[0] == 1,
            forall|j: int| 1 <= j < i ==> z@[j] == 0,
        decreases w - i,
    {
        z.push(0u8);
        i = i + 1;
    }
    proof {
        assert(z@ =~= seq![1u8] + z@.skip(1));
        crate::modular::lemma_le_val_cons(1u8, z@.skip(1));
        crate::modular::lemma_le_val_zero(z@.skip(1));
    }
    z
}

/// Draw a non-zero element of the field below the given modulus, by
/// rejection sampling; after many failed draws it falls back to one, which
/// keeps every contract.
pub fn random_nonzero_below(p: &Vec<u8>) -> (r: Vec<u8>)
    requires
        le_val(p@) > 1,
        p@.len() >= 1,
    ensures
        r@.len() == p@.len(),
        0 < le_val(r@) < le_val(p@),
{
    let mut tries: usize = 0;
    while tries < 256
        invariant
            le_val(p@) > 1,
        decreases 256 - tries,
    {
        let cand = random_bytes(p.len());
        if bytes_lt(&cand, p) && !crate::curves::bytes_all_zero(&cand) {
            return cand;
        }
        tries = tries + 1;
    }
    one_bytes(p.len())
}

/// Split a non-zero field element into `n` non-zero shares over the modulus
/// `p` whose modular sum is the element itself. The last two shares are
/// adjusted so that no share is zero, whatever the random draws gave.
pub fn share_secret_nonzero(secret: &Vec<u8>, n: usize, p: &Vec<u8>) -> (r: Vec<Vec<u8>>)
    requires
        n >= 1,
        secret@.len() == p@.len(),
        0 < le_val(secret@) < le_val(p@),
        le_val(p@) > 3,
    ensures
        r@.len() == n,
        forall|j: int|
            0 <= j < n ==> (#[trigger] r@[j])@.len() == p@.len() && 0 < le_val(r@[j]@) < le_val(
                p@,
            ),
        shares_sum(r@.map_values(|v: Vec<u8>| v@), le_val(p@)) == le_val(secret@),
{
    let mut shares: Vec<Vec<u8>> = Vec::new();
    if n == 1 {
        let only = crate::values::copy_bytes(secret);
        proof {
            let m = shares@.push(only).map_values(|v: Vec<u8>| v@);
            assert(m.drop_last() =~= Seq::empty());
            assert(m.last() == secret@);
            assert(shares_sum(Seq::empty(), le_val(p@)) == 0);
            assert(shares_sum(m, le_val(p@)) == add_mod_val(0, le_val(secret@), le_val(p@)));
        }
        shares.push(only);
        return shares;
    }
    let mut acc: Vec<u8> = {
        let mut z: Vec<u8> = Vec::new();
        let mut i: usize = 0;
        while i < p.len()
            invariant
                i <= p@.len(),
                z@.len() == i,
                forall|j: int| 0 <= j < i ==> z@[j] == 0,
            decreases p@.len() - i,
        {
            z.push(0u8);
            i = i + 1;
        }
        proof {
            crate::modular::lemma_le_val_zero(z@);
        }
        z
    };
    let mut k: usize = 0;
    while k < n - 2
        invariant
            k <= n - 2,
            n >= 2,
            secret@.len() == p@.len(),
            le_val(secret@) < le_val(p@),
            le_val(p@) > 3,
            p@.len() >= 1,
            shares@.len() == k,
            acc@.len() == p@.len(),
            le_val(acc@) < le_val(p@),
            forall|j: int|
                0 <= j < k ==> (#[trigger] shares@[j])@.len() == p@.len() && 0 < le_val(
                    shares@[j]@,
                ) < le_val(p@),
            shares_sum(shares@.map_values(|v: Vec<u8>| v@), le_val(p@)) == le_val(acc@),
        decreases n - 2 - k,
    {
        let draw = random_nonzero_below(p);
        proof {
            let old_m = shares@.map_values(|v: Vec<u8>| v@);
            assert(old_m.push(draw@).drop_last() =~= old_m);
            assert(shares@.push(draw).map_values(|v: Vec<u8>| v@) =~= old_m.push(draw@));
        }
        acc = add_mod(&acc, &draw, p);
        shares.push(draw);
        k = k + 1;
    }
    // The next-to-last share must be non-zero and must not be the exact
    // difference that would make the last share zero; among three
    // consecutive candidates one always is.
    let t = sub_mod(secret, &acc, p);
    let one = one_bytes(p.len());
    let c = random_nonzero_below(p);
    let pick: Vec<u8>;
    if !crate::modular::bytes_eq(&c, &t) {
        proof {
            if le_val(c@) == le_val(t@) {
                crate::modular::lemma_le_val_injective(c@, t@);
            }
        }
        pick = c;
        proof {
            assert(0 < le_val(pick@) < le_val(p@) && le_val(pick@) != le_val(t@));
        }
    } else {
        let c1 = add_mod(&c, &one, p);
        if !crate::curves::bytes_all_zero(&c1) {
            // c1 differs from t == c by one step around the modulus.
            pick = c1;
            proof {
                assert(0 < le_val(pick@) < le_val(p@) && le_val(pick@) != le_val(t@));
            }
        } else {
            // c was the modulus' predecessor, so the second step lands on one.
            let c2 = add_mod(&c1, &one, p);
            pick = c2;
            proof {
                assert(le_val(pick@) == 1);
                assert(le_val(t@) == le_val(c@));
                assert(le_val(c@) + 1 == le_val(p@));
                assert(0 < le_val(pick@) < le_val(p@) && le_val(pick@) != le_val(t@));
            }
        }
    }
    proof {
        assert(0 < le_val(pick@) < le_val(p@) && le_val(pick@) != le_val(t@));
    }
    proof {
        let old_m = shares@.map_values(|v: Vec<u8>| v@);
        assert(old_m.push(pick@).drop_last() =~= old_m);
        assert(shares@.push(pick).map_values(|v: Vec<u8>| v@) =~= old_m.push(pick@));
    }
    let acc2 = add_mod(&acc, &pick, p);
    let ghost pickv = pick@;
    shares.push(pick);
    proof {
        assert(shares_sum(shares@.map_values(|v: Vec<u8>| v@), le_val(p@)) == add_mod_val(
            le_val(acc@),
            le_val(pickv),
            le_val(p@),
        ));
        assert(shares_sum(shares@.map_values(|v: Vec<u8>| v@), le_val(p@)) == le_val(acc2@));
    }
    // The last share absorbs the difference; it is non-zero because the
    // previous share avoided the one value that would cancel it.
    let last = sub_mod(secret, &acc2, p);
    proof {
        let old_m = shares@.map_values(|v: Vec<u8>| v@);
        assert(old_m.push(last@).drop_last() =~= old_m);
        assert(shares@.push(last).map_values(|v: Vec<u8>| v@) =~= old_m.push(last@));
        lemma_add_sub_mod(le_val(secret@), le_val(acc2@), le_val(p@));
        assert(shares_sum(shares@.push(last).map_values(|v: Vec<u8>| v@), le_val(p@))
            == add_mod_val(le_val(acc2@), le_val(last@), le_val(p@)));
        assert(shares_sum(shares@.push(last).map_values(|v: Vec<u8>| v@), le_val(p@)) == le_val(
            secret@,
        ));
        // A zero last share would force acc2 == secret, hence pick == t.
        assert(le_val(last@) != 0) by {
            if le_val(last@) == 0 {
                assert(le_val(acc2@) == le_val(secret@));
                assert(le_val(pickv) == le_val(t@));
            }
        }
    }
    shares.push(last);
    shares
}

/// The modulus is positive whenever some byte is set; callers reach this
/// through a prime's byte string, whose top byte is set.
pub proof fn lemma_prime_large_any(p: Seq<u8>)
    requires
        exists|j: int| 0 <= j < p.len() && p[j] != 0,
    ensures
        le_val(p) > 0,
{
    let j = choose|j: int| 0 <= j < p.len() && p[j] != 0;
    crate::modular::lemma_le_val_lower(p, j);
    assert(p[j] * crate::modular::pow256(j as nat) >= 1 * crate::modular::pow256(j as nat))
        by (nonlinear_arith)
        requires
            p[j] >= 1,
            crate::modular::pow256(j as nat) >= 0,
    ;
    crate::modular::lemma_pow256_mono(0, j as nat);
}

/// Add one share into a running reconstruction total.
pub fn combine_share(acc: &Vec<u8>, share: &Vec<u8>, p: &Vec<u8>) -> (r: Vec<u8>)
    requires
        acc@.len() == p@.len(),
        share@.len() == p@.len(),
        le_val(acc@) < le_val(p@),
        le_val(share@) < le_val(p@),
    ensures
        r@.len() == p@.len(),
        le_val(r@) < le_val(p@),
        le_val(r@) == add_mod_val(le_val(acc@), le_val(share@), le_val(p@)),
{
    add_mod(acc, share, p)
}

} // verus!
