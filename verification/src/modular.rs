//! Little-endian byte-string arithmetic over a fixed prime modulus.
//!
//! Every numeric value that travels through the masker is a field element,
//! carried as a fixed-width little-endian byte string strictly below the
//! modulus. This module defines the three moduli the maskers offer, the
//! mathematical value of a byte string, and the additive arithmetic that
//! masking and reconstruction are built on.

use vstd::prelude::*;

verus! {

/// The prime field sizes under which values are encoded and shared.
///
/// Each is the largest safe prime that fits the advertised width.
#[derive(Clone, Copy, PartialEq, Eq, Structural, Debug)]
pub enum EncodedModulo {
    U64SafePrime,
    U128SafePrime,
    U256SafePrime,
}

impl EncodedModulo {
    /// Width in bytes of every encoded number under this modulus.
    pub open spec fn spec_width(self) -> nat {
        match self {
            EncodedModulo::U64SafePrime => 8,
            EncodedModulo::U128SafePrime => 16,
            EncodedModulo::U256SafePrime => 32,
        }
    }

    /// Width in bytes of every encoded number under this modulus.
    pub fn width(&self) -> (w: usize)
        ensures
            w == self.spec_width(),
    {
        match self {
            EncodedModulo::U64SafePrime => 8,
            EncodedModulo::U128SafePrime => 16,
            EncodedModulo::U256SafePrime => 32,
        }
    }

    /// The modulus itself, as little-endian bytes of the fixed width.
    pub open spec fn spec_prime_bytes(self) -> Seq<u8> {
        match self {
            EncodedModulo::U64SafePrime => seq![0x43u8, 0xfa, 0xff, 0xff, 0xff, 0xff, 0xff, 0xff],
            EncodedModulo::U128SafePrime => seq![
                0xa7u8, 0xc3, 0xff, 0xff, 0xff, 0xff, 0xff, 0xff,
                0xff, 0xff, 0xff, 0xff, 0xff, 0xff, 0xff, 0xff,
            ],
            EncodedModulo::U256SafePrime => seq![
                0xefu8, 0x72, 0xff, 0xff, 0xff, 0xff, 0xff, 0xff,
                0xff, 0xff, 0xff, 0xff, 0xff, 0xff, 0xff, 0xff,
                0xff, 0xff, 0xff, 0xff, 0xff, 0xff, 0xff, 0xff,
                0xff, 0xff, 0xff, 0xff, 0xff, 0xff, 0xff, 0xff,
            ],
        }
    }

    /// The modulus as a natural number.
    pub open spec fn spec_prime(self) -> nat {
        le_val(self.spec_prime_bytes())
    }

    /// The modulus itself, as little-endian bytes of the fixed width.
    pub fn prime_bytes(&self) -> (p: Vec<u8>)
        ensures
            p@ == self.spec_prime_bytes(),
    {
        match self {
            EncodedModulo::U64SafePrime => {
                let v: Vec<u8> = vec![0x43u8, 0xfa, 0xff, 0xff, 0xff, 0xff, 0xff, 0xff];
                proof {
                    assert(v@ =~= self.spec_prime_bytes());
                }
                v
            }
            EncodedModulo::U128SafePrime => {
                let v: Vec<u8> = vec![
                    0xa7u8, 0xc3, 0xff, 0xff, 0xff, 0xff, 0xff, 0xff,
                    0xff, 0xff, 0xff, 0xff, 0xff, 0xff, 0xff, 0xff,
                ];
                proof {
                    assert(v@ =~= self.spec_prime_bytes());
                }
                v
            }
            EncodedModulo::U256SafePrime => {
                let v: Vec<u8> = vec![
                    0xefu8, 0x72, 0xff, 0xff, 0xff, 0xff, 0xff, 0xff,
                    0xff, 0xff, 0xff, 0xff, 0xff, 0xff, 0xff, 0xff,
                    0xff, 0xff, 0xff, 0xff, 0xff, 0xff, 0xff, 0xff,
                    0xff, 0xff, 0xff, 0xff, 0xff, 0xff, 0xff, 0xff,
                ];
                proof {
                    assert(v@ =~= self.spec_prime_bytes());
                }
                v
            }
        }
    }
}

/// 256 raised to the power `n`: the weight of the byte at position `n`.
pub open spec fn pow256(n: nat) -> nat
    decreases n,
{
    if n == 0 {
        1
    } else {
        256 * pow256((n - 1) as nat)
    }
}

/// The natural number that a little-endian byte string denotes.
pub open spec fn le_val(s: Seq<u8>) -> nat
    decreases s.len(),
{
    if s.len() == 0 {
        0
    } else {
        (le_val(s.drop_last()) + s.last() * pow256((s.len() - 1) as nat)) as nat
    }
}

/// A byte string of length `n` denotes a value below `256^n`.
pub proof fn lemma_le_val_bound(s: Seq<u8>)
    ensures
        le_val(s) < pow256(s.len()),
    decreases s.len(),
{
    if s.len() == 0 {
    } else {
        lemma_le_val_bound(s.drop_last());
        assert(s.last() * pow256((s.len() - 1) as nat) <= 255 * pow256((s.len() - 1) as nat))
            by (nonlinear_arith)
            requires
                s.last() <= 255,
                pow256((s.len() - 1) as nat) >= 0,
        ;
        assert(pow256(s.len()) == 256 * pow256((s.len() - 1) as nat));
    }
}

/// Appending a byte adds its weighted value.
pub proof fn lemma_le_val_push(s: Seq<u8>, b: u8)
    ensures
        le_val(s.push(b)) == le_val(s) + b * pow256(s.len()),
{
    assert(s.push(b).drop_last() =~= s);
}

/// Taking one more byte of a prefix adds that byte's weighted value.
pub proof fn lemma_le_val_take_step(s: Seq<u8>, i: int)
    requires
        0 <= i < s.len(),
    ensures
        le_val(s.take(i + 1)) == le_val(s.take(i)) + s[i] * pow256(i as nat),
{
    assert(s.take(i + 1).drop_last() =~= s.take(i));
    assert(s.take(i + 1).last() == s[i]);
}

/// An all-zero byte string denotes zero.
pub proof fn lemma_le_val_zero(s: Seq<u8>)
    requires
        forall|j: int| 0 <= j < s.len() ==> s[j] == 0,
    ensures
        le_val(s) == 0,
    decreases s.len(),
{
    if s.len() > 0 {
        lemma_le_val_zero(s.drop_last());
    }
}

/// Two byte strings of one length that agree above position `i` compare by
/// their bytes at position `i` when those differ.
pub proof fn lemma_le_val_cmp_at(a: Seq<u8>, b: Seq<u8>, i: int)
    requires
        a.len() == b.len(),
        0 <= i < a.len(),
        a[i] < b[i],
        forall|j: int| i < j < a.len() ==> a[j] == b[j],
    ensures
        le_val(a) < le_val(b),
    decreases a.len(),
{
    if i == a.len() - 1 {
        lemma_le_val_bound(a.drop_last());
        assert((a[i] + 1) * pow256(i as nat) <= b[i] * pow256(i as nat)) by (nonlinear_arith)
            requires
                a[i] + 1 <= b[i],
                pow256(i as nat) >= 0,
        ;
        assert((a[i] + 1) * pow256(i as nat) == a[i] * pow256(i as nat) + pow256(i as nat))
            by (nonlinear_arith);
    } else {
        lemma_le_val_cmp_at(a.drop_last(), b.drop_last(), i);
        assert(a.last() == b.last());
    }
}

/// Byte strings of one length with one value are equal bytewise; conversely,
/// equal sequences denote one value. This direction: bytewise equality above
/// and at every position gives equal values.
pub proof fn lemma_le_val_eq(a: Seq<u8>, b: Seq<u8>)
    requires
        a.len() == b.len(),
        forall|j: int| 0 <= j < a.len() ==> a[j] == b[j],
    ensures
        le_val(a) == le_val(b),
{
    assert(a =~= b);
}

/// `a < b`, read as little-endian numbers of one width.
pub fn bytes_lt(a: &Vec<u8>, b: &Vec<u8>) -> (r: bool)
    requires
        a@.len() == b@.len(),
    ensures
        r == (le_val(a@) < le_val(b@)),
{
    let mut i: usize = a.len();
    while i > 0
        invariant
            i <= a@.len(),
            a@.len() == b@.len(),
            forall|j: int| i <= j < a@.len() ==> a@[j] == b@[j],
        decreases i,
    {
        i = i - 1;
        if a[i] < b[i] {
            proof {
                lemma_le_val_cmp_at(a@, b@, i as int);
            }
            return true;
        }
        if a[i] > b[i] {
            proof {
                lemma_le_val_cmp_at(b@, a@, i as int);
            }
            return false;
        }
    }
    proof {
        lemma_le_val_eq(a@, b@);
    }
    false
}

/// Little-endian addition of equal-width strings whose sum still fits the width.
pub fn add_bytes(a: &Vec<u8>, b: &Vec<u8>) -> (r: Vec<u8>)
    requires
        a@.len() == b@.len(),
        le_val(a@) + le_val(b@) < pow256(a@.len()),
    ensures
        r@.len() == a@.len(),
        le_val(r@) == le_val(a@) + le_val(b@),
{
    let w: usize = a.len();
    let mut r: Vec<u8> = Vec::new();
    let mut carry: u16 = 0;
    let mut i: usize = 0;
    while i < w
        invariant
            i <= w,
            a@.len() == w,
            b@.len() == w,
            r@.len() == i,
            carry <= 1,
            le_val(r@) + carry * pow256(i as nat) == le_val(a@.take(i as int)) + le_val(
                b@.take(i as int),
            ),
        decreases w - i,
    {
        let sum: u16 = a[i] as u16 + b[i] as u16 + carry;
        let digit: u8 = (sum % 256) as u8;
        proof {
            lemma_le_val_push(r@, digit);
            lemma_le_val_take_step(a@, i as int);
            lemma_le_val_take_step(b@, i as int);
            let pw = pow256(i as nat);
            assert(pow256((i + 1) as nat) == 256 * pw);
            assert(sum == digit + 256 * (sum / 256));
            assert(sum * pw == digit * pw + (sum / 256) * (256 * pw)) by (nonlinear_arith)
                requires
                    sum == digit + 256 * (sum / 256),
            ;
            assert(sum * pw == (a@[i as int] + b@[i as int] + carry) * pw);
            assert((a@[i as int] + b@[i as int] + carry) * pw == a@[i as int] * pw + b@[i as int]
                * pw + carry * pw) by (nonlinear_arith);
        }
        r.push(digit);
        carry = sum / 256;
        i = i + 1;
    }
    proof {
        assert(a@.take(w as int) =~= a@);
        assert(b@.take(w as int) =~= b@);
        lemma_le_val_bound(r@);
        if carry > 0 {
            assert(le_val(r@) + carry * pow256(w as nat) >= pow256(w as nat)) by (nonlinear_arith)
                requires
                    carry >= 1,
                    le_val(r@) >= 0,
                    pow256(w as nat) >= 0,
            ;
        }
    }
    r
}

/// Little-endian subtraction `a - b` of equal-width strings, `b <= a`.
pub fn sub_bytes(a: &Vec<u8>, b: &Vec<u8>) -> (r: Vec<u8>)
    requires
        a@.len() == b@.len(),
        le_val(b@) <= le_val(a@),
    ensures
        r@.len() == a@.len(),
        le_val(r@) == le_val(a@) - le_val(b@),
{
    let w: usize = a.len();
    let mut r: Vec<u8> = Vec::new();
    let mut borrow: u16 = 0;
    let mut i: usize = 0;
    while i < w
        invariant
            i <= w,
            a@.len() == w,
            b@.len() == w,
            r@.len() == i,
            borrow <= 1,
            le_val(a@.take(i as int)) - le_val(b@.take(i as int)) == le_val(r@) - borrow
                * pow256(i as nat),
        decreases w - i,
    {
        let ai: u16 = a[i] as u16;
        let need: u16 = b[i] as u16 + borrow;
        let digit: u8;
        let new_borrow: u16;
        if ai >= need {
            digit = (ai - need) as u8;
            new_borrow = 0;
        } else {
            digit = (ai + 256 - need) as u8;
            new_borrow = 1;
        }
        proof {
            lemma_le_val_push(r@, digit);
            lemma_le_val_take_step(a@, i as int);
            lemma_le_val_take_step(b@, i as int);
            let pw = pow256(i as nat);
            assert(pow256((i + 1) as nat) == 256 * pw);
            // In both branches: a[i] - b[i] - borrow == digit - 256 * new_borrow.
            assert(ai - need == digit - 256 * new_borrow);
            assert((a@[i as int] - b@[i as int] - borrow) * pw == digit * pw - new_borrow * (256
                * pw)) by (nonlinear_arith)
                requires
                    a@[i as int] - b@[i as int] - borrow == digit - 256 * new_borrow,
            ;
            assert((a@[i as int] - b@[i as int] - borrow) * pw == a@[i as int] * pw - b@[i as int]
                * pw - borrow * pw) by (nonlinear_arith);
        }
        r.push(digit);
        borrow = new_borrow;
        i = i + 1;
    }
    proof {
        assert(a@.take(w as int) =~= a@);
        assert(b@.take(w as int) =~= b@);
        lemma_le_val_bound(r@);
        if borrow > 0 {
            assert(borrow * pow256(w as nat) >= pow256(w as nat)) by (nonlinear_arith)
                requires
                    borrow >= 1,
                    pow256(w as nat) >= 0,
            ;
        }
    }
    r
}

/// Modular addition of two field elements, as a mathematical function.
pub open spec fn add_mod_val(x: nat, y: nat, p: nat) -> nat {
    if x + y < p {
        x + y
    } else {
        (x + y - p) as nat
    }
}

/// Modular difference of two field elements, as a mathematical function.
pub open spec fn sub_mod_val(x: nat, y: nat, p: nat) -> nat {
    if y <= x {
        (x - y) as nat
    } else {
        (x + p - y) as nat
    }
}

/// Masking and unmasking cancel: adding back a subtracted mask restores the
/// field element.
pub proof fn lemma_add_sub_mod(s: nat, t: nat, p: nat)
    requires
        s < p,
        t < p,
    ensures
        add_mod_val(t, sub_mod_val(s, t, p), p) == s,
        add_mod_val(sub_mod_val(s, t, p), t, p) == s,
{
}

/// A field element: little-endian bytes of the modulus width, below the modulus.
pub open spec fn is_field_bytes(s: Seq<u8>, m: EncodedModulo) -> bool {
    s.len() == m.spec_width() && le_val(s) < m.spec_prime()
}

/// Modular addition `a + b mod p`, for `a` and `b` below `p` of one width.
pub fn add_mod(a: &Vec<u8>, b: &Vec<u8>, p: &Vec<u8>) -> (r: Vec<u8>)
    requires
        a@.len() == p@.len(),
        b@.len() == p@.len(),
        le_val(a@) < le_val(p@),
        le_val(b@) < le_val(p@),
    ensures
        r@.len() == p@.len(),
        le_val(r@) < le_val(p@),
        le_val(r@) == add_mod_val(le_val(a@), le_val(b@), le_val(p@)),
{
    // p - b is positive since b < p; comparing a against it decides whether
    // the plain sum would reach the modulus.
    let c = sub_bytes(p, b);
    if !bytes_lt(a, &c) {
        sub_bytes(a, &c)
    } else {
        proof {
            lemma_le_val_bound(p@);
        }
        add_bytes(a, b)
    }
}

/// Modular difference `a - b mod p`, for `a` and `b` below `p` of one width.
pub fn sub_mod(a: &Vec<u8>, b: &Vec<u8>, p: &Vec<u8>) -> (r: Vec<u8>)
    requires
        a@.len() == p@.len(),
        b@.len() == p@.len(),
        le_val(a@) < le_val(p@),
        le_val(b@) < le_val(p@),
    ensures
        r@.len() == p@.len(),
        le_val(r@) < le_val(p@),
        le_val(r@) == sub_mod_val(le_val(a@), le_val(b@), le_val(p@)),
{
    if !bytes_lt(a, b) {
        sub_bytes(a, b)
    } else {
        let c = sub_bytes(p, b);
        proof {
            lemma_le_val_bound(p@);
        }
        add_bytes(a, &c)
    }
}

/// `pow256` grows with its exponent.
pub proof fn lemma_pow256_mono(a: nat, b: nat)
    requires
        a <= b,
    ensures
        pow256(a) <= pow256(b),
    decreases b,
{
    if a < b {
        lemma_pow256_mono(a, (b - 1) as nat);
        assert(pow256(b) == 256 * pow256((b - 1) as nat));
    }
}

/// A byte string is at least as large as any one of its weighted bytes.
pub proof fn lemma_le_val_lower(s: Seq<u8>, j: int)
    requires
        0 <= j < s.len(),
    ensures
        le_val(s) >= s[j] * pow256(j as nat),
    decreases s.len(),
{
    if j == s.len() - 1 {
    } else {
        lemma_le_val_lower(s.drop_last(), j);
    }
}

/// Prepending a byte shifts the rest up by one position.
pub proof fn lemma_le_val_cons(b: u8, t: Seq<u8>)
    ensures
        le_val(seq![b] + t) == b + 256 * le_val(t),
    decreases t.len(),
{
    let s = seq![b] + t;
    if t.len() == 0 {
        assert(s =~= seq![b]);
        assert(s.drop_last() =~= Seq::<u8>::empty());
        assert(le_val(Seq::<u8>::empty()) == 0);
        assert(le_val(t) == 0);
        assert(s.last() == b);
        assert(pow256(0) == 1);
        assert(le_val(s) == le_val(s.drop_last()) + s.last() * pow256(0));
        assert(s.last() * pow256(0) == s.last()) by (nonlinear_arith)
            requires
                pow256(0) == 1,
        ;
        assert(le_val(s) == b + 256 * le_val(t));
    } else {
        lemma_le_val_cons(b, t.drop_last());
        assert(s.drop_last() =~= seq![b] + t.drop_last());
        assert(s.last() == t.last());
        assert(s.len() == t.len() + 1);
        let k = (t.len() - 1) as nat;
        assert(le_val(s) == le_val(s.drop_last()) + s.last() * pow256(t.len()));
        assert(le_val(s.drop_last()) == b + 256 * le_val(t.drop_last()));
        assert(le_val(t) == le_val(t.drop_last()) + t.last() * pow256(k));
        assert(pow256(t.len()) == 256 * pow256(k));
        assert(t.last() * (256 * pow256(k)) == 256 * (t.last() * pow256(k))) by (nonlinear_arith);
        assert(le_val(s) == b + 256 * le_val(t));
    }
    assert(le_val(seq![b] + t) == le_val(s));
}

/// The moduli have their top byte set: each is at least `255 * 256^(w-1)`.
pub proof fn lemma_prime_large(m: EncodedModulo)
    ensures
        m.spec_prime() >= 255 * pow256((m.spec_width() - 1) as nat),
        m.spec_prime() >= pow256((m.spec_width() - 1) as nat),
        m.spec_prime() > 0,
{
    let s = m.spec_prime_bytes();
    assert(s[s.len() - 1] == 0xff);
    lemma_le_val_lower(s, s.len() - 1);
    assert(255 * pow256((m.spec_width() - 1) as nat) >= 1 * pow256(
        (m.spec_width() - 1) as nat,
    )) by (nonlinear_arith)
        requires
            pow256((m.spec_width() - 1) as nat) >= 0,
    ;
    lemma_pow256_mono(0, (m.spec_width() - 1) as nat);
}

/// Encode a machine word as little-endian bytes of the given width (at least 8).
pub fn encode_u64(v: u64, width: usize) -> (r: Vec<u8>)
    requires
        width >= 8,
    ensures
        r@.len() == width,
        le_val(r@) == v,
{
    let mut r: Vec<u8> = Vec::new();
    let mut x: u64 = v;
    let mut i: usize = 0;
    proof {
        assert(le_val(r@) == 0);
        assert(pow256(0) == 1);
        assert(x * pow256(0) == x) by (nonlinear_arith)
            requires
                pow256(0) == 1,
        ;
    }
    while i < width
        invariant
            i <= width,
            r@.len() == i,
            le_val(r@) + x * pow256(i as nat) == v,
        decreases width - i,
    {
        let digit: u8 = (x % 256) as u8;
        proof {
            lemma_le_val_push(r@, digit);
            let pw = pow256(i as nat);
            assert(pow256((i + 1) as nat) == 256 * pw);
            assert(x == digit + 256 * (x / 256));
            assert(x * pw == digit * pw + (x / 256) * (256 * pw)) by (nonlinear_arith)
                requires
                    x == digit + 256 * (x / 256),
            ;
        }
        r.push(digit);
        x = x / 256;
        i = i + 1;
    }
    proof {
        assert(pow256(8) == 0x1_0000_0000_0000_0000) by {
            reveal_with_fuel(pow256, 9);
        }
        lemma_pow256_mono(8, width as nat);
        if x >= 1 {
            assert(x * pow256(width as nat) >= pow256(width as nat)) by (nonlinear_arith)
                requires
                    x >= 1,
                    pow256(width as nat) >= 0,
            ;
        }
    }
    r
}

/// Decode little-endian bytes back into a machine word, when the value fits.
pub fn decode_u64(s: &Vec<u8>) -> (r: Option<u64>)
    requires
        s@.len() >= 8,
    ensures
        match r {
            Some(v) => v == le_val(s@),
            None => le_val(s@) >= 0x1_0000_0000_0000_0000,
        },
{
    proof {
        assert(pow256(8) == 0x1_0000_0000_0000_0000) by {
            reveal_with_fuel(pow256, 9);
        }
    }
    let mut j: usize = 8;
    while j < s.len()
        invariant
            8 <= j <= s@.len(),
            forall|k: int| 8 <= k < j ==> s@[k] == 0,
        decreases s@.len() - j,
    {
        if s[j] != 0 {
            proof {
                assert(pow256(8) == 0x1_0000_0000_0000_0000) by {
                    reveal_with_fuel(pow256, 9);
                }
                lemma_le_val_lower(s@, j as int);
                lemma_pow256_mono(8, j as nat);
                assert(s@[j as int] * pow256(j as nat) >= pow256(j as nat)) by (nonlinear_arith)
                    requires
                        s@[j as int] >= 1,
                        pow256(j as nat) >= 0,
                ;
            }
            return None;
        }
        j = j + 1;
    }
    // The value is the low eight bytes; the rest are zero.
    let ghost tail8 = s@.skip(8);
    proof {
        lemma_le_val_zero(tail8);
    }
    let mut x: u64 = 0;
    let mut i: usize = 8;
    while i > 0
        invariant
            i <= 8,
            s@.len() >= 8,
            x == le_val(s@.subrange(i as int, 8)),
            le_val(s@.subrange(i as int, 8)) < pow256((8 - i) as nat),
        decreases i,
    {
        i = i - 1;
        proof {
            assert(s@.subrange(i as int, 8) =~= seq![s@[i as int]] + s@.subrange(i as int + 1, 8));
            lemma_le_val_cons(s@[i as int], s@.subrange(i as int + 1, 8));
            assert(256 * le_val(s@.subrange(i as int + 1, 8)) + 255 < 256 * pow256(
                (8 - i - 1) as nat,
            )) by (nonlinear_arith)
                requires
                    le_val(s@.subrange(i as int + 1, 8)) < pow256((8 - i - 1) as nat),
            ;
            assert(256 * pow256((8 - i - 1) as nat) == pow256((8 - i) as nat));
            lemma_pow256_mono((8 - i) as nat, 8);
            assert(pow256(8) == 0x1_0000_0000_0000_0000) by {
                reveal_with_fuel(pow256, 9);
            }
        }
        x = x * 256 + (s[i] as u64);
    }
    proof {
        // The whole string is its low half followed by the zero tail.
        assert(s@ =~= s@.subrange(0, 8) + tail8);
        lemma_le_val_concat(s@.subrange(0, 8), tail8);
    }
    Some(x)
}

/// Concatenation weighs the second string by the length of the first.
pub proof fn lemma_le_val_concat(a: Seq<u8>, b: Seq<u8>)
    ensures
        le_val(a + b) == le_val(a) + le_val(b) * pow256(a.len()),
    decreases b.len(),
{
    let s = a + b;
    if b.len() == 0 {
        assert(s =~= a);
        assert(le_val(b) * pow256(a.len()) == 0) by (nonlinear_arith)
            requires
                le_val(b) == 0,
        ;
    } else {
        lemma_le_val_concat(a, b.drop_last());
        assert(s.drop_last() =~= a + b.drop_last());
        assert(s.last() == b.last());
        let n = a.len();
        let k = (b.len() - 1) as nat;
        assert(s.len() == n + b.len());
        assert(le_val(s) == le_val(s.drop_last()) + s.last() * pow256(n + k));
        assert(le_val(s.drop_last()) == le_val(a) + le_val(b.drop_last()) * pow256(n));
        assert(le_val(b) == le_val(b.drop_last()) + b.last() * pow256(k));
        lemma_pow256_add(n, k);
        assert(pow256(n + k) == pow256(k) * pow256(n));
        assert((le_val(b.drop_last()) + b.last() * pow256(k)) * pow256(n) == le_val(b.drop_last())
            * pow256(n) + b.last() * (pow256(k) * pow256(n))) by (nonlinear_arith);
    }
}

/// The field element that stands for a signed integer: negatives wrap below
/// the modulus.
pub open spec fn field_of_int(x: int, p: nat) -> nat {
    if x >= 0 {
        x as nat
    } else {
        (p + x) as nat
    }
}

/// The signed integer that a field element stands for: the lower half of the
/// field is non-negative, the upper half negative.
pub open spec fn int_of_field(n: nat, p: nat) -> int {
    if 2 * n < p {
        n as int
    } else {
        n - p
    }
}

/// Whether a signed integer can be carried under the modulus without aliasing.
pub open spec fn int_embeds(x: int, p: nat) -> bool {
    if x >= 0 {
        2 * x < p
    } else {
        2 * (-x) < p
    }
}

/// Signed embedding and extraction cancel on the representable range.
pub proof fn lemma_int_field_roundtrip(x: int, p: nat)
    requires
        int_embeds(x, p),
    ensures
        int_of_field(field_of_int(x, p), p) == x,
        field_of_int(x, p) < p,
{
}

/// Encode a signed integer as a field element, when it fits the modulus.
pub fn encode_i64(v: i64, m: &EncodedModulo) -> (r: Option<Vec<u8>>)
    ensures
        match r {
            Some(bytes) => int_embeds(v as int, m.spec_prime()) && is_field_bytes(bytes@, *m)
                && le_val(bytes@) == field_of_int(v as int, m.spec_prime()),
            None => !int_embeds(v as int, m.spec_prime()),
        },
{
    proof {
        lemma_prime_large(*m);
    }
    let mag: u64 = if v >= 0 {
        v as u64
    } else {
        (-(v as i128)) as u64
    };
    let w = m.width();
    let mbytes = encode_u64(mag, w);
    let pbytes = m.prime_bytes();
    if !bytes_lt(&mbytes, &pbytes) {
        // The magnitude reaches the modulus, so twice the magnitude does too.
        return None;
    }
    let c = sub_bytes(&pbytes, &mbytes);
    if !bytes_lt(&mbytes, &c) {
        // mag >= p - mag, so 2 * mag >= p.
        return None;
    }
    if v >= 0 {
        Some(mbytes)
    } else {
        Some(sub_bytes(&pbytes, &mbytes))
    }
}

/// Decode a field element as a signed integer, when the value it stands for
/// fits a machine word.
pub fn decode_i64(s: &Vec<u8>, m: &EncodedModulo) -> (r: Option<i64>)
    requires
        is_field_bytes(s@, *m),
    ensures
        match r {
            Some(v) => v as int == int_of_field(le_val(s@), m.spec_prime()),
            None => int_of_field(le_val(s@), m.spec_prime()) < i64::MIN || int_of_field(
                le_val(s@),
                m.spec_prime(),
            ) > i64::MAX,
        },
{
    proof {
        lemma_prime_large(*m);
    }
    let pbytes = m.prime_bytes();
    let d = sub_bytes(&pbytes, s);
    if bytes_lt(s, &d) {
        // 2n < p: the element stands for the non-negative value n.
        match decode_u64(s) {
            Some(x) => {
                if x <= 0x7fff_ffff_ffff_ffff_u64 {
                    Some(x as i64)
                } else {
                    None
                }
            }
            None => None,
        }
    } else {
        // 2n >= p: the element stands for n - p == -(p - n).
        match decode_u64(&d) {
            Some(neg) => {
                if neg <= 0x8000_0000_0000_0000_u64 {
                    Some((-(neg as i128)) as i64)
                } else {
                    None
                }
            }
            None => None,
        }
    }
}

/// Encode an unsigned integer as a field element, when it is below the modulus.
pub fn encode_u64_field(v: u64, m: &EncodedModulo) -> (r: Option<Vec<u8>>)
    ensures
        match r {
            Some(bytes) => v < m.spec_prime() && is_field_bytes(bytes@, *m) && le_val(bytes@) == v,
            None => v >= m.spec_prime(),
        },
{
    let w = m.width();
    let bytes = encode_u64(v, w);
    let pbytes = m.prime_bytes();
    if bytes_lt(&bytes, &pbytes) {
        Some(bytes)
    } else {
        None
    }
}

/// Decode a field element as an unsigned integer, when it fits a machine word.
pub fn decode_u64_field(s: &Vec<u8>, m: &EncodedModulo) -> (r: Option<u64>)
    requires
        is_field_bytes(s@, *m),
    ensures
        match r {
            Some(v) => v == le_val(s@),
            None => le_val(s@) > u64::MAX,
        },
{
    decode_u64(s)
}

/// Encode a boolean as the field element zero or one.
pub fn encode_bool(v: bool, m: &EncodedModulo) -> (r: Vec<u8>)
    ensures
        is_field_bytes(r@, *m),
        le_val(r@) == if v {
            1nat
        } else {
            0nat
        },
{
    proof {
        lemma_prime_large(*m);
        lemma_pow256_mono(0, (m.spec_width() - 1) as nat);
        assert(255 * pow256((m.spec_width() - 1) as nat) >= 255 * 1) by (nonlinear_arith)
            requires
                pow256((m.spec_width() - 1) as nat) >= 1,
        ;
    }
    let w = m.width();
    encode_u64(if v { 1 } else { 0 }, w)
}

/// Decode a field element as a boolean, when it is zero or one.
pub fn decode_bool(s: &Vec<u8>, m: &EncodedModulo) -> (r: Option<bool>)
    requires
        is_field_bytes(s@, *m),
    ensures
        match r {
            Some(v) => le_val(s@) == if v {
                1nat
            } else {
                0nat
            },
            None => le_val(s@) > 1,
        },
{
    match decode_u64(s) {
        Some(0u64) => Some(false),
        Some(1u64) => Some(true),
        _ => None,
    }
}

/// The canonical little-endian byte string of a value, at a fixed width.
pub open spec fn le_bytes(v: nat, w: nat) -> Seq<u8>
    decreases w,
{
    if w == 0 {
        Seq::empty()
    } else {
        seq![(v % 256) as u8] + le_bytes(v / 256, (w - 1) as nat)
    }
}

/// The canonical byte string denotes its value, for values that fit.
pub proof fn lemma_le_bytes_val(v: nat, w: nat)
    requires
        v < pow256(w),
    ensures
        le_bytes(v, w).len() == w,
        le_val(le_bytes(v, w)) == v,
    decreases w,
{
    if w > 0 {
        assert(pow256(w) == 256 * pow256((w - 1) as nat));
        assert(v / 256 < pow256((w - 1) as nat)) by (nonlinear_arith)
            requires
                v < 256 * pow256((w - 1) as nat),
        ;
        lemma_le_bytes_val(v / 256, (w - 1) as nat);
        lemma_le_val_cons((v % 256) as u8, le_bytes(v / 256, (w - 1) as nat));
    }
}

/// A value is below `256^u` exactly when every byte from position `u` up is
/// zero.
pub proof fn lemma_le_val_small_iff(s: Seq<u8>, u: int)
    requires
        0 <= u <= s.len(),
    ensures
        (le_val(s) < pow256(u as nat)) <==> (forall|j: int| u <= j < s.len() ==> s[j] == 0),
{
    if forall|j: int| u <= j < s.len() ==> s[j] == 0 {
        assert(s =~= s.take(u) + s.skip(u));
        lemma_le_val_concat(s.take(u), s.skip(u));
        lemma_le_val_zero(s.skip(u));
        lemma_le_val_bound(s.take(u));
        assert(0 * pow256(u as nat) == 0) by (nonlinear_arith);
    } else {
        let j = choose|j: int| u <= j < s.len() && s[j] != 0;
        lemma_le_val_lower(s, j);
        assert(s[j] * pow256(j as nat) >= 1 * pow256(j as nat)) by (nonlinear_arith)
            requires
                s[j] >= 1,
                pow256(j as nat) >= 0,
        ;
        lemma_pow256_mono(u as nat, j as nat);
    }
}

/// Bytewise equality of two byte strings.
pub fn bytes_eq(a: &Vec<u8>, b: &Vec<u8>) -> (r: bool)
    ensures
        r == (a@ == b@),
{
    if a.len() != b.len() {
        proof {
            assert(a@.len() != b@.len());
        }
        return false;
    }
    let mut i: usize = 0;
    while i < a.len()
        invariant
            i <= a@.len(),
            a@.len() == b@.len(),
            forall|j: int| 0 <= j < i ==> a@[j] == b@[j],
        decreases a@.len() - i,
    {
        if a[i] != b[i] {
            return false;
        }
        i = i + 1;
    }
    proof {
        assert(a@ =~= b@);
    }
    true
}

/// Equal little-endian values of one width mean equal bytes.
pub proof fn lemma_le_val_injective(a: Seq<u8>, b: Seq<u8>)
    requires
        a.len() == b.len(),
        le_val(a) == le_val(b),
    ensures
        a == b,
    decreases a.len(),
{
    if a.len() > 0 {
        let n = (a.len() - 1) as nat;
        lemma_le_val_bound(a.drop_last());
        lemma_le_val_bound(b.drop_last());
        // The top byte is the quotient by 256^n, so it agrees; then induct.
        if a.last() != b.last() {
            if a.last() < b.last() {
                lemma_le_val_cmp_at(a, b, a.len() - 1);
            } else {
                lemma_le_val_cmp_at(b, a, a.len() - 1);
            }
        }
        assert(a.last() == b.last());
        lemma_le_val_injective(a.drop_last(), b.drop_last());
        assert(a =~= a.drop_last().push(a.last()));
        assert(b =~= b.drop_last().push(b.last()));
    } else {
        assert(a =~= b);
    }
}

/// `256^(a+b) == 256^a * 256^b`.
pub proof fn lemma_pow256_add(a: nat, b: nat)
    ensures
        pow256(a + b) == pow256(b) * pow256(a),
    decreases b,
{
    if b == 0 {
        assert(pow256(a + 0) == pow256(a));
        assert(pow256(b) == 1);
        assert(pow256(b) * pow256(a) == pow256(a)) by (nonlinear_arith)
            requires
                pow256(b) == 1,
        ;
    } else {
        lemma_pow256_add(a, (b - 1) as nat);
        assert(pow256(a + b) == 256 * pow256((a + b - 1) as nat));
        assert(256 * (pow256((b - 1) as nat) * pow256(a)) == (256 * pow256((b - 1) as nat))
            * pow256(a)) by (nonlinear_arith);
    }
}

} // verus!
