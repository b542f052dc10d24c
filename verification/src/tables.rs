//! Products by tables of nibbles and by bit-serial rounds, and the butterflies
//! built on them.
//!
//! A product by a fixed coefficient of GF(2^8) splits over the two nibbles of
//! the other factor, so two tables of sixteen entries hold it. A product by a
//! fixed coefficient `c0 + c1 u` of GF(2^16) takes a pair of bytes `(a, b)` to
//! `(c0 a + d c1 b, c1 a + (c0 + c1) b)`, with `u^2 = u + d`, so four such
//! tables hold it.

use vstd::prelude::*;

use crate::field::byte::{byte_product, lemma_byte_laws, term, xtime};
use crate::field::tower::{hi, join, lemma_xor_bytes, lo, tower_product, Tower};
use crate::field::{
    fmul, lemma_mul, plus, BinaryField, FanPaar16, FanPaar32, FanPaar64, FanPaar8, Gf16, Gf32,
    Gf64, Gf8B, Gf8D,
};
use crate::kernel::{
    forward_high, forward_low, forward_pass, inverse_high, inverse_low, inverse_pass, Backend,
};
use crate::pack::{lemma_elem_bytes, read_elem, unpack, whole, write_elem};

verus! {

/// The constant `d` of `u^2 = u + d` in GF(2^16).
pub const DELTA: u8 = 0x20;

/// The products of one coefficient of GF(2^8) with every low and every high
/// nibble.
pub struct ScaleTable {
    low: [u8; 16],
    high: [u8; 16],
    of: Ghost<u8>,
}

/// A byte is the sum of its nibbles.
proof fn lemma_nibbles(x: u8)
    by (bit_vector)
    ensures
        x == (x % 16) ^ ((x / 16) * 16) as u8,
        x / 16 < 16,
        (x / 16) * 16 < 256,
{
}

impl ScaleTable {
    /// The coefficient of the table.
    pub closed spec fn coefficient(&self) -> u8 {
        self.of@
    }

    /// Whether the entries are the products of the coefficient.
    pub closed spec fn wf(&self) -> bool {
        &&& forall|n: int|
            0 <= n < 16 ==> #[trigger] self.low@[n] == byte_product(n as u8, self.of@, 0x1b)
        &&& forall|n: int|
            0 <= n < 16 ==> #[trigger] self.high@[n] == byte_product((16 * n) as u8, self.of@, 0x1b)
    }

    /// The table of a coefficient.
    pub fn new(coefficient: u8) -> (table: Self)
        ensures
            table.wf(),
            table.coefficient() == coefficient,
    {
        let mut low: [u8; 16] = [0u8;16];
        let mut high: [u8; 16] = [0u8;16];
        let mut nibble: usize = 0;
        while nibble < 16
            invariant
                nibble <= 16,
                forall|n: int|
                    0 <= n < nibble ==> #[trigger] low@[n] == byte_product(
                        n as u8,
                        coefficient,
                        0x1b,
                    ),
                forall|n: int|
                    0 <= n < nibble ==> #[trigger] high@[n] == byte_product(
                        (16 * n) as u8,
                        coefficient,
                        0x1b,
                    ),
            decreases 16 - nibble,
        {
            low[nibble] = Gf8B::multiply(nibble as u8, coefficient);
            high[nibble] = Gf8B::multiply((16 * nibble) as u8, coefficient);
            nibble = nibble + 1;
        }
        ScaleTable { low, high, of: Ghost(coefficient) }
    }

    /// The product of the coefficient with `x`.
    pub fn multiply(&self, x: u8) -> (y: u8)
        requires
            self.wf(),
        ensures
            y == byte_product(x, self.coefficient(), 0x1b),
    {
        proof {
            let c = self.of@;
            lemma_nibbles(x);
            let n = (x % 16) as u8;
            let m = (16 * (x / 16)) as u8;
            lemma_byte_laws(c, n, m, 0x1b);
            lemma_byte_laws(c, x, n, 0x1b);
            lemma_byte_laws(n, c, n, 0x1b);
            lemma_byte_laws(m, c, n, 0x1b);
            assert(self.low@[(x % 16) as int] == byte_product(n, c, 0x1b));
            assert(self.high@[(x / 16) as int] == byte_product(m, c, 0x1b));
        }
        self.low[(x % 16) as usize] ^ self.high[(x / 16) as usize]
    }
}

/// Multiplication by `x` modulo `0x11B`.
fn double(a: u8) -> (r: u8)
    ensures
        r == xtime(a, 0x1b),
{
    (a << 1) ^ (if a & 0x80 == 0x80 {
        0x1bu8
    } else {
        0u8
    })
}

/// `product`, plus `value` if the bit `bit` of `factor` is set.
fn add_if(product: u8, value: u8, factor: u8, bit: u8) -> (r: u8)
    ensures
        r == product ^ term(value, factor, bit),
{
    product ^ (if factor & bit == bit {
        value
    } else {
        0u8
    })
}

/// The product in GF(2^8) modulo `0x11B`, in eight rounds of mask, add, shift
/// and reduce.
pub fn multiply_base(value: u8, factor: u8) -> (product: u8)
    ensures
        product == byte_product(value, factor, 0x1b),
{
    let first = if factor & 1 == 1 {
        value
    } else {
        0u8
    };
    let v1 = double(value);
    let p1 = add_if(first, v1, factor, 0x02);
    let v2 = double(v1);
    let p2 = add_if(p1, v2, factor, 0x04);
    let v3 = double(v2);
    let p3 = add_if(p2, v3, factor, 0x08);
    let v4 = double(v3);
    let p4 = add_if(p3, v4, factor, 0x10);
    let v5 = double(v4);
    let p5 = add_if(p4, v5, factor, 0x20);
    let v6 = double(v5);
    let p6 = add_if(p5, v6, factor, 0x40);
    let v7 = double(v6);
    add_if(p6, v7, factor, 0x80)
}

/// The bytes of a 16-bit word.
proof fn lemma_word_bytes(a: u64, l: u64, u: u64)
    by (bit_vector)
    requires
        a <= 0xffff,
        l <= 0xff,
        u <= 0xff,
    ensures
        a & 0xff == a % 256,
        (a >> 8) & 0xff == a / 256,
        l | (u << 8) == l + 256 * u,
        a / 256 <= 0xff,
{
}

/// The four tables of a coefficient `c0 + c1 u` of GF(2^16), for the products
/// with `c0`, `c0 + c1`, `d c1` and `c1`.
pub struct FactorTables {
    same_low: ScaleTable,
    same_high: ScaleTable,
    cross_low: ScaleTable,
    cross_high: ScaleTable,
    of: Ghost<u16>,
}

impl FactorTables {
    /// The coefficient of the tables.
    pub closed spec fn coefficient(&self) -> u16 {
        self.of@
    }

    /// Whether the tables are those of the coefficient.
    pub closed spec fn wf(&self) -> bool {
        let c0 = (self.of@ % 256) as u8;
        let c1 = (self.of@ / 256) as u8;
        &&& self.same_low.wf() && self.same_low.coefficient() == c0
        &&& self.same_high.wf() && self.same_high.coefficient() == c0 ^ c1
        &&& self.cross_low.wf() && self.cross_low.coefficient() == byte_product(DELTA, c1, 0x1b)
        &&& self.cross_high.wf() && self.cross_high.coefficient() == c1
    }

    /// The tables of a coefficient.
    pub fn new(coefficient: u16) -> (tables: Self)
        ensures
            tables.wf(),
            tables.coefficient() == coefficient,
    {
        let c0 = (coefficient % 256) as u8;
        let c1 = (coefficient / 256) as u8;
        FactorTables {
            same_low: ScaleTable::new(c0),
            same_high: ScaleTable::new(c0 ^ c1),
            cross_low: ScaleTable::new(Gf8B::multiply(DELTA, c1)),
            cross_high: ScaleTable::new(c1),
            of: Ghost(coefficient),
        }
    }

    /// The product of the coefficient with `x`.
    pub fn multiply(&self, x: u16) -> (y: u16)
        requires
            self.wf(),
        ensures
            y as u64 == tower_product(
                Tower::Rijndael,
                16,
                x as u64,
                self.coefficient() as u64,
            ),
    {
        let a = (x % 256) as u8;
        let b = (x / 256) as u8;
        let low = self.same_low.multiply(a) ^ self.cross_low.multiply(b);
        let high = self.cross_high.multiply(a) ^ self.same_high.multiply(b);
        proof {
            lemma_component_product(x, self.of@, low, high);
        }
        low as u16 + 256 * (high as u16)
    }
}

/// The product of `a + b u` and `c0 + c1 u`, component by component.
proof fn lemma_component_product(x: u16, c: u16, low: u8, high: u8)
    requires
        ({
            let (a, b) = ((x % 256) as u8, (x / 256) as u8);
            let (c0, c1) = ((c % 256) as u8, (c / 256) as u8);
            &&& low == byte_product(a, c0, 0x1b) ^ byte_product(
                b,
                byte_product(DELTA, c1, 0x1b),
                0x1b,
            )
            &&& high == byte_product(a, c1, 0x1b) ^ byte_product(b, c0 ^ c1, 0x1b)
        }),
    ensures
        tower_product(Tower::Rijndael, 16, x as u64, c as u64) == low + 256 * high,
{
    reveal_with_fuel(tower_product, 2);
    let (a, b) = ((x % 256) as u8, (x / 256) as u8);
    let (c0, c1) = ((c % 256) as u8, (c / 256) as u8);
    lemma_word_bytes(x as u64, low as u64, high as u64);
    lemma_word_bytes(c as u64, low as u64, high as u64);
    let k = Tower::Rijndael;
    assert(lo(x as u64, 8) == a && hi(x as u64, 8) == b);
    assert(lo(c as u64, 8) == c0 && hi(c as u64, 8) == c1);
    let ll = byte_product(a, c0, 0x1b);
    let lh = byte_product(a, c1, 0x1b);
    let hl = byte_product(b, c0, 0x1b);
    let hh = byte_product(b, c1, 0x1b);
    // the norm part: d (b c1) == b (d c1)
    lemma_byte_laws(b, DELTA, c1, 0x1b);
    lemma_byte_laws(DELTA, b, c1, 0x1b);
    let nn = byte_product(DELTA, hh, 0x1b);
    assert(nn == byte_product(b, byte_product(DELTA, c1, 0x1b), 0x1b));
    // the trace part: 1 (b c1) == b c1
    lemma_byte_laws(1, hh, hh, 0x1b);
    lemma_byte_laws(hh, 1, 1, 0x1b);
    lemma_byte_laws(b, c0, c1, 0x1b);
    lemma_xor_bytes(ll as u64, nn as u64);
    lemma_xor_bytes(lh as u64, hl as u64);
    lemma_xor_bytes((lh ^ hl) as u64, hh as u64);
    assert(lh ^ hl ^ hh == lh ^ (hl ^ hh)) by {
        lemma_xor_group(lh, hl, hh);
    }
    assert(tower_product(k, 16, x as u64, c as u64) == join(low as u64, high as u64, 8));
}

proof fn lemma_xor_group(a: u8, b: u8, c: u8)
    by (bit_vector)
    ensures
        a ^ b ^ c == a ^ (b ^ c),
        a ^ b == b ^ a,
{
}

/// The bytes of a word.
proof fn lemma_bytes_of_word(word: u16, low: u8, high: u8)
    requires
        word == low + 256 * high,
    ensures
        word % 256 == low,
        word / 256 == high,
{
}

/// The coefficient words of a product in GF(2^16): the bytes `c0` and `c0 + c1`
/// for the element itself, and `d c1` and `c1` for its bytes swapped.
pub struct FactorWords {
    same: u16,
    cross: u16,
    of: Ghost<u16>,
}

impl FactorWords {
    /// The coefficient of the words.
    pub closed spec fn coefficient(&self) -> u16 {
        self.of@
    }

    /// Whether the words are those of the coefficient.
    pub closed spec fn wf(&self) -> bool {
        let c0 = (self.of@ % 256) as u8;
        let c1 = (self.of@ / 256) as u8;
        &&& self.same == c0 + 256 * (c0 ^ c1)
        &&& self.cross == byte_product(DELTA, c1, 0x1b) + 256 * c1
    }

    /// The words of a coefficient.
    pub fn new(coefficient: u16) -> (words: Self)
        ensures
            words.wf(),
            words.coefficient() == coefficient,
    {
        let c0 = (coefficient % 256) as u8;
        let c1 = (coefficient / 256) as u8;
        let delta_c1 = Gf8B::multiply(DELTA, c1);
        FactorWords {
            same: c0 as u16 + 256 * ((c0 ^ c1) as u16),
            cross: delta_c1 as u16 + 256 * (c1 as u16),
            of: Ghost(coefficient),
        }
    }

    /// The product of the coefficient with `x`: each byte of `x` times the byte
    /// across from it, plus the swapped bytes likewise.
    #[verifier::spinoff_prover]
    #[verifier::rlimit(60)]
    pub fn multiply(&self, x: u16) -> (y: u16)
        requires
            self.wf(),
        ensures
            y as u64 == tower_product(
                Tower::Rijndael,
                16,
                x as u64,
                self.coefficient() as u64,
            ),
    {
        let a = (x % 256) as u8;
        let b = (x / 256) as u8;
        let ghost c0 = (self.of@ % 256) as u8;
        let ghost c1 = (self.of@ / 256) as u8;
        proof {
            lemma_bytes_of_word(self.same, c0, c0 ^ c1);
            lemma_bytes_of_word(self.cross, byte_product(DELTA, c1, 0x1b), c1);
        }
        let (s0, s1): (u8, u8) = ((self.same % 256) as u8, (self.same / 256) as u8);
        let (t0, t1): (u8, u8) = ((self.cross % 256) as u8, (self.cross / 256) as u8);
        let low = multiply_base(a, s0) ^ multiply_base(b, t0);
        let high = multiply_base(a, t1) ^ multiply_base(b, s1);
        proof {
            lemma_component_product(x, self.of@, low, high);
        }
        low as u16 + 256 * (high as u16)
    }
}

/// A prepared product by one coefficient.
trait Scaler<F: BinaryField> {
    /// The coefficient.
    spec fn factor(&self) -> F::Elem;

    /// Whether what was prepared is that of the coefficient.
    spec fn ready(&self) -> bool;

    fn scale(&self, x: F::Elem) -> (y: F::Elem)
        requires
            self.ready(),
        ensures
            y == fmul::<F>(self.factor(), x),
    ;
}

impl Scaler<Gf8B> for ScaleTable {
    closed spec fn factor(&self) -> u8 {
        self.coefficient()
    }

    closed spec fn ready(&self) -> bool {
        self.wf()
    }

    fn scale(&self, x: u8) -> (y: u8) {
        proof {
            reveal(fmul);
            lemma_mul::<Gf8B>(x, self.coefficient(), x);
        }
        self.multiply(x)
    }
}

impl Scaler<Gf16> for FactorTables {
    closed spec fn factor(&self) -> u16 {
        self.coefficient()
    }

    closed spec fn ready(&self) -> bool {
        self.wf()
    }

    fn scale(&self, x: u16) -> (y: u16) {
        proof {
            reveal(fmul);
            lemma_mul::<Gf16>(x, self.coefficient(), x);
        }
        self.multiply(x)
    }
}

impl Scaler<Gf16> for FactorWords {
    closed spec fn factor(&self) -> u16 {
        self.coefficient()
    }

    closed spec fn ready(&self) -> bool {
        self.wf()
    }

    fn scale(&self, x: u16) -> (y: u16) {
        proof {
            reveal(fmul);
            lemma_mul::<Gf16>(x, self.coefficient(), x);
        }
        self.multiply(x)
    }
}

/// The forward butterfly of two rows with a prepared coefficient.
fn forward_scaled<F: BinaryField, S: Scaler<F>>(low: &mut [u8], high: &mut [u8], scaler: &S)
    requires
        scaler.ready(),
        old(low)@.len() == old(high)@.len(),
        whole::<F>(old(low)@.len() as int),
    ensures
        final(low)@.len() == old(low)@.len(),
        final(high)@.len() == old(high)@.len(),
        unpack::<F>(final(low)@) == forward_low::<F>(
            unpack::<F>(old(low)@),
            unpack::<F>(old(high)@),
            scaler.factor(),
        ),
        unpack::<F>(final(high)@) == forward_high::<F>(
            unpack::<F>(old(low)@),
            unpack::<F>(old(high)@),
            scaler.factor(),
        ),
{
    proof {
        lemma_elem_bytes::<F>();
    }
    let count: usize = low.len() / F::bytes();
    let ghost c = scaler.factor();
    let ghost l0 = unpack::<F>(low@);
    let ghost h0 = unpack::<F>(high@);
    let ghost len = low@.len();
    let mut i: usize = 0;
    while i < count
        invariant
            i <= count,
            scaler.ready(),
            c == scaler.factor(),
            low@.len() == len,
            high@.len() == len,
            whole::<F>(len as int),
            l0.len() == count,
            h0.len() == count,
            unpack::<F>(low@).len() == count,
            unpack::<F>(high@).len() == count,
            forall|j: int|
                0 <= j < count ==> #[trigger] unpack::<F>(low@)[j] == if j < i {
                    forward_low::<F>(l0, h0, c)[j]
                } else {
                    l0[j]
                },
            forall|j: int|
                0 <= j < count ==> #[trigger] unpack::<F>(high@)[j] == if j < i {
                    forward_high::<F>(l0, h0, c)[j]
                } else {
                    h0[j]
                },
        decreases count - i,
    {
        let l = read_elem::<F>(low, i);
        let h = read_elem::<F>(high, i);
        let new_low = plus::<F>(l, scaler.scale(h));
        let new_high = plus::<F>(new_low, h);
        write_elem::<F>(low, i, new_low);
        write_elem::<F>(high, i, new_high);
        i = i + 1;
    }
    proof {
        assert(unpack::<F>(low@) =~= forward_low::<F>(l0, h0, c));
        assert(unpack::<F>(high@) =~= forward_high::<F>(l0, h0, c));
    }
}

/// The inverse butterfly of two rows with a prepared coefficient.
fn inverse_scaled<F: BinaryField, S: Scaler<F>>(low: &mut [u8], high: &mut [u8], scaler: &S)
    requires
        scaler.ready(),
        old(low)@.len() == old(high)@.len(),
        whole::<F>(old(low)@.len() as int),
    ensures
        final(low)@.len() == old(low)@.len(),
        final(high)@.len() == old(high)@.len(),
        unpack::<F>(final(low)@) == inverse_low::<F>(
            unpack::<F>(old(low)@),
            unpack::<F>(old(high)@),
            scaler.factor(),
        ),
        unpack::<F>(final(high)@) == inverse_high::<F>(
            unpack::<F>(old(low)@),
            unpack::<F>(old(high)@),
        ),
{
    proof {
        lemma_elem_bytes::<F>();
    }
    let count: usize = low.len() / F::bytes();
    let ghost c = scaler.factor();
    let ghost l0 = unpack::<F>(low@);
    let ghost h0 = unpack::<F>(high@);
    let ghost len = low@.len();
    let mut i: usize = 0;
    while i < count
        invariant
            i <= count,
            scaler.ready(),
            c == scaler.factor(),
            low@.len() == len,
            high@.len() == len,
            whole::<F>(len as int),
            l0.len() == count,
            h0.len() == count,
            unpack::<F>(low@).len() == count,
            unpack::<F>(high@).len() == count,
            forall|j: int|
                0 <= j < count ==> #[trigger] unpack::<F>(low@)[j] == if j < i {
                    inverse_low::<F>(l0, h0, c)[j]
                } else {
                    l0[j]
                },
            forall|j: int|
                0 <= j < count ==> #[trigger] unpack::<F>(high@)[j] == if j < i {
                    inverse_high::<F>(l0, h0)[j]
                } else {
                    h0[j]
                },
        decreases count - i,
    {
        let l = read_elem::<F>(low, i);
        let h = read_elem::<F>(high, i);
        let new_high = plus::<F>(l, h);
        let new_low = plus::<F>(l, scaler.scale(new_high));
        write_elem::<F>(low, i, new_low);
        write_elem::<F>(high, i, new_high);
        i = i + 1;
    }
    proof {
        assert(unpack::<F>(low@) =~= inverse_low::<F>(l0, h0, c));
        assert(unpack::<F>(high@) =~= inverse_high::<F>(l0, h0));
    }
}

/// The butterflies of a field on each backend.
///
/// Whichever backend runs, the result is that of the portable butterflies.
pub trait TierButterflies: BinaryField {
    /// The forward butterfly: `low' = low + c * high`, `high' = low' + high`.
    fn forward_on(selected: Backend, low: &mut [u8], high: &mut [u8], coefficient: Self::Elem)
        requires
            old(low)@.len() == old(high)@.len(),
            whole::<Self>(old(low)@.len() as int),
        ensures
            final(low)@.len() == old(low)@.len(),
            final(high)@.len() == old(high)@.len(),
            unpack::<Self>(final(low)@) == forward_low::<Self>(
                unpack::<Self>(old(low)@),
                unpack::<Self>(old(high)@),
                coefficient,
            ),
            unpack::<Self>(final(high)@) == forward_high::<Self>(
                unpack::<Self>(old(low)@),
                unpack::<Self>(old(high)@),
                coefficient,
            ),
    ;

    /// The inverse butterfly: `high' = high + low`, `low' = low + c * high'`.
    fn inverse_on(selected: Backend, low: &mut [u8], high: &mut [u8], coefficient: Self::Elem)
        requires
            old(low)@.len() == old(high)@.len(),
            whole::<Self>(old(low)@.len() as int),
        ensures
            final(low)@.len() == old(low)@.len(),
            final(high)@.len() == old(high)@.len(),
            unpack::<Self>(final(low)@) == inverse_low::<Self>(
                unpack::<Self>(old(low)@),
                unpack::<Self>(old(high)@),
                coefficient,
            ),
            unpack::<Self>(final(high)@) == inverse_high::<Self>(
                unpack::<Self>(old(low)@),
                unpack::<Self>(old(high)@),
            ),
    ;
}

impl TierButterflies for Gf8B {
    fn forward_on(selected: Backend, low: &mut [u8], high: &mut [u8], coefficient: u8) {
        match selected {
            Backend::V3GfniCrypto | Backend::Scalar => {
                forward_pass::<Gf8B>(low, high, coefficient);
            },
            Backend::V3 | Backend::V2 | Backend::NeonAes | Backend::Neon => {
                let table = ScaleTable::new(coefficient);
                forward_scaled::<Gf8B, ScaleTable>(low, high, &table);
            },
        }
    }

    fn inverse_on(selected: Backend, low: &mut [u8], high: &mut [u8], coefficient: u8) {
        match selected {
            Backend::V3GfniCrypto | Backend::Scalar => {
                inverse_pass::<Gf8B>(low, high, coefficient);
            },
            Backend::V3 | Backend::V2 | Backend::NeonAes | Backend::Neon => {
                let table = ScaleTable::new(coefficient);
                inverse_scaled::<Gf8B, ScaleTable>(low, high, &table);
            },
        }
    }
}

impl TierButterflies for Gf16 {
    fn forward_on(selected: Backend, low: &mut [u8], high: &mut [u8], coefficient: u16) {
        match selected {
            Backend::V3GfniCrypto | Backend::NeonAes | Backend::Neon => {
                let words = FactorWords::new(coefficient);
                forward_scaled::<Gf16, FactorWords>(low, high, &words);
            },
            Backend::V3 | Backend::V2 => {
                let tables = FactorTables::new(coefficient);
                forward_scaled::<Gf16, FactorTables>(low, high, &tables);
            },
            Backend::Scalar => {
                forward_pass::<Gf16>(low, high, coefficient);
            },
        }
    }

    fn inverse_on(selected: Backend, low: &mut [u8], high: &mut [u8], coefficient: u16) {
        match selected {
            Backend::V3GfniCrypto | Backend::NeonAes | Backend::Neon => {
                let words = FactorWords::new(coefficient);
                inverse_scaled::<Gf16, FactorWords>(low, high, &words);
            },
            Backend::V3 | Backend::V2 => {
                let tables = FactorTables::new(coefficient);
                inverse_scaled::<Gf16, FactorTables>(low, high, &tables);
            },
            Backend::Scalar => {
                inverse_pass::<Gf16>(low, high, coefficient);
            },
        }
    }
}

impl TierButterflies for Gf8D {
    fn forward_on(selected: Backend, low: &mut [u8], high: &mut [u8], coefficient: u8) {
        forward_pass::<Gf8D>(low, high, coefficient);
    }

    fn inverse_on(selected: Backend, low: &mut [u8], high: &mut [u8], coefficient: u8) {
        inverse_pass::<Gf8D>(low, high, coefficient);
    }
}

impl TierButterflies for Gf32 {
    fn forward_on(selected: Backend, low: &mut [u8], high: &mut [u8], coefficient: u32) {
        forward_pass::<Gf32>(low, high, coefficient);
    }

    fn inverse_on(selected: Backend, low: &mut [u8], high: &mut [u8], coefficient: u32) {
        inverse_pass::<Gf32>(low, high, coefficient);
    }
}

impl TierButterflies for Gf64 {
    fn forward_on(selected: Backend, low: &mut [u8], high: &mut [u8], coefficient: u64) {
        forward_pass::<Gf64>(low, high, coefficient);
    }

    fn inverse_on(selected: Backend, low: &mut [u8], high: &mut [u8], coefficient: u64) {
        inverse_pass::<Gf64>(low, high, coefficient);
    }
}

impl TierButterflies for FanPaar8 {
    fn forward_on(selected: Backend, low: &mut [u8], high: &mut [u8], coefficient: u8) {
        forward_pass::<FanPaar8>(low, high, coefficient);
    }

    fn inverse_on(selected: Backend, low: &mut [u8], high: &mut [u8], coefficient: u8) {
        inverse_pass::<FanPaar8>(low, high, coefficient);
    }
}

impl TierButterflies for FanPaar16 {
    fn forward_on(selected: Backend, low: &mut [u8], high: &mut [u8], coefficient: u16) {
        forward_pass::<FanPaar16>(low, high, coefficient);
    }

    fn inverse_on(selected: Backend, low: &mut [u8], high: &mut [u8], coefficient: u16) {
        inverse_pass::<FanPaar16>(low, high, coefficient);
    }
}

impl TierButterflies for FanPaar32 {
    fn forward_on(selected: Backend, low: &mut [u8], high: &mut [u8], coefficient: u32) {
        forward_pass::<FanPaar32>(low, high, coefficient);
    }

    fn inverse_on(selected: Backend, low: &mut [u8], high: &mut [u8], coefficient: u32) {
        inverse_pass::<FanPaar32>(low, high, coefficient);
    }
}

impl TierButterflies for FanPaar64 {
    fn forward_on(selected: Backend, low: &mut [u8], high: &mut [u8], coefficient: u64) {
        forward_pass::<FanPaar64>(low, high, coefficient);
    }

    fn inverse_on(selected: Backend, low: &mut [u8], high: &mut [u8], coefficient: u64) {
        inverse_pass::<FanPaar64>(low, high, coefficient);
    }
}

} // verus!
