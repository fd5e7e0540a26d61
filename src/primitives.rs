//! Plain-value stand-ins for 20-byte account addresses and 256-bit words.
use vstd::prelude::*;

verus! {

/// Two to the power of 64, the base of a word's limbs.
pub open spec fn limb_base() -> nat {
    0x1_0000_0000_0000_0000nat
}

/// The largest value a 256-bit word holds, plus one.
pub open spec fn word_modulus() -> nat {
    limb_base() * limb_base() * limb_base() * limb_base()
}

/// A 20-byte account identifier.
#[derive(Clone, Copy, Debug, Hash)]
pub struct Address {
    pub bytes: [u8; 20],
}

impl View for Address {
    type V = Seq<u8>;

    open spec fn view(&self) -> Seq<u8> {
        self.bytes@
    }
}

impl PartialEq for Address {
    fn eq(&self, other: &Address) -> (r: bool) {
        let mut i: usize = 0;
        while i < 20
            invariant
                0 <= i <= 20,
                self.bytes@.len() == 20,
                other.bytes@.len() == 20,
                forall|j: int| 0 <= j < i ==> self.bytes@[j] == other.bytes@[j],
            decreases 20 - i,
        {
            if self.bytes[i] != other.bytes[i] {
                return false;
            }
            i = i + 1;
        }
        proof {
            assert(self.bytes@ =~= other.bytes@);
        }
        true
    }
}

impl vstd::std_specs::cmp::PartialEqSpecImpl for Address {
    open spec fn obeys_eq_spec() -> bool {
        true
    }

    open spec fn eq_spec(&self, other: &Address) -> bool {
        self.bytes@ == other.bytes@
    }
}

impl Eq for Address {
}

/// The all-zero address.
pub open spec fn zero_address() -> Address {
    choose|a: Address| a@ == Seq::new(20, |i: int| 0u8)
}

impl Address {
    /// The all-zero address, which also names the native currency in balance maps.
    pub fn zero() -> (r: Address)
        ensures
            r == zero_address(),
            r@ == Seq::new(20, |i: int| 0u8),
    {
        let r = Address { bytes: [0u8; 20] };
        proof {
            assert(r@ =~= Seq::new(20, |i: int| 0u8));
            let c = zero_address();
            assert(c@ == Seq::new(20, |i: int| 0u8));
            lemma_address_eq(c, r);
        }
        r
    }

    /// An address whose last byte is `b` and all others are zero.
    pub fn with_last_byte(b: u8) -> (r: Address)
        ensures
            r@ == Seq::new(19, |i: int| 0u8).push(b),
    {
        let mut bytes = [0u8; 20];
        bytes[19] = b;
        let r = Address { bytes };
        proof {
            assert(r@ =~= Seq::new(19, |i: int| 0u8).push(b));
        }
        r
    }
}

/// Two addresses are the same account exactly when their bytes agree.
pub proof fn lemma_address_eq(a: Address, b: Address)
    ensures
        (a@ == b@) <==> (a == b),
{
    if a@ == b@ {
        assert(a.bytes =~= b.bytes);
    }
}

/// A 256-bit unsigned word held as four 64-bit limbs, least significant first.
#[derive(Clone, Copy, Debug, Hash, PartialEq, Eq, Structural)]
pub struct Word {
    pub l0: u64,
    pub l1: u64,
    pub l2: u64,
    pub l3: u64,
}

impl Word {
    /// The number the limbs denote.
    pub open spec fn value(self) -> nat {
        self.l0 as nat + limb_base() * (self.l1 as nat + limb_base() * (self.l2 as nat + limb_base()
            * self.l3 as nat))
    }

    pub fn zero() -> (r: Word)
        ensures
            r.value() == 0,
    {
        Word { l0: 0, l1: 0, l2: 0, l3: 0 }
    }

    pub fn from_u64(x: u64) -> (r: Word)
        ensures
            r.value() == x,
    {
        Word { l0: x, l1: 0, l2: 0, l3: 0 }
    }

    pub fn from_u128(x: u128) -> (r: Word)
        ensures
            r.value() == x,
    {
        let lo = (x % 0x1_0000_0000_0000_0000u128) as u64;
        let hi = (x / 0x1_0000_0000_0000_0000u128) as u64;
        proof {
            let b = 0x1_0000_0000_0000_0000int;
            vstd::arithmetic::div_mod::lemma_fundamental_div_mod(x as int, b);
            vstd::arithmetic::div_mod::lemma_div_pos_is_pos(x as int, b);
            vstd::arithmetic::div_mod::lemma_div_is_ordered(x as int, b * b, b);
            vstd::arithmetic::div_mod::lemma_div_by_multiple(b, b);
        }
        Word { l0: lo, l1: hi, l2: 0, l3: 0 }
    }
}

/// The largest word, two to the power of 256 minus one.
pub fn word_max() -> (r: Word)
    ensures
        r.value() + 1 == word_modulus(),
{
    Word { l0: u64::MAX, l1: u64::MAX, l2: u64::MAX, l3: u64::MAX }
}

/// Relies on ruint's `Uint::checked_add` (limbs least significant first):
/// the sum, or `None` on overflow.
#[verifier::external_body]
pub(crate) fn word_checked_add(a: Word, b: Word) -> (r: Option<Word>)
    ensures
        r is Some <==> a.value() + b.value() < word_modulus(),
        r is Some ==> r->0.value() == a.value() + b.value(),
{
    let x = alloy_primitives::U256::from_limbs([a.l0, a.l1, a.l2, a.l3]);
    let y = alloy_primitives::U256::from_limbs([b.l0, b.l1, b.l2, b.l3]);
    match x.checked_add(y) {
        Some(v) => {
            let l = v.into_limbs();
            Some(Word { l0: l[0], l1: l[1], l2: l[2], l3: l[3] })
        },
        None => None,
    }
}

/// Relies on ruint's `Uint::checked_sub` (limbs least significant first):
/// the difference, or `None` when `b` exceeds `a`.
#[verifier::external_body]
pub(crate) fn word_checked_sub(a: Word, b: Word) -> (r: Option<Word>)
    ensures
        r is Some <==> a.value() >= b.value(),
        r is Some ==> r->0.value() == a.value() - b.value(),
{
    let x = alloy_primitives::U256::from_limbs([a.l0, a.l1, a.l2, a.l3]);
    let y = alloy_primitives::U256::from_limbs([b.l0, b.l1, b.l2, b.l3]);
    match x.checked_sub(y) {
        Some(v) => {
            let l = v.into_limbs();
            Some(Word { l0: l[0], l1: l[1], l2: l[2], l3: l[3] })
        },
        None => None,
    }
}

/// Relies on ruint's `Uint::checked_mul` (limbs least significant first):
/// the product, or `None` on overflow.
#[verifier::external_body]
pub(crate) fn word_checked_mul(a: Word, b: Word) -> (r: Option<Word>)
    ensures
        r is Some <==> a.value() * b.value() < word_modulus(),
        r is Some ==> r->0.value() == a.value() * b.value(),
{
    let x = alloy_primitives::U256::from_limbs([a.l0, a.l1, a.l2, a.l3]);
    let y = alloy_primitives::U256::from_limbs([b.l0, b.l1, b.l2, b.l3]);
    match x.checked_mul(y) {
        Some(v) => {
            let l = v.into_limbs();
            Some(Word { l0: l[0], l1: l[1], l2: l[2], l3: l[3] })
        },
        None => None,
    }
}

/// Relies on ruint's numeric `PartialOrd` for `Uint` (limbs least
/// significant first): whether `a` is below `b`.
#[verifier::external_body]
pub(crate) fn word_lt(a: &Word, b: &Word) -> (r: bool)
    ensures
        r == (a.value() < b.value()),
{
    let x = alloy_primitives::U256::from_limbs([a.l0, a.l1, a.l2, a.l3]);
    let y = alloy_primitives::U256::from_limbs([b.l0, b.l1, b.l2, b.l3]);
    x < y
}

/// The value of a hexadecimal digit of either case.
pub open spec fn hex_digit(c: char) -> Option<u8> {
    if '0' <= c && c <= '9' {
        Some((c as u32 - '0' as u32) as u8)
    } else if 'a' <= c && c <= 'f' {
        Some((c as u32 - 'a' as u32 + 10) as u8)
    } else if 'A' <= c && c <= 'F' {
        Some((c as u32 - 'A' as u32 + 10) as u8)
    } else {
        None
    }
}

/// The text without a leading `0x` or `0X`.
pub open spec fn strip_hex_prefix(s: Seq<char>) -> Seq<char> {
    if s.len() >= 2 && s[0] == '0' && (s[1] == 'x' || s[1] == 'X') {
        s.subrange(2, s.len() as int)
    } else {
        s
    }
}

/// The 20 bytes that a hex address denotes: an optional prefix, then exactly
/// 40 hex digits, two per byte, most significant digit first.
pub open spec fn hex_address(s: Seq<char>) -> Option<Seq<u8>> {
    let t = strip_hex_prefix(s);
    if t.len() == 40 && forall|i: int| 0 <= i < 40 ==> (#[trigger] hex_digit(t[i])) is Some {
        Some(Seq::new(20, |i: int| (hex_digit(t[2 * i])->0 * 16 + hex_digit(t[2 * i + 1])->0) as u8))
    } else {
        None
    }
}

/// Relies on `Address::from_str` (const-hex decoding into 20 bytes): an
/// optional `0x`/`0X` prefix, then exactly 40 hex digits of either case.
#[verifier::external_body]
pub(crate) fn parse_address(s: &str) -> (r: Option<Address>)
    ensures
        r is Some <==> hex_address(s@) is Some,
        r is Some ==> r->0@ == hex_address(s@)->0,
{
    match s.parse::<alloy_primitives::Address>() {
        Ok(a) => Some(Address { bytes: a.0.0 }),
        Err(_) => None,
    }
}

/// Every word lies below two to the power of 256.
pub proof fn lemma_word_bound(w: Word)
    ensures
        w.value() < word_modulus(),
{
    let b = limb_base() as int;
    let x0 = w.l0 as int;
    let x1 = w.l1 as int;
    let x2 = w.l2 as int;
    let x3 = w.l3 as int;
    assert(x2 + b * x3 < b * b) by (nonlinear_arith)
        requires 0 <= x2 < b, 0 <= x3 < b;
    assert(x1 + b * (x2 + b * x3) < b * b * b) by (nonlinear_arith)
        requires 0 <= x1 < b, 0 <= x2 + b * x3 < b * b;
    assert(x0 + b * (x1 + b * (x2 + b * x3)) < b * b * b * b) by (nonlinear_arith)
        requires 0 <= x0 < b, 0 <= x1 + b * (x2 + b * x3) < b * b * b;
}

} // verus!
