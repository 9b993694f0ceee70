//! Fixed-width values and the orders that the rest of the library relies on.

use vstd::prelude::*;
use vstd::utf8::encode_utf8;

verus! {

/// `a` and `b` agree on their first `at` bytes, and there `a` ends or holds
/// the smaller byte.
pub open spec fn falls_below_at(a: Seq<u8>, b: Seq<u8>, at: int) -> bool {
    &&& 0 <= at <= a.len()
    &&& at < b.len()
    &&& forall|j: int| 0 <= j < at ==> a[j] == b[j]
    &&& at == a.len() || a[at] < b[at]
}

/// Lexicographic order on byte strings.
pub open spec fn bytes_lt(a: Seq<u8>, b: Seq<u8>) -> bool {
    exists|at: int| falls_below_at(a, b, at)
}

/// The order of `str`: lexicographic on the UTF-8 bytes.
pub open spec fn text_lt(a: Seq<char>, b: Seq<char>) -> bool {
    bytes_lt(encode_utf8(a), encode_utf8(b))
}

/// No byte string is below itself, and no two are below each other.
pub proof fn lemma_bytes_lt_asymmetric(a: Seq<u8>, b: Seq<u8>)
    ensures
        !(bytes_lt(a, b) && bytes_lt(b, a)),
        !bytes_lt(a, a),
{
    if bytes_lt(a, b) && bytes_lt(b, a) {
        let i = choose|at: int| falls_below_at(a, b, at);
        let j = choose|at: int| falls_below_at(b, a, at);
        assert(i == j);
    }
    if bytes_lt(a, a) {
        let i = choose|at: int| falls_below_at(a, a, at);
        assert(false);
    }
}

/// The order on byte strings is transitive.
pub proof fn lemma_bytes_lt_transitive(a: Seq<u8>, b: Seq<u8>, c: Seq<u8>)
    requires
        bytes_lt(a, b),
        bytes_lt(b, c),
    ensures
        bytes_lt(a, c),
{
    let i = choose|at: int| falls_below_at(a, b, at);
    let j = choose|at: int| falls_below_at(b, c, at);
    if i <= j {
        assert(falls_below_at(a, c, i));
    } else {
        assert(falls_below_at(a, c, j));
    }
}

/// Two different byte strings are ordered one way or the other.
pub proof fn lemma_bytes_lt_total(a: Seq<u8>, b: Seq<u8>)
    ensures
        a == b || bytes_lt(a, b) || bytes_lt(b, a),
{
    lemma_bytes_lt_total_from(a, b, 0);
}

proof fn lemma_bytes_lt_total_from(a: Seq<u8>, b: Seq<u8>, at: int)
    requires
        0 <= at <= a.len(),
        at <= b.len(),
        forall|j: int| 0 <= j < at ==> a[j] == b[j],
    ensures
        a == b || bytes_lt(a, b) || bytes_lt(b, a),
    decreases a.len() - at,
{
    if at == a.len() && at == b.len() {
        assert(a =~= b);
    } else if at == a.len() {
        assert(falls_below_at(a, b, at));
    } else if at == b.len() {
        assert(falls_below_at(b, a, at));
    } else if a[at] < b[at] {
        assert(falls_below_at(a, b, at));
    } else if b[at] < a[at] {
        assert(falls_below_at(b, a, at));
    } else {
        lemma_bytes_lt_total_from(a, b, at + 1);
    }
}

/// The order on text is a strict total order.
pub proof fn lemma_text_lt_total(a: Seq<char>, b: Seq<char>)
    ensures
        a == b || text_lt(a, b) || text_lt(b, a),
        !(text_lt(a, b) && text_lt(b, a)),
        !text_lt(a, a),
{
    vstd::utf8::encode_utf8_decode_utf8(a);
    vstd::utf8::encode_utf8_decode_utf8(b);
    lemma_bytes_lt_total(encode_utf8(a), encode_utf8(b));
    lemma_bytes_lt_asymmetric(encode_utf8(a), encode_utf8(b));
}

/// The first byte in which two byte strings differ decides their order, and a
/// byte string comes before those that go on from it.
pub proof fn law_first_difference_decides(
    common: Seq<u8>,
    x: u8,
    y: u8,
    s: Seq<u8>,
    t: Seq<u8>,
)
    ensures
        x < y ==> bytes_lt(common.push(x) + s, common.push(y) + t) && !bytes_lt(
            common.push(y) + t,
            common.push(x) + s,
        ),
        bytes_lt(common, common.push(x) + s),
        !bytes_lt(common.push(x) + s, common),
        !bytes_lt(common, common),
{
    let n = common.len() as int;
    if x < y {
        assert(falls_below_at(common.push(x) + s, common.push(y) + t, n));
        lemma_bytes_lt_asymmetric(common.push(x) + s, common.push(y) + t);
    }
    assert(falls_below_at(common, common.push(x) + s, n));
    lemma_bytes_lt_asymmetric(common, common.push(x) + s);
}

/// Texts are ordered as their UTF-8 bytes are.
pub proof fn law_text_order_is_byte_order(a: Seq<char>, b: Seq<char>, at: int)
    requires
        0 <= at < encode_utf8(a).len(),
        at < encode_utf8(b).len(),
        forall|j: int| 0 <= j < at ==> encode_utf8(a)[j] == encode_utf8(b)[j],
        encode_utf8(a)[at] != encode_utf8(b)[at],
    ensures
        text_lt(a, b) <==> encode_utf8(a)[at] < encode_utf8(b)[at],
{
    if encode_utf8(a)[at] < encode_utf8(b)[at] {
        assert(falls_below_at(encode_utf8(a), encode_utf8(b), at));
    } else {
        assert(falls_below_at(encode_utf8(b), encode_utf8(a), at));
        lemma_bytes_lt_asymmetric(encode_utf8(a), encode_utf8(b));
    }
}

/// Compares two byte strings.
pub fn bytes_less(a: &[u8], b: &[u8]) -> (res: bool)
    ensures
        res == bytes_lt(a@, b@),
{
    let mut i: usize = 0;
    while i < a.len() && i < b.len() && a[i] == b[i]
        invariant
            i <= a@.len(),
            i <= b@.len(),
            forall|j: int| 0 <= j < i ==> a@[j] == b@[j],
        decreases a@.len() - i,
    {
        i += 1;
    }
    let less = i < b.len() && (i == a.len() || a[i] < b[i]);
    proof {
        if less {
            assert(falls_below_at(a@, b@, i as int));
        } else if i < a@.len() {
            lemma_bytes_lt_asymmetric(a@, b@);
            if i == b@.len() {
                assert(falls_below_at(b@, a@, i as int));
            } else {
                assert(falls_below_at(b@, a@, i as int));
            }
        } else {
            assert(a@ =~= b@);
            lemma_bytes_lt_asymmetric(a@, b@);
        }
    }
    less
}

/// Compares two strings in the order of `str`.
pub fn text_less(a: &str, b: &str) -> (res: bool)
    ensures
        res == text_lt(a@, b@),
{
    bytes_less(a.as_bytes(), b.as_bytes())
}

/// Compares two byte strings for equality.
fn bytes_same(a: &[u8], b: &[u8]) -> (res: bool)
    ensures
        res == (a@ == b@),
{
    if a.len() != b.len() {
        return false;
    }
    let mut i: usize = 0;
    while i < a.len()
        invariant
            a@.len() == b@.len(),
            i <= a@.len(),
            forall|j: int| 0 <= j < i ==> a@[j] == b@[j],
        decreases a@.len() - i,
    {
        if a[i] != b[i] {
            return false;
        }
        i += 1;
    }
    assert(a@ =~= b@);
    true
}

/// A 20-byte account address.
#[derive(Debug, Clone, Copy, Eq, Hash)]
pub struct Address {
    pub bytes: [u8; 20],
}

impl View for Address {
    type V = Seq<u8>;

    open spec fn view(&self) -> Seq<u8> {
        self.bytes@
    }
}

impl PartialEq for Address {
    fn eq(&self, other: &Self) -> (res: bool) {
        bytes_same(self.bytes.as_slice(), other.bytes.as_slice())
    }
}

impl vstd::std_specs::cmp::PartialEqSpecImpl for Address {
    open spec fn obeys_eq_spec() -> bool {
        true
    }

    open spec fn eq_spec(&self, other: &Self) -> bool {
        self@ == other@
    }
}

impl Address {
    /// The address made of these bytes.
    pub fn new(bytes: [u8; 20]) -> (res: Self)
        ensures
            res@ == bytes@,
    {
        Address { bytes }
    }

    /// Whether this address comes before `other` in byte order.
    pub fn less(&self, other: &Self) -> (res: bool)
        ensures
            res == bytes_lt(self@, other@),
    {
        bytes_less(self.bytes.as_slice(), other.bytes.as_slice())
    }
}

/// A 32-byte hash.
#[derive(Debug, Clone, Copy, Eq, Hash)]
pub struct B256 {
    pub bytes: [u8; 32],
}

impl View for B256 {
    type V = Seq<u8>;

    open spec fn view(&self) -> Seq<u8> {
        self.bytes@
    }
}

impl PartialEq for B256 {
    fn eq(&self, other: &Self) -> (res: bool) {
        bytes_same(self.bytes.as_slice(), other.bytes.as_slice())
    }
}

impl vstd::std_specs::cmp::PartialEqSpecImpl for B256 {
    open spec fn obeys_eq_spec() -> bool {
        true
    }

    open spec fn eq_spec(&self, other: &Self) -> bool {
        self@ == other@
    }
}

impl B256 {
    /// The hash made of these bytes.
    pub fn new(bytes: [u8; 32]) -> (res: Self)
        ensures
            res@ == bytes@,
    {
        B256 { bytes }
    }
}

/// The hash of a transaction.
pub type TxHash = B256;

/// A 256-bit unsigned integer in four 64-bit limbs, least significant first.
#[derive(Debug, Clone, Copy, PartialEq, Eq, Structural)]
pub struct U256 {
    pub l0: u64,
    pub l1: u64,
    pub l2: u64,
    pub l3: u64,
}

/// A number splits into a limb and the rest in one way only.
proof fn lemma_limb_unique(a: u64, b: u64, x: int, y: int)
    requires
        a + 0x1_0000_0000_0000_0000 * x == b + 0x1_0000_0000_0000_0000 * y,
    ensures
        a == b,
        x == y,
{
}

impl U256 {
    /// The number that the limbs stand for.
    pub open spec fn value(self) -> nat {
        (self.l0 + 0x1_0000_0000_0000_0000 * (self.l1 + 0x1_0000_0000_0000_0000 * (self.l2
            + 0x1_0000_0000_0000_0000 * self.l3))) as nat
    }

    /// The number `n`.
    pub fn from_u64(n: u64) -> (res: Self)
        ensures
            res.value() == n,
    {
        U256 { l0: n, l1: 0, l2: 0, l3: 0 }
    }

    /// Whether the two numbers are equal.
    pub fn same(self, other: U256) -> (res: bool)
        ensures
            res == (self.value() == other.value()),
            res == (self.l0 == other.l0 && self.l1 == other.l1 && self.l2 == other.l2 && self.l3
                == other.l3),
    {
        proof {
            if self.value() == other.value() {
                lemma_limb_unique(
                    self.l0,
                    other.l0,
                    self.l1 + 0x1_0000_0000_0000_0000 * (self.l2 + 0x1_0000_0000_0000_0000
                        * self.l3),
                    other.l1 + 0x1_0000_0000_0000_0000 * (other.l2 + 0x1_0000_0000_0000_0000
                        * other.l3),
                );
                lemma_limb_unique(
                    self.l1,
                    other.l1,
                    self.l2 + 0x1_0000_0000_0000_0000 * self.l3,
                    other.l2 + 0x1_0000_0000_0000_0000 * other.l3,
                );
                lemma_limb_unique(self.l2, other.l2, self.l3 as int, other.l3 as int);
            }
        }
        self.l0 == other.l0 && self.l1 == other.l1 && self.l2 == other.l2 && self.l3 == other.l3
    }

    /// Whether the number is zero.
    pub fn is_zero(self) -> (res: bool)
        ensures
            res == (self.value() == 0),
            res == (self.l0 == 0 && self.l1 == 0 && self.l2 == 0 && self.l3 == 0),
    {
        self.l0 == 0 && self.l1 == 0 && self.l2 == 0 && self.l3 == 0
    }
}

/// The limbs of a number are its digits to the base of two to the 64th, the
/// least first.
pub proof fn law_limbs_are_digits(n: U256)
    ensures
        n.value() == n.l0 + 0x1_0000_0000_0000_0000 * n.l1
            + 0x1_0000_0000_0000_0000_0000_0000_0000_0000 * n.l2
            + 0x1_0000_0000_0000_0000_0000_0000_0000_0000_0000_0000_0000_0000 * n.l3,
{
}

} // verus!
