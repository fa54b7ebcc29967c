//! Encoded keys and their order.
//!
//! An encoded key is a user key followed by an epoch of eight bytes, most
//! significant byte first. Keys are ordered by user key ascending and, for one
//! user key, by epoch descending, so that the newest version comes first.

use vstd::prelude::*;

verus! {

/// Number of bytes that the epoch takes at the end of an encoded key.
pub const EPOCH_LEN: usize = 8;

/// Outcome of comparing two keys.
#[derive(Clone, Copy, Debug, PartialEq, Eq, Structural)]
pub enum KeyOrder {
    Less,
    Equal,
    Greater,
}

impl KeyOrder {
    /// The outcome with the two operands exchanged.
    pub open spec fn flip(self) -> KeyOrder {
        match self {
            KeyOrder::Less => KeyOrder::Greater,
            KeyOrder::Equal => KeyOrder::Equal,
            KeyOrder::Greater => KeyOrder::Less,
        }
    }
}

/// Lexicographic order of `a` and `b`, both read from index `i` on.
pub open spec fn lex_from(a: Seq<u8>, b: Seq<u8>, i: int) -> KeyOrder
    decreases a.len() - i,
{
    if i < 0 {
        KeyOrder::Equal
    } else if i >= a.len() {
        if i >= b.len() {
            KeyOrder::Equal
        } else {
            KeyOrder::Less
        }
    } else if i >= b.len() {
        KeyOrder::Greater
    } else if a[i] < b[i] {
        KeyOrder::Less
    } else if a[i] > b[i] {
        KeyOrder::Greater
    } else {
        lex_from(a, b, i + 1)
    }
}

/// Lexicographic order of two byte strings.
pub open spec fn lex_order(a: Seq<u8>, b: Seq<u8>) -> KeyOrder {
    lex_from(a, b, 0)
}

/// An encoded key is long enough to hold its epoch.
pub open spec fn is_encoded(k: Seq<u8>) -> bool {
    k.len() >= EPOCH_LEN
}

/// The user key: everything before the epoch.
pub open spec fn user_key_of(k: Seq<u8>) -> Seq<u8> {
    k.subrange(0, k.len() - EPOCH_LEN)
}

/// The eight bytes of the epoch.
pub open spec fn epoch_bytes_of(k: Seq<u8>) -> Seq<u8> {
    k.subrange(k.len() - EPOCH_LEN, k.len() as int)
}

/// Order of two encoded keys: user key ascending, then epoch descending.
pub open spec fn key_order(a: Seq<u8>, b: Seq<u8>) -> KeyOrder {
    match lex_order(user_key_of(a), user_key_of(b)) {
        KeyOrder::Equal => lex_order(epoch_bytes_of(b), epoch_bytes_of(a)),
        o => o,
    }
}

/// `a` sorts before `b` or is the same key.
pub open spec fn key_le(a: Seq<u8>, b: Seq<u8>) -> bool {
    key_order(a, b) != KeyOrder::Greater
}

/// Two byte strings that agree below `i` compare, from `i` on, as `b` against
/// `a` does with the outcome exchanged.
pub proof fn lemma_lex_from_flip(a: Seq<u8>, b: Seq<u8>, i: int)
    ensures
        lex_from(b, a, i) == lex_from(a, b, i).flip(),
    decreases a.len() - i,
{
    if 0 <= i && i < a.len() && i < b.len() && a[i] == b[i] {
        lemma_lex_from_flip(a, b, i + 1);
    }
}

/// From `i` on, two byte strings compare equal exactly when they agree there
/// and have the same length.
pub proof fn lemma_lex_from_equal(a: Seq<u8>, b: Seq<u8>, i: int)
    requires
        0 <= i,
    ensures
        lex_from(a, b, i) == KeyOrder::Equal <==> (a.len() <= i && b.len() <= i) || (a.len()
            == b.len() && forall|j: int| i <= j < a.len() ==> a[j] == b[j]),
    decreases a.len() - i,
{
    if i < a.len() && i < b.len() && a[i] == b[i] {
        lemma_lex_from_equal(a, b, i + 1);
        if a.len() == b.len() && (forall|j: int| i + 1 <= j < a.len() ==> a[j] == b[j]) {
            assert forall|j: int| i <= j < a.len() implies a[j] == b[j] by {
                if j != i {
                }
            }
        }
    }
}

/// Lexicographic order is transitive, from any index at which the three
/// strings are read together.
pub proof fn lemma_lex_from_trans(a: Seq<u8>, b: Seq<u8>, c: Seq<u8>, i: int)
    requires
        0 <= i,
        lex_from(a, b, i) != KeyOrder::Greater,
        lex_from(b, c, i) != KeyOrder::Greater,
    ensures
        lex_from(a, c, i) != KeyOrder::Greater,
        lex_from(a, b, i) == KeyOrder::Less || lex_from(b, c, i) == KeyOrder::Less ==> lex_from(
            a,
            c,
            i,
        ) == KeyOrder::Less,
    decreases a.len() - i,
{
    if i < a.len() && i < b.len() && i < c.len() && a[i] == b[i] && b[i] == c[i] {
        lemma_lex_from_trans(a, b, c, i + 1);
    }
}

/// Lexicographic order of two byte strings, by one pass over both.
pub fn compare_bytes(a: &[u8], b: &[u8]) -> (r: KeyOrder)
    ensures
        r == lex_order(a@, b@),
{
    let mut i: usize = 0;
    while i < a.len() && i < b.len()
        invariant
            i <= a.len(),
            i <= b.len(),
            lex_order(a@, b@) == lex_from(a@, b@, i as int),
        decreases a.len() - i,
    {
        if a[i] < b[i] {
            return KeyOrder::Less;
        }
        if a[i] > b[i] {
            return KeyOrder::Greater;
        }
        i += 1;
    }
    if i < b.len() {
        KeyOrder::Less
    } else if i < a.len() {
        KeyOrder::Greater
    } else {
        KeyOrder::Equal
    }
}

/// Lexicographic order of the part of `a` from `a_lo` up to `a_hi` and the
/// part of `b` from `b_lo` up to `b_hi`.
fn compare_ranges(a: &[u8], a_lo: usize, a_hi: usize, b: &[u8], b_lo: usize, b_hi: usize) -> (r:
    KeyOrder)
    requires
        a_lo <= a_hi <= a@.len(),
        b_lo <= b_hi <= b@.len(),
    ensures
        r == lex_order(a@.subrange(a_lo as int, a_hi as int), b@.subrange(b_lo as int, b_hi as int)),
{
    let ghost sa = a@.subrange(a_lo as int, a_hi as int);
    let ghost sb = b@.subrange(b_lo as int, b_hi as int);
    let a_len: usize = a_hi - a_lo;
    let b_len: usize = b_hi - b_lo;
    let mut i: usize = 0;
    while i < a_len && i < b_len
        invariant
            a_lo <= a_hi <= a@.len(),
            b_lo <= b_hi <= b@.len(),
            a_len == a_hi - a_lo,
            b_len == b_hi - b_lo,
            sa == a@.subrange(a_lo as int, a_hi as int),
            sb == b@.subrange(b_lo as int, b_hi as int),
            i <= a_len,
            i <= b_len,
            lex_order(sa, sb) == lex_from(sa, sb, i as int),
        decreases a_len - i,
    {
        let x: u8 = a[a_lo + i];
        let y: u8 = b[b_lo + i];
        assert(sa[i as int] == x && sb[i as int] == y);
        if x < y {
            return KeyOrder::Less;
        }
        if x > y {
            return KeyOrder::Greater;
        }
        i += 1;
    }
    if i < b_len {
        KeyOrder::Less
    } else if i < a_len {
        KeyOrder::Greater
    } else {
        KeyOrder::Equal
    }
}

/// Compares two encoded keys: by user key ascending, then by epoch descending.
pub fn compare_key(lhs: &[u8], rhs: &[u8]) -> (r: KeyOrder)
    requires
        is_encoded(lhs@),
        is_encoded(rhs@),
    ensures
        r == key_order(lhs@, rhs@),
{
    let l_split: usize = lhs.len() - EPOCH_LEN;
    let r_split: usize = rhs.len() - EPOCH_LEN;
    match compare_ranges(lhs, 0, l_split, rhs, 0, r_split) {
        KeyOrder::Equal => compare_ranges(rhs, r_split, rhs.len(), lhs, l_split, lhs.len()),
        o => o,
    }
}

/// Whether two keys are the same byte string.
pub fn same_key(a: &[u8], b: &[u8]) -> (r: bool)
    ensures
        r == (a@ == b@),
{
    let o = compare_bytes(a, b);
    proof {
        lemma_lex_from_equal(a@, b@, 0);
        if o == KeyOrder::Equal {
            assert(a@ =~= b@);
        }
    }
    match o {
        KeyOrder::Equal => true,
        _ => false,
    }
}

/// A key compares equal to itself.
pub proof fn lemma_key_order_refl(a: Seq<u8>)
    ensures
        key_order(a, a) == KeyOrder::Equal,
{
    lemma_lex_from_equal(user_key_of(a), user_key_of(a), 0);
    lemma_lex_from_equal(epoch_bytes_of(a), epoch_bytes_of(a), 0);
}

/// Exchanging the operands exchanges `Less` and `Greater`.
pub proof fn lemma_key_order_flip(a: Seq<u8>, b: Seq<u8>)
    ensures
        key_order(b, a) == key_order(a, b).flip(),
{
    lemma_lex_from_flip(user_key_of(a), user_key_of(b), 0);
    lemma_lex_from_flip(epoch_bytes_of(b), epoch_bytes_of(a), 0);
}

/// Two encoded keys compare equal exactly when they are the same byte string.
pub proof fn lemma_key_order_equal(a: Seq<u8>, b: Seq<u8>)
    requires
        is_encoded(a),
        is_encoded(b),
    ensures
        key_order(a, b) == KeyOrder::Equal <==> a == b,
{
    let ua = user_key_of(a);
    let ub = user_key_of(b);
    let ea = epoch_bytes_of(a);
    let eb = epoch_bytes_of(b);
    lemma_lex_from_equal(ua, ub, 0);
    lemma_lex_from_equal(eb, ea, 0);
    if key_order(a, b) == KeyOrder::Equal {
        assert(a.len() == b.len());
        assert forall|j: int| 0 <= j < a.len() implies a[j] == b[j] by {
            if j < ua.len() {
                assert(ua[j] == ub[j]);
            } else {
                assert(ea[j - ua.len()] == eb[j - ua.len()]);
            }
        }
        assert(a =~= b);
    }
}

/// The order of keys is transitive, and strict as soon as one step is.
pub proof fn lemma_key_order_trans(a: Seq<u8>, b: Seq<u8>, c: Seq<u8>)
    requires
        is_encoded(a),
        is_encoded(b),
        is_encoded(c),
        key_le(a, b),
        key_le(b, c),
    ensures
        key_le(a, c),
        key_order(a, b) == KeyOrder::Less || key_order(b, c) == KeyOrder::Less ==> key_order(a, c)
            == KeyOrder::Less,
{
    let ua = user_key_of(a);
    let ub = user_key_of(b);
    let uc = user_key_of(c);
    let ea = epoch_bytes_of(a);
    let eb = epoch_bytes_of(b);
    let ec = epoch_bytes_of(c);
    lemma_lex_from_trans(ua, ub, uc, 0);
    lemma_lex_from_equal(ua, ub, 0);
    lemma_lex_from_equal(ub, uc, 0);
    lemma_lex_from_equal(ua, uc, 0);
    if lex_order(ua, ub) == KeyOrder::Equal && lex_order(ub, uc) == KeyOrder::Equal {
        assert(ua =~= ub);
        assert(ub =~= uc);
        lemma_lex_from_trans(ec, eb, ea, 0);
    } else if lex_order(ua, ub) == KeyOrder::Equal {
        assert(ua =~= ub);
    } else if lex_order(ub, uc) == KeyOrder::Equal {
        assert(ub =~= uc);
    }
}

/// Byte `i` of an epoch, counted from the most significant one.
pub open spec fn epoch_byte(epoch: u64, i: int) -> u8 {
    if i == 0 {
        ((epoch / 0x100_0000_0000_0000) % 0x100) as u8
    } else if i == 1 {
        ((epoch / 0x1_0000_0000_0000) % 0x100) as u8
    } else if i == 2 {
        ((epoch / 0x100_0000_0000) % 0x100) as u8
    } else if i == 3 {
        ((epoch / 0x1_0000_0000) % 0x100) as u8
    } else if i == 4 {
        ((epoch / 0x100_0000) % 0x100) as u8
    } else if i == 5 {
        ((epoch / 0x1_0000) % 0x100) as u8
    } else if i == 6 {
        ((epoch / 0x100) % 0x100) as u8
    } else {
        (epoch % 0x100) as u8
    }
}

/// The eight bytes of an epoch, most significant first.
pub open spec fn epoch_bytes(epoch: u64) -> Seq<u8> {
    Seq::new(EPOCH_LEN as nat, |i: int| epoch_byte(epoch, i))
}

/// The encoded key of `user_key` at `epoch`.
pub fn key_with_epoch(user_key: Vec<u8>, epoch: u64) -> (key: Vec<u8>)
    ensures
        key@ == user_key@ + epoch_bytes(epoch),
        is_encoded(key@),
        user_key_of(key@) == user_key@,
        epoch_bytes_of(key@) == epoch_bytes(epoch),
{
    let mut key = user_key;
    key.push(((epoch / 0x100_0000_0000_0000) % 0x100) as u8);
    key.push(((epoch / 0x1_0000_0000_0000) % 0x100) as u8);
    key.push(((epoch / 0x100_0000_0000) % 0x100) as u8);
    key.push(((epoch / 0x1_0000_0000) % 0x100) as u8);
    key.push(((epoch / 0x100_0000) % 0x100) as u8);
    key.push(((epoch / 0x1_0000) % 0x100) as u8);
    key.push(((epoch / 0x100) % 0x100) as u8);
    key.push((epoch % 0x100) as u8);
    assert(key@ =~= user_key@ + epoch_bytes(epoch));
    assert(user_key_of(key@) =~= user_key@);
    assert(epoch_bytes_of(key@) =~= epoch_bytes(epoch));
    key
}

/// The user key of an encoded key.
pub fn user_key(key: &[u8]) -> (r: &[u8])
    requires
        is_encoded(key@),
    ensures
        r@ == user_key_of(key@),
{
    vstd::slice::slice_subrange(key, 0, key.len() - EPOCH_LEN)
}

/// The number that eight bytes stand for, most significant byte first.
pub open spec fn epoch_value(bytes: Seq<u8>) -> nat {
    (bytes[0] * 0x100_0000_0000_0000 + bytes[1] * 0x1_0000_0000_0000 + bytes[2] * 0x100_0000_0000
        + bytes[3] * 0x1_0000_0000 + bytes[4] * 0x100_0000 + bytes[5] * 0x1_0000 + bytes[6] * 0x100
        + bytes[7]) as nat
}

/// The epoch of an encoded key.
pub open spec fn epoch_of(k: Seq<u8>) -> nat {
    epoch_value(epoch_bytes_of(k))
}

/// The bytes of an epoch stand for the epoch.
pub proof fn lemma_epoch_round_trip(epoch: u64)
    ensures
        epoch_value(epoch_bytes(epoch)) == epoch,
{
    let b = epoch_bytes(epoch);
    let e1: u64 = epoch / 0x100;
    let e2: u64 = epoch / 0x1_0000;
    let e3: u64 = epoch / 0x100_0000;
    let e4: u64 = epoch / 0x1_0000_0000;
    let e5: u64 = epoch / 0x100_0000_0000;
    let e6: u64 = epoch / 0x1_0000_0000_0000;
    let e7: u64 = epoch / 0x100_0000_0000_0000;
    assert(e2 == e1 / 0x100) by (bit_vector)
        requires
            e1 == epoch / 0x100,
            e2 == epoch / 0x1_0000,
    ;
    assert(e3 == e2 / 0x100) by (bit_vector)
        requires
            e2 == epoch / 0x1_0000,
            e3 == epoch / 0x100_0000,
    ;
    assert(e4 == e3 / 0x100) by (bit_vector)
        requires
            e3 == epoch / 0x100_0000,
            e4 == epoch / 0x1_0000_0000,
    ;
    assert(e5 == e4 / 0x100) by (bit_vector)
        requires
            e4 == epoch / 0x1_0000_0000,
            e5 == epoch / 0x100_0000_0000,
    ;
    assert(e6 == e5 / 0x100) by (bit_vector)
        requires
            e5 == epoch / 0x100_0000_0000,
            e6 == epoch / 0x1_0000_0000_0000,
    ;
    assert(e7 == e6 / 0x100) by (bit_vector)
        requires
            e6 == epoch / 0x1_0000_0000_0000,
            e7 == epoch / 0x100_0000_0000_0000,
    ;
    assert(e7 < 0x100) by (bit_vector)
        requires
            e7 == epoch / 0x100_0000_0000_0000,
    ;
    assert(b[0] == e7 % 0x100 && b[1] == e6 % 0x100 && b[2] == e5 % 0x100 && b[3] == e4 % 0x100);
    assert(b[4] == e3 % 0x100 && b[5] == e2 % 0x100 && b[6] == e1 % 0x100 && b[7] == epoch % 0x100);
    assert(epoch == e1 * 0x100 + b[7]);
    assert(e1 == e2 * 0x100 + b[6]);
    assert(e2 == e3 * 0x100 + b[5]);
    assert(e3 == e4 * 0x100 + b[4]);
    assert(e4 == e5 * 0x100 + b[3]);
    assert(e5 == e6 * 0x100 + b[2]);
    assert(e6 == e7 * 0x100 + b[1]);
    assert(e7 == b[0]);
}

/// Eight bytes compare, one after the other, as the numbers that they
/// stand for.
pub proof fn lemma_epoch_bytes_order(a: Seq<u8>, b: Seq<u8>)
    requires
        a.len() == EPOCH_LEN,
        b.len() == EPOCH_LEN,
    ensures
        lex_order(a, b) == if epoch_value(a) < epoch_value(b) {
            KeyOrder::Less
        } else if epoch_value(a) == epoch_value(b) {
            KeyOrder::Equal
        } else {
            KeyOrder::Greater
        },
{
    reveal_with_fuel(lex_from, 9);
}

/// Of two versions of one user key, the one with the newer epoch sorts
/// first.
pub proof fn lemma_newer_epoch_first(a: Seq<u8>, b: Seq<u8>)
    requires
        is_encoded(a),
        is_encoded(b),
        user_key_of(a) == user_key_of(b),
    ensures
        key_order(a, b) == if epoch_of(a) > epoch_of(b) {
            KeyOrder::Less
        } else if epoch_of(a) == epoch_of(b) {
            KeyOrder::Equal
        } else {
            KeyOrder::Greater
        },
{
    lemma_lex_from_equal(user_key_of(a), user_key_of(b), 0);
    lemma_epoch_bytes_order(epoch_bytes_of(b), epoch_bytes_of(a));
}

/// The epoch of an encoded key.
pub fn get_epoch(key: &[u8]) -> (epoch: u64)
    requires
        is_encoded(key@),
    ensures
        epoch == epoch_of(key@),
{
    let n: usize = key.len();
    let ghost bytes = epoch_bytes_of(key@);
    let mut epoch: u64 = 0;
    let mut i: usize = 0;
    while i < EPOCH_LEN
        invariant
            i <= EPOCH_LEN,
            n == key@.len(),
            n >= EPOCH_LEN,
            bytes == epoch_bytes_of(key@),
            i == 0 ==> epoch == 0,
            i == 1 ==> epoch == bytes[0],
            i == 2 ==> epoch == bytes[0] * 0x100 + bytes[1],
            i == 3 ==> epoch == bytes[0] * 0x1_0000 + bytes[1] * 0x100 + bytes[2],
            i == 4 ==> epoch == bytes[0] * 0x100_0000 + bytes[1] * 0x1_0000 + bytes[2] * 0x100
                + bytes[3],
            i == 5 ==> epoch == bytes[0] * 0x1_0000_0000 + bytes[1] * 0x100_0000 + bytes[2]
                * 0x1_0000 + bytes[3] * 0x100 + bytes[4],
            i == 6 ==> epoch == bytes[0] * 0x100_0000_0000 + bytes[1] * 0x1_0000_0000 + bytes[2]
                * 0x100_0000 + bytes[3] * 0x1_0000 + bytes[4] * 0x100 + bytes[5],
            i == 7 ==> epoch == bytes[0] * 0x1_0000_0000_0000 + bytes[1] * 0x100_0000_0000
                + bytes[2] * 0x1_0000_0000 + bytes[3] * 0x100_0000 + bytes[4] * 0x1_0000 + bytes[5]
                * 0x100 + bytes[6],
            i == 8 ==> epoch == epoch_value(bytes),
        decreases EPOCH_LEN - i,
    {
        let byte: u8 = key[n - EPOCH_LEN + i];
        assert(byte == bytes[i as int]);
        epoch = epoch * 256 + byte as u64;
        i += 1;
    }
    epoch
}

} // verus!
