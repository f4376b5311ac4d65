//! Keys: a byte string with the timestamp of its version.

use bytes::Bytes;
use vstd::prelude::*;

use crate::codec::{bytes_as_slice, bytes_view};

verus! {

/// `a` comes before `b` in lexicographic order.
pub open spec fn bytes_lt(a: Seq<u8>, b: Seq<u8>) -> bool
    decreases a.len(),
{
    if b.len() == 0 {
        false
    } else if a.len() == 0 {
        true
    } else if a[0] != b[0] {
        a[0] < b[0]
    } else {
        bytes_lt(a.drop_first(), b.drop_first())
    }
}

/// `a` comes before `b` in lexicographic order, or is `b`.
pub open spec fn bytes_le(a: Seq<u8>, b: Seq<u8>) -> bool {
    bytes_lt(a, b) || a == b
}

/// No byte string comes before itself.
pub proof fn lemma_bytes_lt_irreflexive(a: Seq<u8>)
    ensures
        !bytes_lt(a, a),
    decreases a.len(),
{
    if a.len() > 0 {
        lemma_bytes_lt_irreflexive(a.drop_first());
    }
}

/// The order of byte strings is transitive.
pub proof fn lemma_bytes_lt_transitive(a: Seq<u8>, b: Seq<u8>, c: Seq<u8>)
    requires
        bytes_lt(a, b),
        bytes_lt(b, c),
    ensures
        bytes_lt(a, c),
    decreases a.len(),
{
    if a.len() > 0 && a[0] == b[0] && b[0] == c[0] {
        lemma_bytes_lt_transitive(a.drop_first(), b.drop_first(), c.drop_first());
    }
}

/// Of two byte strings one comes before the other, or they are the same.
pub proof fn lemma_bytes_lt_total(a: Seq<u8>, b: Seq<u8>)
    ensures
        bytes_lt(a, b) || a == b || bytes_lt(b, a),
    decreases a.len(),
{
    if a.len() > 0 && b.len() > 0 {
        if a[0] == b[0] {
            lemma_bytes_lt_total(a.drop_first(), b.drop_first());
            if a.drop_first() == b.drop_first() {
                assert(a =~= seq![a[0]] + a.drop_first());
                assert(b =~= seq![b[0]] + b.drop_first());
            }
        }
    } else if a.len() == 0 && b.len() == 0 {
        assert(a =~= b);
    }
}

/// The order of byte strings is that of a dictionary: one comes before another if the first byte in
/// which they differ is less, or if it ends where the other goes on.
pub proof fn lemma_bytes_lt_is_lexicographic(a: Seq<u8>, b: Seq<u8>)
    ensures
        bytes_lt(a, b) == exists|k: int|
            0 <= k <= a.len() && k < b.len() && #[trigger] a.take(k) == b.take(k) && (k == a.len()
                || a[k] < b[k]),
    decreases a.len(),
{
    if b.len() > 0 && a.len() == 0 {
        assert(a.take(0) =~= b.take(0));
    } else if b.len() > 0 && a[0] != b[0] {
        assert(a.take(0) =~= b.take(0));
        if exists|k: int|
            0 <= k <= a.len() && k < b.len() && #[trigger] a.take(k) == b.take(k) && (k == a.len()
                || a[k] < b[k]) {
            let k = choose|k: int|
                0 <= k <= a.len() && k < b.len() && #[trigger] a.take(k) == b.take(k) && (k
                    == a.len() || a[k] < b[k]);
            if k > 0 {
                assert(a.take(k)[0] == b.take(k)[0]);
            }
        }
    } else if b.len() > 0 {
        let (x, y) = (a.drop_first(), b.drop_first());
        lemma_bytes_lt_is_lexicographic(x, y);
        if bytes_lt(x, y) {
            let k = choose|k: int|
                0 <= k <= x.len() && k < y.len() && #[trigger] x.take(k) == y.take(k) && (k
                    == x.len() || x[k] < y[k]);
            assert(a.take(k + 1) =~= seq![a[0]] + x.take(k));
            assert(b.take(k + 1) =~= seq![b[0]] + y.take(k));
            assert(a.take(k + 1) == b.take(k + 1));
        }
        if exists|k: int|
            0 <= k <= a.len() && k < b.len() && #[trigger] a.take(k) == b.take(k) && (k == a.len()
                || a[k] < b[k]) {
            let k = choose|k: int|
                0 <= k <= a.len() && k < b.len() && #[trigger] a.take(k) == b.take(k) && (k
                    == a.len() || a[k] < b[k]);
            assert(k > 0);
            assert(x.take(k - 1) =~= a.take(k).drop_first());
            assert(y.take(k - 1) =~= b.take(k).drop_first());
            assert(x.take(k - 1) == y.take(k - 1));
        }
    }
}

/// Whether `a` comes before `b` in lexicographic order.
pub fn bytes_less(a: &[u8], b: &[u8]) -> (less: bool)
    ensures
        less == bytes_lt(a@, b@),
{
    let mut i: usize = 0;
    proof {
        assert(a@.skip(0) =~= a@);
        assert(b@.skip(0) =~= b@);
    }
    while i < a.len() && i < b.len() && a[i] == b[i]
        invariant
            i <= a@.len(),
            i <= b@.len(),
            bytes_lt(a@, b@) == bytes_lt(a@.skip(i as int), b@.skip(i as int)),
        decreases a@.len() - i,
    {
        proof {
            assert(a@.skip(i as int).drop_first() =~= a@.skip(i + 1));
            assert(b@.skip(i as int).drop_first() =~= b@.skip(i + 1));
        }
        i += 1;
    }
    if i >= b.len() {
        false
    } else if i >= a.len() {
        true
    } else {
        a[i] < b[i]
    }
}

/// Whether `a` and `b` hold the same bytes.
pub fn bytes_equal(a: &[u8], b: &[u8]) -> (equal: bool)
    ensures
        equal == (a@ == b@),
{
    if a.len() != b.len() {
        return false;
    }
    let mut i: usize = 0;
    while i < a.len()
        invariant
            i <= a@.len(),
            a@.len() == b@.len(),
            forall|j: int| 0 <= j < i ==> a@[j] == b@[j],
        decreases a@.len() - i,
    {
        if a[i] != b[i] {
            return false;
        }
        i += 1;
    }
    assert(a@ =~= b@);
    true
}

/// What a key stands for: its byte string and the timestamp of the version.
#[verifier::ext_equal]
pub struct KeyView {
    pub key: Seq<u8>,
    pub ts: u64,
}

/// The order of keys: by byte string and, among the versions of one byte string, from the
/// latest to the earliest.
pub open spec fn key_lt(a: KeyView, b: KeyView) -> bool {
    bytes_lt(a.key, b.key) || (a.key == b.key && a.ts > b.ts)
}

/// `a` comes before `b`, or is `b`.
pub open spec fn key_le(a: KeyView, b: KeyView) -> bool {
    key_lt(a, b) || a == b
}

/// Keys go by their byte strings, and of one byte string the later version comes first.
pub proof fn lemma_key_order(a: KeyView, b: KeyView)
    ensures
        bytes_lt(a.key, b.key) ==> key_lt(a, b) && !key_lt(b, a),
        a.key == b.key ==> key_lt(a, b) == (a.ts > b.ts),
        key_le(a, b) == (key_lt(a, b) || a.key == b.key && a.ts == b.ts),
{
    lemma_bytes_lt_irreflexive(a.key);
    if bytes_lt(a.key, b.key) && bytes_lt(b.key, a.key) {
        lemma_bytes_lt_transitive(a.key, b.key, a.key);
    }
}

/// No key comes before itself.
pub proof fn lemma_key_lt_irreflexive(a: KeyView)
    ensures
        !key_lt(a, a),
{
    lemma_bytes_lt_irreflexive(a.key);
}

/// The order of keys is transitive.
pub proof fn lemma_key_lt_transitive(a: KeyView, b: KeyView, c: KeyView)
    requires
        key_lt(a, b),
        key_lt(b, c),
    ensures
        key_lt(a, c),
{
    if bytes_lt(a.key, b.key) && bytes_lt(b.key, c.key) {
        lemma_bytes_lt_transitive(a.key, b.key, c.key);
    }
}

/// Of two keys one comes before the other, or they are the same.
pub proof fn lemma_key_lt_total(a: KeyView, b: KeyView)
    ensures
        key_lt(a, b) || a == b || key_lt(b, a),
        key_lt(a, b) ==> !key_lt(b, a),
{
    lemma_bytes_lt_total(a.key, b.key);
    lemma_bytes_lt_irreflexive(a.key);
    if bytes_lt(a.key, b.key) && bytes_lt(b.key, a.key) {
        lemma_bytes_lt_transitive(a.key, b.key, a.key);
    }
}

/// `key_le` is transitive.
pub proof fn lemma_key_le_transitive(a: KeyView, b: KeyView, c: KeyView)
    requires
        key_le(a, b),
        key_le(b, c),
    ensures
        key_le(a, c),
        key_lt(a, b) || key_lt(b, c) ==> key_lt(a, c),
{
    if key_lt(a, b) && key_lt(b, c) {
        lemma_key_lt_transitive(a, b, c);
    }
}

/// A borrowed key.
#[derive(Clone, Copy, Debug)]
pub struct KeySlice<'a> {
    key: &'a [u8],
    ts: u64,
}

impl<'a> View for KeySlice<'a> {
    type V = KeyView;

    closed spec fn view(&self) -> KeyView {
        KeyView { key: self.key@, ts: self.ts }
    }
}

impl<'a> KeySlice<'a> {
    /// The key made of a byte string and a timestamp.
    pub fn from_slice(key: &'a [u8], ts: u64) -> (k: Self)
        ensures
            k@ == (KeyView { key: key@, ts }),
    {
        KeySlice { key, ts }
    }

    /// The byte string of the key.
    pub fn key_ref(&self) -> (key: &'a [u8])
        ensures
            key@ == self@.key,
    {
        self.key
    }

    /// The length of the byte string.
    pub fn key_len(&self) -> (len: usize)
        ensures
            len == self@.key.len(),
    {
        self.key.len()
    }

    /// The timestamp of the version.
    pub fn ts(&self) -> (ts: u64)
        ensures
            ts == self@.ts,
    {
        self.ts
    }

    /// An owned copy of the key.
    pub fn to_key_vec(&self) -> (k: KeyVec)
        ensures
            k@ == self@,
    {
        KeyVec { key: vstd::slice::slice_to_vec(self.key), ts: self.ts }
    }

    /// Whether this key comes before `other`.
    pub fn is_less(&self, other: &KeySlice<'_>) -> (less: bool)
        ensures
            less == key_lt(self@, other@),
    {
        proof {
            lemma_bytes_lt_irreflexive(self.key@);
        }
        if bytes_less(self.key, other.key) {
            true
        } else {
            bytes_equal(self.key, other.key) && self.ts > other.ts
        }
    }

    /// Whether this key is `other`.
    pub fn is_equal(&self, other: &KeySlice<'_>) -> (equal: bool)
        ensures
            equal == (self@ == other@),
    {
        bytes_equal(self.key, other.key) && self.ts == other.ts
    }
}

/// An owned key.
#[derive(Debug)]
pub struct KeyVec {
    key: Vec<u8>,
    ts: u64,
}

impl View for KeyVec {
    type V = KeyView;

    closed spec fn view(&self) -> KeyView {
        KeyView { key: self.key@, ts: self.ts }
    }
}

impl KeyVec {
    /// The empty key.
    pub fn new() -> (k: Self)
        ensures
            k@ == (KeyView { key: Seq::empty(), ts: 0 }),
    {
        KeyVec { key: Vec::new(), ts: 0 }
    }

    /// The key made of a byte string and a timestamp.
    pub fn from_vec_with_ts(key: Vec<u8>, ts: u64) -> (k: Self)
        ensures
            k@ == (KeyView { key: key@, ts }),
    {
        KeyVec { key, ts }
    }

    /// Borrows the key.
    pub fn as_key_slice(&self) -> (k: KeySlice<'_>)
        ensures
            k@ == self@,
    {
        KeySlice { key: self.key.as_slice(), ts: self.ts }
    }
}

/// A key that shares its byte string.
#[derive(Debug)]
pub struct KeyBytes {
    key: Bytes,
    ts: u64,
}

impl View for KeyBytes {
    type V = KeyView;

    closed spec fn view(&self) -> KeyView {
        KeyView { key: bytes_view(self.key), ts: self.ts }
    }
}

impl KeyBytes {
    /// The key made of a byte string and a timestamp.
    pub fn from_bytes_with_ts(key: Bytes, ts: u64) -> (k: Self)
        ensures
            k@ == (KeyView { key: bytes_view(key), ts }),
    {
        KeyBytes { key, ts }
    }

    /// Borrows the key.
    pub fn as_key_slice(&self) -> (k: KeySlice<'_>)
        ensures
            k@ == self@,
    {
        KeySlice { key: bytes_as_slice(&self.key), ts: self.ts }
    }
}

} // verus!
