//! Sessions that answer a chunk at a time, with the same bytes as one pass
//! over the whole input.

use vstd::prelude::*;

use crate::bytes::{hex_lower_spec, to_hex_lower};

verus! {

/// The bytes XORed with a repeating key, the key read from position `start`.
pub open spec fn keyed_xor(data: Seq<u8>, key: Seq<u8>, start: int) -> Seq<u8> {
    if key.len() == 0 {
        data
    } else {
        Seq::new(data.len(), |i: int| data[i] ^ key[(start + i) % key.len() as int])
    }
}

/// A byte-wise transform with a repeating key; the state is the position
/// within the key.
pub struct KeyedByteSession {
    key: Vec<u8>,
    position: usize,
}

impl View for KeyedByteSession {
    type V = (Seq<u8>, nat);

    /// The key and the position within it.
    open spec fn view(&self) -> (Seq<u8>, nat) {
        (self.key_view(), self.position_view())
    }
}

impl KeyedByteSession {
    /// Whether the position lies within the key.
    pub closed spec fn well_formed(&self) -> bool {
        self.key@.len() == 0 || self.position < self.key@.len()
    }

    /// The key.
    pub closed spec fn key_view(&self) -> Seq<u8> {
        self.key@
    }

    /// The position within the key of the next byte.
    pub closed spec fn position_view(&self) -> nat {
        self.position as nat
    }

    /// A session at the start of the key.
    pub fn new(key: Vec<u8>) -> (r: Self)
        ensures
            r.key_view() == key@,
            r.position_view() == 0,
            r.well_formed(),
    {
        KeyedByteSession { key, position: 0 }
    }

    /// The answer to one chunk; the position moves on by its length.
    pub fn push(&mut self, chunk: &[u8]) -> (r: Vec<u8>)
        requires
            old(self).well_formed(),
        ensures
            final(self).well_formed(),
            final(self).key_view() == old(self).key_view(),
            r@ == keyed_xor(chunk@, old(self).key_view(), old(self).position_view() as int),
            old(self).key_view().len() > 0 ==> final(self).position_view() == (old(self).position_view()
                + chunk@.len()) % old(self).key_view().len(),
            old(self).key_view().len() == 0 ==> final(self).position_view() == old(self).position_view(),
    {
        let mut out: Vec<u8> = Vec::new();
        if self.key.len() == 0 {
            let mut i: usize = 0;
            while i < chunk.len()
                invariant
                    i <= chunk.len(),
                    out@ == chunk@.take(i as int),
                decreases chunk.len() - i,
            {
                out.push(chunk[i]);
                i = i + 1;
            }
            assert(chunk@.take(chunk.len() as int) == chunk@);
            return out;
        }
        let ghost start = self.position as int;
        let ghost k = self.key@.len() as int;
        let ghost key0 = self.key@;
        proof {
            vstd::arithmetic::div_mod::lemma_small_mod(start as nat, k as nat);
        }
        let mut i: usize = 0;
        while i < chunk.len()
            invariant
                i <= chunk.len(),
                key0 == old(self).key@,
                self.key@ == key0,
                0 <= start < k,
                start == old(self).position,
                k == self.key@.len(),
                k > 0,
                self.position < k,
                self.position == (start + i) % k,
                out@ == keyed_xor(chunk@, self.key@, start).take(i as int),
            decreases chunk.len() - i,
        {
            out.push(chunk[i] ^ self.key[self.position]);
            proof {
                assert(out@ =~= keyed_xor(chunk@, self.key@, start).take(i + 1));
                lemma_next_position(start, i as int, k);
            }
            let ghost klen = self.key@.len();
            assert(self.position < klen);
            assert(klen == self.key.len());
            self.position = if self.position + 1 == self.key.len() {
                0
            } else {
                self.position + 1
            };
            i = i + 1;
        }
        assert(keyed_xor(chunk@, self.key@, start).take(chunk.len() as int) == keyed_xor(chunk@, self.key@, start));
        out
    }

    /// Nothing is held back, so the end adds nothing.
    pub fn finish(self) -> (r: Vec<u8>)
        ensures
            r@.len() == 0,
    {
        Vec::new()
    }
}

proof fn lemma_next_position(start: int, i: int, k: int)
    requires
        k > 0,
        0 <= start,
        0 <= i,
    ensures
        ((start + i) % k + 1 == k ==> 0 == (start + i + 1) % k),
        ((start + i) % k + 1 != k ==> (start + i) % k + 1 == (start + i + 1) % k),
{
    let x = start + i;
    vstd::arithmetic::div_mod::lemma_add_mod_noop(x, 1, k);
    vstd::arithmetic::div_mod::lemma_mod_bound(x, k);
    if k == 1 {
        assert(1int % 1 == 0);
    } else {
        vstd::arithmetic::div_mod::lemma_small_mod(1nat, k as nat);
        if x % k + 1 == k {
            vstd::arithmetic::div_mod::lemma_mod_self_0(k);
        } else {
            vstd::arithmetic::div_mod::lemma_small_mod((x % k + 1) as nat, k as nat);
        }
    }
}

/// Cutting the input anywhere and answering the pieces in turn, the second
/// from where the first left the key, gives the answer to the whole. An
/// empty key leaves every byte as it is, wherever the cut.
pub proof fn lemma_keyed_chunks(a: Seq<u8>, b: Seq<u8>, key: Seq<u8>, start: int)
    requires
        0 <= start,
    ensures
        keyed_xor(a + b, key, start) == keyed_xor(a, key, start) + keyed_xor(
            b,
            key,
            (start + a.len()) % key.len() as int,
        ),
{
    if key.len() > 0 {
        let k = key.len() as int;
        let whole = keyed_xor(a + b, key, start);
        let parts = keyed_xor(a, key, start) + keyed_xor(b, key, (start + a.len()) % k);
        assert forall|i: int| 0 <= i < whole.len() implies whole[i] == parts[i] by {
            if i >= a.len() {
                let j = i - a.len();
                let x = start + a.len();
                vstd::arithmetic::div_mod::lemma_add_mod_noop(x, j, k);
                vstd::arithmetic::div_mod::lemma_mod_twice(x, k);
                vstd::arithmetic::div_mod::lemma_add_mod_noop(x % k, j, k);
                assert((start + i) % k == (x % k + j) % k);
            }
        }
        assert(whole =~= parts);
    }
}

/// The chunks, one after another.
pub open spec fn concat_chunks(chunks: Seq<Seq<u8>>) -> Seq<u8>
    decreases chunks.len(),
{
    if chunks.len() == 0 {
        seq![]
    } else {
        concat_chunks(chunks.drop_last()) + chunks.last()
    }
}

/// Where in the key a session stands after `total` bytes: the position
/// `push` leaves behind.
pub open spec fn position_after(key: Seq<u8>, total: int) -> int {
    if key.len() > 0 {
        total % (key.len() as int)
    } else {
        0
    }
}

/// What a session started at the beginning of the key answers, chunk by
/// chunk, when the chunks are pushed in order: each chunk from the position
/// the chunks before it left.
pub open spec fn session_answers(chunks: Seq<Seq<u8>>, key: Seq<u8>) -> Seq<u8>
    decreases chunks.len(),
{
    if chunks.len() == 0 {
        seq![]
    } else {
        session_answers(chunks.drop_last(), key) + keyed_xor(
            chunks.last(),
            key,
            position_after(key, concat_chunks(chunks.drop_last()).len() as int),
        )
    }
}

/// However the input is cut into chunks, and however many, a session that
/// starts at the beginning of the key answers the same bytes as one pass
/// over the whole input; an empty key leaves the input as it is.
pub proof fn lemma_session_any_chunks(chunks: Seq<Seq<u8>>, key: Seq<u8>)
    ensures
        session_answers(chunks, key) == keyed_xor(concat_chunks(chunks), key, 0),
    decreases chunks.len(),
{
    if chunks.len() == 0 {
        assert(keyed_xor(Seq::<u8>::empty(), key, 0) =~= Seq::<u8>::empty());
    } else {
        let d = chunks.drop_last();
        lemma_session_any_chunks(d, key);
        lemma_keyed_chunks(concat_chunks(d), chunks.last(), key, 0);
        if key.len() == 0 {
            assert(keyed_xor(concat_chunks(chunks), key, 0) == concat_chunks(chunks));
        }
    }
}

/// The position `push` moves to is the position after all the bytes pushed
/// so far: pushing chunk after chunk from a new session answers
/// `session_answers`.
pub proof fn lemma_push_tracks_position(key: Seq<u8>, total: int, len: int)
    requires
        total >= 0,
        len >= 0,
    ensures
        key.len() > 0 ==> position_after(key, total + len) == (position_after(key, total) + len) % (key.len() as int),
        key.len() == 0 ==> position_after(key, total + len) == position_after(key, total),
{
    if key.len() > 0 {
        let k = key.len() as int;
        vstd::arithmetic::div_mod::lemma_add_mod_noop(total, len, k);
        vstd::arithmetic::div_mod::lemma_mod_twice(len, k);
        vstd::arithmetic::div_mod::lemma_add_mod_noop(total % k, len, k);
        vstd::arithmetic::div_mod::lemma_mod_twice(total, k);
    }
}

/// Lower-case hexadecimal, a chunk at a time.
pub struct HexSession {}

/// The ASCII bytes of lower-case hexadecimal.
pub open spec fn hex_bytes(data: Seq<u8>) -> Seq<u8> {
    hex_lower_spec(data).map_values(|c: char| c as u8)
}

impl HexSession {
    /// A new session.
    pub fn new() -> Self {
        HexSession {  }
    }

    /// The hexadecimal of one chunk.
    pub fn push(&mut self, chunk: &[u8]) -> (r: Vec<u8>)
        ensures
            r@ == hex_bytes(chunk@),
    {
        let digits = to_hex_lower(chunk);
        let mut out: Vec<u8> = Vec::new();
        let mut i: usize = 0;
        while i < digits.len()
            invariant
                i <= digits.len(),
                out@ == digits@.map_values(|c: char| c as u8).take(i as int),
            decreases digits.len() - i,
        {
            out.push(digits[i] as u8);
            assert(out@ =~= digits@.map_values(|c: char| c as u8).take(i + 1));
            i = i + 1;
        }
        assert(digits@.map_values(|c: char| c as u8).take(digits.len() as int) == digits@.map_values(
            |c: char| c as u8,
        ));
        out
    }

    /// Nothing is held back, so the end adds nothing.
    pub fn finish(self) -> (r: Vec<u8>)
        ensures
            r@.len() == 0,
    {
        Vec::new()
    }
}

/// The hexadecimal of two pieces is the hexadecimal of the whole.
pub proof fn lemma_hex_chunks(a: Seq<u8>, b: Seq<u8>)
    ensures
        hex_bytes(a + b) == hex_bytes(a) + hex_bytes(b),
    decreases b.len(),
{
    lemma_hex_lower_concat(a, b);
    assert(hex_lower_spec(a + b).map_values(|c: char| c as u8) =~= hex_lower_spec(a).map_values(|c: char| c as u8)
        + hex_lower_spec(b).map_values(|c: char| c as u8));
}

proof fn lemma_hex_lower_concat(a: Seq<u8>, b: Seq<u8>)
    ensures
        hex_lower_spec(a + b) == hex_lower_spec(a) + hex_lower_spec(b),
    decreases b.len(),
{
    if b.len() == 0 {
        assert(a + b == a);
        assert(hex_lower_spec(b) == Seq::<char>::empty());
        assert(hex_lower_spec(a) + Seq::<char>::empty() == hex_lower_spec(a));
    } else {
        lemma_hex_lower_concat(a, b.drop_last());
        assert((a + b).drop_last() == a + b.drop_last());
        assert((a + b).last() == b.last());
    }
}

} // verus!
