use vstd::prelude::*;
use crate::constants::fixed_sizes::KEY_SIZE;
use crate::constants::utils::{calculate_sha256, spec_sha256, utf8};
use vstd::std_specs::cmp::PartialEqSpecImpl;

verus! {

/// A 256-bit identifier in the key space shared by nodes and stored values.
#[derive(Clone, Copy, Debug, Eq, Hash)]
pub struct Key(pub [u8; KEY_SIZE]);

impl View for Key {
    type V = Seq<u8>;

    open spec fn view(&self) -> Seq<u8> {
        self.0@
    }
}

/// The key of a string: the SHA-256 digest of its UTF-8 bytes.
pub open spec fn spec_key_of(s: Seq<char>) -> Seq<u8> {
    spec_sha256(utf8(s))
}

/// Byte-wise exclusive or of two keys: the XOR metric of Kademlia.
pub open spec fn spec_xor(a: Seq<u8>, b: Seq<u8>) -> Seq<u8> {
    Seq::new(KEY_SIZE as nat, |i: int| a[i] ^ b[i])
}

impl PartialEq for Key {
    fn eq(&self, other: &Key) -> (res: bool) {
        let mut i: usize = 0;
        while i < KEY_SIZE
            invariant
                i <= KEY_SIZE,
                self@.len() == KEY_SIZE,
                other@.len() == KEY_SIZE,
                forall|j: int| 0 <= j < i ==> self@[j] == other@[j],
            decreases KEY_SIZE - i,
        {
            if self.0[i] != other.0[i] {
                return false;
            }
            i = i + 1;
        }
        assert(self@ =~= other@);
        true
    }
}

impl PartialEqSpecImpl for Key {
    open spec fn obeys_eq_spec() -> bool {
        true
    }

    open spec fn eq_spec(&self, other: &Key) -> bool {
        self@ == other@
    }
}

impl Key {
    /// The key of `value`: the SHA-256 digest of its UTF-8 bytes.
    pub fn new(value: String) -> (key: Key)
        ensures
            key@ == spec_key_of(value@),
    {
        let digest = calculate_sha256(&value);
        let mut bytes = [0u8; KEY_SIZE];
        for i in 0..KEY_SIZE
            invariant
                digest@.len() == KEY_SIZE,
                bytes@.len() == KEY_SIZE,
                forall|j: int| 0 <= j < i ==> bytes@[j] == digest@[j],
        {
            bytes[i] = digest[i];
        }
        assert(bytes@ =~= digest@);
        Key(bytes)
    }

    /// The XOR distance between this key and `key`.
    pub fn distance(&self, key: &Key) -> (dst: [u8; KEY_SIZE])
        ensures
            dst@ == spec_xor(self@, key@),
    {
        let mut dst = [0u8; KEY_SIZE];
        for i in 0..KEY_SIZE
            invariant
                dst@.len() == KEY_SIZE,
                self@.len() == KEY_SIZE,
                key@.len() == KEY_SIZE,
                forall|j: int| 0 <= j < i ==> dst@[j] == self@[j] ^ key@[j],
        {
            dst[i] = self.0[i] ^ key.0[i];
        }
        assert(dst@ =~= spec_xor(self@, key@));
        dst
    }
}

/// The XOR distance is symmetric, is zero from a key to itself, and is zero
/// only between equal keys.
pub proof fn lemma_distance_metric(a: Key, b: Key)
    ensures
        spec_xor(a@, b@) == spec_xor(b@, a@),
        spec_xor(a@, a@) == Seq::new(KEY_SIZE as nat, |i: int| 0u8),
        spec_xor(a@, b@) == Seq::new(KEY_SIZE as nat, |i: int| 0u8) ==> a@ == b@,
{
    assert forall|i: int| 0 <= i < KEY_SIZE implies #[trigger] spec_xor(a@, b@)[i] == spec_xor(
        b@,
        a@,
    )[i] by {
        let x = a@[i];
        let y = b@[i];
        assert(x ^ y == y ^ x) by (bit_vector);
    }
    assert(spec_xor(a@, b@) =~= spec_xor(b@, a@));
    assert forall|i: int| 0 <= i < KEY_SIZE implies #[trigger] spec_xor(a@, a@)[i] == 0u8 by {
        let x = a@[i];
        assert(x ^ x == 0u8) by (bit_vector);
    }
    assert(spec_xor(a@, a@) =~= Seq::new(KEY_SIZE as nat, |i: int| 0u8));
    if spec_xor(a@, b@) == Seq::new(KEY_SIZE as nat, |i: int| 0u8) {
        assert forall|i: int| 0 <= i < KEY_SIZE implies a@[i] == b@[i] by {
            let x = a@[i];
            let y = b@[i];
            assert(spec_xor(a@, b@)[i] == 0u8);
            assert(x ^ y == 0u8 ==> x == y) by (bit_vector);
        }
        assert(a@ =~= b@);
    }
}

} // verus!
