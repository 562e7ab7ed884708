//! Ciphers: none, and XOR with a repeating key.
use vstd::prelude::*;
use crate::error::{AppError, msg};
use crate::ids::CipherId;

verus! {

/// `data` XOR-ed with `key` repeated to its length.
pub open spec fn xor_with_key(data: Seq<u8>, key: Seq<u8>) -> Seq<u8>
    recommends
        key.len() > 0,
{
    Seq::new(data.len(), |i: int| data[i] ^ key[i % (key.len() as int)])
}

/// The cipher that leaves data unchanged.
pub struct NoneCipher;

/// XOR with a repeating key; applying it twice with the same key restores the data.
pub struct XorCipher;

impl NoneCipher {
    pub fn transform(&self, data: Vec<u8>, key: &[u8]) -> (r: Result<Vec<u8>, AppError>)
        ensures
            r matches Ok(out) && out@ == data@,
    {
        Ok(data)
    }

    pub fn validate_key(&self, key: &[u8]) -> (r: Result<(), AppError>)
        ensures
            r is Ok,
    {
        Ok(())
    }

    pub fn id(&self) -> (r: CipherId)
        ensures
            r == CipherId::NoCipher,
    {
        CipherId::NoCipher
    }
}

impl XorCipher {
    pub fn validate_key(&self, key: &[u8]) -> (r: Result<(), AppError>)
        ensures
            r is Ok <==> key@.len() > 0,
            r matches Err(e) ==> e is Crypto,
    {
        if key.len() == 0 {
            return Err(AppError::Crypto(msg("XOR: Ключ не может быть пустым!")));
        }
        Ok(())
    }

    pub fn transform(&self, data: Vec<u8>, key: &[u8]) -> (r: Result<Vec<u8>, AppError>)
        ensures
            r is Ok <==> key@.len() > 0,
            r matches Ok(out) ==> out@ == xor_with_key(data@, key@),
            r matches Err(e) ==> e is Crypto,
    {
        self.validate_key(key)?;
        let mut out = data;
        let ghost input = out@;
        let mut key_pos: usize = 0;
        let ghost mut rounds: int = 0;
        let mut i: usize = 0;
        while i < out.len()
            invariant
                key@.len() > 0,
                out@.len() == input.len(),
                i <= out.len(),
                key_pos < key@.len(),
                rounds >= 0,
                i as int == rounds * (key@.len() as int) + key_pos as int,
                forall|j: int| 0 <= j < i ==> #[trigger] out@[j] == input[j] ^ key@[j % (key@.len() as int)],
                forall|j: int| i <= j < out@.len() ==> #[trigger] out@[j] == input[j],
            decreases input.len() - i,
        {
            proof {
                vstd::arithmetic::div_mod::lemma_fundamental_div_mod_converse(
                    i as int,
                    key@.len() as int,
                    rounds,
                    key_pos as int,
                );
            }
            let b = out[i] ^ key[key_pos];
            out.set(i, b);
            key_pos += 1;
            if key_pos == key.len() {
                key_pos = 0;
                proof {
                    rounds = rounds + 1;
                    assert((i + 1) as int == rounds * (key@.len() as int) + 0) by (nonlinear_arith)
                        requires
                            i as int == (rounds - 1) * (key@.len() as int) + (key@.len() - 1),
                    ;
                }
            }
            i += 1;
        }
        proof {
            assert(out@ =~= xor_with_key(input, key@));
        }
        Ok(out)
    }

    pub fn id(&self) -> (r: CipherId)
        ensures
            r == CipherId::Xor,
    {
        CipherId::Xor
    }
}

/// Applying the XOR cipher twice with the same key gives the data back.
pub proof fn law_xor_involution(data: Seq<u8>, key: Seq<u8>)
    requires
        key.len() > 0,
    ensures
        xor_with_key(xor_with_key(data, key), key) == data,
{
    assert forall|i: int| 0 <= i < data.len() implies #[trigger] xor_with_key(
        xor_with_key(data, key),
        key,
    )[i] == data[i] by {
        let a = data[i];
        let b = key[i % (key.len() as int)];
        crate::bits::lemma_byte_facts(a, b);
    }
    assert(xor_with_key(xor_with_key(data, key), key) =~= data);
}

/// Encrypting changes every byte by its key byte: the output has the data's
/// length, and each output byte XOR-ed with the data byte at the same place
/// is the key byte at that place, the key repeated from its start.
pub proof fn law_xor_key_stream(data: Seq<u8>, key: Seq<u8>)
    requires
        key.len() > 0,
    ensures
        xor_with_key(data, key).len() == data.len(),
        forall|i: int|
            0 <= i < data.len() ==> #[trigger] xor_with_key(data, key)[i] ^ data[i] == key[i % (key.len() as int)],
{
    assert forall|i: int| 0 <= i < data.len() implies #[trigger] xor_with_key(data, key)[i] ^ data[i] == key[i
        % (key.len() as int)] by {
        let a = data[i];
        let b = key[i % (key.len() as int)];
        crate::gf_laws::lemma_xor_facts(a, b, 0, 0);
        crate::bits::lemma_byte_facts(b, a);
    }
}

/// Applies the cipher `id` to `data`.
pub fn apply_cipher(id: CipherId, data: Vec<u8>, key: &[u8]) -> (r: Result<Vec<u8>, AppError>)
    ensures
        id == CipherId::NoCipher ==> (r matches Ok(out) && out@ == data@),
        id == CipherId::Xor ==> (r is Ok <==> key@.len() > 0),
        id == CipherId::Xor ==> (r matches Ok(out) ==> out@ == xor_with_key(data@, key@)),
        r matches Err(e) ==> e is Crypto,
{
    match id {
        CipherId::NoCipher => NoneCipher.transform(data, key),
        CipherId::Xor => XorCipher.transform(data, key),
    }
}

} // verus!
