use vstd::prelude::*;

use crate::bytesutil::push_all;
use crate::crypto::sha256_bytes;
use crate::crypto::spec_sha256;
use crate::errors::ContainerError;

verus! {

/// The identifier of the iterated-hash key derivation function, the only one
/// this engine supports.
pub const KDF_ITERATED_SHA256: u8 = 1;

/// The largest memory cost, in KiB, that `derive` accepts; a larger request
/// cannot be completed on the host.
pub const MAX_MEMORY_KIB: u32 = 1048576;

/// Work-factor parameters for key derivation, as stored in the container
/// header.
#[derive(Clone, Copy, Debug, PartialEq, Eq, Structural)]
pub struct KdfParams {
    pub kdf_id: u8,
    pub rounds: u32,
    pub memory_kib: u32,
}

/// The symmetric keys derived from the credential material: one for the
/// payload cipher, one for the integrity digest.
#[derive(Debug)]
pub struct DerivedKeySet {
    pub enc_key: Vec<u8>,
    pub mac_key: Vec<u8>,
}

impl DerivedKeySet {
    /// Both keys are 32 bytes long.
    pub open spec fn wf(&self) -> bool {
        self.enc_key@.len() == 32 && self.mac_key@.len() == 32
    }

    /// Overwrite both keys with zeroes, so that no key byte outlives its use.
    pub fn wipe(&mut self)
        ensures
            final(self).enc_key@.len() == old(self).enc_key@.len(),
            final(self).mac_key@.len() == old(self).mac_key@.len(),
            forall|i: int|
                0 <= i < final(self).enc_key@.len() ==> final(self).enc_key@[i] == 0,
            forall|i: int|
                0 <= i < final(self).mac_key@.len() ==> final(self).mac_key@[i] == 0,
    {
        zero_out(&mut self.enc_key);
        zero_out(&mut self.mac_key);
    }
}

pub(crate) fn zero_out(v: &mut Vec<u8>)
    ensures
        final(v)@.len() == old(v)@.len(),
        forall|i: int| 0 <= i < final(v)@.len() ==> final(v)@[i] == 0,
{
    let n = v.len();
    let mut i: usize = 0;
    while i < n
        invariant
            i <= n,
            v@.len() == n,
            forall|j: int| 0 <= j < i ==> v@[j] == 0,
        decreases n - i,
    {
        v.set(i, 0);
        i = i + 1;
    }
}

/// The hash chain that gives key derivation its tunable cost: `n` further
/// hash applications on top of `k`.
pub open spec fn spec_kdf_chain(k: Seq<u8>, n: nat) -> Seq<u8>
    decreases n,
{
    if n == 0 {
        k
    } else {
        spec_sha256(spec_kdf_chain(k, (n - 1) as nat))
    }
}

/// The master key: the salted secret, hashed once and then chained `rounds`
/// more times.
pub open spec fn spec_master_key(secret: Seq<u8>, salt: Seq<u8>, rounds: nat) -> Seq<u8> {
    spec_kdf_chain(spec_sha256(salt + secret), rounds)
}

/// The cipher key: the master key domain-separated with a zero byte.
pub open spec fn spec_enc_key(secret: Seq<u8>, salt: Seq<u8>, rounds: nat) -> Seq<u8> {
    spec_sha256(spec_master_key(secret, salt, rounds) + seq![0u8])
}

/// The integrity key: the master key domain-separated with a one byte.
pub open spec fn spec_mac_key(secret: Seq<u8>, salt: Seq<u8>, rounds: nat) -> Seq<u8> {
    spec_sha256(spec_master_key(secret, salt, rounds) + seq![1u8])
}

/// Which parameter sets derivation accepts, and the error owed otherwise:
/// an unknown algorithm is `InvalidParameters`, a memory cost beyond the
/// host limit is `DerivationError`.
pub open spec fn spec_params_check(params: KdfParams) -> Result<(), ContainerError> {
    if params.kdf_id != KDF_ITERATED_SHA256 {
        Err(ContainerError::InvalidParameters)
    } else if params.memory_kib > MAX_MEMORY_KIB {
        Err(ContainerError::DerivationError)
    } else {
        Ok(())
    }
}

/// Derive the key set from secret material, a per-file salt and the KDF
/// parameters. Succeeds exactly on the parameter sets `spec_params_check`
/// accepts, and the key bytes are a function of the three inputs alone.
pub fn derive(secret: &Vec<u8>, salt: &Vec<u8>, params: &KdfParams) -> (r: Result<
    DerivedKeySet,
    ContainerError,
>)
    ensures
        match r {
            Ok(ks) => spec_params_check(*params) is Ok && ks.wf() && ks.enc_key@ == spec_enc_key(
                secret@,
                salt@,
                params.rounds as nat,
            ) && ks.mac_key@ == spec_mac_key(secret@, salt@, params.rounds as nat),
            Err(e) => spec_params_check(*params) == Err::<(), ContainerError>(e),
        },
{
    if params.kdf_id != KDF_ITERATED_SHA256 {
        return Err(ContainerError::InvalidParameters);
    }
    if params.memory_kib > MAX_MEMORY_KIB {
        return Err(ContainerError::DerivationError);
    }
    let mut seed: Vec<u8> = Vec::new();
    push_all(&mut seed, salt);
    push_all(&mut seed, secret);
    proof {
        assert(seed@ =~= salt@ + secret@);
    }
    let mut k = sha256_bytes(&seed);
    let mut i: u32 = 0;
    while i < params.rounds
        invariant
            i <= params.rounds,
            k@ == spec_kdf_chain(spec_sha256(salt@ + secret@), i as nat),
        decreases params.rounds - i,
    {
        k = sha256_bytes(&k);
        i = i + 1;
    }
    let mut enc_in: Vec<u8> = Vec::new();
    push_all(&mut enc_in, &k);
    enc_in.push(0u8);
    proof {
        assert(enc_in@ =~= spec_master_key(secret@, salt@, params.rounds as nat) + seq![0u8]);
    }
    let enc_key = sha256_bytes(&enc_in);
    let mut mac_in: Vec<u8> = Vec::new();
    push_all(&mut mac_in, &k);
    mac_in.push(1u8);
    proof {
        assert(mac_in@ =~= spec_master_key(secret@, salt@, params.rounds as nat) + seq![1u8]);
    }
    let mac_key = sha256_bytes(&mac_in);
    zero_out(&mut seed);
    zero_out(&mut k);
    zero_out(&mut enc_in);
    zero_out(&mut mac_in);
    Ok(DerivedKeySet { enc_key, mac_key })
}

/// Determinism of key derivation: any two key sets derived from the same
/// secret material, salt and parameters hold the same key bytes, since the
/// contract of `derive` pins each result to a function of those inputs.
pub proof fn lemma_derive_deterministic(
    secret: Seq<u8>,
    salt: Seq<u8>,
    rounds: nat,
    e1: Seq<u8>,
    m1: Seq<u8>,
    e2: Seq<u8>,
    m2: Seq<u8>,
)
    requires
        e1 == spec_enc_key(secret, salt, rounds),
        m1 == spec_mac_key(secret, salt, rounds),
        e2 == spec_enc_key(secret, salt, rounds),
        m2 == spec_mac_key(secret, salt, rounds),
    ensures
        e1 == e2,
        m1 == m2,
{
}

/// The secret material for a password and an optional key file: the
/// length-prefixed password bytes followed by the key-file bytes, so that
/// distinct pairs stay distinct.
pub open spec fn spec_db_key(pw: Seq<char>, keyfile: Option<Seq<u8>>) -> Seq<u8> {
    let pw_bytes = vstd::utf8::encode_utf8(pw);
    vstd::bytes::spec_u64_to_le_bytes(pw_bytes.len() as u64) + pw_bytes + (match keyfile {
        Some(kf) => kf,
        None => Seq::<u8>::empty(),
    })
}

/// Compose the caller-supplied password and optional key-file bytes into the
/// secret material handed to key derivation.
pub fn build_db_key(password: &String, keyfile: Option<&Vec<u8>>) -> (r: Vec<u8>)
    ensures
        r@ == spec_db_key(
            password@,
            match keyfile {
                Some(kf) => Some(kf@),
                None => None,
            },
        ),
{
    let pw_bytes = password.as_str().as_bytes_vec();
    let mut out = vstd::bytes::u64_to_le_bytes(pw_bytes.len() as u64);
    push_all(&mut out, &pw_bytes);
    match keyfile {
        Some(kf) => {
            push_all(&mut out, kf);
            proof {
                assert(out@ =~= spec_db_key(password@, Some(kf@)));
            }
        },
        None => {
            proof {
                assert(out@ =~= spec_db_key(password@, None));
            }
        },
    }
    out
}

} // verus!
