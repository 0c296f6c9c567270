use vstd::prelude::*;

use crate::bytesutil::copy_range;
use crate::bytesutil::eq_bytes;
use crate::bytesutil::lemma_xor_involutive;
use crate::bytesutil::push_all;
use crate::bytesutil::spec_xor;
use crate::bytesutil::xor_bytes;
use crate::crypto::chacha20_keystream;
use crate::crypto::random_u64;
use crate::crypto::sha256_bytes;
use crate::crypto::spec_chacha20_keystream;
use crate::crypto::spec_sha256;
use crate::errors::ContainerError;
use crate::kdf::spec_enc_key;
use crate::kdf::spec_mac_key;
use crate::kdf::spec_params_check;
use crate::kdf::KdfParams;
use crate::payload::decode_payload;
use crate::payload::enc_group;
use crate::payload::encode_payload;
use crate::payload::lemma_payload_round_trip;
use crate::payload::spec_decode_payload;
use crate::tree::Group;
use crate::tree::GroupV;

verus! {

use vstd::bytes::spec_u16_from_le_bytes;
use vstd::bytes::spec_u16_to_le_bytes;
use vstd::bytes::spec_u32_from_le_bytes;
use vstd::bytes::spec_u32_to_le_bytes;

// The container envelope. Offsets into the file bytes:
//   0 ..  4  format magic
//   4 ..  6  format version, little endian
//   6        cipher identifier
//   7        compression identifier
//   8        key-derivation identifier
//   9 .. 13  key-derivation rounds, little endian
//  13 .. 17  key-derivation memory cost in KiB, little endian
//  17 .. 33  per-file random salt
//  33 .. 45  per-file random cipher nonce
//  45 .. 77  integrity digest of the decrypted payload, keyed
//  77 ..     the encrypted payload
/// The identifier of the ChaCha20 stream cipher, the only one supported.
pub const CIPHER_CHACHA20: u8 = 1;

/// The identifier of the uncompressed payload form.
pub const COMPRESSION_NONE: u8 = 0;

/// The identifier of the run-length compressed payload form.
pub const COMPRESSION_RLE: u8 = 1;

/// The container format version this engine reads and writes.
pub const FORMAT_VERSION: u16 = 1;

/// The number of bytes of the fixed container header.
pub const HEADER_LEN: usize = 77;

/// The largest encrypted payload the cipher accepts here.
pub const MAX_PAYLOAD_LEN: usize = 0xffff_ffff;

/// The four magic bytes that open every container.
pub open spec fn spec_magic() -> Seq<u8> {
    seq![0x56u8, 0x4cu8, 0x54u8, 0x31u8]
}

/// What decoding a container yields for given bytes and secret material:
/// the decoded root group, or the exact error owed. A bad magic, version,
/// cipher, compression identifier or over-long payload is `MalformedHeader`;
/// bad derivation parameters fail as in `spec_params_check`; a digest
/// mismatch - a wrong password and a tampered file alike - is
/// `IntegrityCheckFailed`; a compressed payload that does not expand is
/// `DecompressionError`; payload bytes that are not the wire form of one
/// group are `SchemaViolation`.
pub open spec fn spec_open(bytes: Seq<u8>, secret: Seq<u8>) -> Result<GroupV, ContainerError> {
    if bytes.len() < 77 {
        Err(ContainerError::MalformedHeader)
    } else if bytes.subrange(0, 4) != spec_magic() {
        Err(ContainerError::MalformedHeader)
    } else if spec_u16_from_le_bytes(bytes.subrange(4, 6)) != FORMAT_VERSION {
        Err(ContainerError::MalformedHeader)
    } else if bytes[6] != CIPHER_CHACHA20 {
        Err(ContainerError::MalformedHeader)
    } else if bytes[7] != COMPRESSION_NONE && bytes[7] != COMPRESSION_RLE {
        Err(ContainerError::MalformedHeader)
    } else if bytes.len() - 77 > MAX_PAYLOAD_LEN {
        Err(ContainerError::MalformedHeader)
    } else {
        let params = KdfParams {
            kdf_id: bytes[8],
            rounds: spec_u32_from_le_bytes(bytes.subrange(9, 13)),
            memory_kib: spec_u32_from_le_bytes(bytes.subrange(13, 17)),
        };
        match spec_params_check(params) {
            Err(e) => Err(e),
            Ok(_) => {
                let salt = bytes.subrange(17, 33);
                let nonce = bytes.subrange(33, 45);
                let stored = bytes.subrange(45, 77);
                let ct = bytes.skip(77);
                let ek = spec_enc_key(secret, salt, params.rounds as nat);
                let mk = spec_mac_key(secret, salt, params.rounds as nat);
                let plain = spec_xor(ct, spec_chacha20_keystream(ek, nonce, ct.len()));
                if spec_sha256(mk + plain) != stored {
                    Err(ContainerError::IntegrityCheckFailed)
                } else if bytes[7] == COMPRESSION_RLE {
                    match crate::compress::spec_rle_decode(plain) {
                        Some(expanded) => spec_decode_payload(expanded),
                        None => Err(ContainerError::DecompressionError),
                    }
                } else {
                    spec_decode_payload(plain)
                }
            },
        }
    }
}

/// Parse, decrypt, integrity-check and decode a container. Returns exactly
/// what `spec_open` prescribes for these bytes and this secret material; on
/// any error no part of the tree is exposed.
pub fn open_database(bytes: &Vec<u8>, secret: &Vec<u8>) -> (r: Result<Group, ContainerError>)
    ensures
        match r {
            Ok(g) => spec_open(bytes@, secret@) == Ok::<GroupV, ContainerError>(g@),
            Err(e) => spec_open(bytes@, secret@) == Err::<GroupV, ContainerError>(e),
        },
{
    if bytes.len() < 77 {
        return Err(ContainerError::MalformedHeader);
    }
    let magic = copy_range(bytes, 0, 4);
    let expect: Vec<u8> = vec![0x56u8, 0x4cu8, 0x54u8, 0x31u8];
    proof {
        assert(expect@ =~= spec_magic());
    }
    if !eq_bytes(&magic, &expect) {
        return Err(ContainerError::MalformedHeader);
    }
    let version = vstd::bytes::u16_from_le_bytes(
        vstd::slice::slice_subrange(bytes.as_slice(), 4, 6),
    );
    if version != FORMAT_VERSION {
        return Err(ContainerError::MalformedHeader);
    }
    if bytes[6] != CIPHER_CHACHA20 {
        return Err(ContainerError::MalformedHeader);
    }
    if bytes[7] != COMPRESSION_NONE && bytes[7] != COMPRESSION_RLE {
        return Err(ContainerError::MalformedHeader);
    }
    if bytes.len() - 77 > MAX_PAYLOAD_LEN {
        return Err(ContainerError::MalformedHeader);
    }
    let rounds = vstd::bytes::u32_from_le_bytes(
        vstd::slice::slice_subrange(bytes.as_slice(), 9, 13),
    );
    let memory_kib = vstd::bytes::u32_from_le_bytes(
        vstd::slice::slice_subrange(bytes.as_slice(), 13, 17),
    );
    let params = KdfParams { kdf_id: bytes[8], rounds, memory_kib };
    let salt = copy_range(bytes, 17, 33);
    let nonce = copy_range(bytes, 33, 45);
    let stored = copy_range(bytes, 45, 77);
    let ct = copy_range(bytes, 77, bytes.len());
    proof {
        assert(ct@ =~= bytes@.skip(77));
    }
    let mut keys = match crate::kdf::derive(secret, &salt, &params) {
        Ok(k) => k,
        Err(e) => {
            return Err(e);
        },
    };
    let stream = chacha20_keystream(&keys.enc_key, &nonce, ct.len());
    let plain = xor_bytes(&ct, &stream);
    let mut mac_in: Vec<u8> = Vec::new();
    push_all(&mut mac_in, &keys.mac_key);
    push_all(&mut mac_in, &plain);
    proof {
        assert(mac_in@ =~= keys.mac_key@ + plain@);
    }
    let recomputed = sha256_bytes(&mac_in);
    keys.wipe();
    crate::kdf::zero_out(&mut mac_in);
    if !eq_bytes(&recomputed, &stored) {
        return Err(ContainerError::IntegrityCheckFailed);
    }
    if bytes[7] == COMPRESSION_RLE {
        let expanded = match crate::compress::rle_decompress(&plain) {
            Ok(p) => p,
            Err(e) => {
                return Err(e);
            },
        };
        decode_payload(&expanded)
    } else {
        decode_payload(&plain)
    }
}

fn random_salt() -> (r: Vec<u8>)
    ensures
        r@.len() == 16,
{
    let a = vstd::bytes::u64_to_le_bytes(random_u64());
    let b = vstd::bytes::u64_to_le_bytes(random_u64());
    let mut out: Vec<u8> = Vec::new();
    push_all(&mut out, &a);
    push_all(&mut out, &b);
    out
}

fn random_nonce() -> (r: Vec<u8>)
    ensures
        r@.len() == 12,
{
    let a = vstd::bytes::u64_to_le_bytes(random_u64());
    let b = vstd::bytes::u32_to_le_bytes(random_u64() as u32);
    let mut out: Vec<u8> = Vec::new();
    push_all(&mut out, &a);
    push_all(&mut out, &b);
    out
}

/// Serialize, encrypt and frame a whole tree as a fresh container, with a
/// fresh random salt and nonce. On success the produced bytes open back to
/// exactly this tree under the same secret material - the round trip the
/// format owes. Fails as key derivation does on bad parameters, and with
/// `PersistenceError` on a payload too large for the cipher.
#[verifier::rlimit(90)]
#[verifier::spinoff_prover]
pub fn encode_database(root: &Group, secret: &Vec<u8>, params: &KdfParams) -> (r: Result<
    Vec<u8>,
    ContainerError,
>)
    ensures
        match r {
            Ok(out) => spec_params_check(*params) is Ok && spec_open(out@, secret@) == Ok::<
                GroupV,
                ContainerError,
            >(root@),
            Err(e) => spec_params_check(*params) == Err::<(), ContainerError>(e) || (e
                == ContainerError::PersistenceError && enc_group(root@).len() > MAX_PAYLOAD_LEN),
        },
{
    let salt = random_salt();
    let nonce = random_nonce();
    let mut keys = match crate::kdf::derive(secret, &salt, params) {
        Ok(k) => k,
        Err(e) => {
            return Err(e);
        },
    };
    let payload = encode_payload(root);
    if payload.len() > MAX_PAYLOAD_LEN {
        return Err(ContainerError::PersistenceError);
    }
    let mut mac_in: Vec<u8> = Vec::new();
    push_all(&mut mac_in, &keys.mac_key);
    push_all(&mut mac_in, &payload);
    proof {
        assert(mac_in@ =~= keys.mac_key@ + payload@);
    }
    let digest = sha256_bytes(&mac_in);
    let stream = chacha20_keystream(&keys.enc_key, &nonce, payload.len());
    let ct = xor_bytes(&payload, &stream);
    keys.wipe();
    crate::kdf::zero_out(&mut mac_in);
    let mut out: Vec<u8> = Vec::new();
    out.push(0x56u8);
    out.push(0x4cu8);
    out.push(0x54u8);
    out.push(0x31u8);
    let vb = vstd::bytes::u16_to_le_bytes(FORMAT_VERSION);
    push_all(&mut out, &vb);
    out.push(CIPHER_CHACHA20);
    out.push(COMPRESSION_NONE);
    out.push(params.kdf_id);
    let rb = vstd::bytes::u32_to_le_bytes(params.rounds);
    push_all(&mut out, &rb);
    let mb = vstd::bytes::u32_to_le_bytes(params.memory_kib);
    push_all(&mut out, &mb);
    push_all(&mut out, &salt);
    push_all(&mut out, &nonce);
    push_all(&mut out, &digest);
    push_all(&mut out, &ct);
    proof {
        let h = out@;
        vstd::bytes::lemma_auto_spec_u16_to_from_le_bytes();
        vstd::bytes::lemma_auto_spec_u32_to_from_le_bytes();
        assert(h.len() == 77 + ct@.len());
        assert(h.subrange(0, 4) =~= spec_magic());
        assert(h.subrange(4, 6) =~= spec_u16_to_le_bytes(FORMAT_VERSION));
        assert(h[6] == CIPHER_CHACHA20);
        assert(h[7] == COMPRESSION_NONE);
        assert(h[8] == params.kdf_id);
        assert(h.subrange(9, 13) =~= spec_u32_to_le_bytes(params.rounds));
        assert(h.subrange(13, 17) =~= spec_u32_to_le_bytes(params.memory_kib));
        assert(h.subrange(17, 33) =~= salt@);
        assert(h.subrange(33, 45) =~= nonce@);
        assert(h.subrange(45, 77) =~= digest@);
        assert(h.skip(77) =~= ct@);
        assert(KdfParams {
            kdf_id: h[8],
            rounds: spec_u32_from_le_bytes(h.subrange(9, 13)),
            memory_kib: spec_u32_from_le_bytes(h.subrange(13, 17)),
        } == *params);
        lemma_xor_involutive(payload@, stream@);
        lemma_payload_round_trip(root@);
        assert(spec_open(out@, secret@) == Ok::<GroupV, ContainerError>(root@));
    }
    Ok(out)
}

/// Tamper detection for the stored digest: changing any single byte of the
/// digest region of a container that opens successfully makes every later
/// open fail with `IntegrityCheckFailed`, never yield a different tree.
pub proof fn lemma_tamper_digest_detected(
    bytes: Seq<u8>,
    secret: Seq<u8>,
    bytes2: Seq<u8>,
    i: int,
)
    requires
        spec_open(bytes, secret) is Ok,
        bytes2.len() == bytes.len(),
        45 <= i < 77,
        bytes2[i] != bytes[i],
        forall|j: int| 0 <= j < bytes.len() && j != i ==> bytes2[j] == bytes[j],
    ensures
        spec_open(bytes2, secret) == Err::<GroupV, ContainerError>(
            ContainerError::IntegrityCheckFailed,
        ),
{
    assert(bytes2.subrange(0, 4) =~= bytes.subrange(0, 4));
    assert(bytes2.subrange(4, 6) =~= bytes.subrange(4, 6));
    assert(bytes2.subrange(9, 13) =~= bytes.subrange(9, 13));
    assert(bytes2.subrange(13, 17) =~= bytes.subrange(13, 17));
    assert(bytes2.subrange(17, 33) =~= bytes.subrange(17, 33));
    assert(bytes2.subrange(33, 45) =~= bytes.subrange(33, 45));
    assert(bytes2.skip(77) =~= bytes.skip(77));
    assert(bytes2.subrange(45, 77)[i - 45] != bytes.subrange(45, 77)[i - 45]);
}

/// Tamper propagation for the encrypted payload: changing any single
/// ciphertext byte of a container that opens successfully changes the
/// decrypted payload at exactly that offset, which the keyed digest is then
/// recomputed over. Equal digests for the two distinct payloads would be a
/// hash collision; the byte-by-byte tamper tests probe that behaviour.
pub proof fn lemma_tamper_payload_changes_plaintext(
    bytes: Seq<u8>,
    secret: Seq<u8>,
    bytes2: Seq<u8>,
    i: int,
)
    requires
        spec_open(bytes, secret) is Ok,
        bytes2.len() == bytes.len(),
        77 <= i < bytes.len(),
        bytes2[i] != bytes[i],
        forall|j: int| 0 <= j < bytes.len() && j != i ==> bytes2[j] == bytes[j],
    ensures
        ({
            let params = KdfParams {
                kdf_id: bytes[8],
                rounds: spec_u32_from_le_bytes(bytes.subrange(9, 13)),
                memory_kib: spec_u32_from_le_bytes(bytes.subrange(13, 17)),
            };
            let salt = bytes.subrange(17, 33);
            let nonce = bytes.subrange(33, 45);
            let ek = spec_enc_key(secret, salt, params.rounds as nat);
            let ks = spec_chacha20_keystream(ek, nonce, bytes.skip(77).len());
            spec_xor(bytes2.skip(77), ks)[i - 77] != spec_xor(bytes.skip(77), ks)[i - 77]
        }),
{
    let ct1 = bytes.skip(77);
    let ct2 = bytes2.skip(77);
    assert(ct1[i - 77] == bytes[i]);
    assert(ct2[i - 77] == bytes2[i]);
    let params = KdfParams {
        kdf_id: bytes[8],
        rounds: spec_u32_from_le_bytes(bytes.subrange(9, 13)),
        memory_kib: spec_u32_from_le_bytes(bytes.subrange(13, 17)),
    };
    let salt = bytes.subrange(17, 33);
    let nonce = bytes.subrange(33, 45);
    let ek = spec_enc_key(secret, salt, params.rounds as nat);
    let ks = spec_chacha20_keystream(ek, nonce, ct1.len());
    assert(spec_xor(ct1, ks)[i - 77] == (ct1[i - 77] ^ ks[i - 77]));
    assert(spec_xor(ct2, ks)[i - 77] == (ct2[i - 77] ^ ks[i - 77]));
    crate::bytesutil::lemma_xor_distinct(ct1[i - 77], ct2[i - 77], ks[i - 77]);
}

/// Serialize, run-length compress, encrypt and frame a whole tree, with a
/// fresh random salt and nonce. As for `encode_database`, the produced
/// bytes open back to exactly this tree under the same secret material;
/// only the payload form differs.
#[verifier::rlimit(90)]
#[verifier::spinoff_prover]
pub fn encode_database_compressed(root: &Group, secret: &Vec<u8>, params: &KdfParams) -> (r:
    Result<Vec<u8>, ContainerError>)
    ensures
        match r {
            Ok(out) => spec_params_check(*params) is Ok && spec_open(out@, secret@) == Ok::<
                GroupV,
                ContainerError,
            >(root@),
            Err(e) => spec_params_check(*params) == Err::<(), ContainerError>(e) || (e
                == ContainerError::PersistenceError && crate::compress::spec_rle_encode(
                enc_group(root@),
            ).len() > MAX_PAYLOAD_LEN),
        },
{
    let salt = random_salt();
    let nonce = random_nonce();
    let mut keys = match crate::kdf::derive(secret, &salt, params) {
        Ok(k) => k,
        Err(e) => {
            return Err(e);
        },
    };
    let payload = encode_payload(root);
    let plain = crate::compress::rle_compress(&payload);
    if plain.len() > MAX_PAYLOAD_LEN {
        return Err(ContainerError::PersistenceError);
    }
    let mut mac_in: Vec<u8> = Vec::new();
    push_all(&mut mac_in, &keys.mac_key);
    push_all(&mut mac_in, &plain);
    proof {
        assert(mac_in@ =~= keys.mac_key@ + plain@);
    }
    let digest = sha256_bytes(&mac_in);
    let stream = chacha20_keystream(&keys.enc_key, &nonce, plain.len());
    let ct = xor_bytes(&plain, &stream);
    keys.wipe();
    crate::kdf::zero_out(&mut mac_in);
    let mut out: Vec<u8> = Vec::new();
    out.push(0x56u8);
    out.push(0x4cu8);
    out.push(0x54u8);
    out.push(0x31u8);
    let vb = vstd::bytes::u16_to_le_bytes(FORMAT_VERSION);
    push_all(&mut out, &vb);
    out.push(CIPHER_CHACHA20);
    out.push(COMPRESSION_RLE);
    out.push(params.kdf_id);
    let rb = vstd::bytes::u32_to_le_bytes(params.rounds);
    push_all(&mut out, &rb);
    let mb = vstd::bytes::u32_to_le_bytes(params.memory_kib);
    push_all(&mut out, &mb);
    push_all(&mut out, &salt);
    push_all(&mut out, &nonce);
    push_all(&mut out, &digest);
    push_all(&mut out, &ct);
    proof {
        let h = out@;
        vstd::bytes::lemma_auto_spec_u16_to_from_le_bytes();
        vstd::bytes::lemma_auto_spec_u32_to_from_le_bytes();
        assert(h.len() == 77 + ct@.len());
        assert(h.subrange(0, 4) =~= spec_magic());
        assert(h.subrange(4, 6) =~= spec_u16_to_le_bytes(FORMAT_VERSION));
        assert(h[6] == CIPHER_CHACHA20);
        assert(h[7] == COMPRESSION_RLE);
        assert(h[8] == params.kdf_id);
        assert(h.subrange(9, 13) =~= spec_u32_to_le_bytes(params.rounds));
        assert(h.subrange(13, 17) =~= spec_u32_to_le_bytes(params.memory_kib));
        assert(h.subrange(17, 33) =~= salt@);
        assert(h.subrange(33, 45) =~= nonce@);
        assert(h.subrange(45, 77) =~= digest@);
        assert(h.skip(77) =~= ct@);
        assert(KdfParams {
            kdf_id: h[8],
            rounds: spec_u32_from_le_bytes(h.subrange(9, 13)),
            memory_kib: spec_u32_from_le_bytes(h.subrange(13, 17)),
        } == *params);
        lemma_xor_involutive(plain@, stream@);
        crate::compress::lemma_rle_round_trip(payload@);
        lemma_payload_round_trip(root@);
        assert(spec_open(out@, secret@) == Ok::<GroupV, ContainerError>(root@));
    }
    Ok(out)
}

} // verus!
