//! Sealing what is uploaded, and opening what is downloaded.
use vstd::prelude::*;
use vstd::string::*;

use crate::sync;
use crate::text;

use aes_gcm::aead::{Aead, KeyInit};
use aes_gcm::{Aes256Gcm, Nonce};
use base64::engine::general_purpose::STANDARD;
use base64::Engine;
use flate2::read::GzDecoder;
use flate2::write::GzEncoder;
use flate2::Compression;
use rand::rngs::OsRng;
use rand::RngCore;
use std::io::{Read, Write};

verus! {

broadcast use vstd::seq_lib::group_seq_properties;

pub const KEY_BYTES: usize = 32;

pub const NONCE_BYTES: usize = 12;

/// The longest message that is encrypted: 64 GiB.
pub const MAX_MESSAGE_BYTES: u64 = 68_719_476_736;

/// The most that is encoded at once: the longest ciphertext.
pub const MAX_ENCODED_BYTES: u64 = 68_719_476_752;

/// Bytes as text in the standard alphabet, with padding.
pub uninterp spec fn base64_text(bytes: Seq<u8>) -> Seq<char>;

/// The bytes that a text in the standard alphabet stands for, if any.
pub uninterp spec fn base64_bytes(value: Seq<char>) -> Option<Seq<u8>>;

/// Trusted: `base64::Engine::encode` with the engine `STANDARD` writes the bytes as text, and
/// the text decodes to the same bytes. Its alphabet and its padding hold no white space. It panics
/// where the length of the text overflows, so the bytes are bounded.
#[verifier::external_body]
fn encode_base64(bytes: &[u8]) -> (result: String)
    requires
        bytes@.len() <= MAX_ENCODED_BYTES,
    ensures
        result@ == base64_text(bytes@),
        base64_bytes(result@) == Some(bytes@),
        forall|i: int| 0 <= i < result@.len() ==> !text::white(#[trigger] result@[i]),
{
    STANDARD.encode(bytes)
}

/// Trusted: `base64::Engine::decode` with the engine `STANDARD` reads the text, which alone
/// decides the result; what is not such text is refused.
#[verifier::external_body]
fn decode_base64(value: &str) -> (result: Option<Vec<u8>>)
    ensures
        match result {
            Some(bytes) => base64_bytes(value@) == Some(bytes@),
            None => base64_bytes(value@) is None,
        },
{
    STANDARD.decode(value).ok()
}

/// What the first member of gzip data unpacks to, if it is whole.
pub uninterp spec fn unpacked(bytes: Seq<u8>) -> Option<Seq<u8>>;

/// What bytes pack to as gzip data at the best compression, if they can be packed.
pub uninterp spec fn packed(bytes: Seq<u8>) -> Option<Seq<u8>>;

/// Trusted: `flate2::write::GzEncoder` at its best compression packs the bytes, such that they
/// unpack to the same bytes. The bytes alone decide the result, since the header holds no time
/// and no system. Which bytes they pack to is left to the compressor, and so is whether it ever
/// fails.
#[verifier::external_body]
fn pack(bytes: &[u8]) -> (result: Option<Vec<u8>>)
    ensures
        match result {
            Some(output) => packed(bytes@) == Some(output@),
            None => packed(bytes@) is None,
        },
        result matches Some(output) ==> unpacked(output@) == Some(bytes@),
{
    let mut encoder = GzEncoder::new(Vec::new(), Compression::best());
    encoder.write_all(bytes).ok()?;
    encoder.finish().ok()
}

/// Trusted: `flate2::read::GzDecoder` reads the first member of the data to its end; the data
/// alone decide the result.
#[verifier::external_body]
fn unpack(bytes: &[u8]) -> (result: Option<Vec<u8>>)
    ensures
        match result {
            Some(plain) => unpacked(bytes@) == Some(plain@),
            None => unpacked(bytes@) is None,
        },
{
    let mut plain = Vec::new();
    GzDecoder::new(bytes).read_to_end(&mut plain).ok()?;
    Some(plain)
}

/// The ciphertext with its tag, unless the message is too long.
pub uninterp spec fn encrypted(key: Seq<u8>, nonce: Seq<u8>, plain: Seq<u8>) -> Option<Seq<u8>>;

/// The message of a ciphertext whose tag fits, if it does.
pub uninterp spec fn decrypted(key: Seq<u8>, nonce: Seq<u8>, cipher: Seq<u8>) -> Option<Seq<u8>>;

/// Trusted: `aes_gcm::Aes256Gcm::encrypt` without associated data. It refuses messages above
/// 64 GiB and no others, appends a tag of 16 bytes, and the result decrypts to the message under
/// the same key and nonce. `Nonce::from_slice` panics on any other length than twelve bytes.
#[verifier::external_body]
fn encrypt(key: &[u8; 32], nonce: &[u8], plain: &[u8]) -> (result: Option<Vec<u8>>)
    requires
        nonce@.len() == NONCE_BYTES,
    ensures
        match result {
            Some(cipher) => encrypted(key@, nonce@, plain@) == Some(cipher@),
            None => encrypted(key@, nonce@, plain@) is None,
        },
        result is Some <==> plain@.len() <= MAX_MESSAGE_BYTES,
        result matches Some(cipher) ==> decrypted(key@, nonce@, cipher@) == Some(plain@),
        result matches Some(cipher) ==> cipher@.len() == plain@.len() + 16,
{
    Aes256Gcm::new(key.into()).encrypt(Nonce::from_slice(nonce), plain).ok()
}

/// Trusted: `aes_gcm::Aes256Gcm::decrypt` without associated data gives the message back where
/// the tag fits, and nothing otherwise. `Nonce::from_slice` panics on any other length than
/// twelve bytes.
#[verifier::external_body]
fn decrypt(key: &[u8; 32], nonce: &[u8], cipher: &[u8]) -> (result: Option<Vec<u8>>)
    requires
        nonce@.len() == NONCE_BYTES,
    ensures
        match result {
            Some(plain) => decrypted(key@, nonce@, cipher@) == Some(plain@),
            None => decrypted(key@, nonce@, cipher@) is None,
        },
{
    Aes256Gcm::new(key.into()).decrypt(Nonce::from_slice(nonce), cipher).ok()
}

/// Trusted: `rand::rngs::OsRng` fills a short buffer of the given length with bytes of the
/// operating system's generator, or says that it cannot. Which bytes is chance.
#[verifier::external_body]
fn random_bytes(count: usize) -> (result: Option<Vec<u8>>)
    requires
        count <= KEY_BYTES,
    ensures
        result matches Some(bytes) ==> bytes@.len() == count,
{
    let mut bytes = vec![0u8; count];
    OsRng.try_fill_bytes(&mut bytes).ok()?;
    Some(bytes)
}

/// Why a key cannot be used.
#[derive(Clone, Copy, Debug, PartialEq, Eq, Structural)]
pub enum KeyError {
    NotBase64,
    WrongLength,
}

/// The key that a text stands for.
pub open spec fn key_of(value: Seq<char>) -> Result<Seq<u8>, KeyError> {
    match base64_bytes(text::trimmed(value)) {
        None => Err(KeyError::NotBase64),
        Some(bytes) => if bytes.len() == KEY_BYTES {
            Ok(bytes)
        } else {
            Err(KeyError::WrongLength)
        },
    }
}

/// Reads a key from its text.
pub fn decode_key(value: &str) -> (result: Result<[u8; 32], KeyError>)
    ensures
        match result {
            Ok(key) => key_of(value@) == Ok::<Seq<u8>, KeyError>(key@),
            Err(error) => key_of(value@) == Err::<Seq<u8>, KeyError>(error),
        },
{
    let trimmed = text::trim(value);
    let bytes = match decode_base64(trimmed.as_str()) {
        Some(bytes) => bytes,
        None => {
            return Err(KeyError::NotBase64);
        },
    };
    key_from(&bytes)
}

/// Takes decoded bytes as a key, if they are as many as a key has.
pub fn key_from(bytes: &Vec<u8>) -> (result: Result<[u8; 32], KeyError>)
    ensures
        match result {
            Ok(key) => bytes@.len() == KEY_BYTES && key@ == bytes@,
            Err(error) => bytes@.len() != KEY_BYTES && error == KeyError::WrongLength,
        },
{
    if bytes.len() != KEY_BYTES {
        return Err(KeyError::WrongLength);
    }
    let mut key = [0u8; 32];
    let mut i: usize = 0;
    while i < KEY_BYTES
        invariant
            i <= KEY_BYTES,
            bytes.len() == KEY_BYTES,
            forall|k: int| 0 <= k < i ==> key@[k] == bytes@[k],
        decreases KEY_BYTES - i,
    {
        key[i] = bytes[i];
        i += 1;
    }
    assert(key@ =~= bytes@);
    Ok(key)
}

/// The bytes, where there are any.
pub open spec fn optional_bytes(value: Option<Vec<u8>>) -> Option<Seq<u8>> {
    match value {
        Some(bytes) => Some(bytes@),
        None => None,
    }
}

/// The text of a key, given what the generator of random bytes returned.
pub open spec fn drawn_key(drawn: Option<Seq<u8>>) -> Option<Seq<char>> {
    match drawn {
        Some(bytes) => Some(base64_text(bytes)),
        None => None,
    }
}

/// What a generator of random bytes may return for a key: bytes of its length, or nothing.
pub open spec fn may_be_key(drawn: Option<Seq<u8>>) -> bool {
    drawn matches Some(bytes) ==> bytes.len() == KEY_BYTES
}

/// Writes a key as text, given what the generator of random bytes returned. The text reads back as
/// the same key.
pub fn key_text(drawn: Option<Vec<u8>>) -> (result: Option<String>)
    requires
        drawn matches Some(bytes) ==> bytes@.len() == KEY_BYTES,
    ensures
        text::optional(result) == drawn_key(optional_bytes(drawn)),
        result matches Some(value) ==> (drawn matches Some(bytes) && key_of(value@) == Ok::<
            Seq<u8>,
            KeyError,
        >(bytes@)),
{
    match drawn {
        Some(bytes) => {
            let value = encode_base64(bytes.as_slice());
            assert(text::trimmed(value@) == value@);
            Some(value)
        },
        None => None,
    }
}

/// A new key as text: one that `decode_key` accepts. It is the text of the bytes that chance gave;
/// when the generator of random bytes fails is left to it.
pub fn generate_encryption_key() -> (result: Option<String>)
    ensures
        exists|drawn: Option<Seq<u8>>|
            may_be_key(drawn) && text::optional(result) == #[trigger] drawn_key(drawn),
        result matches Some(value) ==> key_of(value@) is Ok,
{
    let drawn = random_bytes(KEY_BYTES);
    assert(may_be_key(optional_bytes(drawn)));
    key_text(drawn)
}

/// What is uploaded: a sealed snapshot and how it was sealed.
#[derive(Debug, PartialEq, Eq)]
pub struct EncryptedEnvelope {
    pub version: u32,
    pub algorithm: String,
    pub compression: String,
    pub nonce: String,
    pub ciphertext: String,
}

/// What an `EncryptedEnvelope` holds.
#[verifier::ext_equal]
pub struct EnvelopeView {
    pub version: u32,
    pub algorithm: Seq<char>,
    pub compression: Seq<char>,
    pub nonce: Seq<char>,
    pub ciphertext: Seq<char>,
}

impl View for EncryptedEnvelope {
    type V = EnvelopeView;

    open spec fn view(&self) -> EnvelopeView {
        EnvelopeView {
            version: self.version,
            algorithm: self.algorithm@,
            compression: self.compression@,
            nonce: self.nonce@,
            ciphertext: self.ciphertext@,
        }
    }
}

/// Why an envelope cannot be opened.
#[derive(Clone, Copy, Debug, PartialEq, Eq, Structural)]
pub enum OpenError {
    Unsupported,
    NonceNotBase64,
    NonceLength,
    CiphertextNotBase64,
    WrongKey,
    Corrupt,
}

/// What opening an envelope with a key comes to.
pub open spec fn opened(envelope: EnvelopeView, key: Seq<u8>) -> Result<Seq<u8>, OpenError> {
    if envelope.version != sync::SNAPSHOT_SCHEMA || envelope.algorithm != "AES-256-GCM"@
        || envelope.compression != "gzip"@ {
        Err(OpenError::Unsupported)
    } else {
        match (base64_bytes(envelope.nonce), base64_bytes(envelope.ciphertext)) {
            (None, _) => Err(OpenError::NonceNotBase64),
            (Some(nonce), cipher) => if nonce.len() != NONCE_BYTES {
                Err(OpenError::NonceLength)
            } else {
                match cipher {
                    None => Err(OpenError::CiphertextNotBase64),
                    Some(bytes) => match decrypted(key, nonce, bytes) {
                        None => Err(OpenError::WrongKey),
                        Some(packed) => match unpacked(packed) {
                            None => Err(OpenError::Corrupt),
                            Some(plain) => Ok(plain),
                        },
                    },
                }
            },
        }
    }
}

/// Opens an envelope.
pub fn open_envelope(
    envelope: &EncryptedEnvelope,
    key: &[u8; 32],
) -> (result: Result<Vec<u8>, OpenError>)
    ensures
        match result {
            Ok(plain) => opened(envelope@, key@) == Ok::<Seq<u8>, OpenError>(plain@),
            Err(error) => opened(envelope@, key@) == Err::<Seq<u8>, OpenError>(error),
        },
{
    if envelope.version != sync::SNAPSHOT_SCHEMA || !text::same(
        envelope.algorithm.as_str(),
        "AES-256-GCM",
    ) || !text::same(envelope.compression.as_str(), "gzip") {
        return Err(OpenError::Unsupported);
    }
    let nonce = match decode_base64(envelope.nonce.as_str()) {
        Some(nonce) => nonce,
        None => {
            return Err(OpenError::NonceNotBase64);
        },
    };
    if nonce.len() != NONCE_BYTES {
        return Err(OpenError::NonceLength);
    }
    let cipher = match decode_base64(envelope.ciphertext.as_str()) {
        Some(cipher) => cipher,
        None => {
            return Err(OpenError::CiphertextNotBase64);
        },
    };
    let packed = match decrypt(key, nonce.as_slice(), cipher.as_slice()) {
        Some(packed) => packed,
        None => {
            return Err(OpenError::WrongKey);
        },
    };
    match unpack(packed.as_slice()) {
        Some(plain) => Ok(plain),
        None => Err(OpenError::Corrupt),
    }
}

/// Why a snapshot cannot be sealed.
#[derive(Clone, Copy, Debug, PartialEq, Eq, Structural)]
pub enum SealError {
    Compression,
    Randomness,
    Encryption,
}

/// What sealing comes to, given what the compressor and the generator of random bytes returned.
pub open spec fn seal_outcome(
    packed: Option<Seq<u8>>,
    nonce: Option<Seq<u8>>,
    key: Seq<u8>,
) -> Result<EnvelopeView, SealError> {
    match (packed, nonce) {
        (None, _) => Err(SealError::Compression),
        (Some(_), None) => Err(SealError::Randomness),
        (Some(packed), Some(nonce)) => sealed(packed, nonce, key),
    }
}

/// What a generator of random bytes may return for a nonce: bytes of its length, or nothing.
pub open spec fn may_be_nonce(nonce: Option<Seq<u8>>) -> bool {
    nonce matches Some(bytes) ==> bytes.len() == NONCE_BYTES
}

/// Seals a snapshot under a key: whatever nonce chance gives, the envelope opens under the same
/// key to the same snapshot. Sealing fails only where the compressor or the generator of random
/// bytes does, or where the packed snapshot is longer than what can be encrypted; when the
/// generator fails is left to it.
pub fn seal_snapshot(plain: &[u8], key: &[u8; 32]) -> (result: Result<
    EncryptedEnvelope,
    SealError,
>)
    ensures
        result matches Ok(envelope) ==> opened(envelope@, key@) == Ok::<Seq<u8>, OpenError>(plain@),
        result == Err::<EncryptedEnvelope, SealError>(SealError::Compression) <==> packed(plain@) is None,
        result == Err::<EncryptedEnvelope, SealError>(SealError::Encryption) ==> (packed(
            plain@,
        ) matches Some(bytes) && bytes.len() > MAX_MESSAGE_BYTES),
        exists|nonce: Option<Seq<u8>>|
            {
                &&& may_be_nonce(nonce)
                &&& #[trigger] seal_outcome(packed(plain@), nonce, key@) == match result {
                    Ok(envelope) => Ok::<EnvelopeView, SealError>(envelope@),
                    Err(error) => Err::<EnvelopeView, SealError>(error),
                }
            },
{
    let output = pack(plain);
    let nonce = random_bytes(NONCE_BYTES);
    assert(optional_bytes(output) == packed(plain@));
    assert(may_be_nonce(optional_bytes(nonce)));
    seal_with(output, nonce, key)
}

/// Seals under a key with what the compressor and the generator of random bytes returned.
pub fn seal_with(packed: Option<Vec<u8>>, nonce: Option<Vec<u8>>, key: &[u8; 32]) -> (result:
    Result<EncryptedEnvelope, SealError>)
    requires
        nonce matches Some(bytes) ==> bytes@.len() == NONCE_BYTES,
    ensures
        seal_outcome(optional_bytes(packed), optional_bytes(nonce), key@) == match result {
            Ok(envelope) => Ok::<EnvelopeView, SealError>(envelope@),
            Err(error) => Err::<EnvelopeView, SealError>(error),
        },
        result is Ok <==> nonce is Some && (packed matches Some(bytes) && bytes@.len()
            <= MAX_MESSAGE_BYTES),
        result matches Ok(envelope) ==> (packed matches Some(bytes) && opened(envelope@, key@)
            == match unpacked(bytes@) {
            Some(plain) => Ok::<Seq<u8>, OpenError>(plain),
            None => Err::<Seq<u8>, OpenError>(OpenError::Corrupt),
        }),
{
    match (packed, nonce) {
        (None, _) => Err(SealError::Compression),
        (Some(_), None) => Err(SealError::Randomness),
        (Some(packed), Some(nonce)) => seal_packed(packed.as_slice(), nonce.as_slice(), key),
    }
}

/// The envelope of packed bytes under a nonce and a key.
pub open spec fn sealed(packed: Seq<u8>, nonce: Seq<u8>, key: Seq<u8>) -> Result<
    EnvelopeView,
    SealError,
> {
    match encrypted(key, nonce, packed) {
        None => Err(SealError::Encryption),
        Some(cipher) => Ok(
            EnvelopeView {
                version: sync::SNAPSHOT_SCHEMA,
                algorithm: "AES-256-GCM"@,
                compression: "gzip"@,
                nonce: base64_text(nonce),
                ciphertext: base64_text(cipher),
            },
        ),
    }
}

/// Seals packed bytes under a nonce and a key.
pub fn seal_packed(packed: &[u8], nonce: &[u8], key: &[u8; 32]) -> (result: Result<
    EncryptedEnvelope,
    SealError,
>)
    requires
        nonce@.len() == NONCE_BYTES,
    ensures
        match result {
            Ok(envelope) => {
                &&& sealed(packed@, nonce@, key@) == Ok::<EnvelopeView, SealError>(envelope@)
                &&& opened(envelope@, key@) == match unpacked(packed@) {
                    Some(plain) => Ok::<Seq<u8>, OpenError>(plain),
                    None => Err::<Seq<u8>, OpenError>(OpenError::Corrupt),
                }
            },
            Err(error) => sealed(packed@, nonce@, key@) == Err::<EnvelopeView, SealError>(error),
        },
        result is Ok <==> packed@.len() <= MAX_MESSAGE_BYTES,
{
    let cipher = match encrypt(key, nonce, packed) {
        Some(cipher) => cipher,
        None => {
            return Err(SealError::Encryption);
        },
    };
    Ok(
        EncryptedEnvelope {
            version: sync::SNAPSHOT_SCHEMA,
            algorithm: "AES-256-GCM".to_owned(),
            compression: "gzip".to_owned(),
            nonce: encode_base64(nonce),
            ciphertext: encode_base64(cipher.as_slice()),
        },
    )
}

/// Why the content of a remote file cannot be read.
#[derive(Clone, Copy, Debug, PartialEq, Eq, Structural)]
pub enum ContentError {
    UnsupportedEncoding,
    NotBase64,
}

/// The text without line breaks.
pub open spec fn without_breaks(value: Seq<char>) -> Seq<char> {
    value.filter(|c: char| c != '\r' && c != '\n')
}

fn drop_breaks(value: &str) -> (result: String)
    ensures
        result@ == without_breaks(value@),
{
    let chars = text::chars_of(value);
    let ghost keep = |c: char| c != '\r' && c != '\n';
    let mut result: String = String::new();
    let mut i: usize = 0;
    assert(value@.take(0).filter(keep) =~= Seq::empty()) by {
        reveal(Seq::filter);
    }
    while i < chars.len()
        invariant
            i <= chars.len(),
            chars@ == value@,
            keep == (|c: char| c != '\r' && c != '\n'),
            result@ == value@.take(i as int).filter(keep),
        decreases chars.len() - i,
    {
        let c = chars[i];
        assert(value@.take(i + 1) =~= value@.take(i as int).push(c));
        proof {
            value@.take(i as int).lemma_filter_push(c, keep);
        }
        if c != '\r' && c != '\n' {
            result.push(c);
        }
        i += 1;
    }
    assert(value@.take(chars.len() as int) =~= value@);
    result
}

/// The bytes of a remote file.
pub open spec fn file_bytes(encoding: Seq<char>, content: Seq<char>) -> Result<
    Seq<u8>,
    ContentError,
> {
    if encoding != "base64"@ {
        Err(ContentError::UnsupportedEncoding)
    } else {
        match base64_bytes(without_breaks(content)) {
            Some(bytes) => Ok(bytes),
            None => Err(ContentError::NotBase64),
        }
    }
}

/// Reads the content of a remote file.
pub fn decode_content(encoding: &str, content: &str) -> (result: Result<Vec<u8>, ContentError>)
    ensures
        match result {
            Ok(bytes) => file_bytes(encoding@, content@) == Ok::<Seq<u8>, ContentError>(bytes@),
            Err(error) => file_bytes(encoding@, content@) == Err::<Seq<u8>, ContentError>(error),
        },
{
    if !text::same(encoding, "base64") {
        return Err(ContentError::UnsupportedEncoding);
    }
    let joined = drop_breaks(content);
    match decode_base64(joined.as_str()) {
        Some(bytes) => Ok(bytes),
        None => Err(ContentError::NotBase64),
    }
}

/// Writes bytes as the content of a remote file.
pub fn encode_content(bytes: &[u8]) -> (result: String)
    requires
        bytes@.len() <= MAX_ENCODED_BYTES,
    ensures
        result@ == base64_text(bytes@),
        base64_bytes(result@) == Some(bytes@),
{
    encode_base64(bytes)
}

} // verus!
