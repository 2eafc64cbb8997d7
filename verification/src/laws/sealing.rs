//! Promises of what is sealed: which envelopes open, and which keys are keys.
use vstd::prelude::*;

use crate::envelope;
use crate::envelope::{ContentError, EnvelopeView, KeyError, OpenError, SealError};
use crate::text;

verus! {

/// Only envelopes of the known kind open. What comes out is what was encrypted under that key and
/// nonce, unpacked; every other envelope is refused for the first thing that is wrong with it.
pub proof fn envelopes_open_in_order(given: EnvelopeView, key: Seq<u8>)
    ensures
        ({
            let outcome = envelope::opened(given, key);
            let known = given.version == 1 && given.algorithm == "AES-256-GCM"@
                && given.compression == "gzip"@;
            let nonce = envelope::base64_bytes(given.nonce);
            let cipher = envelope::base64_bytes(given.ciphertext);
            let packed = envelope::decrypted(key, nonce.unwrap(), cipher.unwrap());
            &&& !known ==> outcome == Err::<Seq<u8>, OpenError>(OpenError::Unsupported)
            &&& known && nonce is None ==> outcome == Err::<Seq<u8>, OpenError>(
                OpenError::NonceNotBase64,
            )
            &&& known && nonce is Some && nonce.unwrap().len() != 12 ==> outcome == Err::<
                Seq<u8>,
                OpenError,
            >(OpenError::NonceLength)
            &&& known && nonce is Some && nonce.unwrap().len() == 12 && cipher is None
                ==> outcome == Err::<Seq<u8>, OpenError>(OpenError::CiphertextNotBase64)
            &&& known && nonce is Some && nonce.unwrap().len() == 12 && cipher is Some
                && packed is None ==> outcome == Err::<Seq<u8>, OpenError>(OpenError::WrongKey)
            &&& known && nonce is Some && nonce.unwrap().len() == 12 && cipher is Some
                && packed is Some && envelope::unpacked(packed.unwrap()) is None ==> outcome
                == Err::<Seq<u8>, OpenError>(OpenError::Corrupt)
            &&& known && nonce is Some && nonce.unwrap().len() == 12 && cipher is Some
                && packed is Some && envelope::unpacked(packed.unwrap()) is Some ==> outcome
                == Ok::<Seq<u8>, OpenError>(envelope::unpacked(packed.unwrap()).unwrap())
        }),
{
}

/// What was sealed opens again under the same key, where its parts read back from their notation, the
/// cipher gives back what it encrypted, and the compressor what it packed.
pub proof fn sealed_snapshots_open(
    packed: Seq<u8>,
    nonce: Seq<u8>,
    key: Seq<u8>,
    plain: Seq<u8>,
)
    ensures
        nonce.len() == 12 && envelope::encrypted(key, nonce, packed) is Some
            && envelope::base64_bytes(envelope::base64_text(nonce)) == Some(nonce)
            && envelope::base64_bytes(
            envelope::base64_text(envelope::encrypted(key, nonce, packed).unwrap()),
        ) == envelope::encrypted(key, nonce, packed) && envelope::decrypted(
            key,
            nonce,
            envelope::encrypted(key, nonce, packed).unwrap(),
        ) == Some(packed) && envelope::unpacked(packed) == Some(plain) ==> (envelope::seal_outcome(
            Some(packed),
            Some(nonce),
            key,
        ) matches Ok(made) && envelope::opened(made, key) == Ok::<Seq<u8>, OpenError>(plain)),
{
}

/// Sealing fails where the compressor or the generator of random bytes does, and says which.
pub proof fn sealing_says_why_it_fails(
    packed: Option<Seq<u8>>,
    nonce: Option<Seq<u8>>,
    key: Seq<u8>,
)
    ensures
        packed is None ==> envelope::seal_outcome(packed, nonce, key) == Err::<
            EnvelopeView,
            SealError,
        >(SealError::Compression),
        packed is Some && nonce is None ==> envelope::seal_outcome(packed, nonce, key) == Err::<
            EnvelopeView,
            SealError,
        >(SealError::Randomness),
        packed is Some && nonce is Some && envelope::encrypted(
            key,
            nonce.unwrap(),
            packed.unwrap(),
        ) is None ==> envelope::seal_outcome(packed, nonce, key) == Err::<EnvelopeView, SealError>(
            SealError::Encryption,
        ),
{
}

/// A key is thirty-two bytes, written in base64, outer space aside; anything else is refused.
pub proof fn keys_are_thirty_two_bytes(value: Seq<char>)
    ensures
        envelope::key_of(value) matches Ok(key) ==> key.len() == 32 && envelope::base64_bytes(
            text::trimmed(value),
        ) == Some(key),
        envelope::base64_bytes(text::trimmed(value)) is None ==> envelope::key_of(value) == Err::<
            Seq<u8>,
            KeyError,
        >(KeyError::NotBase64),
        envelope::base64_bytes(text::trimmed(value)) matches Some(bytes) ==> {
            &&& bytes.len() == 32 ==> envelope::key_of(value) == Ok::<Seq<u8>, KeyError>(bytes)
            &&& bytes.len() != 32 ==> envelope::key_of(value) == Err::<Seq<u8>, KeyError>(
                KeyError::WrongLength,
            )
        },
{
}

/// A remote file is read only in base64. Line breaks in it make no difference.
pub proof fn remote_files_are_read_without_breaks(encoding: Seq<char>, content: Seq<char>)
    ensures
        encoding != "base64"@ ==> envelope::file_bytes(encoding, content) == Err::<
            Seq<u8>,
            ContentError,
        >(ContentError::UnsupportedEncoding),
        encoding == "base64"@ && !content.contains('\r') && !content.contains('\n') ==> (
        envelope::file_bytes(encoding, content) matches Ok(bytes) ==> envelope::base64_bytes(
            content,
        ) == Some(bytes)),
        encoding == "base64"@ && !content.contains('\r') && !content.contains('\n')
            && envelope::base64_bytes(content) is Some ==> envelope::file_bytes(
            encoding,
            content,
        ) is Ok,
        envelope::file_bytes(encoding, content.push('\n')) == envelope::file_bytes(
            encoding,
            content,
        ),
        envelope::file_bytes(encoding, content.push('\r')) == envelope::file_bytes(
            encoding,
            content,
        ),
{
    let keep = |c: char| c != '\r' && c != '\n';
    content.lemma_filter_push('\n', keep);
    content.lemma_filter_push('\r', keep);
    if !content.contains('\r') && !content.contains('\n') {
        assert forall|i: int| 0 <= i < content.len() implies keep(#[trigger] content[i]) by {
            assert(content.contains(content[i]));
        }
        crate::lists::lemma_filter_uniform(content, keep);
    }
}

} // verus!
