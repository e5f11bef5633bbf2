//! The parts of the configuration that need decoding before use.

use crate::error::ConfigError;
use crate::models::EnvConfig;
use vstd::prelude::*;

verus! {

/// The error of `base64::decode`. Nothing is read from it.
#[verifier::external_type_specification]
#[verifier::external_body]
pub struct ExDecodeError(base64::DecodeError);

/// What `base64::decode` makes of a text: the bytes that it decodes the text
/// to, with the standard alphabet, or `None` where it refuses the text.
pub uninterp spec fn base64_decoding(text: Seq<char>) -> Option<Seq<u8>>;

/// Calls `base64::decode` on the text.
///
/// Trusted: the call succeeds exactly on the texts that `base64_decoding`
/// gives bytes for, and returns those bytes. The decoder is a function of the
/// text alone, and it cannot overflow its length arithmetic on a text that
/// fits in memory.
#[verifier::external_body]
fn decode_base64(text: &str) -> (decoded: Result<Vec<u8>, base64::DecodeError>)
    ensures
        match decoded {
            Ok(bytes) => base64_decoding(text@) == Some(bytes@),
            Err(_) => base64_decoding(text@) is None,
        },
{
    base64::decode(text)
}

/// The certificate, from what the decoder made of its text: the decoded
/// bytes, or `InvalidCertificate` where the decoder refused the text.
pub fn certificate_from(decoded: Result<Vec<u8>, base64::DecodeError>) -> (certificate: Result<
    Vec<u8>,
    ConfigError,
>)
    ensures
        match decoded {
            Ok(bytes) => certificate is Ok && certificate->Ok_0@ == bytes@,
            Err(_) => certificate == Err::<Vec<u8>, ConfigError>(ConfigError::InvalidCertificate),
        },
{
    match decoded {
        Ok(bytes) => Ok(bytes),
        Err(_) => Err(ConfigError::InvalidCertificate),
    }
}

impl EnvConfig {
    /// The store's root certificate in DER, decoded from `db_cert`.
    ///
    /// Fails with `InvalidCertificate` exactly where `db_cert` is not valid
    /// base64.
    pub fn certificate(&self) -> (certificate: Result<Vec<u8>, ConfigError>)
        ensures
            match base64_decoding(self.db_cert@) {
                Some(bytes) => certificate is Ok && certificate->Ok_0@ == bytes,
                None => certificate == Err::<Vec<u8>, ConfigError>(ConfigError::InvalidCertificate),
            },
    {
        certificate_from(decode_base64(self.db_cert.as_str()))
    }
}

} // verus!
