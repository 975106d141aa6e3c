//! Client side of the services' ES256 access tokens.
//!
//! Tokens are issued only by the auth service, with the private key; the
//! other services check them with the public one. One [`Jwt`] covers both
//! roles: a verifier holds the public key alone, a signer both.
use vstd::prelude::*;

use crate::http::AppError;
use crate::text::{chars_of, string_of};

verus! {

#[verifier::external_type_specification]
#[verifier::external_body]
pub struct ExDecodingKey(jsonwebtoken::DecodingKey);

#[verifier::external_type_specification]
#[verifier::external_body]
pub struct ExEncodingKey(jsonwebtoken::EncodingKey);

#[verifier::external_type_specification]
#[verifier::external_body]
pub struct ExJwtError(jsonwebtoken::errors::Error);

/// The payload of an access token (what the auth service puts in it).
#[derive(Debug, Clone, PartialEq, Eq)]
pub struct Claims {
    /// The user id (a UUID).
    pub sub: String,
    pub iss: String,
    pub aud: String,
    pub iat: i64,
    pub exp: i64,
}

/// Whether `pem` is a PEM-encoded EC public key that `jsonwebtoken` accepts.
pub uninterp spec fn ec_public_pem_ok(pem: Seq<u8>) -> bool;

/// The key `DecodingKey::from_ec_pem` builds from `pem` when it parses: the
/// DER of the EC public key it holds, for the EC family.
pub uninterp spec fn ec_public_key(pem: Seq<u8>) -> jsonwebtoken::DecodingKey;

/// The key `EncodingKey::from_ec_pem` builds from `pem` when it parses: the
/// DER of the EC private key it holds, for the EC family.
pub uninterp spec fn ec_private_key(pem: Seq<u8>) -> jsonwebtoken::EncodingKey;

/// Whether `pem` is a PEM-encoded EC private key (PKCS#8) that `jsonwebtoken`
/// accepts.
pub uninterp spec fn ec_private_pem_ok(pem: Seq<u8>) -> bool;

/// The 128-bit value of the UUID written in `text`, if it is one in a format
/// `uuid` parses (hyphenated, simple, URN, braced).
pub uninterp spec fn uuid_value(text: Seq<char>) -> Option<u128>;

/// Calls `DecodingKey::from_ec_pem`, which parses the PEM and keeps the DER
/// of an EC public key; whether it succeeds, and the key it gives, depend on
/// the bytes alone.
#[verifier::external_body]
fn decoding_key(pem: &[u8]) -> (r: Result<jsonwebtoken::DecodingKey, jsonwebtoken::errors::Error>)
    ensures
        r is Ok <==> ec_public_pem_ok(pem@),
        r matches Ok(k) ==> k == ec_public_key(pem@),
{
    jsonwebtoken::DecodingKey::from_ec_pem(pem)
}

/// Calls `EncodingKey::from_ec_pem`, which parses the PEM and keeps the DER
/// of an EC private key; whether it succeeds, and the key it gives, depend on
/// the bytes alone.
#[verifier::external_body]
fn encoding_key(pem: &[u8]) -> (r: Result<jsonwebtoken::EncodingKey, jsonwebtoken::errors::Error>)
    ensures
        r is Ok <==> ec_private_pem_ok(pem@),
        r matches Ok(k) ==> k == ec_private_key(pem@),
{
    jsonwebtoken::EncodingKey::from_ec_pem(pem)
}

/// Calls `Uuid::parse_str` and gives the parsed UUID as its 128-bit value.
#[verifier::external_body]
fn parse_uuid(text: &str) -> (r: Option<u128>)
    ensures
        r == uuid_value(text@),
{
    match uuid::Uuid::parse_str(text) {
        Ok(u) => Some(u.as_u128()),
        Err(_) => None,
    }
}

/// Why a [`Jwt`] could not be built or could not issue.
#[derive(Debug, Clone, Copy, PartialEq, Eq, Hash, Structural)]
pub enum AuthnError {
    /// The public key is not an ES256 PEM.
    InvalidPublicKey,
    /// The private key is not an ES256 PEM.
    InvalidPrivateKey,
    /// This instance only verifies: it has no private key.
    VerifyOnly,
}

/// What a [`Jwt`] is, apart from its key material.
pub struct JwtView {
    pub signs: bool,
    pub issuer: Seq<char>,
    pub audience: Seq<char>,
    pub access_ttl_secs: i64,
    /// The key signatures are checked with.
    pub decoding: jsonwebtoken::DecodingKey,
    /// The key tokens are signed with; `None` for a verifier.
    pub encoding: Option<jsonwebtoken::EncodingKey>,
}

/// Keys and parameters of ES256. Only a signer has the private key.
pub struct Jwt {
    decoding: jsonwebtoken::DecodingKey,
    encoding: Option<jsonwebtoken::EncodingKey>,
    issuer: String,
    audience: String,
    access_ttl_secs: i64,
}

impl View for Jwt {
    type V = JwtView;

    closed spec fn view(&self) -> JwtView {
        JwtView {
            signs: self.encoding is Some,
            issuer: self.issuer@,
            audience: self.audience@,
            access_ttl_secs: self.access_ttl_secs,
            decoding: self.decoding,
            encoding: self.encoding,
        }
    }
}

impl Jwt {
    /// A verifier only: the public key from PEM bytes.
    pub fn verifying(pub_pem: &[u8], issuer: String, audience: String) -> (r: Result<Jwt, AuthnError>)
        ensures
            r is Ok <==> ec_public_pem_ok(pub_pem@),
            r matches Ok(j) ==> {
                &&& !j@.signs
                &&& j@.issuer == issuer@
                &&& j@.audience == audience@
                &&& j@.access_ttl_secs == 0
                &&& j@.decoding == ec_public_key(pub_pem@)
                &&& j@.encoding is None
            },
            r matches Err(e) ==> e == AuthnError::InvalidPublicKey,
    {
        match decoding_key(pub_pem) {
            Ok(decoding) => Ok(Jwt { decoding, encoding: None, issuer, audience, access_ttl_secs: 0 }),
            Err(_) => Err(AuthnError::InvalidPublicKey),
        }
    }

    /// Issuing and verifying: the private and public keys from PEM bytes. The
    /// public key is checked first.
    pub fn signer(
        priv_pem: &[u8],
        pub_pem: &[u8],
        issuer: String,
        audience: String,
        access_ttl_secs: i64,
    ) -> (r: Result<Jwt, AuthnError>)
        ensures
            r is Ok <==> ec_public_pem_ok(pub_pem@) && ec_private_pem_ok(priv_pem@),
            r matches Ok(j) ==> {
                &&& j@.signs
                &&& j@.issuer == issuer@
                &&& j@.audience == audience@
                &&& j@.access_ttl_secs == access_ttl_secs
                &&& j@.decoding == ec_public_key(pub_pem@)
                &&& j@.encoding == Some(ec_private_key(priv_pem@))
            },
            r == Err::<Jwt, AuthnError>(AuthnError::InvalidPublicKey) <==> !ec_public_pem_ok(pub_pem@),
            r == Err::<Jwt, AuthnError>(AuthnError::InvalidPrivateKey) <==> ec_public_pem_ok(pub_pem@)
                && !ec_private_pem_ok(priv_pem@),
    {
        let decoding = match decoding_key(pub_pem) {
            Ok(k) => k,
            Err(_) => {
                return Err(AuthnError::InvalidPublicKey);
            },
        };
        let encoding = match encoding_key(priv_pem) {
            Ok(k) => k,
            Err(_) => {
                return Err(AuthnError::InvalidPrivateKey);
            },
        };
        Ok(Jwt { decoding, encoding: Some(encoding), issuer, audience, access_ttl_secs })
    }

    /// The claims of an access token for user `sub` issued at `now` (seconds
    /// since the epoch): it expires `access_ttl_secs` later. Only a signer
    /// issues.
    pub fn access_claims(&self, sub: &str, now: i64) -> (r: Result<Claims, AuthnError>)
        requires
            i64::MIN <= now + self@.access_ttl_secs <= i64::MAX,
        ensures
            r is Ok <==> self@.signs,
            r matches Err(e) ==> e == AuthnError::VerifyOnly,
            r matches Ok(c) ==> {
                &&& c.sub@ == sub@
                &&& c.iss@ == self@.issuer
                &&& c.aud@ == self@.audience
                &&& c.iat == now
                &&& c.exp == now + self@.access_ttl_secs
            },
    {
        if self.encoding.is_none() {
            return Err(AuthnError::VerifyOnly);
        }
        Ok(Claims {
            sub: sub.to_owned(),
            iss: self.issuer.clone(),
            aud: self.audience.clone(),
            iat: now,
            exp: now + self.access_ttl_secs,
        })
    }

    /// How long an access token lives, in seconds.
    pub fn access_ttl_secs(&self) -> (r: i64)
        ensures
            r == self@.access_ttl_secs,
    {
        self.access_ttl_secs
    }

    /// The issuer tokens must name.
    pub fn issuer(&self) -> (r: &str)
        ensures
            r@ == self@.issuer,
    {
        self.issuer.as_str()
    }

    /// The audience tokens must name.
    pub fn audience(&self) -> (r: &str)
        ensures
            r@ == self@.audience,
    {
        self.audience.as_str()
    }

    /// The key signatures are checked with: the one parsed from the public
    /// PEM this `Jwt` was built from.
    pub fn decoding_key(&self) -> (r: &jsonwebtoken::DecodingKey)
        ensures
            *r == self@.decoding,
    {
        &self.decoding
    }

    /// The key tokens are signed with; `None` for a verifier.
    pub fn encoding_key(&self) -> (r: Option<&jsonwebtoken::EncodingKey>)
        ensures
            r is Some <==> self@.signs,
            r matches Some(k) ==> self@.encoding == Some(*k),
    {
        match &self.encoding {
            Some(k) => Some(k),
            None => None,
        }
    }
}

/// The scheme prefix of an `Authorization` header carrying a token.
pub open spec fn bearer_prefix() -> Seq<char> {
    "Bearer "@
}

/// The token of an `Authorization` header: what follows `Bearer `. A missing
/// header, or one of another scheme, is refused as unauthorized.
pub fn bearer_token(header: Option<&str>) -> (r: Result<String, AppError>)
    ensures
        header is None ==> (r matches Err(AppError::Unauthorized(m)) && m@ == "нет заголовка Authorization"@),
        header matches Some(h) ==> {
            if h@.len() >= bearer_prefix().len() && h@.take(bearer_prefix().len() as int) == bearer_prefix() {
                (r matches Ok(t) && t@ == h@.skip(bearer_prefix().len() as int))
            } else {
                (r matches Err(AppError::Unauthorized(m)) && m@ == "ожидается Bearer-токен"@)
            }
        },
{
    let h = match header {
        Some(h) => h,
        None => {
            return Err(AppError::Unauthorized("нет заголовка Authorization".to_owned()));
        },
    };
    let prefix = chars_of("Bearer ");
    let cs = chars_of(h);
    let n = prefix.len();
    if cs.len() < n {
        return Err(AppError::Unauthorized("ожидается Bearer-токен".to_owned()));
    }
    let mut k: usize = 0;
    while k < n
        invariant
            header == Some(h),
            prefix@ == bearer_prefix(),
            cs@ == h@,
            n == prefix.len(),
            n <= cs.len(),
            k <= n,
            forall|j: int| 0 <= j < k ==> cs@[j] == prefix@[j],
        decreases n - k,
    {
        if cs[k] != prefix[k] {
            proof {
                assert(h@.take(n as int)[k as int] != bearer_prefix()[k as int]);
            }
            return Err(AppError::Unauthorized("ожидается Bearer-токен".to_owned()));
        }
        k = k + 1;
    }
    proof {
        assert(h@.take(n as int) =~= bearer_prefix());
        assert(cs@.subrange(n as int, cs.len() as int) =~= h@.skip(n as int));
    }
    Ok(string_of(&cs, n, cs.len()))
}

/// The user a token's `sub` names, as the UUID's 128-bit value; a `sub` that
/// is not a UUID is refused as unauthorized.
pub fn user_id_of(sub: &str) -> (r: Result<u128, AppError>)
    ensures
        uuid_value(sub@) matches Some(v) ==> r == Ok::<u128, AppError>(v),
        uuid_value(sub@) is None ==> (r matches Err(AppError::Unauthorized(m)) && m@ == "битый sub в токене"@),
{
    match parse_uuid(sub) {
        Some(v) => Ok(v),
        None => Err(AppError::Unauthorized("битый sub в токене".to_owned())),
    }
}

} // verus!
