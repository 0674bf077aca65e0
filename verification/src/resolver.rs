//! The two-stage credential resolver.
//!
//! Secret key material is released only after an enablement check: the
//! access key is first looked up in the Access Registry, and only a key
//! whose record is enabled may be looked up in the Secret Registry. The
//! two registries are external document stores; this module holds the
//! decisions over their lookup outcomes, and a flow type that makes the
//! mandatory query order a verified invariant.

use vstd::prelude::*;
use crate::errors::GatewayError;

verus! {

/// An access-key record of the Access Registry.
#[derive(Debug, Clone)]
pub struct BanyanUser {
    /// The account's identity.
    pub id: String,
    /// Whether the account is enabled for this service.
    pub is_s3_enabled: bool,
    /// Opaque account metadata.
    pub metadata: String,
}

/// Secret key material from the Secret Registry.
#[derive(Debug, Clone)]
pub struct SecretKey {
    material: String,
}

impl View for SecretKey {
    type V = Seq<char>;

    closed spec fn view(&self) -> Seq<char> {
        self.material@
    }
}

impl SecretKey {
    /// Wraps secret key material.
    pub fn new(material: String) -> (r: Self)
        ensures
            r@ == material@,
    {
        SecretKey { material }
    }

    /// The secret key material itself.
    pub fn as_str(&self) -> (r: &str)
        ensures
            r@ == self@,
    {
        self.material.as_str()
    }
}

/// What a lookup in the Access Registry came back with.
pub enum AccessLookup {
    /// A record exists for the access key.
    Found(BanyanUser),
    /// No record exists for the access key.
    NotFound,
    /// The registry could not be reached or queried; the detail stays
    /// server-side.
    StoreError,
}

/// What a lookup in the Secret Registry came back with.
pub enum SecretLookup {
    /// Secret material exists for the access key.
    Found(SecretKey),
    /// No secret material exists for the access key.
    NotFound,
    /// The registry could not be reached or queried; the detail stays
    /// server-side.
    StoreError,
}

/// What the bucket-write policy store answered.
pub enum PolicyLookup {
    /// The policy decided: write permission granted or not.
    Decided(bool),
    /// The policy store could not be reached.
    StoreError,
}

/// The authentication decision over an Access Registry outcome: a store
/// failure is an internal error, a missing record an invalid access key,
/// a disabled record (whether or not a secret exists) not signed up.
pub open spec fn spec_authenticate(o: AccessLookup) -> Result<(), GatewayError> {
    match o {
        AccessLookup::StoreError => Err(GatewayError::InternalError),
        AccessLookup::NotFound => Err(GatewayError::InvalidAccessKeyId),
        AccessLookup::Found(u) => if u.is_s3_enabled {
            Ok(())
        } else {
            Err(GatewayError::NotSignedUp)
        },
    }
}

/// The secret-release decision over a Secret Registry outcome; absence
/// here is indistinguishable to the caller from absence in the Access
/// Registry.
pub open spec fn spec_resolve_secret(o: SecretLookup) -> Result<SecretKey, GatewayError> {
    match o {
        SecretLookup::StoreError => Err(GatewayError::InternalError),
        SecretLookup::NotFound => Err(GatewayError::InvalidAccessKeyId),
        SecretLookup::Found(sk) => Ok(sk),
    }
}

/// Authenticates an access key from its Access Registry record and
/// checks that the account is enabled for this service.
pub fn authenticate_and_check_s3_permissions(o: &AccessLookup) -> (r: Result<(), GatewayError>)
    ensures
        r == spec_authenticate(*o),
{
    match o {
        AccessLookup::StoreError => Err(GatewayError::InternalError),
        AccessLookup::NotFound => Err(GatewayError::InvalidAccessKeyId),
        AccessLookup::Found(u) => {
            if u.is_s3_enabled {
                Ok(())
            } else {
                Err(GatewayError::NotSignedUp)
            }
        },
    }
}

/// Releases the secret key material from a Secret Registry outcome.
pub fn get_decryption_key_from_db(o: SecretLookup) -> (r: Result<SecretKey, GatewayError>)
    ensures
        r == spec_resolve_secret(o),
{
    match o {
        SecretLookup::StoreError => Err(GatewayError::InternalError),
        SecretLookup::NotFound => Err(GatewayError::InvalidAccessKeyId),
        SecretLookup::Found(sk) => Ok(sk),
    }
}

/// The bucket-write authorization gate: side-effect-free, a boolean on a
/// policy decision, and `InternalError` exactly when the policy store is
/// unreachable. Which rule decides the boolean is the policy store's
/// affair.
pub fn has_write_permission_to_bucket(o: &PolicyLookup) -> (r: Result<bool, GatewayError>)
    ensures
        r == match *o {
            PolicyLookup::Decided(b) => Result::<bool, GatewayError>::Ok(b),
            PolicyLookup::StoreError => Result::<bool, GatewayError>::Err(
                GatewayError::InternalError,
            ),
        },
{
    match o {
        PolicyLookup::Decided(b) => Ok(*b),
        PolicyLookup::StoreError => Err(GatewayError::InternalError),
    }
}

/// Which external registry the resolver asks next.
#[derive(Debug, Clone, Copy, PartialEq, Eq, Structural)]
pub enum RegistryQuery {
    /// Look the access key up in the Access Registry.
    AccessRegistry,
    /// Look the access key up in the Secret Registry.
    SecretRegistry,
}

/// Where a secret-key resolution stands.
pub enum FlowState {
    /// The Access Registry has not answered yet.
    AwaitAccess,
    /// The access key is authenticated and enabled; the Secret Registry
    /// may now be queried.
    AwaitSecret,
    /// The resolution is finished with this outcome.
    Done(Result<SecretKey, GatewayError>),
}

/// One secret-key resolution, step by step.
///
/// The flow asks for one registry query at a time. It asks for the
/// Secret Registry only from the `AwaitSecret` state, and that state is
/// reached only by an Access Registry answer whose record is enabled: the
/// secret store is never queried for a key that failed authorization.
pub struct GetSecretKeyFlow {
    state: FlowState,
}

impl GetSecretKeyFlow {
    /// Where the flow stands.
    pub closed spec fn spec_state(self) -> FlowState {
        self.state
    }

    /// A fresh resolution: nothing has been asked yet.
    pub fn new() -> (r: Self)
        ensures
            r.spec_state() is AwaitAccess,
    {
        GetSecretKeyFlow { state: FlowState::AwaitAccess }
    }

    /// The query the caller must run next, if any. The Secret Registry
    /// is asked for only once the access check has succeeded.
    pub fn next_query(&self) -> (r: Option<RegistryQuery>)
        ensures
            r == match self.spec_state() {
                FlowState::AwaitAccess => Some(RegistryQuery::AccessRegistry),
                FlowState::AwaitSecret => Some(RegistryQuery::SecretRegistry),
                FlowState::Done(_) => None::<RegistryQuery>,
            },
    {
        match &self.state {
            FlowState::AwaitAccess => Some(RegistryQuery::AccessRegistry),
            FlowState::AwaitSecret => Some(RegistryQuery::SecretRegistry),
            FlowState::Done(_) => None,
        }
    }

    /// Feeds the Access Registry's answer in. The flow proceeds to the
    /// secret lookup exactly when the record exists and is enabled; any
    /// other answer finishes the flow with the authentication error, and
    /// the Secret Registry is never asked.
    pub fn supply_access_result(&mut self, o: AccessLookup)
        requires
            old(self).spec_state() is AwaitAccess,
        ensures
            final(self).spec_state() == match spec_authenticate(o) {
                Ok(_) => FlowState::AwaitSecret,
                Err(e) => FlowState::Done(Err(e)),
            },
    {
        match authenticate_and_check_s3_permissions(&o) {
            Ok(_) => {
                self.state = FlowState::AwaitSecret;
            },
            Err(e) => {
                self.state = FlowState::Done(Err(e));
            },
        }
    }

    /// Feeds the Secret Registry's answer in and finishes the flow.
    pub fn supply_secret_result(&mut self, o: SecretLookup)
        requires
            old(self).spec_state() is AwaitSecret,
        ensures
            final(self).spec_state() == FlowState::Done(spec_resolve_secret(o)),
    {
        self.state = FlowState::Done(get_decryption_key_from_db(o));
    }

    /// The finished flow's outcome; none while a query is still owed.
    pub fn outcome(self) -> (r: Option<Result<SecretKey, GatewayError>>)
        ensures
            r == match self.spec_state() {
                FlowState::Done(res) => Some(res),
                _ => None::<Result<SecretKey, GatewayError>>,
            },
    {
        match self.state {
            FlowState::Done(res) => Some(res),
            _ => None,
        }
    }
}

/// The query-order law: `next_query` asks for the Secret Registry only
/// from the `AwaitSecret` state, and `supply_access_result` reaches that
/// state exactly when the Access Registry's answer is a record that
/// exists and is enabled. So secret material is never fetched for a key
/// that failed authorization — a missing record, a disabled record, or a
/// registry failure all finish the flow without a secret lookup.
pub proof fn lemma_secret_query_needs_enablement(o: AccessLookup)
    ensures
        ((match spec_authenticate(o) {
            Ok(_) => FlowState::AwaitSecret,
            Err(e) => FlowState::Done(Err(e)),
        }) is AwaitSecret) <==> (o matches AccessLookup::Found(u) && u.is_s3_enabled),
{
}


/// The dispatcher's authorization gate before any mutating multipart
/// operation: a caller without write permission is rejected with
/// `AccessDenied`.
pub fn write_permission_gate(permitted: bool) -> (r: Result<(), GatewayError>)
    ensures
        r == if permitted {
            Result::<(), GatewayError>::Ok(())
        } else {
            Result::<(), GatewayError>::Err(GatewayError::AccessDenied)
        },
{
    if permitted {
        Ok(())
    } else {
        Err(GatewayError::AccessDenied)
    }
}

/// The dispatcher's existence gate before uploading a part, completing or
/// aborting: an unknown, aborted or completed session is rejected with
/// `NoSuchUpload`.
pub fn existence_gate(upload_exists: bool) -> (r: Result<(), GatewayError>)
    ensures
        r == if upload_exists {
            Result::<(), GatewayError>::Ok(())
        } else {
            Result::<(), GatewayError>::Err(GatewayError::NoSuchUpload)
        },
{
    if upload_exists {
        Ok(())
    } else {
        Err(GatewayError::NoSuchUpload)
    }
}

} // verus!
