use banyan_s3::errors::GatewayError;
use banyan_s3::resolver::{
    AccessLookup, BanyanUser, GetSecretKeyFlow, PolicyLookup, RegistryQuery, SecretKey,
    SecretLookup, authenticate_and_check_s3_permissions, existence_gate,
    get_decryption_key_from_db, has_write_permission_to_bucket, write_permission_gate,
};

fn user(enabled: bool) -> BanyanUser {
    BanyanUser {
        id: String::from("acct-1"),
        is_s3_enabled: enabled,
        metadata: String::from("m"),
    }
}

#[test]
fn unknown_access_key_is_invalid() {
    assert_eq!(
        authenticate_and_check_s3_permissions(&AccessLookup::NotFound),
        Err(GatewayError::InvalidAccessKeyId)
    );
}

#[test]
fn disabled_account_is_not_signed_up() {
    assert_eq!(
        authenticate_and_check_s3_permissions(&AccessLookup::Found(user(false))),
        Err(GatewayError::NotSignedUp)
    );
}

#[test]
fn enabled_account_authenticates() {
    assert_eq!(authenticate_and_check_s3_permissions(&AccessLookup::Found(user(true))), Ok(()));
}

#[test]
fn registry_failure_is_internal_error() {
    assert_eq!(
        authenticate_and_check_s3_permissions(&AccessLookup::StoreError),
        Err(GatewayError::InternalError)
    );
    assert!(matches!(
        get_decryption_key_from_db(SecretLookup::StoreError),
        Err(GatewayError::InternalError)
    ));
}

#[test]
fn secret_resolution_maps_absence_to_invalid_key() {
    assert!(matches!(
        get_decryption_key_from_db(SecretLookup::NotFound),
        Err(GatewayError::InvalidAccessKeyId)
    ));
    let got = get_decryption_key_from_db(SecretLookup::Found(SecretKey::new(String::from(
        "key-material-1",
    ))));
    assert_eq!(got.unwrap().as_str(), "key-material-1");
}

// call-order instrumentation: record which registries the flow asks for,
// in order, and check the Secret Registry is only ever asked after the
// Access Registry confirmed enablement
fn drive(access: AccessLookup, secret: SecretLookup) -> (Vec<RegistryQuery>, Result<SecretKey, GatewayError>) {
    let mut flow = GetSecretKeyFlow::new();
    let mut queries: Vec<RegistryQuery> = Vec::new();
    loop {
        match flow.next_query() {
            Some(RegistryQuery::AccessRegistry) => {
                queries.push(RegistryQuery::AccessRegistry);
                let outcome = match &access {
                    AccessLookup::Found(u) => AccessLookup::Found(u.clone()),
                    AccessLookup::NotFound => AccessLookup::NotFound,
                    AccessLookup::StoreError => AccessLookup::StoreError,
                };
                flow.supply_access_result(outcome);
            }
            Some(RegistryQuery::SecretRegistry) => {
                queries.push(RegistryQuery::SecretRegistry);
                let outcome = match &secret {
                    SecretLookup::Found(sk) => SecretLookup::Found(sk.clone()),
                    SecretLookup::NotFound => SecretLookup::NotFound,
                    SecretLookup::StoreError => SecretLookup::StoreError,
                };
                flow.supply_secret_result(outcome);
            }
            None => break,
        }
    }
    (queries, flow.outcome().unwrap())
}

#[test]
fn enabled_key_queries_access_before_secret() {
    let (queries, outcome) = drive(
        AccessLookup::Found(user(true)),
        SecretLookup::Found(SecretKey::new(String::from("key-material-1"))),
    );
    assert_eq!(
        queries,
        vec![RegistryQuery::AccessRegistry, RegistryQuery::SecretRegistry]
    );
    assert_eq!(outcome.unwrap().as_str(), "key-material-1");
}

#[test]
fn disabled_key_never_queries_the_secret_registry() {
    let (queries, outcome) = drive(
        AccessLookup::Found(user(false)),
        SecretLookup::Found(SecretKey::new(String::from("key-material-1"))),
    );
    assert_eq!(queries, vec![RegistryQuery::AccessRegistry]);
    assert!(matches!(outcome, Err(GatewayError::NotSignedUp)));
}

#[test]
fn unknown_key_never_queries_the_secret_registry() {
    let (queries, outcome) = drive(
        AccessLookup::NotFound,
        SecretLookup::Found(SecretKey::new(String::from("key-material-1"))),
    );
    assert_eq!(queries, vec![RegistryQuery::AccessRegistry]);
    assert!(matches!(outcome, Err(GatewayError::InvalidAccessKeyId)));
}

#[test]
fn policy_gate_maps_outcomes() {
    assert_eq!(has_write_permission_to_bucket(&PolicyLookup::Decided(true)), Ok(true));
    assert_eq!(has_write_permission_to_bucket(&PolicyLookup::Decided(false)), Ok(false));
    assert_eq!(
        has_write_permission_to_bucket(&PolicyLookup::StoreError),
        Err(GatewayError::InternalError)
    );
}

#[test]
fn dispatcher_gates() {
    assert_eq!(write_permission_gate(true), Ok(()));
    assert_eq!(write_permission_gate(false), Err(GatewayError::AccessDenied));
    assert_eq!(existence_gate(true), Ok(()));
    assert_eq!(existence_gate(false), Err(GatewayError::NoSuchUpload));
}

#[test]
fn error_messages_are_stable() {
    assert_eq!(GatewayError::InvalidAccessKeyId.message(), "invalid access key id");
    assert_eq!(GatewayError::NoSuchUpload.message(), "no such upload");
    assert_eq!(GatewayError::InternalError.message(), "internal error");
}
