//! The proxy authentication decision layer.

use pagestore::error::RepoError;
use pagestore::proxy::{
    auth_decision, generate_session_id, salt_hex, AuthOutcome, ClientCredentials, DatabaseInfo,
    LinkApi, Md5Api, ProxyAuthResponse,
};

#[test]
fn auth_decision_cases() {
    let mut info = DatabaseInfo::default();
    info.host = String::from("db.example");
    info.port = 5432;
    match auth_decision(ProxyAuthResponse::Ready { conn_info: info }) {
        AuthOutcome::Proceed(d) => {
            assert_eq!(d.host, "db.example");
            assert_eq!(d.port, 5432);
        },
        _ => panic!("ready must proceed"),
    }
    match auth_decision(ProxyAuthResponse::Error { error: String::from("too bad, so sad") }) {
        AuthOutcome::Reject(m) => assert_eq!(m, "too bad, so sad"),
        _ => panic!("error must reject"),
    }
    assert!(matches!(
        auth_decision(ProxyAuthResponse::NotReady { ready: false }),
        AuthOutcome::WaitForConsole
    ));
}

#[test]
fn credentials_from_startup_params() {
    let params = vec![
        (String::from("application_name"), String::from("psql")),
        (String::from("user"), String::from("alice")),
        (String::from("database"), String::from("shop")),
        (String::from("user"), String::from("shadow")),
    ];
    let c = ClientCredentials::from_startup_params(&params).unwrap();
    assert_eq!(c.user, "alice");
    assert_eq!(c.dbname, "shop");

    let missing = vec![(String::from("user"), String::from("alice"))];
    assert_eq!(
        ClientCredentials::from_startup_params(&missing).unwrap_err(),
        RepoError::InvalidRequest
    );
}

#[test]
fn hex_and_session_ids() {
    assert_eq!(salt_hex(&vec![0x01, 0x02, 0x03, 0x0f]), "0102030f");
    assert_eq!(salt_hex(&vec![0xde, 0xad]), "dead");
    let id = generate_session_id();
    assert_eq!(id.len(), 16);
    assert!(id.chars().all(|c| c.is_ascii_hexdigit()));
}

#[test]
fn auth_request_params_shape() {
    let api = Md5Api::new(String::from("https://console.example/auth"));
    assert_eq!(api.auth_endpoint, "https://console.example/auth");
    let params = api.auth_request_params(
        &String::from("alice"),
        &String::from("shop"),
        &String::from("md5abcdef"),
        &vec![0xab, 0xcd, 0xef, 0x01],
        &String::from("0011223344556677"),
    );
    assert_eq!(params.len(), 5);
    assert_eq!(params[0], (String::from("login"), String::from("alice")));
    assert_eq!(params[1], (String::from("database"), String::from("shop")));
    assert_eq!(params[2], (String::from("md5response"), String::from("md5abcdef")));
    assert_eq!(params[3], (String::from("salt"), String::from("abcdef01")));
    assert_eq!(params[4], (String::from("psql_session_id"), String::from("0011223344556677")));

    let link = LinkApi::new(String::from("https://console.example/link/"));
    assert_eq!(link.redirect_uri, "https://console.example/link/");
}
