//! The decision core of the proxy authentication front-end.
//!
//! The network rim asks the control plane whether a client may connect;
//! this module holds what can be decided from plain values: extracting
//! credentials from startup parameters, assembling the authentication
//! request, generating session identifiers, and classifying the control
//! plane's answer.

use vstd::prelude::*;

use crate::error::RepoError;

verus! {

/// The credentials a client presents in its startup packet.
#[derive(Debug)]
pub struct ClientCredentials {
    pub user: String,
    pub dbname: String,
}

/// Connection parameters of the database a client is routed to.
#[derive(Debug)]
pub struct DatabaseInfo {
    pub host: String,
    pub port: u16,
    pub dbname: String,
    pub user: String,
    pub password: Option<String>,
}

impl Default for DatabaseInfo {
    /// Empty host and names, port zero, no password.
    fn default() -> (r: DatabaseInfo)
        ensures
            r.host@ == Seq::<char>::empty(),
            r.port == 0,
            r.dbname@ == Seq::<char>::empty(),
            r.user@ == Seq::<char>::empty(),
            r.password is None,
    {
        DatabaseInfo {
            host: String::new(),
            port: 0,
            dbname: String::new(),
            user: String::new(),
            password: None,
        }
    }
}

/// The control plane's answer to an authentication request.
#[derive(Debug)]
pub enum ProxyAuthResponse {
    /// The database is ready; connect to it.
    Ready { conn_info: DatabaseInfo },
    /// Authentication failed.
    Error { error: String },
    /// The database is still being provisioned; wait for the console.
    NotReady { ready: bool },
}

/// What the proxy does with the control plane's answer.
#[derive(Debug)]
pub enum AuthOutcome {
    /// Connect to this database.
    Proceed(DatabaseInfo),
    /// Refuse the client with this message.
    Reject(String),
    /// Park the client until the console reports the database ready.
    WaitForConsole,
}

/// Decide on the control plane's answer: connect when it is ready, fail
/// when it failed, wait otherwise.
pub fn auth_decision(resp: ProxyAuthResponse) -> (r: AuthOutcome)
    ensures
        resp matches ProxyAuthResponse::Ready { conn_info } ==> (r matches AuthOutcome::Proceed(d)
            && d == conn_info),
        resp matches ProxyAuthResponse::Error { error } ==> (r matches AuthOutcome::Reject(m) && m
            == error),
        (resp matches ProxyAuthResponse::NotReady { .. }) == (r is WaitForConsole),
        (resp is Ready) == (r is Proceed),
        (resp is Error) == (r is Reject),
{
    match resp {
        ProxyAuthResponse::Ready { conn_info } => AuthOutcome::Proceed(conn_info),
        ProxyAuthResponse::Error { error } => AuthOutcome::Reject(error),
        ProxyAuthResponse::NotReady { .. } => AuthOutcome::WaitForConsole,
    }
}

/// The first value stored under `key`.
pub open spec fn lookup_param(ps: Seq<(String, String)>, key: Seq<char>) -> Option<Seq<char>>
    decreases ps.len(),
{
    if ps.len() == 0 {
        None
    } else if ps[0].0@ == key {
        Some(ps[0].1@)
    } else {
        lookup_param(ps.drop_first(), key)
    }
}

/// Find the first value stored under `key`.
fn find_param(params: &Vec<(String, String)>, key: &String) -> (r: Option<String>)
    ensures
        match r {
            Some(v) => lookup_param(params@, key@) == Some(v@),
            None => lookup_param(params@, key@) is None,
        },
{
    let mut i: usize = 0;
    proof {
        assert(params@.skip(0) =~= params@);
    }
    while i < params.len()
        invariant
            i <= params@.len(),
            lookup_param(params@, key@) == lookup_param(params@.skip(i as int), key@),
        decreases params@.len() - i,
    {
        proof {
            assert(params@.skip(i as int)[0] == params@[i as int]);
            assert(params@.skip(i as int).drop_first() =~= params@.skip(i + 1));
        }
        if params[i].0 == *key {
            return Some(params[i].1.clone());
        }
        i = i + 1;
    }
    proof {
        assert(params@.skip(params@.len() as int) =~= Seq::<(String, String)>::empty());
    }
    None
}

impl ClientCredentials {
    /// Extract the user and database names from the startup parameters.
    /// Fails iff either key is missing.
    pub fn from_startup_params(params: &Vec<(String, String)>) -> (r: Result<
        ClientCredentials,
        RepoError,
    >)
        ensures
            r is Ok <==> (lookup_param(params@, "user"@) is Some && lookup_param(
                params@,
                "database"@,
            ) is Some),
            r matches Ok(c) ==> Some(c.user@) == lookup_param(params@, "user"@) && Some(c.dbname@)
                == lookup_param(params@, "database"@),
            r matches Err(e) ==> e == RepoError::InvalidRequest,
    {
        let user_key = String::from_str("user");
        let db_key = String::from_str("database");
        let user = match find_param(params, &user_key) {
            Some(u) => u,
            None => {
                return Err(RepoError::InvalidRequest);
            },
        };
        let db = match find_param(params, &db_key) {
            Some(d) => d,
            None => {
                return Err(RepoError::InvalidRequest);
            },
        };
        Ok(ClientCredentials { user, dbname: db })
    }
}

/// One lowercase hexadecimal digit.
pub open spec fn hex_digit(n: u8) -> char {
    if n == 0 {
        '0'
    } else if n == 1 {
        '1'
    } else if n == 2 {
        '2'
    } else if n == 3 {
        '3'
    } else if n == 4 {
        '4'
    } else if n == 5 {
        '5'
    } else if n == 6 {
        '6'
    } else if n == 7 {
        '7'
    } else if n == 8 {
        '8'
    } else if n == 9 {
        '9'
    } else if n == 10 {
        'a'
    } else if n == 11 {
        'b'
    } else if n == 12 {
        'c'
    } else if n == 13 {
        'd'
    } else if n == 14 {
        'e'
    } else {
        'f'
    }
}

/// The bytes in lowercase hexadecimal, two digits per byte, high nibble
/// first.
pub open spec fn hex_of(b: Seq<u8>) -> Seq<char>
    decreases b.len(),
{
    if b.len() == 0 {
        Seq::empty()
    } else {
        hex_of(b.drop_last()) + seq![hex_digit(b.last() / 16), hex_digit(b.last() % 16)]
    }
}

/// Hex encoding writes two digits per byte.
pub proof fn lemma_hex_len(b: Seq<u8>)
    ensures
        hex_of(b).len() == 2 * b.len(),
    decreases b.len(),
{
    if b.len() > 0 {
        lemma_hex_len(b.drop_last());
    }
}

/// Relies on hex::encode: each byte becomes two lowercase hexadecimal
/// digits, high nibble first.
#[verifier::external_body]
fn to_hex(b: &Vec<u8>) -> (r: String)
    ensures
        r@ == hex_of(b@),
{
    hex::encode(b)
}

/// Relies on rand::random: eight bytes from the thread RNG. Nothing is
/// promised of their values.
#[verifier::external_body]
fn random_bytes8() -> (r: Vec<u8>)
    ensures
        r@.len() == 8,
{
    rand::random::<[u8; 8]>().to_vec()
}

/// A fresh sixteen-digit session identifier: eight random bytes in
/// lowercase hexadecimal.
pub fn generate_session_id() -> (r: String)
    ensures
        r@.len() == 16,
        exists|b: Seq<u8>| b.len() == 8 && r@ == hex_of(b),
{
    let bytes = random_bytes8();
    let r = to_hex(&bytes);
    proof {
        lemma_hex_len(bytes@);
        assert(bytes@.len() == 8 && r@ == hex_of(bytes@));
    }
    r
}

/// The salt in lowercase hexadecimal, as the authentication request
/// carries it.
pub fn salt_hex(salt: &Vec<u8>) -> (r: String)
    ensures
        r@ == hex_of(salt@),
{
    to_hex(salt)
}

/// The MD5 authentication endpoint of the control plane.
#[derive(Debug)]
pub struct Md5Api {
    pub auth_endpoint: String,
}

impl Md5Api {
    /// An API handle for this endpoint.
    pub fn new(auth_endpoint: String) -> (r: Md5Api)
        ensures
            r.auth_endpoint@ == auth_endpoint@,
    {
        Md5Api { auth_endpoint }
    }

    /// The query parameters of one authentication request: the login,
    /// the database, the client's MD5 response, the salt in hex, and
    /// the session identifier.
    pub fn auth_request_params(
        &self,
        user: &String,
        database: &String,
        md5_response: &String,
        salt: &Vec<u8>,
        session_id: &String,
    ) -> (r: Vec<(String, String)>)
        ensures
            r@.len() == 5,
            r@[0].0@ == "login"@ && r@[0].1@ == user@,
            r@[1].0@ == "database"@ && r@[1].1@ == database@,
            r@[2].0@ == "md5response"@ && r@[2].1@ == md5_response@,
            r@[3].0@ == "salt"@ && r@[3].1@ == hex_of(salt@),
            r@[4].0@ == "psql_session_id"@ && r@[4].1@ == session_id@,
    {
        let mut out: Vec<(String, String)> = Vec::new();
        out.push((String::from_str("login"), user.clone()));
        out.push((String::from_str("database"), database.clone()));
        out.push((String::from_str("md5response"), md5_response.clone()));
        out.push((String::from_str("salt"), salt_hex(salt)));
        out.push((String::from_str("psql_session_id"), session_id.clone()));
        out
    }
}

/// The link-authentication endpoint of the control plane: the console
/// URL clients are redirected to.
#[derive(Debug)]
pub struct LinkApi {
    pub redirect_uri: String,
}

impl LinkApi {
    /// An API handle for this redirect base.
    pub fn new(redirect_uri: String) -> (r: LinkApi)
        ensures
            r.redirect_uri@ == redirect_uri@,
    {
        LinkApi { redirect_uri }
    }
}

/// Both authentication endpoints together.
#[derive(Debug)]
pub struct FullApi {
    pub md5_api: Md5Api,
    pub link_api: LinkApi,
}

} // verus!
