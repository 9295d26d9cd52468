//! Gateway settings and the service addresses built from them.
use vstd::prelude::*;
use crate::gateway::rpc::{parse_id, parsed_id};

verus! {

/// The gateway's settings.
#[derive(Debug)]
pub struct GatewayConfig {
    pub host: String,
    pub port: u16,
    pub ws_port: u16,
    pub grpc_port: u16,
    pub database_url: String,
    pub redis_url: String,
    pub jwt_secret: String,
    pub jwt_expiration_hours: i64,
    pub llm_router_url: String,
    /// The development author used when a request carries no valid token.
    pub dev_user_id: u128,
}

/// The development author's id, `00000000-0000-0000-0000-000000000001`.
pub const DEFAULT_DEV_USER_ID: u128 = 1u128;

/// `postgres://{user}:{password}@{host}:{port}/{db}`.
pub open spec fn postgres_url_text(user: Seq<char>, password: Seq<char>, host: Seq<char>, port: Seq<char>, db: Seq<char>) -> Seq<char> {
    "postgres://"@ + user + ":"@ + password + "@"@ + host + ":"@ + port + "/"@ + db
}

/// Builds the database address.
pub fn postgres_url(user: &str, password: &str, host: &str, port: &str, db: &str) -> (u: String)
    ensures
        u@ == postgres_url_text(user@, password@, host@, port@, db@),
{
    let mut u = String::from_str("postgres://");
    u.append(user);
    u.append(":");
    u.append(password);
    u.append("@");
    u.append(host);
    u.append(":");
    u.append(port);
    u.append("/");
    u.append(db);
    u
}

/// `{scheme}://{host}:{port}`.
pub open spec fn host_url_text(scheme: Seq<char>, host: Seq<char>, port: Seq<char>) -> Seq<char> {
    scheme + "://"@ + host + ":"@ + port
}

/// Builds the cache address, `redis://{host}:{port}`.
pub fn redis_url(host: &str, port: &str) -> (u: String)
    ensures
        u@ == host_url_text("redis"@, host@, port@),
{
    let mut u = String::from_str("redis");
    u.append("://");
    u.append(host);
    u.append(":");
    u.append(port);
    u
}

/// Builds the model router's address, `http://{host}:{port}`.
pub fn llm_router_url(host: &str, port: &str) -> (u: String)
    ensures
        u@ == host_url_text("http"@, host@, port@),
{
    let mut u = String::from_str("http");
    u.append("://");
    u.append(host);
    u.append(":");
    u.append(port);
    u
}

/// The integer `str::parse::<u16>` reads from `text`, if it reads one.
pub uninterp spec fn parsed_u16(text: Seq<char>) -> Option<u16>;

/// The integer `str::parse::<i64>` reads from `text`, if it reads one.
pub uninterp spec fn parsed_i64(text: Seq<char>) -> Option<i64>;

/// Every character of `t` is an ASCII decimal digit.
pub open spec fn all_digits(t: Seq<char>) -> bool {
    forall|i: int| 0 <= i < t.len() ==> 48 <= #[trigger] (t[i] as u32) <= 57
}

/// The value of a string of decimal digits.
pub open spec fn decimal(t: Seq<char>) -> int
    decreases t.len(),
{
    if t.len() == 0 {
        0
    } else {
        decimal(t.drop_last()) * 10 + (t.last() as u32 - 48)
    }
}

/// Parses a port number.
///
/// Calls `str::parse::<u16>`. Its documentation gives the grammar (an
/// optional `+` sign, then decimal digits, failing on an empty text and on
/// overflow); the contract names the result and states two documented
/// cases: an empty text fails, and a run of digits whose value fits is read
/// as that value.
#[verifier::external_body]
fn parse_u16(text: &str) -> (r: Option<u16>)
    ensures
        r == parsed_u16(text@),
        text@.len() == 0 ==> r is None,
        text@.len() > 0 && all_digits(text@) && decimal(text@) <= u16::MAX ==> r == Some(decimal(text@) as u16),
{
    text.parse::<u16>().ok()
}

/// Parses a signed 64-bit number.
///
/// Calls `str::parse::<i64>` (an optional sign, then decimal digits); the
/// contract names the result and states the same two documented cases as
/// `parse_u16`.
#[verifier::external_body]
fn parse_i64(text: &str) -> (r: Option<i64>)
    ensures
        r == parsed_i64(text@),
        text@.len() == 0 ==> r is None,
        text@.len() > 0 && all_digits(text@) && decimal(text@) <= i64::MAX ==> r == Some(decimal(text@) as i64),
{
    text.parse::<i64>().ok()
}

/// A setting's text, or its default when the variable is unset.
pub open spec fn var_or(v: Option<String>, default: Seq<char>) -> Seq<char> {
    match v {
        Some(s) => s@,
        None => default,
    }
}

fn text_or(v: Option<String>, default: &str) -> (r: String)
    ensures
        r@ == var_or(v, default@),
{
    match v {
        Some(s) => s,
        None => String::from_str(default),
    }
}

/// The development user named by the `DEV_USER_ID` text, or the default one
/// when the text is absent or is not an id.
pub open spec fn dev_user_of(text: Option<Seq<char>>) -> u128 {
    match text {
        Some(t) => match parsed_id(t) {
            Some(u) => u,
            None => DEFAULT_DEV_USER_ID,
        },
        None => DEFAULT_DEV_USER_ID,
    }
}

/// The development user: the id in `text` when it parses, the default one
/// otherwise.
pub fn dev_user_id_from(text: Option<&str>) -> (id: u128)
    ensures
        id == dev_user_of(match text { Some(t) => Some(t@), None => None::<Seq<char>> }),
{
    match text {
        Some(t) => match parse_id(t) {
            Some(u) => u,
            None => DEFAULT_DEV_USER_ID,
        },
        None => DEFAULT_DEV_USER_ID,
    }
}

/// The environment variables the gateway reads, each absent when unset.
#[derive(Debug)]
pub struct EnvVars {
    pub gateway_host: Option<String>,
    pub gateway_port: Option<String>,
    pub gateway_ws_port: Option<String>,
    pub gateway_grpc_port: Option<String>,
    pub postgres_user: Option<String>,
    pub postgres_password: Option<String>,
    pub postgres_host: Option<String>,
    pub postgres_port: Option<String>,
    pub postgres_db: Option<String>,
    pub redis_host: Option<String>,
    pub redis_port: Option<String>,
    pub jwt_secret: Option<String>,
    pub jwt_expiration_hours: Option<String>,
    pub llm_router_host: Option<String>,
    pub llm_router_port: Option<String>,
    pub dev_user_id: Option<String>,
}

/// Which setting did not parse.
#[derive(Debug, Clone, Copy, PartialEq, Eq, Structural)]
pub enum ConfigError {
    InvalidPort,
    InvalidWsPort,
    InvalidGrpcPort,
    InvalidJwtExpirationHours,
}

/// The text of an optional setting, as a spec value.
pub open spec fn opt_text(v: Option<String>) -> Option<Seq<char>> {
    match v {
        Some(s) => Some(s@),
        None => None,
    }
}

/// Builds the settings from the environment variables: each unset variable
/// takes its default, the service addresses are assembled from their parts,
/// and the ports and the token lifetime must parse (checked in that order).
pub fn config_from_vars(vars: EnvVars) -> (r: Result<GatewayConfig, ConfigError>)
    ensures
        ({
            let port = parsed_u16(var_or(vars.gateway_port, "3001"@));
            let ws_port = parsed_u16(var_or(vars.gateway_ws_port, "3002"@));
            let grpc_port = parsed_u16(var_or(vars.gateway_grpc_port, "3003"@));
            let hours = parsed_i64(var_or(vars.jwt_expiration_hours, "72"@));
            if port is None {
                r == Err::<GatewayConfig, ConfigError>(ConfigError::InvalidPort)
            } else if ws_port is None {
                r == Err::<GatewayConfig, ConfigError>(ConfigError::InvalidWsPort)
            } else if grpc_port is None {
                r == Err::<GatewayConfig, ConfigError>(ConfigError::InvalidGrpcPort)
            } else if hours is None {
                r == Err::<GatewayConfig, ConfigError>(ConfigError::InvalidJwtExpirationHours)
            } else {
                &&& r is Ok
                &&& r->Ok_0.host@ == var_or(vars.gateway_host, "0.0.0.0"@)
                &&& r->Ok_0.port == port->0
                &&& r->Ok_0.ws_port == ws_port->0
                &&& r->Ok_0.grpc_port == grpc_port->0
                &&& r->Ok_0.database_url@ == postgres_url_text(
                    var_or(vars.postgres_user, "spark"@),
                    var_or(vars.postgres_password, "spark_dev_password"@),
                    var_or(vars.postgres_host, "localhost"@),
                    var_or(vars.postgres_port, "5432"@),
                    var_or(vars.postgres_db, "sparknode"@),
                )
                &&& r->Ok_0.redis_url@ == host_url_text("redis"@, var_or(vars.redis_host, "localhost"@), var_or(vars.redis_port, "6379"@))
                &&& r->Ok_0.jwt_secret@ == var_or(vars.jwt_secret, "dev_secret"@)
                &&& r->Ok_0.jwt_expiration_hours == hours->0
                &&& r->Ok_0.llm_router_url@ == host_url_text(
                    "http"@, var_or(vars.llm_router_host, "localhost"@), var_or(vars.llm_router_port, "8001"@))
                &&& r->Ok_0.dev_user_id == dev_user_of(opt_text(vars.dev_user_id))
            }
        }),
{
    let EnvVars {
        gateway_host, gateway_port, gateway_ws_port, gateway_grpc_port, postgres_user, postgres_password,
        postgres_host, postgres_port, postgres_db, redis_host, redis_port, jwt_secret, jwt_expiration_hours,
        llm_router_host, llm_router_port, dev_user_id,
    } = vars;
    let host = text_or(gateway_host, "0.0.0.0");
    let port = match parse_u16(text_or(gateway_port, "3001").as_str()) {
        Some(p) => p,
        None => return Err(ConfigError::InvalidPort),
    };
    let ws_port = match parse_u16(text_or(gateway_ws_port, "3002").as_str()) {
        Some(p) => p,
        None => return Err(ConfigError::InvalidWsPort),
    };
    let grpc_port = match parse_u16(text_or(gateway_grpc_port, "3003").as_str()) {
        Some(p) => p,
        None => return Err(ConfigError::InvalidGrpcPort),
    };
    let database_url = postgres_url(
        text_or(postgres_user, "spark").as_str(),
        text_or(postgres_password, "spark_dev_password").as_str(),
        text_or(postgres_host, "localhost").as_str(),
        text_or(postgres_port, "5432").as_str(),
        text_or(postgres_db, "sparknode").as_str(),
    );
    let redis = redis_url(text_or(redis_host, "localhost").as_str(), text_or(redis_port, "6379").as_str());
    let secret = text_or(jwt_secret, "dev_secret");
    let hours = match parse_i64(text_or(jwt_expiration_hours, "72").as_str()) {
        Some(h) => h,
        None => return Err(ConfigError::InvalidJwtExpirationHours),
    };
    let llm = llm_router_url(text_or(llm_router_host, "localhost").as_str(), text_or(llm_router_port, "8001").as_str());
    let dev = match &dev_user_id {
        Some(t) => dev_user_id_from(Some(t.as_str())),
        None => dev_user_id_from(None),
    };
    Ok(GatewayConfig {
        host,
        port,
        ws_port,
        grpc_port,
        database_url,
        redis_url: redis,
        jwt_secret: secret,
        jwt_expiration_hours: hours,
        llm_router_url: llm,
        dev_user_id: dev,
    })
}

} // verus!
