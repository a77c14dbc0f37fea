//! The configuration of a controller: a JSON document that gives a
//! version and the virtual hosts to serve, each with its address, command
//! prefix, server type, SuperAdmin password and admins.
use vstd::prelude::*;
use crate::commands::HostInfo;
use crate::text::views;

verus! {

/// A parsed JSON document of the `json` crate (`json::JsonValue`). Verus
/// sees nothing inside it; what the library reads of it is named by the
/// spec functions below.
#[verifier::external_body]
pub struct JsonDoc {
    v: json::JsonValue,
}

/// The document that a JSON text parses to, if it is valid JSON.
pub uninterp spec fn json_doc(text: Seq<char>) -> Option<JsonDoc>;

/// The number of members of the `VirtualHosts` array (0 when it is absent
/// or not an array).
pub uninterp spec fn host_count(doc: JsonDoc) -> nat;

/// The string at `key` in the `i`th member of `VirtualHosts`, if there is
/// one.
pub uninterp spec fn host_field(doc: JsonDoc, i: int, key: Seq<char>) -> Option<Seq<char>>;

/// The number of members of the `Admins` array of the `i`th virtual host
/// (0 when it is absent or not an array).
pub uninterp spec fn admin_count(doc: JsonDoc, i: int) -> nat;

/// The `j`th member of the `Admins` array of the `i`th virtual host, if it
/// is a string.
pub uninterp spec fn admin_entry(doc: JsonDoc, i: int, j: int) -> Option<Seq<char>>;

/// How the `k`th member of the `Version` array displays.
pub uninterp spec fn version_text(doc: JsonDoc, k: int) -> Seq<char>;

/// `json::parse`: the document a text parses to, or nothing when the text
/// is not valid JSON. The contract names the result as a function of the
/// text.
#[verifier::external_body]
fn parse_json(text: &str) -> (res: Option<JsonDoc>)
    ensures
        res == json_doc(text@),
{
    match json::parse(text) {
        Ok(v) => Some(JsonDoc { v }),
        Err(_) => None,
    }
}

/// `doc["VirtualHosts"].members().len()`.
#[verifier::external_body]
fn count_hosts(doc: &JsonDoc) -> (res: usize)
    ensures
        res == host_count(*doc),
{
    doc.v["VirtualHosts"].members().len()
}

/// `doc["VirtualHosts"][i][key].as_str()`, as an owned string.
#[verifier::external_body]
fn field(doc: &JsonDoc, i: usize, key: &str) -> (res: Option<String>)
    ensures
        res matches Some(s) ==> host_field(*doc, i as int, key@) == Some(s@),
        res is None ==> host_field(*doc, i as int, key@) is None,
{
    match doc.v["VirtualHosts"][i][key].as_str() {
        Some(s) => Some(s.to_string()),
        None => None,
    }
}

/// `doc["VirtualHosts"][i]["Admins"].members().len()`.
#[verifier::external_body]
fn count_admins(doc: &JsonDoc, i: usize) -> (res: usize)
    ensures
        res == admin_count(*doc, i as int),
{
    doc.v["VirtualHosts"][i]["Admins"].members().len()
}

/// `doc["VirtualHosts"][i]["Admins"][j].as_str()`, as an owned string.
#[verifier::external_body]
fn admin(doc: &JsonDoc, i: usize, j: usize) -> (res: Option<String>)
    ensures
        res matches Some(s) ==> admin_entry(*doc, i as int, j as int) == Some(s@),
        res is None ==> admin_entry(*doc, i as int, j as int) is None,
{
    match doc.v["VirtualHosts"][i]["Admins"][j].as_str() {
        Some(s) => Some(s.to_string()),
        None => None,
    }
}

/// `doc["Version"][k]`, as `Display` shows it.
#[verifier::external_body]
fn version_part(doc: &JsonDoc, k: usize) -> (res: String)
    ensures
        res@ == version_text(*doc, k as int),
{
    format!("{}", doc.v["Version"][k])
}

/// Why the configuration of a virtual host, or the whole configuration,
/// cannot be used.
#[derive(Debug, PartialEq, Eq, Structural, Clone, Copy)]
pub enum ConfigError {
    InvalidJson,
    NoHost,
    NoPort,
    NoPrefix,
    NoType,
    NoPassword,
    AdminNotString,
}

/// The message that goes with an error.
pub open spec fn error_message(e: ConfigError) -> Seq<char> {
    match e {
        ConfigError::InvalidJson => "The configuration is not valid JSON."@,
        ConfigError::NoHost => "No host was specified."@,
        ConfigError::NoPort => "No port was specified."@,
        ConfigError::NoPrefix => "No prefix was specified."@,
        ConfigError::NoType => "No server type was specified."@,
        ConfigError::NoPassword => "No SuperAdmin password was specified."@,
        ConfigError::AdminNotString => "Admins array is exclusively made of strings"@,
    }
}

impl ConfigError {
    /// The message that goes with the error.
    pub fn message(&self) -> (res: &'static str)
        ensures
            res@ == error_message(*self),
    {
        match self {
            ConfigError::InvalidJson => "The configuration is not valid JSON.",
            ConfigError::NoHost => "No host was specified.",
            ConfigError::NoPort => "No port was specified.",
            ConfigError::NoPrefix => "No prefix was specified.",
            ConfigError::NoType => "No server type was specified.",
            ConfigError::NoPassword => "No SuperAdmin password was specified.",
            ConfigError::AdminNotString => "Admins array is exclusively made of strings",
        }
    }
}

/// A virtual host of the configuration.
pub struct VirtualHost {
    pub host: String,
    pub port: String,
    pub prefix: String,
    pub typ: String,
    pub password: String,
    pub admins: Vec<String>,
}

impl VirtualHost {
    /// What the plugins of this host know of it.
    pub fn host_info(self) -> (res: HostInfo)
        ensures
            res.prefix == self.prefix,
            res.admins == self.admins,
    {
        HostInfo { prefix: self.prefix, admins: self.admins }
    }
}

/// What is wrong with the `i`th virtual host, if anything: the first of
/// `Host`, `Port`, `Prefix`, `Type` and `Password` that is not a string,
/// else an admin that is not a string.
pub open spec fn host_error(doc: JsonDoc, i: int) -> Option<ConfigError> {
    if host_field(doc, i, "Host"@) is None {
        Some(ConfigError::NoHost)
    } else if host_field(doc, i, "Port"@) is None {
        Some(ConfigError::NoPort)
    } else if host_field(doc, i, "Prefix"@) is None {
        Some(ConfigError::NoPrefix)
    } else if host_field(doc, i, "Type"@) is None {
        Some(ConfigError::NoType)
    } else if host_field(doc, i, "Password"@) is None {
        Some(ConfigError::NoPassword)
    } else if exists|j: int| 0 <= j < admin_count(doc, i) && #[trigger] admin_entry(doc, i, j) is None {
        Some(ConfigError::AdminNotString)
    } else {
        None
    }
}

/// The admins of the `i`th virtual host, in order.
pub open spec fn admins_of(doc: JsonDoc, i: int) -> Seq<Seq<char>> {
    Seq::new(admin_count(doc, i), |j: int| admin_entry(doc, i, j)->0)
}

/// A virtual host holds what the `i`th member of `VirtualHosts` gives.
pub open spec fn host_matches(vh: VirtualHost, doc: JsonDoc, i: int) -> bool {
    &&& host_field(doc, i, "Host"@) == Some(vh.host@)
    &&& host_field(doc, i, "Port"@) == Some(vh.port@)
    &&& host_field(doc, i, "Prefix"@) == Some(vh.prefix@)
    &&& host_field(doc, i, "Type"@) == Some(vh.typ@)
    &&& host_field(doc, i, "Password"@) == Some(vh.password@)
    &&& views(vh.admins@) == admins_of(doc, i)
}

/// The result for the `i`th virtual host is what the document gives.
pub open spec fn host_result_matches(r: Result<VirtualHost, ConfigError>, doc: JsonDoc, i: int) -> bool {
    match r {
        Ok(vh) => host_error(doc, i) is None && host_matches(vh, doc, i),
        Err(e) => host_error(doc, i) == Some(e),
    }
}

/// Reads the `i`th virtual host of a configuration document.
pub fn virtual_host(doc: &JsonDoc, i: usize) -> (res: Result<VirtualHost, ConfigError>)
    ensures
        host_result_matches(res, *doc, i as int),
{
    let host = match field(doc, i, "Host") {
        Some(s) => s,
        None => return Err(ConfigError::NoHost),
    };
    let port = match field(doc, i, "Port") {
        Some(s) => s,
        None => return Err(ConfigError::NoPort),
    };
    let prefix = match field(doc, i, "Prefix") {
        Some(s) => s,
        None => return Err(ConfigError::NoPrefix),
    };
    let typ = match field(doc, i, "Type") {
        Some(s) => s,
        None => return Err(ConfigError::NoType),
    };
    let password = match field(doc, i, "Password") {
        Some(s) => s,
        None => return Err(ConfigError::NoPassword),
    };
    let n = count_admins(doc, i);
    let mut admins: Vec<String> = Vec::new();
    let mut j: usize = 0;
    while j < n
        invariant
            n == admin_count(*doc, i as int),
            host_field(*doc, i as int, "Host"@) == Some(host@),
            host_field(*doc, i as int, "Port"@) == Some(port@),
            host_field(*doc, i as int, "Prefix"@) == Some(prefix@),
            host_field(*doc, i as int, "Type"@) == Some(typ@),
            host_field(*doc, i as int, "Password"@) == Some(password@),
            j <= n,
            views(admins@) =~= admins_of(*doc, i as int).take(j as int),
            forall|k: int| 0 <= k < j ==> #[trigger] admin_entry(*doc, i as int, k) is Some,
        decreases n - j,
    {
        let a = match admin(doc, i, j) {
            Some(a) => a,
            None => {
                assert(admin_entry(*doc, i as int, j as int) is None);
                return Err(ConfigError::AdminNotString);
            },
        };
        let ghost before = views(admins@);
        admins.push(a);
        assert(views(admins@) =~= before.push(a@));
        j = j + 1;
    }
    assert(admins_of(*doc, i as int).take(n as int) =~= admins_of(*doc, i as int));
    Ok(VirtualHost { host, port, prefix, typ, password, admins })
}

/// A controller's configuration: its version, shown when it starts, and
/// the result of reading each virtual host, in order.
pub struct Config {
    pub version: (String, String),
    pub hosts: Vec<Result<VirtualHost, ConfigError>>,
}

/// A configuration holds what the document gives.
pub open spec fn config_matches(c: Config, doc: JsonDoc) -> bool {
    &&& c.version.0@ == version_text(doc, 0)
    &&& c.version.1@ == version_text(doc, 1)
    &&& c.hosts@.len() == host_count(doc)
    &&& forall|i: int| 0 <= i < c.hosts@.len() ==> host_result_matches(#[trigger] c.hosts@[i], doc, i)
}

/// Reads a controller's configuration from the text of its JSON file.
pub fn load_config(text: &str) -> (res: Result<Config, ConfigError>)
    ensures
        match json_doc(text@) {
            None => res matches Err(e) && e == ConfigError::InvalidJson,
            Some(doc) => res matches Ok(c) && config_matches(c, doc),
        },
{
    let doc = match parse_json(text) {
        Some(d) => d,
        None => return Err(ConfigError::InvalidJson),
    };
    let version = (version_part(&doc, 0), version_part(&doc, 1));
    let n = count_hosts(&doc);
    let mut hosts: Vec<Result<VirtualHost, ConfigError>> = Vec::new();
    let mut i: usize = 0;
    while i < n
        invariant
            n == host_count(doc),
            i <= n,
            hosts@.len() == i,
            forall|k: int| 0 <= k < i ==> host_result_matches(#[trigger] hosts@[k], doc, k),
        decreases n - i,
    {
        hosts.push(virtual_host(&doc, i));
        i = i + 1;
    }
    Ok(Config { version, hosts })
}

} // verus!
