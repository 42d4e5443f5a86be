//! Configuration types and their validation rules.
//!
//! First-run detection, the WebSocket server settings, the database
//! identifiers the analytics store accepts, and the descriptive
//! records the inspection commands return. The filesystem and the
//! databases themselves are the application's business; the rules
//! about their values are decided here.

use crate::numfmt::is_digit;
use vstd::prelude::*;

verus! {

/// The application's persisted settings.
#[derive(Debug, Clone)]
pub struct AppConfig {
    pub database_path: String,
    pub first_run_completed: bool,
    pub tcp_port: u16,
    pub websocket_port: u16,
    pub created_at: i64,
    pub updated_at: i64,
}

impl AppConfig {
    /// The settings of a fresh installation, stamped with `now`.
    pub fn initial(now: i64) -> (r: AppConfig)
        ensures
            r.database_path@.len() == 0,
            !r.first_run_completed,
            r.tcp_port == 8502,
            r.websocket_port == 8765,
            r.created_at == now,
            r.updated_at == now,
    {
        AppConfig {
            database_path: String::new(),
            first_run_completed: false,
            tcp_port: 8502,
            websocket_port: 8765,
            created_at: now,
            updated_at: now,
        }
    }
}

/// Knows where the configuration file lives and whether it exists;
/// the application reads the filesystem and reports here.
#[derive(Debug)]
pub struct ConfigManager {
    pub config_path: String,
    pub config_exists: bool,
}

impl ConfigManager {
    /// A manager for the configuration at `config_path`, which the
    /// caller has found to exist or not.
    pub fn new(config_path: String, config_exists: bool) -> (r: ConfigManager)
        ensures
            r.config_path@ == config_path@,
            r.config_exists == config_exists,
    {
        ConfigManager { config_path, config_exists }
    }

    /// The first run is the one that finds no configuration file.
    pub fn is_first_run(&self) -> (r: bool)
        ensures
            r == !self.config_exists,
    {
        !self.config_exists
    }
}

/// The WebSocket broadcaster's settings.
#[derive(Debug, Clone)]
pub struct WebSocketConfig {
    pub host: String,
    pub port: u16,
    pub max_clients: u32,
    pub broadcast_interval_ms: u64,
    pub enabled: bool,
    pub bind_interfaces: Vec<String>,
}

impl Default for WebSocketConfig {
    /// Every interface, port 8765, a hundred clients, one broadcast
    /// per second, disabled until asked.
    fn default() -> (r: WebSocketConfig)
        ensures
            r.host@ == "0.0.0.0"@,
            r.port == 8765,
            r.max_clients == 100,
            r.broadcast_interval_ms == 1000,
            !r.enabled,
            r.bind_interfaces@.len() == 1,
            r.bind_interfaces@[0]@ == "0.0.0.0"@,
    {
        let mut bind_interfaces: Vec<String> = Vec::new();
        bind_interfaces.push(String::from_str("0.0.0.0"));
        WebSocketConfig {
            host: String::from_str("0.0.0.0"),
            port: 8765,
            max_clients: 100,
            broadcast_interval_ms: 1000,
            enabled: false,
            bind_interfaces,
        }
    }
}

/// A bind list is usable when it names at least one interface and no
/// empty one.
pub open spec fn valid_bind_interfaces(binds: Seq<String>) -> bool {
    binds.len() > 0 && forall|i: int| 0 <= i < binds.len() ==> (#[trigger] binds[i])@.len() > 0
}

/// Checks a WebSocket configuration before it is saved: at least one
/// bind interface, none of them empty.
pub fn validate_websocket_config(config: &WebSocketConfig) -> (r: bool)
    ensures
        r == valid_bind_interfaces(config.bind_interfaces@),
{
    if config.bind_interfaces.len() == 0 {
        return false;
    }
    let mut i: usize = 0;
    while i < config.bind_interfaces.len()
        invariant
            0 <= i <= config.bind_interfaces@.len(),
            forall|j: int|
                0 <= j < i ==> (#[trigger] config.bind_interfaces@[j])@.len() > 0,
        decreases config.bind_interfaces@.len() - i,
    {
        if config.bind_interfaces[i].as_str().unicode_len() == 0 {
            return false;
        }
        i = i + 1;
    }
    true
}

/// ASCII lowercase of one character.
pub open spec fn lower_char(c: char) -> char {
    if c == 'A' {
        'a'
    } else if c == 'B' {
        'b'
    } else if c == 'C' {
        'c'
    } else if c == 'D' {
        'd'
    } else if c == 'E' {
        'e'
    } else if c == 'F' {
        'f'
    } else if c == 'G' {
        'g'
    } else if c == 'H' {
        'h'
    } else if c == 'I' {
        'i'
    } else if c == 'J' {
        'j'
    } else if c == 'K' {
        'k'
    } else if c == 'L' {
        'l'
    } else if c == 'M' {
        'm'
    } else if c == 'N' {
        'n'
    } else if c == 'O' {
        'o'
    } else if c == 'P' {
        'p'
    } else if c == 'Q' {
        'q'
    } else if c == 'R' {
        'r'
    } else if c == 'S' {
        's'
    } else if c == 'T' {
        't'
    } else if c == 'U' {
        'u'
    } else if c == 'V' {
        'v'
    } else if c == 'W' {
        'w'
    } else if c == 'X' {
        'x'
    } else if c == 'Y' {
        'y'
    } else if c == 'Z' {
        'z'
    } else {
        c
    }
}

/// ASCII lowercase of one character.
fn lower_char_exec(c: char) -> (r: char)
    ensures
        r == lower_char(c),
{
    match c {
        'A' => 'a',
        'B' => 'b',
        'C' => 'c',
        'D' => 'd',
        'E' => 'e',
        'F' => 'f',
        'G' => 'g',
        'H' => 'h',
        'I' => 'i',
        'J' => 'j',
        'K' => 'k',
        'L' => 'l',
        'M' => 'm',
        'N' => 'n',
        'O' => 'o',
        'P' => 'p',
        'Q' => 'q',
        'R' => 'r',
        'S' => 's',
        'T' => 't',
        'U' => 'u',
        'V' => 'v',
        'W' => 'w',
        'X' => 'x',
        'Y' => 'y',
        'Z' => 'z',
        _ => c,
    }
}

/// A character allowed in a database name.
pub open spec fn is_word_char(c: char) -> bool {
    is_digit(c) || ('a' <= c && c <= 'z') || ('A' <= c && c <= 'Z') || c == '_'
}

/// The reserved identifiers no database may be named after,
/// compared case-insensitively.
pub open spec fn is_reserved_db_name(lower: Seq<char>) -> bool {
    ||| lower == "postgres"@
    ||| lower == "template0"@
    ||| lower == "template1"@
    ||| lower == "user"@
    ||| lower == "admin"@
    ||| lower == "root"@
    ||| lower == "system"@
}

/// ASCII lowercase of a name.
pub open spec fn ascii_lower_of(s: Seq<char>) -> Seq<char> {
    s.map(|_i: int, c: char| lower_char(c))
}

/// The rule a database name must pass: non-empty, at most 63
/// characters, only letters, digits and underscore, not starting
/// with a digit, and not a reserved word.
pub open spec fn valid_database_name(name: Seq<char>) -> bool {
    &&& name.len() > 0
    &&& name.len() <= 63
    &&& (forall|i: int| 0 <= i < name.len() ==> is_word_char(#[trigger] name[i]))
    &&& !is_digit(name[0])
    &&& !is_reserved_db_name(ascii_lower_of(name))
}

/// Checks a database name against the identifier rule, with the
/// reason on refusal.
pub fn validate_database_name(name: &str) -> (r: Result<(), String>)
    ensures
        r is Ok <==> valid_database_name(name@),
{
    let len = name.unicode_len();
    if len == 0 {
        return Err(String::from_str("database name must not be empty"));
    }
    if len > 63 {
        return Err(String::from_str("database name must be at most 63 characters"));
    }
    let mut i: usize = 0;
    let mut lower = String::new();
    while i < len
        invariant
            0 <= i <= len,
            len == name@.len(),
            forall|j: int| 0 <= j < i ==> is_word_char(#[trigger] name@[j]),
            lower@ =~= ascii_lower_of(name@).take(i as int),
        decreases len - i,
    {
        let c = name.get_char(i);
        let is_az = ('a' <= c && c <= 'z') || ('A' <= c && c <= 'Z');
        let is_dig = '0' <= c && c <= '9';
        if !(is_az || is_dig || c == '_') {
            return Err(
                String::from_str("database name may only contain letters, digits and underscore"),
            );
        }
        let lc = lower_char_exec(c);
        lower.append(crate::wire::char_push(lc).as_str());
        proof {
            assert(lower@ =~= ascii_lower_of(name@).take(i as int + 1));
        }
        i = i + 1;
    }
    proof {
        assert(ascii_lower_of(name@).take(len as int) =~= ascii_lower_of(name@));
    }
    if is_digit_exec(name.get_char(0)) {
        return Err(String::from_str("database name must not start with a digit"));
    }
    let reserved = crate::parser::str_eq(lower.as_str(), "postgres") || crate::parser::str_eq(
        lower.as_str(),
        "template0",
    ) || crate::parser::str_eq(lower.as_str(), "template1") || crate::parser::str_eq(
        lower.as_str(),
        "user",
    ) || crate::parser::str_eq(lower.as_str(), "admin") || crate::parser::str_eq(
        lower.as_str(),
        "root",
    ) || crate::parser::str_eq(lower.as_str(), "system");
    if reserved {
        return Err(String::from_str("database name must not be a reserved word"));
    }
    Ok(())
}

/// Whether a character is a decimal digit.
fn is_digit_exec(c: char) -> (r: bool)
    ensures
        r == is_digit(c),
{
    '0' <= c && c <= '9'
}

/// The connection settings of a PostgreSQL probe.
#[derive(Debug, Clone)]
pub struct PostgresTestConfig {
    pub host: String,
    pub port: u16,
    pub user: String,
    pub password: String,
    pub database: String,
}

/// One column of an inspected table.
#[derive(Debug, Clone)]
pub struct DatabaseColumn {
    pub name: String,
    pub data_type: String,
    pub is_nullable: bool,
    pub is_primary_key: bool,
}

/// One inspected table with its columns and row count.
#[derive(Debug, Clone)]
pub struct DatabaseTable {
    pub name: String,
    pub row_count: Option<u64>,
    pub columns: Vec<DatabaseColumn>,
}

/// The inspected structure of one database.
#[derive(Debug, Clone)]
pub struct DatabaseInspection {
    pub database_name: String,
    pub tables: Vec<DatabaseTable>,
    pub total_tables: usize,
}

impl DatabaseInspection {
    /// Bundles inspected tables; the count names exactly how many.
    pub fn new(database_name: String, tables: Vec<DatabaseTable>) -> (r: DatabaseInspection)
        ensures
            r.database_name@ == database_name@,
            r.tables@ == tables@,
            r.total_tables == r.tables@.len(),
    {
        let total_tables = tables.len();
        DatabaseInspection { database_name, tables, total_tables }
    }
}

/// One network interface the broadcaster could bind.
#[derive(Debug, Clone)]
pub struct NetworkInterface {
    pub name: String,
    pub ip: String,
    pub is_active: bool,
    pub interface_type: String,
}

/// The two interfaces always offered: the loopback and the wildcard
/// that binds them all. The application appends what the platform
/// reports.
pub fn default_network_interfaces() -> (r: Vec<NetworkInterface>)
    ensures
        r@.len() == 2,
        r@[0].ip@ == "127.0.0.1"@,
        r@[1].ip@ == "0.0.0.0"@,
{
    let mut r: Vec<NetworkInterface> = Vec::new();
    r.push(
        NetworkInterface {
            name: String::from_str("Localhost"),
            ip: String::from_str("127.0.0.1"),
            is_active: true,
            interface_type: String::from_str("Loopback"),
        },
    );
    r.push(
        NetworkInterface {
            name: String::from_str("All Interfaces"),
            ip: String::from_str("0.0.0.0"),
            is_active: true,
            interface_type: String::from_str("All"),
        },
    );
    r
}

} // verus!
