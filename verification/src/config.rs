//! The database connection settings, built up with chained setters.

use vstd::prelude::*;
use vstd::string::*;

verus! {

/// Connection settings for a Postgres server.
#[derive(Debug)]
pub struct DatabaseConfig {
    pub host: String,
    pub port: i32,
    pub username: String,
    pub password: String,
    pub database: String,
    pub ssl: bool,
    pub debug: bool,
}

impl DatabaseConfig {
    /// The default settings: a local server, the stock user, a blank
    /// password, no TLS, no debugging.
    pub fn new() -> (r: DatabaseConfig)
        ensures
            r.host@ == "localhost"@,
            r.port == 5432,
            r.username@ == "postgres"@,
            r.password@ == Seq::<char>::empty(),
            r.database@ == "postgres"@,
            !r.ssl,
            !r.debug,
    {
        DatabaseConfig {
            host: "localhost".to_owned(),
            port: 5432,
            username: "postgres".to_owned(),
            password: String::new(),
            database: "postgres".to_owned(),
            ssl: false,
            debug: false,
        }
    }

    /// Sets the host; chains.
    pub fn host(self, host: &str) -> (r: DatabaseConfig)
        ensures
            r == (DatabaseConfig { host: r.host, ..self }),
            r.host@ == host@,
    {
        DatabaseConfig { host: host.to_owned(), ..self }
    }

    /// Sets the username; chains.
    pub fn username(self, username: &str) -> (r: DatabaseConfig)
        ensures
            r == (DatabaseConfig { username: r.username, ..self }),
            r.username@ == username@,
    {
        DatabaseConfig { username: username.to_owned(), ..self }
    }

    /// Sets the password; chains.
    pub fn password(self, password: &str) -> (r: DatabaseConfig)
        ensures
            r == (DatabaseConfig { password: r.password, ..self }),
            r.password@ == password@,
    {
        DatabaseConfig { password: password.to_owned(), ..self }
    }

    /// Sets the database name; chains.
    pub fn database(self, database: &str) -> (r: DatabaseConfig)
        ensures
            r == (DatabaseConfig { database: r.database, ..self }),
            r.database@ == database@,
    {
        DatabaseConfig { database: database.to_owned(), ..self }
    }

    /// Sets whether TLS is used; chains.
    pub fn ssl(self, ssl: bool) -> (r: DatabaseConfig)
        ensures
            r == (DatabaseConfig { ssl, ..self }),
    {
        DatabaseConfig { ssl, ..self }
    }

    /// Sets the port; chains.
    pub fn port(self, port: i32) -> (r: DatabaseConfig)
        ensures
            r == (DatabaseConfig { port, ..self }),
    {
        DatabaseConfig { port, ..self }
    }

    /// Sets whether debugging output is wanted; chains.
    pub fn debug(self, debug: bool) -> (r: DatabaseConfig)
        ensures
            r == (DatabaseConfig { debug, ..self }),
    {
        DatabaseConfig { debug, ..self }
    }
}

} // verus!
