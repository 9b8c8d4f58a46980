//! Configuration: database endpoints, target keyspace, ledger table name,
//! migrations directory, and behavior flags. Loading a file and reading
//! environment overrides happen outside; validation and the connection
//! endpoint string are the logic here.
use vstd::prelude::*;

use crate::MigrationError;
use crate::text::{dec_padded, join_char, lemma_join_push, push_decimal};

verus! {

pub struct DatabaseConfig {
    pub hosts: Vec<String>,
    pub keyspace: String,
    pub username: String,
    pub password: String,
    pub port: u16,
    pub datacenter: String,
}

pub struct MigrationsConfig {
    pub directory: String,
    pub table_name: String,
}

pub struct BehaviorConfig {
    pub auto_create_keyspace: bool,
    pub verify_checksums: bool,
    pub allow_destructive: bool,
    pub timeout_seconds: u64,
}

pub struct Config {
    pub database: DatabaseConfig,
    pub migrations: MigrationsConfig,
    pub behavior: BehaviorConfig,
}

pub fn default_port() -> (r: u16)
    ensures
        r == 9042,
{
    9042
}

pub fn default_datacenter() -> (r: String)
    ensures
        r@ == "datacenter1"@,
{
    String::from_str("datacenter1")
}

pub fn default_migrations_dir() -> (r: String)
    ensures
        r@ == "./migrations"@,
{
    String::from_str("./migrations")
}

pub fn default_table_name() -> (r: String)
    ensures
        r@ == "schema_migrations"@,
{
    String::from_str("schema_migrations")
}

pub fn default_true() -> (r: bool)
    ensures
        r,
{
    true
}

pub fn default_false() -> (r: bool)
    ensures
        !r,
{
    false
}

pub fn default_timeout() -> (r: u64)
    ensures
        r == 30,
{
    30
}

impl Default for Config {
    /// The built-in configuration: one local host, a test keyspace, the
    /// default table and directory, keyspace auto-creation and checksum
    /// verification on, destructive operations off.
    fn default() -> (r: Config)
        ensures
            r.database.hosts@.len() == 1 && r.database.hosts@[0]@ == "127.0.0.1"@,
            r.database.keyspace@ == "migrations_test"@,
            r.database.username@.len() == 0,
            r.database.password@.len() == 0,
            r.database.port == 9042,
            r.database.datacenter@ == "datacenter1"@,
            r.migrations.directory@ == "./migrations"@,
            r.migrations.table_name@ == "schema_migrations"@,
            r.behavior.auto_create_keyspace,
            r.behavior.verify_checksums,
            !r.behavior.allow_destructive,
            r.behavior.timeout_seconds == 30,
    {
        let mut hosts: Vec<String> = Vec::new();
        hosts.push(String::from_str("127.0.0.1"));
        Config {
            database: DatabaseConfig {
                hosts,
                keyspace: String::from_str("migrations_test"),
                username: String::new(),
                password: String::new(),
                port: default_port(),
                datacenter: default_datacenter(),
            },
            migrations: MigrationsConfig {
                directory: default_migrations_dir(),
                table_name: default_table_name(),
            },
            behavior: BehaviorConfig {
                auto_create_keyspace: default_true(),
                verify_checksums: default_true(),
                allow_destructive: default_false(),
                timeout_seconds: default_timeout(),
            },
        }
    }
}

impl Config {
    /// What validation demands: at least one host, a keyspace, a ledger
    /// table name.
    pub open spec fn valid_spec(&self) -> bool {
        &&& self.database.hosts@.len() > 0
        &&& self.database.keyspace@.len() > 0
        &&& self.migrations.table_name@.len() > 0
    }

    /// Checks the configuration values; a missing host, keyspace or
    /// table name is a configuration error. Whether the migrations
    /// directory exists on disk is checked by the caller that owns the
    /// file system.
    pub fn validate(&self) -> (r: Result<(), MigrationError>)
        ensures
            r is Ok <==> self.valid_spec(),
            r matches Err(e) ==> e is ConfigError,
    {
        if self.database.hosts.len() == 0 {
            return Err(
                MigrationError::ConfigError(
                    String::from_str("At least one database host must be specified"),
                ),
            );
        }
        if self.database.keyspace.as_str().unicode_len() == 0 {
            return Err(
                MigrationError::ConfigError(
                    String::from_str("Database keyspace must be specified"),
                ),
            );
        }
        if self.migrations.table_name.as_str().unicode_len() == 0 {
            return Err(
                MigrationError::ConfigError(
                    String::from_str("Migrations table name cannot be empty"),
                ),
            );
        }
        Ok(())
    }

    /// The endpoint string: the hosts joined by commas, a colon, and the
    /// port in decimal.
    #[verifier::loop_isolation(false)]
    pub fn connection_uri(&self) -> (r: String)
        ensures
            r@ == join_char(self.database.hosts@.map_values(|h: String| h@), ',') + seq![':']
                + dec_padded(self.database.port as nat, 1),
    {
        let mut out = String::new();
        let n = self.database.hosts.len();
        let mut k: usize = 0;
        proof {
            assert(self.database.hosts@.subrange(0, 0).map_values(|h: String| h@)
                =~= Seq::<Seq<char>>::empty());
        }
        while k < n
            invariant
                k <= n,
                out@ == join_char(
                    self.database.hosts@.subrange(0, k as int).map_values(|h: String| h@),
                    ',',
                ),
            decreases n - k,
        {
            if k > 0 {
                out.push(',');
            }
            out.append(self.database.hosts[k].as_str());
            proof {
                let done = self.database.hosts@.subrange(0, k as int).map_values(
                    |h: String| h@,
                );
                lemma_join_push(done, self.database.hosts@[k as int]@, ',');
                assert(self.database.hosts@.subrange(0, k + 1).map_values(|h: String| h@)
                    =~~= done.push(self.database.hosts@[k as int]@));
            }
            k += 1;
        }
        proof {
            assert(self.database.hosts@.subrange(0, n as int) =~= self.database.hosts@);
        }
        out.push(':');
        push_decimal(&mut out, self.database.port as u64, 1);
        out
    }
}

} // verus!
