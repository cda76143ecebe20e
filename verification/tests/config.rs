//! Settings, operations and the names of things.

use extenddb_storage_bigtable::admin::{AdminClient, AdminCode, AdminStatus, AuthInterceptor};
use extenddb_storage_bigtable::bigtable::BigtableClient;
use extenddb_storage_bigtable::config::{
    default_gsi_reconcile_cadence, default_intent_timeout, default_pool_size,
    default_sweeper_cadence, default_ttl_scan_cadence, BigtableStorageConfig,
};
use extenddb_storage_bigtable::dev_auth::{AuthIdentity, DevAuthProvider, DEV_USER_NAME};
use extenddb_storage_bigtable::error::StorageError;
use extenddb_storage_bigtable::keys;
use extenddb_storage_bigtable::operations::{sensitive, BigtableOperationsEngine, ConnectionParts};
use extenddb_storage_bigtable::runtime_hooks::BigtableRuntimeHooks;
use extenddb_storage_bigtable::BACKEND_NAME;

fn full() -> BigtableStorageConfig {
    BigtableStorageConfig {
        project_id: "proj".into(),
        instance_id: "inst/x".into(),
        data_instance_id: Some("data".into()),
        credentials_path: Some("/etc/key=1.json".into()),
        emulator_host: Some("localhost:9000".into()),
        pool_size: 20,
        catalog_pool_size: None,
        sweeper_cadence_secs: 31,
        intent_timeout_secs: 61,
        ttl_scan_cadence_secs: 62,
        gsi_reconcile_cadence_secs: 301,
        dev_mode: true,
    }
}

#[test]
fn connection_strings_word_for_word() {
    let d = BigtableStorageConfig::default();
    assert_eq!(d.connection_string(), "bigtable://extenddb-dev/extenddb-dev?emulator=localhost:8086");
    let mut plain = BigtableStorageConfig::default();
    plain.emulator_host = None;
    assert_eq!(plain.connection_string(), "bigtable://extenddb-dev/extenddb-dev");
    assert_eq!(
        full().connection_string(),
        "bigtable://proj/inst/x?emulator=localhost:9000&dev_mode=true&data_instance_id=data\
         &credentials_path=/etc/key=1.json&ttl_scan=62&sweeper=31&intent_timeout=61\
         &gsi_reconcile=301"
    );
}

#[test]
fn connection_strings_read_back() {
    for c in [full(), BigtableStorageConfig::default()] {
        assert_eq!(BigtableStorageConfig::from_connection_string(&c.connection_string()), Ok(c));
    }
}

#[test]
fn connection_strings_that_say_little() {
    let c = BigtableStorageConfig::from_connection_string(
        "bigtable://p/i?dev_mode=1&ttl_scan=soon&what=ever&noise&sweeper=5",
    )
    .unwrap();
    assert!(c.dev_mode);
    assert_eq!(c.ttl_scan_cadence_secs, 60);
    assert_eq!(c.sweeper_cadence_secs, 5);
    assert_eq!(c.emulator_host, None);
    assert_eq!(
        BigtableStorageConfig::from_connection_string("mysql://p/i"),
        Err("not a bigtable URL: mysql://p/i".to_string())
    );
    assert_eq!(
        BigtableStorageConfig::from_connection_string("bigtable://p?x=/"),
        Err("missing instance in URL: bigtable://p?x=/".to_string())
    );
}

#[test]
fn defaults() {
    assert_eq!(default_pool_size(), 20);
    assert_eq!(default_sweeper_cadence(), 30);
    assert_eq!(default_intent_timeout(), 60);
    assert_eq!(default_ttl_scan_cadence(), 60);
    assert_eq!(default_gsi_reconcile_cadence(), 300);
    assert_eq!(BACKEND_NAME, "bigtable");
    let c = full();
    assert_eq!(c.connection_config(), c.connection_string());
    assert_eq!(c.max_connections(), 20);
    assert_eq!(c.max_catalog_connections(), 20);
    assert_eq!(c.data_config().unwrap().instance_id, "data");
    assert_eq!(BigtableStorageConfig::default().data_config(), None);
}

#[test]
fn connections_are_taken_apart() {
    let ops = BigtableOperationsEngine;
    let parts = |host: &str, port: u16| ConnectionParts {
        host: host.to_string(),
        port,
        user: String::new(),
        password: String::new(),
        database: "i".to_string(),
    };
    let p = |s: &str| ops.parse_connection_string(s);
    assert_eq!(p("bigtable://p/i"), Ok(parts("bigtable.googleapis.com", 443)));
    assert_eq!(p("bigtable://p/i?emulator=h:99"), Ok(parts("h", 99)));
    assert_eq!(p("bigtable://p/i?emulator=h"), Ok(parts("h", 8086)));
    assert_eq!(p("bigtable://p/i?emulator=h:99999"), Ok(parts("h", 8086)));
    assert_eq!(p("x"), Err(StorageError::Internal("not a bigtable URL: x".into())));
    assert_eq!(ops.redact_connection_string("bigtable://p/i"), "bigtable://p/i");
    assert_eq!(ops.catalog_version(), "0.1.0");
}

#[test]
fn names_of_tables() {
    let ops = BigtableOperationsEngine;
    let v = |name: &str| ops.validate_identifier(name, "table");
    let err = |m: &str| Err(StorageError::Internal(m.to_string()));
    assert_eq!(v("_a-b.c9"), Ok(()));
    assert_eq!(v(""), err("table must not be empty"));
    assert_eq!(v(&"x".repeat(50)), Ok(()));
    assert_eq!(v(&"x".repeat(51)), err("table must be at most 50 characters, got 51"));
    assert_eq!(v("-a"), err("table must start with alphanumeric or underscore"));
    assert_eq!(
        v("a b"),
        err("table contains invalid characters (only alphanumeric, _, -, . allowed)")
    );
    assert!(v("ä").is_err());
}

#[test]
fn settings_that_are_not_shown() {
    let ops = BigtableOperationsEngine;
    assert!(ops.is_sensitive_key("API_KEY"));
    assert!(ops.is_sensitive_key("credentials_path"));
    assert!(ops.is_sensitive_key("Credential"));
    assert!(!ops.is_sensitive_key("pool_size"));
    assert!(sensitive("monkey"));
    assert!(!sensitive("KEY"));
}

#[test]
fn workers() {
    let hooks = BigtableRuntimeHooks { config: full() };
    assert_eq!(
        hooks.backend_info(),
        "ttl_scan_cadence_secs=62, gsi_reconcile_cadence_secs=301, sweeper_cadence_secs=31"
    );
    let mut c = full();
    c.sweeper_cadence_secs = 0;
    let cadences = BigtableRuntimeHooks { config: c }.spawn_workers();
    assert_eq!((cadences.sweeper, cadences.ttl_scan, cadences.gsi_reconcile), (1, 62, 301));
}

#[test]
fn development_lets_everyone_in() {
    let p = DevAuthProvider::new("42".to_string());
    assert_eq!(
        p.authenticate(),
        AuthIdentity::User { account_id: "42".into(), user_name: DEV_USER_NAME.into() }
    );
}

#[test]
fn keys_of_the_catalog() {
    assert_eq!(keys::account("1"), "acct:1");
    assert_eq!(keys::admin("a"), "admin:a");
    assert_eq!(keys::user("1", "u"), "user:1:u");
    assert_eq!(keys::role("1", "r"), "role:1:r");
    assert_eq!(keys::user_policy("1", "u", "p"), "user_policy:1:u:p");
    assert_eq!(keys::role_policy("1", "r", "p"), "role_policy:1:r:p");
    assert_eq!(keys::access_key("k"), "access_key:k");
    assert_eq!(keys::table_meta("1", "t"), "table_meta:1:t");
    assert_eq!(keys::tags("arn"), "tags:arn");
    assert_eq!(keys::idempotency("t"), "idem:t");
    assert_eq!(keys::backup_meta("b"), "backup:b");
    assert_eq!(keys::backup_item("b", 7), "backup_item:b:00000000000000000007");
    assert_eq!(keys::backup_item_scan_prefix("b"), "backup_item:b:");
    assert_eq!(keys::backup_scan_prefix_for_account("r", "1"), "backup:arn:aws:dynamodb:r:1:");
    assert_eq!(keys::continuous_backups("1", "t"), "continuous_backups:1:t");
    assert_eq!(keys::stream_meta("s"), "stream:s");
    assert_eq!(keys::stream_record("s", "h", "9"), "stream_record:s:h:9");
    assert_eq!(keys::stream_record_shard_prefix("s", "h"), "stream_record:s:h:");
    assert_eq!(keys::stream_scan_prefix_for_account("r", "1"), "stream:arn:aws:dynamodb:r:1:");
    assert_eq!(keys::user_scan_prefix("1"), "user:1:");
    assert_eq!(keys::table_meta_scan_prefix("1"), "table_meta:1:");
    assert!(keys::backup_item("b", 9) < keys::backup_item("b", 10));
}

#[test]
fn administration() {
    let mut c = BigtableClient {
        project_id: "p".into(),
        instance_id: "i".into(),
        emulator_host: Some("localhost:1".into()),
        credentials_path: None,
        app_profile_id: Some("prof".into()),
    };
    assert_eq!(c.app_profile(), "prof");
    assert_eq!(AdminClient::endpoint(&c), "http://localhost:1");
    c.emulator_host = None;
    assert_eq!(AdminClient::endpoint(&c), "https://bigtableadmin.googleapis.com:443");
    let a = AdminClient::new(&c);
    assert_eq!(a.table_name("t"), "projects/p/instances/i/tables/t");
    assert_eq!(c.full_table_name("t"), a.table_name("t"));
    let q = a.create_table("t", &["d".to_string()]);
    assert_eq!((q.parent.as_str(), q.table_id.as_str()), ("projects/p/instances/i", "t"));
    let status = |code| Err(AdminStatus { code, message: "m".to_string() });
    assert_eq!(AdminClient::created("t", status(AdminCode::AlreadyExists)), Ok(()));
    assert_eq!(
        AdminClient::created("t", status(AdminCode::NotFound)),
        Err("create_table(t): m".to_string())
    );
    assert_eq!(AdminClient::ensure_families("t", status(AdminCode::FailedPrecondition)), Ok(()));
    assert_eq!(
        AdminClient::ensure_families("t", status(AdminCode::Other)),
        Err("ensure_families(t): m".to_string())
    );
    assert_eq!(AdminClient::delete_table("t", status(AdminCode::NotFound)), Ok(()));
    assert_eq!(AdminClient::delete_table("t", Ok(())), Ok(()));
    assert_eq!(
        AdminClient::delete_table("t", status(AdminCode::AlreadyExists)),
        Err("delete_table(t): m".to_string())
    );
    let names = ["projects/p/instances/i/tables/t".to_string(), "plain".to_string()];
    assert_eq!(AdminClient::list_tables(&names), vec!["t", "plain"]);
    assert_eq!(AuthInterceptor::new(Some("x")).bearer.as_deref(), Some("Bearer x"));
    assert_eq!(AuthInterceptor::new(None).bearer, None);
}
