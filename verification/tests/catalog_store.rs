//! Accounts, users, policies and access keys.

use serde_json::Value;

use extenddb_storage_bigtable::bigtable::BigtableClient;
use extenddb_storage_bigtable::bootstrapper::{
    account_id_of, bootstrap_admin_user, bootstrap_default_account, bootstrap_encryption_key,
    drawn_account_id, drawn_default_account, drawn_encryption_key, drawn_password, drop_databases,
    encryption_key, is_catalog_initialized, key_material, list_table_names, made_admin,
    random_account_id, random_password, read_catalog_version, run_catalog_migrations, BigtableBootstrapper,
};
use extenddb_storage_bigtable::catalog_store::{
    access_key_id_of, change_admin_password, count_indexes, create_access_key, create_account,
    create_admin, create_user, default_account_id, delete_access_key, delete_account,
    delete_policy, delete_user, drawn_access_key, drawn_access_key_id, drawn_secret,
    generate_access_key_id, generate_secret, import_access_key, list_access_keys, list_admins,
    list_all_accounts, list_policies, list_users, lookup_credential, policy_prefix, put_policy,
    sealed_secret, secret_of, verify_admin_password, BigtableCatalogStore, OpError,
    DEV_ADMIN_POLICY,
};
use extenddb_storage_bigtable::config::BigtableStorageConfig;

fn json(s: &str) -> Value {
    serde_json::from_str(s).unwrap()
}

fn store(dev_mode: bool) -> BigtableCatalogStore {
    let client = BigtableClient {
        project_id: "p".into(),
        instance_id: "i".into(),
        emulator_host: None,
        credentials_path: None,
        app_profile_id: None,
    };
    BigtableCatalogStore::new(client, Some("key".into()), dev_mode)
}

#[test]
fn passwords_of_administrators() {
    let (a, row) = bootstrap_admin_user(None, None, Some("secret"), "now").unwrap();
    assert_eq!(a.username, "admin");
    assert!(a.from_env && !a.already_existed && a.generated_password.is_none());
    let row = row.unwrap();
    assert_eq!(verify_admin_password(Some(&row), "secret"), Ok(Some(true)));
    assert_eq!(verify_admin_password(Some(&row), "Secret"), Ok(Some(false)));
    assert_eq!(verify_admin_password(None, "secret"), Ok(None));
    let (a, none) = bootstrap_admin_user(Some("admin"), Some(&row), None, "now").unwrap();
    assert!(none.is_none() && a.already_existed && a.from_env);
    let (b, made) = bootstrap_admin_user(Some("eve"), None, None, "now").unwrap();
    let p = b.generated_password.unwrap();
    assert_eq!(p.len(), 24);
    assert_eq!(verify_admin_password(made.as_ref(), &p), Ok(Some(true)));
    // Another password takes its place.
    let hash = made.unwrap()["password_hash"].as_str().unwrap().to_string();
    let changed = change_admin_password(Some(row), "admin", &hash).unwrap();
    assert_eq!(verify_admin_password(Some(&changed), &p), Ok(Some(true)));
    assert_eq!(verify_admin_password(Some(&changed), "secret"), Ok(Some(false)));
    assert!(matches!(change_admin_password(None, "x", "h"), Err(OpError::NotFound(_))));
    assert_eq!(
        verify_admin_password(Some(&json("{}")), "x"),
        Err(OpError::Internal("admin missing password_hash".into()))
    );
    assert_eq!(
        verify_admin_password(Some(&json("{\"password_hash\":\"junk\"}")), "x"),
        Ok(Some(false))
    );
}

#[test]
fn records_word_for_word() {
    assert_eq!(
        create_admin("a", "h", false, "t").to_string(),
        "{\"created_at\":\"t\",\"from_env\":false,\"password_hash\":\"h\",\"username\":\"a\"}"
    );
    assert_eq!(
        create_account("1", "n", "t").to_string(),
        "{\"account_id\":\"1\",\"account_name\":\"n\",\"created_at\":\"t\"}"
    );
    assert_eq!(
        create_user("1", "u", None, "t"),
        json(
            "{\"user_name\":\"u\",\"account_id\":\"1\",\"password_hash\":null,\
             \"has_password\":false,\"user_arn\":\"arn:aws:iam::1:user/u\",\"created_at\":\"t\"}"
        )
    );
    assert_eq!(
        import_access_key("1", "u", "AK", "sealed", "t"),
        json(
            "{\"access_key_id\":\"AK\",\"account_id\":\"1\",\"user_name\":\"u\",\
             \"secret_encrypted\":\"sealed\",\"is_active\":true,\"is_session\":false,\
             \"created_at\":\"t\"}"
        )
    );
    assert_eq!(
        run_catalog_migrations("t"),
        json("{\"catalog_version\":\"0.1.0\",\"applied_at\":\"t\"}")
    );
    assert_eq!(
        key_material(&[0, 1, 2], "t"),
        json("{\"algorithm\":\"AES-256-GCM\",\"key_b64\":\"AAEC\",\"created_at\":\"t\"}")
    );
}

#[test]
fn accounts() {
    let rows = vec![
        ("acct:1".to_string(), create_account("1", "one", "t")),
        ("acct:2".to_string(), json("{}")),
    ];
    assert_eq!(default_account_id(&rows), Some("1".to_string()));
    assert_eq!(default_account_id(&[]), None);
    assert_eq!(
        list_all_accounts(&rows),
        vec![("1".to_string(), "one".to_string()), (String::new(), String::new())]
    );
    assert_eq!(delete_account("1", 0), Ok(()));
    assert_eq!(
        delete_account("1", 3),
        Err(OpError::Internal("account 1 still owns 3 table(s)".into()))
    );
}

#[test]
fn users_in_a_list() {
    let rows = vec![
        ("user:1:u".to_string(), create_user("1", "u", Some("h"), "1970-01-01T00:00:01.0Z")),
        ("user:1:v".to_string(), create_user("1", "v", None, "not a time")),
    ];
    let l = list_users("1", &rows, 77);
    assert_eq!(l[0].user_arn, "arn:aws:iam::1:user/u");
    assert!(l[0].has_password && !l[1].has_password);
    assert_eq!(l[0].created_at, 1_000_000_000);
    assert_eq!(l[1].created_at, 77);
    let admins = list_admins(&[("admin:a".to_string(), create_admin("a", "h", true, "x"))], 5);
    assert_eq!((admins[0].admin_name.as_str(), admins[0].created_at), ("a", 5));
}

#[test]
fn policies() {
    let doc = json("{\"Statement\":[]}");
    let (key, row) = put_policy("1", "user", "u", "p", &doc, "t").unwrap();
    assert_eq!(key, "user_policy:1:u:p");
    assert_eq!(delete_policy("1", "role", "r", "p"), Ok("role_policy:1:r:p".to_string()));
    assert_eq!(
        delete_policy("1", "gro\"up", "r", "p"),
        Err(OpError::Internal("unknown principal_type \"gro\\\"up\"".into()))
    );
    assert_eq!(policy_prefix("1", "user", "u"), "user_policy:1:u:");
    let rows = vec![(key, row), ("x".to_string(), json("{}"))];
    let l = list_policies(&rows, 3);
    assert_eq!(l[0].document, doc);
    assert_eq!(l[0].policy_name, "p");
    assert_eq!(l[1].document, Value::Null);
    assert_eq!(store(false).fetch_user_policies("u", &rows), vec!["{\"Statement\":[]}"]);
    assert_eq!(store(false).fetch_role_policies(&rows), vec!["{\"Statement\":[]}"]);
    assert_eq!(store(true).fetch_user_policies("__dev_admin__", &rows), vec![DEV_ADMIN_POLICY]);
    assert_eq!(store(true).fetch_user_policies("u", &rows), vec!["{\"Statement\":[]}"]);
    let policy = json(DEV_ADMIN_POLICY);
    assert_eq!(policy["Statement"][0]["Action"], "dynamodb:*");
}

#[test]
fn access_keys() {
    assert_eq!(access_key_id_of(&[0, 25, 26, 31, 32]), "AKIAAZ27A");
    let id = generate_access_key_id().unwrap();
    assert!(id.starts_with("AKIA") && id.len() == 20);
    assert_ne!(id, generate_access_key_id().unwrap());
    assert_eq!(secret_of(&[0; 30]), "A".repeat(40));
    assert_eq!(generate_secret().unwrap().len(), 40);
    assert_eq!(create_access_key(None, "u"), Err(OpError::NotFound("u".into())));
    let k = create_access_key(Some(&json("{}")), "u").unwrap();
    assert_eq!(k.secret_access_key.len(), 40);
    let rows = vec![
        ("access_key:A".to_string(), import_access_key("1", "u", "A", "s", "t")),
        ("access_key:B".to_string(), import_access_key("1", "v", "B", "s", "t")),
        ("access_key:C".to_string(), json("{\"account_id\":\"1\",\"user_name\":\"u\"}")),
    ];
    let l = list_access_keys(&rows, "1", "u", 9);
    assert_eq!(l.len(), 2);
    assert_eq!((l[0].access_key_id.as_str(), l[0].is_active), ("A", true));
    assert_eq!((l[1].access_key_id.as_str(), l[1].is_active), ("", false));
    assert_eq!(delete_user(&rows, "1", "u"), vec!["access_key:A", "access_key:C"]);
    assert_eq!(delete_access_key(Some(&rows[0].1), "1", "u", "A"), Ok(()));
    assert_eq!(
        delete_access_key(Some(&rows[0].1), "1", "v", "A"),
        Err(OpError::NotFound("A".into()))
    );
    assert_eq!(delete_access_key(None, "1", "u", "A"), Err(OpError::NotFound("A".into())));
}

#[test]
fn what_is_made_of_drawn_bytes() {
    let failed = || Err::<Vec<u8>, String>("no entropy".to_string());
    let none = Err("no entropy".to_string());
    assert_eq!(drawn_access_key_id(Ok(vec![0; 16])), Ok(format!("AKIA{}", "A".repeat(16))));
    assert_eq!(drawn_access_key_id(failed()), none);
    assert_eq!(drawn_secret(Ok(vec![0xFF; 30])), Ok("/".repeat(40)));
    assert_eq!(drawn_secret(failed()), none);
    assert_eq!(
        drawn_account_id(Ok(vec![0, 0, 0, 0, 0, 0, 1, 2])),
        Ok("000000000258".to_string())
    );
    assert_eq!(drawn_account_id(Ok(vec![0xFF; 8])), Ok("073709551615".to_string()));
    assert_eq!(drawn_account_id(failed()), none);
    assert_eq!(drawn_password(Ok(vec![0xFF; 13]), 10), Ok("_".repeat(10)));
    assert_eq!(drawn_password(failed(), 10), none);
}

#[test]
fn access_keys_of_drawn_bytes() {
    let row = json("{}");
    let no = |m: &str| Err::<Vec<u8>, String>(m.to_string());
    let k = drawn_access_key(Some(&row), "u", Ok(vec![1; 16]), Ok(vec![0; 30])).unwrap();
    assert_eq!(k.access_key_id, format!("AKIA{}", "B".repeat(16)));
    assert_eq!(k.secret_access_key, "A".repeat(40));
    assert_eq!(
        drawn_access_key(None, "u", no("a"), no("b")),
        Err(OpError::NotFound("u".into()))
    );
    assert_eq!(
        drawn_access_key(Some(&row), "u", no("a"), no("b")),
        Err(OpError::Internal("a".into()))
    );
    assert_eq!(
        drawn_access_key(Some(&row), "u", Ok(vec![1; 16]), no("b")),
        Err(OpError::Internal("b".into()))
    );
}

#[test]
fn first_rows_of_drawn_bytes() {
    let no = || Err::<Vec<u8>, String>("no entropy".to_string());
    let (id, row) = drawn_default_account(0, Ok(vec![0, 0, 0, 0, 0, 0, 0, 7]), "t")
        .unwrap()
        .unwrap();
    assert_eq!(id, "000000000007");
    assert_eq!(row, json("{\"account_id\":\"000000000007\",\"created_at\":\"t\"}"));
    assert_eq!(drawn_default_account(1, no(), "t"), Ok(None));
    assert_eq!(
        drawn_default_account(0, no(), "t"),
        Err(OpError::Internal("no entropy".into()))
    );
    let key = drawn_encryption_key(None, Ok(vec![7; 32]), "t").unwrap().unwrap();
    let encoded = "BwcHBwcHBwcHBwcHBwcHBwcHBwcHBwcHBwcHBwcHBwc=";
    assert_eq!(
        key,
        json(&format!(
            "{{\"algorithm\":\"AES-256-GCM\",\"key_b64\":\"{encoded}\",\"created_at\":\"t\"}}"
        ))
    );
    assert_eq!(drawn_encryption_key(Some(&key), no(), "t"), Ok(None));
    assert_eq!(
        drawn_encryption_key(None, no(), "t"),
        Err(OpError::Internal("rng: no entropy".into()))
    );
    let (a, row) =
        made_admin("a", None, Ok("pw".into()), Ok("hash".into()), "t").unwrap();
    assert_eq!((a.username.as_str(), a.generated_password.as_deref()), ("a", Some("pw")));
    assert!(!a.from_env && !a.already_existed);
    assert_eq!(row, create_admin("a", "hash", false, "t"));
    let (a, row) =
        made_admin("a", Some("given"), Err("unused".into()), Ok("hash".into()), "t").unwrap();
    assert!(a.from_env && a.generated_password.is_none());
    assert_eq!(row, create_admin("a", "hash", true, "t"));
    assert_eq!(
        made_admin("a", None, Err("no entropy".into()), Ok("hash".into()), "t"),
        Err(OpError::Internal("no entropy".into()))
    );
    assert_eq!(
        made_admin("a", Some("given"), Ok("pw".into()), Err("bad".into()), "t"),
        Err(OpError::Internal("bcrypt: bad".into()))
    );
}

#[test]
fn credentials() {
    let row = import_access_key("1", "u", "A", "sealed", "t");
    assert_eq!(sealed_secret(&row), Ok("sealed".to_string()));
    assert!(sealed_secret(&json("{}")).is_err());
    let c = lookup_credential(&row, Ok(b"secret".to_vec())).unwrap();
    assert_eq!(c.secret_key, "secret");
    assert_eq!((c.account_id.as_str(), c.principal_name.as_str()), ("1", "u"));
    assert!(c.is_active && !c.is_session && c.expires_at.is_none());
    let c = lookup_credential(
        &json("{\"expires_at\":\"1970-01-01T00:00:02Z\",\"session_token\":\"t\",\"is_active\":false}"),
        Ok(Vec::new()),
    )
    .unwrap();
    assert_eq!(c.expires_at, Some(2_000_000_000));
    assert_eq!(c.session_token.as_deref(), Some("t"));
    assert!(!c.is_active);
    assert_eq!(lookup_credential(&row, Err("no".into())), Err("decrypt: no".to_string()));
    let e = lookup_credential(&row, Ok(vec![0xFF])).unwrap_err();
    assert!(e.starts_with("secret utf8: invalid utf-8"));
    assert_eq!(store(false).enc_key(), Ok("key"));
    assert_eq!(store(false).cached_encryption_key().as_deref(), Some("key"));
    let mut s = store(false);
    s.encryption_key = None;
    assert_eq!(s.enc_key(), Err(OpError::Internal("encryption key not loaded".into())));
}

#[test]
fn the_first_rows() {
    let v = run_catalog_migrations("t");
    assert_eq!(read_catalog_version(Some(&v)), Some("0.1.0".to_string()));
    assert_eq!(read_catalog_version(None), None);
    assert!(is_catalog_initialized(Ok(Some(v))));
    assert!(!is_catalog_initialized(Ok(None)));
    assert!(!is_catalog_initialized(Err("no table".into())));
    let k = bootstrap_encryption_key(None, "t").unwrap().unwrap();
    assert_eq!(encryption_key(Some(&k)).unwrap().len(), 44);
    assert_eq!(bootstrap_encryption_key(Some(&k), "t"), Ok(None));
    let (id, row) = bootstrap_default_account(0, "t").unwrap().unwrap();
    assert_eq!(id.len(), 12);
    assert!(id.chars().all(|c| c.is_ascii_digit()));
    assert_eq!(row["account_id"].as_str(), Some(id.as_str()));
    assert_eq!(bootstrap_default_account(1, "t"), Ok(None));
    assert_eq!(random_account_id().unwrap().len(), 12);
    assert_eq!(account_id_of(7), "000000000007");
    assert_eq!(account_id_of(1_234_567_890_123), "234567890123");
    let p = random_password(10).unwrap();
    assert_eq!(p.len(), 10);
    assert!(!p.contains('+') && !p.contains('/'));
    assert_eq!(
        list_table_names("acct:1", &["table_meta:1:a".to_string(), "b".to_string()]),
        vec!["1/a"]
    );
    assert!(drop_databases("__extenddb_catalog__"));
    assert!(drop_databases("__extenddb_txn_log__"));
    assert!(drop_databases("a__b"));
    assert!(!drop_databases("t0123456789abcdef"));
}

#[test]
fn what_a_bootstrapper_says() {
    let mut config = BigtableStorageConfig::default();
    config.project_id = "p".into();
    config.instance_id = "i".into();
    let b = BigtableBootstrapper::new(config.clone());
    assert_eq!(b.catalog_database_name(), "__extenddb_catalog__ (bigtable://p/i)");
    assert_eq!(b.endpoint_info(), "bigtable emulator @ localhost:8086");
    assert_eq!(b.catalog_connection_url(), "bigtable://p/i?emulator=localhost:8086");
    assert_eq!(b.expected_catalog_version(), "0.1.0");
    assert_eq!(
        b.create_catalog_db(),
        ("__extenddb_catalog__".to_string(), vec!["c".to_string()])
    );
    let section = b.generate_backend_config_section();
    assert!(section.starts_with("[storage.bigtable]\nproject_id = \"p\"\ninstance_id = \"i\"\n"));
    assert!(section.contains("\nemulator_host = \"localhost:8086\"\n"));
    assert!(section.ends_with("(default false)"));
    config.emulator_host = None;
    let b = BigtableBootstrapper::new(config);
    assert_eq!(b.endpoint_info(), "bigtable @ projects/p/instances/i");
    assert!(b.generate_backend_config_section().contains("\nemulator_host = \"localhost:8086\"\n"));
}

#[test]
fn no_tables_have_no_indexes() {
    assert_eq!(count_indexes(&[None, None]), 0);
}
