use pageserver_tenant::config::{parse_tenant_config, tenant_conf_from_toml, TenantConfOpt};
use pageserver_tenant::error::TenantError;

#[test]
fn parses_tenant_config_table() {
    let text = "# per-tenant config\n\n[tenant_config]\ncheckpoint_distance = 1024\ngc_horizon = 67108864\ngc_period = \"100 s\"\npitr_interval = \"1h\"\ncompaction_threshold = 7\n";
    let conf = parse_tenant_config(text).unwrap();
    let mut expected = TenantConfOpt::empty();
    expected.checkpoint_distance = Some(1024);
    expected.gc_horizon = Some(67108864);
    expected.gc_period = Some(100_000);
    expected.pitr_interval = Some(3_600_000);
    expected.compaction_threshold = Some(7);
    assert_eq!(conf, expected);
}

#[test]
fn empty_config_sets_nothing() {
    assert_eq!(parse_tenant_config(""), Ok(TenantConfOpt::empty()));
    assert_eq!(parse_tenant_config("[tenant_config]\n"), Ok(TenantConfOpt::empty()));
}

#[test]
fn unknown_keys_are_refused() {
    assert_eq!(
        parse_tenant_config("[other]\nx = 1\n"),
        Err(TenantError::UnknownConfigKey { key: "other".to_string() })
    );
    assert_eq!(
        parse_tenant_config("[tenant_config]\ngc_horizon = 1\nfoo = 2\n"),
        Err(TenantError::UnknownConfigKey { key: "foo".to_string() })
    );
}

#[test]
fn malformed_config_is_refused() {
    assert_eq!(parse_tenant_config("[tenant_config"), Err(TenantError::ConfigParse));
    assert_eq!(parse_tenant_config("[tenant_config]\ngc_period = 5\n"), Err(TenantError::ConfigParse));
    assert_eq!(parse_tenant_config("[tenant_config]\ngc_period = \"soon\"\n"), Err(TenantError::ConfigParse));
    assert_eq!(parse_tenant_config("[tenant_config]\ngc_horizon = -1\n"), Err(TenantError::ConfigParse));
    assert_eq!(parse_tenant_config("tenant_config = 3\n"), Err(TenantError::ConfigParse));
}

#[test]
fn entries_resolve_in_order() {
    let root = vec![(
        "tenant_config".to_string(),
        Some(vec![
            ("max_lsn_wal_lag".to_string(), Some(10), None),
            ("image_creation_threshold".to_string(), Some(4), None),
            ("lagging_wal_timeout".to_string(), None, Some("250ms".to_string())),
        ]),
    )];
    let conf = tenant_conf_from_toml(&root).unwrap();
    assert_eq!(conf.max_lsn_wal_lag, Some(10));
    assert_eq!(conf.image_creation_threshold, Some(4));
    assert_eq!(conf.lagging_wal_timeout, Some(250));
    let mut merged = TenantConfOpt::empty();
    merged.max_lsn_wal_lag = Some(1);
    merged.gc_horizon = Some(2);
    merged.update(&conf);
    assert_eq!(merged.max_lsn_wal_lag, Some(10));
    assert_eq!(merged.gc_horizon, Some(2));
}

#[test]
fn oversized_inputs_are_refused_before_parsing() {
    // more digits than a duration may hold
    assert_eq!(
        parse_tenant_config("[tenant_config]\ngc_period = \"18446744073709551615s 500ms 500ms\"\n"),
        Err(TenantError::ConfigParse)
    );
    // nesting deeper than the parser is allowed to recurse
    let deep = format!("[tenant_config]\nx = {}{}\n", "[".repeat(100), "]".repeat(100));
    assert_eq!(parse_tenant_config(&deep), Err(TenantError::ConfigParse));
    // sub-millisecond parts are dropped
    let conf = parse_tenant_config("[tenant_config]\ngc_period = \"1500us\"\n").unwrap();
    assert_eq!(conf.gc_period, Some(1));
}
