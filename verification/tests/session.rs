use ballista_scheduler::session::{parse_bool_or, parse_u64_or, propagated_value, ConfigValue};

fn setting(key: &str, value: &str) -> Option<String> {
    propagated_value(key, &value.to_string()).map(|v| format!("{:?}", v))
}

#[test]
fn truth_values_are_read_or_defaulted() {
    assert!(parse_bool_or("true", false));
    assert!(!parse_bool_or("false", true));
    assert!(parse_bool_or("True", true));
    assert!(!parse_bool_or("True", false));
    assert!(!parse_bool_or("", false));
    assert!(parse_bool_or(" true", true));
    assert!(!parse_bool_or("truee", false));
}

#[test]
fn numbers_are_read_or_defaulted() {
    assert_eq!(parse_u64_or("0", 4096), 0);
    assert_eq!(parse_u64_or("8192", 4096), 8192);
    assert_eq!(parse_u64_or("+17", 4096), 17);
    assert_eq!(parse_u64_or("007", 4096), 7);
    assert_eq!(parse_u64_or("18446744073709551615", 4096), u64::MAX);
    assert_eq!(parse_u64_or("18446744073709551616", 4096), 4096);
    assert_eq!(parse_u64_or("99999999999999999999999", 4096), 4096);
    assert_eq!(parse_u64_or("", 4096), 4096);
    assert_eq!(parse_u64_or("+", 4096), 4096);
    assert_eq!(parse_u64_or("-1", 4096), 4096);
    assert_eq!(parse_u64_or("12a", 4096), 4096);
    assert_eq!(parse_u64_or(" 12", 4096), 4096);
    assert_eq!(parse_u64_or("1 ", 4096), 4096);
    assert_eq!(parse_u64_or("++1", 4096), 4096);
    assert_eq!(parse_u64_or("١٢", 4096), 4096);
}

#[test]
fn the_reading_of_numbers_is_that_of_std() {
    for text in ["0", "+5", "5+", "", "+", "-0", "00012", "1844674407370955161", "18446744073709551615", "18446744073709551616", "3.0", "1e3", "0x10"] {
        assert_eq!(parse_u64_or(text, 4096), text.parse::<u64>().unwrap_or(4096), "{text}");
    }
    for text in ["true", "false", "TRUE", "t", "1", "", "false "] {
        assert_eq!(parse_bool_or(text, true), text.parse::<bool>().unwrap_or(true), "{text}");
        assert_eq!(parse_bool_or(text, false), text.parse::<bool>().unwrap_or(false), "{text}");
    }
}

#[test]
fn known_settings_are_handed_on_with_their_type() {
    assert_eq!(
        setting("datafusion.catalog.default_catalog", "ballista"),
        Some("Utf8(\"ballista\")".to_string())
    );
    assert_eq!(
        setting("datafusion.catalog.default_schema", "public"),
        Some("Utf8(\"public\")".to_string())
    );
    assert_eq!(
        setting("datafusion.execution.time_zone", "+02:00"),
        Some("Utf8(\"+02:00\")".to_string())
    );
    assert_eq!(
        setting("datafusion.optimizer.filter_null_join_keys", "true"),
        Some("Boolean(true)".to_string())
    );
    assert_eq!(
        setting("datafusion.optimizer.filter_null_join_keys", "yes"),
        Some("Boolean(false)".to_string())
    );
    for key in [
        "datafusion.execution.coalesce_batches",
        "datafusion.optimizer.skip_failed_rules",
        "datafusion.execution.parquet.enable_page_index",
        "datafusion.execution.parquet.pushdown_filters",
        "datafusion.execution.parquet.reorder_filters",
    ] {
        assert_eq!(setting(key, "false"), Some("Boolean(false)".to_string()));
        assert_eq!(setting(key, "no"), Some("Boolean(true)".to_string()));
    }
    assert_eq!(
        setting("datafusion.execution.coalesce_target_batch_size", "1024"),
        Some("UInt64(1024)".to_string())
    );
    assert_eq!(
        setting("datafusion.execution.coalesce_target_batch_size", "many"),
        Some("UInt64(4096)".to_string())
    );
}

#[test]
fn other_settings_are_not_handed_on() {
    assert!(propagated_value("datafusion.execution.batch_size", &"1".to_string()).is_none());
    assert!(propagated_value("", &"1".to_string()).is_none());
    assert!(propagated_value("datafusion.execution.time_zone ", &"1".to_string()).is_none());
    match propagated_value("datafusion.execution.time_zone", &"UTC".to_string()) {
        Some(ConfigValue::Utf8(zone)) => assert_eq!(zone, "UTC"),
        other => panic!("unexpected setting {:?}", other),
    }
}
