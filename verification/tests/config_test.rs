use mastic::config::{
    check_config, num_clients_of, read_config, server_id_of, ArgError, Config, ConfigError,
    RawConfig,
};

fn has_port(text: &String) -> bool {
    match text.rsplit_once(':') {
        Some((host, port)) => !host.is_empty() && port.parse::<u16>().is_ok(),
        None => false,
    }
}

fn get_config(text: &str) -> Result<Config, ConfigError> {
    let raw = read_config(text)?;
    let server_0_ok = raw.server_0.as_ref().map_or(false, has_port);
    let server_1_ok = raw.server_1.as_ref().map_or(false, has_port);
    check_config(raw, server_0_ok, server_1_ok)
}

fn document(skip: &str) -> String {
    let members = [
        ("data_bytes", "8"),
        ("range_bits", "256"),
        ("add_key_batch_size", "1000"),
        ("flp_batch_size", "100000"),
        ("unique_buckets", "10"),
        ("threshold", "0.01"),
        ("zipf_exponent", "1.03"),
        ("server_0", "\"0.0.0.0:8000\""),
        ("server_1", "\"127.0.0.1:8001\""),
    ];
    let parts: Vec<String> = members
        .iter()
        .filter(|(name, _)| *name != skip)
        .map(|(name, value)| format!("\"{}\": {}", name, value))
        .collect();
    format!("{{ {} }}", parts.join(", "))
}

#[test]
fn a_full_document_gives_the_settings() {
    let config = get_config(&document("")).unwrap();
    assert_eq!(config.data_bytes, 8);
    assert_eq!(config.range_bits, 256);
    assert_eq!(config.add_key_batch_size, 1000);
    assert_eq!(config.flp_batch_size, 100000);
    assert_eq!(config.unique_buckets, 10);
    assert_eq!(config.server_0, "0.0.0.0:8000");
    assert_eq!(config.server_1, "127.0.0.1:8001");
}

#[test]
fn the_first_missing_setting_is_reported() {
    let cases = [
        ("range_bits", ConfigError::RangeBits, "Can't parse range_bits"),
        ("data_bytes", ConfigError::DataBytes, "Can't parse data_bytes"),
        (
            "add_key_batch_size",
            ConfigError::AddKeyBatchSize,
            "Can't parse add_key_batch_size",
        ),
        ("flp_batch_size", ConfigError::FlpBatchSize, "Can't parse flp_batch_size"),
        ("unique_buckets", ConfigError::UniqueBuckets, "Can't parse unique_buckets"),
        ("threshold", ConfigError::Threshold, "Can't parse threshold"),
        ("zipf_exponent", ConfigError::ZipfExponent, "Can't parse zipf_exponent"),
        ("server_0", ConfigError::Server0, "Can't parse server0 addr"),
        ("server_1", ConfigError::Server1, "Can't parse server 1 addr"),
    ];
    for (skip, error, words) in cases {
        assert_eq!(get_config(&document(skip)).unwrap_err(), error);
        assert_eq!(error.message(), words);
    }
    assert_eq!(get_config("{}").unwrap_err(), ConfigError::RangeBits);
    assert_eq!(get_config("[1, 2]").unwrap_err(), ConfigError::RangeBits);
}

#[test]
fn a_text_that_is_no_document_is_refused() {
    assert_eq!(get_config("{ \"range_bits\": ").unwrap_err(), ConfigError::Json);
    assert_eq!(get_config("").unwrap_err(), ConfigError::Json);
    assert_eq!(ConfigError::Json.message(), "Cannot parse JSON config");
}

#[test]
fn settings_of_the_wrong_kind_count_as_missing() {
    let text = document("").replace("256", "\"256\"");
    assert_eq!(get_config(&text).unwrap_err(), ConfigError::RangeBits);
    let text = document("").replace("1000,", "-1000,");
    assert_eq!(get_config(&text).unwrap_err(), ConfigError::AddKeyBatchSize);
    let text = document("").replace("0.01", "\"0.01\"");
    assert_eq!(get_config(&text).unwrap_err(), ConfigError::Threshold);
    let text = document("").replace("\"0.0.0.0:8000\"", "8000");
    assert_eq!(get_config(&text).unwrap_err(), ConfigError::Server0);
    let text = document("").replace("1.03", "2");
    assert!(get_config(&text).is_ok());
}

#[test]
fn check_config_takes_the_fields_as_they_are() {
    let raw = RawConfig {
        range_bits: Some(1),
        data_bytes: Some(2),
        add_key_batch_size: Some(3),
        flp_batch_size: Some(4),
        unique_buckets: Some(5),
        has_threshold: true,
        has_zipf_exponent: true,
        server_0: Some("a".to_string()),
        server_1: Some("b".to_string()),
    };
    let config = check_config(raw, true, true).unwrap();
    assert_eq!(
        (
            config.range_bits,
            config.data_bytes,
            config.add_key_batch_size,
            config.flp_batch_size,
            config.unique_buckets
        ),
        (1, 2, 3, 4, 5)
    );
    assert_eq!((config.server_0.as_str(), config.server_1.as_str()), ("a", "b"));
    let raw = RawConfig {
        range_bits: Some(1),
        data_bytes: None,
        add_key_batch_size: None,
        flp_batch_size: Some(4),
        unique_buckets: Some(5),
        has_threshold: false,
        has_zipf_exponent: true,
        server_0: None,
        server_1: Some("b".to_string()),
    };
    assert_eq!(check_config(raw, true, true).unwrap_err(), ConfigError::DataBytes);
}

#[test]
fn the_server_identifier_defaults_to_minus_one() {
    assert_eq!(server_id_of(false, None), Ok(-1));
    assert_eq!(server_id_of(false, Some("1")), Ok(-1));
    assert_eq!(server_id_of(true, Some("1")), Ok(1));
    assert_eq!(server_id_of(true, Some("0")), Ok(0));
    assert_eq!(server_id_of(true, Some("-128")), Ok(-128));
    assert_eq!(server_id_of(true, Some("128")), Err(ArgError::Invalid));
    assert_eq!(server_id_of(true, Some("one")), Err(ArgError::Invalid));
    assert_eq!(server_id_of(true, None), Err(ArgError::Missing));
}

#[test]
fn the_number_of_clients_defaults_to_zero() {
    assert_eq!(num_clients_of(false, None), Ok(0));
    assert_eq!(num_clients_of(false, Some("7")), Ok(0));
    assert_eq!(num_clients_of(true, Some("7")), Ok(7));
    assert_eq!(num_clients_of(true, Some("1000000")), Ok(1000000));
    assert_eq!(num_clients_of(true, Some("-7")), Err(ArgError::Invalid));
    assert_eq!(num_clients_of(true, Some("")), Err(ArgError::Invalid));
    assert_eq!(
        num_clients_of(true, Some("99999999999999999999999")),
        Err(ArgError::Invalid)
    );
    assert_eq!(num_clients_of(true, None), Err(ArgError::Missing));
}

#[test]
fn read_config_finds_the_fields_of_the_document() {
    let text = document("flp_batch_size").replace("\"127.0.0.1:8001\"", "null");
    let raw = read_config(&text).unwrap();
    assert_eq!(raw.range_bits, Some(256));
    assert_eq!(raw.data_bytes, Some(8));
    assert_eq!(raw.add_key_batch_size, Some(1000));
    assert_eq!(raw.flp_batch_size, None);
    assert_eq!(raw.unique_buckets, Some(10));
    assert!(raw.has_threshold);
    assert!(raw.has_zipf_exponent);
    assert_eq!(raw.server_0.as_deref(), Some("0.0.0.0:8000"));
    assert_eq!(raw.server_1, None);
    assert_eq!(read_config("{").unwrap_err(), ConfigError::Json);
    let raw = read_config("7").unwrap();
    assert_eq!(raw.range_bits, None);
    assert!(!raw.has_threshold);
}

#[test]
fn only_whole_numbers_that_fit_count_as_whole_numbers() {
    let text = document("").replace("256", "1.5");
    assert_eq!(get_config(&text).unwrap_err(), ConfigError::RangeBits);
    let text = document("").replace("256", "18446744073709551616");
    assert_eq!(get_config(&text).unwrap_err(), ConfigError::RangeBits);
    let text = document("").replace("256", "18446744073709551615");
    assert_eq!(read_config(&text).unwrap().range_bits, Some(u64::MAX));
    assert_eq!(get_config(&text).unwrap().range_bits, u64::MAX as usize);
    let text = document("").replace("0.01", "-3");
    let raw = read_config(&text).unwrap();
    assert!(raw.has_threshold);
    assert_eq!(raw.range_bits, Some(256));
    let text = document("").replace("0.01", "true");
    assert_eq!(get_config(&text).unwrap_err(), ConfigError::Threshold);
}

fn full() -> RawConfig {
    RawConfig {
        range_bits: Some(1),
        data_bytes: Some(2),
        add_key_batch_size: Some(3),
        flp_batch_size: Some(4),
        unique_buckets: Some(5),
        has_threshold: true,
        has_zipf_exponent: true,
        server_0: Some("0.0.0.0:8000".to_string()),
        server_1: Some("0.0.0.0".to_string()),
    }
}

#[test]
fn a_string_that_is_no_address_is_refused() {
    let text = document("").replace("127.0.0.1:8001", "0.0.0.0");
    let raw = read_config(&text).unwrap();
    assert_eq!(raw.server_1.as_deref(), Some("0.0.0.0"));
    assert_eq!(get_config(&text).unwrap_err(), ConfigError::Server1);
    assert_eq!(ConfigError::Server1.message(), "Can't parse server 1 addr");
    let text = document("").replace("0.0.0.0:8000", "localhost");
    assert_eq!(get_config(&text).unwrap_err(), ConfigError::Server0);
    let text = text.replace("127.0.0.1:8001", "");
    assert_eq!(get_config(&text).unwrap_err(), ConfigError::Server0);
}

#[test]
fn check_config_takes_the_verdict_on_the_addresses() {
    assert_eq!(check_config(full(), true, false).unwrap_err(), ConfigError::Server1);
    assert_eq!(check_config(full(), false, true).unwrap_err(), ConfigError::Server0);
    assert_eq!(check_config(full(), false, false).unwrap_err(), ConfigError::Server0);
    let config = check_config(full(), true, true).unwrap();
    assert_eq!(config.server_0, "0.0.0.0:8000");
    assert_eq!(config.server_1, "0.0.0.0");
    let mut raw = full();
    raw.server_1 = None;
    assert_eq!(check_config(raw, true, true).unwrap_err(), ConfigError::Server1);
    let mut raw = full();
    raw.has_zipf_exponent = false;
    assert_eq!(check_config(raw, false, false).unwrap_err(), ConfigError::ZipfExponent);
}

#[test]
fn numerals_are_an_optional_sign_and_digits() {
    assert_eq!(server_id_of(true, Some("+1")), Ok(1));
    assert_eq!(server_id_of(true, Some("-0")), Ok(0));
    assert_eq!(server_id_of(true, Some("007")), Ok(7));
    assert_eq!(server_id_of(true, Some("127")), Ok(127));
    assert_eq!(server_id_of(true, Some("-129")), Err(ArgError::Invalid));
    assert_eq!(server_id_of(true, Some("-")), Err(ArgError::Invalid));
    assert_eq!(server_id_of(true, Some("+")), Err(ArgError::Invalid));
    assert_eq!(server_id_of(true, Some("")), Err(ArgError::Invalid));
    assert_eq!(server_id_of(true, Some(" 1")), Err(ArgError::Invalid));
    assert_eq!(server_id_of(true, Some("1 ")), Err(ArgError::Invalid));
    assert_eq!(server_id_of(true, Some("--1")), Err(ArgError::Invalid));
    assert_eq!(server_id_of(true, Some("1_0")), Err(ArgError::Invalid));
    assert_eq!(server_id_of(true, Some("\u{663}")), Err(ArgError::Invalid));
    assert_eq!(num_clients_of(true, Some("+7")), Ok(7));
    assert_eq!(num_clients_of(true, Some("0000000000000000000000012")), Ok(12));
    assert_eq!(num_clients_of(true, Some("-0")), Err(ArgError::Invalid));
    assert_eq!(num_clients_of(true, Some("+")), Err(ArgError::Invalid));
    assert_eq!(num_clients_of(true, Some("18446744073709551616")), Err(ArgError::Invalid));
    assert_eq!(num_clients_of(true, Some("12a")), Err(ArgError::Invalid));
}
