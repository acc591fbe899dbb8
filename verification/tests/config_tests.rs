use bears::config::{config_path, default_id_length, Config, CONFIG_FILE, DEFAULT_ID_LENGTH, MAX_ID_LENGTH, MIN_ID_LENGTH};
use bears::error::Error;

#[test]
fn test_default_config() {
    let config = Config::default();
    assert_eq!(config.id_length, 4);
}

#[test]
fn test_validate_too_small() {
    let config = Config { id_length: 2 };
    assert!(config.validate().is_err());
}

#[test]
fn test_validate_too_large() {
    let config = Config { id_length: 10 };
    assert!(config.validate().is_err());
}

#[test]
fn test_validate_bounds() {
    Config { id_length: 4 }.validate().unwrap();
    Config { id_length: 8 }.validate().unwrap();
}

#[test]
fn validate_accepts_exactly_three_to_eight() {
    for n in 0u8..=255 {
        let ok = Config { id_length: n }.validate().is_ok();
        assert_eq!(ok, (3..=8).contains(&n), "id length {n}");
    }
}

#[test]
fn validate_reason_names_the_value() {
    match (Config { id_length: 2 }).validate() {
        Err(Error::InvalidConfig { reason }) => {
            assert_eq!(reason, "id-length must be between 3 and 8, got 2");
        }
        _ => panic!("expected InvalidConfig"),
    }
    let err = (Config { id_length: 200 }).validate().unwrap_err();
    assert_eq!(err.to_string(), "invalid config: id-length must be between 3 and 8, got 200");
}

#[test]
fn default_id_length_is_four() {
    assert_eq!(default_id_length(), 4);
    assert_eq!(DEFAULT_ID_LENGTH, 4);
    assert_eq!(MIN_ID_LENGTH, 3);
    assert_eq!(MAX_ID_LENGTH, 8);
}

#[test]
fn config_path_joins_file_name() {
    assert_eq!(config_path("proj"), "proj/.bears.yml");
    assert_eq!(CONFIG_FILE, ".bears.yml");
}
