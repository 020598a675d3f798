use gamerobotfactory::config::{AppConfig, ConfigError};

#[test]
fn default_config_has_a_sane_persist_interval() {
    assert_eq!(AppConfig::default().persist_every_n_ticks, 20);
}

#[test]
fn update_with_zero_interval_is_refused_and_changes_nothing() {
    let mut config = AppConfig::default();
    let result = config.accept_update(AppConfig { persist_every_n_ticks: 0 });
    assert_eq!(result, Err(ConfigError::ZeroPersistInterval));
    assert_eq!(config.persist_every_n_ticks, 20);
}

#[test]
fn update_with_positive_interval_replaces_the_config() {
    let mut config = AppConfig::default();
    let result = config.accept_update(AppConfig { persist_every_n_ticks: 5 });
    assert_eq!(result, Ok(AppConfig { persist_every_n_ticks: 5 }));
    assert_eq!(config.persist_every_n_ticks, 5);
}

#[test]
fn stats_are_persisted_on_multiples_of_the_interval() {
    let config = AppConfig { persist_every_n_ticks: 20 };
    assert!(config.should_persist(0));
    assert!(config.should_persist(40));
    assert!(!config.should_persist(41));
}
