use correlation::conditions::{Builder, ConfigError};

#[test]
fn zero_timeout_is_refused() {
    assert_eq!(Builder::new(0).build().err(), Some(ConfigError::InvalidConfig));
}

#[test]
fn renew_timeout_not_below_timeout_is_refused() {
    assert_eq!(
        Builder::new(100).renew_timeout(100).build().err(),
        Some(ConfigError::InvalidConfig)
    );
    assert_eq!(
        Builder::new(100).renew_timeout(150).build().err(),
        Some(ConfigError::InvalidConfig)
    );
}

#[test]
fn built_conditions_keep_every_field() {
    let c = Builder::new(100)
        .renew_timeout(10)
        .max_size(3)
        .first_opens(true)
        .last_closes(false)
        .patterns(vec!["a".to_string(), "b".to_string()])
        .build()
        .unwrap();
    assert_eq!(c.timeout(), 100);
    assert_eq!(c.renew_timeout(), Some(10));
    assert_eq!(c.max_size(), Some(3));
    assert_eq!(c.first_opens(), Some(true));
    assert_eq!(c.last_closes(), Some(false));
    assert_eq!(c.patterns(), &vec!["a".to_string(), "b".to_string()]);
}

#[test]
fn only_timeout_is_required() {
    let c = Builder::new(1).build().unwrap();
    assert_eq!(c.timeout(), 1);
    assert_eq!(c.renew_timeout(), None);
    assert_eq!(c.max_size(), None);
    assert_eq!(c.first_opens(), None);
    assert_eq!(c.last_closes(), None);
    assert!(c.patterns().is_empty());
}
