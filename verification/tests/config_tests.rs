use todo_tracker::config::{merge, merge_fn, IgnoreMode, RawConfig};

#[test]
fn merge_none() {
    let expected: Option<i32> = None;

    assert_eq!(expected, merge(None, None))
}

#[test]
fn merge_one() {
    assert_eq!(Some(123), merge(Some(123), None));
    assert_eq!(Some(123), merge(None, Some(123)))
}

#[test]
fn merge_local() {
    assert_eq!(Some(123), merge(Some(789), Some(123)))
}

#[test]
fn raw_merge_none() {
    assert_eq!(Some(123), merge_fn(None, None, 123, |_, l| l))
}

#[test]
fn raw_merge_one() {
    let func = |_, l| l;

    assert_eq!(Some(123), merge_fn(Some(123), None, 456, func));
    assert_eq!(Some(123), merge_fn(None, Some(123), 456, func))
}

#[test]
fn merge_both() {
    let func = |_, l| l;

    assert_eq!(Some(123), merge_fn(Some(789), Some(123), 456, func))
}

#[test]
fn merge_empty() {
    assert_eq!(
        RawConfig {
            ignore_mode: Some(IgnoreMode::Blacklist),
            patterns: Some(vec![]),
            keywords: Some(vec!["TODO".to_owned()]),
            ..Default::default()
        },
        RawConfig::merge(Default::default(), Default::default())
    )
}

#[test]
fn merge_priority() {
    let local = RawConfig {
        ignore_mode: Some(IgnoreMode::Whitelist),
        keywords: Some(vec!["TODO".to_string()]),
        patterns: Some(vec![".git".to_string()]),
        ..Default::default()
    };

    let global: RawConfig = RawConfig {
        ignore_mode: Some(IgnoreMode::Blacklist),
        keywords: Some(vec!["FIXME".to_string(), "BUG".to_string()]),
        patterns: Some(vec!["target".to_string()]),
        ..Default::default()
    };

    assert_eq!(
        RawConfig {
            ignore_mode: Some(IgnoreMode::Whitelist),
            patterns: Some(vec![".git".to_string()]),
            keywords: Some(vec!["TODO".to_string()]),
            ..Default::default()
        },
        RawConfig::merge(global, local)
    )
}

#[test]
fn merge_add_patterns() {
    let local = RawConfig {
        ignore_mode: Some(IgnoreMode::Blacklist),
        patterns: Some(vec!["123".to_string(), "456".to_string()]),
        ..Default::default()
    };

    let global = RawConfig {
        ignore_mode: Some(IgnoreMode::Blacklist),
        patterns: Some(vec!["789".to_string()]),
        ..Default::default()
    };

    assert_eq!(
        RawConfig {
            ignore_mode: Some(IgnoreMode::Blacklist),
            patterns: Some(vec![
                "123".to_string(),
                "456".to_string(),
                "789".to_string()
            ]),
            keywords: Some(vec!["TODO".to_string()]),
            ..Default::default()
        },
        RawConfig::merge(global, local)
    )
}
