use pixel_transform::error::TransformError;
use pixel_transform::registry::StrategyRegistry;
use pixel_transform::strategy::Strategy;

#[test]
fn default_registry_lists_the_four_strategies() {
    let registry = StrategyRegistry::with_defaults();
    assert_eq!(registry.len(), 4);
    assert_eq!(
        registry.names(),
        vec![
            "OpenCV::convertTo".to_string(),
            "Own (Sequential)".to_string(),
            "Own (Parallel)".to_string(),
            "Own (Parallel Rows)".to_string(),
        ]
    );
    assert_eq!(
        registry.strategies(),
        vec![
            Strategy::Baseline,
            Strategy::Sequential,
            Strategy::FlatParallel,
            Strategy::RowChunkedParallel,
        ]
    );
}

#[test]
fn default_registry_resolves_every_name() {
    let registry = StrategyRegistry::with_defaults();
    assert_eq!(registry.get("OpenCV::convertTo"), Some(Strategy::Baseline));
    assert_eq!(registry.get("Own (Sequential)"), Some(Strategy::Sequential));
    assert_eq!(registry.get("Own (Parallel)"), Some(Strategy::FlatParallel));
    assert_eq!(registry.get("Own (Parallel Rows)"), Some(Strategy::RowChunkedParallel));
    for name in registry.names() {
        assert_eq!(registry.get(&name).map(|s| s.name().to_string()), Some(name));
    }
}

#[test]
fn strategy_names() {
    assert_eq!(Strategy::Baseline.name(), "OpenCV::convertTo");
    assert_eq!(Strategy::Sequential.name(), "Own (Sequential)");
    assert_eq!(Strategy::FlatParallel.name(), "Own (Parallel)");
    assert_eq!(Strategy::RowChunkedParallel.name(), "Own (Parallel Rows)");
}

#[test]
fn lookup_miss_is_not_a_crash() {
    let registry = StrategyRegistry::with_defaults();
    assert_eq!(registry.get("own (sequential)"), None);
    assert_eq!(registry.get(""), None);
    assert_eq!(registry.get("Own (Parallel) "), None);
    assert_eq!(registry.resolve("GPU"), Err(TransformError::StrategyNotFound));
    assert_eq!(registry.resolve("Own (Parallel)"), Ok(Strategy::FlatParallel));
    assert_eq!(StrategyRegistry::new().get("Own (Sequential)"), None);
    assert_eq!(StrategyRegistry::new().len(), 0);
    assert!(StrategyRegistry::new().names().is_empty());
}

#[test]
fn registering_a_name_again_overwrites_it() {
    let mut registry = StrategyRegistry::new();
    registry.register("fast", Strategy::FlatParallel);
    registry.register("plain", Strategy::Sequential);
    registry.register("fast", Strategy::RowChunkedParallel);
    assert_eq!(registry.len(), 2);
    assert_eq!(registry.names(), vec!["fast".to_string(), "plain".to_string()]);
    assert_eq!(registry.get("fast"), Some(Strategy::RowChunkedParallel));
    assert_eq!(registry.get("plain"), Some(Strategy::Sequential));
    registry.register("", Strategy::Baseline);
    assert_eq!(registry.len(), 3);
    assert_eq!(registry.get(""), Some(Strategy::Baseline));
}
