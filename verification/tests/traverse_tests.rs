use scout::format::OutputFormat;
use scout::traverse::{estimate_strategy, strategy_for, Strategy, MAX_DEPTH};
use scout::types::TraversalConfig;

fn config(respect_ignore_rules: bool) -> TraversalConfig {
    TraversalConfig {
        root: String::from("."),
        respect_ignore_rules,
        include_hidden: true,
        exclude_substrings: Vec::new(),
        result_limit: 100,
        output_format: OutputFormat::Toon,
        streaming: false,
    }
}

#[test]
fn ignore_rules_need_the_ignore_aware_walk() {
    assert_eq!(strategy_for(&config(true)), Strategy::IgnoreAware);
    assert_eq!(strategy_for(&config(false)), Strategy::FlatParallel);
}

#[test]
fn the_estimator_walks_in_order() {
    assert_eq!(estimate_strategy(), Strategy::Sequential);
    assert!(estimate_strategy().is_ordered());
}

#[test]
fn only_the_parallel_walk_is_unordered() {
    assert!(Strategy::IgnoreAware.is_ordered());
    assert!(Strategy::Sequential.is_ordered());
    assert!(!Strategy::FlatParallel.is_ordered());
}

#[test]
fn the_depth_ceiling_is_generous() {
    assert_eq!(MAX_DEPTH, 100);
}
