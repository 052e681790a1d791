use hermit_tableau::blocking_strategy::BlockingStrategyType;
use hermit_tableau::dl_clause_evaluator::CoreVariablePolicy;

#[test]
fn policy_follows_blocking_strategy() {
    assert_eq!(
        CoreVariablePolicy::from_blocking_strategy_type(BlockingStrategyType::SimpleCore),
        CoreVariablePolicy::SimpleCore
    );
    assert_eq!(
        CoreVariablePolicy::from_blocking_strategy_type(BlockingStrategyType::ComplexCore),
        CoreVariablePolicy::ComplexCore
    );
    for strategy in [
        BlockingStrategyType::Optimal,
        BlockingStrategyType::Anywhere,
        BlockingStrategyType::Ancestor,
    ] {
        assert_eq!(
            CoreVariablePolicy::from_blocking_strategy_type(strategy),
            CoreVariablePolicy::AllTrue
        );
    }
}
