use dytas::strategy::{
    str_eq, MultiCoreCriterion, PTQNavigationCriterion, ParseError, SchedulerParams, Strategy, TaskSortingCriterion,
};

#[test]
fn criteria_parse_by_variant_name() {
    assert_eq!(PTQNavigationCriterion::from_str("Whole"), Ok(PTQNavigationCriterion::Whole));
    assert_eq!(PTQNavigationCriterion::from_str("Front"), Ok(PTQNavigationCriterion::Front));
    assert_eq!(TaskSortingCriterion::from_str("Khan"), Ok(TaskSortingCriterion::Khan));
    assert_eq!(TaskSortingCriterion::from_str("DFS"), Ok(TaskSortingCriterion::DFS));
    assert_eq!(MultiCoreCriterion::from_str("SkipActiveNodes"), Ok(MultiCoreCriterion::SkipActiveNodes));
    assert_eq!(MultiCoreCriterion::from_str("UseAllCores"), Ok(MultiCoreCriterion::UseAllCores));
}

#[test]
fn unknown_names_are_rejected() {
    assert_eq!(PTQNavigationCriterion::from_str("whole"), Err(ParseError::VariantNotFound));
    assert_eq!(TaskSortingCriterion::from_str("Kahn"), Err(ParseError::VariantNotFound));
    assert_eq!(MultiCoreCriterion::from_str(""), Err(ParseError::VariantNotFound));
}

#[test]
fn criteria_print_their_names() {
    assert_eq!(PTQNavigationCriterion::Front.to_string(), "Front");
    assert_eq!(TaskSortingCriterion::DFS.to_string(), "DFS");
    assert_eq!(MultiCoreCriterion::UseAllCores.to_string(), "UseAllCores");
    for c in PTQNavigationCriterion::iter() {
        assert_eq!(PTQNavigationCriterion::from_str(&c.to_string()), Ok(c));
    }
    for c in TaskSortingCriterion::iter() {
        assert_eq!(TaskSortingCriterion::from_str(&c.to_string()), Ok(c));
    }
    for c in MultiCoreCriterion::iter() {
        assert_eq!(MultiCoreCriterion::from_str(&c.to_string()), Ok(c));
    }
}

#[test]
fn iter_lists_all_variants() {
    assert_eq!(PTQNavigationCriterion::iter(), vec![PTQNavigationCriterion::Whole, PTQNavigationCriterion::Front]);
    assert_eq!(TaskSortingCriterion::iter(), vec![TaskSortingCriterion::Khan, TaskSortingCriterion::DFS]);
    assert_eq!(
        MultiCoreCriterion::iter(),
        vec![MultiCoreCriterion::SkipActiveNodes, MultiCoreCriterion::UseAllCores]
    );
}

#[test]
fn params_get_returns_last_set_value() {
    let mut params = SchedulerParams::new("DynamicTaskSchedulingAlgorithm");
    assert_eq!(params.name(), "DynamicTaskSchedulingAlgorithm");
    assert_eq!(params.get("navigation"), None);
    params.set("navigation", "Front");
    params.set("sorting", "DFS");
    params.set("navigation", "Whole");
    assert_eq!(params.get("navigation"), Some("Whole".to_string()));
    assert_eq!(params.get("sorting"), Some("DFS".to_string()));
    assert_eq!(params.get("multicore"), None);
}

#[test]
fn strategy_from_params() {
    let mut params = SchedulerParams::new("DynamicTaskSchedulingAlgorithm");
    params.set("navigation", "Front");
    params.set("sorting", "DFS");
    params.set("multicore", "UseAllCores");
    let strategy = Strategy::from_params(&params);
    assert_eq!(
        strategy,
        Strategy {
            ptq_navigation_criterion: PTQNavigationCriterion::Front,
            task_sorting_criterion: TaskSortingCriterion::DFS,
            multi_core_criterion: MultiCoreCriterion::UseAllCores,
        }
    );
}

#[test]
fn str_eq_compares_text() {
    assert!(str_eq("abc", "abc"));
    assert!(!str_eq("abc", "abd"));
    assert!(!str_eq("abc", "ab"));
}
