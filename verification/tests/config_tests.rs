use prometheus_radiator_exporter::assembly::check_labels;
use prometheus_radiator_exporter::config::{
    check, check_metric, contains_char, knows, Config, ConfigError, MetricConfig, MetricFault,
    PerObjectMetricConfig, RadiatorConfig, SampleConfig, WwwConfig,
};
use prometheus_radiator_exporter::openmetrics::{Labels, MetricKind};

fn config_labels(pairs: &[(&str, &str)]) -> Labels {
    let mut map = Labels::new();
    for (key, value) in pairs {
        map.insert(key.to_string(), value.to_string());
    }
    map
}

fn sample(statistic: &str, pairs: &[(&str, &str)]) -> SampleConfig {
    SampleConfig { labels: config_labels(pairs), statistic: statistic.to_string() }
}

fn metric(name: &str, samples: Vec<SampleConfig>) -> MetricConfig {
    MetricConfig {
        metric: name.to_string(),
        kind: MetricKind::Gauge,
        help: None,
        unit: None,
        samples,
    }
}

fn config(metrics: Vec<MetricConfig>, groups: Vec<PerObjectMetricConfig>) -> Config {
    Config {
        www: WwwConfig { bind_address: WwwConfig::default_bind_address(), port: WwwConfig::default_port() },
        radiator: RadiatorConfig {
            target: RadiatorConfig::default_target(),
            mgmt_port: 9048,
            username: "mikem".to_string(),
            password: "fred".to_string(),
        },
        metrics,
        per_object_metrics: groups,
    }
}

fn group(kind: &str, label: &str, metrics: Vec<MetricConfig>) -> PerObjectMetricConfig {
    PerObjectMetricConfig {
        kind: kind.to_string(),
        identifier_label: label.to_string(),
        metrics,
    }
}

#[test]
fn defaults() {
    assert_eq!(WwwConfig::default_bind_address(), "::");
    assert_eq!(WwwConfig::default_port(), 10014);
    assert_eq!(RadiatorConfig::default_target(), "127.0.0.1");
}

#[test]
fn sound_configuration_passes() {
    let c = config(
        vec![
            metric("a", vec![sample("A", &[("l", "1")]), sample("B", &[("l", "2")])]),
            metric("_b:9", vec![]),
        ],
        vec![
            group("Port", "port", vec![metric("c", vec![sample("C", &[])])]),
            group("Session", "id", vec![metric("d", vec![sample("D", &[("x", "y")])])]),
        ],
    );
    assert_eq!(check(&c), Ok(()));
    assert!(check_labels(&c));
}

#[test]
fn empty_configuration_passes() {
    let c = config(vec![], vec![]);
    assert_eq!(check(&c), Ok(()));
    assert!(check_labels(&c));
}

#[test]
fn credentials_hold_neither_space_nor_nul() {
    let mut c = config(vec![], vec![]);
    c.radiator.username = "a b".to_string();
    assert_eq!(check(&c), Err(ConfigError::UsernameHasSpace));
    c.radiator.username = "a\0b".to_string();
    assert_eq!(check(&c), Err(ConfigError::UsernameHasNul));
    c.radiator.username = "a\0 b".to_string();
    assert_eq!(check(&c), Err(ConfigError::UsernameHasSpace));
    c.radiator.username = "ab".to_string();
    c.radiator.password = " ".to_string();
    assert_eq!(check(&c), Err(ConfigError::PasswordHasSpace));
    c.radiator.password = "\0".to_string();
    assert_eq!(check(&c), Err(ConfigError::PasswordHasNul));
    c.radiator.password = String::new();
    assert_eq!(check(&c), Ok(()));
}

#[test]
fn metric_names_are_unique_over_all_metrics() {
    let c = config(vec![metric("a", vec![]), metric("b", vec![]), metric("a", vec![])], vec![]);
    assert_eq!(
        check(&c),
        Err(ConfigError::Metric { index: 2, fault: MetricFault::NameNotUnique })
    );
    let c = config(
        vec![metric("a", vec![])],
        vec![
            group("Port", "p", vec![metric("b", vec![])]),
            group("Line", "p", vec![metric("c", vec![]), metric("a", vec![])]),
        ],
    );
    assert_eq!(
        check(&c),
        Err(ConfigError::PerObjectMetric { group: 1, index: 1, fault: MetricFault::NameNotUnique })
    );
    let c = config(
        vec![],
        vec![
            group("Port", "p", vec![metric("b", vec![])]),
            group("Line", "p", vec![metric("b", vec![])]),
        ],
    );
    assert_eq!(
        check(&c),
        Err(ConfigError::PerObjectMetric { group: 1, index: 0, fault: MetricFault::NameNotUnique })
    );
}

#[test]
fn kinds_are_unique() {
    let c = config(
        vec![],
        vec![group("Port", "p", vec![]), group("Line", "p", vec![]), group("Port", "q", vec![metric("1", vec![])])],
    );
    assert_eq!(check(&c), Err(ConfigError::KindNotUnique { group: 2 }));
}

#[test]
fn metric_names_follow_their_grammar() {
    let fault = |name: &str| check(&config(vec![metric("ok", vec![]), metric(name, vec![])], vec![]));
    assert_eq!(fault(""), Err(ConfigError::Metric { index: 1, fault: MetricFault::NameEmpty }));
    assert_eq!(fault("1a"), Err(ConfigError::Metric { index: 1, fault: MetricFault::NameStart }));
    assert_eq!(fault("-"), Err(ConfigError::Metric { index: 1, fault: MetricFault::NameStart }));
    assert_eq!(fault("a-b"), Err(ConfigError::Metric { index: 1, fault: MetricFault::NameRest }));
    assert_eq!(fault("aé"), Err(ConfigError::Metric { index: 1, fault: MetricFault::NameRest }));
    assert_eq!(fault("_a"), Ok(()));
    assert_eq!(fault(":a"), Ok(()));
    assert_eq!(fault("a:b_9"), Ok(()));
}

#[test]
fn units_follow_their_grammar() {
    let with_unit = |unit: Option<&str>| {
        let mut m = metric("a", vec![]);
        m.unit = unit.map(|u| u.to_string());
        check(&config(vec![m], vec![]))
    };
    assert_eq!(with_unit(None), Ok(()));
    assert_eq!(with_unit(Some("seconds")), Ok(()));
    assert_eq!(with_unit(Some("a b")), Err(ConfigError::Metric { index: 0, fault: MetricFault::Unit }));
    assert_eq!(with_unit(Some("")), Err(ConfigError::Metric { index: 0, fault: MetricFault::Unit }));
}

#[test]
fn statistics_hold_no_colon() {
    let c = config(vec![metric("a", vec![sample("ok", &[]), sample("a:b", &[("", "x")])])], vec![]);
    assert_eq!(
        check(&c),
        Err(ConfigError::Metric { index: 0, fault: MetricFault::StatisticHasColon { sample: 1 } })
    );
}

#[test]
fn label_names_follow_their_grammar() {
    let fault = |pairs: &[(&str, &str)]| {
        check(&config(vec![metric("a", vec![sample("s", &[]), sample("s", pairs)])], vec![]))
    };
    assert_eq!(
        fault(&[("", "x"), ("ok", "y")]),
        Err(ConfigError::Metric { index: 0, fault: MetricFault::LabelEmpty { sample: 1, label: 0 } })
    );
    assert_eq!(
        fault(&[("ok", "x"), ("9", "y")]),
        Err(ConfigError::Metric { index: 0, fault: MetricFault::LabelStart { sample: 1, label: 0 } })
    );
    assert_eq!(
        fault(&[("a", "x"), ("b:c", "y"), ("c", "")]),
        Err(ConfigError::Metric { index: 0, fault: MetricFault::LabelRest { sample: 1, label: 1 } })
    );
    assert_eq!(fault(&[("_a9", "any \"value\"\n")]), Ok(()));
}

#[test]
fn first_fault_of_a_metric_counts() {
    let mut known = vec!["taken".to_string()];
    let mut m = metric("1", vec![sample("a:b", &[("", "")])]);
    m.unit = Some(String::new());
    assert_eq!(check_metric(&m, &mut known), Err(MetricFault::NameStart));
    assert_eq!(known, vec!["taken", "1"]);
    m.metric = "taken".to_string();
    assert_eq!(check_metric(&m, &mut known), Err(MetricFault::NameNotUnique));
    assert_eq!(known, vec!["taken", "1"]);
    m.metric = "fine".to_string();
    assert_eq!(check_metric(&m, &mut known), Err(MetricFault::Unit));
    m.unit = None;
    m.metric = "fine2".to_string();
    assert_eq!(check_metric(&m, &mut known), Err(MetricFault::StatisticHasColon { sample: 0 }));
    assert_eq!(known, vec!["taken", "1", "fine", "fine2"]);
    let ok = metric("good", vec![sample("s", &[("l", "v")])]);
    assert_eq!(check_metric(&ok, &mut known), Ok(()));
    assert!(knows(&known, "good"));
    assert!(!knows(&known, "goo"));
}

#[test]
fn characters_in_a_text() {
    assert!(contains_char("a b", ' '));
    assert!(!contains_char("ab", ' '));
    assert!(!contains_char("", ' '));
    assert!(contains_char("é\0", '\0'));
}

#[test]
fn samples_must_supply_the_labels_of_their_metric() {
    let c = config(vec![metric("a", vec![sample("A", &[("l", "1")]), sample("B", &[("m", "2")])])], vec![]);
    assert_eq!(check(&c), Ok(()));
    assert!(!check_labels(&c));
    let c = config(vec![metric("a", vec![sample("A", &[("l", "1")]), sample("B", &[])])], vec![]);
    assert!(!check_labels(&c));
    let c = config(
        vec![],
        vec![group("Port", "port", vec![metric("a", vec![sample("A", &[("l", "1")]), sample("B", &[("port", "x"), ("l", "2")])])])],
    );
    assert_eq!(check(&c), Ok(()));
    assert!(check_labels(&c));
    let c = config(
        vec![],
        vec![group("Port", "port", vec![metric("a", vec![sample("A", &[("l", "1")]), sample("B", &[])])])],
    );
    assert!(!check_labels(&c));
}

#[test]
fn identifier_labels_are_label_names() {
    for label in ["", "9", "a:b", "a b"] {
        let c = config(vec![], vec![group("Port", label, vec![metric("a", vec![])])]);
        assert_eq!(check(&c), Ok(()));
        assert!(!check_labels(&c), "{:?}", label);
    }
    let c = config(vec![], vec![group("Port", "bad label", vec![])]);
    assert!(check_labels(&c));
}
