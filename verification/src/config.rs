//! The configuration of the exporter and the rules that it has to meet.

use crate::codec::{first_index, lemma_first_index};
use crate::openmetrics::{
    is_label_name,
    is_label_start,
    is_metric_name,
    is_name_start,
    is_unit,
    valid_label_name,
    valid_metric_name,
    valid_unit,
    Labels,
    MetricKind,
};
use crate::text::{chars_of, same_text, texts};
use vstd::prelude::*;

verus! {

/// Where the exporter listens for scrapes.
#[derive(Debug)]
pub struct WwwConfig {
    pub bind_address: String,
    pub port: u16,
}

impl WwwConfig {
    /// The address to listen on where none is configured: any address.
    pub fn default_bind_address() -> (address: String)
        ensures
            address@ == "::"@,
    {
        String::from_str("::")
    }

    /// The port to listen on where none is configured.
    pub fn default_port() -> (port: u16)
        ensures
            port == 10014,
    {
        10014
    }
}

/// Where the backend is reached and how the exporter logs in.
#[derive(Debug)]
pub struct RadiatorConfig {
    pub target: String,
    pub mgmt_port: u16,
    pub username: String,
    pub password: String,
}

impl RadiatorConfig {
    /// The address of the backend where none is configured: this host.
    pub fn default_target() -> (address: String)
        ensures
            address@ == "127.0.0.1"@,
    {
        String::from_str("127.0.0.1")
    }
}

/// One sample of a metric: its literal labels and the statistic to read.
#[derive(Debug)]
pub struct SampleConfig {
    pub labels: Labels,
    pub statistic: String,
}

/// One metric: its name and kind, its help and unit, and its samples.
#[derive(Debug)]
pub struct MetricConfig {
    pub metric: String,
    pub kind: MetricKind,
    pub help: Option<String>,
    pub unit: Option<String>,
    pub samples: Vec<SampleConfig>,
}

/// The metrics of one kind of object: the kind, the label that carries the
/// identifier of an object, and the metrics.
#[derive(Debug)]
pub struct PerObjectMetricConfig {
    pub kind: String,
    pub identifier_label: String,
    pub metrics: Vec<MetricConfig>,
}

/// The whole configuration.
#[derive(Debug)]
pub struct Config {
    pub www: WwwConfig,
    pub radiator: RadiatorConfig,
    pub metrics: Vec<MetricConfig>,
    pub per_object_metrics: Vec<PerObjectMetricConfig>,
}

/// What is wrong with one metric of the configuration.
#[derive(Clone, Copy, Debug, PartialEq, Eq, Structural)]
pub enum MetricFault {
    /// An earlier metric has the same name.
    NameNotUnique,
    /// The name is empty.
    NameEmpty,
    /// The name starts with something else than a letter, `_` or `:`.
    NameStart,
    /// The name holds something else than letters, digits, `_` and `:`.
    NameRest,
    /// The unit is empty or holds something else than letters, digits, `_`
    /// and `:`.
    Unit,
    /// The statistic of the sample holds a colon.
    StatisticHasColon { sample: usize },
    /// The label of the sample, counted in the lexical order of the label
    /// names, has an empty name.
    LabelEmpty { sample: usize, label: usize },
    /// The name of the label starts with something else than a letter or
    /// `_`.
    LabelStart { sample: usize, label: usize },
    /// The name of the label holds something else than letters, digits and
    /// `_`.
    LabelRest { sample: usize, label: usize },
}

/// What is wrong with a configuration.
#[derive(Clone, Copy, Debug, PartialEq, Eq, Structural)]
pub enum ConfigError {
    UsernameHasSpace,
    UsernameHasNul,
    PasswordHasSpace,
    PasswordHasNul,
    /// The global metric at `index` is at fault.
    Metric { index: usize, fault: MetricFault },
    /// An earlier group of per-object metrics has the kind of this group.
    KindNotUnique { group: usize },
    /// The metric at `index` of the group `group` is at fault.
    PerObjectMetric { group: usize, index: usize, fault: MetricFault },
}

/// `s` holds the character `c`.
pub open spec fn holds(s: Seq<char>, c: char) -> bool {
    0 <= first_index(s, c) < s.len()
}

/// What is wrong with the label at place `label` of the sample at place
/// `sample`, if anything.
pub open spec fn label_fault(key: Seq<char>, sample: int, label: int) -> Option<MetricFault> {
    if key.len() == 0 {
        Some(MetricFault::LabelEmpty { sample: sample as usize, label: label as usize })
    } else if !is_label_start(key[0]) {
        Some(MetricFault::LabelStart { sample: sample as usize, label: label as usize })
    } else if !is_label_name(key) {
        Some(MetricFault::LabelRest { sample: sample as usize, label: label as usize })
    } else {
        None
    }
}

/// The first fault among the labels from place `from` on.
pub open spec fn labels_fault(labels: Seq<(Seq<char>, String)>, sample: int, from: int) -> Option<
    MetricFault,
>
    decreases labels.len() - from,
{
    if from < 0 || from >= labels.len() {
        None
    } else {
        match label_fault(labels[from].0, sample, from) {
            Some(fault) => Some(fault),
            None => labels_fault(labels, sample, from + 1),
        }
    }
}

/// What is wrong with the sample at place `sample`, if anything: first its
/// statistic, then its labels in the lexical order of their names.
pub open spec fn sample_fault(s: SampleConfig, sample: int) -> Option<MetricFault> {
    if holds(s.statistic@, ':') {
        Some(MetricFault::StatisticHasColon { sample: sample as usize })
    } else {
        labels_fault(s.labels@, sample, 0)
    }
}

/// The first fault among the samples from place `from` on.
pub open spec fn samples_fault(samples: Seq<SampleConfig>, from: int) -> Option<MetricFault>
    decreases samples.len() - from,
{
    if from < 0 || from >= samples.len() {
        None
    } else {
        match sample_fault(samples[from], from) {
            Some(fault) => Some(fault),
            None => samples_fault(samples, from + 1),
        }
    }
}

/// What is wrong with a metric, if anything, given the names `known` of the
/// metrics before it: first its name, then its unit, then its samples.
pub open spec fn metric_fault(m: MetricConfig, known: Seq<Seq<char>>) -> Option<MetricFault> {
    if known.contains(m.metric@) {
        Some(MetricFault::NameNotUnique)
    } else if m.metric@.len() == 0 {
        Some(MetricFault::NameEmpty)
    } else if !is_name_start(m.metric@[0]) {
        Some(MetricFault::NameStart)
    } else if !is_metric_name(m.metric@) {
        Some(MetricFault::NameRest)
    } else if m.unit matches Some(u) && !is_unit(u@) {
        Some(MetricFault::Unit)
    } else {
        samples_fault(m.samples@, 0)
    }
}

/// The names `known` with `name` added, unless it is among them.
pub open spec fn with_name(known: Seq<Seq<char>>, name: Seq<char>) -> Seq<Seq<char>> {
    if known.contains(name) {
        known
    } else {
        known.push(name)
    }
}

/// The first faulty metric from place `from` on, with its fault, given the
/// names `known` of the metrics before.
pub open spec fn metrics_fault(metrics: Seq<MetricConfig>, from: int, known: Seq<Seq<char>>)
    -> Option<(int, MetricFault)>
    decreases metrics.len() - from,
{
    if from < 0 || from >= metrics.len() {
        None
    } else {
        match metric_fault(metrics[from], known) {
            Some(fault) => Some((from, fault)),
            None => metrics_fault(metrics, from + 1, with_name(known, metrics[from].metric@)),
        }
    }
}

/// The names that are known after the metrics from place `from` on, given
/// the names `known` of the metrics before.
pub open spec fn names_after(metrics: Seq<MetricConfig>, from: int, known: Seq<Seq<char>>)
    -> Seq<Seq<char>>
    decreases metrics.len() - from,
{
    if from < 0 || from >= metrics.len() {
        known
    } else {
        names_after(metrics, from + 1, with_name(known, metrics[from].metric@))
    }
}

/// The kinds of the groups before place `upto`.
pub open spec fn kinds_before(groups: Seq<PerObjectMetricConfig>, upto: int) -> Seq<Seq<char>> {
    Seq::new(upto as nat, |i: int| groups[i].kind@)
}

/// The first fault among the groups of per-object metrics from place `from`
/// on, given the names `known` of the metrics before: a group whose kind an
/// earlier group has, or a faulty metric.
pub open spec fn groups_fault(
    groups: Seq<PerObjectMetricConfig>,
    from: int,
    known: Seq<Seq<char>>,
) -> Option<ConfigError>
    decreases groups.len() - from,
{
    if from < 0 || from >= groups.len() {
        None
    } else if kinds_before(groups, from).contains(groups[from].kind@) {
        Some(ConfigError::KindNotUnique { group: from as usize })
    } else {
        match metrics_fault(groups[from].metrics@, 0, known) {
            Some((index, fault)) => Some(
                ConfigError::PerObjectMetric {
                    group: from as usize,
                    index: index as usize,
                    fault,
                },
            ),
            None => groups_fault(groups, from + 1, names_after(groups[from].metrics@, 0, known)),
        }
    }
}

/// What is wrong with a configuration, if anything: first the credentials,
/// which may hold neither a space nor a NUL, then the global metrics, then
/// the groups of per-object metrics. Metric names are unique over all
/// metrics, global and per-object.
pub open spec fn config_fault(c: Config) -> Option<ConfigError> {
    if holds(c.radiator.username@, ' ') {
        Some(ConfigError::UsernameHasSpace)
    } else if holds(c.radiator.username@, '\0') {
        Some(ConfigError::UsernameHasNul)
    } else if holds(c.radiator.password@, ' ') {
        Some(ConfigError::PasswordHasSpace)
    } else if holds(c.radiator.password@, '\0') {
        Some(ConfigError::PasswordHasNul)
    } else {
        match metrics_fault(c.metrics@, 0, Seq::empty()) {
            Some((index, fault)) => Some(ConfigError::Metric { index: index as usize, fault }),
            None => groups_fault(
                c.per_object_metrics@,
                0,
                names_after(c.metrics@, 0, Seq::empty()),
            ),
        }
    }
}

/// Whether `text` holds the character `c`.
pub fn contains_char(text: &str, c: char) -> (r: bool)
    ensures
        r == holds(text@, c),
{
    let chars = chars_of(text);
    let mut i: usize = 0;
    while i < chars.len() && chars[i] != c
        invariant
            i <= chars.len(),
            forall|j: int| 0 <= j < i ==> chars@[j] != c,
        decreases chars.len() - i,
    {
        i += 1;
    }
    proof {
        lemma_first_index(chars@, c, i as int);
    }
    i < chars.len()
}

/// Whether `name` is among `names`.
pub fn knows(names: &Vec<String>, name: &str) -> (r: bool)
    ensures
        r == texts(names@).contains(name@),
{
    let mut i: usize = 0;
    while i < names.len()
        invariant
            i <= names.len(),
            forall|j: int| 0 <= j < i ==> texts(names@)[j] != name@,
        decreases names.len() - i,
    {
        if same_text(names[i].as_str(), name) {
            assert(texts(names@)[i as int] == name@);
            return true;
        }
        i += 1;
    }
    false
}

/// What is wrong with a label name at the given place, if anything.
fn check_label(key: &str, sample: usize, label: usize) -> (r: Option<MetricFault>)
    ensures
        r == label_fault(key@, sample as int, label as int),
{
    let chars = chars_of(key);
    if chars.len() == 0 {
        return Some(MetricFault::LabelEmpty { sample, label });
    }
    let first = chars[0];
    if !(('a' <= first && first <= 'z') || ('A' <= first && first <= 'Z') || first == '_') {
        return Some(MetricFault::LabelStart { sample, label });
    }
    if !valid_label_name(key) {
        return Some(MetricFault::LabelRest { sample, label });
    }
    None
}

/// Checks one metric against the names `known_metrics` of the metrics
/// before it, and adds its name to them. The answer is the first fault of
/// the metric: first its name, then its unit, then its samples.
pub fn check_metric(metric: &MetricConfig, known_metrics: &mut Vec<String>) -> (r: Result<
    (),
    MetricFault,
>)
    ensures
        texts(final(known_metrics)@) == with_name(texts(old(known_metrics)@), metric.metric@),
        match r {
            Ok(_) => metric_fault(*metric, texts(old(known_metrics)@)) is None,
            Err(fault) => metric_fault(*metric, texts(old(known_metrics)@)) == Some(fault),
        },
{
    let ghost known = texts(known_metrics@);
    if knows(known_metrics, metric.metric.as_str()) {
        return Err(MetricFault::NameNotUnique);
    }
    known_metrics.push(metric.metric.clone());
    assert(texts(known_metrics@) =~= known.push(metric.metric@));
    let name = chars_of(metric.metric.as_str());
    if name.len() == 0 {
        return Err(MetricFault::NameEmpty);
    }
    let first = name[0];
    if !(('a' <= first && first <= 'z') || ('A' <= first && first <= 'Z') || first == '_' || first
        == ':') {
        return Err(MetricFault::NameStart);
    }
    if !valid_metric_name(metric.metric.as_str()) {
        return Err(MetricFault::NameRest);
    }
    match &metric.unit {
        Some(unit) => {
            if !valid_unit(unit.as_str()) {
                return Err(MetricFault::Unit);
            }
        },
        None => {},
    }
    let mut j: usize = 0;
    while j < metric.samples.len()
        invariant
            j <= metric.samples.len(),
            samples_fault(metric.samples@, 0) == samples_fault(metric.samples@, j as int),
            metric_fault(*metric, known) == samples_fault(metric.samples@, 0),
            texts(known_metrics@) == with_name(known, metric.metric@),
            known == texts(old(known_metrics)@),
        decreases metric.samples.len() - j,
    {
        let sample = &metric.samples[j];
        if contains_char(sample.statistic.as_str(), ':') {
            return Err(MetricFault::StatisticHasColon { sample: j });
        }
        let mut l: usize = 0;
        while l < sample.labels.len()
            invariant
                l <= sample.labels@.len(),
                j < metric.samples.len(),
                *sample == metric.samples@[j as int],
                labels_fault(sample.labels@, j as int, 0) == labels_fault(
                    sample.labels@,
                    j as int,
                    l as int,
                ),
                sample_fault(*sample, j as int) == labels_fault(sample.labels@, j as int, 0),
                samples_fault(metric.samples@, 0) == samples_fault(metric.samples@, j as int),
                metric_fault(*metric, known) == samples_fault(metric.samples@, 0),
                texts(known_metrics@) == with_name(known, metric.metric@),
                known == texts(old(known_metrics)@),
            decreases sample.labels@.len() - l,
        {
            match check_label(sample.labels.key_at(l).as_str(), j, l) {
                Some(fault) => {
                    return Err(fault);
                },
                None => {},
            }
            l += 1;
        }
        j += 1;
    }
    Ok(())
}

/// Checks the metrics of one list against the names `known` of the metrics
/// before them, and adds their names to them.
fn check_metrics(metrics: &Vec<MetricConfig>, known: &mut Vec<String>) -> (r: Result<
    (),
    (usize, MetricFault),
>)
    ensures
        match r {
            Ok(_) => metrics_fault(metrics@, 0, texts(old(known)@)) is None && texts(
                final(known)@,
            ) == names_after(metrics@, 0, texts(old(known)@)),
            Err((index, fault)) => metrics_fault(metrics@, 0, texts(old(known)@)) == Some(
                (index as int, fault),
            ),
        },
{
    let mut i: usize = 0;
    while i < metrics.len()
        invariant
            i <= metrics.len(),
            metrics_fault(metrics@, 0, texts(old(known)@)) == metrics_fault(
                metrics@,
                i as int,
                texts(known@),
            ),
            names_after(metrics@, 0, texts(old(known)@)) == names_after(
                metrics@,
                i as int,
                texts(known@),
            ),
        decreases metrics.len() - i,
    {
        match check_metric(&metrics[i], known) {
            Ok(_) => {},
            Err(fault) => {
                return Err((i, fault));
            },
        }
        i += 1;
    }
    Ok(())
}

/// Checks a configuration. The answer is its first fault: first the
/// credentials, then the global metrics, then the groups of per-object
/// metrics, each with its kind first and its metrics after.
pub fn check(config: &Config) -> (r: Result<(), ConfigError>)
    ensures
        match r {
            Ok(_) => config_fault(*config) is None,
            Err(e) => config_fault(*config) == Some(e),
        },
{
    if contains_char(config.radiator.username.as_str(), ' ') {
        return Err(ConfigError::UsernameHasSpace);
    }
    if contains_char(config.radiator.username.as_str(), '\0') {
        return Err(ConfigError::UsernameHasNul);
    }
    if contains_char(config.radiator.password.as_str(), ' ') {
        return Err(ConfigError::PasswordHasSpace);
    }
    if contains_char(config.radiator.password.as_str(), '\0') {
        return Err(ConfigError::PasswordHasNul);
    }
    let mut known: Vec<String> = Vec::new();
    assert(texts(known@) =~= Seq::<Seq<char>>::empty());
    match check_metrics(&config.metrics, &mut known) {
        Ok(_) => {},
        Err((index, fault)) => {
            return Err(ConfigError::Metric { index, fault });
        },
    }
    let groups = &config.per_object_metrics;
    let mut kinds: Vec<String> = Vec::new();
    let mut g: usize = 0;
    assert(texts(kinds@) =~= kinds_before(groups@, 0));
    while g < groups.len()
        invariant
            g <= groups.len(),
            *groups == config.per_object_metrics,
            texts(kinds@) == kinds_before(groups@, g as int),
            config_fault(*config) == groups_fault(groups@, g as int, texts(known@)),
        decreases groups.len() - g,
    {
        let group = &groups[g];
        if knows(&kinds, group.kind.as_str()) {
            return Err(ConfigError::KindNotUnique { group: g });
        }
        let ghost before = texts(kinds@);
        kinds.push(group.kind.clone());
        assert(texts(kinds@) =~= kinds_before(groups@, g + 1)) by {
            assert(texts(kinds@) =~= before.push(group.kind@));
        }
        match check_metrics(&group.metrics, &mut known) {
            Ok(_) => {},
            Err((index, fault)) => {
                return Err(ConfigError::PerObjectMetric { group: g, index, fault });
            },
        }
        g += 1;
    }
    Ok(())
}

} // verus!
