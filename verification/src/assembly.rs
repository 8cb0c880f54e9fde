//! The assembly of the registry: the metrics of the configuration, filled
//! with the statistics of the backend and of its objects.

use crate::codec::{stats_view, stats_wf, Stats};
use crate::config::{
    config_fault,
    groups_fault,
    holds,
    labels_fault,
    metric_fault,
    metrics_fault,
    names_after,
    samples_fault,
    with_name,
    Config,
    MetricConfig,
    PerObjectMetricConfig,
    SampleConfig,
};
use crate::openmetrics::{
    is_label_name,
    is_metric_name,
    is_unit,
    labels_fit,
    opt_text,
    tuple_for,
    valid_label_name,
    with_sample,
    Labels,
    Metric,
    MetricDatabase,
    MetricView,
    NumberView,
};
use crate::textmap::{has_key, lemma_one_slot, slot_of, value_of, TextMap};
use vstd::prelude::*;

verus! {

/// One object of the backend: its place in the enumeration of its kind, its
/// identifier and its statistics.
#[derive(Debug)]
pub struct PerObjectStats {
    pub index: usize,
    pub identifier: String,
    pub stats: Stats,
}

/// An object as the assembly sees it.
pub struct ObjectView {
    pub index: int,
    pub identifier: Seq<char>,
    pub stats: Map<Seq<char>, NumberView>,
}

impl View for PerObjectStats {
    type V = ObjectView;

    open spec fn view(&self) -> ObjectView {
        ObjectView {
            index: self.index as int,
            identifier: self.identifier@,
            stats: stats_view(self.stats@),
        }
    }
}

/// The objects of one kind as the assembly sees them.
pub open spec fn object_views(objects: Seq<PerObjectStats>) -> Seq<ObjectView> {
    objects.map_values(|o: PerObjectStats| o@)
}

/// The objects of every kind as the assembly sees them.
pub open spec fn group_views(objects: Seq<Vec<PerObjectStats>>) -> Seq<Seq<ObjectView>> {
    objects.map_values(|group: Vec<PerObjectStats>| object_views(group@))
}

/// The metric `m` with the label `label` after the labels that it has,
/// unless it has that label already.
pub open spec fn with_label(m: MetricView, label: Seq<char>) -> MetricView {
    MetricView {
        label_names: if m.label_names.contains(label) {
            m.label_names
        } else {
            m.label_names.push(label)
        },
        ..m
    }
}

/// The metric `m` with the names of the first `upto` labels of a sample, in
/// the lexical order of the names.
pub open spec fn with_labels_of(m: MetricView, labels: Seq<(Seq<char>, String)>, upto: int)
    -> MetricView
    decreases upto,
{
    if upto <= 0 {
        m
    } else {
        with_label(with_labels_of(m, labels, upto - 1), labels[upto - 1].0)
    }
}

/// The metric `m` with the label names of the first `upto` samples: the
/// order in which the names first appear is the order of the labels.
pub open spec fn with_labels_of_samples(m: MetricView, samples: Seq<SampleConfig>, upto: int)
    -> MetricView
    decreases upto,
{
    if upto <= 0 {
        m
    } else {
        with_labels_of(
            with_labels_of_samples(m, samples, upto - 1),
            samples[upto - 1].labels@,
            samples[upto - 1].labels@.len() as int,
        )
    }
}

/// The metric that a configuration describes, without samples: its name and
/// kind, its unit and help, and the label names of all its samples.
pub open spec fn described(cfg: MetricConfig) -> MetricView {
    with_labels_of_samples(
        MetricView {
            help: opt_text(cfg.help),
            unit: opt_text(cfg.unit),
            ..MetricView::fresh(cfg.metric@, cfg.kind)
        },
        cfg.samples@,
        cfg.samples@.len() as int,
    )
}

/// The metric `m` with the first `upto` samples recorded from the
/// statistics `stats`: a sample whose statistic is absent is passed over.
pub open spec fn recorded(
    m: MetricView,
    samples: Seq<SampleConfig>,
    stats: Map<Seq<char>, NumberView>,
    upto: int,
) -> MetricView
    decreases upto,
{
    if upto <= 0 {
        m
    } else {
        let before = recorded(m, samples, stats, upto - 1);
        let s = samples[upto - 1];
        if stats.contains_key(s.statistic@) {
            MetricView {
                samples: with_sample(
                    before.samples,
                    (tuple_for(before.label_names, s.labels@), stats[s.statistic@]),
                ),
                ..before
            }
        } else {
            before
        }
    }
}

/// The labels `labels` together with the identifier label name exactly the
/// labels `names`.
pub open spec fn merged_fit(
    names: Seq<Seq<char>>,
    labels: Seq<(Seq<char>, String)>,
    identifier_label: Seq<char>,
) -> bool {
    &&& names.contains(identifier_label)
    &&& forall|i: int|
        0 <= i < names.len() ==> (#[trigger] names[i]) == identifier_label || has_key(
            labels,
            names[i],
        )
    &&& forall|j: int| 0 <= j < labels.len() ==> names.contains((#[trigger] labels[j]).0)
}

/// The values of the labels `names` for one object: the identifier for the
/// identifier label, the literal value of the sample for every other label.
pub open spec fn merged_tuple(
    names: Seq<Seq<char>>,
    labels: Seq<(Seq<char>, String)>,
    identifier_label: Seq<char>,
    identifier: Seq<char>,
) -> Seq<Seq<char>> {
    names.map_values(
        |n: Seq<char>|
            if n == identifier_label {
                identifier
            } else {
                value_of(labels, n)@
            },
    )
}

/// The metric `m` with the first `upto` samples recorded for one object.
pub open spec fn recorded_object(
    m: MetricView,
    samples: Seq<SampleConfig>,
    identifier_label: Seq<char>,
    object: ObjectView,
    upto: int,
) -> MetricView
    decreases upto,
{
    if upto <= 0 {
        m
    } else {
        let before = recorded_object(m, samples, identifier_label, object, upto - 1);
        let s = samples[upto - 1];
        let stats = object.stats;
        if stats.contains_key(s.statistic@) {
            MetricView {
                samples: with_sample(
                    before.samples,
                    (
                        merged_tuple(
                            before.label_names,
                            s.labels@,
                            identifier_label,
                            object.identifier,
                        ),
                        stats[s.statistic@],
                    ),
                ),
                ..before
            }
        } else {
            before
        }
    }
}

/// The metric `m` with all samples recorded for the first `upto` objects.
pub open spec fn recorded_objects(
    m: MetricView,
    samples: Seq<SampleConfig>,
    identifier_label: Seq<char>,
    objects: Seq<ObjectView>,
    upto: int,
) -> MetricView
    decreases upto,
{
    if upto <= 0 {
        m
    } else {
        recorded_object(
            recorded_objects(m, samples, identifier_label, objects, upto - 1),
            samples,
            identifier_label,
            objects[upto - 1],
            samples.len() as int,
        )
    }
}

/// The global metric that a configuration describes, filled from the
/// statistics `stats`.
pub open spec fn global_metric(cfg: MetricConfig, stats: Map<Seq<char>, NumberView>)
    -> MetricView {
    recorded(described(cfg), cfg.samples@, stats, cfg.samples@.len() as int)
}

/// The per-object metric that a configuration describes, with the label
/// that carries the identifier, filled from the statistics of the objects.
pub open spec fn object_metric(
    cfg: MetricConfig,
    identifier_label: Seq<char>,
    objects: Seq<ObjectView>,
) -> MetricView {
    recorded_objects(
        with_label(described(cfg), identifier_label),
        cfg.samples@,
        identifier_label,
        objects,
        objects.len() as int,
    )
}

/// The registry after the first `upto` global metrics.
pub open spec fn with_globals(
    metrics: Seq<MetricConfig>,
    stats: Map<Seq<char>, NumberView>,
    upto: int,
) -> Map<Seq<char>, MetricView>
    decreases upto,
{
    if upto <= 0 {
        Map::empty()
    } else {
        with_globals(metrics, stats, upto - 1).insert(
            metrics[upto - 1].metric@,
            global_metric(metrics[upto - 1], stats),
        )
    }
}

/// The registry `db` after the first `upto` metrics of a group.
pub open spec fn with_group(
    db: Map<Seq<char>, MetricView>,
    group: PerObjectMetricConfig,
    objects: Seq<ObjectView>,
    upto: int,
) -> Map<Seq<char>, MetricView>
    decreases upto,
{
    if upto <= 0 {
        db
    } else {
        with_group(db, group, objects, upto - 1).insert(
            group.metrics@[upto - 1].metric@,
            object_metric(group.metrics@[upto - 1], group.identifier_label@, objects),
        )
    }
}

/// The registry `db` after the first `upto` groups of per-object metrics,
/// each with the objects of its kind.
pub open spec fn with_groups(
    db: Map<Seq<char>, MetricView>,
    groups: Seq<PerObjectMetricConfig>,
    objects: Seq<Seq<ObjectView>>,
    upto: int,
) -> Map<Seq<char>, MetricView>
    decreases upto,
{
    if upto <= 0 {
        db
    } else {
        with_group(
            with_groups(db, groups, objects, upto - 1),
            groups[upto - 1],
            objects[upto - 1],
            groups[upto - 1].metrics@.len() as int,
        )
    }
}

/// The registry that a configuration describes, filled from the global
/// statistics and from the statistics of the objects of each kind.
pub open spec fn assembled(
    config: Config,
    stats: Map<Seq<char>, NumberView>,
    objects: Seq<Seq<ObjectView>>,
) -> Map<Seq<char>, MetricView> {
    with_groups(
        with_globals(config.metrics@, stats, config.metrics@.len() as int),
        config.per_object_metrics@,
        objects,
        config.per_object_metrics@.len() as int,
    )
}

/// The label maps of the samples are well formed.
pub open spec fn samples_wf(samples: Seq<SampleConfig>) -> bool {
    forall|j: int| 0 <= j < samples.len() ==> (#[trigger] samples[j]).labels.wf()
}

/// The label maps of the metrics are well formed.
pub open spec fn metrics_wf(metrics: Seq<MetricConfig>) -> bool {
    forall|i: int| 0 <= i < metrics.len() ==> samples_wf((#[trigger] metrics[i]).samples@)
}

/// The label maps of the configuration are well formed.
pub open spec fn config_wf(config: Config) -> bool {
    &&& metrics_wf(config.metrics@)
    &&& forall|g: int|
        0 <= g < config.per_object_metrics@.len() ==> metrics_wf(
            (#[trigger] config.per_object_metrics@[g]).metrics@,
        )
}

/// Every sample of the global metric supplies exactly the labels of the
/// metric.
pub open spec fn metric_suits(cfg: MetricConfig) -> bool {
    forall|j: int|
        0 <= j < cfg.samples@.len() ==> labels_fit(
            described(cfg).label_names,
            (#[trigger] cfg.samples@[j]).labels@,
        )
}

/// The identifier label is a label name, and every sample of the per-object
/// metric supplies, together with it, exactly the labels of the metric.
pub open spec fn object_metric_suits(cfg: MetricConfig, identifier_label: Seq<char>) -> bool {
    &&& is_label_name(identifier_label)
    &&& forall|j: int|
        0 <= j < cfg.samples@.len() ==> merged_fit(
            with_label(described(cfg), identifier_label).label_names,
            (#[trigger] cfg.samples@[j]).labels@,
            identifier_label,
        )
}

/// Every metric of the group suits.
pub open spec fn group_suits(group: PerObjectMetricConfig) -> bool {
    forall|i: int|
        0 <= i < group.metrics@.len() ==> object_metric_suits(
            #[trigger] group.metrics@[i],
            group.identifier_label@,
        )
}

/// Every sample of every metric supplies exactly the labels of its metric:
/// no more, no fewer.
pub open spec fn labels_suit(config: Config) -> bool {
    &&& forall|i: int| 0 <= i < config.metrics@.len() ==> metric_suits(#[trigger] config.metrics@[i])
    &&& forall|g: int|
        0 <= g < config.per_object_metrics@.len() ==> group_suits(
            #[trigger] config.per_object_metrics@[g],
        )
}

/// The statistics of the objects are well formed.
pub open spec fn objects_wf(objects: Seq<PerObjectStats>) -> bool {
    forall|o: int|
        0 <= o < objects.len() ==> (#[trigger] objects[o]).stats.wf() && stats_wf(
            objects[o].stats@,
        )
}

/// A metric is sound where its name, its unit and the label names of its
/// samples follow their grammars.
pub open spec fn metric_sound(cfg: MetricConfig) -> bool {
    &&& is_metric_name(cfg.metric@)
    &&& (cfg.unit matches Some(u) ==> is_unit(u@))
    &&& forall|j: int, l: int|
        0 <= j < cfg.samples@.len() && 0 <= l < cfg.samples@[j].labels@.len() ==> is_label_name(
            (#[trigger] cfg.samples@[j].labels@[l]).0,
        )
}

/// Labels without fault are label names.
proof fn lemma_labels_sound(labels: Seq<(Seq<char>, String)>, sample: int, from: int)
    requires
        0 <= from,
        labels_fault(labels, sample, from) is None,
    ensures
        forall|l: int| from <= l < labels.len() ==> is_label_name((#[trigger] labels[l]).0),
    decreases labels.len() - from,
{
    if from < labels.len() {
        lemma_labels_sound(labels, sample, from + 1);
    }
}

/// Samples without fault have label names for labels.
proof fn lemma_samples_sound(samples: Seq<SampleConfig>, from: int)
    requires
        0 <= from,
        samples_fault(samples, from) is None,
    ensures
        forall|j: int, l: int|
            from <= j < samples.len() && 0 <= l < samples[j].labels@.len() ==> is_label_name(
                (#[trigger] samples[j].labels@[l]).0,
            ),
    decreases samples.len() - from,
{
    if from < samples.len() {
        lemma_samples_sound(samples, from + 1);
        lemma_labels_sound(samples[from].labels@, from, 0);
    }
}

/// A metric without fault is sound, and no metric before it has its name.
pub proof fn lemma_metric_sound(cfg: MetricConfig, known: Seq<Seq<char>>)
    requires
        metric_fault(cfg, known) is None,
    ensures
        metric_sound(cfg),
        !known.contains(cfg.metric@),
{
    lemma_samples_sound(cfg.samples@, 0);
}

/// Registering labels keeps the metric well formed and touches nothing but
/// its label names.
proof fn lemma_with_label(m: MetricView, label: Seq<char>)
    requires
        m.wf(),
        m.samples.len() == 0,
        is_label_name(label),
    ensures
        with_label(m, label).wf(),
        with_label(m, label).samples == m.samples,
        with_label(m, label).name == m.name,
{
    let r = with_label(m, label);
    if !m.label_names.contains(label) {
        assert forall|i: int, j: int|
            0 <= i < r.label_names.len() && 0 <= j < r.label_names.len() && i != j implies r.label_names[i]
            != r.label_names[j] by {
            if i < m.label_names.len() && j < m.label_names.len() {
                assert(m.label_names[i] != m.label_names[j]);
            } else if i < m.label_names.len() {
                assert(m.label_names.contains(m.label_names[i]));
            } else {
                assert(m.label_names.contains(m.label_names[j]));
            }
        }
    }
}

/// Registers the label names of one sample.
fn add_labels(metric: &mut Metric, labels: &Labels)
    requires
        old(metric).wf(),
        old(metric)@.samples.len() == 0,
        forall|l: int| 0 <= l < labels@.len() ==> is_label_name((#[trigger] labels@[l]).0),
    ensures
        final(metric).wf(),
        final(metric)@ == with_labels_of(old(metric)@, labels@, labels@.len() as int),
        final(metric)@.samples.len() == 0,
        final(metric)@.name == old(metric)@.name,
{
    let mut l: usize = 0;
    while l < labels.len()
        invariant
            l <= labels@.len(),
            metric.wf(),
            metric@.samples.len() == 0,
            metric@.name == old(metric)@.name,
            metric@ == with_labels_of(old(metric)@, labels@, l as int),
            forall|k: int| 0 <= k < labels@.len() ==> is_label_name((#[trigger] labels@[k]).0),
        decreases labels@.len() - l,
    {
        proof {
            lemma_with_label(metric@, labels@[l as int].0);
        }
        let key = labels.key_at(l);
        if !metric.has_label(key.as_str()) {
            metric.add_label(key.clone());
        }
        l += 1;
    }
}

/// Gives a new metric its unit, its help and the label names of all its
/// samples.
fn describe(metric: &mut Metric, cfg: &MetricConfig)
    requires
        old(metric)@ == MetricView::fresh(cfg.metric@, cfg.kind),
        metric_sound(*cfg),
    ensures
        final(metric).wf(),
        final(metric)@ == described(*cfg),
        final(metric)@.samples.len() == 0,
        final(metric)@.name == cfg.metric@,
{
    metric.set_unit(cfg.unit.clone());
    metric.set_help(cfg.help.clone());
    assert(metric@ == (MetricView {
        help: opt_text(cfg.help),
        unit: opt_text(cfg.unit),
        ..MetricView::fresh(cfg.metric@, cfg.kind)
    }));
    assert(metric.wf());
    let ghost start = metric@;
    let mut j: usize = 0;
    while j < cfg.samples.len()
        invariant
            j <= cfg.samples.len(),
            metric.wf(),
            metric@.samples.len() == 0,
            metric@.name == cfg.metric@,
            metric@ == with_labels_of_samples(start, cfg.samples@, j as int),
            metric_sound(*cfg),
        decreases cfg.samples.len() - j,
    {
        proof {
            assert forall|l: int| 0 <= l < cfg.samples@[j as int].labels@.len() implies is_label_name(
                (#[trigger] cfg.samples@[j as int].labels@[l]).0,
            ) by {}
        }
        add_labels(metric, &cfg.samples[j].labels);
        j += 1;
    }
}

/// Records the samples of a global metric from the statistics.
fn record_samples(metric: &mut Metric, samples: &Vec<SampleConfig>, statistics: &Stats)
    requires
        old(metric).wf(),
        statistics.wf(),
        stats_wf(statistics@),
        samples_wf(samples@),
        forall|j: int|
            0 <= j < samples@.len() ==> labels_fit(
                old(metric)@.label_names,
                (#[trigger] samples@[j]).labels@,
            ),
    ensures
        final(metric).wf(),
        final(metric)@ == recorded(
            old(metric)@,
            samples@,
            stats_view(statistics@),
            samples@.len() as int,
        ),
        final(metric)@.name == old(metric)@.name,
{
    let mut j: usize = 0;
    while j < samples.len()
        invariant
            j <= samples.len(),
            metric.wf(),
            statistics.wf(),
            stats_wf(statistics@),
            samples_wf(samples@),
            metric@.name == old(metric)@.name,
            metric@.label_names == old(metric)@.label_names,
            forall|k: int|
                0 <= k < samples@.len() ==> labels_fit(
                    old(metric)@.label_names,
                    (#[trigger] samples@[k]).labels@,
                ),
            metric@ == recorded(old(metric)@, samples@, stats_view(statistics@), j as int),
        decreases samples.len() - j,
    {
        let sample = &samples[j];
        assert(sample.labels.wf());
        match statistics.get(sample.statistic.as_str()) {
            Some(value) => {
                proof {
                    let k = slot_of(statistics@, sample.statistic@);
                    assert(statistics@[k].1@.wf());
                }
                metric.add_sample(&sample.labels, value.clone());
            },
            None => {},
        }
        j += 1;
    }
}

/// The labels of a sample together with the identifier of an object under
/// the identifier label, which takes the place of a literal label of that
/// name.
pub fn with_identifier(labels: &Labels, identifier_label: &str, identifier: &str) -> (merged:
    Labels)
    requires
        labels.wf(),
    ensures
        merged.wf(),
        forall|k: Seq<char>|
            has_key(merged@, k) <==> (k == identifier_label@ || has_key(labels@, k)),
        forall|k: Seq<char>|
            has_key(merged@, k) ==> (#[trigger] value_of(merged@, k))@ == if k
                == identifier_label@ {
                identifier@
            } else {
                value_of(labels@, k)@
            },
{
    let mut merged: Labels = TextMap::new();
    let mut i: usize = 0;
    while i < labels.len()
        invariant
            i <= labels@.len(),
            labels.wf(),
            merged.wf(),
            forall|k: Seq<char>|
                merged.map().contains_key(k) <==> exists|j: int|
                    0 <= j < i && (#[trigger] labels@[j]).0 == k,
            forall|j: int|
                0 <= j < i ==> merged.map()[(#[trigger] labels@[j]).0]@ == labels@[j].1@,
        decreases labels@.len() - i,
    {
        let ghost before = merged.map();
        let key = labels.key_at(i).clone();
        let value = labels.value_at(i).clone();
        merged.insert(key, value);
        proof {
            assert forall|k: Seq<char>| merged.map().contains_key(k) implies exists|j: int|
                0 <= j < i + 1 && (#[trigger] labels@[j]).0 == k by {
                if k == labels@[i as int].0 {
                } else {
                    assert(before.contains_key(k));
                    let j = choose|j: int| 0 <= j < i && (#[trigger] labels@[j]).0 == k;
                    assert(labels@[j].0 == k);
                }
            }
            assert forall|j: int| 0 <= j < i + 1 implies merged.map()[(#[trigger] labels@[j]).0]@
                == labels@[j].1@ by {
                if j < i {
                    crate::text::lemma_lex_lt_total(labels@[j].0, labels@[i as int].0);
                    assert(crate::text::lex_lt(labels@[j].0, labels@[i as int].0));
                }
            }
        }
        i += 1;
    }
    let ghost copied = merged.map();
    merged.insert(String::from_str(identifier_label), String::from_str(identifier));
    proof {
        assert forall|k: Seq<char>|
            has_key(merged@, k) <==> (k == identifier_label@ || has_key(labels@, k)) by {
            assert(merged.map().contains_key(k) == has_key(merged@, k));
            if has_key(labels@, k) {
                let j = slot_of(labels@, k);
                assert(labels@[j].0 == k);
                assert(copied.contains_key(k));
            }
            if copied.contains_key(k) {
                let j = choose|j: int| 0 <= j < i && (#[trigger] labels@[j]).0 == k;
                assert(labels@[j].0 == k);
            }
        }
        assert forall|k: Seq<char>| has_key(merged@, k) implies (#[trigger] value_of(merged@, k))@
            == if k == identifier_label@ {
            identifier@
        } else {
            value_of(labels@, k)@
        } by {
            assert(merged.map().contains_key(k));
            assert(merged.map()[k] == value_of(merged@, k));
            if k != identifier_label@ {
                assert(has_key(labels@, k));
                let j = slot_of(labels@, k);
                lemma_one_slot(labels@, j);
                assert(copied[labels@[j].0]@ == labels@[j].1@);
            }
        }
    }
    merged
}

/// Labels that fit together with the identifier label fit once merged
/// with it, and give the merged values.
proof fn lemma_merged(
    names: Seq<Seq<char>>,
    labels: Seq<(Seq<char>, String)>,
    merged: Seq<(Seq<char>, String)>,
    identifier_label: Seq<char>,
    identifier: Seq<char>,
)
    requires
        merged_fit(names, labels, identifier_label),
        forall|k: Seq<char>| has_key(merged, k) <==> (k == identifier_label || has_key(labels, k)),
        forall|k: Seq<char>|
            has_key(merged, k) ==> (#[trigger] value_of(merged, k))@ == if k == identifier_label {
                identifier
            } else {
                value_of(labels, k)@
            },
    ensures
        labels_fit(names, merged),
        tuple_for(names, merged) == merged_tuple(names, labels, identifier_label, identifier),
{
    assert forall|j: int| 0 <= j < merged.len() implies names.contains((#[trigger] merged[j]).0) by {
        let k = merged[j].0;
        assert(has_key(merged, k));
        if k != identifier_label {
            let i = slot_of(labels, k);
            assert(names.contains(labels[i].0));
        }
    }
    assert(tuple_for(names, merged) =~= merged_tuple(
        names,
        labels,
        identifier_label,
        identifier,
    )) by {
        assert forall|i: int| 0 <= i < names.len() implies tuple_for(names, merged)[i]
            == merged_tuple(names, labels, identifier_label, identifier)[i] by {
            assert(has_key(merged, names[i]));
        }
    }
}

/// Records the samples of a per-object metric for one object.
fn record_object(
    metric: &mut Metric,
    samples: &Vec<SampleConfig>,
    identifier_label: &str,
    object: &PerObjectStats,
)
    requires
        old(metric).wf(),
        object.stats.wf(),
        stats_wf(object.stats@),
        samples_wf(samples@),
        forall|j: int|
            0 <= j < samples@.len() ==> merged_fit(
                old(metric)@.label_names,
                (#[trigger] samples@[j]).labels@,
                identifier_label@,
            ),
    ensures
        final(metric).wf(),
        final(metric)@ == recorded_object(
            old(metric)@,
            samples@,
            identifier_label@,
            object@,
            samples@.len() as int,
        ),
        final(metric)@.name == old(metric)@.name,
        final(metric)@.label_names == old(metric)@.label_names,
{
    let mut j: usize = 0;
    while j < samples.len()
        invariant
            j <= samples.len(),
            metric.wf(),
            object.stats.wf(),
            stats_wf(object.stats@),
            samples_wf(samples@),
            metric@.name == old(metric)@.name,
            metric@.label_names == old(metric)@.label_names,
            forall|k: int|
                0 <= k < samples@.len() ==> merged_fit(
                    old(metric)@.label_names,
                    (#[trigger] samples@[k]).labels@,
                    identifier_label@,
                ),
            metric@ == recorded_object(
                old(metric)@,
                samples@,
                identifier_label@,
                object@,
                j as int,
            ),
        decreases samples.len() - j,
    {
        let sample = &samples[j];
        assert(sample.labels.wf());
        let merged = with_identifier(&sample.labels, identifier_label, object.identifier.as_str());
        proof {
            lemma_merged(
                metric@.label_names,
                sample.labels@,
                merged@,
                identifier_label@,
                object.identifier@,
            );
        }
        match object.stats.get(sample.statistic.as_str()) {
            Some(value) => {
                proof {
                    let k = slot_of(object.stats@, sample.statistic@);
                    assert(object.stats@[k].1@.wf());
                }
                metric.add_sample(&merged, value.clone());
            },
            None => {},
        }
        j += 1;
    }
}

/// Records the samples of a per-object metric for every object of its kind.
fn record_objects(
    metric: &mut Metric,
    samples: &Vec<SampleConfig>,
    identifier_label: &str,
    objects: &Vec<PerObjectStats>,
)
    requires
        old(metric).wf(),
        objects_wf(objects@),
        samples_wf(samples@),
        forall|j: int|
            0 <= j < samples@.len() ==> merged_fit(
                old(metric)@.label_names,
                (#[trigger] samples@[j]).labels@,
                identifier_label@,
            ),
    ensures
        final(metric).wf(),
        final(metric)@ == recorded_objects(
            old(metric)@,
            samples@,
            identifier_label@,
            object_views(objects@),
            objects@.len() as int,
        ),
        final(metric)@.name == old(metric)@.name,
{
    let mut o: usize = 0;
    while o < objects.len()
        invariant
            o <= objects.len(),
            metric.wf(),
            objects_wf(objects@),
            samples_wf(samples@),
            metric@.name == old(metric)@.name,
            metric@.label_names == old(metric)@.label_names,
            forall|k: int|
                0 <= k < samples@.len() ==> merged_fit(
                    old(metric)@.label_names,
                    (#[trigger] samples@[k]).labels@,
                    identifier_label@,
                ),
            metric@ == recorded_objects(
                old(metric)@,
                samples@,
                identifier_label@,
                object_views(objects@),
                o as int,
            ),
        decreases objects.len() - o,
    {
        assert(objects@[o as int].stats.wf());
        record_object(metric, samples, identifier_label, &objects[o]);
        o += 1;
    }
}

/// Metrics without fault are sound.
pub proof fn lemma_metrics_sound(metrics: Seq<MetricConfig>, from: int, known: Seq<Seq<char>>)
    requires
        0 <= from,
        metrics_fault(metrics, from, known) is None,
    ensures
        forall|i: int| from <= i < metrics.len() ==> metric_sound(#[trigger] metrics[i]),
    decreases metrics.len() - from,
{
    if from < metrics.len() {
        lemma_metric_sound(metrics[from], known);
        lemma_metrics_sound(metrics, from + 1, with_name(known, metrics[from].metric@));
    }
}

/// The metrics of groups without fault are sound.
pub proof fn lemma_groups_sound(
    groups: Seq<PerObjectMetricConfig>,
    from: int,
    known: Seq<Seq<char>>,
)
    requires
        0 <= from,
        groups_fault(groups, from, known) is None,
    ensures
        forall|g: int, i: int|
            from <= g < groups.len() && 0 <= i < groups[g].metrics@.len() ==> metric_sound(
                #[trigger] groups[g].metrics@[i],
            ),
    decreases groups.len() - from,
{
    if from < groups.len() {
        lemma_metrics_sound(groups[from].metrics@, 0, known);
        lemma_groups_sound(groups, from + 1, names_after(groups[from].metrics@, 0, known));
    }
}

/// Labels that fit once merged with the identifier label fit together with
/// it.
proof fn lemma_unmerged(
    names: Seq<Seq<char>>,
    labels: Seq<(Seq<char>, String)>,
    merged: Seq<(Seq<char>, String)>,
    identifier_label: Seq<char>,
)
    requires
        labels_fit(names, merged),
        forall|k: Seq<char>| has_key(merged, k) <==> (k == identifier_label || has_key(labels, k)),
    ensures
        merged_fit(names, labels, identifier_label),
{
    assert(names.contains(identifier_label)) by {
        assert(has_key(merged, identifier_label));
        let j = slot_of(merged, identifier_label);
        assert(names.contains(merged[j].0));
    }
    assert forall|j: int| 0 <= j < labels.len() implies names.contains((#[trigger] labels[j]).0) by {
        let k = labels[j].0;
        assert(has_key(labels, k));
        assert(has_key(merged, k));
        let i = slot_of(merged, k);
        assert(names.contains(merged[i].0));
    }
}

/// Whether every sample of the metric supplies exactly the labels of the
/// metric, together with the identifier label where there is one.
fn metric_labels_suit(cfg: &MetricConfig, identifier_label: Option<&String>) -> (r: bool)
    requires
        metric_sound(*cfg),
        samples_wf(cfg.samples@),
    ensures
        r == match identifier_label {
            Some(label) => object_metric_suits(*cfg, label@),
            None => metric_suits(*cfg),
        },
{
    let mut scratch = Metric::new(cfg.metric.clone(), cfg.kind);
    describe(&mut scratch, cfg);
    match identifier_label {
        Some(label) => {
            if !valid_label_name(label.as_str()) {
                return false;
            }
            scratch.add_label(label.clone());
            let mut j: usize = 0;
            while j < cfg.samples.len()
                invariant
                    j <= cfg.samples.len(),
                    samples_wf(cfg.samples@),
                    identifier_label == Some(label),
                    is_label_name(label@),
                    scratch@.label_names == with_label(described(*cfg), label@).label_names,
                    forall|k: int|
                        0 <= k < j ==> merged_fit(
                            scratch@.label_names,
                            (#[trigger] cfg.samples@[k]).labels@,
                            label@,
                        ),
                decreases cfg.samples.len() - j,
            {
                let sample = &cfg.samples[j];
                assert(sample.labels.wf());
                let merged = with_identifier(&sample.labels, label.as_str(), "");
                let fits = scratch.accepts(&merged);
                proof {
                    if fits {
                        lemma_unmerged(scratch@.label_names, sample.labels@, merged@, label@);
                    } else if merged_fit(scratch@.label_names, sample.labels@, label@) {
                        lemma_merged(
                            scratch@.label_names,
                            sample.labels@,
                            merged@,
                            label@,
                            ""@,
                        );
                    }
                }
                if !fits {
                    assert(!merged_fit(
                        with_label(described(*cfg), label@).label_names,
                        cfg.samples@[j as int].labels@,
                        label@,
                    ));
                    return false;
                }
                j += 1;
            }
            true
        },
        None => {
            let mut j: usize = 0;
            while j < cfg.samples.len()
                invariant
                    j <= cfg.samples.len(),
                    samples_wf(cfg.samples@),
                    identifier_label is None,
                    scratch@ == described(*cfg),
                    forall|k: int|
                        0 <= k < j ==> labels_fit(
                            scratch@.label_names,
                            (#[trigger] cfg.samples@[k]).labels@,
                        ),
                decreases cfg.samples.len() - j,
            {
                let sample = &cfg.samples[j];
                assert(sample.labels.wf());
                if !scratch.accepts(&sample.labels) {
                    assert(!labels_fit(
                        described(*cfg).label_names,
                        cfg.samples@[j as int].labels@,
                    ));
                    return false;
                }
                j += 1;
            }
            true
        },
    }
}

/// Whether every sample of every metric supplies exactly the labels of its
/// metric, and every identifier label is a label name. A registry can be
/// assembled from a checked configuration for which this holds.
pub fn check_labels(config: &Config) -> (r: bool)
    requires
        config_fault(*config) is None,
        config_wf(*config),
    ensures
        r == labels_suit(*config),
{
    proof {
        lemma_metrics_sound(config.metrics@, 0, Seq::empty());
        lemma_groups_sound(
            config.per_object_metrics@,
            0,
            names_after(config.metrics@, 0, Seq::empty()),
        );
    }
    let mut i: usize = 0;
    while i < config.metrics.len()
        invariant
            i <= config.metrics.len(),
            config_wf(*config),
            forall|k: int|
                0 <= k < config.metrics@.len() ==> metric_sound(#[trigger] config.metrics@[k]),
            forall|k: int| 0 <= k < i ==> metric_suits(#[trigger] config.metrics@[k]),
        decreases config.metrics.len() - i,
    {
        assert(samples_wf(config.metrics@[i as int].samples@));
        if !metric_labels_suit(&config.metrics[i], None) {
            return false;
        }
        i += 1;
    }
    let mut g: usize = 0;
    while g < config.per_object_metrics.len()
        invariant
            g <= config.per_object_metrics.len(),
            config_wf(*config),
            forall|k: int| 0 <= k < config.metrics@.len() ==> metric_suits(#[trigger] config.metrics@[k]),
            forall|h: int, k: int|
                0 <= h < config.per_object_metrics@.len() && 0 <= k
                    < config.per_object_metrics@[h].metrics@.len() ==> metric_sound(
                    #[trigger] config.per_object_metrics@[h].metrics@[k],
                ),
            forall|h: int| 0 <= h < g ==> group_suits(#[trigger] config.per_object_metrics@[h]),
        decreases config.per_object_metrics.len() - g,
    {
        let group = &config.per_object_metrics[g];
        let mut k: usize = 0;
        while k < group.metrics.len()
            invariant
                k <= group.metrics.len(),
                g < config.per_object_metrics.len(),
                *group == config.per_object_metrics@[g as int],
                metrics_wf(group.metrics@),
                forall|n: int|
                    0 <= n < group.metrics@.len() ==> metric_sound(#[trigger] group.metrics@[n]),
                forall|n: int|
                    0 <= n < k ==> object_metric_suits(
                        #[trigger] group.metrics@[n],
                        group.identifier_label@,
                    ),
            decreases group.metrics.len() - k,
        {
            assert(samples_wf(group.metrics@[k as int].samples@));
            if !metric_labels_suit(&group.metrics[k], Some(&group.identifier_label)) {
                assert(!group_suits(config.per_object_metrics@[g as int]));
                return false;
            }
            k += 1;
        }
        g += 1;
    }
    true
}

/// Assembles the registry of one scrape: each global metric of the
/// configuration with the samples whose statistics the backend gave, and
/// each per-object metric with the samples of every object of its kind,
/// under the identifier of the object. `objects` holds the objects of each
/// group of per-object metrics, in the order of the groups.
pub fn assemble(config: &Config, statistics: &Stats, objects: &Vec<Vec<PerObjectStats>>) -> (db:
    MetricDatabase)
    requires
        config_fault(*config) is None,
        config_wf(*config),
        labels_suit(*config),
        statistics.wf(),
        stats_wf(statistics@),
        objects@.len() == config.per_object_metrics@.len(),
        forall|g: int| 0 <= g < objects@.len() ==> objects_wf((#[trigger] objects@[g])@),
    ensures
        db.wf(),
        db.map() == assembled(*config, stats_view(statistics@), group_views(objects@)),
{
    let mut db = MetricDatabase::new();
    let ghost stats = stats_view(statistics@);
    let ghost mut known: Seq<Seq<char>> = Seq::empty();
    let metrics = &config.metrics;
    let mut i: usize = 0;
    assert(db.map() =~= with_globals(metrics@, stats, 0));
    while i < metrics.len()
        invariant
            i <= metrics.len(),
            *metrics == config.metrics,
            config_wf(*config),
            labels_suit(*config),
            statistics.wf(),
            stats_wf(statistics@),
            stats == stats_view(statistics@),
            db.wf(),
            db.map() == with_globals(metrics@, stats, i as int),
            forall|k: Seq<char>| db.map().contains_key(k) <==> known.contains(k),
            metrics_fault(metrics@, i as int, known) is None,
            names_after(metrics@, 0, Seq::empty()) == names_after(metrics@, i as int, known),
        decreases metrics.len() - i,
    {
        let cfg = &metrics[i];
        let ghost before = db.map();
        proof {
            lemma_metric_sound(*cfg, known);
            assert(metric_suits(config.metrics@[i as int]));
            assert(samples_wf(config.metrics@[i as int].samples@));
        }
        let metric = db.get_or_insert(cfg.metric.as_str(), cfg.kind);
        describe(metric, cfg);
        record_samples(metric, &cfg.samples, statistics);
        proof {
            assert(db.map() == before.insert(cfg.metric@, global_metric(*cfg, stats)));
            let grown = known.push(cfg.metric@);
            assert forall|k: Seq<char>| db.map().contains_key(k) <==> grown.contains(k) by {
                if k == cfg.metric@ {
                    assert(grown[known.len() as int] == k);
                } else {
                    if known.contains(k) {
                        let j = choose|j: int| 0 <= j < known.len() && known[j] == k;
                        assert(grown[j] == k);
                    }
                    if grown.contains(k) {
                        let j = choose|j: int| 0 <= j < grown.len() && grown[j] == k;
                        assert(known[j] == k);
                    }
                }
            }
            known = grown;
        }
        i += 1;
    }
    let groups = &config.per_object_metrics;
    let ghost globals = db.map();
    let mut g: usize = 0;
    assert(db.map() =~= with_groups(globals, groups@, group_views(objects@), 0));
    while g < groups.len()
        invariant
            g <= groups.len(),
            *groups == config.per_object_metrics,
            objects@.len() == groups@.len(),
            forall|h: int| 0 <= h < objects@.len() ==> objects_wf((#[trigger] objects@[h])@),
            config_wf(*config),
            labels_suit(*config),
            db.wf(),
            db.map() == with_groups(globals, groups@, group_views(objects@), g as int),
            forall|k: Seq<char>| db.map().contains_key(k) <==> known.contains(k),
            groups_fault(groups@, g as int, known) is None,
        decreases groups.len() - g,
    {
        let group = &groups[g];
        let found = &objects[g];
        let ghost start = db.map();
        let ghost known_start = known;
        let mut k: usize = 0;
        proof {
            assert(group_suits(config.per_object_metrics@[g as int]));
            assert(metrics_wf(config.per_object_metrics@[g as int].metrics@));
            assert(objects_wf(objects@[g as int]@));
        }
        assert(db.map() =~= with_group(start, *group, object_views(found@), 0));
        while k < group.metrics.len()
            invariant
                k <= group.metrics.len(),
                group_suits(*group),
                metrics_wf(group.metrics@),
                objects_wf(found@),
                db.wf(),
                *found == objects@[g as int],
                db.map() == with_group(start, *group, object_views(found@), k as int),
                forall|n: Seq<char>| db.map().contains_key(n) <==> known.contains(n),
                metrics_fault(group.metrics@, k as int, known) is None,
                names_after(group.metrics@, 0, known_start) == names_after(
                    group.metrics@,
                    k as int,
                    known,
                ),
            decreases group.metrics.len() - k,
        {
            let cfg = &group.metrics[k];
            let ghost before = db.map();
            proof {
                lemma_metric_sound(*cfg, known);
                assert(object_metric_suits(group.metrics@[k as int], group.identifier_label@));
                assert(samples_wf(group.metrics@[k as int].samples@));
            }
            let metric = db.get_or_insert(cfg.metric.as_str(), cfg.kind);
            describe(metric, cfg);
            metric.add_label(group.identifier_label.clone());
            record_objects(metric, &cfg.samples, group.identifier_label.as_str(), found);
            proof {
                assert(db.map() == before.insert(
                    cfg.metric@,
                    object_metric(*cfg, group.identifier_label@, object_views(found@)),
                ));
                let grown = known.push(cfg.metric@);
                assert forall|n: Seq<char>| db.map().contains_key(n) <==> grown.contains(n) by {
                    if n == cfg.metric@ {
                        assert(grown[known.len() as int] == n);
                    } else {
                        if known.contains(n) {
                            let j = choose|j: int| 0 <= j < known.len() && known[j] == n;
                            assert(grown[j] == n);
                        }
                        if grown.contains(n) {
                            let j = choose|j: int| 0 <= j < grown.len() && grown[j] == n;
                            assert(known[j] == n);
                        }
                    }
                }
                known = grown;
            }
            k += 1;
        }
        g += 1;
    }
    db
}

} // verus!
