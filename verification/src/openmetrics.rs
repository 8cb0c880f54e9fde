//! The registry of metrics and its text rendering.

use crate::notation::{integer_text, is_digit, is_float_literal, parse_integer, push_integer};
use crate::text::{
    lemma_tuple_lt_transitive,
    lemma_tuple_mirror,
    lemma_tuple_same,
    same_text,
    texts,
    tuple_lt,
    tuple_position,
    tuple_position_of,
    Position,
};
use crate::textmap::{
    as_map,
    has_key,
    keys_ascend,
    lemma_insert_is_insert,
    lemma_one_slot,
    lemma_update_is_insert,
    value_of,
    TextMap,
};
use vstd::prelude::*;

verus! {

/// The media type of the rendered document.
pub const MIME_TYPE: &'static str = "application/openmetrics-text; version=1.0.0; charset=utf-8";

/// The kind of a metric: a monotonic counter or a gauge.
#[derive(Clone, Copy, Debug, PartialEq, Eq, Structural, PartialOrd, Ord, Hash)]
pub enum MetricKind {
    Counter,
    Gauge,
}

impl MetricKind {
    /// The word that names this kind in a `TYPE` line.
    pub open spec fn type_word(self) -> Seq<char> {
        match self {
            MetricKind::Counter => "counter"@,
            MetricKind::Gauge => "gauge"@,
        }
    }

    /// The suffix that sample lines of this kind append to the metric name.
    pub open spec fn sample_suffix(self) -> Seq<char> {
        match self {
            MetricKind::Counter => "_total"@,
            MetricKind::Gauge => ""@,
        }
    }

    /// The word that names this kind in a `TYPE` line.
    pub fn as_openmetrics(&self) -> (word: &'static str)
        ensures
            word@ == self.type_word(),
    {
        match self {
            MetricKind::Counter => "counter",
            MetricKind::Gauge => "gauge",
        }
    }

    /// The suffix that sample lines of this kind append to the metric name.
    pub fn openmetrics_metric_suffix(&self) -> (suffix: &'static str)
        ensures
            suffix@ == self.sample_suffix(),
    {
        match self {
            MetricKind::Counter => "_total",
            MetricKind::Gauge => "",
        }
    }
}

/// An ASCII letter.
pub open spec fn is_letter(c: char) -> bool {
    ('a' <= c <= 'z') || ('A' <= c <= 'Z')
}

/// A character that may start a metric name: a letter, `_` or `:`.
pub open spec fn is_name_start(c: char) -> bool {
    is_letter(c) || c == '_' || c == ':'
}

/// A character that may stand inside a metric name or a unit: a letter, a
/// digit, `_` or `:`.
pub open spec fn is_name_char(c: char) -> bool {
    is_name_start(c) || is_digit(c)
}

/// A character that may start a label name: a letter or `_`.
pub open spec fn is_label_start(c: char) -> bool {
    is_letter(c) || c == '_'
}

/// A character that may stand inside a label name: a letter, a digit or `_`.
pub open spec fn is_label_char(c: char) -> bool {
    is_label_start(c) || is_digit(c)
}

/// The grammar of metric names: `[A-Za-z_:][A-Za-z0-9_:]*`.
pub open spec fn is_metric_name(s: Seq<char>) -> bool {
    &&& s.len() > 0
    &&& is_name_start(s[0])
    &&& forall|i: int| 1 <= i < s.len() ==> is_name_char(#[trigger] s[i])
}

/// The grammar of units: `[A-Za-z0-9_:]+`.
pub open spec fn is_unit(s: Seq<char>) -> bool {
    &&& s.len() > 0
    &&& forall|i: int| 0 <= i < s.len() ==> is_name_char(#[trigger] s[i])
}

/// The grammar of label names: `[A-Za-z_][A-Za-z0-9_]*`.
pub open spec fn is_label_name(s: Seq<char>) -> bool {
    &&& s.len() > 0
    &&& is_label_start(s[0])
    &&& forall|i: int| 1 <= i < s.len() ==> is_label_char(#[trigger] s[i])
}

fn letter(c: char) -> (r: bool)
    ensures
        r == is_letter(c),
{
    ('a' <= c && c <= 'z') || ('A' <= c && c <= 'Z')
}

fn name_char(c: char) -> (r: bool)
    ensures
        r == is_name_char(c),
{
    letter(c) || c == '_' || c == ':' || ('0' <= c && c <= '9')
}

fn label_char(c: char) -> (r: bool)
    ensures
        r == is_label_char(c),
{
    letter(c) || c == '_' || ('0' <= c && c <= '9')
}

/// Whether `name` follows the grammar of metric names.
pub fn valid_metric_name(name: &str) -> (r: bool)
    ensures
        r == is_metric_name(name@),
{
    let mut ok = true;
    let mut seen = false;
    for c in it: name.chars()
        invariant
            it.seq() == name@,
            seen == (it.index() > 0),
            ok == (forall|i: int|
                0 <= i < it.index() ==> if i == 0 {
                    is_name_start(#[trigger] name@[i])
                } else {
                    is_name_char(name@[i])
                }),
    {
        if seen {
            ok = ok && name_char(c);
        } else {
            ok = letter(c) || c == '_' || c == ':';
            seen = true;
        }
    }
    proof {
        if seen && ok {
            assert(is_name_start(name@[0]));
        }
    }
    seen && ok
}

/// Whether `unit` follows the grammar of units.
pub fn valid_unit(unit: &str) -> (r: bool)
    ensures
        r == is_unit(unit@),
{
    let mut ok = true;
    let mut seen = false;
    for c in it: unit.chars()
        invariant
            it.seq() == unit@,
            seen == (it.index() > 0),
            ok == (forall|i: int| 0 <= i < it.index() ==> is_name_char(#[trigger] unit@[i])),
    {
        ok = ok && name_char(c);
        seen = true;
    }
    seen && ok
}

/// Whether `label` follows the grammar of label names.
pub fn valid_label_name(label: &str) -> (r: bool)
    ensures
        r == is_label_name(label@),
{
    let mut ok = true;
    let mut seen = false;
    for c in it: label.chars()
        invariant
            it.seq() == label@,
            seen == (it.index() > 0),
            ok == (forall|i: int|
                0 <= i < it.index() ==> if i == 0 {
                    is_label_start(#[trigger] label@[i])
                } else {
                    is_label_char(label@[i])
                }),
    {
        if seen {
            ok = ok && label_char(c);
        } else {
            ok = letter(c) || c == '_';
            seen = true;
        }
    }
    proof {
        if seen && ok {
            assert(is_label_start(label@[0]));
        }
    }
    seen && ok
}

/// How one character is written in a help text or a label value: a
/// backslash before a backslash or a double quote, `\n` for a line feed.
pub open spec fn escaped_char(c: char) -> Seq<char> {
    if c == '\\' {
        seq!['\\', '\\']
    } else if c == '"' {
        seq!['\\', '"']
    } else if c == '\n' {
        seq!['\\', 'n']
    } else {
        seq![c]
    }
}

/// A text with each of its characters escaped.
pub open spec fn escaped(s: Seq<char>) -> Seq<char>
    decreases s.len(),
{
    if s.len() == 0 {
        Seq::empty()
    } else {
        escaped(s.drop_last()) + escaped_char(s.last())
    }
}

/// Appends `source` to `writer`, escaped.
pub fn escape_openmetrics_into(source: &str, writer: &mut String)
    ensures
        final(writer)@ == old(writer)@ + escaped(source@),
{
    for c in it: source.chars()
        invariant
            it.seq() == source@,
            writer@ == old(writer)@ + escaped(source@.take(it.index())),
    {
        proof {
            let next = source@.take(it.index() + 1);
            assert(next.drop_last() =~= source@.take(it.index()));
            assert(next.last() == c);
        }
        if c == '\\' || c == '"' {
            writer.push('\\');
            writer.push(c);
        } else if c == '\n' {
            writer.push('\\');
            writer.push('n');
        } else {
            writer.push(c);
        }
        assert(writer@ =~= old(writer)@ + escaped(source@.take(it.index() + 1)));
    }
    assert(source@.take(source@.len() as int) =~= source@);
}

/// A number as the registry sees it.
pub enum NumberView {
    Integer(int),
    Float(Seq<char>),
}

impl NumberView {
    /// The text that stands for the number in a sample line.
    pub open spec fn text(self) -> Seq<char> {
        match self {
            NumberView::Integer(v) => integer_text(v),
            NumberView::Float(t) => t,
        }
    }

    /// A floating-point value is held as a literal that denotes it.
    pub open spec fn wf(self) -> bool {
        match self {
            NumberView::Integer(v) => i64::MIN <= v <= i64::MAX,
            NumberView::Float(t) => is_float_literal(t),
        }
    }
}

/// The number that a text denotes: a signed 64-bit integer where it reads as
/// one, else a floating-point value where it is a floating-point literal.
pub open spec fn number_of(text: Seq<char>) -> Option<NumberView> {
    match parse_integer(text) {
        Some(v) => Some(NumberView::Integer(v as int)),
        None => if is_float_literal(text) {
            Some(NumberView::Float(text))
        } else {
            None
        },
    }
}

/// A sample value: a signed 64-bit integer, or a floating-point value held
/// as the literal that denotes it.
#[derive(Debug)]
pub enum Number {
    Integer(i64),
    Float(String),
}

impl View for Number {
    type V = NumberView;

    open spec fn view(&self) -> NumberView {
        match self {
            Number::Integer(v) => NumberView::Integer(*v as int),
            Number::Float(t) => NumberView::Float(t@),
        }
    }
}

impl Clone for Number {
    fn clone(&self) -> (r: Self)
        ensures
            r@ == self@,
    {
        match self {
            Number::Integer(v) => Number::Integer(*v),
            Number::Float(t) => Number::Float(t.clone()),
        }
    }
}

impl Number {
    /// Reads a number: an integer first, a floating-point literal where the
    /// text is no integer in range, nothing where it is neither.
    pub fn parse(text: &str) -> (r: Option<Number>)
        ensures
            match r {
                Some(n) => number_of(text@) == Some(n@) && n@.wf(),
                None => number_of(text@) is None,
            },
    {
        let chars = crate::text::chars_of(text);
        match crate::notation::read_integer(&chars) {
            Some(v) => Some(Number::Integer(v)),
            None => {
                if crate::notation::reads_as_float(&chars) {
                    Some(Number::Float(String::from_str(text)))
                } else {
                    None
                }
            },
        }
    }

    /// Whether the number is a well-formed sample value.
    pub fn is_valid(&self) -> (r: bool)
        ensures
            r == self@.wf(),
    {
        match self {
            Number::Integer(_) => true,
            Number::Float(t) => {
                let chars = crate::text::chars_of(t.as_str());
                crate::notation::reads_as_float(&chars)
            },
        }
    }

    /// Appends the text of the number to `writer`.
    pub fn write(&self, writer: &mut String)
        ensures
            final(writer)@ == old(writer)@ + self@.text(),
    {
        match self {
            Number::Integer(v) => {
                push_integer(writer, *v);
            },
            Number::Float(t) => {
                writer.append(t.as_str());
            },
        }
    }

    /// The text of the number.
    pub fn to_string(&self) -> (s: String)
        ensures
            s@ == self@.text(),
    {
        let mut s = String::new();
        self.write(&mut s);
        assert(s@ =~= self@.text());
        s
    }
}

/// The literal label values that a sample carries, by label name.
pub type Labels = TextMap<String>;

/// One sample as the registry sees it: the label values, in the order of the
/// metric's label names, and the number.
pub type SampleView = (Seq<Seq<char>>, NumberView);

/// A metric as the registry sees it.
pub struct MetricView {
    pub name: Seq<char>,
    pub kind: MetricKind,
    pub help: Option<Seq<char>>,
    pub unit: Option<Seq<char>>,
    pub label_names: Seq<Seq<char>>,
    pub samples: Seq<SampleView>,
}

/// The samples stand in strictly ascending order of their label values, so no
/// tuple of label values occurs twice.
pub open spec fn samples_ascend(s: Seq<SampleView>) -> bool {
    forall|i: int, j: int|
        #![trigger s[i], s[j]]
        0 <= i < j < s.len() ==> tuple_lt(s[i].0, s[j].0)
}

/// The samples `s` with `item` put where the order asks for it, in place of
/// a sample with the same label values if there is one.
pub open spec fn with_sample(s: Seq<SampleView>, item: SampleView) -> Seq<SampleView>
    decreases s.len(),
{
    if s.len() == 0 {
        seq![item]
    } else {
        match tuple_position(s[0].0, item.0) {
            Position::Before => seq![s[0]] + with_sample(s.drop_first(), item),
            Position::Same => seq![item] + s.drop_first(),
            Position::After => seq![item] + s,
        }
    }
}

/// The view of an optional text.
pub open spec fn opt_text(o: Option<String>) -> Option<Seq<char>> {
    match o {
        Some(t) => Some(t@),
        None => None,
    }
}

/// `labels` names exactly the labels `names`: no more, no fewer.
pub open spec fn labels_fit(names: Seq<Seq<char>>, labels: Seq<(Seq<char>, String)>) -> bool {
    &&& forall|i: int| 0 <= i < names.len() ==> has_key(labels, #[trigger] names[i])
    &&& forall|j: int| 0 <= j < labels.len() ==> names.contains((#[trigger] labels[j]).0)
}

/// The values that `labels` gives to `names`, in the order of `names`.
pub open spec fn tuple_for(names: Seq<Seq<char>>, labels: Seq<(Seq<char>, String)>) -> Seq<
    Seq<char>,
> {
    names.map_values(|n: Seq<char>| value_of(labels, n)@)
}

impl MetricView {
    /// A metric without help, unit, labels or samples.
    pub open spec fn fresh(name: Seq<char>, kind: MetricKind) -> MetricView {
        MetricView {
            name,
            kind,
            help: None,
            unit: None,
            label_names: Seq::empty(),
            samples: Seq::empty(),
        }
    }

    /// The invariant of a metric: name, unit and label names follow their
    /// grammars, no label name occurs twice, and every sample gives a value
    /// to each label, a well-formed number, and stands in order.
    pub open spec fn wf(self) -> bool {
        &&& is_metric_name(self.name)
        &&& (self.unit matches Some(u) ==> is_unit(u))
        &&& self.label_names.no_duplicates()
        &&& forall|i: int|
            0 <= i < self.label_names.len() ==> is_label_name(#[trigger] self.label_names[i])
        &&& samples_ascend(self.samples)
        &&& forall|i: int|
            0 <= i < self.samples.len() ==> (#[trigger] self.samples[i]).0.len()
                == self.label_names.len() && self.samples[i].1.wf()
    }

    /// The `TYPE` line.
    pub open spec fn type_line(self) -> Seq<char> {
        "# TYPE "@ + self.name + " "@ + self.kind.type_word() + "\n"@
    }

    /// The `UNIT` line, if the metric has a unit.
    pub open spec fn unit_line(self) -> Seq<char> {
        match self.unit {
            Some(u) => "# UNIT "@ + self.name + " "@ + u + "\n"@,
            None => Seq::empty(),
        }
    }

    /// The `HELP` line, if the metric has a help text.
    pub open spec fn help_line(self) -> Seq<char> {
        match self.help {
            Some(h) => "# HELP "@ + self.name + " "@ + escaped(h) + "\n"@,
            None => Seq::empty(),
        }
    }

    /// The first `k` label pairs of a sample, separated by commas.
    pub open spec fn label_pairs(self, values: Seq<Seq<char>>, k: int) -> Seq<char>
        decreases k,
    {
        if k <= 0 {
            Seq::empty()
        } else {
            self.label_pairs(values, k - 1) + (if k > 1 {
                ","@
            } else {
                Seq::empty()
            }) + self.label_names[k - 1] + "=\""@ + escaped(values[k - 1]) + "\""@
        }
    }

    /// The label block of a sample: nothing for a metric without labels.
    pub open spec fn label_block(self, values: Seq<Seq<char>>) -> Seq<char> {
        if self.label_names.len() == 0 {
            Seq::empty()
        } else {
            "{"@ + self.label_pairs(values, self.label_names.len() as int) + "}"@
        }
    }

    /// The line of one sample.
    pub open spec fn sample_line(self, sample: SampleView) -> Seq<char> {
        self.name + self.kind.sample_suffix() + self.label_block(sample.0) + " "@
            + sample.1.text() + "\n"@
    }

    /// The lines of the first `k` samples.
    pub open spec fn sample_lines(self, k: int) -> Seq<char>
        decreases k,
    {
        if k <= 0 {
            Seq::empty()
        } else {
            self.sample_lines(k - 1) + self.sample_line(self.samples[k - 1])
        }
    }

    /// The text of the metric: its `TYPE` line, its `UNIT` and `HELP` lines
    /// where it has them, then one line for each sample, in order.
    pub open spec fn rendering(self) -> Seq<char> {
        self.type_line() + self.unit_line() + self.help_line() + self.sample_lines(
            self.samples.len() as int,
        )
    }
}

/// Putting a sample into ascending samples keeps them ascending, and brings
/// in nothing but the sample.
pub proof fn lemma_with_sample(s: Seq<SampleView>, item: SampleView)
    requires
        samples_ascend(s),
    ensures
        samples_ascend(with_sample(s, item)),
        with_sample(s, item).len() > 0,
        forall|k: int|
            0 <= k < with_sample(s, item).len() ==> (#[trigger] with_sample(s, item)[k]) == item
                || s.contains(with_sample(s, item)[k]),
    decreases s.len(),
{
    let r = with_sample(s, item);
    if s.len() == 0 {
    } else {
        lemma_tuple_mirror(s[0].0, item.0);
        lemma_tuple_same(s[0].0, item.0);
        let rest = s.drop_first();
        assert(samples_ascend(rest)) by {
            assert forall|i: int, j: int| 0 <= i < j < rest.len() implies tuple_lt(
                (#[trigger] rest[i]).0,
                (#[trigger] rest[j]).0,
            ) by {
                assert(rest[i] == s[i + 1] && rest[j] == s[j + 1]);
            }
        }
        match tuple_position(s[0].0, item.0) {
            Position::Before => {
                lemma_with_sample(rest, item);
                let tail = with_sample(rest, item);
                assert forall|k: int| 0 <= k < r.len() implies (#[trigger] r[k]) == item
                    || s.contains(r[k]) by {
                    if k == 0 {
                        assert(r[k] == s[0]);
                    } else {
                        assert(r[k] == tail[k - 1]);
                        if tail[k - 1] != item {
                            let j = choose|j: int| 0 <= j < rest.len() && rest[j] == tail[k - 1];
                            assert(s[j + 1] == r[k]);
                        }
                    }
                }
                assert forall|i: int, j: int| 0 <= i < j < r.len() implies tuple_lt(
                    (#[trigger] r[i]).0,
                    (#[trigger] r[j]).0,
                ) by {
                    assert(r[j] == tail[j - 1]);
                    if i == 0 {
                        if tail[j - 1] != item {
                            let m = choose|m: int| 0 <= m < rest.len() && rest[m] == tail[j - 1];
                            assert(s[m + 1] == r[j]);
                            assert(tuple_lt(s[0].0, s[m + 1].0));
                        }
                    } else {
                        assert(r[i] == tail[i - 1]);
                    }
                }
            },
            Position::Same => {
                assert forall|k: int| 0 <= k < r.len() implies (#[trigger] r[k]) == item
                    || s.contains(r[k]) by {
                    if k > 0 {
                        assert(r[k] == s[k]);
                    }
                }
                assert forall|i: int, j: int| 0 <= i < j < r.len() implies tuple_lt(
                    (#[trigger] r[i]).0,
                    (#[trigger] r[j]).0,
                ) by {
                    assert(r[j] == s[j]);
                    if i == 0 {
                        assert(tuple_lt(s[0].0, s[j].0));
                    } else {
                        assert(r[i] == s[i]);
                    }
                }
            },
            Position::After => {
                assert forall|k: int| 0 <= k < r.len() implies (#[trigger] r[k]) == item
                    || s.contains(r[k]) by {
                    if k > 0 {
                        assert(r[k] == s[k - 1]);
                    }
                }
                assert forall|i: int, j: int| 0 <= i < j < r.len() implies tuple_lt(
                    (#[trigger] r[i]).0,
                    (#[trigger] r[j]).0,
                ) by {
                    assert(r[j] == s[j - 1]);
                    if i == 0 {
                        if j > 1 {
                            assert(tuple_lt(s[0].0, s[j - 1].0));
                            lemma_tuple_lt_transitive(item.0, s[0].0, s[j - 1].0);
                        }
                    } else {
                        assert(r[i] == s[i - 1]);
                    }
                }
            },
        }
    }
}

/// One metric of the registry: its name and kind, its help and unit, the
/// names of its labels and its samples.
#[derive(Debug)]
pub struct Metric {
    name: String,
    kind: MetricKind,
    help: Option<String>,
    unit: Option<String>,
    label_names: Vec<String>,
    samples: Vec<(Vec<String>, Number)>,
}

impl View for Metric {
    type V = MetricView;

    closed spec fn view(&self) -> MetricView {
        MetricView {
            name: self.name@,
            kind: self.kind,
            help: opt_text(self.help),
            unit: opt_text(self.unit),
            label_names: texts(self.label_names@),
            samples: self.samples@.map_values(|e: (Vec<String>, Number)| (texts(e.0@), e.1@)),
        }
    }
}

impl Metric {
    /// The invariant of the metric.
    pub open spec fn wf(&self) -> bool {
        self@.wf()
    }

    /// A metric named `name`, without help, unit, labels or samples.
    pub fn new(name: String, kind: MetricKind) -> (m: Self)
        requires
            is_metric_name(name@),
        ensures
            m@ == MetricView::fresh(name@, kind),
            m.wf(),
    {
        let m = Metric {
            name,
            kind,
            help: None,
            unit: None,
            label_names: Vec::new(),
            samples: Vec::new(),
        };
        assert(m@.label_names =~= Seq::empty());
        assert(m@.samples =~= Seq::empty());
        m
    }

    /// A metric named `name`, if `name` follows the grammar of metric names.
    pub fn checked(name: String, kind: MetricKind) -> (r: Option<Self>)
        ensures
            r is Some <==> is_metric_name(name@),
            r matches Some(m) ==> m@ == MetricView::fresh(name@, kind) && m.wf(),
    {
        if valid_metric_name(name.as_str()) {
            Some(Metric::new(name, kind))
        } else {
            None
        }
    }

    /// The name of the metric.
    pub fn name(&self) -> (name: &String)
        ensures
            name@ == self@.name,
    {
        &self.name
    }

    /// The kind of the metric.
    pub fn kind(&self) -> (kind: MetricKind)
        ensures
            kind == self@.kind,
    {
        self.kind
    }

    /// The number of samples.
    pub fn sample_count(&self) -> (n: usize)
        ensures
            n == self@.samples.len(),
    {
        self.samples.len()
    }

    /// Gives the metric the help text `help`, or none.
    pub fn set_help(&mut self, help: Option<String>)
        ensures
            final(self)@ == (MetricView { help: opt_text(help), ..old(self)@ }),
    {
        self.help = help;
    }

    /// Gives the metric the unit `unit`, or none.
    pub fn set_unit(&mut self, unit: Option<String>)
        requires
            unit matches Some(u) ==> is_unit(u@),
        ensures
            final(self)@ == (MetricView { unit: opt_text(unit), ..old(self)@ }),
    {
        self.unit = unit;
    }

    /// Whether the metric has a label named `label`.
    pub fn has_label(&self, label: &str) -> (r: bool)
        ensures
            r == self@.label_names.contains(label@),
    {
        let mut i: usize = 0;
        while i < self.label_names.len()
            invariant
                i <= self.label_names.len(),
                forall|j: int| 0 <= j < i ==> self@.label_names[j] != label@,
            decreases self.label_names.len() - i,
        {
            if same_text(self.label_names[i].as_str(), label) {
                assert(self@.label_names[i as int] == label@);
                return true;
            }
            i += 1;
        }
        false
    }

    /// Adds the label `label` after the labels that the metric has, unless
    /// it has that label already. The labels of a metric are fixed once it
    /// holds a sample.
    pub fn add_label(&mut self, label: String)
        requires
            old(self).wf(),
            old(self)@.samples.len() == 0,
            is_label_name(label@),
        ensures
            final(self).wf(),
            final(self)@ == (MetricView {
                label_names: if old(self)@.label_names.contains(label@) {
                    old(self)@.label_names
                } else {
                    old(self)@.label_names.push(label@)
                },
                ..old(self)@
            }),
    {
        if !self.has_label(label.as_str()) {
            let ghost before = self@.label_names;
            self.label_names.push(label);
            assert(self@.label_names =~= before.push(label@));
        }
    }

    /// Whether `labels` gives a value to each label of the metric and to no
    /// other.
    pub fn accepts(&self, labels: &Labels) -> (r: bool)
        requires
            labels.wf(),
        ensures
            r == labels_fit(self@.label_names, labels@),
    {
        let mut i: usize = 0;
        while i < self.label_names.len()
            invariant
                i <= self.label_names.len(),
                labels.wf(),
                forall|k: int| 0 <= k < i ==> has_key(labels@, #[trigger] self@.label_names[k]),
            decreases self.label_names.len() - i,
        {
            if !labels.contains_key(self.label_names[i].as_str()) {
                assert(!has_key(labels@, self@.label_names[i as int]));
                return false;
            }
            i += 1;
        }
        let mut j: usize = 0;
        while j < labels.len()
            invariant
                j <= labels@.len(),
                forall|k: int|
                    0 <= k < self@.label_names.len() ==> has_key(
                        labels@,
                        #[trigger] self@.label_names[k],
                    ),
                forall|k: int|
                    0 <= k < j ==> self@.label_names.contains((#[trigger] labels@[k]).0),
            decreases labels@.len() - j,
        {
            if !self.has_label(labels.key_at(j).as_str()) {
                assert(!self@.label_names.contains(labels@[j as int].0));
                return false;
            }
            j += 1;
        }
        true
    }

    /// The values that `labels` gives to the labels of the metric, in their
    /// order.
    fn values_for(&self, labels: &Labels) -> (values: Vec<String>)
        requires
            labels.wf(),
            labels_fit(self@.label_names, labels@),
        ensures
            texts(values@) == tuple_for(self@.label_names, labels@),
    {
        let mut values: Vec<String> = Vec::new();
        let mut i: usize = 0;
        while i < self.label_names.len()
            invariant
                i <= self.label_names.len(),
                labels.wf(),
                labels_fit(self@.label_names, labels@),
                texts(values@) == tuple_for(self@.label_names, labels@).take(i as int),
            decreases self.label_names.len() - i,
        {
            assert(has_key(labels@, self@.label_names[i as int]));
            let found = labels.get(self.label_names[i].as_str());
            let ghost before = texts(values@);
            match found {
                Some(v) => {
                    values.push(v.clone());
                },
                None => {
                    assert(false);
                },
            }
            assert(texts(values@) =~= before.push(value_of(labels@, self@.label_names[i as int])@));
            assert(texts(values@) =~= tuple_for(self@.label_names, labels@).take(i + 1));
            i += 1;
        }
        assert(tuple_for(self@.label_names, labels@).take(i as int) =~= tuple_for(
            self@.label_names,
            labels@,
        ));
        values
    }

    /// Records the sample `value` under the label values `labels`, in place
    /// of a sample with the same label values if there is one. `labels` gives
    /// a value to each label of the metric and to no other.
    pub fn add_sample(&mut self, labels: &Labels, value: Number)
        requires
            old(self).wf(),
            labels.wf(),
            labels_fit(old(self)@.label_names, labels@),
            value@.wf(),
        ensures
            final(self).wf(),
            final(self)@ == (MetricView {
                samples: with_sample(
                    old(self)@.samples,
                    (tuple_for(old(self)@.label_names, labels@), value@),
                ),
                ..old(self)@
            }),
    {
        let values = self.values_for(labels);
        let ghost item: SampleView = (texts(values@), value@);
        let ghost before = self@.samples;
        proof {
            lemma_with_sample(before, item);
            assert(before.skip(0) =~= before);
            assert(before.take(0) + with_sample(before.skip(0), item) =~= with_sample(
                before,
                item,
            ));
        }
        let mut i: usize = 0;
        let mut replace = false;
        while i < self.samples.len()
            invariant_except_break
                !replace,
                with_sample(before, item) == before.take(i as int) + with_sample(
                    before.skip(i as int),
                    item,
                ),
            invariant
                i <= self.samples.len(),
                self@ == old(self)@,
                before == self@.samples,
                item == (texts(values@), value@),
            ensures
                i <= self.samples.len(),
                self@ == old(self)@,
                before == self@.samples,
                replace ==> i < self.samples.len() && with_sample(before, item) == before.update(
                    i as int,
                    item,
                ),
                !replace ==> with_sample(before, item) == before.insert(i as int, item),
            decreases self.samples.len() - i,
        {
            proof {
                assert(before.skip(i as int)[0] == before[i as int]);
                assert(before.skip(i as int).drop_first() =~= before.skip(i + 1));
                assert(before[i as int].0 == texts(self.samples@[i as int].0@));
            }
            match tuple_position_of(&self.samples[i].0, &values) {
                Position::Before => {
                    assert(before.take(i as int) + (seq![before[i as int]] + with_sample(
                        before.skip(i + 1),
                        item,
                    )) =~= before.take(i + 1) + with_sample(before.skip(i + 1), item));
                    i += 1;
                    proof {
                        if i == self.samples.len() {
                            assert(before.skip(i as int) =~= Seq::<SampleView>::empty());
                            assert(before.take(i as int) + seq![item] =~= before.insert(
                                i as int,
                                item,
                            ));
                        }
                    }
                },
                Position::Same => {
                    assert(before.take(i as int) + (seq![item] + before.skip(i + 1))
                        =~= before.update(i as int, item));
                    replace = true;
                    break;
                },
                Position::After => {
                    assert(before.take(i as int) + (seq![item] + before.skip(i as int))
                        =~= before.insert(i as int, item));
                    break;
                },
            }
        }
        if replace {
            self.samples.set(i, (values, value));
            assert(self@.samples =~= before.update(i as int, item));
        } else {
            self.samples.insert(i, (values, value));
            assert(self@.samples =~= before.insert(i as int, item));
        }
        proof {
            let after = self@.samples;
            assert forall|k: int| 0 <= k < after.len() implies (#[trigger] after[k]).0.len()
                == self@.label_names.len() && after[k].1.wf() by {
                if after[k] != item {
                    let j = choose|j: int| 0 <= j < before.len() && before[j] == after[k];
                    assert(before[j].0.len() == self@.label_names.len());
                }
            }
        }
    }

    /// Appends the label block of a sample to `writer`.
    fn write_labels(&self, values: &Vec<String>, writer: &mut String)
        requires
            values.len() == self@.label_names.len(),
        ensures
            final(writer)@ == old(writer)@ + self@.label_block(texts(values@)),
    {
        let n = self.label_names.len();
        if n == 0 {
            assert(writer@ =~= old(writer)@ + self@.label_block(texts(values@)));
            return ;
        }
        writer.push('{');
        let ghost start = writer@;
        let mut k: usize = 0;
        while k < n
            invariant
                k <= n,
                n == self.label_names.len(),
                n == values.len(),
                n == self@.label_names.len(),
                writer@ == start + self@.label_pairs(texts(values@), k as int),
            decreases n - k,
        {
            if k > 0 {
                writer.append(",");
            }
            writer.append(self.label_names[k].as_str());
            writer.append("=\"");
            escape_openmetrics_into(values[k].as_str(), writer);
            writer.append("\"");
            proof {
                assert(self@.label_names[k as int] == self.label_names@[k as int]@);
                assert(texts(values@)[k as int] == values@[k as int]@);
                assert(writer@ =~= start + self@.label_pairs(texts(values@), k + 1));
            }
            k += 1;
        }
        writer.push('}');
        proof {
            reveal_strlit("{");
            reveal_strlit("}");
            assert("{"@ =~= seq!['{']);
            assert("}"@ =~= seq!['}']);
            assert(writer@ =~= old(writer)@ + self@.label_block(texts(values@)));
        }
    }

    /// Appends the `TYPE` line to `writer`.
    fn write_type(&self, writer: &mut String)
        ensures
            final(writer)@ == old(writer)@ + self@.type_line(),
    {
        writer.append("# TYPE ");
        writer.append(self.name.as_str());
        writer.append(" ");
        writer.append(self.kind.as_openmetrics());
        writer.append("\n");
        assert(writer@ =~= old(writer)@ + self@.type_line());
    }

    /// Appends the `UNIT` line to `writer`, if the metric has a unit.
    fn write_unit(&self, writer: &mut String)
        ensures
            final(writer)@ == old(writer)@ + self@.unit_line(),
    {
        match &self.unit {
            Some(unit) => {
                writer.append("# UNIT ");
                writer.append(self.name.as_str());
                writer.append(" ");
                writer.append(unit.as_str());
                writer.append("\n");
            },
            None => {},
        }
        assert(writer@ =~= old(writer)@ + self@.unit_line());
    }

    /// Appends the `HELP` line to `writer`, if the metric has a help text.
    fn write_help(&self, writer: &mut String)
        ensures
            final(writer)@ == old(writer)@ + self@.help_line(),
    {
        match &self.help {
            Some(help) => {
                writer.append("# HELP ");
                writer.append(self.name.as_str());
                writer.append(" ");
                escape_openmetrics_into(help.as_str(), writer);
                writer.append("\n");
            },
            None => {},
        }
        assert(writer@ =~= old(writer)@ + self@.help_line());
    }

    /// Appends the line of the sample at place `i` to `writer`.
    fn write_sample(&self, i: usize, writer: &mut String)
        requires
            self.wf(),
            i < self@.samples.len(),
        ensures
            final(writer)@ == old(writer)@ + self@.sample_line(self@.samples[i as int]),
    {
        let ghost sample = self@.samples[i as int];
        assert(sample.0 == texts(self.samples@[i as int].0@));
        assert(sample.1 == self.samples@[i as int].1@);
        assert(sample.0.len() == self@.label_names.len());
        writer.append(self.name.as_str());
        writer.append(self.kind.openmetrics_metric_suffix());
        self.write_labels(&self.samples[i].0, writer);
        writer.append(" ");
        self.samples[i].1.write(writer);
        writer.append("\n");
        assert(writer@ =~= old(writer)@ + self@.sample_line(sample));
    }

    /// Appends the text of the metric to `writer`.
    pub fn write(&self, writer: &mut String)
        requires
            self.wf(),
        ensures
            final(writer)@ == old(writer)@ + self@.rendering(),
    {
        self.write_type(writer);
        self.write_unit(writer);
        self.write_help(writer);
        let ghost head = writer@;
        assert(head =~= old(writer)@ + self@.type_line() + self@.unit_line() + self@.help_line());
        let mut i: usize = 0;
        assert(writer@ =~= head + self@.sample_lines(0));
        while i < self.samples.len()
            invariant
                i <= self.samples.len(),
                self.samples@.len() == self@.samples.len(),
                self.wf(),
                writer@ == head + self@.sample_lines(i as int),
            decreases self.samples.len() - i,
        {
            self.write_sample(i, writer);
            assert(writer@ =~= head + self@.sample_lines(i + 1));
            i += 1;
        }
        assert(writer@ =~= old(writer)@ + self@.rendering());
    }
}

/// A registry as its users see it: the metrics by name, in the lexical order
/// of their names.
pub type DatabaseView = Seq<(Seq<char>, MetricView)>;

/// The invariant of a registry: the names ascend, and each metric is well
/// formed and stands under its own name.
pub open spec fn database_wf(db: DatabaseView) -> bool {
    &&& keys_ascend(db)
    &&& forall|i: int|
        0 <= i < db.len() ==> (#[trigger] db[i]).1.wf() && db[i].1.name == db[i].0
}

/// The text of the first `k` metrics of a registry.
pub open spec fn metrics_text(db: DatabaseView, k: int) -> Seq<char>
    decreases k,
{
    if k <= 0 {
        Seq::empty()
    } else {
        metrics_text(db, k - 1) + db[k - 1].1.rendering()
    }
}

/// The text of a registry: the text of each metric, in the lexical order of
/// the metric names.
pub open spec fn database_text(db: DatabaseView) -> Seq<char> {
    metrics_text(db, db.len() as int)
}

/// The entries of a registry, each metric as its users see it.
pub open spec fn metric_views(entries: Seq<(Seq<char>, Metric)>) -> DatabaseView {
    entries.map_values(|e: (Seq<char>, Metric)| (e.0, e.1@))
}

/// The registry of the metrics of one scrape.
#[derive(Debug)]
pub struct MetricDatabase {
    name_to_metric: TextMap<Metric>,
}

impl View for MetricDatabase {
    type V = DatabaseView;

    closed spec fn view(&self) -> DatabaseView {
        metric_views(self.name_to_metric@)
    }
}

impl Default for MetricDatabase {
    fn default() -> (db: Self)
        ensures
            db@ == Seq::<(Seq<char>, MetricView)>::empty(),
            db.wf(),
    {
        MetricDatabase::new()
    }
}

impl MetricDatabase {
    /// The invariant of the registry.
    pub open spec fn wf(&self) -> bool {
        database_wf(self@)
    }

    /// The metrics of the registry, by name.
    pub open spec fn map(&self) -> Map<Seq<char>, MetricView> {
        as_map(self@)
    }

    /// A registry without metrics.
    pub fn new() -> (db: Self)
        ensures
            db@ == Seq::<(Seq<char>, MetricView)>::empty(),
            db.wf(),
    {
        let db = MetricDatabase { name_to_metric: TextMap::new() };
        assert(db@ =~= Seq::<(Seq<char>, MetricView)>::empty());
        db
    }

    /// The number of metrics.
    pub fn len(&self) -> (n: usize)
        ensures
            n == self@.len(),
    {
        self.name_to_metric.len()
    }

    /// The metric named `name`, to be filled in; a new metric of kind `kind`
    /// is entered under that name where the registry has none.
    pub fn get_or_insert(&mut self, name: &str, kind: MetricKind) -> (metric: &mut Metric)
        requires
            old(self).wf(),
            is_metric_name(name@),
        ensures
            metric.wf(),
            metric@ == if old(self).map().contains_key(name@) {
                old(self).map()[name@]
            } else {
                MetricView::fresh(name@, kind)
            },
            final(self).map() == old(self).map().insert(name@, final(metric)@),
            keys_ascend(final(self)@),
            final(metric).wf() && final(metric)@.name == name@ ==> final(self).wf(),
    {
        proof {
            assert(keys_ascend(self.name_to_metric@)) by {
                assert forall|i: int, j: int|
                    0 <= i < j < self.name_to_metric@.len() implies crate::text::lex_lt(
                    (#[trigger] self.name_to_metric@[i]).0,
                    (#[trigger] self.name_to_metric@[j]).0,
                ) by {
                    assert(self@[i].0 == self.name_to_metric@[i].0);
                    assert(self@[j].0 == self.name_to_metric@[j].0);
                }
            }
        }
        let (found, at) = self.name_to_metric.search(name);
        let ghost before = self@;
        proof {
            assert(found == has_key(before, name@)) by {
                if has_key(before, name@) {
                    let j = choose|j: int| 0 <= j < before.len() && (#[trigger] before[j]).0 == name@;
                    assert(self.name_to_metric@[j].0 == name@);
                }
                if found {
                    assert(before[at as int].0 == name@);
                }
            }
        }
        if !found {
            let fresh = Metric::new(String::from_str(name), kind);
            proof {
                assert forall|j: int| 0 <= j < at implies crate::text::lex_lt(
                    (#[trigger] before[j]).0,
                    name@,
                ) by {
                    assert(before[j].0 == self.name_to_metric@[j].0);
                }
                if at < before.len() {
                    assert(before[at as int].0 == self.name_to_metric@[at as int].0);
                }
                lemma_insert_is_insert(before, at as int, name@, fresh@);
            }
            self.name_to_metric.insert_at(at, String::from_str(name), fresh);
            assert(self@ =~= before.insert(at as int, (name@, MetricView::fresh(name@, kind))));
        } else {
            proof {
                lemma_one_slot(before, at as int);
            }
        }
        let ghost mid = self@;
        assert(keys_ascend(mid));
        assert(mid[at as int].0 == name@);
        assert(database_wf(mid)) by {
            assert forall|i: int| 0 <= i < mid.len() implies (#[trigger] mid[i]).1.wf()
                && mid[i].1.name == mid[i].0 by {
                if !found {
                    if i < at {
                        assert(mid[i] == before[i]);
                    } else if i > at {
                        assert(mid[i] == before[i - 1]);
                    }
                }
            }
        }
        let ghost held = self.name_to_metric@;
        proof {
            assert forall|m: Metric| #[trigger]
                metric_views(held.update(at as int, (name@, m))) == mid.update(
                    at as int,
                    (name@, m@),
                ) by {
                assert(metric_views(held.update(at as int, (name@, m))) =~= mid.update(
                    at as int,
                    (name@, m@),
                ));
            }
            assert forall|v: MetricView|
                keys_ascend(#[trigger] mid.update(at as int, (name@, v))) && as_map(
                    mid.update(at as int, (name@, v)),
                ) == as_map(before).insert(name@, v) && (v.wf() && v.name == name@
                    ==> database_wf(mid.update(at as int, (name@, v)))) by {
                let after = mid.update(at as int, (name@, v));
                lemma_update_is_insert(mid, at as int, v);
                lemma_one_slot(mid, at as int);
                assert(as_map(after) =~= as_map(before).insert(name@, v));
                if v.wf() && v.name == name@ {
                    assert forall|i: int| 0 <= i < after.len() implies (#[trigger] after[i]).1.wf()
                        && after[i].1.name == after[i].0 by {
                        if i != at {
                            assert(after[i] == mid[i]);
                        }
                    }
                }
            }
        }
        self.name_to_metric.value_at_mut(at)
    }

    /// The metrics with their names, in the lexical order of the names.
    pub fn metrics(&self) -> (pairs: Vec<(&String, &Metric)>)
        ensures
            pairs.len() == self@.len(),
            forall|i: int|
                0 <= i < pairs.len() ==> (#[trigger] pairs[i]).0@ == self@[i].0 && pairs[i].1@
                    == self@[i].1,
    {
        let mut pairs: Vec<(&String, &Metric)> = Vec::new();
        let mut i: usize = 0;
        while i < self.name_to_metric.len()
            invariant
                i <= self.name_to_metric@.len(),
                pairs.len() == i,
                forall|j: int|
                    0 <= j < i ==> (#[trigger] pairs[j]).0@ == self@[j].0 && pairs[j].1@
                        == self@[j].1,
            decreases self.name_to_metric@.len() - i,
        {
            pairs.push((self.name_to_metric.key_at(i), self.name_to_metric.value_at(i)));
            i += 1;
        }
        pairs
    }

    /// Appends the text of the registry to `writer`.
    pub fn write(&self, writer: &mut String)
        requires
            self.wf(),
        ensures
            final(writer)@ == old(writer)@ + database_text(self@),
    {
        let mut i: usize = 0;
        assert(writer@ =~= old(writer)@ + metrics_text(self@, 0));
        while i < self.name_to_metric.len()
            invariant
                i <= self.name_to_metric@.len(),
                self.name_to_metric@.len() == self@.len(),
                self.wf(),
                writer@ == old(writer)@ + metrics_text(self@, i as int),
            decreases self.name_to_metric@.len() - i,
        {
            let metric = self.name_to_metric.value_at(i);
            assert(metric@ == self@[i as int].1);
            metric.write(writer);
            assert(writer@ =~= old(writer)@ + metrics_text(self@, i + 1));
            i += 1;
        }
    }
}

/// The metric `m` after the samples `items` were recorded, one after the
/// other.
pub open spec fn after_samples(m: MetricView, items: Seq<SampleView>) -> MetricView
    decreases items.len(),
{
    if items.len() == 0 {
        m
    } else {
        let before = after_samples(m, items.drop_last());
        MetricView { samples: with_sample(before.samples, items.last()), ..before }
    }
}

/// The labels of a metric are those that it had when its first sample was
/// recorded: whatever samples are recorded, each with a value for every
/// label, the label names stay as they were, every sample that the metric
/// holds has a value for each of them and for no other, and a metric that
/// holds a sample takes no new label.
pub proof fn lemma_labels_are_fixed(m: MetricView, items: Seq<SampleView>)
    requires
        m.wf(),
        forall|i: int|
            0 <= i < items.len() ==> (#[trigger] items[i]).0.len() == m.label_names.len()
                && items[i].1.wf(),
    ensures
        after_samples(m, items).label_names == m.label_names,
        after_samples(m, items).wf(),
        items.len() > 0 ==> after_samples(m, items).samples.len() > 0,
    decreases items.len(),
{
    if items.len() > 0 {
        let earlier = items.drop_last();
        assert forall|i: int| 0 <= i < earlier.len() implies (#[trigger] earlier[i]).0.len()
            == m.label_names.len() && earlier[i].1.wf() by {
            assert(earlier[i] == items[i]);
        }
        lemma_labels_are_fixed(m, earlier);
        let before = after_samples(m, earlier);
        let item = items.last();
        assert(item == items[items.len() - 1]);
        lemma_with_sample(before.samples, item);
        let after = with_sample(before.samples, item);
        assert forall|k: int| 0 <= k < after.len() implies (#[trigger] after[k]).0.len()
            == m.label_names.len() && after[k].1.wf() by {
            if after[k] != item {
                let j = choose|j: int| 0 <= j < before.samples.len() && before.samples[j] == after[k];
                assert(before.samples[j].0.len() == m.label_names.len());
            }
        }
    }
}

/// The entries that hold the map `m` in the lexical order of its keys.
pub open spec fn entries_of(m: Map<Seq<char>, MetricView>) -> DatabaseView {
    choose|s: DatabaseView| keys_ascend(s) && as_map(s) == m
}

/// A registry holds its metrics in the one order that the names give.
pub proof fn lemma_entries(db: DatabaseView)
    requires
        keys_ascend(db),
    ensures
        entries_of(as_map(db)) == db,
{
    let s = entries_of(as_map(db));
    assert(keys_ascend(s) && as_map(s) == as_map(db));
    crate::textmap::lemma_ascending_unique(s, db);
}

/// The text of a registry is determined by the metrics that it holds: two
/// registries that hold the same metrics under the same names render to the
/// same text, whatever the order in which the metrics were entered, and
/// however often the text is written.
pub proof fn lemma_rendering_is_determined(first: MetricDatabase, second: MetricDatabase)
    requires
        first.wf(),
        second.wf(),
        first.map() == second.map(),
    ensures
        database_text(first@) == database_text(second@),
{
    crate::textmap::lemma_ascending_unique(first@, second@);
}

} // verus!
