//! One scrape: the commands that it sends to the backend, one after the
//! other, and the reply that it gives in the end.

use crate::assembly::{
    assemble,
    assembled,
    config_wf,
    group_views,
    labels_suit,
    object_views,
    objects_wf,
    ObjectView,
    PerObjectStats,
};
use crate::codec::{
    decode_stats,
    decoded_identifier,
    decoded_stats,
    extract_identifier,
    payload_of,
    payload_text,
    stats_view,
    stats_wf,
    Stats,
};
use crate::config::{config_fault, Config};
use crate::notation::{decimal, decimal_digits};
use crate::openmetrics::{
    database_text,
    entries_of,
    lemma_entries,
    MetricDatabase,
    MetricView,
    NumberView,
    MIME_TYPE,
};
use crate::radiator::{same_bytes, utf8, Error};
use crate::text::{push_chars, same_text};
use crate::textmap::TextMap;
use vstd::prelude::*;
use vstd::slice::slice_to_vec;

verus! {

/// What is answered to a request: the status, the content type, the methods
/// that are allowed where the method of the request is not, and the body.
#[derive(Debug, PartialEq, Eq)]
pub struct HttpReply {
    pub status: u16,
    pub content_type: String,
    pub allow: Option<String>,
    pub body: String,
}

/// A reply as its users see it.
pub struct HttpReplyView {
    pub status: int,
    pub content_type: Seq<char>,
    pub allow: Option<Seq<char>>,
    pub body: Seq<char>,
}

impl View for HttpReply {
    type V = HttpReplyView;

    open spec fn view(&self) -> HttpReplyView {
        HttpReplyView {
            status: self.status as int,
            content_type: self.content_type@,
            allow: match self.allow {
                Some(a) => Some(a@),
                None => None,
            },
            body: self.body@,
        }
    }
}

/// The reply to an internal failure: status 500 and a plain text that says
/// no more.
pub open spec fn reply_500() -> HttpReplyView {
    HttpReplyView {
        status: 500,
        content_type: "text/plain; charset=utf-8"@,
        allow: None,
        body: "internal server error"@,
    }
}

/// The reply to a request with another method than `GET`: status 405, and
/// `GET` as the one method that is allowed.
pub open spec fn reply_405() -> HttpReplyView {
    HttpReplyView {
        status: 405,
        content_type: "text/plain; charset=utf-8"@,
        allow: Some("GET"@),
        body: "HTTP method must be GET"@,
    }
}

/// The reply that carries the metrics document.
pub open spec fn reply_200(body: Seq<char>) -> HttpReplyView {
    HttpReplyView { status: 200, content_type: MIME_TYPE@, allow: None, body }
}

/// The metrics document of a registry: the text of the registry and the line
/// that ends the document.
pub open spec fn document(db: Seq<(Seq<char>, MetricView)>) -> Seq<char> {
    database_text(db) + "# EOF\n"@
}

/// The reply to an internal failure.
pub fn return_500() -> (reply: HttpReply)
    ensures
        reply@ == reply_500(),
{
    HttpReply {
        status: 500,
        content_type: String::from_str("text/plain; charset=utf-8"),
        allow: None,
        body: String::from_str("internal server error"),
    }
}

/// The reply to a request with another method than `GET`.
pub fn return_405() -> (reply: HttpReply)
    ensures
        reply@ == reply_405(),
{
    HttpReply {
        status: 405,
        content_type: String::from_str("text/plain; charset=utf-8"),
        allow: Some(String::from_str("GET")),
        body: String::from_str("HTTP method must be GET"),
    }
}

/// The metrics document of a registry.
pub fn encode(db: &MetricDatabase) -> (text: String)
    requires
        db.wf(),
    ensures
        text@ == document(db@),
{
    let mut text = String::new();
    db.write(&mut text);
    text.append("# EOF\n");
    assert(text@ =~= document(db@));
    text
}

/// The command that asks for the statistics of the backend as a whole.
pub open spec fn global_command() -> Seq<u8> {
    utf8("STATS ."@)
}

/// The command that asks for the description of the object at `index` of the
/// kind `kind`.
pub open spec fn describe_command(kind: Seq<char>, index: int) -> Seq<u8> {
    utf8("DESCRIBE "@ + kind + "."@ + decimal(index as nat))
}

/// The command that asks for the statistics of the object at `index` of the
/// kind `kind`.
pub open spec fn stats_command(kind: Seq<char>, index: int) -> Seq<u8> {
    utf8("STATS "@ + kind + "."@ + decimal(index as nat))
}

/// Whether an answer ends the enumeration of the objects of a kind: it is
/// `NOSUCHOBJECT` and nothing else, or its payload is.
pub open spec fn no_such_object(frame: Seq<u8>) -> bool {
    frame == utf8("NOSUCHOBJECT"@) || payload_text(frame) == Some("NOSUCHOBJECT"@)
}

/// Whether an answer ends the enumeration of the objects of a kind.
pub fn is_no_such_object(frame: &[u8]) -> (r: bool)
    ensures
        r == no_such_object(frame@),
{
    if same_bytes(frame, "NOSUCHOBJECT".as_bytes()) {
        return true;
    }
    match payload_of(frame) {
        Some(text) => same_text(text, "NOSUCHOBJECT"),
        None => false,
    }
}

/// The command made of a word, a kind, a point and an index.
fn object_command(word: &str, kind: &str, index: usize) -> (command: Vec<u8>)
    ensures
        command@ == utf8(word@ + kind@ + "."@ + decimal(index as nat)),
{
    let mut text = String::from_str(word);
    text.append(kind);
    text.append(".");
    let digits = decimal_digits(index as u64);
    push_chars(&mut text, &digits, 0, digits.len());
    assert(digits@.subrange(0, digits@.len() as int) =~= digits@);
    slice_to_vec(text.as_str().as_bytes())
}

/// How far a scrape has come.
#[derive(Clone, Copy, Debug, PartialEq, Eq, Structural)]
pub enum Stage {
    /// The statistics of the backend as a whole are awaited.
    Global,
    /// The description of the object at `index` of the group `group` is
    /// awaited.
    Describing { group: usize, index: usize },
    /// The statistics of the object at place `object` among the objects
    /// found for the group `group` are awaited.
    Fetching { group: usize, object: usize },
    /// The reply is given.
    Done,
}

/// What a scrape asks for next.
#[derive(Debug)]
pub enum Step {
    /// Exchange this command for its answer.
    Send(Vec<u8>),
    /// Give this reply: the scrape is over.
    Reply(HttpReply),
}

/// A step as its users see it.
pub enum StepView {
    Send(Seq<u8>),
    Reply(HttpReplyView),
}

impl View for Step {
    type V = StepView;

    open spec fn view(&self) -> StepView {
        match self {
            Step::Send(command) => StepView::Send(command@),
            Step::Reply(reply) => StepView::Reply(reply@),
        }
    }
}

/// A scrape as its users see it: how far it has come, the statistics of the
/// backend, the objects of the groups that are done, and, of the group that
/// is under way, the objects found and the objects whose statistics are
/// there.
pub struct ScrapeView {
    pub stage: Stage,
    pub statistics: Map<Seq<char>, NumberView>,
    pub objects: Seq<Seq<ObjectView>>,
    pub pending: Seq<(int, Seq<char>)>,
    pub current: Seq<ObjectView>,
}

impl ScrapeView {
    /// The scrape at the start of the group `group`: the first object of its
    /// kind is asked for, or, where no group is left, the registry is
    /// assembled and the document is the reply.
    pub open spec fn enter_group(self, config: Config, group: int) -> (ScrapeView, StepView) {
        if group < config.per_object_metrics@.len() {
            (
                ScrapeView {
                    stage: Stage::Describing { group: group as usize, index: 0 },
                    pending: Seq::empty(),
                    current: Seq::empty(),
                    ..self
                },
                StepView::Send(describe_command(config.per_object_metrics@[group].kind@, 0)),
            )
        } else {
            (
                ScrapeView {
                    stage: Stage::Done,
                    pending: Seq::empty(),
                    current: Seq::empty(),
                    ..self
                },
                StepView::Reply(
                    reply_200(
                        document(entries_of(assembled(config, self.statistics, self.objects))),
                    ),
                ),
            )
        }
    }

    /// The scrape before the object at place `object` among those found for
    /// the group `group`: its statistics are asked for, or, where none is
    /// left, the group is done.
    pub open spec fn fetch(self, config: Config, group: int, object: int) -> (
        ScrapeView,
        StepView,
    ) {
        if object < self.pending.len() {
            (
                ScrapeView {
                    stage: Stage::Fetching { group: group as usize, object: object as usize },
                    ..self
                },
                StepView::Send(
                    stats_command(config.per_object_metrics@[group].kind@, self.pending[object].0),
                ),
            )
        } else {
            (ScrapeView { objects: self.objects.push(self.current), ..self }).enter_group(
                config,
                group + 1,
            )
        }
    }

    /// The scrape at its end after a failure.
    pub open spec fn fail(self) -> (ScrapeView, StepView) {
        (ScrapeView { stage: Stage::Done, ..self }, StepView::Reply(reply_500()))
    }

    /// The scrape after the answer to its last command, and what it asks for
    /// next. A failed exchange and statistics that cannot be decoded end the
    /// scrape with the reply to an internal failure. The objects of a kind
    /// are asked for one index after the other, from zero, until the answer
    /// says `NOSUCHOBJECT`; an object without identifier is passed over. The
    /// statistics of each object with an identifier are asked for then, in
    /// the order of the indices.
    pub open spec fn next(self, config: Config, answer: Option<Seq<u8>>) -> (
        ScrapeView,
        StepView,
    ) {
        match (self.stage, answer) {
            (Stage::Global, Some(frame)) => match decoded_stats(frame) {
                Some(stats) => (ScrapeView {
                    statistics: stats,
                    objects: Seq::empty(),
                    ..self
                }).enter_group(config, 0),
                None => self.fail(),
            },
            (Stage::Describing { group, index }, Some(frame)) => if no_such_object(frame) {
                self.fetch(config, group as int, 0)
            } else if index == usize::MAX {
                self.fail()
            } else {
                (
                    ScrapeView {
                        stage: Stage::Describing { group, index: (index + 1) as usize },
                        pending: match decoded_identifier(frame) {
                            Some(id) => self.pending.push((index as int, id)),
                            None => self.pending,
                        },
                        ..self
                    },
                    StepView::Send(
                        describe_command(
                            config.per_object_metrics@[group as int].kind@,
                            index + 1,
                        ),
                    ),
                )
            },
            (Stage::Fetching { group, object }, Some(frame)) => match decoded_stats(frame) {
                Some(stats) => (ScrapeView {
                    current: self.current.push(
                        ObjectView {
                            index: self.pending[object as int].0,
                            identifier: self.pending[object as int].1,
                            stats,
                        },
                    ),
                    ..self
                }).fetch(config, group as int, object + 1),
                None => self.fail(),
            },
            _ => self.fail(),
        }
    }
}

/// The reply to a request with the method `method`, where the method alone
/// decides it: only `GET` is served.
pub open spec fn method_reply(method: Seq<char>) -> Option<HttpReplyView> {
    if method == "GET"@ {
        None
    } else {
        Some(reply_405())
    }
}

/// One scrape under way.
pub struct Scrape {
    stage: Stage,
    statistics: Stats,
    objects: Vec<Vec<PerObjectStats>>,
    pending: Vec<(usize, String)>,
    current: Vec<PerObjectStats>,
}

/// The objects found, as their users see them.
pub open spec fn pending_views(pending: Seq<(usize, String)>) -> Seq<(int, Seq<char>)> {
    pending.map_values(|p: (usize, String)| (p.0 as int, p.1@))
}

impl View for Scrape {
    type V = ScrapeView;

    closed spec fn view(&self) -> ScrapeView {
        ScrapeView {
            stage: self.stage,
            statistics: stats_view(self.statistics@),
            objects: group_views(self.objects@),
            pending: pending_views(self.pending@),
            current: object_views(self.current@),
        }
    }
}

impl Scrape {
    /// The invariant of a scrape under the configuration `config`: the
    /// statistics that it holds are well formed, and it stands at a place
    /// that the configuration has.
    pub closed spec fn wf(&self, config: Config) -> bool {
        &&& self.statistics.wf()
        &&& stats_wf(self.statistics@)
        &&& objects_wf(self.current@)
        &&& forall|g: int| 0 <= g < self.objects@.len() ==> objects_wf((#[trigger] self.objects@[g])@)
        &&& match self.stage {
            Stage::Global => true,
            Stage::Describing { group, index } => group < config.per_object_metrics@.len()
                && self.objects@.len() == group && self.current@.len() == 0,
            Stage::Fetching { group, object } => group < config.per_object_metrics@.len()
                && self.objects@.len() == group && object < self.pending@.len()
                && self.current@.len() == object,
            Stage::Done => true,
        }
    }

    /// How far the scrape has come.
    pub fn stage(&self) -> (stage: Stage)
        ensures
            stage == self@.stage,
    {
        self.stage
    }

    /// Starts the scrape for a request with the method `method`. Another
    /// method than `GET` is answered at once, and nothing is sent to the
    /// backend; for `GET` the first command asks for the statistics of the
    /// backend as a whole.
    pub fn handle_request(method: &str, config: &Config) -> (r: (Scrape, Step))
        ensures
            r.0.wf(*config),
            match method_reply(method@) {
                Some(reply) => r.0@.stage == Stage::Done && r.1@ == StepView::Reply(reply),
                None => r.0@.stage == Stage::Global && r.1@ == StepView::Send(global_command()),
            },
    {
        let get = same_text(method, "GET");
        let scrape = Scrape {
            stage: if get {
                Stage::Global
            } else {
                Stage::Done
            },
            statistics: TextMap::new(),
            objects: Vec::new(),
            pending: Vec::new(),
            current: Vec::new(),
        };
        if get {
            (scrape, Step::Send(slice_to_vec("STATS .".as_bytes())))
        } else {
            (scrape, Step::Reply(return_405()))
        }
    }

    /// The step into the group `group`.
    fn enter_group(&mut self, config: &Config, group: usize) -> (step: Step)
        requires
            config_fault(*config) is None,
            config_wf(*config),
            labels_suit(*config),
            group <= config.per_object_metrics@.len(),
            old(self).objects@.len() == group,
            old(self).statistics.wf(),
            stats_wf(old(self).statistics@),
            forall|g: int|
                0 <= g < old(self).objects@.len() ==> objects_wf(
                    (#[trigger] old(self).objects@[g])@,
                ),
        ensures
            final(self).wf(*config),
            (final(self)@, step@) == old(self)@.enter_group(*config, group as int),
    {
        self.pending = Vec::new();
        self.current = Vec::new();
        assert(pending_views(self.pending@) =~= Seq::empty());
        assert(object_views(self.current@) =~= Seq::empty());
        if group < config.per_object_metrics.len() {
            self.stage = Stage::Describing { group, index: 0 };
            Step::Send(
                object_command("DESCRIBE ", config.per_object_metrics[group].kind.as_str(), 0),
            )
        } else {
            self.stage = Stage::Done;
            let db = assemble(config, &self.statistics, &self.objects);
            proof {
                lemma_entries(db@);
            }
            let body = encode(&db);
            Step::Reply(
                HttpReply {
                    status: 200,
                    content_type: String::from_str(MIME_TYPE),
                    allow: None,
                    body,
                },
            )
        }
    }

    /// The step to the object at place `object` among those found for the
    /// group `group`.
    fn fetch(&mut self, config: &Config, group: usize, object: usize) -> (step: Step)
        requires
            config_fault(*config) is None,
            config_wf(*config),
            labels_suit(*config),
            group < config.per_object_metrics@.len(),
            old(self).objects@.len() == group,
            object <= old(self).pending@.len(),
            old(self).current@.len() == object,
            objects_wf(old(self).current@),
            old(self).statistics.wf(),
            stats_wf(old(self).statistics@),
            forall|g: int|
                0 <= g < old(self).objects@.len() ==> objects_wf(
                    (#[trigger] old(self).objects@[g])@,
                ),
        ensures
            final(self).wf(*config),
            (final(self)@, step@) == old(self)@.fetch(*config, group as int, object as int),
    {
        if object < self.pending.len() {
            self.stage = Stage::Fetching { group, object };
            assert(pending_views(self.pending@)[object as int].0 == self.pending@[object as int].0);
            Step::Send(
                object_command(
                    "STATS ",
                    config.per_object_metrics[group].kind.as_str(),
                    self.pending[object].0,
                ),
            )
        } else {
            let ghost before = group_views(self.objects@);
            let ghost done = object_views(self.current@);
            let mut finished: Vec<PerObjectStats> = Vec::new();
            std::mem::swap(&mut finished, &mut self.current);
            self.objects.push(finished);
            assert(group_views(self.objects@) =~= before.push(done));
            let next = self.objects.len();
            self.enter_group(config, next)
        }
    }

    /// The end of the scrape after a failure.
    fn fail(&mut self) -> (step: Step)
        ensures
            (final(self)@, step@) == old(self)@.fail(),
            final(self).statistics == old(self).statistics,
            final(self).objects == old(self).objects,
            final(self).current == old(self).current,
            final(self).stage == Stage::Done,
    {
        self.stage = Stage::Done;
        Step::Reply(return_500())
    }

    /// Takes the answer to the command that the scrape sent last, or the
    /// failure of the exchange, and says what the scrape asks for next.
    pub fn on_answer(&mut self, config: &Config, answer: Result<Vec<u8>, Error>) -> (step: Step)
        requires
            old(self).wf(*config),
            config_fault(*config) is None,
            config_wf(*config),
            labels_suit(*config),
        ensures
            final(self).wf(*config),
            (final(self)@, step@) == old(self)@.next(
                *config,
                match answer {
                    Ok(frame) => Some(frame@),
                    Err(_) => None,
                },
            ),
    {
        let frame = match answer {
            Ok(frame) => frame,
            Err(_) => {
                return self.fail();
            },
        };
        match self.stage {
            Stage::Global => match decode_stats(frame.as_slice()) {
                Some(stats) => {
                    self.statistics = stats;
                    self.objects = Vec::new();
                    assert(group_views(self.objects@) =~= Seq::empty());
                    self.enter_group(config, 0)
                },
                None => self.fail(),
            },
            Stage::Describing { group, index } => {
                if is_no_such_object(frame.as_slice()) {
                    self.fetch(config, group, 0)
                } else if index == usize::MAX {
                    self.fail()
                } else {
                    let ghost before = pending_views(self.pending@);
                    match extract_identifier(frame.as_slice()) {
                        Some(id) => {
                            self.pending.push((index, id));
                            assert(pending_views(self.pending@) =~= before.push((index as int, id@)));
                        },
                        None => {},
                    }
                    self.stage = Stage::Describing { group, index: index + 1 };
                    Step::Send(
                        object_command(
                            "DESCRIBE ",
                            config.per_object_metrics[group].kind.as_str(),
                            index + 1,
                        ),
                    )
                }
            },
            Stage::Fetching { group, object } => match decode_stats(frame.as_slice()) {
                Some(stats) => {
                    let ghost before = object_views(self.current@);
                    let found = &self.pending[object];
                    let item = PerObjectStats {
                        index: found.0,
                        identifier: found.1.clone(),
                        stats,
                    };
                    assert(item@ == (ObjectView {
                        index: pending_views(self.pending@)[object as int].0,
                        identifier: pending_views(self.pending@)[object as int].1,
                        stats: stats_view(stats@),
                    }));
                    self.current.push(item);
                    assert(object_views(self.current@) =~= before.push(item@));
                    let next = self.current.len();
                    self.fetch(config, group, next)
                },
                None => self.fail(),
            },
            Stage::Done => self.fail(),
        }
    }
}

} // verus!
