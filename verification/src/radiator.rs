//! The decisions of the protocol client: what is sent at login, how the
//! answer to a login is read, which frames the reader passes on, and how one
//! command is exchanged for its answer over the shared connection.

use vstd::prelude::*;
use vstd::slice::slice_subrange;
use vstd::utf8::encode_utf8;

verus! {

/// The byte that ends a frame.
pub const NUL: u8 = 0;

/// The number of times that an exchange is tried while the reader loses its
/// connection.
pub const ATTEMPTS: u8 = 3;

/// Why the client could not do what it was asked.
#[derive(Debug)]
pub enum Error {
    /// The connection failed; the text says how.
    Io(String),
    /// The backend refused the credentials.
    InvalidCredentials,
    /// The backend answered the login with something unknown.
    UnexpectedLoginResponse { response: Vec<u8> },
    /// The reader lost its connection while an answer was awaited.
    ReaderGone,
}

/// An error as its users see it.
pub enum ErrorView {
    Io(Seq<char>),
    InvalidCredentials,
    UnexpectedLoginResponse { response: Seq<u8> },
    ReaderGone,
}

impl View for Error {
    type V = ErrorView;

    open spec fn view(&self) -> ErrorView {
        match self {
            Error::Io(detail) => ErrorView::Io(detail@),
            Error::InvalidCredentials => ErrorView::InvalidCredentials,
            Error::UnexpectedLoginResponse { response } => ErrorView::UnexpectedLoginResponse {
                response: response@,
            },
            Error::ReaderGone => ErrorView::ReaderGone,
        }
    }
}

impl ErrorView {
    /// The words that describe the error.
    pub open spec fn message(self) -> Seq<char> {
        match self {
            ErrorView::Io(detail) => "I/O error: "@ + detail,
            ErrorView::InvalidCredentials => "invalid credentials"@,
            ErrorView::UnexpectedLoginResponse { .. } => "unexpected login response"@,
            ErrorView::ReaderGone => "the reader has disappeared"@,
        }
    }
}

impl Error {
    /// The words that describe the error.
    pub fn to_string(&self) -> (s: String)
        ensures
            s@ == self@.message(),
    {
        match self {
            Error::Io(detail) => {
                let mut s = String::from_str("I/O error: ");
                s.append(detail.as_str());
                s
            },
            Error::InvalidCredentials => String::from_str("invalid credentials"),
            Error::UnexpectedLoginResponse { .. } => String::from_str("unexpected login response"),
            Error::ReaderGone => String::from_str("the reader has disappeared"),
        }
    }
}

/// The bytes that encode a text.
pub open spec fn utf8(text: Seq<char>) -> Seq<u8> {
    encode_utf8(text)
}

/// The frame that switches the connection to binary mode and logs in.
pub open spec fn login_bytes(username: Seq<char>, password: Seq<char>) -> Seq<u8> {
    utf8("BINARY\r\nLOGIN "@) + utf8(username) + utf8(" "@) + utf8(password) + seq![NUL]
}

/// Appends the bytes of `text` to `out`.
fn push_text(out: &mut Vec<u8>, text: &str)
    ensures
        final(out)@ == old(out)@ + utf8(text@),
{
    let bytes = text.as_bytes();
    let mut i: usize = 0;
    while i < bytes.len()
        invariant
            i <= bytes.len(),
            bytes@ == utf8(text@),
            out@ == old(out)@ + bytes@.take(i as int),
        decreases bytes.len() - i,
    {
        out.push(bytes[i]);
        assert(out@ =~= old(out)@ + bytes@.take(i + 1));
        i += 1;
    }
    assert(bytes@.take(i as int) =~= bytes@);
}

/// The frame that is sent once after connecting: the switch to binary mode
/// and the login in one, ended by a NUL.
pub fn login_frame(username: &str, password: &str) -> (frame: Vec<u8>)
    ensures
        frame@ == login_bytes(username@, password@),
{
    let mut frame: Vec<u8> = Vec::new();
    push_text(&mut frame, "BINARY\r\nLOGIN ");
    push_text(&mut frame, username);
    push_text(&mut frame, " ");
    push_text(&mut frame, password);
    frame.push(NUL);
    assert(frame@ =~= login_bytes(username@, password@));
    frame
}

/// Whether two byte sequences are the same.
pub fn same_bytes(a: &[u8], b: &[u8]) -> (r: bool)
    ensures
        r == (a@ == b@),
{
    if a.len() != b.len() {
        return false;
    }
    let mut i: usize = 0;
    while i < a.len()
        invariant
            i <= a.len(),
            a.len() == b.len(),
            forall|j: int| 0 <= j < i ==> a@[j] == b@[j],
        decreases a.len() - i,
    {
        if a[i] != b[i] {
            return false;
        }
        i += 1;
    }
    assert(a@ =~= b@);
    true
}

/// What the answer to a login means: `LOGGEDIN` for success, `BADLOGIN` for
/// refused credentials, each ended by a NUL and with nothing else; any other
/// answer is unexpected.
pub open spec fn login_outcome(response: Seq<u8>) -> Result<(), ErrorView> {
    if response == utf8("LOGGEDIN\0"@) {
        Ok(())
    } else if response == utf8("BADLOGIN\0"@) {
        Err(ErrorView::InvalidCredentials)
    } else {
        Err(ErrorView::UnexpectedLoginResponse { response })
    }
}

/// Reads the answer to a login.
pub fn check_login(response: Vec<u8>) -> (r: Result<(), Error>)
    ensures
        match r {
            Ok(_) => login_outcome(response@) is Ok,
            Err(e) => login_outcome(response@) == Err::<(), ErrorView>(e@),
        },
{
    if same_bytes(response.as_slice(), "LOGGEDIN\0".as_bytes()) {
        Ok(())
    } else if same_bytes(response.as_slice(), "BADLOGIN\0".as_bytes()) {
        Err(Error::InvalidCredentials)
    } else {
        Err(Error::UnexpectedLoginResponse { response })
    }
}

/// No byte of `bytes` is a NUL.
pub open spec fn nul_free(bytes: Seq<u8>) -> bool {
    forall|i: int| 0 <= i < bytes.len() ==> bytes[i] != NUL
}

/// Whether no byte of `bytes` is a NUL.
pub fn is_nul_free(bytes: &[u8]) -> (r: bool)
    ensures
        r == nul_free(bytes@),
{
    let mut i: usize = 0;
    while i < bytes.len()
        invariant
            i <= bytes.len(),
            forall|j: int| 0 <= j < i ==> bytes@[j] != NUL,
        decreases bytes.len() - i,
    {
        if bytes[i] == NUL {
            return false;
        }
        i += 1;
    }
    true
}

/// The frame of a command: the command and the NUL that ends it. A command
/// holds no NUL itself.
pub fn write_command(command: &[u8]) -> (frame: Vec<u8>)
    requires
        nul_free(command@),
    ensures
        frame@ == command@.push(NUL),
{
    let mut frame: Vec<u8> = Vec::new();
    let mut i: usize = 0;
    while i < command.len()
        invariant
            i <= command.len(),
            frame@ == command@.take(i as int),
        decreases command.len() - i,
    {
        frame.push(command[i]);
        assert(frame@ =~= command@.take(i + 1));
        i += 1;
    }
    assert(command@.take(i as int) =~= command@);
    frame.push(NUL);
    frame
}

/// What the reader does with what it has read.
#[derive(Debug)]
pub enum ReaderAction {
    /// The frame is an answer: it goes to whoever awaits one.
    Forward(Vec<u8>),
    /// The frame is a notification: it is dropped.
    Discard,
    /// The connection is gone: the reader raises the signal and waits for
    /// the next connection.
    ConnectionLost,
}

/// What the reader does with what it has read, as its users see it.
pub enum ReaderActionView {
    Forward(Seq<u8>),
    Discard,
    ConnectionLost,
}

impl View for ReaderAction {
    type V = ReaderActionView;

    open spec fn view(&self) -> ReaderActionView {
        match self {
            ReaderAction::Forward(frame) => ReaderActionView::Forward(frame@),
            ReaderAction::Discard => ReaderActionView::Discard,
            ReaderAction::ConnectionLost => ReaderActionView::ConnectionLost,
        }
    }
}

/// `frame` starts with the bytes `prefix`.
pub open spec fn starts_with(frame: Seq<u8>, prefix: Seq<u8>) -> bool {
    prefix.len() <= frame.len() && frame.take(prefix.len() as int) == prefix
}

/// What the reader does with the bytes of one read, which end with the NUL
/// of the frame unless the stream ended first. Nothing read, or a frame
/// without its NUL, means that the stream has ended. A frame that starts
/// with `LOG ` is a notification. Every other frame is passed on without its
/// NUL.
pub open spec fn reader_action(read: Seq<u8>) -> ReaderActionView {
    if read.len() == 0 || read.last() != NUL {
        ReaderActionView::ConnectionLost
    } else if starts_with(read.drop_last(), utf8("LOG "@)) {
        ReaderActionView::Discard
    } else {
        ReaderActionView::Forward(read.drop_last())
    }
}

/// Decides what the reader does with the bytes of one read.
pub fn message_processor(mut read: Vec<u8>) -> (action: ReaderAction)
    ensures
        action@ == reader_action(read@),
{
    let n = read.len();
    if n == 0 || read[n - 1] != NUL {
        return ReaderAction::ConnectionLost;
    }
    let ghost whole = read@;
    read.pop();
    assert(read@ =~= whole.drop_last());
    let prefix = "LOG ".as_bytes();
    if prefix.len() <= read.len() && same_bytes(
        slice_subrange(read.as_slice(), 0, prefix.len()),
        prefix,
    ) {
        ReaderAction::Discard
    } else {
        ReaderAction::Forward(read)
    }
}

/// What an exchange waits for.
#[derive(Clone, Copy, Debug, PartialEq, Eq, Structural)]
pub enum Phase {
    /// The command has been handed out to be written.
    FirstWrite,
    /// The write failed; a new connection is being made.
    Reconnecting,
    /// The command has been handed out again, over the new connection.
    SecondWrite,
    /// The command is written; the signal of the reader is being taken.
    CheckingSignal,
    /// The answer is awaited.
    AwaitingReply,
    /// The exchange is over.
    Done,
}

/// What happened to what an exchange asked for.
#[derive(Debug)]
pub enum Event {
    /// The frame is written.
    Written,
    /// The frame could not be written; the text says why.
    WriteFailed(String),
    /// A new connection is made and logged in.
    Reconnected,
    /// No new connection could be made.
    ReconnectFailed(Error),
    /// The signal of the reader is taken and lowered; it was raised or not.
    Signal(bool),
    /// The reader has passed on a frame.
    Delivered(Vec<u8>),
    /// The reader will pass on nothing any more.
    ChannelClosed,
}

/// An event as its users see it.
pub enum EventView {
    Written,
    WriteFailed(Seq<char>),
    Reconnected,
    ReconnectFailed(ErrorView),
    Signal(bool),
    Delivered(Seq<u8>),
    ChannelClosed,
}

impl View for Event {
    type V = EventView;

    open spec fn view(&self) -> EventView {
        match self {
            Event::Written => EventView::Written,
            Event::WriteFailed(detail) => EventView::WriteFailed(detail@),
            Event::Reconnected => EventView::Reconnected,
            Event::ReconnectFailed(e) => EventView::ReconnectFailed(e@),
            Event::Signal(raised) => EventView::Signal(*raised),
            Event::Delivered(frame) => EventView::Delivered(frame@),
            Event::ChannelClosed => EventView::ChannelClosed,
        }
    }
}

/// What an exchange asks for next.
#[derive(Debug)]
pub enum Action {
    /// Write the frame to the connection.
    Write(Vec<u8>),
    /// Make a new connection and log in.
    Reconnect,
    /// Take the signal of the reader and lower it.
    TakeSignal,
    /// Wait for the next frame that the reader passes on.
    Receive,
    /// The exchange is over, with the answer or with an error.
    Finish(Result<Vec<u8>, Error>),
}

/// An action as its users see it.
pub enum ActionView {
    Write(Seq<u8>),
    Reconnect,
    TakeSignal,
    Receive,
    Finish(Result<Seq<u8>, ErrorView>),
}

impl View for Action {
    type V = ActionView;

    open spec fn view(&self) -> ActionView {
        match self {
            Action::Write(frame) => ActionView::Write(frame@),
            Action::Reconnect => ActionView::Reconnect,
            Action::TakeSignal => ActionView::TakeSignal,
            Action::Receive => ActionView::Receive,
            Action::Finish(Ok(answer)) => ActionView::Finish(Ok(answer@)),
            Action::Finish(Err(e)) => ActionView::Finish(Err(e@)),
        }
    }
}

/// An exchange as its users see it: the frame of its command, the tries
/// that are left to it, and what it waits for.
pub struct ExchangeView {
    pub frame: Seq<u8>,
    pub attempts_left: int,
    pub phase: Phase,
}

impl ExchangeView {
    /// Whether the exchange, in its phase, waits for the event.
    pub open spec fn expects(self, event: EventView) -> bool {
        match self.phase {
            Phase::FirstWrite | Phase::SecondWrite => event is Written || event is WriteFailed,
            Phase::Reconnecting => event is Reconnected || event is ReconnectFailed,
            Phase::CheckingSignal => event is Signal,
            Phase::AwaitingReply => event is Delivered || event is ChannelClosed,
            Phase::Done => false,
        }
    }

    /// The exchange after the reader was found gone: it starts again with
    /// the write where a try is left to it, and ends with `ReaderGone` where
    /// none is.
    pub open spec fn reader_gone(self) -> (ExchangeView, ActionView) {
        if self.attempts_left > 1 {
            (
                ExchangeView {
                    attempts_left: self.attempts_left - 1,
                    phase: Phase::FirstWrite,
                    ..self
                },
                ActionView::Write(self.frame),
            )
        } else {
            (
                ExchangeView { attempts_left: 0, phase: Phase::Done, ..self },
                ActionView::Finish(Err(ErrorView::ReaderGone)),
            )
        }
    }

    /// The exchange after an event that it waits for, and what it asks for
    /// next. A failed first write leads to one new connection and one more
    /// write; a failure of either ends the exchange. After the write the
    /// signal of the reader is taken: where it was raised, or where the
    /// reader will pass on nothing any more, the reader is gone. The answer
    /// is the next frame that the reader passes on.
    pub open spec fn next(self, event: EventView) -> (ExchangeView, ActionView) {
        match (self.phase, event) {
            (Phase::FirstWrite, EventView::Written) | (Phase::SecondWrite, EventView::Written) => (
                ExchangeView { phase: Phase::CheckingSignal, ..self },
                ActionView::TakeSignal,
            ),
            (Phase::FirstWrite, EventView::WriteFailed(_)) => (
                ExchangeView { phase: Phase::Reconnecting, ..self },
                ActionView::Reconnect,
            ),
            (Phase::SecondWrite, EventView::WriteFailed(detail)) => (
                ExchangeView { phase: Phase::Done, ..self },
                ActionView::Finish(Err(ErrorView::Io(detail))),
            ),
            (Phase::Reconnecting, EventView::Reconnected) => (
                ExchangeView { phase: Phase::SecondWrite, ..self },
                ActionView::Write(self.frame),
            ),
            (Phase::Reconnecting, EventView::ReconnectFailed(e)) => (
                ExchangeView { phase: Phase::Done, ..self },
                ActionView::Finish(Err(e)),
            ),
            (Phase::CheckingSignal, EventView::Signal(raised)) => if raised {
                self.reader_gone()
            } else {
                (ExchangeView { phase: Phase::AwaitingReply, ..self }, ActionView::Receive)
            },
            (Phase::AwaitingReply, EventView::Delivered(answer)) => (
                ExchangeView { phase: Phase::Done, ..self },
                ActionView::Finish(Ok(answer)),
            ),
            (Phase::AwaitingReply, EventView::ChannelClosed) => self.reader_gone(),
            _ => (self, ActionView::Finish(Err(ErrorView::ReaderGone))),
        }
    }
}

/// The exchange of one command for its answer. Whoever drives it holds the
/// connection for itself from the first action to the last, so that no other
/// command comes between the write and the answer.
pub struct Exchange {
    frame: Vec<u8>,
    attempts_left: u8,
    phase: Phase,
}

impl View for Exchange {
    type V = ExchangeView;

    closed spec fn view(&self) -> ExchangeView {
        ExchangeView {
            frame: self.frame@,
            attempts_left: self.attempts_left as int,
            phase: self.phase,
        }
    }
}

impl Exchange {
    /// Starts the exchange of `command`: the first action is the write of
    /// its frame.
    pub fn communicate(command: &[u8]) -> (r: (Exchange, Action))
        requires
            nul_free(command@),
        ensures
            r.0@ == (ExchangeView {
                frame: command@.push(NUL),
                attempts_left: ATTEMPTS as int,
                phase: Phase::FirstWrite,
            }),
            r.1@ == ActionView::Write(command@.push(NUL)),
    {
        let frame = write_command(command);
        let first = frame.clone();
        assert(first@ =~= frame@);
        (Exchange { frame, attempts_left: ATTEMPTS, phase: Phase::FirstWrite }, Action::Write(first))
    }

    /// What the exchange waits for.
    pub fn phase(&self) -> (phase: Phase)
        ensures
            phase == self@.phase,
    {
        self.phase
    }

    /// Whether the exchange waits for the event.
    pub fn expects(&self, event: &Event) -> (r: bool)
        ensures
            r == self@.expects(event@),
    {
        match self.phase {
            Phase::FirstWrite | Phase::SecondWrite => match event {
                Event::Written => true,
                Event::WriteFailed(_) => true,
                _ => false,
            },
            Phase::Reconnecting => match event {
                Event::Reconnected => true,
                Event::ReconnectFailed(_) => true,
                _ => false,
            },
            Phase::CheckingSignal => match event {
                Event::Signal(_) => true,
                _ => false,
            },
            Phase::AwaitingReply => match event {
                Event::Delivered(_) => true,
                Event::ChannelClosed => true,
                _ => false,
            },
            Phase::Done => false,
        }
    }

    /// The step after the reader was found gone.
    fn communicate_again(&mut self) -> (action: Action)
        ensures
            (final(self)@, action@) == old(self)@.reader_gone(),
    {
        if self.attempts_left > 1 {
            self.attempts_left = self.attempts_left - 1;
            self.phase = Phase::FirstWrite;
            let again = self.frame.clone();
            assert(again@ =~= self.frame@);
            Action::Write(again)
        } else {
            self.attempts_left = 0;
            self.phase = Phase::Done;
            Action::Finish(Err(Error::ReaderGone))
        }
    }

    /// Takes the event that the exchange waits for and says what it asks
    /// for next.
    pub fn communicate_inner(&mut self, event: Event) -> (action: Action)
        requires
            old(self)@.expects(event@),
        ensures
            (final(self)@, action@) == old(self)@.next(event@),
    {
        match event {
            Event::Written => {
                self.phase = Phase::CheckingSignal;
                Action::TakeSignal
            },
            Event::WriteFailed(detail) => {
                match self.phase {
                    Phase::FirstWrite => {
                        self.phase = Phase::Reconnecting;
                        Action::Reconnect
                    },
                    _ => {
                        self.phase = Phase::Done;
                        Action::Finish(Err(Error::Io(detail)))
                    },
                }
            },
            Event::Reconnected => {
                self.phase = Phase::SecondWrite;
                let again = self.frame.clone();
                assert(again@ =~= self.frame@);
                Action::Write(again)
            },
            Event::ReconnectFailed(e) => {
                self.phase = Phase::Done;
                Action::Finish(Err(e))
            },
            Event::Signal(raised) => {
                if raised {
                    self.communicate_again()
                } else {
                    self.phase = Phase::AwaitingReply;
                    Action::Receive
                }
            },
            Event::Delivered(answer) => {
                self.phase = Phase::Done;
                Action::Finish(Ok(answer))
            },
            Event::ChannelClosed => self.communicate_again(),
        }
    }
}

/// An exchange ends with an answer only when the reader passes one on while
/// the exchange awaits it, and the answer is that frame: nothing that the
/// exchange is handed at another time becomes its answer.
pub proof fn lemma_answer_is_the_delivered_frame(
    exchange: ExchangeView,
    event: EventView,
    answer: Seq<u8>,
)
    requires
        exchange.expects(event),
        exchange.next(event).1 == ActionView::Finish(Ok(answer)),
    ensures
        exchange.phase == Phase::AwaitingReply,
        event == EventView::Delivered(answer),
{
}

/// An exchange writes its frame at most twice in one try and starts no more
/// tries than it is given: with every write of a new try a try is spent.
pub proof fn lemma_tries_are_bounded(exchange: ExchangeView, event: EventView)
    requires
        exchange.expects(event),
        0 <= exchange.attempts_left,
    ensures
        0 <= exchange.next(event).0.attempts_left <= exchange.attempts_left,
        exchange.next(event).0.frame == exchange.frame,
        exchange.next(event).0.phase == Phase::FirstWrite ==> exchange.next(
            event,
        ).0.attempts_left < exchange.attempts_left,
{
}

} // verus!
