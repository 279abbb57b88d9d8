use vstd::prelude::*;

verus! {

/// A type with no values. A channel that carries `Void` can never deliver a
/// payload, so the only state transition a receiver can observe is that the
/// channel was closed: exactly the shape a cancellation signal needs.
#[derive(Debug)]
pub enum Void {
    Never(core::convert::Infallible),
}

/// One unit of work submitted to the broker's intake.
///
/// Connection handles and writer queues live outside the library; the broker
/// refers to them through plain identifiers. `conn` names one accepted
/// connection (its socket together with its cancellation receiver), and the
/// broker hands out writer identifiers of its own when it spawns writers.
#[derive(Debug, PartialEq)]
pub enum Event {
    /// A client announced its name on its first line.
    NewPeer { name: String, conn: u64 },
    /// A client asked for `msg` to be delivered to every name in `to`.
    Message { from: String, to: Vec<String>, msg: String },
    /// The writer task registered under `name` has stopped running.
    /// Internally generated: only a writer the broker spawned reports it.
    Disconnect { name: String },
}

/// One instruction from the broker back to the I/O layer, to be performed in
/// order. The broker itself decides; the layer around it acts.
#[derive(Debug, PartialEq)]
pub enum Action {
    /// Create a fresh outbound queue named `writer`, and spawn a writer task
    /// that drains it into the socket of connection `conn` and reports
    /// `Disconnect` for `name` when it stops.
    SpawnWriter { name: String, writer: u64, conn: u64 },
    /// Append `line` to the outbound queue named `writer`.
    Deliver { writer: u64, line: String },
    /// Drop the producer end of the outbound queue named `writer`, closing it.
    Retire { writer: u64 },
}

/// The spec-level image of one `Action`: identifiers as they stand, the
/// delivered line as its character sequence.
pub enum ActionModel {
    SpawnWriter { name: Seq<char>, writer: u64, conn: u64 },
    Deliver { writer: u64, line: Seq<char> },
    Retire { writer: u64 },
}

impl View for Action {
    type V = ActionModel;

    open spec fn view(&self) -> ActionModel {
        match self {
            Action::SpawnWriter { name, writer, conn } => ActionModel::SpawnWriter {
                name: name@,
                writer: *writer,
                conn: *conn,
            },
            Action::Deliver { writer, line } => ActionModel::Deliver {
                writer: *writer,
                line: line@,
            },
            Action::Retire { writer } => ActionModel::Retire { writer: *writer },
        }
    }
}

/// The spec-level images of a sequence of actions, in order.
pub open spec fn models_of(acts: Seq<Action>) -> Seq<ActionModel> {
    acts.map_values(|a: Action| a@)
}

/// The character sequences of a sequence of strings, in order.
pub open spec fn views_of(ss: Seq<String>) -> Seq<Seq<char>> {
    ss.map_values(|s: String| s@)
}

/// Whether `e` is a `NewPeer` event announcing `name` on connection `conn`.
pub open spec fn is_new_peer(e: Event, name: Seq<char>, conn: u64) -> bool {
    e matches Event::NewPeer { name: n, conn: c } && n@ == name && c == conn
}

/// Whether `e` is a `Message` event from `from` to exactly the recipients
/// `to`, carrying `msg`.
pub open spec fn is_message(e: Event, from: Seq<char>, to: Seq<Seq<char>>, msg: Seq<char>) -> bool {
    e matches Event::Message { from: f, to: t, msg: m } && f@ == from && views_of(t@) == to && m@
        == msg
}

} // verus!
