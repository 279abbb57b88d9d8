//! The wire protocol of the relay: newline-delimited UTF-8 text.
//!
//! A client's first line is its chosen peer name, taken verbatim. Every
//! later line is `recipient1,recipient2,...:body`: the part before the first
//! `:` is a comma-separated recipient list, each entry trimmed of surrounding
//! whitespace, and the part after it is the message body, trimmed. A line
//! with no `:` means nothing and is dropped silently.

use vstd::prelude::*;

use crate::types::Event;
use crate::types::is_message;
use crate::types::is_new_peer;
use crate::types::views_of;

verus! {

/// The characters that count as surrounding whitespace when a recipient name
/// or a message body is trimmed: the Unicode white-space code points.
pub open spec fn is_space(c: char) -> bool {
    ||| c as u32 == 0x09
    ||| c as u32 == 0x0a
    ||| c as u32 == 0x0b
    ||| c as u32 == 0x0c
    ||| c as u32 == 0x0d
    ||| c as u32 == 0x20
    ||| c as u32 == 0x85
    ||| c as u32 == 0xa0
    ||| c as u32 == 0x1680
    ||| (0x2000 <= c as u32 && c as u32 <= 0x200a)
    ||| c as u32 == 0x2028
    ||| c as u32 == 0x2029
    ||| c as u32 == 0x202f
    ||| c as u32 == 0x205f
    ||| c as u32 == 0x3000
}

/// Whether `c` is one of the characters that trimming removes.
pub fn is_space_char(c: char) -> (r: bool)
    ensures
        r == is_space(c),
{
    let u = c as u32;
    u == 0x09 || u == 0x0a || u == 0x0b || u == 0x0c || u == 0x0d || u == 0x20 || u == 0x85
        || u == 0xa0 || u == 0x1680 || (0x2000 <= u && u <= 0x200a) || u == 0x2028 || u == 0x2029
        || u == 0x202f || u == 0x205f || u == 0x3000
}

/// The position of the first occurrence of `c` in `s`, if there is one.
pub open spec fn first_index_of(s: Seq<char>, c: char) -> Option<int>
    decreases s.len(),
{
    if s.len() == 0 {
        None
    } else if s[0] == c {
        Some(0int)
    } else {
        match first_index_of(s.drop_first(), c) {
            None => None,
            Some(i) => Some(i + 1),
        }
    }
}

proof fn lemma_first_index_some(s: Seq<char>, c: char, i: int)
    requires
        0 <= i < s.len(),
        s[i] == c,
        forall|j: int| 0 <= j < i ==> s[j] != c,
    ensures
        first_index_of(s, c) == Some(i),
    decreases i,
{
    if i == 0 {
    } else {
        assert(s[0] != c);
        assert(s.drop_first()[i - 1] == c);
        assert(forall|j: int| 0 <= j < i - 1 ==> s.drop_first()[j] == s[j + 1] && s[j + 1] != c);
        lemma_first_index_some(s.drop_first(), c, i - 1);
    }
}

proof fn lemma_first_index_none(s: Seq<char>, c: char)
    requires
        forall|j: int| 0 <= j < s.len() ==> s[j] != c,
    ensures
        first_index_of(s, c) is None,
    decreases s.len(),
{
    if s.len() > 0 {
        assert(forall|j: int|
            0 <= j < s.drop_first().len() ==> s.drop_first()[j] == s[j + 1] && s[j + 1] != c);
        lemma_first_index_none(s.drop_first(), c);
    }
}

/// Where the first occurrence of `c` stands in `s`, or `None` if `c` does not
/// occur; positions count characters, not bytes.
pub fn find_char(s: &str, c: char) -> (r: Option<usize>)
    ensures
        match r {
            Some(i) => first_index_of(s@, c) == Some(i as int),
            None => first_index_of(s@, c) is None,
        },
{
    let n = s.unicode_len();
    let mut i: usize = 0;
    while i < n
        invariant
            0 <= i <= n,
            n == s@.len(),
            forall|j: int| 0 <= j < i ==> s@[j] != c,
        decreases n - i,
    {
        if s.get_char(i) == c {
            proof {
                lemma_first_index_some(s@, c, i as int);
            }
            return Some(i);
        }
        i = i + 1;
    }
    proof {
        lemma_first_index_none(s@, c);
    }
    None
}

/// `s` with every leading and trailing white-space character removed.
pub open spec fn trim_spec(s: Seq<char>) -> Seq<char>
    decreases s.len(),
{
    if s.len() > 0 && is_space(s[0]) {
        trim_spec(s.drop_first())
    } else if s.len() > 0 && is_space(s[s.len() - 1]) {
        trim_spec(s.drop_last())
    } else {
        s
    }
}

/// `s` without its surrounding whitespace, as `str::trim` strips it.
pub fn trim(s: &str) -> (r: &str)
    ensures
        r@ == trim_spec(s@),
    decreases s@.len(),
{
    let n = s.unicode_len();
    if n == 0 {
        s
    } else if is_space_char(s.get_char(0)) {
        let rest = s.substring_char(1, n);
        assert(rest@ == s@.drop_first());
        trim(rest)
    } else if is_space_char(s.get_char(n - 1)) {
        let rest = s.substring_char(0, n - 1);
        assert(rest@ == s@.drop_last());
        trim(rest)
    } else {
        s
    }
}

proof fn lemma_first_index_props(s: Seq<char>, c: char)
    ensures
        match first_index_of(s, c) {
            Some(i) => 0 <= i < s.len() && s[i] == c && (forall|j: int| 0 <= j < i ==> s[j] != c),
            None => forall|j: int| 0 <= j < s.len() ==> s[j] != c,
        },
    decreases s.len(),
{
    if s.len() == 0 {
    } else if s[0] == c {
    } else {
        let df = s.drop_first();
        lemma_first_index_props(df, c);
        match first_index_of(df, c) {
            Some(i) => {
                assert(df[i] == s[i + 1]);
                assert forall|j: int| 0 <= j < i + 1 implies s[j] != c by {
                    if j > 0 {
                        assert(s[j] == df[j - 1]);
                    }
                }
            },
            None => {
                assert forall|j: int| 0 <= j < s.len() implies s[j] != c by {
                    if j > 0 {
                        assert(s[j] == df[j - 1]);
                    }
                }
            },
        }
    }
}

/// The segments of `s` between occurrences of `sep`, in order. An empty
/// sequence has one empty segment, as `str::split` would have it; every
/// occurrence of `sep` separates two segments.
pub open spec fn split_spec(s: Seq<char>, sep: char) -> Seq<Seq<char>>
    decreases s.len(),
{
    if s.len() == 0 {
        seq![Seq::<char>::empty()]
    } else if s[0] == sep {
        seq![Seq::<char>::empty()] + split_spec(s.drop_first(), sep)
    } else {
        let rest = split_spec(s.drop_first(), sep);
        seq![seq![s[0]] + rest[0]] + rest.drop_first()
    }
}

proof fn lemma_split_no_sep(s: Seq<char>, sep: char)
    requires
        forall|j: int| 0 <= j < s.len() ==> s[j] != sep,
    ensures
        split_spec(s, sep) == seq![s],
    decreases s.len(),
{
    if s.len() == 0 {
        assert(split_spec(s, sep) =~~= seq![s]);
    } else {
        assert(forall|j: int| 0 <= j < s.drop_first().len() ==> s.drop_first()[j] == s[j + 1]);
        lemma_split_no_sep(s.drop_first(), sep);
        assert(seq![s[0]] + s.drop_first() =~= s);
        assert(split_spec(s, sep) =~~= seq![s]);
    }
}

proof fn lemma_split_at_first(s: Seq<char>, sep: char, i: int)
    requires
        0 <= i < s.len(),
        s[i] == sep,
        forall|j: int| 0 <= j < i ==> s[j] != sep,
    ensures
        split_spec(s, sep) == seq![s.subrange(0, i)] + split_spec(
            s.subrange(i + 1, s.len() as int),
            sep,
        ),
    decreases i,
{
    if i == 0 {
        assert(s.subrange(0, 0) =~= Seq::<char>::empty());
        assert(s.subrange(1, s.len() as int) =~= s.drop_first());
        assert(split_spec(s, sep) =~~= seq![s.subrange(0, i)] + split_spec(
            s.subrange(i + 1, s.len() as int),
            sep,
        ));
    } else {
        let df = s.drop_first();
        assert(forall|j: int| 0 <= j < df.len() ==> df[j] == s[j + 1]);
        assert(df[i - 1] == sep);
        lemma_split_at_first(df, sep, i - 1);
        let rest = split_spec(df, sep);
        assert(rest[0] == df.subrange(0, i - 1));
        assert(seq![s[0]] + df.subrange(0, i - 1) =~= s.subrange(0, i));
        assert(rest.drop_first() =~~= split_spec(df.subrange(i, df.len() as int), sep));
        assert(df.subrange(i, df.len() as int) =~= s.subrange(i + 1, s.len() as int));
        assert(split_spec(s, sep) =~~= seq![s.subrange(0, i)] + split_spec(
            s.subrange(i + 1, s.len() as int),
            sep,
        ));
    }
}

/// The recipient list that the part of a line before its first `:` denotes:
/// its comma-separated segments, each trimmed of surrounding whitespace.
pub open spec fn recipients_spec(s: Seq<char>) -> Seq<Seq<char>> {
    split_spec(s, ',').map_values(|x: Seq<char>| trim_spec(x))
}

/// The comma-separated segments of `s`, each trimmed, as owned strings.
pub fn split_recipients(s: &str) -> (r: Vec<String>)
    ensures
        r@.len() == recipients_spec(s@).len(),
        forall|k: int| 0 <= k < r@.len() ==> r@[k]@ == recipients_spec(s@)[k],
    decreases s@.len(),
{
    proof {
        lemma_first_index_props(s@, ',');
    }
    let n = s.unicode_len();
    match find_char(s, ',') {
        None => {
            let head = trim(s).to_owned();
            let mut v: Vec<String> = Vec::new();
            v.push(head);
            proof {
                lemma_split_no_sep(s@, ',');
            }
            v
        },
        Some(i) => {
            let head = trim(s.substring_char(0, i)).to_owned();
            let tail = s.substring_char(i + 1, n);
            let mut rest = split_recipients(tail);
            let ghost tail_parts = rest@;
            rest.insert(0, head);
            proof {
                lemma_split_at_first(s@, ',', i as int);
                assert(rest@[0]@ == recipients_spec(s@)[0]);
                assert forall|k: int|
                    1 <= k < rest@.len() implies rest@[k]@ == recipients_spec(s@)[k] by {
                    assert(rest@[k] == tail_parts[k - 1]);
                    assert(split_spec(s@, ',')[k] == split_spec(tail@, ',')[k - 1]);
                    assert(tail_parts[k - 1]@ == recipients_spec(tail@)[k - 1]);
                }
            }
            rest
        },
    }
}

/// The line delivered to a recipient of a message: `from {sender}: {body}`
/// followed by a newline.
pub open spec fn line_spec(from: Seq<char>, body: Seq<char>) -> Seq<char> {
    "from "@ + from + ": "@ + body + "\n"@
}

/// Format the delivery line `from {sender}: {body}\n`.
pub fn delivery_line(from: &str, body: &str) -> (r: String)
    ensures
        r@ == line_spec(from@, body@),
{
    let mut r = "from ".to_owned();
    r.append(from);
    r.append(": ");
    r.append(body);
    r.append("\n");
    proof {
        assert(r@ =~= line_spec(from@, body@));
    }
    r
}

/// What a protocol line after the name line means: nothing for a line without
/// a `:`; otherwise the trimmed recipient segments before the first `:`,
/// together with the trimmed body after it.
pub open spec fn parse_spec(s: Seq<char>) -> Option<(Seq<Seq<char>>, Seq<char>)> {
    match first_index_of(s, ':') {
        None => None,
        Some(i) => Some(
            (recipients_spec(s.subrange(0, i)), trim_spec(s.subrange(i + 1, s.len() as int))),
        ),
    }
}

/// Split one addressed line into its recipient list and its body, or report
/// that the line has no `:` and therefore means nothing.
pub fn parse_line(line: &str) -> (r: Option<(Vec<String>, String)>)
    ensures
        (r is Some) == (parse_spec(line@) is Some),
        r matches Some(p) ==> (parse_spec(line@) matches Some(sp) && p.0@.len() == sp.0.len() && (
        forall|k: int| 0 <= k < sp.0.len() ==> p.0@[k]@ == sp.0[k]) && p.1@ == sp.1),
{
    proof {
        lemma_first_index_props(line@, ':');
    }
    let n = line.unicode_len();
    match find_char(line, ':') {
        None => None,
        Some(i) => {
            let dest = split_recipients(line.substring_char(0, i));
            let body = trim(line.substring_char(i + 1, n)).to_owned();
            Some((dest, body))
        },
    }
}

/// The read side of one client connection: which accepted connection it
/// serves, and the peer name announced on its first line, once one arrived.
///
/// The handler has no other state: closing the cancellation channel when the
/// read side stops is the I/O layer's duty, and needs no decision.
pub struct Connection {
    conn: u64,
    name: Option<String>,
}

impl Connection {
    /// The identifier of the accepted connection this handler reads from.
    pub closed spec fn conn_id(self) -> u64 {
        self.conn
    }

    /// The name this connection announced on its first line, if any yet.
    pub closed spec fn peer_name(self) -> Option<Seq<char>> {
        match self.name {
            Some(n) => Some(n@),
            None => None,
        }
    }

    /// A handler for a fresh connection that has not yet announced a name.
    pub fn new(conn: u64) -> (c: Connection)
        ensures
            c.conn_id() == conn,
            c.peer_name() is None,
    {
        Connection { conn, name: None }
    }

    /// Consume one line read from this connection's socket and say which
    /// event it means. The first line is the peer's name, taken verbatim, and
    /// announces a new peer; every later line is an addressed message from
    /// that peer, and a line with no `:` means nothing at all.
    pub fn on_line(&mut self, line: &str) -> (ev: Option<Event>)
        ensures
            final(self).conn_id() == old(self).conn_id(),
            match old(self).peer_name() {
                None => final(self).peer_name() == Some(line@) && (ev matches Some(e)
                    && is_new_peer(e, line@, old(self).conn_id())),
                Some(n) => final(self).peer_name() == old(self).peer_name() && match parse_spec(
                    line@,
                ) {
                    None => ev is None,
                    Some(sp) => ev matches Some(e) && is_message(e, n, sp.0, sp.1),
                },
            },
    {
        match &self.name {
            None => {
                let announced = line.to_owned();
                self.name = Some(line.to_owned());
                Some(Event::NewPeer { name: announced, conn: self.conn })
            },
            Some(n) => {
                match parse_line(line) {
                    None => None,
                    Some((dest, body)) => {
                        proof {
                            assert(views_of(dest@) =~= parse_spec(line@).unwrap().0);
                        }
                        Some(Event::Message { from: n.clone(), to: dest, msg: body })
                    },
                }
            },
        }
    }
}

} // verus!
