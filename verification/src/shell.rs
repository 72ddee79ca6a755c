//! The interactive front end, as far as it decides anything: what a line of input
//! asks for, what the store does about it, and what is said in reply.

use vstd::prelude::*;
use vstd::std_specs::iter::IteratorSpec;
use vstd::string::{StrSliceExecFns, StringExecFns};
use crate::clock::now;
use crate::database::Database;
use crate::model::{rolled, written, Segment};
use crate::error::Error;
use crate::ident::fresh;
use crate::record::{encode, encoding, fits, Operation, OperationView, MAX_FIELD_BYTES};

verus! {

broadcast use vstd::string::group_string_axioms;

/// What a line of input asks for.
#[derive(Clone, Debug, PartialEq, Eq)]
pub enum Command {
    /// `exit`: end the session.
    Exit,
    /// `get <key>`: show the value of the key.
    Get(String),
    /// `set <key> <value>`: store the value, which is all that follows the key.
    Put(String, String),
    /// `del <key>`: delete the key.
    Delete(String),
    /// Anything else.
    Unsupported,
}

/// A command as a mathematical value.
pub enum CommandView {
    Exit,
    Get(Seq<char>),
    Put(Seq<char>, Seq<char>),
    Delete(Seq<char>),
    Unsupported,
}

impl View for Command {
    type V = CommandView;

    open spec fn view(&self) -> CommandView {
        match self {
            Command::Exit => CommandView::Exit,
            Command::Get(key) => CommandView::Get(key@),
            Command::Put(key, value) => CommandView::Put(key@, value@),
            Command::Delete(key) => CommandView::Delete(key@),
            Command::Unsupported => CommandView::Unsupported,
        }
    }
}

/// The place of the first space in `text`, or the length of `text` where it has none.
pub open spec fn first_space(text: Seq<char>) -> int
    decreases text.len(),
{
    if text.len() == 0 || text[0] == ' ' {
        0
    } else {
        1 + first_space(text.drop_first())
    }
}

/// What a line asks for. The line is taken without its line ending. `exit` alone ends
/// the session; else the word before the first space names the command, and what
/// follows that space is its argument. The argument of `set` is split once more, at
/// its first space, into the key and the value; a `set` without a value is no command,
/// like every other line.
pub open spec fn parse_command(line: Seq<char>) -> CommandView {
    let space = first_space(line);
    let word = line.take(space);
    let rest = line.skip(space + 1);
    let inner = first_space(rest);
    if line == "exit"@ {
        CommandView::Exit
    } else if space >= line.len() {
        CommandView::Unsupported
    } else if word == "get"@ {
        CommandView::Get(rest)
    } else if word == "set"@ {
        if inner >= rest.len() {
            CommandView::Unsupported
        } else {
            CommandView::Put(rest.take(inner), rest.skip(inner + 1))
        }
    } else if word == "del"@ {
        CommandView::Delete(rest)
    } else {
        CommandView::Unsupported
    }
}

/// Whether the store refuses a command: a key or a value is longer than a field of a
/// record may be.
pub open spec fn refused(command: CommandView) -> bool {
    match command {
        CommandView::Put(key, value) => !(fits(key) && fits(value)),
        CommandView::Delete(key) => !fits(key),
        _ => false,
    }
}

/// What a store that holds `held` holds after a command.
pub open spec fn effect(held: Map<Seq<char>, Seq<char>>, command: CommandView) -> Map<
    Seq<char>,
    Seq<char>,
> {
    match command {
        CommandView::Put(key, value) => held.insert(key, value),
        CommandView::Delete(key) => held.remove(key),
        _ => held,
    }
}

/// What is said in reply to a command by a store that holds `held`.
pub open spec fn answer(held: Map<Seq<char>, Seq<char>>, command: CommandView) -> Seq<char> {
    match command {
        CommandView::Exit => "-> exiting"@,
        CommandView::Get(key) => if held.contains_key(key) {
            "-> "@ + held[key]
        } else {
            "-> null"@
        },
        CommandView::Put(key, _) => "-> set "@ + key,
        CommandView::Delete(key) => "-> deleted "@ + key,
        CommandView::Unsupported => "-> err: unsupported command"@,
    }
}

/// The record that carrying out a command at `timestamp` appends to the tail, if it
/// appends one: a `Set` for `set`, a `Delete` for `del`, nothing for the others and
/// nothing where the store refuses the command.
pub open spec fn record_of(command: CommandView, timestamp: u64) -> Option<Seq<u8>> {
    match command {
        CommandView::Put(key, value) => if fits(key) && fits(value) {
            Some(encoding(timestamp, key, OperationView::Put(value)))
        } else {
            None
        },
        CommandView::Delete(key) => if fits(key) {
            Some(encoding(timestamp, key, OperationView::Delete))
        } else {
            None
        },
        _ => None,
    }
}

/// The segments of a store after a command was carried out at `timestamp`, with
/// `spare` as the id for a rollover: a `set` appends to the tail and then applies the
/// rollover rule, a `del` appends to the tail, and nothing else changes anything.
pub open spec fn segments_after(
    segments: Seq<Segment>,
    limit: u64,
    command: CommandView,
    timestamp: u64,
    spare: u128,
) -> Seq<Segment> {
    match command {
        CommandView::Put(key, value) => if fits(key) && fits(value) {
            rolled(written(segments, timestamp, key, OperationView::Put(value)), limit, spare)
        } else {
            segments
        },
        CommandView::Delete(key) => if fits(key) {
            written(segments, timestamp, key, OperationView::Delete)
        } else {
            segments
        },
        _ => segments,
    }
}

/// The time at which a command was carried out, and the id that was at hand for a
/// rollover.
pub struct Stamp {
    pub timestamp: u64,
    pub spare: u128,
}

/// The number of lines of a session that are carried out: all of them up to and with
/// the first `exit` or the first command that the store refuses.
pub open spec fn carried_out(lines: Seq<Seq<char>>) -> nat
    decreases lines.len(),
{
    let command = parse_command(lines[0]);
    if lines.len() == 0 {
        0
    } else if refused(command) || command is Exit {
        1
    } else {
        1 + carried_out(lines.drop_first())
    }
}

/// The segments of a store after the commands of `lines` were carried out in turn,
/// each with its stamp.
pub open spec fn segments_through(
    segments: Seq<Segment>,
    limit: u64,
    lines: Seq<Seq<char>>,
    stamps: Seq<Stamp>,
) -> Seq<Segment>
    decreases lines.len(),
{
    if lines.len() == 0 {
        segments
    } else {
        segments_after(
            segments_through(segments, limit, lines.drop_last(), stamps.drop_last()),
            limit,
            parse_command(lines.last()),
            stamps.last().timestamp,
            stamps.last().spare,
        )
    }
}

/// The texts of a list of strings.
pub open spec fn texts(lines: Seq<String>) -> Seq<Seq<char>> {
    lines.map_values(|line: String| line@)
}

/// What a session prints that starts with a store holding `held` and is given
/// `lines`, one reply for each line up to and with the first `exit`; `None` where the
/// store refuses one of the commands before that.
pub open spec fn session(held: Map<Seq<char>, Seq<char>>, lines: Seq<Seq<char>>) -> Option<
    Seq<Seq<char>>,
>
    decreases lines.len(),
{
    let command = parse_command(lines[0]);
    if lines.len() == 0 {
        Some(Seq::empty())
    } else if refused(command) {
        None
    } else if command is Exit {
        Some(seq![answer(held, command)])
    } else {
        match session(effect(held, command), lines.drop_first()) {
            Some(rest) => Some(seq![answer(held, command)] + rest),
            None => None,
        }
    }
}

/// What the store holds when such a session ends: at its `exit`, at the command that
/// the store refuses, or at the end of the lines.
pub open spec fn held_after(held: Map<Seq<char>, Seq<char>>, lines: Seq<Seq<char>>) -> Map<
    Seq<char>,
    Seq<char>,
>
    decreases lines.len(),
{
    let command = parse_command(lines[0]);
    if lines.len() == 0 || refused(command) || command is Exit {
        held
    } else {
        held_after(effect(held, command), lines.drop_first())
    }
}

/// The first space lies within the text, no space stands before it, and a space
/// stands at it unless it is the end.
pub proof fn lemma_first_space(text: Seq<char>)
    ensures
        0 <= first_space(text) <= text.len(),
        forall|i: int| 0 <= i < first_space(text) ==> text[i] != ' ',
        first_space(text) < text.len() ==> text[first_space(text)] == ' ',
    decreases text.len(),
{
    if text.len() > 0 && text[0] != ' ' {
        let rest = text.drop_first();
        lemma_first_space(rest);
        assert forall|i: int| 0 <= i < first_space(text) implies text[i] != ' ' by {
            if i > 0 {
                assert(rest[i - 1] == text[i]);
            }
        }
    }
}

/// Finds the first space of `text`.
fn find_space(text: &str) -> (at: usize)
    ensures
        at == first_space(text@),
        at <= text@.len(),
{
    let len = text.unicode_len();
    let mut chars = text.chars();
    let mut at: usize = 0;
    proof {
        lemma_first_space(text@);
        assert(text@.skip(0) =~= text@);
    }
    while at < len
        invariant
            len == text@.len(),
            at <= len,
            chars.remaining() == text@.skip(at as int),
            chars.obeys_prophetic_iter_laws(),
            first_space(text@) == at + first_space(text@.skip(at as int)),
        decreases len - at,
    {
        let ghost here = text@.skip(at as int);
        match chars.next() {
            Some(c) => {
                assert(c == here[0]);
                if c == ' ' {
                    return at;
                }
                assert(here.drop_first() =~= text@.skip(at + 1));
                at += 1;
            },
            None => {
                return at;
            },
        }
    }
    proof {
        assert(text@.skip(at as int).len() == 0);
    }
    at
}

impl Command {
    /// Reads a command from a line of input, given without its line ending.
    pub fn parse(line: &str) -> (command: Command)
        ensures
            command@ == parse_command(line@),
    {
        if String::from_str(line) == String::from_str("exit") {
            return Command::Exit;
        }
        let len = line.unicode_len();
        let space = find_space(line);
        if space >= len {
            return Command::Unsupported;
        }
        let word = String::from_str(line.substring_char(0, space));
        let rest = line.substring_char(space + 1, len);
        assert(line@.take(space as int) =~= line@.subrange(0, space as int));
        assert(line@.skip(space + 1) =~= line@.subrange(space + 1, len as int));
        if word == String::from_str("get") {
            Command::Get(String::from_str(rest))
        } else if word == String::from_str("set") {
            let rest_len = rest.unicode_len();
            let inner = find_space(rest);
            if inner >= rest_len {
                Command::Unsupported
            } else {
                assert(rest@.take(inner as int) =~= rest@.subrange(0, inner as int));
                assert(rest@.skip(inner + 1) =~= rest@.subrange(inner + 1, rest_len as int));
                Command::Put(
                    String::from_str(rest.substring_char(0, inner)),
                    String::from_str(rest.substring_char(inner + 1, rest_len)),
                )
            }
        } else if word == String::from_str("del") {
            Command::Delete(String::from_str(rest))
        } else {
            Command::Unsupported
        }
    }

    /// The record that carrying out this command at `timestamp` appends to the tail
    /// of the store, if it appends one.
    pub fn record(&self, timestamp: u64) -> (bytes: Option<Vec<u8>>)
        ensures
            match record_of(self@, timestamp) {
                Some(record) => bytes matches Some(b) && b@ == record,
                None => bytes is None,
            },
    {
        match self {
            Command::Put(key, value) => {
                if key.as_str().as_bytes().len() as u64 > MAX_FIELD_BYTES
                    || value.as_str().as_bytes().len() as u64 > MAX_FIELD_BYTES {
                    None
                } else {
                    Some(encode(key.as_str(), &Operation::Put(value.clone()), timestamp))
                }
            },
            Command::Delete(key) => {
                if key.as_str().as_bytes().len() as u64 > MAX_FIELD_BYTES {
                    None
                } else {
                    Some(encode(key.as_str(), &Operation::Delete, timestamp))
                }
            },
            _ => None,
        }
    }
}

/// What the shell does after a command: the line to print, and whether to stop.
#[derive(Clone, Debug, PartialEq, Eq)]
pub struct Reply {
    pub text: String,
    pub exit: bool,
}

impl Database {
    /// Carries out one command at the current time and says what to print.
    ///
    /// Fails with `FieldTooLarge`, and changes nothing, where the store refuses the
    /// command.
    pub fn execute(&mut self, command: &Command) -> (result: Result<Reply, Error>)
        requires
            old(self).wf(),
        ensures
            final(self).wf(),
            final(self).limit() == old(self).limit(),
            exists|timestamp: u64, spare: u128|
                final(self).segments() == #[trigger] segments_after(
                    old(self).segments(),
                    old(self).limit(),
                    command@,
                    timestamp,
                    spare,
                ),
            refused(command@) ==> result == Err::<Reply, Error>(Error::FieldTooLarge),
            !refused(command@) ==> {
                &&& result matches Ok(reply)
                &&& reply.text@ == answer(old(self)@, command@)
                &&& reply.exit == (command@ is Exit)
                &&& final(self)@ == effect(old(self)@, command@)
            },
    {
        let timestamp = now();
        let spare = fresh();
        self.execute_at(command, timestamp, spare)
    }

    /// Carries out one command at a given time, with a given id to begin the next
    /// segment under, and says what to print.
    ///
    /// Fails with `FieldTooLarge`, and changes nothing, where the store refuses the
    /// command.
    pub fn execute_at(&mut self, command: &Command, timestamp: u64, spare: u128) -> (result:
        Result<Reply, Error>)
        requires
            old(self).wf(),
        ensures
            final(self).wf(),
            final(self).limit() == old(self).limit(),
            final(self).segments() == segments_after(
                old(self).segments(),
                old(self).limit(),
                command@,
                timestamp,
                spare,
            ),
            refused(command@) ==> result == Err::<Reply, Error>(Error::FieldTooLarge),
            !refused(command@) ==> {
                &&& result matches Ok(reply)
                &&& reply.text@ == answer(old(self)@, command@)
                &&& reply.exit == (command@ is Exit)
                &&& final(self)@ == effect(old(self)@, command@)
            },
    {
        let mut exit = false;
        let text = match command {
            Command::Exit => {
                exit = true;
                String::from_str("-> exiting")
            },
            Command::Get(key) => match self.get(key.as_str()) {
                Ok(Some(value)) => String::from_str("-> ").concat(value.as_str()),
                Ok(None) => String::from_str("-> null"),
                Err(error) => { return Err(error); },
            },
            Command::Put(key, value) => match self.set_at(
                key.as_str(),
                value.as_str(),
                timestamp,
                spare,
            ) {
                Ok(()) => String::from_str("-> set ").concat(key.as_str()),
                Err(error) => { return Err(error); },
            },
            Command::Delete(key) => match self.delete_at(key.as_str(), timestamp) {
                Ok(()) => String::from_str("-> deleted ").concat(key.as_str()),
                Err(error) => { return Err(error); },
            },
            Command::Unsupported => String::from_str("-> err: unsupported command"),
        };
        Ok(Reply { text, exit })
    }

    /// Runs a session with a Database: carries out the commands of `lines` in turn,
    /// up to and with the first `exit`, and returns the replies.
    ///
    /// Fails with `FieldTooLarge` at the first command that the store refuses; what
    /// the commands before it did stays done.
    pub fn repl(&mut self, lines: &Vec<String>) -> (result: Result<Vec<String>, Error>)
        requires
            old(self).wf(),
        ensures
            final(self).wf(),
            final(self).limit() == old(self).limit(),
            final(self)@ == held_after(old(self)@, texts(lines@)),
            match session(old(self)@, texts(lines@)) {
                Some(replies) => result matches Ok(printed) && texts(printed@) == replies,
                None => result == Err::<Vec<String>, Error>(Error::FieldTooLarge),
            },
            exists|stamps: Seq<Stamp>|
                {
                    &&& stamps.len() == carried_out(texts(lines@))
                    &&& final(self).segments() == #[trigger] segments_through(
                        old(self).segments(),
                        old(self).limit(),
                        texts(lines@).take(carried_out(texts(lines@)) as int),
                        stamps,
                    )
                },
    {
        let ghost all = texts(lines@);
        let ghost start = self@;
        let ghost first = self.segments();
        let ghost mut stamps: Seq<Stamp> = Seq::empty();
        let mut printed: Vec<String> = Vec::new();
        let mut i: usize = 0;
        assert(all.skip(0) =~= all);
        assert(all.take(0) =~= Seq::<Seq<char>>::empty());
        assert(texts(printed@) + Seq::<Seq<char>>::empty() =~= Seq::<Seq<char>>::empty());
        while i < lines.len()
            invariant
                self.wf(),
                self.limit() == old(self).limit(),
                all == texts(lines@),
                start == old(self)@,
                first == old(self).segments(),
                i <= lines@.len(),
                stamps.len() == i,
                carried_out(all) == i + carried_out(all.skip(i as int)),
                self.segments() == segments_through(
                    first,
                    self.limit(),
                    all.take(i as int),
                    stamps,
                ),
                held_after(start, all) == held_after(self@, all.skip(i as int)),
                match session(self@, all.skip(i as int)) {
                    Some(rest) => session(start, all) == Some(texts(printed@) + rest),
                    None => session(start, all) is None,
                },
            decreases lines@.len() - i,
        {
            let ghost held = self@;
            let ghost left = all.skip(i as int);
            let ghost before = texts(printed@);
            assert(left[0] == lines@[i as int]@);
            assert(left.drop_first() =~= all.skip(i + 1));
            let ghost earlier = self.segments();
            let command = Command::parse(lines[i].as_str());
            let result = self.execute(&command);
            proof {
                let (timestamp, spare) = choose|timestamp: u64, spare: u128|
                    self.segments() == #[trigger] segments_after(
                        earlier,
                        self.limit(),
                        command@,
                        timestamp,
                        spare,
                    );
                let longer = stamps.push(Stamp { timestamp, spare });
                assert(longer.drop_last() =~= stamps);
                assert(all.take(i + 1).drop_last() =~= all.take(i as int));
                assert(all.take(i + 1).last() == left[0]);
                stamps = longer;
                assert(self.segments() == segments_through(
                    first,
                    self.limit(),
                    all.take(i + 1),
                    stamps,
                ));
                assert(carried_out(left) == if refused(command@) || command@ is Exit {
                    1nat
                } else {
                    1 + carried_out(left.drop_first())
                });
            }
            let reply = match result {
                Ok(reply) => reply,
                Err(error) => {
                    return Err(error);
                },
            };
            printed.push(reply.text);
            proof {
                let said = answer(held, command@);
                assert(texts(printed@) =~= before.push(said));
                if command@ is Exit {
                    assert(before + seq![said] =~= before.push(said));
                } else if session(self@, all.skip(i + 1)) is Some {
                    let rest = session(self@, all.skip(i + 1))->0;
                    assert(before + (seq![said] + rest) =~= before.push(said) + rest);
                }
            }
            if reply.exit {
                return Ok(printed);
            }
            i += 1;
        }
        proof {
            assert(all.skip(i as int).len() == 0);
            assert(all.take(i as int) =~= all);
            assert(texts(printed@) + Seq::<Seq<char>>::empty() =~= texts(printed@));
        }
        Ok(printed)
    }
}

} // verus!
