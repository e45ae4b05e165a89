//! The on-disk log record format.
//!
//! A record is what `postcard` writes for an enum value: the variant's index
//! as a LEB128 varint, followed by the variant's fields. A string field is
//! its UTF-8 length as a varint, followed by its UTF-8 bytes.

use vstd::prelude::*;
use vstd::utf8::encode_utf8;
use vstd::string::StringExecFns;

verus! {

#[verifier::external_type_specification]
#[verifier::external_body]
pub struct ExPostcardError(postcard::Error);

/// Size of the scratch buffer used when the logs are replayed on open: a
/// string field longer than this cannot be read back there.
pub const REPLAY_SCRATCH: usize = 1024;

/// One log record: a key was set to a value, or a key was removed.
#[derive(Debug)]
pub enum Command {
    Put { key: String, value: String },
    Remove { key: String },
}

/// The mathematical content of a [`Command`].
pub enum CommandView {
    Put { key: Seq<char>, value: Seq<char> },
    Remove { key: Seq<char> },
}

impl View for Command {
    type V = CommandView;

    open spec fn view(&self) -> CommandView {
        match self {
            Command::Put { key, value } => CommandView::Put { key: key@, value: value@ },
            Command::Remove { key } => CommandView::Remove { key: key@ },
        }
    }
}

impl CommandView {
    pub open spec fn key(self) -> Seq<char> {
        match self {
            CommandView::Put { key, .. } => key,
            CommandView::Remove { key } => key,
        }
    }

    /// The UTF-8 length of the longest string in the command.
    pub open spec fn longest_string(self) -> nat {
        match self {
            CommandView::Put { key, value } => {
                let k = encode_utf8(key).len();
                let v = encode_utf8(value).len();
                if k < v { v } else { k }
            },
            CommandView::Remove { key } => encode_utf8(key).len(),
        }
    }
}

/// LEB128: seven bits per byte, least significant group first, the high
/// bit set on every byte but the last.
pub open spec fn varint(n: nat) -> Seq<u8>
    decreases n,
{
    if n < 128 {
        seq![n as u8]
    } else {
        seq![(n % 128 + 128) as u8] + varint(n / 128)
    }
}

/// A string field: its UTF-8 length, then its UTF-8 bytes.
pub open spec fn encode_str(s: Seq<char>) -> Seq<u8> {
    varint(encode_utf8(s).len()) + encode_utf8(s)
}

/// The bytes of a record.
pub open spec fn encode_command(c: CommandView) -> Seq<u8> {
    match c {
        CommandView::Put { key, value } => seq![0u8] + encode_str(key) + encode_str(value),
        CommandView::Remove { key } => seq![1u8] + encode_str(key),
    }
}

/// What reading one record from the front of a byte sequence gives.
pub enum ReadOutcome {
    /// A record holding this command, of this many bytes.
    Decoded(CommandView, nat),
    /// The bytes ran out, or a string did not fit the scratch buffer.
    UnexpectedEnd,
    /// Anything else that `postcard` refuses.
    Rejected,
}

/// What `postcard::from_io` reads from the front of `bytes` with a scratch
/// buffer of `scratch` bytes.
pub uninterp spec fn postcard_read(bytes: Seq<u8>, scratch: nat) -> ReadOutcome;

/// `record` is read back as `c`, whatever follows it, with any scratch buffer
/// that holds the longest string of `c`; that string is shorter than the
/// record, and the record takes at least two bytes (the variant and the
/// length of the key).
pub open spec fn stored_record(record: Seq<u8>, c: CommandView) -> bool {
    &&& c.longest_string() < record.len()
    &&& 2 <= record.len()
    &&& forall|rest: Seq<u8>, scratch: nat|
        scratch >= c.longest_string() ==> #[trigger] postcard_read(record + rest, scratch)
            == ReadOutcome::Decoded(c, record.len())
}

/// How reading a record failed.
#[derive(Debug)]
pub enum ReadFailure {
    /// `postcard::Error::DeserializeUnexpectedEnd`.
    UnexpectedEnd(postcard::Error),
    /// Any other `postcard` error.
    Rejected(postcard::Error),
}

/// The outcome that a call of [`read_record`] stands for.
pub open spec fn outcome_of(r: Result<(Command, usize), ReadFailure>, input_len: nat) -> ReadOutcome {
    match r {
        Ok((c, rest)) => ReadOutcome::Decoded(c@, (input_len - rest) as nat),
        Err(ReadFailure::UnexpectedEnd(_)) => ReadOutcome::UnexpectedEnd,
        Err(ReadFailure::Rejected(_)) => ReadOutcome::Rejected,
    }
}

/// Reads one record from the front of `bytes` with `postcard::from_io`, the
/// bytes as the reader and a zeroed scratch buffer of `scratch` bytes. The
/// record is decoded as `Result<(String, String), String>`, whose variants
/// `postcard` writes exactly as the two variants of [`Command`]. Returns the
/// command and the number of bytes left unread.
///
/// Claimed of `postcard`: the outcome is the one `postcard_read` names;
/// empty input ends with `DeserializeUnexpectedEnd` (the first byte cannot
/// be read); a record that was read took at least two bytes (the variant
/// and a string's length are each at least one byte), its strings fit
/// the scratch buffer and are shorter than the record, and the same bytes are read back as the same command
/// whatever follows them and with any scratch buffer that holds its longest
/// string (the reader is consumed byte by byte, and the scratch buffer only
/// holds one string at a time).
#[verifier::external_body]
pub(crate) fn read_record(bytes: &[u8], scratch: usize) -> (r: Result<(Command, usize), ReadFailure>)
    ensures
        outcome_of(r, bytes@.len()) == postcard_read(bytes@, scratch as nat),
        bytes@.len() == 0 ==> r matches Err(ReadFailure::UnexpectedEnd(_)),
        r matches Ok((c, rest)) ==> {
            &&& rest < bytes@.len()
            &&& c@.longest_string() <= scratch
            &&& stored_record(bytes@.subrange(0, bytes@.len() - rest), c@)
        },
{
    let mut buf = vec![0u8; scratch];
    match postcard::from_io::<std::result::Result<(String, String), String>, &[u8]>((bytes, &mut buf)) {
        Ok((Ok((key, value)), (rest, _))) => Ok((Command::Put { key, value }, rest.len())),
        Ok((Err(key), (rest, _))) => Ok((Command::Remove { key }, rest.len())),
        Err(postcard::Error::DeserializeUnexpectedEnd) => Err(ReadFailure::UnexpectedEnd(postcard::Error::DeserializeUnexpectedEnd)),
        Err(e) => Err(ReadFailure::Rejected(e)),
    }
}

/// Writes a record with `postcard::to_allocvec`, as the
/// `Result<(&str, &str), &str>` whose encoding is that of the [`Command`].
///
/// Claimed of `postcard`: this always succeeds (the vector flavor never runs
/// out of room), the bytes are the documented wire format, and `from_io`
/// reads them back as the same command.
#[verifier::external_body]
pub(crate) fn write_record(command: &Command) -> (r: Result<Vec<u8>, postcard::Error>)
    ensures
        r is Ok,
        r is Ok ==> r->Ok_0@ == encode_command(command@),
        r is Ok ==> stored_record(r->Ok_0@, command@),
{
    match command {
        Command::Put { key, value } => postcard::to_allocvec(&Ok::<(&str, &str), &str>((key.as_str(), value.as_str()))),
        Command::Remove { key } => postcard::to_allocvec(&Err::<(&str, &str), &str>(key.as_str())),
    }
}

impl Command {
    /// How the command reads: `set <key> <value>` or `rm <key>`.
    pub fn describe(&self) -> (r: String)
        ensures
            r@ == match self@ {
                CommandView::Put { key, value } => "set "@ + key + " "@ + value,
                CommandView::Remove { key } => "rm "@ + key,
            },
    {
        match self {
            Command::Put { key, value } => {
                let mut s = String::from_str("set ");
                s.append(key.as_str());
                s.append(" ");
                s.append(value.as_str());
                s
            },
            Command::Remove { key } => {
                let mut s = String::from_str("rm ");
                s.append(key.as_str());
                s
            },
        }
    }
}

} // verus!
