use vstd::prelude::*;
use vstd::bytes::spec_u64_from_le_bytes;
use vstd::bytes::spec_u64_to_le_bytes;
use vstd::bytes::lemma_auto_spec_u64_to_from_le_bytes;
use vstd::bytes::u64_from_le_bytes;
use vstd::bytes::u64_to_le_bytes;
use vstd::utf8::encode_utf8;
use vstd::utf8::decode_utf8;
use vstd::utf8::valid_utf8;
use vstd::utf8::encode_utf8_valid_utf8;
use vstd::utf8::encode_utf8_decode_utf8;
use vstd::utf8::decode_utf8_encode_utf8;
use vstd::slice::slice_subrange;
use vstd::slice::slice_to_vec;
use vstd::string::StrSliceExecFns;
use crate::error::KvsError;

verus! {

/// Tag byte that opens the encoding of a `Set` record.
pub const TAG_PUT: u8 = 0;

/// Tag byte that opens the encoding of a `Remove` record.
pub const TAG_REMOVE: u8 = 1;

/// A single mutation, as it is written to a log file.
pub enum Command {
    Put { key: String, value: String },
    Remove { key: String },
}

/// The mathematical value of a `Command`: the same two variants over
/// character sequences.
pub enum CommandView {
    Put { key: Seq<char>, value: Seq<char> },
    Remove { key: Seq<char> },
}

impl View for Command {
    type V = CommandView;

    open spec fn view(&self) -> CommandView {
        match self {
            Command::Put { key, value } => CommandView::Put { key: key@, value: value@ },
            Command::Remove { key } => CommandView::Remove { key: key@ },
        }
    }
}

impl Command {
    /// The `Set` record for the given key and value.
    pub fn set(key: String, value: String) -> (c: Command)
        ensures
            c@ == (CommandView::Put { key: key@, value: value@ }),
    {
        Command::Put { key, value }
    }

    /// The `Remove` record for the given key.
    pub fn remove(key: String) -> (c: Command)
        ensures
            c@ == (CommandView::Remove { key: key@ }),
    {
        Command::Remove { key }
    }
}

/// The key of a record.
pub open spec fn record_key(c: CommandView) -> Seq<char> {
    match c {
        CommandView::Put { key, .. } => key,
        CommandView::Remove { key } => key,
    }
}

/// A string can be framed by a length prefix only if its byte length fits
/// the 8-byte prefix.  Every executable `String` satisfies this.
pub open spec fn str_encodable(s: Seq<char>) -> bool {
    encode_utf8(s).len() <= u64::MAX
}

/// A record whose strings can be framed.
pub open spec fn command_wf(c: CommandView) -> bool {
    match c {
        CommandView::Put { key, value } => str_encodable(key) && str_encodable(value),
        CommandView::Remove { key } => str_encodable(key),
    }
}

/// The framing of one string: its UTF-8 byte length as 8 little-endian
/// bytes, then its UTF-8 bytes.
pub open spec fn encoded_str(s: Seq<char>) -> Seq<u8> {
    spec_u64_to_le_bytes(encode_utf8(s).len() as u64) + encode_utf8(s)
}

/// The encoding of one record: a tag byte, then the framed key, and for a
/// `Set` also the framed value.  The encoding is a function of the record
/// alone, so the byte length of a record is deterministic.
pub open spec fn encoded(c: CommandView) -> Seq<u8> {
    match c {
        CommandView::Put { key, value } => seq![TAG_PUT] + encoded_str(key) + encoded_str(value),
        CommandView::Remove { key } => seq![TAG_REMOVE] + encoded_str(key),
    }
}

/// Decoding one framed string that starts at offset `i` of `data`:
/// the string together with the offset just past it.
pub open spec fn decode_str_at(data: Seq<u8>, i: int) -> Option<(Seq<char>, int)> {
    if 0 <= i && i + 8 <= data.len() {
        let n = spec_u64_from_le_bytes(data.subrange(i, i + 8)) as int;
        if i + 8 + n <= data.len() {
            let b = data.subrange(i + 8, i + 8 + n);
            if valid_utf8(b) {
                Some((decode_utf8(b), i + 8 + n))
            } else {
                None
            }
        } else {
            None
        }
    } else {
        None
    }
}

/// Decoding one record that starts at offset `i` of `data`: the record
/// together with the offset just past it.  The framing is self-delimiting:
/// the end of the record is found from the tag and the length prefixes,
/// with no outside length field.
pub open spec fn decode_command_at(data: Seq<u8>, i: int) -> Option<(CommandView, int)> {
    if 0 <= i && i < data.len() {
        let tag = data[i];
        if tag == TAG_PUT {
            match decode_str_at(data, i + 1) {
                Some((key, j)) => match decode_str_at(data, j) {
                    Some((value, end)) => Some(
                        (CommandView::Put { key, value }, end),
                    ),
                    None => None,
                },
                None => None,
            }
        } else if tag == TAG_REMOVE {
            match decode_str_at(data, i + 1) {
                Some((key, end)) => Some((CommandView::Remove { key }, end)),
                None => None,
            }
        } else {
            None
        }
    } else {
        None
    }
}

/// The records read from `data` starting at offset `i`, when the bytes
/// from `i` to the end are a concatenation of record encodings; `None`
/// when they are not.
pub open spec fn records_from(data: Seq<u8>, i: int) -> Option<Seq<CommandView>>
    decreases data.len() - i,
{
    if i == data.len() {
        Some(Seq::empty())
    } else {
        match decode_command_at(data, i) {
            Some((c, j)) => if i < j <= data.len() {
                match records_from(data, j) {
                    Some(rest) => Some(seq![c] + rest),
                    None => None,
                }
            } else {
                None
            },
            None => None,
        }
    }
}

/// The records of a whole log file, read from offset 0.
pub open spec fn stream_records(data: Seq<u8>) -> Option<Seq<CommandView>> {
    records_from(data, 0)
}

/// A decoded framed string sits within the data, took at least its prefix,
/// and re-encodes to exactly the bytes it was read from.
pub proof fn lemma_decode_str_gives_encoded(data: Seq<u8>, i: int)
    requires
        decode_str_at(data, i) is Some,
    ensures
        ({
            let (s, end) = decode_str_at(data, i).unwrap();
            &&& i + 8 <= end <= data.len()
            &&& str_encodable(s)
            &&& encoded_str(s) == data.subrange(i, end)
            &&& encoded_str(s).len() == end - i
        }),
{
    let (s, end) = decode_str_at(data, i).unwrap();
    let n = spec_u64_from_le_bytes(data.subrange(i, i + 8)) as int;
    let b = data.subrange(i + 8, i + 8 + n);
    decode_utf8_encode_utf8(b);
    assert(encode_utf8(s) == b);
    lemma_auto_spec_u64_to_from_le_bytes();
    assert(spec_u64_to_le_bytes(spec_u64_from_le_bytes(data.subrange(i, i + 8))) == data.subrange(
        i,
        i + 8,
    ));
    assert(encoded_str(s) =~= data.subrange(i, end));
}

/// Decoding at an offset where a framed string was laid down yields that
/// string back.
pub proof fn lemma_decode_str_encoded(data: Seq<u8>, i: int, s: Seq<char>)
    requires
        str_encodable(s),
        0 <= i,
        i + encoded_str(s).len() <= data.len(),
        data.subrange(i, i + encoded_str(s).len()) == encoded_str(s),
    ensures
        decode_str_at(data, i) == Some((s, i + encoded_str(s).len())),
{
    lemma_auto_spec_u64_to_from_le_bytes();
    let bytes = encode_utf8(s);
    let len = bytes.len() as int;
    assert(encoded_str(s).len() == 8 + len);
    assert(data.subrange(i, i + 8) =~= encoded_str(s).subrange(0, 8));
    assert(encoded_str(s).subrange(0, 8) =~= spec_u64_to_le_bytes(len as u64));
    assert(spec_u64_from_le_bytes(data.subrange(i, i + 8)) == len as u64);
    assert(data.subrange(i + 8, i + 8 + len) =~= encoded_str(s).subrange(8, 8 + len));
    assert(encoded_str(s).subrange(8, 8 + len) =~= bytes);
    encode_utf8_valid_utf8(s);
    encode_utf8_decode_utf8(s);
}

/// A decoded record sits within the data, took at least one byte, is
/// well formed, and re-encodes to exactly the bytes it was read from.
pub proof fn lemma_decode_gives_encoded(data: Seq<u8>, i: int)
    requires
        decode_command_at(data, i) is Some,
    ensures
        ({
            let (c, end) = decode_command_at(data, i).unwrap();
            &&& i < end <= data.len()
            &&& command_wf(c)
            &&& encoded(c) == data.subrange(i, end)
            &&& encoded(c).len() == end - i
        }),
{
    let (c, end) = decode_command_at(data, i).unwrap();
    match c {
        CommandView::Put { key, value } => {
            let (k, j) = decode_str_at(data, i + 1).unwrap();
            lemma_decode_str_gives_encoded(data, i + 1);
            lemma_decode_str_gives_encoded(data, j);
            assert(encoded(c) =~= data.subrange(i, end));
        },
        CommandView::Remove { key } => {
            lemma_decode_str_gives_encoded(data, i + 1);
            assert(encoded(c) =~= data.subrange(i, end));
        },
    }
}

/// Decoding at an offset where a record was laid down yields that record
/// back: the framing delimits records without outside help.
pub proof fn lemma_decode_encoded(data: Seq<u8>, i: int, c: CommandView)
    requires
        command_wf(c),
        0 <= i,
        i + encoded(c).len() <= data.len(),
        data.subrange(i, i + encoded(c).len()) == encoded(c),
    ensures
        decode_command_at(data, i) == Some((c, i + encoded(c).len())),
{
    assert(data[i] == encoded(c)[0]);
    match c {
        CommandView::Put { key, value } => {
            let ek = encoded_str(key);
            let ev = encoded_str(value);
            assert(data.subrange(i + 1, i + 1 + ek.len()) =~= ek) by {
                assert(data.subrange(i, i + encoded(c).len())
                    == seq![TAG_PUT] + ek + ev);
                assert forall|t: int| 0 <= t < ek.len() implies data[i + 1 + t] == ek[t] by {
                    assert(data.subrange(i, i + encoded(c).len())[1 + t] == ek[t]);
                }
            }
            lemma_decode_str_encoded(data, i + 1, key);
            let j = i + 1 + ek.len();
            assert(data.subrange(j, j + ev.len()) =~= ev) by {
                assert forall|t: int| 0 <= t < ev.len() implies data[j + t] == ev[t] by {
                    assert(data.subrange(i, i + encoded(c).len())[1 + ek.len() + t] == ev[t]);
                }
            }
            lemma_decode_str_encoded(data, j, value);
        },
        CommandView::Remove { key } => {
            let ek = encoded_str(key);
            assert(data.subrange(i + 1, i + 1 + ek.len()) =~= ek) by {
                assert forall|t: int| 0 <= t < ek.len() implies data[i + 1 + t] == ek[t] by {
                    assert(data.subrange(i, i + encoded(c).len())[1 + t] == ek[t]);
                }
            }
            lemma_decode_str_encoded(data, i + 1, key);
        },
    }
}

/// Law: encoding a record and decoding the bytes yields the record back,
/// `Set` and `Remove` alike.
pub proof fn lemma_encode_then_decode(c: CommandView)
    requires
        command_wf(c),
    ensures
        decode_command_at(encoded(c), 0) == Some((c, encoded(c).len() as int)),
{
    assert(encoded(c).subrange(0, encoded(c).len() as int) =~= encoded(c));
    lemma_decode_encoded(encoded(c), 0, c);
}

/// Appending the encoding of a record to a well-formed stream appends the
/// record to the stream's record list, and touches nothing before it.
pub proof fn lemma_records_from_append(data: Seq<u8>, i: int, c: CommandView)
    requires
        0 <= i <= data.len(),
        records_from(data, i) is Some,
        command_wf(c),
    ensures
        records_from(data + encoded(c), i) == Some(
            records_from(data, i).unwrap() + seq![c],
        ),
    decreases data.len() - i,
{
    let ext = data + encoded(c);
    if i == data.len() {
        assert(ext.subrange(i, i + encoded(c).len()) =~= encoded(c));
        lemma_decode_encoded(ext, i, c);
        assert(records_from(ext, i + encoded(c).len()) == Some(Seq::<CommandView>::empty()));
        assert(records_from(ext, i).unwrap() =~= records_from(data, i).unwrap() + seq![c]);
    } else {
        let (c0, j) = decode_command_at(data, i).unwrap();
        lemma_decode_gives_encoded(data, i);
        assert(ext.subrange(i, i + encoded(c0).len()) =~= data.subrange(i, j));
        lemma_decode_encoded(ext, i, c0);
        lemma_records_from_append(data, j, c);
        assert(records_from(ext, i).unwrap() =~= records_from(data, i).unwrap() + seq![c]);
    }
}

/// A whole-file corollary of [`lemma_records_from_append`].
pub proof fn lemma_stream_append(data: Seq<u8>, c: CommandView)
    requires
        stream_records(data) is Some,
        command_wf(c),
    ensures
        stream_records(data + encoded(c)) == Some(stream_records(data).unwrap() + seq![c]),
{
    lemma_records_from_append(data, 0, c);
}

/// Relies on `String::from_utf8`: it succeeds exactly on valid UTF-8
/// input, and the returned string's UTF-8 bytes are the input bytes.
#[verifier::external_body]
pub(crate) fn string_from_utf8(bytes: Vec<u8>) -> (r: Option<String>)
    ensures
        r is Some <==> valid_utf8(bytes@),
        r is Some ==> encode_utf8(r.unwrap()@) == bytes@,
{
    String::from_utf8(bytes).ok()
}

/// Appends the framing of `s` to `out`.
fn encode_str_onto(s: &str, out: &mut Vec<u8>)
    ensures
        final(out)@ == old(out)@ + encoded_str(s@),
        str_encodable(s@),
{
    let bytes = s.as_bytes_vec();
    let len_bytes = u64_to_le_bytes(bytes.len() as u64);
    let ghost prefix = out@;
    out.extend_from_slice(len_bytes.as_slice());
    out.extend_from_slice(bytes.as_slice());
    proof {
        assert(out@ =~= prefix + encoded_str(s@));
    }
}

/// Encodes one record to its byte run.
pub fn encode_command(cmd: &Command) -> (out: Vec<u8>)
    ensures
        out@ == encoded(cmd@),
        command_wf(cmd@),
{
    let mut out: Vec<u8> = Vec::new();
    match cmd {
        Command::Put { key, value } => {
            out.push(TAG_PUT);
            encode_str_onto(key.as_str(), &mut out);
            encode_str_onto(value.as_str(), &mut out);
            proof {
                assert(out@ =~= encoded(cmd@));
            }
        },
        Command::Remove { key } => {
            out.push(TAG_REMOVE);
            encode_str_onto(key.as_str(), &mut out);
            proof {
                assert(out@ =~= encoded(cmd@));
            }
        },
    }
    out
}

/// Reads the framed string that starts at `start`.
fn decode_str(data: &Vec<u8>, start: usize) -> (r: Result<(String, usize), KvsError>)
    requires
        start <= data@.len(),
    ensures
        match r {
            Ok((s, end)) => decode_str_at(data@, start as int) == Some((s@, end as int))
                && start < end <= data@.len(),
            Err(e) => decode_str_at(data@, start as int) is None && e == KvsError::CorruptLog,
        },
{
    if data.len() - start < 8 {
        return Err(KvsError::CorruptLog);
    }
    let len_slice = slice_subrange(data.as_slice(), start, start + 8);
    let n = u64_from_le_bytes(len_slice);
    if n > (data.len() - start - 8) as u64 {
        return Err(KvsError::CorruptLog);
    }
    let n_usize = n as usize;
    let body = slice_to_vec(slice_subrange(data.as_slice(), start + 8, start + 8 + n_usize));
    let ghost b = data@.subrange(start + 8, start + 8 + n as int);
    assert(body@ == b);
    match string_from_utf8(body) {
        Some(s) => {
            proof {
                encode_utf8_decode_utf8(s@);
                assert(decode_utf8(b) == s@);
            }
            Ok((s, start + 8 + n_usize))
        },
        None => Err(KvsError::CorruptLog),
    }
}

/// Reads the record that starts at `start` and reports the offset just
/// past it; fails exactly where the spec-level decoding fails.
pub fn decode_command(data: &Vec<u8>, start: usize) -> (r: Result<(Command, usize), KvsError>)
    requires
        start <= data@.len(),
    ensures
        match r {
            Ok((cmd, end)) => decode_command_at(data@, start as int) == Some((cmd@, end as int))
                && start < end <= data@.len(),
            Err(e) => decode_command_at(data@, start as int) is None && e
                == KvsError::CorruptLog,
        },
{
    if start >= data.len() {
        return Err(KvsError::CorruptLog);
    }
    let tag = data[start];
    if tag == TAG_PUT {
        let (key, j) = match decode_str(data, start + 1) {
            Ok(p) => p,
            Err(e) => {
                return Err(e);
            },
        };
        let (value, end) = match decode_str(data, j) {
            Ok(p) => p,
            Err(e) => {
                return Err(e);
            },
        };
        Ok((Command::Put { key, value }, end))
    } else if tag == TAG_REMOVE {
        match decode_str(data, start + 1) {
            Ok((key, end)) => Ok((Command::Remove { key }, end)),
            Err(e) => Err(e),
        }
    } else {
        Err(KvsError::CorruptLog)
    }
}

} // verus!
