//! Typed requests and replies: every supported verb with its arguments, the
//! reply type, token re-quoting, and the full pipeline from buffered bytes
//! to commands.

use vstd::prelude::*;

use crate::decimal::{Dec, DecModel};
use crate::key::Key;
use crate::value::{crlf, spec_encode_value, str_views, Value, ValueModel};

verus! {

/// One typed request. `Unknown` stands for a complete frame whose text the
/// grammar does not recognize; the server answers it with an error reply
/// rather than stalling the rest of the batch.
#[derive(Debug, PartialEq)]
#[allow(inconsistent_fields)]
pub enum Command {
    SetCmd { key: Key, value: Value, exp: Option<u64> },
    Append { key: Key, value: String },
    Get { key: Key },
    Incr { key: Key },
    IncrBy { key: Key, increment: i64 },
    IncrByFloat { key: Key, increment: Dec },
    Decr { key: Key },
    DecrBy { key: Key, decrement: i64 },
    Lindex { key: Key, index: i64 },
    Llen { key: Key },
    Lpop { key: Key },
    Rpop { key: Key },
    Lpush { key: Key, values: Vec<String> },
    Rpush { key: Key, values: Vec<String> },
    Lset { key: Key, index: i64, value: String },
    Sadd { key: Key, members: Vec<String> },
    Scard { key: Key },
    Sismember { key: Key, member: String },
    Srem { key: Key, members: Vec<String> },
    Del { keys: Vec<Key> },
    Exists { key: Key },
    Type { key: Key },
    DbSize,
    Select(usize),
    FlushDb,
    FlushAll,
    SwapDb(usize, usize),
    Ping { message: String },
    Echo { message: String },
    Time,
    Unknown,
}

/// The mathematical shape of a `Command`.
#[allow(inconsistent_fields)]
pub enum CommandModel {
    SetCmd { key: Seq<char>, value: ValueModel, exp: Option<u64> },
    Append { key: Seq<char>, value: Seq<char> },
    Get { key: Seq<char> },
    Incr { key: Seq<char> },
    IncrBy { key: Seq<char>, increment: int },
    IncrByFloat { key: Seq<char>, increment: DecModel },
    Decr { key: Seq<char> },
    DecrBy { key: Seq<char>, decrement: int },
    Lindex { key: Seq<char>, index: int },
    Llen { key: Seq<char> },
    Lpop { key: Seq<char> },
    Rpop { key: Seq<char> },
    Lpush { key: Seq<char>, values: Seq<Seq<char>> },
    Rpush { key: Seq<char>, values: Seq<Seq<char>> },
    Lset { key: Seq<char>, index: int, value: Seq<char> },
    Sadd { key: Seq<char>, members: Seq<Seq<char>> },
    Scard { key: Seq<char> },
    Sismember { key: Seq<char>, member: Seq<char> },
    Srem { key: Seq<char>, members: Seq<Seq<char>> },
    Del { keys: Seq<Seq<char>> },
    Exists { key: Seq<char> },
    Type { key: Seq<char> },
    DbSize,
    Select(int),
    FlushDb,
    FlushAll,
    SwapDb(int, int),
    Ping { message: Seq<char> },
    Echo { message: Seq<char> },
    Time,
    Unknown,
}

impl View for Command {
    type V = CommandModel;

    open spec fn view(&self) -> CommandModel {
        match self {
            Command::SetCmd { key, value, exp } => CommandModel::SetCmd {
                key: key@,
                value: value@,
                exp: *exp,
            },
            Command::Append { key, value } => CommandModel::Append { key: key@, value: value@ },
            Command::Get { key } => CommandModel::Get { key: key@ },
            Command::Incr { key } => CommandModel::Incr { key: key@ },
            Command::IncrBy { key, increment } => CommandModel::IncrBy {
                key: key@,
                increment: *increment as int,
            },
            Command::IncrByFloat { key, increment } => CommandModel::IncrByFloat {
                key: key@,
                increment: increment@,
            },
            Command::Decr { key } => CommandModel::Decr { key: key@ },
            Command::DecrBy { key, decrement } => CommandModel::DecrBy {
                key: key@,
                decrement: *decrement as int,
            },
            Command::Lindex { key, index } => CommandModel::Lindex {
                key: key@,
                index: *index as int,
            },
            Command::Llen { key } => CommandModel::Llen { key: key@ },
            Command::Lpop { key } => CommandModel::Lpop { key: key@ },
            Command::Rpop { key } => CommandModel::Rpop { key: key@ },
            Command::Lpush { key, values } => CommandModel::Lpush {
                key: key@,
                values: str_views(values@),
            },
            Command::Rpush { key, values } => CommandModel::Rpush {
                key: key@,
                values: str_views(values@),
            },
            Command::Lset { key, index, value } => CommandModel::Lset {
                key: key@,
                index: *index as int,
                value: value@,
            },
            Command::Sadd { key, members } => CommandModel::Sadd {
                key: key@,
                members: str_views(members@),
            },
            Command::Scard { key } => CommandModel::Scard { key: key@ },
            Command::Sismember { key, member } => CommandModel::Sismember {
                key: key@,
                member: member@,
            },
            Command::Srem { key, members } => CommandModel::Srem {
                key: key@,
                members: str_views(members@),
            },
            Command::Del { keys } => CommandModel::Del { keys: str_views(keys@) },
            Command::Exists { key } => CommandModel::Exists { key: key@ },
            Command::Type { key } => CommandModel::Type { key: key@ },
            Command::DbSize => CommandModel::DbSize,
            Command::Select(i) => CommandModel::Select(*i as int),
            Command::FlushDb => CommandModel::FlushDb,
            Command::FlushAll => CommandModel::FlushAll,
            Command::SwapDb(a, b) => CommandModel::SwapDb(*a as int, *b as int),
            Command::Ping { message } => CommandModel::Ping { message: message@ },
            Command::Echo { message } => CommandModel::Echo { message: message@ },
            Command::Time => CommandModel::Time,
            Command::Unknown => CommandModel::Unknown,
        }
    }
}

/// One reply: success, an error message, or a value.
#[derive(Debug, PartialEq)]
pub enum Return {
    Okay,
    Error(String),
    ValueReturn(Value),
}

/// The mathematical shape of a `Return`.
pub enum ReturnModel {
    Okay,
    Error(Seq<char>),
    ValueReturn(ValueModel),
}

impl View for Return {
    type V = ReturnModel;

    open spec fn view(&self) -> ReturnModel {
        match self {
            Return::Okay => ReturnModel::Okay,
            Return::Error(m) => ReturnModel::Error(m@),
            Return::ValueReturn(v) => ReturnModel::ValueReturn(v@),
        }
    }
}

/// Deterministic encoding of a reply: `+OK\r\n` for success,
/// `-<message>\r\n` for an error, and the value encoding otherwise.
pub open spec fn spec_encode_return(r: ReturnModel) -> Seq<char> {
    match r {
        ReturnModel::Okay => seq!['+', 'O', 'K', '\r', '\n'],
        ReturnModel::Error(m) => seq!['-'] + m + crlf(),
        ReturnModel::ValueReturn(v) => spec_encode_value(v),
    }
}

impl Return {
    /// Appends this reply's encoding to `out`.
    pub fn encode_push(&self, out: &mut String)
        ensures
            final(out)@ == old(out)@ + spec_encode_return(self@),
    {
        match self {
            Return::Okay => {
                out.append("+OK\r\n");
                proof {
                    reveal_strlit("+OK\r\n");
                    assert(final(out)@ =~= old(out)@ + spec_encode_return(self@));
                }
            },
            Return::Error(m) => {
                out.append("-");
                out.append(m.as_str());
                out.append("\r\n");
                proof {
                    reveal_strlit("-");
                    reveal_strlit("\r\n");
                    assert(final(out)@ =~= old(out)@ + spec_encode_return(self@));
                }
            },
            Return::ValueReturn(v) => {
                v.encode_push(out);
            },
        }
    }

    /// The full encoding of this reply as a fresh string.
    pub fn encode(&self) -> (r: String)
        ensures
            r@ == spec_encode_return(self@),
    {
        let mut out = String::new();
        self.encode_push(&mut out);
        proof {
            assert(out@ =~= spec_encode_return(self@));
        }
        out
    }
}

/// A token that is empty or contains a space is wrapped in double quotes;
/// any other token passes through unchanged.
pub open spec fn spec_quote(s: Seq<char>) -> Seq<char> {
    if s.len() == 0 || s.contains(' ') {
        seq!['"'] + s + seq!['"']
    } else {
        s
    }
}

impl Command {
    /// Re-escapes one raw token for the textual grammar.
    #[verifier::loop_isolation(false)]
    pub fn quote(s: &str) -> (r: String)
        ensures
            r@ == spec_quote(s@),
    {
        let n = s.unicode_len();
        let mut has_space = false;
        let mut i: usize = 0;
        while i < n
            invariant
                i <= n,
                has_space ==> s@.contains(' '),
                !has_space ==> forall|j: int| 0 <= j < i ==> s@[j] != ' ',
            decreases n - i,
        {
            if s.get_char(i) == ' ' {
                has_space = true;
            }
            i = i + 1;
        }
        proof {
            if !has_space {
                assert(forall|j: int| 0 <= j < s@.len() ==> s@[j] != ' ');
                assert(!s@.contains(' '));
            }
        }
        if n == 0 || has_space {
            let mut out = String::new();
            out.append("\"");
            out.append(s);
            out.append("\"");
            proof {
                reveal_strlit("\"");
                assert(out@ =~= spec_quote(s@));
            }
            out
        } else {
            String::from_str(s)
        }
    }
}

} // verus!

verus! {

use crate::grammar::{command_parser, spec_command};
use crate::parse::{spec_parse_frames, parse_frames, ParseResult};

/// The tokens of one frame re-quoted and joined with single spaces into one
/// grammar line.
pub open spec fn spec_join(toks: Seq<Seq<char>>) -> Seq<char>
    decreases toks.len(),
{
    if toks.len() == 0 {
        Seq::empty()
    } else if toks.len() == 1 {
        spec_quote(toks[0])
    } else {
        spec_join(toks.drop_last()) + seq![' '] + spec_quote(toks.last())
    }
}

/// The command one frame denotes: its re-quoted line fed to the grammar.
/// A line the grammar does not fully accept denotes `Unknown`, which the
/// server answers with an error reply.
pub open spec fn spec_frame_command(toks: Seq<Seq<char>>) -> CommandModel {
    let line = spec_join(toks);
    match spec_command(line) {
        Option::Some((c, p)) => if p == line.len() {
            c
        } else {
            CommandModel::Unknown
        },
        Option::None => CommandModel::Unknown,
    }
}

/// What a buffer parses to: one command per complete frame at its head, in
/// order, and how many characters those frames span.
pub open spec fn spec_parse_buffer(s: Seq<char>) -> (Seq<CommandModel>, int) {
    let fr = spec_parse_frames(s, 0);
    (fr.0.map_values(|toks: Seq<Seq<char>>| spec_frame_command(toks)), fr.1)
}

/// Re-quotes each token and joins them with single spaces.
#[verifier::loop_isolation(false)]
fn join_quoted(toks: &Vec<String>) -> (r: String)
    ensures
        r@ == spec_join(str_views(toks@)),
{
    let ghost views = str_views(toks@);
    let mut out = String::new();
    let mut i: usize = 0;
    while i < toks.len()
        invariant
            i <= toks@.len(),
            out@ == spec_join(views.subrange(0, i as int)),
        decreases toks@.len() - i,
    {
        if i > 0 {
            out.append(" ");
            proof {
                reveal_strlit(" ");
            }
        }
        let q = Command::quote(toks[i].as_str());
        out.append(q.as_str());
        proof {
            let pre = views.subrange(0, i as int);
            let cur = views.subrange(0, i + 1 as int);
            assert(cur.drop_last() =~= pre);
            assert(cur.last() == views[i as int]);
            if i == 0 {
                assert(out@ =~= spec_join(cur));
            } else {
                assert(out@ =~= spec_join(pre) + seq![' '] + spec_quote(views[i as int]));
            }
        }
        i = i + 1;
    }
    proof {
        assert(views.subrange(0, toks@.len() as int) =~= views);
    }
    out
}

impl Command {
    /// Parses every complete frame at the head of the buffer into commands,
    /// in order, reporting how many characters the complete frames span.
    /// A complete frame whose line the grammar refuses becomes `Unknown`;
    /// a trailing partial or malformed frame is left unconsumed.
    #[verifier::loop_isolation(false)]
    pub fn parse(s: &str) -> (r: ParseResult)
        ensures
            r.1@.map_values(|c: Command| c@) == spec_parse_buffer(s@).0,
            r.0 as int == spec_parse_buffer(s@).1,
            r.0 <= s@.len(),
    {
        let (frames, consumed) = parse_frames(s);
        let ghost fviews = frames@.map_values(|f: Vec<String>| str_views(f@));
        let mut cmds: Vec<Command> = Vec::new();
        let mut i: usize = 0;
        while i < frames.len()
            invariant
                i <= frames@.len(),
                cmds@.len() == i,
                forall|j: int| 0 <= j < i ==> (#[trigger] cmds@[j])@ == spec_frame_command(
                    fviews[j],
                ),
            decreases frames@.len() - i,
        {
            let line = join_quoted(&frames[i]);
            let n = line.as_str().unicode_len();
            let cmd: Command;
            match command_parser(line.as_str()) {
                Some((c, p)) => {
                    if p == n {
                        cmd = c;
                    } else {
                        cmd = Command::Unknown;
                    }
                },
                None => {
                    cmd = Command::Unknown;
                },
            }
            proof {
                assert(fviews[i as int] == str_views(frames@[i as int]@));
                assert(cmd@ == spec_frame_command(fviews[i as int]));
            }
            cmds.push(cmd);
            i = i + 1;
        }
        proof {
            assert(cmds@.map_values(|c: Command| c@) =~= fviews.map_values(
                |toks: Seq<Seq<char>>| spec_frame_command(toks),
            ));
        }
        ParseResult(consumed, cmds)
    }
}

} // verus!
