//! Folding a token stream into typed commands.
use vstd::prelude::*;
use vstd::utf8::{decode_utf8, encode_utf8, valid_utf8};

use crate::codec::{Token, TokenView};
use crate::text::{decode_strict, upper_of, uppercase};
use crate::types::{blob_views, bytes_equal, Blob, Key};
use vstd::slice::slice_to_vec;

verus! {

/// A request, as parsed from its tokens.
#[derive(Debug, Eq, PartialEq)]
pub enum Command {
    Echo(Blob),
    Command,
    Get(Key),
    Put(Key, Blob),
    Decr(Key),
    Incr(Key),
    SetAdd(Key, Blob),
    SetRemove(Key, Blob),
    SetIntersection(Vec<Key>),
    SetUnion(Vec<Key>),
    SetMembers(Key),
    Unknown(String),
}

/// The mathematical content of a [`Command`].
pub enum CommandView {
    Echo(Seq<u8>),
    Command,
    Get(Seq<u8>),
    Put(Seq<u8>, Seq<u8>),
    Decr(Seq<u8>),
    Incr(Seq<u8>),
    SetAdd(Seq<u8>, Seq<u8>),
    SetRemove(Seq<u8>, Seq<u8>),
    SetIntersection(Seq<Seq<u8>>),
    SetUnion(Seq<Seq<u8>>),
    SetMembers(Seq<u8>),
    Unknown(Seq<char>),
}

impl View for Command {
    type V = CommandView;

    open spec fn view(&self) -> CommandView {
        match self {
            Command::Echo(b) => CommandView::Echo(b@),
            Command::Command => CommandView::Command,
            Command::Get(k) => CommandView::Get(k@),
            Command::Put(k, v) => CommandView::Put(k@, v@),
            Command::Decr(k) => CommandView::Decr(k@),
            Command::Incr(k) => CommandView::Incr(k@),
            Command::SetAdd(k, m) => CommandView::SetAdd(k@, m@),
            Command::SetRemove(k, m) => CommandView::SetRemove(k@, m@),
            Command::SetIntersection(ks) => CommandView::SetIntersection(blob_views(ks@)),
            Command::SetUnion(ks) => CommandView::SetUnion(blob_views(ks@)),
            Command::SetMembers(k) => CommandView::SetMembers(k@),
            Command::Unknown(n) => CommandView::Unknown(n@),
        }
    }
}

/// Why a token sequence does not start with a command.
#[derive(Debug, Eq, PartialEq, Structural)]
pub enum CommandError {
    /// The header announces more tokens than there are yet.
    InsufficientTokens,
    /// The tokens break the command grammar.
    Malformed,
}

/// The views of a sequence of tokens.
pub open spec fn token_views(ts: Seq<Token>) -> Seq<TokenView> {
    ts.map_values(|t: Token| t@)
}

/// The bytes an argument token stands for: the UTF-8 bytes of a simple
/// string, or the payload of a non-null bulk string.
pub open spec fn arg_bytes(t: TokenView) -> Option<Seq<u8>> {
    match t {
        TokenView::SimpleString(s) => Some(encode_utf8(s)),
        TokenView::BulkString(Some(b)) => Some(b),
        _ => None,
    }
}

/// The text of a command-name token, before upper-casing.
pub open spec fn name_text(t: TokenView) -> Option<Seq<char>> {
    match t {
        TokenView::SimpleString(s) => Some(s),
        TokenView::BulkString(Some(b)) => if valid_utf8(b) {
            Some(decode_utf8(b))
        } else {
            None
        },
        _ => None,
    }
}

/// Whether every argument token stands for bytes.
pub open spec fn all_args(args: Seq<TokenView>) -> bool {
    forall|i: int| 0 <= i < args.len() ==> (#[trigger] arg_bytes(args[i])) is Some
}

/// The bytes of each argument token.
pub open spec fn args_bytes(args: Seq<TokenView>) -> Seq<Seq<u8>> {
    args.map_values(|t: TokenView| arg_bytes(t)->0)
}

/// A command with one key argument, from `ts[2]`, when the header says
/// `length == 2`.
pub open spec fn one_arg(
    length: int,
    ts: Seq<TokenView>,
    make: spec_fn(Seq<u8>) -> CommandView,
) -> Result<(CommandView, int), CommandError> {
    if length != 2 {
        Err(CommandError::Malformed)
    } else {
        match arg_bytes(ts[2]) {
            Some(a) => Ok((make(a), 3)),
            None => Err(CommandError::Malformed),
        }
    }
}

/// A command with two arguments, from `ts[2]` and `ts[3]`, when the header
/// says `length == 3`.
pub open spec fn two_args(
    length: int,
    ts: Seq<TokenView>,
    make: spec_fn(Seq<u8>, Seq<u8>) -> CommandView,
) -> Result<(CommandView, int), CommandError> {
    if length != 3 {
        Err(CommandError::Malformed)
    } else {
        match (arg_bytes(ts[2]), arg_bytes(ts[3])) {
            (Some(a), Some(b)) => Ok((make(a, b), 4)),
            _ => Err(CommandError::Malformed),
        }
    }
}

/// A command over one or more keys, `ts[2..length + 1]`.
pub open spec fn many_args(
    length: int,
    ts: Seq<TokenView>,
    make: spec_fn(Seq<Seq<u8>>) -> CommandView,
) -> Result<(CommandView, int), CommandError> {
    let args = ts.subrange(2, length + 1);
    if length < 2 || !all_args(args) {
        Err(CommandError::Malformed)
    } else {
        Ok((make(args_bytes(args)), length + 1))
    }
}

/// The command that the upper-cased `name` and its arguments make, where
/// the header announced `length` tokens after itself and all of them are in
/// `ts`.
pub open spec fn command_of(name: Seq<char>, length: int, ts: Seq<TokenView>) -> Result<
    (CommandView, int),
    CommandError,
> {
    if name == "ECHO"@ {
        one_arg(length, ts, |a| CommandView::Echo(a))
    } else if name == "COMMAND"@ {
        if length != 1 {
            Err(CommandError::Malformed)
        } else {
            Ok((CommandView::Command, 2))
        }
    } else if name == "GET"@ {
        one_arg(length, ts, |a| CommandView::Get(a))
    } else if name == "SET"@ {
        two_args(length, ts, |a, b| CommandView::Put(a, b))
    } else if name == "INCR"@ {
        one_arg(length, ts, |a| CommandView::Incr(a))
    } else if name == "DECR"@ {
        one_arg(length, ts, |a| CommandView::Decr(a))
    } else if name == "SADD"@ {
        two_args(length, ts, |a, b| CommandView::SetAdd(a, b))
    } else if name == "SREM"@ {
        two_args(length, ts, |a, b| CommandView::SetRemove(a, b))
    } else if name == "SINTER"@ {
        many_args(length, ts, |a| CommandView::SetIntersection(a))
    } else if name == "SUNION"@ {
        many_args(length, ts, |a| CommandView::SetUnion(a))
    } else if name == "SMEMBERS"@ {
        one_arg(length, ts, |a| CommandView::SetMembers(a))
    } else {
        Ok((CommandView::Unknown(name), length + 1))
    }
}

/// The length that a well-formed header token announces.
pub open spec fn header_length(ts: Seq<TokenView>) -> Option<int> {
    if ts.len() > 0 && ts[0] is Array && ts[0]->Array_0 > 0 {
        Some(ts[0]->Array_0 as int)
    } else {
        None
    }
}

/// The header length and the upper-cased command name of `ts`.
pub open spec fn command_head(ts: Seq<TokenView>) -> Result<(int, Seq<char>), CommandError> {
    match header_length(ts) {
        None => Err(CommandError::Malformed),
        Some(length) => if ts.len() - 1 < length {
            Err(CommandError::InsufficientTokens)
        } else {
            match name_text(ts[1]) {
                Some(n) => Ok((length, upper_of(n))),
                None => Err(CommandError::Malformed),
            }
        },
    }
}

/// What parsing the start of `ts` gives: a command and the number of tokens
/// it takes, or the reason there is none.
pub open spec fn parse_spec(ts: Seq<TokenView>) -> Result<(CommandView, int), CommandError> {
    if ts.len() == 0 {
        Err(CommandError::InsufficientTokens)
    } else {
        match command_head(ts) {
            Err(e) => Err(e),
            Ok((length, name)) => command_of(name, length, ts),
        }
    }
}


/// The upper-cased names that the parser recognizes.
pub open spec fn is_known_name(name: Seq<char>) -> bool {
    name == "ECHO"@ || name == "COMMAND"@ || name == "GET"@ || name == "SET"@ || name == "INCR"@
        || name == "DECR"@ || name == "SADD"@ || name == "SREM"@ || name == "SINTER"@ || name
        == "SUNION"@ || name == "SMEMBERS"@
}

/// An unknown command name is parsed, not rejected: the command is
/// `Unknown` and takes all the tokens its header announced, so the stream
/// stays in step.
pub proof fn law_unknown_parsed(ts: Seq<TokenView>)
    requires
        command_head(ts) is Ok,
        !is_known_name(command_head(ts)->Ok_0.1),
    ensures
        parse_spec(ts) == Ok::<(CommandView, int), CommandError>(
            (CommandView::Unknown(command_head(ts)->Ok_0.1), command_head(ts)->Ok_0.0 + 1),
        ),
{
}

/// A parsed command takes at least one token and no more than there are.
pub proof fn lemma_parse_consumes(ts: Seq<TokenView>)
    ensures
        parse_spec(ts) matches Ok((c, n)) ==> 0 < n <= ts.len(),
{
}

/// Whether two texts are the same.
fn same_text(a: &str, b: &str) -> (r: bool)
    ensures
        r == (a@ == b@),
{
    proof {
        vstd::utf8::encode_utf8_decode_utf8(a@);
        vstd::utf8::encode_utf8_decode_utf8(b@);
    }
    bytes_equal(a.as_bytes(), b.as_bytes())
}

/// The bytes of an argument token.
fn string_token_as_bytes(token: Option<&Token>) -> (r: Result<Blob, CommandError>)
    ensures
        r matches Ok(b) ==> token matches Some(t) && arg_bytes(t@) == Some(b@),
        r is Err ==> r == Err::<Blob, CommandError>(CommandError::Malformed) && (token is None || arg_bytes(
            token->0@,
        ) is None),
{
    match token {
        Some(Token::SimpleString(s)) => Ok(Blob(slice_to_vec(s.as_str().as_bytes()))),
        Some(Token::BulkString(Some(b))) => {
            let bytes = b.clone();
            assert(bytes@ =~= b@);
            Ok(Blob(bytes))
        },
        _ => Err(CommandError::Malformed),
    }
}

/// Fails with `Malformed` unless the header announced the expected length.
fn validate_length(length: usize, expected_length: usize) -> (r: Result<(), CommandError>)
    ensures
        r is Ok <==> length == expected_length,
        r is Err ==> r == Err::<(), CommandError>(CommandError::Malformed),
{
    if length != expected_length {
        return Err(CommandError::Malformed);
    }
    Ok(())
}

/// The header length and the upper-cased name of the command that starts
/// `tokens`.
fn get_command(tokens: &[Token]) -> (r: Result<(usize, String), CommandError>)
    ensures
        r matches Ok((l, n)) ==> command_head(token_views(tokens@)) == Ok::<(int, Seq<char>), CommandError>(
            (l as int, n@),
        ) && 0 < l < tokens.len(),
        r matches Err(e) ==> command_head(token_views(tokens@)) == Err::<(int, Seq<char>), CommandError>(e),
{
    let ghost ts = token_views(tokens@);
    if tokens.len() == 0 {
        return Err(CommandError::Malformed);
    }
    let announced: i64 = match &tokens[0] {
        Token::Array(l) => *l,
        _ => {
            return Err(CommandError::Malformed);
        },
    };
    if announced <= 0 {
        return Err(CommandError::Malformed);
    }
    if announced as u64 > (tokens.len() - 1) as u64 {
        return Err(CommandError::InsufficientTokens);
    }
    let length = announced as usize;
    let cmd = match &tokens[1] {
        Token::SimpleString(c) => uppercase(c.as_str()),
        Token::BulkString(Some(c)) => match decode_strict(c.as_slice()) {
            Some(s) => uppercase(s.as_str()),
            None => {
                return Err(CommandError::Malformed);
            },
        },
        _ => {
            return Err(CommandError::Malformed);
        },
    };
    Ok((length, cmd))
}

/// The keys `tokens[2..length + 1]` of a command over one or more keys.
fn keys_from(length: usize, tokens: &[Token]) -> (r: Result<Vec<Key>, CommandError>)
    requires
        2 <= length < tokens.len(),
    ensures
        r matches Ok(ks) ==> all_args(token_views(tokens@).subrange(2, length + 1)) && blob_views(ks@)
            == args_bytes(token_views(tokens@).subrange(2, length + 1)),
        r is Err ==> r == Err::<Vec<Key>, CommandError>(CommandError::Malformed) && !all_args(
            token_views(tokens@).subrange(2, length + 1),
        ),
{
    let ghost ts = token_views(tokens@);
    let mut keys: Vec<Key> = Vec::new();
    let mut i: usize = 2;
    while i <= length
        invariant
            2 <= i <= length + 1,
            length < tokens.len(),
            ts == token_views(tokens@),
            all_args(ts.subrange(2, i as int)),
            blob_views(keys@) == args_bytes(ts.subrange(2, i as int)),
        decreases length + 1 - i,
    {
        let key = match string_token_as_bytes(Some(&tokens[i])) {
            Ok(k) => k,
            Err(e) => {
                assert(ts.subrange(2, length + 1)[i - 2] == ts[i as int]);
                return Err(e);
            },
        };
        let ghost kv = key@;
        let ghost before = keys@;
        keys.push(key);
        assert(ts.subrange(2, i + 1) =~= ts.subrange(2, i as int).push(ts[i as int]));
        assert(arg_bytes(ts[i as int]) == Some(kv));
        assert(blob_views(keys@) =~= blob_views(before).push(kv));
        assert(args_bytes(ts.subrange(2, i + 1)) =~= args_bytes(ts.subrange(2, i as int)).push(kv));
        i = i + 1;
    }
    Ok(keys)
}

impl Command {
    /// Parses the command that starts `tokens`, and says how many tokens it
    /// takes. A header token `Array(n)` with `n > 0` comes first, then the
    /// command name, then `n - 1` arguments. Names are matched without
    /// regard to case; an unknown name still makes a command, so that its
    /// tokens are consumed.
    pub fn from_tokens(tokens: &[Token]) -> (r: Result<(Command, usize), CommandError>)
        ensures
            r matches Ok((c, n)) ==> parse_spec(token_views(tokens@)) == Ok::<(CommandView, int), CommandError>(
                (c@, n as int),
            ),
            r matches Err(e) ==> parse_spec(token_views(tokens@)) == Err::<(CommandView, int), CommandError>(e),
    {
        if tokens.len() == 0 {
            return Err(CommandError::InsufficientTokens);
        }
        let (length, cmd) = get_command(tokens)?;
        Command::from_parts(cmd.as_str(), length, tokens)
    }

    /// The command that the upper-cased `name` makes with the arguments that
    /// follow it in `tokens`, where the header token announced `length`
    /// tokens after itself.
    pub fn from_parts(name: &str, length: usize, tokens: &[Token]) -> (r: Result<(Command, usize), CommandError>)
        ensures
            length == 0 ==> r == Err::<(Command, usize), CommandError>(CommandError::Malformed),
            0 < length && length >= tokens.len() ==> r == Err::<(Command, usize), CommandError>(
                CommandError::InsufficientTokens,
            ),
            0 < length < tokens.len() ==> (r matches Ok((c, n)) ==> command_of(
                name@,
                length as int,
                token_views(tokens@),
            ) == Ok::<(CommandView, int), CommandError>((c@, n as int))),
            0 < length < tokens.len() ==> (r matches Err(e) ==> command_of(
                name@,
                length as int,
                token_views(tokens@),
            ) == Err::<(CommandView, int), CommandError>(e)),
    {
        if length == 0 {
            return Err(CommandError::Malformed);
        }
        if length >= tokens.len() {
            return Err(CommandError::InsufficientTokens);
        }
        let ghost ts = token_views(tokens@);
        if same_text(name, "ECHO") {
            validate_length(length, 2)?;
            let reply = string_token_as_bytes(tokens.get(2))?;
            Ok((Command::Echo(reply), 3))
        } else if same_text(name, "COMMAND") {
            validate_length(length, 1)?;
            Ok((Command::Command, 2))
        } else if same_text(name, "GET") {
            validate_length(length, 2)?;
            let key = string_token_as_bytes(tokens.get(2))?;
            Ok((Command::Get(key), 3))
        } else if same_text(name, "SET") {
            validate_length(length, 3)?;
            let key = string_token_as_bytes(tokens.get(2))?;
            let value = string_token_as_bytes(tokens.get(3))?;
            Ok((Command::Put(key, value), 4))
        } else if same_text(name, "INCR") {
            validate_length(length, 2)?;
            let key = string_token_as_bytes(tokens.get(2))?;
            Ok((Command::Incr(key), 3))
        } else if same_text(name, "DECR") {
            validate_length(length, 2)?;
            let key = string_token_as_bytes(tokens.get(2))?;
            Ok((Command::Decr(key), 3))
        } else if same_text(name, "SADD") {
            validate_length(length, 3)?;
            let key = string_token_as_bytes(tokens.get(2))?;
            let member = string_token_as_bytes(tokens.get(3))?;
            Ok((Command::SetAdd(key, member), 4))
        } else if same_text(name, "SREM") {
            validate_length(length, 3)?;
            let key = string_token_as_bytes(tokens.get(2))?;
            let member = string_token_as_bytes(tokens.get(3))?;
            Ok((Command::SetRemove(key, member), 4))
        } else if same_text(name, "SINTER") {
            if length < 2 {
                return Err(CommandError::Malformed);
            }
            let keys = keys_from(length, tokens)?;
            Ok((Command::SetIntersection(keys), length + 1))
        } else if same_text(name, "SUNION") {
            if length < 2 {
                return Err(CommandError::Malformed);
            }
            let keys = keys_from(length, tokens)?;
            Ok((Command::SetUnion(keys), length + 1))
        } else if same_text(name, "SMEMBERS") {
            validate_length(length, 2)?;
            let key = string_token_as_bytes(tokens.get(2))?;
            Ok((Command::SetMembers(key), 3))
        } else {
            Ok((Command::Unknown(name.to_string()), length + 1))
        }
    }
}

} // verus!
