//! The command processor's decisions: which commands the storage engine
//! serves, and the reply tokens for each outcome.
use vstd::prelude::*;

use crate::codec::{Token, TokenView};
use crate::command::{token_views, Command, CommandView};
use crate::number::{push_signed_decimal, signed_decimal};
use crate::storage::{reply_view, Reply, StorageCommand, StorageCommandView, StorageError};
use crate::types::{blob_views, Blob, Value, ValueView};
use vstd::slice::slice_to_vec;

verus! {

/// The reply tokens of one command, in order.
#[derive(Debug)]
pub struct ExecutionResult(pub Vec<Token>);

impl View for ExecutionResult {
    type V = Seq<TokenView>;

    open spec fn view(&self) -> Seq<TokenView> {
        token_views(self.0@)
    }
}

/// What a command needs: a reply at once, or a storage request.
#[derive(Debug)]
pub enum Dispatch {
    Reply(ExecutionResult),
    Storage(StorageCommand),
}

/// How a storage request ended, as the caller saw it.
#[derive(Debug)]
pub enum StorageOutcome {
    /// The engine replied.
    Replied(Result<Option<Value>, StorageError>),
    /// The request could not be queued in time.
    SendTimeout,
    /// The engine dropped the reply slot.
    NoResponse,
}

/// The mathematical content of a [`StorageOutcome`].
pub enum OutcomeView {
    Replied(Reply),
    SendTimeout,
    NoResponse,
}

impl View for StorageOutcome {
    type V = OutcomeView;

    open spec fn view(&self) -> OutcomeView {
        match self {
            StorageOutcome::Replied(r) => OutcomeView::Replied(reply_view(r)),
            StorageOutcome::SendTimeout => OutcomeView::SendTimeout,
            StorageOutcome::NoResponse => OutcomeView::NoResponse,
        }
    }
}

/// The names of the commands that the parser recognizes, as the `COMMAND`
/// command lists them.
pub open spec fn known_commands() -> Seq<Seq<char>> {
    seq![
        "ECHO"@,
        "COMMAND"@,
        "GET"@,
        "SET"@,
        "INCR"@,
        "DECR"@,
        "SADD"@,
        "SREM"@,
        "SMEMBERS"@,
        "SINTER"@,
        "SUNION"@,
    ]
}

/// A bulk string holding `b`.
pub open spec fn bulk_of(b: Seq<u8>) -> TokenView {
    TokenView::BulkString(Some(b))
}

/// The reply to `COMMAND`: an array header, then each known name as a bulk
/// string.
pub open spec fn command_list_reply() -> Seq<TokenView> {
    seq![TokenView::Array(known_commands().len() as i64)] + known_commands().map_values(
        |n: Seq<char>| bulk_of(vstd::utf8::encode_utf8(n)),
    )
}

/// A single error token.
pub open spec fn error_reply(msg: Seq<char>) -> Seq<TokenView> {
    seq![TokenView::Error(msg)]
}

/// The storage request that a command makes, if it makes one.
pub open spec fn request_of(c: CommandView) -> Option<StorageCommandView> {
    match c {
        CommandView::Get(k) => Some(StorageCommandView::Get(k)),
        CommandView::Put(k, v) => Some(StorageCommandView::Put(k, ValueView::Blob(v))),
        CommandView::Incr(k) => Some(StorageCommandView::Incr(k)),
        CommandView::Decr(k) => Some(StorageCommandView::Decr(k)),
        CommandView::SetAdd(k, m) => Some(StorageCommandView::SetAdd(k, m)),
        CommandView::SetRemove(k, m) => Some(StorageCommandView::SetRemove(k, m)),
        CommandView::SetMembers(k) => Some(StorageCommandView::SetMembers(k)),
        CommandView::SetIntersection(ks) => Some(StorageCommandView::SetIntersection(ks)),
        CommandView::SetUnion(ks) => Some(StorageCommandView::SetUnion(ks)),
        _ => None,
    }
}

/// The reply to a command that the storage engine does not serve.
pub open spec fn immediate_reply(c: CommandView) -> Seq<TokenView> {
    match c {
        CommandView::Echo(b) => seq![bulk_of(b)],
        CommandView::Command => command_list_reply(),
        CommandView::Unknown(name) => error_reply(name + " is not implemented"@),
        _ => Seq::empty(),
    }
}

/// The reply text of each storage error.
pub open spec fn error_text(e: StorageError) -> Seq<char> {
    match e {
        StorageError::NotAnInteger => "WRONGTYPE Operation against a key holding the wrong kind of value"@,
        StorageError::NotASet => "WRONGTYPE Operation against a key holding the wrong kind of value"@,
        StorageError::Overflow => "ERR increment or decrement would overflow"@,
        StorageError::LogError(_) => "ERR transaction log failure"@,
        StorageError::Failed => "ERR unknown storage failure"@,
    }
}

/// Whether `ts` lists the members of `s`: an array header with the count,
/// then one bulk string per member, each once, in any order.
pub open spec fn members_reply(s: Set<Seq<u8>>, ts: Seq<TokenView>) -> bool {
    &&& ts.len() == s.len() + 1
    &&& ts[0] == TokenView::Array(s.len() as i64)
    &&& forall|i: int| 1 <= i < ts.len() ==> (#[trigger] ts[i]) is BulkString && ts[i]->BulkString_0 is Some
    &&& ts.skip(1).map_values(|t: TokenView| t->BulkString_0->0).no_duplicates()
    &&& ts.skip(1).map_values(|t: TokenView| t->BulkString_0->0).to_set() == s
}

/// Whether `ts` is the reply for a value: a blob as a bulk string, an
/// integer as a bulk string of its decimal text, a set as its members.
pub open spec fn value_reply(v: ValueView, ts: Seq<TokenView>) -> bool {
    match v {
        ValueView::Blob(b) => ts == seq![bulk_of(b)],
        ValueView::Int(i) => ts == seq![bulk_of(signed_decimal(i as int))],
        ValueView::Members(s) => members_reply(s, ts),
        ValueView::Hash(_) => ts == error_reply("ERR unsupported value"@),
    }
}

/// Whether `ts` is the reply to command `c` whose storage request ended
/// with `o`.
pub open spec fn storage_reply(c: CommandView, o: OutcomeView, ts: Seq<TokenView>) -> bool {
    match o {
        OutcomeView::SendTimeout => ts == error_reply("timeout while sending to storage"@),
        OutcomeView::NoResponse => ts == error_reply("no response from storage"@),
        OutcomeView::Replied(Err(e)) => ts == error_reply(error_text(e)),
        OutcomeView::Replied(Ok(Some(v))) => value_reply(v, ts),
        OutcomeView::Replied(Ok(None)) => match c {
            CommandView::Put(..) => ts == seq![TokenView::SimpleString("OK"@)],
            CommandView::Get(_) => ts == seq![TokenView::BulkString(None)],
            _ => ts == error_reply("invalid response from storage"@),
        },
    }
}


/// A reply of one error token.
fn error_result(msg: &str) -> (r: ExecutionResult)
    ensures
        r@ == error_reply(msg@),
{
    let r = ExecutionResult(vec![Token::Error(msg.to_string())]);
    assert(r@ =~= error_reply(msg@));
    r
}

/// A bulk string token holding the bytes of `name`.
fn name_token(name: &str) -> (t: Token)
    ensures
        t@ == bulk_of(vstd::utf8::encode_utf8(name@)),
{
    Token::BulkString(Some(slice_to_vec(name.as_bytes())))
}

/// The reply to `COMMAND`.
fn command_list() -> (r: ExecutionResult)
    ensures
        r@ == command_list_reply(),
{
    let names = vec![
        name_token("ECHO"),
        name_token("COMMAND"),
        name_token("GET"),
        name_token("SET"),
        name_token("INCR"),
        name_token("DECR"),
        name_token("SADD"),
        name_token("SREM"),
        name_token("SMEMBERS"),
        name_token("SINTER"),
        name_token("SUNION"),
    ];
    let mut resp = vec![Token::Array(names.len() as i64)];
    let ghost first = resp@;
    let ghost listed = names@;
    let mut names = names;
    resp.append(&mut names);
    let r = ExecutionResult(resp);
    assert(token_views(listed) =~= known_commands().map_values(
        |n: Seq<char>| bulk_of(vstd::utf8::encode_utf8(n)),
    ));
    assert(r@ =~= token_views(first) + token_views(listed));
    assert(r@ =~= command_list_reply());
    r
}

/// The reply tokens for a value that storage produced.
fn value_to_tokens(value: Value) -> (r: Vec<Token>)
    requires
        value.wf(),
    ensures
        value_reply(value@, token_views(r@)),
{
    match value {
        Value::Blob(b) => {
            let r = vec![Token::BulkString(Some(b.0))];
            assert(token_views(r@) =~= seq![bulk_of(b@)]);
            r
        },
        Value::Int(i) => {
            let mut text: Vec<u8> = Vec::new();
            push_signed_decimal(&mut text, i);
            assert(text@ =~= signed_decimal(i as int));
            let r = vec![Token::BulkString(Some(text))];
            assert(token_views(r@) =~= seq![bulk_of(signed_decimal(i as int))]);
            r
        },
        Value::Members(s) => {
            let members = s.to_vec();
            let mut r: Vec<Token> = vec![Token::Array(members.len() as i64)];
            let mut i: usize = 0;
            let ghost bv = blob_views(members@);
            while i < members.len()
                invariant
                    0 <= i <= members.len(),
                    bv == blob_views(members@),
                    members.len() == s@.len(),
                    token_views(r@) == seq![TokenView::Array(s@.len() as i64)] + bv.take(i as int).map_values(|b: Seq<u8>| bulk_of(b)),
                decreases members.len() - i,
            {
                let bytes = members[i].0.clone();
                assert(bytes@ =~= bv[i as int]);
                let ghost before = r@;
                r.push(Token::BulkString(Some(bytes)));
                assert(token_views(r@) =~= token_views(before).push(bulk_of(bv[i as int])));
                assert(bv.take(i + 1) =~= bv.take(i as int).push(bv[i as int]));
                assert(token_views(r@) =~= seq![TokenView::Array(s@.len() as i64)] + bv.take(i + 1).map_values(|b: Seq<u8>| bulk_of(b)));
                i = i + 1;
            }
            assert(bv.take(i as int) =~= bv);
            let ghost ts = token_views(r@);
            assert(ts.skip(1) =~= bv.map_values(|b: Seq<u8>| bulk_of(b)));
            assert(ts.skip(1).map_values(|t: TokenView| t->BulkString_0->0) =~= bv);
            r
        },
        Value::Hash(_) => {
            let r = vec![Token::Error("ERR unsupported value".to_string())];
            assert(token_views(r@) =~= error_reply("ERR unsupported value"@));
            r
        },
    }
}

/// The reply text of a storage error.
fn storage_error_to_string(error: StorageError) -> (r: &'static str)
    ensures
        r@ == error_text(error),
{
    match error {
        StorageError::NotAnInteger => "WRONGTYPE Operation against a key holding the wrong kind of value",
        StorageError::NotASet => "WRONGTYPE Operation against a key holding the wrong kind of value",
        StorageError::Overflow => "ERR increment or decrement would overflow",
        StorageError::LogError(_) => "ERR transaction log failure",
        StorageError::Failed => "ERR unknown storage failure",
    }
}

/// Copies a list of keys.
fn copy_keys(keys: &Vec<Blob>) -> (r: Vec<Blob>)
    ensures
        blob_views(r@) == blob_views(keys@),
{
    let r = keys.clone();
    assert(blob_views(r@) =~= blob_views(keys@));
    r
}

/// Decides what a command needs: the reply, for commands that the storage
/// engine does not serve; otherwise the storage request to send.
pub fn dispatch(command: &Command) -> (r: Dispatch)
    ensures
        request_of(command@) matches Some(req) ==> (r matches Dispatch::Storage(sc) && sc@ == req
            && sc.wf()),
        request_of(command@) is None ==> (r matches Dispatch::Reply(e) && e@ == immediate_reply(
            command@,
        )),
{
    match command {
        Command::Echo(b) => {
            let bytes = b.0.clone();
            assert(bytes@ =~= b@);
            let r = ExecutionResult(vec![Token::BulkString(Some(bytes))]);
            assert(r@ =~= immediate_reply(command@));
            Dispatch::Reply(r)
        },
        Command::Command => Dispatch::Reply(command_list()),
        Command::Unknown(name) => {
            let msg = name.clone().concat(" is not implemented");
            let r = ExecutionResult(vec![Token::Error(msg)]);
            assert(r@ =~= immediate_reply(command@));
            Dispatch::Reply(r)
        },
        Command::Get(k) => Dispatch::Storage(StorageCommand::Get(k.clone())),
        Command::Put(k, v) => Dispatch::Storage(StorageCommand::Put(k.clone(), Value::Blob(v.clone()))),
        Command::Incr(k) => Dispatch::Storage(StorageCommand::Incr(k.clone())),
        Command::Decr(k) => Dispatch::Storage(StorageCommand::Decr(k.clone())),
        Command::SetAdd(k, m) => Dispatch::Storage(StorageCommand::SetAdd(k.clone(), m.clone())),
        Command::SetRemove(k, m) => Dispatch::Storage(StorageCommand::SetRemove(k.clone(), m.clone())),
        Command::SetMembers(k) => Dispatch::Storage(StorageCommand::SetMembers(k.clone())),
        Command::SetIntersection(ks) => Dispatch::Storage(StorageCommand::SetIntersection(copy_keys(ks))),
        Command::SetUnion(ks) => Dispatch::Storage(StorageCommand::SetUnion(copy_keys(ks))),
    }
}

/// The reply to a command whose storage request ended with `outcome`.
pub fn storage_reply_to_result(command: &Command, outcome: StorageOutcome) -> (r: ExecutionResult)
    requires
        outcome matches StorageOutcome::Replied(Ok(Some(v))) ==> v.wf(),
    ensures
        storage_reply(command@, outcome@, r@),
{
    match outcome {
        StorageOutcome::SendTimeout => error_result("timeout while sending to storage"),
        StorageOutcome::NoResponse => error_result("no response from storage"),
        StorageOutcome::Replied(Err(e)) => error_result(storage_error_to_string(e)),
        StorageOutcome::Replied(Ok(Some(v))) => ExecutionResult(value_to_tokens(v)),
        StorageOutcome::Replied(Ok(None)) => match command {
            Command::Put(..) => {
                let r = ExecutionResult(vec![Token::SimpleString("OK".to_string())]);
                assert(r@ =~= seq![TokenView::SimpleString("OK"@)]);
                r
            },
            Command::Get(_) => {
                let r = ExecutionResult(vec![Token::BulkString(None)]);
                assert(r@ =~= seq![TokenView::BulkString(None)]);
                r
            },
            _ => error_result("invalid response from storage"),
        },
    }
}

} // verus!
