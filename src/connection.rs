//! The per-connection request buffer: bytes come in from the socket, tokens
//! are decoded as soon as they are whole, and commands are parsed from the
//! pending tokens.
use vstd::prelude::*;

use crate::codec::{decode, decode_spec, ReadError, ReadErrorView, Token, TokenView};
use crate::command::{parse_spec, token_views, Command, CommandError, CommandView};

verus! {

/// Why a connection cannot go on: its bytes or its tokens break the
/// protocol.
#[derive(Debug)]
pub enum ConnectionError {
    Decode(ReadError),
    Parse(CommandError),
}

/// The mathematical content of a [`ConnectionError`].
pub enum ConnectionErrorView {
    Decode(ReadErrorView),
    Parse(CommandError),
}

impl View for ConnectionError {
    type V = ConnectionErrorView;

    open spec fn view(&self) -> ConnectionErrorView {
        match self {
            ConnectionError::Decode(e) => ConnectionErrorView::Decode(e@),
            ConnectionError::Parse(e) => ConnectionErrorView::Parse(*e),
        }
    }
}

/// The tokens that decode one after another from the start of `buf`, the
/// bytes left after them, and the decode error that stopped them, if it
/// was not a want of bytes.
pub open spec fn drain(buf: Seq<u8>) -> (Seq<TokenView>, Seq<u8>, Option<ReadErrorView>)
    decreases buf.len(),
{
    match decode_spec(buf) {
        Ok((t, n)) => if 0 < n <= buf.len() {
            let (ts, rest, e) = drain(buf.skip(n));
            (seq![t] + ts, rest, e)
        } else {
            (Seq::empty(), buf, None)
        },
        Err(ReadErrorView::InsufficientBytes) => (Seq::empty(), buf, None),
        Err(e) => (Seq::empty(), buf, Some(e)),
    }
}

/// One step of `drain`.
pub proof fn lemma_drain_unfold(buf: Seq<u8>)
    ensures
        match decode_spec(buf) {
            Ok((t, n)) => if 0 < n <= buf.len() {
                drain(buf) == (seq![t] + drain(buf.skip(n)).0, drain(buf.skip(n)).1, drain(buf.skip(n)).2)
            } else {
                drain(buf) == (Seq::<TokenView>::empty(), buf, None::<ReadErrorView>)
            },
            Err(ReadErrorView::InsufficientBytes) => drain(buf) == (Seq::<TokenView>::empty(), buf, None::<ReadErrorView>),
            Err(e) => drain(buf) == (Seq::<TokenView>::empty(), buf, Some(e)),
        },
{
}

/// The next step of a connection with unread bytes `buf` and pending
/// tokens `ts`: the bytes and tokens after it, and the command it yields,
/// if any. Tokens are decoded as far as the bytes allow; a command is
/// parsed once no partial token is left.
pub open spec fn next_spec(buf: Seq<u8>, ts: Seq<TokenView>) -> (
    Seq<u8>,
    Seq<TokenView>,
    Result<Option<CommandView>, ConnectionErrorView>,
) {
    let (decoded, rest, err) = drain(buf);
    let pending = ts + decoded;
    match err {
        Some(e) => (rest, pending, Err(ConnectionErrorView::Decode(e))),
        None => if rest.len() > 0 || pending.len() == 0 {
            (rest, pending, Ok(None))
        } else {
            match parse_spec(pending) {
                Ok((c, n)) => (rest, pending.skip(n), Ok(Some(c))),
                Err(CommandError::InsufficientTokens) => (rest, pending, Ok(None)),
                Err(e) => (rest, pending, Err(ConnectionErrorView::Parse(e))),
            }
        },
    }
}

/// The bytes and tokens of one connection that are not yet consumed.
pub struct RequestBuffer {
    buffer: Vec<u8>,
    tokens: Vec<Token>,
}

/// The view of a connection's error or command.
pub open spec fn step_view(r: &Result<Option<Command>, ConnectionError>) -> Result<
    Option<CommandView>,
    ConnectionErrorView,
> {
    match r {
        Ok(Some(c)) => Ok(Some(c@)),
        Ok(None) => Ok(None),
        Err(e) => Err(e@),
    }
}

impl RequestBuffer {
    /// The unread bytes.
    pub closed spec fn bytes(&self) -> Seq<u8> {
        self.buffer@
    }

    /// The pending tokens.
    pub closed spec fn pending(&self) -> Seq<TokenView> {
        token_views(self.tokens@)
    }

    /// Nothing read yet.
    pub fn new() -> (r: RequestBuffer)
        ensures
            r.bytes() == Seq::<u8>::empty(),
            r.pending() == Seq::<TokenView>::empty(),
    {
        let r = RequestBuffer { buffer: Vec::new(), tokens: Vec::new() };
        assert(r.pending() =~= Seq::<TokenView>::empty());
        r
    }

    /// Whether no bytes are waiting.
    pub fn is_empty(&self) -> (r: bool)
        ensures
            r == (self.bytes().len() == 0),
    {
        self.buffer.len() == 0
    }

    /// Adds bytes read from the socket.
    pub fn push_bytes(&mut self, bytes: &[u8])
        ensures
            final(self).bytes() == old(self).bytes() + bytes@,
            final(self).pending() == old(self).pending(),
    {
        let mut i: usize = 0;
        while i < bytes.len()
            invariant
                0 <= i <= bytes.len(),
                self.buffer@ == old(self).buffer@ + bytes@.take(i as int),
                self.tokens@ == old(self).tokens@,
            decreases bytes.len() - i,
        {
            self.buffer.push(bytes[i]);
            assert(bytes@.take(i + 1) =~= bytes@.take(i as int).push(bytes@[i as int]));
            assert(self.buffer@ =~= old(self).buffer@ + bytes@.take(i + 1));
            i = i + 1;
        }
        assert(bytes@.take(i as int) =~= bytes@);
    }

    /// Decodes the whole tokens at the front of the buffer into the pending
    /// tokens; returns the decode error that stopped it, unless it was a
    /// want of bytes.
    fn decode_tokens(&mut self) -> (r: Option<ReadError>)
        ensures
            final(self).bytes() == drain(old(self).bytes()).1,
            final(self).pending() == old(self).pending() + drain(old(self).bytes()).0,
            r matches Some(e) ==> drain(old(self).bytes()).2 == Some(e@),
            r is None ==> drain(old(self).bytes()).2 is None,
    {
        let ghost start = self.buffer@;
        let ghost ts0 = token_views(self.tokens@);
        let mut pos: usize = 0;
        assert(start.skip(0) =~= start);
        assert(ts0 =~= token_views(self.tokens@));
        loop
            invariant
                pos <= self.buffer.len(),
                self.buffer@ == start,
                start == old(self).buffer@,
                ts0 == token_views(old(self).tokens@),
                drain(start).1 == drain(start.skip(pos as int)).1,
                drain(start).2 == drain(start.skip(pos as int)).2,
                ts0 + drain(start).0 == token_views(self.tokens@) + drain(start.skip(pos as int)).0,
            ensures
                pos <= self.buffer.len(),
                self.buffer@ == start,
                drain(start).1 == start.skip(pos as int),
                drain(start).2 is None,
                ts0 + drain(start).0 == token_views(self.tokens@),
            decreases self.buffer.len() - pos,
        {
            let rest = vstd::slice::slice_subrange(self.buffer.as_slice(), pos, self.buffer.len());
            assert(rest@ =~= start.skip(pos as int));
            proof {
                lemma_drain_unfold(start.skip(pos as int));
            }
            match decode(rest) {
                Ok((t, n)) => {
                    if n == 0 || n > rest.len() {
                        assert(token_views(self.tokens@) + Seq::<TokenView>::empty() =~= token_views(self.tokens@));
                        break;
                    }
                    let ghost tv = t@;
                    let ghost before = token_views(self.tokens@);
                    self.tokens.push(t);
                    assert(token_views(self.tokens@) =~= before.push(tv));
                    assert(start.skip(pos as int).skip(n as int) =~= start.skip(pos + n));
                    assert(before + drain(start.skip(pos as int)).0 =~= before.push(tv) + drain(start.skip(pos + n)).0);
                    pos = pos + n;
                },
                Err(ReadError::InsufficientBytes) => {
                    assert(token_views(self.tokens@) + Seq::<TokenView>::empty() =~= token_views(self.tokens@));
                    break;
                },
                Err(e) => {
                    assert(decode_spec(start.skip(pos as int)) == Err::<(TokenView, int), ReadErrorView>(e@));
                    assert(!(e@ is InsufficientBytes));
                    assert(drain(start.skip(pos as int)) == (Seq::<TokenView>::empty(), start.skip(pos as int), Some(e@)));
                    self.keep_from(pos);
                    assert(token_views(self.tokens@) + Seq::<TokenView>::empty() =~= token_views(self.tokens@));
                    return Some(e);
                },
            }
        }
        self.keep_from(pos);
        assert(token_views(self.tokens@) + Seq::<TokenView>::empty() =~= token_views(self.tokens@));
        None
    }

    /// Decodes what the bytes allow, then, once no partial token is left,
    /// parses a command from the pending tokens and consumes its tokens.
    /// `Ok(None)` means that more bytes are needed; an error means that the
    /// connection breaks the protocol.
    pub fn next_command(&mut self) -> (r: Result<Option<Command>, ConnectionError>)
        ensures
            (final(self).bytes(), final(self).pending(), step_view(&r)) == next_spec(
                old(self).bytes(),
                old(self).pending(),
            ),
    {
        if let Some(e) = self.decode_tokens() {
            return Err(ConnectionError::Decode(e));
        }
        if self.buffer.len() > 0 || self.tokens.len() == 0 {
            return Ok(None);
        }
        proof {
            crate::command::lemma_parse_consumes(token_views(self.tokens@));
        }
        match Command::from_tokens(self.tokens.as_slice()) {
            Ok((c, n)) => {
                let ghost before = self.tokens@;
                let tail = self.tokens.split_off(n);
                self.tokens = tail;
                assert(token_views(self.tokens@) =~= token_views(before).skip(n as int));
                Ok(Some(c))
            },
            Err(CommandError::InsufficientTokens) => Ok(None),
            Err(e) => Err(ConnectionError::Parse(e)),
        }
    }

    /// Drops the bytes before `pos`.
    fn keep_from(&mut self, pos: usize)
        requires
            pos <= old(self).buffer.len(),
        ensures
            final(self).buffer@ == old(self).buffer@.skip(pos as int),
            final(self).tokens@ == old(self).tokens@,
    {
        let tail = self.buffer.split_off(pos);
        self.buffer = tail;
        assert(self.buffer@ =~= old(self).buffer@.skip(pos as int));
    }
}

} // verus!
