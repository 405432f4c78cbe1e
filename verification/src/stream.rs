//! The tokens of a database once comments are skipped and inclusions read
//! in place (see `Tokens::scan`), read one by one or a statement at a time.
use vstd::prelude::*;

use crate::error::MmError;
use crate::text::{Tok, is_token2};
use crate::tokens::stmt_end;

verus! {

/// What is left of a scanned token stream: the tokens not yet read, how the
/// scan ended (the error that reading meets once the tokens run out, if
/// any), and whether the end of the input has already been reported.
pub struct StreamState {
    pub rest: Seq<Tok>,
    pub end: Result<(), MmError>,
    pub done: bool,
}

/// The view of an `Option<String>` result as characters.
pub open spec fn res_tok(r: Result<Option<String>, MmError>) -> Result<Option<Tok>, MmError> {
    match r {
        Ok(Some(s)) => Ok(Some(s@)),
        Ok(None) => Ok(None),
        Err(e) => Err(e),
    }
}

/// The view of a statement result as characters.
pub open spec fn res_stmt(r: Result<Vec<String>, MmError>) -> Result<Seq<Tok>, MmError> {
    match r {
        Ok(v) => Ok(v.deep_view()),
        Err(e) => Err(e),
    }
}

/// Reading the next token: `None` once at the end of the input, after which
/// reading fails; where the scan stopped at an error, that error once the
/// tokens run out.
pub open spec fn spec_read_comment(ss: StreamState) -> (Result<Option<Tok>, MmError>, StreamState) {
    if ss.done {
        (Err(MmError::ReadPastEnd), ss)
    } else if ss.rest.len() > 0 {
        (Ok(Some(ss.rest[0])), StreamState { rest: ss.rest.drop_first(), ..ss })
    } else {
        match ss.end {
            Ok(_) => (Ok(None), StreamState { done: true, ..ss }),
            Err(e) => (Err(e), ss),
        }
    }
}

/// The rest of a statement whose next token is `tok` and whose tokens so far
/// are `acc`: tokens up to `$.`, which is consumed and not kept.
pub open spec fn spec_stat_from(tok: Tok, ss: StreamState, acc: Seq<Tok>) -> (
    Result<Seq<Tok>, MmError>,
    StreamState,
)
    decreases ss.rest.len(),
{
    if tok == stmt_end() {
        (Ok(acc), ss)
    } else {
        let (r, ss1) = spec_read_comment(ss);
        match r {
            Err(e) => (Err(e), ss1),
            Ok(None) => (Err(MmError::StatementEof), ss1),
            Ok(Some(t)) => if ss1.rest.len() < ss.rest.len() {
                spec_stat_from(t, ss1, acc.push(tok))
            } else {
                (Err(MmError::ReadPastEnd), ss1)
            },
        }
    }
}

/// Reading a statement: the tokens up to the next `$.`.
pub open spec fn spec_readstat(ss: StreamState) -> (Result<Seq<Tok>, MmError>, StreamState) {
    let (r, ss1) = spec_read_comment(ss);
    match r {
        Err(e) => (Err(e), ss1),
        Ok(None) => (Err(MmError::StatementEof), ss1),
        Ok(Some(t)) => spec_stat_from(t, ss1, seq![]),
    }
}

/// Reading never makes the stream longer, and a token read makes it
/// shorter.
pub proof fn lemma_read_comment_shrinks(ss: StreamState)
    ensures
        spec_read_comment(ss).1.rest.len() <= ss.rest.len(),
        spec_read_comment(ss).0 matches Ok(Some(_)) ==> spec_read_comment(ss).1.rest.len()
            < ss.rest.len(),
{
}

/// The scanned tokens of a database.
pub struct TokenStream {
    toks: Vec<String>,
    pos: usize,
    end: Result<(), MmError>,
    done: bool,
}

impl View for TokenStream {
    type V = StreamState;

    closed spec fn view(&self) -> StreamState {
        StreamState {
            rest: self.toks.deep_view().skip(self.pos as int),
            end: self.end,
            done: self.done,
        }
    }
}

impl TokenStream {
    #[verifier::type_invariant]
    spec fn inv(self) -> bool {
        self.pos <= self.toks.len()
    }

    /// A stream over the scanned tokens `toks`, where `end` says how the scan
    /// ended.
    pub fn new(toks: Vec<String>, end: Result<(), MmError>) -> (s: TokenStream)
        ensures
            s@ == (StreamState { rest: toks.deep_view(), end, done: false }),
    {
        let s = TokenStream { toks, pos: 0, end, done: false };
        assert(s.toks.deep_view().skip(0) =~= s.toks.deep_view());
        s
    }

    /// Whether the end of the input has been reported.
    pub fn is_done(&self) -> (b: bool)
        ensures
            b == self@.done,
    {
        self.done
    }

    /// Reads the next token (comments were skipped by the scan); `None` at the
    /// end of the input. The stream must not be read past its end, nor up to
    /// an error at which the scan stopped (see `try_read_comment`).
    pub fn read_comment(&mut self) -> (r: Option<String>)
        requires
            spec_read_comment(old(self)@).0 is Ok,
        ensures
            spec_read_comment(old(self)@) == (res_tok(Ok(r)), final(self)@),
    {
        match self.try_read_comment() {
            Ok(t) => t,
            Err(_) => None,
        }
    }

    /// Reads the next token (comments were skipped by the scan); `None` at the
    /// end of the input. Reading again after that is an error
    /// (`ReadPastEnd`), and where the scan stopped at an error, that error
    /// comes in place of `None`.
    pub fn try_read_comment(&mut self) -> (r: Result<Option<String>, MmError>)
        ensures
            spec_read_comment(old(self)@) == (res_tok(r), final(self)@),
    {
        proof {
            use_type_invariant(&*self);
        }
        if self.done {
            return Err(MmError::ReadPastEnd);
        }
        if self.pos < self.toks.len() {
            let t = self.toks[self.pos].clone();
            let ghost b = self.toks.deep_view();
            let ghost p = self.pos as int;
            self.pos = self.pos + 1;
            proof {
                assert(b.skip(p)[0] == t@);
                assert(b.skip(p).drop_first() =~= b.skip(p + 1));
            }
            return Ok(Some(t));
        }
        assert(self@.rest =~= seq![]);
        match self.end {
            Ok(()) => {
                self.done = true;
                Ok(None)
            },
            Err(e) => Err(e),
        }
    }

    /// Reads a statement: the tokens up to the next `$.`, which is not kept.
    /// The input must hold that `$.` (see `try_readstat`).
    pub fn readstat(&mut self) -> (r: Vec<String>)
        requires
            spec_readstat(old(self)@).0 is Ok,
        ensures
            spec_readstat(old(self)@) == (res_stmt(Ok(r)), final(self)@),
    {
        match self.try_readstat() {
            Ok(s) => s,
            Err(_) => Vec::new(),
        }
    }

    /// Reads a statement: the tokens up to the next `$.`, which is not kept.
    /// Where the input ends first, the error is `StatementEof` (or the error
    /// at which the scan stopped), and no statement is returned.
    pub fn try_readstat(&mut self) -> (r: Result<Vec<String>, MmError>)
        ensures
            spec_readstat(old(self)@) == (res_stmt(r), final(self)@),
            final(self)@.rest.len() <= old(self)@.rest.len(),
    {
        let mut tok = match self.try_read_comment() {
            Err(e) => {
                return Err(e);
            },
            Ok(None) => {
                return Err(MmError::StatementEof);
            },
            Ok(Some(t)) => t,
        };
        let mut stat: Vec<String> = Vec::new();
        assert(stat.deep_view() =~= Seq::<Tok>::empty());
        while !is_token2(&tok, '$', '.')
            invariant
                spec_readstat(old(self)@) == spec_stat_from(tok@, self@, stat.deep_view()),
                self@.rest.len() <= old(self)@.rest.len(),
            decreases self@.rest.len(),
        {
            match self.try_read_comment() {
                Err(e) => {
                    return Err(e);
                },
                Ok(None) => {
                    return Err(MmError::StatementEof);
                },
                Ok(Some(t)) => {
                    let ghost before = stat.deep_view();
                    stat.push(tok);
                    assert(stat.deep_view() =~= before.push(tok@));
                    tok = t;
                },
            }
        }
        Ok(stat)
    }
}

} // verus!
