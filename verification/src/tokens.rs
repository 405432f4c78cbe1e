//! Reading a database as a stream of tokens: white-space separated words,
//! with comments `$( ... $)` skipped and file inclusions `$[ name $]` read in
//! place. Opening a file is left to the caller: when an inclusion of a file
//! not included before is met, its name is handed back, and the caller gives
//! its lines with `push_lines`.
use vstd::prelude::*;

use crate::error::MmError;
use crate::text::{Tok, clone_stmt, is_token2, split_whitespace, stmt_contains, words};

verus! {

/// The state of a token reader: the tokens left on the current line, the
/// lines still to be read (those of the included files first, in the order
/// in which they come), the names of the files included so far, and whether
/// the end of the input has already been reported.
pub struct TokState {
    pub buf: Seq<Tok>,
    pub lines: Seq<Seq<char>>,
    pub imported: Seq<Tok>,
    pub done: bool,
}

/// The number of tokens and lines of `ls` (each line counts once besides
/// its tokens).
pub open spec fn lines_size(ls: Seq<Seq<char>>) -> nat
    decreases ls.len(),
{
    if ls.len() == 0 {
        0
    } else {
        words(ls[0]).len() + 1 + lines_size(ls.drop_first())
    }
}

/// A measure of what is left to read.
pub open spec fn size(ts: TokState) -> nat {
    ts.buf.len() + lines_size(ts.lines)
}

/// What reading at the file level gives: a token (`None` at the end of the
/// input), or the name of a file to be included before reading goes on.
#[derive(Debug, PartialEq, Eq)]
pub enum FileStep {
    Token(Option<String>),
    Include(String),
}

/// The view of a `FileStep`.
pub enum FileStepView {
    Token(Option<Tok>),
    Include(Tok),
}

/// How a scan of the input ended: at the end of the input, or at a file to
/// be included before the scan goes on.
#[derive(Debug, PartialEq, Eq)]
pub enum ScanEnd {
    Finished,
    Include(String),
}

/// The view of an `Option<String>` result as characters.
pub open spec fn opt_tok(o: Option<String>) -> Option<Tok> {
    match o {
        Some(s) => Some(s@),
        None => None,
    }
}

/// The view of a file-level result as characters.
pub open spec fn res_file(r: Result<FileStep, MmError>) -> Result<FileStepView, MmError> {
    match r {
        Ok(FileStep::Token(o)) => Ok(FileStepView::Token(opt_tok(o))),
        Ok(FileStep::Include(f)) => Ok(FileStepView::Include(f@)),
        Err(e) => Err(e),
    }
}

/// The view of a scan result: `None` at the end of the input, or the name
/// of the file to be included.
pub open spec fn res_scan(r: Result<ScanEnd, MmError>) -> Result<Option<Tok>, MmError> {
    match r {
        Ok(ScanEnd::Finished) => Ok(None),
        Ok(ScanEnd::Include(f)) => Ok(Some(f@)),
        Err(e) => Err(e),
    }
}

/// `$[`, which opens a file inclusion.
pub open spec fn include_open() -> Tok {
    seq!['$', '[']
}

/// `$]`, which closes a file inclusion.
pub open spec fn include_close() -> Tok {
    seq!['$', ']']
}

/// `$(`, which opens a comment.
pub open spec fn comment_open() -> Tok {
    seq!['$', '(']
}

/// `$)`, which closes a comment.
pub open spec fn comment_close() -> Tok {
    seq!['$', ')']
}

/// `$.`, which ends a statement.
pub open spec fn stmt_end() -> Tok {
    seq!['$', '.']
}

/// Reading one raw token: the next token of the current line, else of the
/// next line that has one; `None` once no line is left, after which reading
/// fails.
pub open spec fn next_tok(ts: TokState) -> (Result<Option<Tok>, MmError>, TokState)
    decreases ts.lines.len(),
{
    if ts.done {
        (Err(MmError::ReadPastEnd), ts)
    } else if ts.buf.len() > 0 {
        (Ok(Some(ts.buf[0])), TokState { buf: ts.buf.drop_first(), ..ts })
    } else if ts.lines.len() == 0 {
        (Ok(None), TokState { done: true, ..ts })
    } else {
        next_tok(TokState { buf: words(ts.lines[0]), lines: ts.lines.drop_first(), ..ts })
    }
}

/// Reading a raw token never makes what is left larger, a token read makes
/// it smaller, and the included files stay as they are.
pub proof fn lemma_next_tok_shrinks(ts: TokState)
    ensures
        size(next_tok(ts).1) <= size(ts),
        next_tok(ts).0 matches Ok(Some(_)) ==> size(next_tok(ts).1) < size(ts),
        next_tok(ts).1.imported == ts.imported,
        next_tok(ts).0 matches Ok(Some(_)) ==> !next_tok(ts).1.done,
    decreases ts.lines.len(),
{
    if !ts.done && ts.buf.len() == 0 && ts.lines.len() > 0 {
        lemma_next_tok_shrinks(
            TokState { buf: words(ts.lines[0]), lines: ts.lines.drop_first(), ..ts },
        );
    }
}

/// Reading one token at the file level. `$[ name $]` includes the file
/// `name`: where it was included before, it is skipped and reading goes on;
/// otherwise its name is recorded and handed back, for its lines to be read
/// next.
pub open spec fn spec_read_file(ts: TokState) -> (Result<FileStepView, MmError>, TokState)
    decreases size(ts),
{
    let (r, ts1) = next_tok(ts);
    match r {
        Err(e) => (Err(e), ts1),
        Ok(None) => (Ok(FileStepView::Token(None)), ts1),
        Ok(Some(t)) => if t != include_open() {
            (Ok(FileStepView::Token(Some(t))), ts1)
        } else {
            let (f, ts2) = next_tok(ts1);
            match f {
                Err(e) => (Err(e), ts2),
                Ok(None) => (Err(MmError::IncludeNameMissing), ts2),
                Ok(Some(name)) => {
                    let (b, ts3) = next_tok(ts2);
                    match b {
                        Err(e) => (Err(e), ts3),
                        Ok(None) => (Err(MmError::IncludeEndMissing), ts3),
                        Ok(Some(b)) => if b != include_close() {
                            (Err(MmError::IncludeEndBracket), ts3)
                        } else if !ts3.imported.contains(name) {
                            (
                                Ok(FileStepView::Include(name)),
                                TokState { imported: ts3.imported.push(name), ..ts3 },
                            )
                        } else if size(ts3) < size(ts) {
                            spec_read_file(ts3)
                        } else {
                            (Err(MmError::ReadPastEnd), ts3)
                        },
                    }
                },
            }
        },
    }
}

/// Reading at the file level never makes what is left larger, and a token
/// read makes it smaller.
pub proof fn lemma_read_file_shrinks(ts: TokState)
    ensures
        size(spec_read_file(ts).1) <= size(ts),
        spec_read_file(ts).0 matches Ok(FileStepView::Token(Some(_))) ==> size(
            spec_read_file(ts).1,
        ) < size(ts),
    decreases size(ts),
{
    lemma_next_tok_shrinks(ts);
    let (r, ts1) = next_tok(ts);
    if let Ok(Some(t)) = r {
        if t == include_open() {
            lemma_next_tok_shrinks(ts1);
            let (f, ts2) = next_tok(ts1);
            lemma_next_tok_shrinks(ts2);
            let (b, ts3) = next_tok(ts2);
            if let (Ok(Some(name)), Ok(Some(b))) = (f, b) {
                if b == include_close() && ts3.imported.contains(name) && size(ts3) < size(ts) {
                    lemma_read_file_shrinks(ts3);
                }
            }
        }
    }
}

/// Skipping the rest of a comment: raw tokens up to and including `$)`.
/// Reaching the end of the input there makes the next read fail.
pub open spec fn spec_skip_comment(ts: TokState) -> (Result<(), MmError>, TokState)
    decreases size(ts),
{
    let (r, ts1) = next_tok(ts);
    match r {
        Err(e) => (Err(e), ts1),
        Ok(None) => (Err(MmError::ReadPastEnd), ts1),
        Ok(Some(t)) => if t == comment_close() {
            (Ok(()), ts1)
        } else if size(ts1) < size(ts) {
            spec_skip_comment(ts1)
        } else {
            (Err(MmError::ReadPastEnd), ts1)
        },
    }
}

/// Skipping a comment never makes what is left larger.
pub proof fn lemma_skip_comment_shrinks(ts: TokState)
    ensures
        size(spec_skip_comment(ts).1) <= size(ts),
    decreases size(ts),
{
    lemma_next_tok_shrinks(ts);
    let (r, ts1) = next_tok(ts);
    if let Ok(Some(t)) = r {
        if t != comment_close() && size(ts1) < size(ts) {
            lemma_skip_comment_shrinks(ts1);
        }
    }
}

/// Reading the next token that is not inside a comment, or the name of a
/// file to be included. (After a comment what is left is always smaller, so
/// the last branch is never taken; see `lemma_read_comment_shrinks`.)
pub open spec fn spec_read_comment(ts: TokState) -> (Result<FileStepView, MmError>, TokState)
    decreases size(ts),
{
    let (r, ts1) = spec_read_file(ts);
    match r {
        Ok(FileStepView::Token(Some(t))) => if t != comment_open() {
            (Ok(FileStepView::Token(Some(t))), ts1)
        } else {
            let (r2, ts2) = spec_skip_comment(ts1);
            match r2 {
                Err(e) => (Err(e), ts2),
                Ok(_) => if size(ts2) < size(ts) {
                    spec_read_comment(ts2)
                } else {
                    (Err(MmError::ReadPastEnd), ts2)
                },
            }
        },
        _ => (r, ts1),
    }
}

/// Reading past comments never makes what is left larger, and a token read
/// makes it smaller.
pub proof fn lemma_read_comment_shrinks(ts: TokState)
    ensures
        size(spec_read_comment(ts).1) <= size(ts),
        spec_read_comment(ts).0 matches Ok(FileStepView::Token(Some(_))) ==> size(
            spec_read_comment(ts).1,
        ) < size(ts),
    decreases size(ts),
{
    lemma_read_file_shrinks(ts);
    let (r, ts1) = spec_read_file(ts);
    if let Ok(FileStepView::Token(Some(t))) = r {
        if t == comment_open() {
            lemma_skip_comment_shrinks(ts1);
            let (r2, ts2) = spec_skip_comment(ts1);
            if r2 is Ok && size(ts2) < size(ts) {
                lemma_read_comment_shrinks(ts2);
            }
        }
    }
}

/// Scanning the input: the tokens outside comments, up to the end of the
/// input (`Ok(None)`), the first file to be included (`Ok(Some(name))`), or
/// the first error.
pub open spec fn spec_scan(ts: TokState) -> (Result<Option<Tok>, MmError>, Seq<Tok>, TokState)
    decreases size(ts),
{
    let (r, ts1) = spec_read_comment(ts);
    match r {
        Err(e) => (Err(e), seq![], ts1),
        Ok(FileStepView::Include(f)) => (Ok(Some(f)), seq![], ts1),
        Ok(FileStepView::Token(None)) => (Ok(None), seq![], ts1),
        Ok(FileStepView::Token(Some(t))) => if size(ts1) < size(ts) {
            let (r2, out, ts2) = spec_scan(ts1);
            (r2, seq![t] + out, ts2)
        } else {
            (Err(MmError::ReadPastEnd), seq![], ts1)
        },
    }
}

/// A reader of the tokens of a database and of the files that it includes.
pub struct Tokens {
    lines: Vec<String>,
    next_line: usize,
    buffer: Vec<String>,
    pos: usize,
    imported: Vec<String>,
    done: bool,
}

impl View for Tokens {
    type V = TokState;

    closed spec fn view(&self) -> TokState {
        TokState {
            buf: self.buffer.deep_view().skip(self.pos as int),
            lines: self.lines.deep_view().skip(self.next_line as int),
            imported: self.imported.deep_view(),
            done: self.done,
        }
    }
}

impl Tokens {
    #[verifier::type_invariant]
    spec fn inv(self) -> bool {
        &&& self.next_line <= self.lines.len()
        &&& self.pos <= self.buffer.len()
    }

    /// A token reader over the given lines of input.
    pub fn new(lines: Vec<String>) -> (t: Tokens)
        ensures
            t@ == (TokState { buf: seq![], lines: lines.deep_view(), imported: seq![], done: false }),
    {
        let t = Tokens {
            lines,
            next_line: 0,
            buffer: Vec::new(),
            pos: 0,
            imported: Vec::new(),
            done: false,
        };
        assert(t.buffer.deep_view().skip(0) =~= seq![]);
        assert(t.lines.deep_view().skip(0) =~= t.lines.deep_view());
        assert(t.imported.deep_view() =~= seq![]);
        t
    }

    /// Whether the end of the input has been reported.
    pub fn is_done(&self) -> (b: bool)
        ensures
            b == self@.done,
    {
        self.done
    }

    /// Puts the lines of an included file before the lines still to be read;
    /// the tokens left on the current line come first.
    pub fn push_lines(&mut self, lines: Vec<String>)
        ensures
            final(self)@ == (TokState { lines: lines.deep_view() + old(self)@.lines, ..old(self)@ }),
    {
        proof {
            use_type_invariant(&*self);
        }
        let ghost old_rest = self.lines.deep_view().skip(self.next_line as int);
        let mut all: Vec<String> = lines;
        let ghost first = all.deep_view();
        let mut i: usize = self.next_line;
        while i < self.lines.len()
            invariant
                self.next_line <= i <= self.lines.len(),
                old_rest == self.lines.deep_view().skip(self.next_line as int),
                all.deep_view() == first + self.lines.deep_view().subrange(
                    self.next_line as int,
                    i as int,
                ),
            decreases self.lines.len() - i,
        {
            let ghost a0 = all.deep_view();
            let l = self.lines[i].clone();
            all.push(l);
            assert(all.deep_view() =~= a0.push(self.lines[i as int]@));
            assert(all.deep_view() =~= first + self.lines.deep_view().subrange(
                self.next_line as int,
                i + 1,
            ));
            i = i + 1;
        }
        assert(all.deep_view() =~= first + old_rest);
        self.next_line = 0;
        self.lines = all;
        assert(self.lines.deep_view().skip(0) =~= self.lines.deep_view());
    }

    /// Reads the next raw token; `None` at the end of the input.
    pub fn read(&mut self) -> (r: Option<String>)
        requires
            !old(self)@.done,
        ensures
            next_tok(old(self)@) == (Ok::<Option<Tok>, MmError>(opt_tok(r)), final(self)@),
    {
        proof {
            use_type_invariant(&*self);
        }
        while self.pos >= self.buffer.len()
            invariant
                next_tok(old(self)@) == next_tok(self@),
                !self.done,
            decreases self.lines.len() - self.next_line,
        {
            proof {
                use_type_invariant(&*self);
            }
            if self.next_line < self.lines.len() {
                let ghost ls = self.lines.deep_view();
                let ghost nl = self.next_line as int;
                let ghost before = self@;
                let toks = split_whitespace(&self.lines[self.next_line]);
                self.pos = 0;
                self.buffer = toks;
                self.next_line = self.next_line + 1;
                proof {
                    assert(ls.skip(nl)[0] == ls[nl]);
                    assert(ls.skip(nl).drop_first() =~= ls.skip(nl + 1));
                    assert(self.buffer.deep_view().skip(0) =~= words(ls[nl]));
                    assert(before.buf =~= seq![]);
                    assert(self@ == TokState {
                        buf: words(before.lines[0]),
                        lines: before.lines.drop_first(),
                        ..before
                    });
                }
            } else {
                let ghost before = self@;
                self.done = true;
                proof {
                    assert(before.buf =~= seq![]);
                    assert(before.lines =~= seq![]);
                    assert(self@ == TokState { done: true, ..before });
                }
                return None;
            }
        }
        proof {
            use_type_invariant(&*self);
        }
        let t = self.buffer[self.pos].clone();
        let ghost b = self.buffer.deep_view();
        let ghost p = self.pos as int;
        let ghost before = self@;
        self.pos = self.pos + 1;
        proof {
            assert(b.skip(p)[0] == t@);
            assert(b.skip(p).drop_first() =~= b.skip(p + 1));
            assert(self@ == TokState { buf: before.buf.drop_first(), ..before });
        }
        Some(t)
    }

    /// Reads the next token at the file level, where the input holds no
    /// malformed inclusion there and has not been read to its end (see
    /// `try_read_file`).
    pub fn read_file(&mut self) -> (r: FileStep)
        requires
            spec_read_file(old(self)@).0 is Ok,
        ensures
            spec_read_file(old(self)@) == (res_file(Ok(r)), final(self)@),
    {
        match self.try_read_file() {
            Ok(s) => s,
            Err(_) => FileStep::Token(None),
        }
    }

    /// Reads the next token at the file level. A `$[ name $]` inclusion of a
    /// file included before is skipped; one of a new file records its name
    /// and hands it back, and the file's lines are then to be given with
    /// `push_lines` before reading goes on. A malformed inclusion, or a read
    /// after the end of the input was reported, gives the error that says so.
    pub fn try_read_file(&mut self) -> (r: Result<FileStep, MmError>)
        ensures
            spec_read_file(old(self)@) == (res_file(r), final(self)@),
    {
        loop
            invariant
                spec_read_file(old(self)@) == spec_read_file(self@),
            decreases size(self@),
        {
            let ghost start = self@;
            proof {
                lemma_next_tok_shrinks(start);
            }
            if self.is_done() {
                return Err(MmError::ReadPastEnd);
            }
            let t = match self.read() {
                None => {
                    return Ok(FileStep::Token(None));
                },
                Some(t) => t,
            };
            if !is_token2(&t, '$', '[') {
                return Ok(FileStep::Token(Some(t)));
            }
            let ghost s1 = self@;
            proof {
                lemma_next_tok_shrinks(s1);
            }
            let name = match self.read() {
                None => {
                    return Err(MmError::IncludeNameMissing);
                },
                Some(f) => f,
            };
            let ghost s2 = self@;
            proof {
                lemma_next_tok_shrinks(s2);
            }
            let b = match self.read() {
                None => {
                    return Err(MmError::IncludeEndMissing);
                },
                Some(b) => b,
            };
            if !is_token2(&b, '$', ']') {
                return Err(MmError::IncludeEndBracket);
            }
            if !stmt_contains(&self.imported, &name) {
                let ghost s3 = self@;
                proof {
                    use_type_invariant(&*self);
                }
                let mut im = clone_stmt(&self.imported);
                im.push(name.clone());
                self.imported = im;
                proof {
                    assert(self.imported.deep_view() =~= s3.imported.push(name@));
                    assert(self@ == TokState { imported: s3.imported.push(name@), ..s3 });
                }
                return Ok(FileStep::Include(name));
            }
        }
    }

    /// Skips the rest of a comment, up to and including `$)`.
    fn skip_comment(&mut self) -> (r: Result<(), MmError>)
        ensures
            spec_skip_comment(old(self)@) == (r, final(self)@),
    {
        loop
            invariant
                spec_skip_comment(old(self)@) == spec_skip_comment(self@),
            decreases size(self@),
        {
            proof {
                lemma_next_tok_shrinks(self@);
            }
            if self.is_done() {
                return Err(MmError::ReadPastEnd);
            }
            match self.read() {
                None => {
                    return Err(MmError::ReadPastEnd);
                },
                Some(t) => {
                    if is_token2(&t, '$', ')') {
                        return Ok(());
                    }
                },
            }
        }
    }

    /// Reads the next token that is not inside a comment, or the name of a
    /// new file to be included, where no error stands in the way (see
    /// `try_read_comment`).
    pub fn read_comment(&mut self) -> (r: FileStep)
        requires
            spec_read_comment(old(self)@).0 is Ok,
        ensures
            spec_read_comment(old(self)@) == (res_file(Ok(r)), final(self)@),
    {
        match self.try_read_comment() {
            Ok(s) => s,
            Err(_) => FileStep::Token(None),
        }
    }

    /// Reads the next token that is not inside a comment, or the name of a
    /// new file to be included (see `try_read_file`). A comment that is not
    /// closed before the end of the input gives `ReadPastEnd`.
    pub fn try_read_comment(&mut self) -> (r: Result<FileStep, MmError>)
        ensures
            spec_read_comment(old(self)@) == (res_file(r), final(self)@),
    {
        loop
            invariant
                spec_read_comment(old(self)@) == spec_read_comment(self@),
            decreases size(self@),
        {
            let ghost start = self@;
            proof {
                lemma_read_file_shrinks(start);
            }
            let t = match self.try_read_file() {
                Ok(FileStep::Token(Some(t))) => t,
                other => {
                    return other;
                },
            };
            if !is_token2(&t, '$', '(') {
                return Ok(FileStep::Token(Some(t)));
            }
            let ghost mid = self@;
            proof {
                lemma_skip_comment_shrinks(mid);
            }
            match self.skip_comment() {
                Err(e) => {
                    return Err(e);
                },
                Ok(()) => {},
            }
        }
    }

    /// Appends to `out` the tokens outside comments, up to the end of the
    /// input, the first new file to be included, or the first error. After
    /// an inclusion, the file's lines are to be given with `push_lines`, and
    /// the scan goes on with another call.
    pub fn scan(&mut self, out: &mut Vec<String>) -> (r: Result<ScanEnd, MmError>)
        ensures
            res_scan(r) == spec_scan(old(self)@).0,
            final(out).deep_view() == old(out).deep_view() + spec_scan(old(self)@).1,
            final(self)@ == spec_scan(old(self)@).2,
    {
        loop
            invariant
                spec_scan(self@).0 == spec_scan(old(self)@).0,
                spec_scan(self@).2 == spec_scan(old(self)@).2,
                old(out).deep_view() + spec_scan(old(self)@).1 == out.deep_view() + spec_scan(
                    self@,
                ).1,
            decreases size(self@),
        {
            let ghost start = self@;
            proof {
                lemma_read_comment_shrinks(start);
            }
            match self.try_read_comment() {
                Err(e) => {
                    assert(out.deep_view() + seq![] =~= out.deep_view());
                    return Err(e);
                },
                Ok(FileStep::Include(f)) => {
                    assert(out.deep_view() + seq![] =~= out.deep_view());
                    return Ok(ScanEnd::Include(f));
                },
                Ok(FileStep::Token(None)) => {
                    assert(out.deep_view() + seq![] =~= out.deep_view());
                    return Ok(ScanEnd::Finished);
                },
                Ok(FileStep::Token(Some(t))) => {
                    let ghost o0 = out.deep_view();
                    let ghost w = spec_scan(self@).1;
                    out.push(t);
                    assert(o0 + (seq![t@] + w) =~= out.deep_view() + w);
                },
            }
        }
    }
}

} // verus!
