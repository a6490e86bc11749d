//! The record scanner: a state machine over the lines of an exchange-format
//! stream that checks each record's structure and puts the keyword lines of
//! its title just before its end line.
use vstd::prelude::*;
use vstd::string::*;
use crate::index::TagIndex;
use crate::tags::string_views;
use crate::text::{split_once, split_once_char, trim, trimmed};

verus! {

/// Where the scanner stands in the stream.
pub enum Parsing {
    /// No record seen yet.
    StartParsing,
    /// Between two records.
    WaitingForNextRecord,
    /// Inside a record whose title has not been seen.
    LookingForTitle,
    /// Inside a record whose title has been seen.
    FoundTitle(String),
}

/// What a `Parsing` stands for, with the title as characters.
pub enum ScanState {
    StartParsing,
    WaitingForNextRecord,
    LookingForTitle,
    FoundTitle(Seq<char>),
}

impl View for Parsing {
    type V = ScanState;

    open spec fn view(&self) -> ScanState {
        match self {
            Parsing::StartParsing => ScanState::StartParsing,
            Parsing::WaitingForNextRecord => ScanState::WaitingForNextRecord,
            Parsing::LookingForTitle => ScanState::LookingForTitle,
            Parsing::FoundTitle(t) => ScanState::FoundTitle(t@),
        }
    }
}

/// Why a merge stopped. Line numbers count from 1 and take in blank lines.
#[derive(Debug)]
pub enum MergeError {
    /// The first tagged line of the stream is not a `TY` line.
    InvalidFileStart { tag: String },
    /// A record begins with another tag than `TY`.
    InvalidRecordStart { tag: String, line: u64 },
    /// A record reaches its `ER` line before any `TI` line.
    MissingTitle { line: u64 },
    /// A record's title is not in the tag index.
    UnknownTitle { title: String, line: u64 },
    /// The stream holds no record.
    NoRecords,
    /// The last record has no `ER` line.
    UnterminatedRecord,
}

/// What a `MergeError` stands for.
pub enum Fault {
    InvalidFileStart(Seq<char>),
    InvalidRecordStart(Seq<char>, int),
    MissingTitle(int),
    UnknownTitle(Seq<char>, int),
    NoRecords,
    UnterminatedRecord,
}

impl View for MergeError {
    type V = Fault;

    open spec fn view(&self) -> Fault {
        match self {
            MergeError::InvalidFileStart { tag } => Fault::InvalidFileStart(tag@),
            MergeError::InvalidRecordStart { tag, line } => Fault::InvalidRecordStart(
                tag@,
                *line as int,
            ),
            MergeError::MissingTitle { line } => Fault::MissingTitle(*line as int),
            MergeError::UnknownTitle { title, line } => Fault::UnknownTitle(title@, *line as int),
            MergeError::NoRecords => Fault::NoRecords,
            MergeError::UnterminatedRecord => Fault::UnterminatedRecord,
        }
    }
}

impl MergeError {
    /// Whether the error is about the structure of the stream rather than a
    /// title missing from the index.
    pub fn is_structural(&self) -> (r: bool)
        ensures
            r == !(self is UnknownTitle),
    {
        !matches!(self, MergeError::UnknownTitle { .. })
    }
}

pub open spec fn type_tag() -> Seq<char> {
    seq!['T', 'Y']
}

pub open spec fn title_tag() -> Seq<char> {
    seq!['T', 'I']
}

pub open spec fn end_tag() -> Seq<char> {
    seq!['E', 'R']
}

/// The start of a keyword line.
pub open spec fn keyword_prefix() -> Seq<char> {
    seq!['K', 'W', ' ', ' ', '-', ' ']
}

/// The keyword line that carries `tag`.
pub open spec fn keyword_line(tag: Seq<char>) -> Seq<char> {
    keyword_prefix() + tag
}

/// One keyword line for each tag, in order.
pub open spec fn keyword_lines(tags: Seq<Seq<char>>) -> Seq<Seq<char>> {
    tags.map_values(|t: Seq<char>| keyword_line(t))
}

/// The trimmed tag and value of a line, split at its first `-`; `None` for
/// a line without `-`.
pub open spec fn line_parts(line: Seq<char>) -> Option<(Seq<char>, Seq<char>)> {
    match split_once(line, '-') {
        Some((a, b)) => Some((trimmed(a), trimmed(b))),
        None => None,
    }
}

/// One step of the scanner: from `state`, after `n` lines, the line `line`
/// gives the next state and the lines written, or the error.
pub open spec fn step(
    state: ScanState,
    n: int,
    line: Seq<char>,
    index: Map<Seq<char>, Seq<Seq<char>>>,
) -> Result<(ScanState, Seq<Seq<char>>), Fault> {
    if line.len() == 0 {
        Ok((state, Seq::empty()))
    } else {
        match line_parts(line) {
            None => Ok((state, seq![line])),
            Some((tag, value)) => match state {
                ScanState::StartParsing => if tag == type_tag() {
                    Ok((ScanState::LookingForTitle, seq![line]))
                } else {
                    Err(Fault::InvalidFileStart(tag))
                },
                ScanState::WaitingForNextRecord => if tag == type_tag() {
                    Ok((ScanState::LookingForTitle, seq![line]))
                } else {
                    Err(Fault::InvalidRecordStart(tag, n + 1))
                },
                ScanState::LookingForTitle => if tag == title_tag() {
                    Ok((ScanState::FoundTitle(value), seq![line]))
                } else if tag == end_tag() {
                    Err(Fault::MissingTitle(n + 1))
                } else {
                    Ok((state, seq![line]))
                },
                ScanState::FoundTitle(title) => if tag == end_tag() {
                    if index.contains_key(title) {
                        Ok((ScanState::WaitingForNextRecord, keyword_lines(index[title]).push(line)))
                    } else {
                        Err(Fault::UnknownTitle(title, n + 1))
                    }
                } else {
                    Ok((state, seq![line]))
                },
            },
        }
    }
}

/// The scanner run over `lines` from the start: the state reached and the
/// lines written, or the first error.
pub open spec fn run(lines: Seq<Seq<char>>, index: Map<Seq<char>, Seq<Seq<char>>>) -> Result<
    (ScanState, Seq<Seq<char>>),
    Fault,
>
    decreases lines.len(),
{
    if lines.len() == 0 {
        Ok((ScanState::StartParsing, Seq::empty()))
    } else {
        match run(lines.drop_last(), index) {
            Err(f) => Err(f),
            Ok((state, out)) => match step(state, lines.len() - 1, lines.last(), index) {
                Err(f) => Err(f),
                Ok((next, written)) => Ok((next, out + written)),
            },
        }
    }
}

/// Whether the stream may end in `state`, and the error if not.
pub open spec fn end_check(state: ScanState) -> Option<Fault> {
    match state {
        ScanState::StartParsing => Some(Fault::NoRecords),
        ScanState::LookingForTitle => Some(Fault::UnterminatedRecord),
        _ => None,
    }
}

/// The merged stream for `lines`, or the first error.
pub open spec fn merged(lines: Seq<Seq<char>>, index: Map<Seq<char>, Seq<Seq<char>>>) -> Result<
    Seq<Seq<char>>,
    Fault,
> {
    match run(lines, index) {
        Err(f) => Err(f),
        Ok((state, out)) => match end_check(state) {
            Some(f) => Err(f),
            None => Ok(out),
        },
    }
}

/// Whether `s` is exactly the two characters `a` and `b`.
fn is_tag(s: &str, a: char, b: char) -> (r: bool)
    ensures
        r == (s@ == seq![a, b]),
{
    if s.unicode_len() == 2 && s.get_char(0) == a && s.get_char(1) == b {
        assert(s@ =~= seq![a, b]);
        true
    } else {
        false
    }
}

/// The keyword line for `tag`.
fn keyword_line_for(tag: &str) -> (r: String)
    ensures
        r@ == keyword_line(tag@),
{
    let prefix = "KW  - ";
    proof {
        reveal_strlit("KW  - ");
    }
    let r = prefix.to_owned().concat(tag);
    assert(prefix@ =~= keyword_prefix());
    r
}

/// The scanner's state together with the number of lines read so far.
pub struct ParsingContext {
    pub line_number: u64,
    pub state: Parsing,
}

impl ParsingContext {
    /// The context before the first line.
    pub fn new() -> (r: ParsingContext)
        ensures
            r.line_number == 0,
            r.state@ == ScanState::StartParsing,
    {
        ParsingContext { line_number: 0, state: Parsing::StartParsing }
    }

    /// One line further, in the same state.
    pub fn next_line(self) -> (r: ParsingContext)
        requires
            self.line_number < u64::MAX,
        ensures
            r.line_number == self.line_number + 1,
            r.state == self.state,
    {
        ParsingContext { line_number: self.line_number + 1, state: self.state }
    }

    /// One line further, in `state`.
    pub fn next_line_state(self, state: Parsing) -> (r: ParsingContext)
        requires
            self.line_number < u64::MAX,
        ensures
            r.line_number == self.line_number + 1,
            r.state == state,
    {
        ParsingContext { line_number: self.line_number + 1, state }
    }

    /// Reads one line: gives the next context and the lines to write in
    /// place of `line`, or the error that stops the merge.
    pub fn consume_line(self, line: &str, index: &TagIndex) -> (r: Result<
        (ParsingContext, Vec<String>),
        MergeError,
    >)
        requires
            self.line_number < u64::MAX,
        ensures
            match r {
                Ok((next, written)) => {
                    &&& next.line_number == self.line_number + 1
                    &&& step(self.state@, self.line_number as int, line@, index@) == Ok::<
                        (ScanState, Seq<Seq<char>>),
                        Fault,
                    >((next.state@, string_views(written@)))
                },
                Err(e) => step(self.state@, self.line_number as int, line@, index@) == Err::<
                    (ScanState, Seq<Seq<char>>),
                    Fault,
                >(e@),
            },
    {
        let mut written: Vec<String> = Vec::new();
        if line.unicode_len() == 0 {
            assert(string_views(written@) =~= Seq::<Seq<char>>::empty());
            return Ok((self.next_line(), written));
        }
        let number = self.line_number + 1;
        let parts = split_once_char(line, '-');
        let (raw_tag, raw_value) = match parts {
            None => {
                written.push(line.to_owned());
                assert(string_views(written@) =~= seq![line@]);
                return Ok((self.next_line(), written));
            },
            Some(p) => p,
        };
        let tag = trim(raw_tag);
        let next_state = match &self.state {
            Parsing::StartParsing => {
                if !is_tag(tag, 'T', 'Y') {
                    return Err(MergeError::InvalidFileStart { tag: tag.to_owned() });
                }
                Parsing::LookingForTitle
            },
            Parsing::WaitingForNextRecord => {
                if !is_tag(tag, 'T', 'Y') {
                    return Err(MergeError::InvalidRecordStart { tag: tag.to_owned(), line: number });
                }
                Parsing::LookingForTitle
            },
            Parsing::LookingForTitle => {
                if is_tag(tag, 'T', 'I') {
                    Parsing::FoundTitle(trim(raw_value).to_owned())
                } else if is_tag(tag, 'E', 'R') {
                    return Err(MergeError::MissingTitle { line: number });
                } else {
                    Parsing::LookingForTitle
                }
            },
            Parsing::FoundTitle(title) => {
                if is_tag(tag, 'E', 'R') {
                    match index.get(title.as_str()) {
                        None => {
                            return Err(
                                MergeError::UnknownTitle { title: title.clone(), line: number },
                            );
                        },
                        Some(tags) => {
                            let mut i: usize = 0;
                            while i < tags.len()
                                invariant
                                    i <= tags@.len(),
                                    string_views(written@) =~= keyword_lines(
                                        string_views(tags@),
                                    ).take(i as int),
                                decreases tags@.len() - i,
                            {
                                let kw = keyword_line_for(tags[i].as_str());
                                proof {
                                    assert(keyword_lines(string_views(tags@)).take(i + 1)
                                        =~= keyword_lines(string_views(tags@)).take(i as int).push(
                                        kw@,
                                    ));
                                }
                                written.push(kw);
                                i += 1;
                            }
                            assert(keyword_lines(string_views(tags@)).take(i as int)
                                =~= keyword_lines(string_views(tags@)));
                        },
                    }
                    Parsing::WaitingForNextRecord
                } else {
                    Parsing::FoundTitle(title.clone())
                }
            },
        };
        let ghost before = string_views(written@);
        written.push(line.to_owned());
        assert(string_views(written@) =~= before.push(line@));
        assert(before.len() == 0 ==> before.push(line@) =~= seq![line@]);
        Ok((self.next_line_state(next_state), written))
    }

    /// Checks that the stream may end here.
    pub fn finish(&self) -> (r: Result<(), MergeError>)
        ensures
            match end_check(self.state@) {
                Some(f) => r matches Err(e) && e@ == f,
                None => r is Ok,
            },
    {
        match self.state {
            Parsing::StartParsing => Err(MergeError::NoRecords),
            Parsing::LookingForTitle => Err(MergeError::UnterminatedRecord),
            _ => Ok(()),
        }
    }
}

/// Once the scanner has failed on a prefix of the lines, the run over all
/// of them fails the same way.
pub proof fn lemma_run_error_persists(
    lines: Seq<Seq<char>>,
    k: int,
    index: Map<Seq<char>, Seq<Seq<char>>>,
)
    requires
        0 <= k <= lines.len(),
        run(lines.take(k), index) is Err,
    ensures
        run(lines, index) == run(lines.take(k), index),
    decreases lines.len() - k,
{
    if k == lines.len() {
        assert(lines.take(k) =~= lines);
    } else {
        let shorter = lines.drop_last();
        assert(shorter.take(k) =~= lines.take(k));
        lemma_run_error_persists(shorter, k, index);
    }
}

/// Merges a whole exchange-format stream, given as its lines: the lines to
/// write, or the first error.
pub fn merge_lines(lines: &Vec<String>, index: &TagIndex) -> (r: Result<Vec<String>, MergeError>)
    ensures
        match r {
            Ok(out) => merged(string_views(lines@), index@) == Ok::<Seq<Seq<char>>, Fault>(
                string_views(out@),
            ),
            Err(e) => merged(string_views(lines@), index@) == Err::<Seq<Seq<char>>, Fault>(e@),
        },
{
    let ghost all = string_views(lines@);
    let mut ctx = ParsingContext::new();
    let mut out: Vec<String> = Vec::new();
    let mut i: usize = 0;
    assert(all.take(0) =~= Seq::<Seq<char>>::empty());
    assert(string_views(out@) =~= Seq::<Seq<char>>::empty());
    while i < lines.len()
        invariant
            all == string_views(lines@),
            i <= lines@.len(),
            ctx.line_number == i as u64,
            run(all.take(i as int), index@) == Ok::<(ScanState, Seq<Seq<char>>), Fault>(
                (ctx.state@, string_views(out@)),
            ),
        decreases lines@.len() - i,
    {
        proof {
            assert(all.take(i + 1).drop_last() =~= all.take(i as int));
            assert(all.take(i + 1).last() == lines@[i as int]@);
        }
        match ctx.consume_line(lines[i].as_str(), index) {
            Err(e) => {
                proof {
                    lemma_run_error_persists(all, i + 1, index@);
                }
                return Err(e);
            },
            Ok((next, written)) => {
                let ghost before = string_views(out@);
                let mut written = written;
                let ghost added = string_views(written@);
                out.append(&mut written);
                assert(string_views(out@) =~= before + added);
                ctx = next;
            },
        }
        i += 1;
    }
    assert(all.take(i as int) =~= all);
    match ctx.finish() {
        Err(e) => Err(e),
        Ok(()) => Ok(out),
    }
}

} // verus!
