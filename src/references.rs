//! Extraction of wiki-style references (`[[...]]`, `![[...]]`) from a
//! document's markdown event stream.
use crate::text::{is_char_text, is_pair_text, trim, trimmed};
use pulldown_cmark::{Event, Options, Parser as MdParser, Tag, TagEnd};
use vstd::prelude::*;

verus! {

/// One structural event of a tokenized document, as far as reference
/// extraction reads it.
pub enum Token {
    /// A literal text run.
    Text(String),
    /// The start or the end of emphasis (`*`).
    Emphasis,
    /// The start or the end of strong emphasis (`**`).
    Strong,
    /// The start or the end of strikethrough (`~~`).
    Strikethrough,
    /// The start of a metadata (frontmatter) block.
    MetadataStart,
    /// The end of a metadata (frontmatter) block.
    MetadataEnd,
    /// Any other event.
    Other,
}

/// How a reference was written: `[[...]]` or `![[...]]`.
#[derive(Clone, Copy, PartialEq, Eq, Structural, Debug)]
pub enum RefType {
    Link,
    Embed,
}

/// The states of the reference recognizer.
#[derive(Clone, Copy, PartialEq, Eq, Structural, Debug)]
pub enum RefParserState {
    NoState,
    ExpectSecondOpenBracket,
    ExpectRefText,
    ExpectRefTextOrCloseBracket,
    ExpectFinalCloseBracket,
    Resetting,
}

/// The events of a document's markdown, as the tokenizer gives them.
pub uninterp spec fn markdown_tokens_of(text: Seq<char>) -> Seq<Token>;

/// Relies on pulldown_cmark's `Parser` (with tables, footnotes, strikethrough,
/// task lists, math, YAML metadata blocks and GFM enabled) to tokenize a
/// document; its events depend on the text alone.
#[verifier::external_body]
fn markdown_tokens(content: &str) -> (r: Vec<Token>)
    ensures
        r@ == markdown_tokens_of(content@),
{
    let opts = Options::ENABLE_TABLES | Options::ENABLE_FOOTNOTES | Options::ENABLE_STRIKETHROUGH
        | Options::ENABLE_TASKLISTS | Options::ENABLE_MATH
        | Options::ENABLE_YAML_STYLE_METADATA_BLOCKS | Options::ENABLE_GFM;
    MdParser::new_ext(content, opts).map(|ev| match ev {
        Event::Text(t) => Token::Text(t.to_string()),
        Event::Start(Tag::Emphasis) | Event::End(TagEnd::Emphasis) => Token::Emphasis,
        Event::Start(Tag::Strong) | Event::End(TagEnd::Strong) => Token::Strong,
        Event::Start(Tag::Strikethrough) | Event::End(TagEnd::Strikethrough) => Token::Strikethrough,
        Event::Start(Tag::MetadataBlock(_)) => Token::MetadataStart,
        Event::End(TagEnd::MetadataBlock(_)) => Token::MetadataEnd,
        _ => Token::Other,
    }).collect()
}

/// Whether `c` ends the file part of a reference (`#` starts a heading or
/// block anchor, `|` an alias).
pub open spec fn is_ref_separator(c: char) -> bool {
    c == '#' || c == '|'
}

/// Whether `c` ends the file part of a reference.
pub fn ref_separator(c: char) -> (r: bool)
    ensures
        r == is_ref_separator(c),
{
    c == '#' || c == '|'
}

/// Length of the part of `s` before its first separator.
pub open spec fn file_part_len(s: Seq<char>) -> nat
    decreases s.len(),
{
    if s.len() == 0 || is_ref_separator(s[0]) {
        0
    } else {
        1 + file_part_len(s.drop_first())
    }
}

/// The file a raw reference names: the text before the first `#` or `|`, with
/// white space trimmed; none when nothing stands before the separator.
pub open spec fn file_target(raw: Seq<char>) -> Option<Seq<char>> {
    let n = file_part_len(raw);
    if n == 0 {
        None
    } else {
        Some(trim(raw.take(n as int)))
    }
}

/// The file that the raw reference `raw` names, if any.
pub fn reference_file(raw: &str) -> (r: Option<String>)
    ensures
        r.is_some() == file_target(raw@).is_some(),
        r.is_some() ==> r.unwrap()@ == file_target(raw@).unwrap(),
{
    let n = raw.unicode_len();
    let mut i: usize = 0;
    assert(raw@.subrange(0, n as int) =~= raw@);
    while i < n && !ref_separator(raw.get_char(i))
        invariant
            n == raw@.len(),
            i <= n,
            file_part_len(raw@) == i + file_part_len(raw@.subrange(i as int, n as int)),
        decreases n - i,
    {
        assert(raw@.subrange(i as int, n as int).drop_first() =~= raw@.subrange(i + 1, n as int));
        i = i + 1;
    }
    assert(file_part_len(raw@) == i);
    if i == 0 {
        None
    } else {
        let part = raw.substring_char(0, i);
        assert(part@ =~= raw@.take(i as int));
        Some(trimmed(part))
    }
}

/// What the recognizer holds between events.
#[verifier::ext_equal]
pub struct ScanState {
    pub state: RefParserState,
    pub kind: Option<RefType>,
    pub text: Seq<char>,
    pub in_metadata: bool,
    pub refs: Seq<Seq<char>>,
}

impl ScanState {
    /// A candidate that is under way always knows its kind.
    pub open spec fn wf(self) -> bool {
        (self.state == RefParserState::ExpectSecondOpenBracket || self.state
            == RefParserState::ExpectRefText || self.state
            == RefParserState::ExpectRefTextOrCloseBracket || self.state
            == RefParserState::ExpectFinalCloseBracket) ==> self.kind.is_some()
    }
}

/// The recognizer before the first event.
pub open spec fn initial_scan() -> ScanState {
    ScanState {
        state: RefParserState::NoState,
        kind: None,
        text: seq![],
        in_metadata: false,
        refs: seq![],
    }
}

/// Whether `t` is a text run that consists of exactly `s`.
pub open spec fn is_text(t: Token, s: Seq<char>) -> bool {
    match t {
        Token::Text(x) => x@ == s,
        _ => false,
    }
}

/// The literal marker that a formatting boundary stands for, if `t` is one.
pub open spec fn format_marker(t: Token) -> Option<Seq<char>> {
    match t {
        Token::Emphasis => Some(seq!['*']),
        Token::Strong => Some(seq!['*', '*']),
        Token::Strikethrough => Some(seq!['~', '~']),
        _ => None,
    }
}

/// The text a token adds to a reference under way, if it can stand in one.
pub open spec fn ref_piece(t: Token) -> Option<Seq<char>> {
    match t {
        Token::Text(x) => Some(x@),
        _ => format_marker(t),
    }
}

/// The recognizer's state with the candidate abandoned.
pub open spec fn with_state(s: ScanState, st: RefParserState) -> ScanState {
    ScanState { state: st, ..s }
}

/// The candidate with the text of `t` appended.
pub open spec fn appended(s: ScanState, t: Token) -> ScanState {
    ScanState { text: s.text + ref_piece(t).unwrap(), ..s }
}

/// The recognizer after the final `]` of a candidate: the file it names, if
/// any, is recorded.
pub open spec fn closed(s: ScanState) -> ScanState {
    ScanState {
        state: RefParserState::Resetting,
        refs: match file_target(s.text) {
            Some(f) => s.refs.push(f),
            None => s.refs,
        },
        ..s
    }
}

/// Recognizer step on a state that is not `Resetting`, outside metadata.
pub open spec fn transition(s: ScanState, t: Token) -> ScanState {
    match s.state {
        RefParserState::NoState => if is_text(t, seq!['[']) {
            ScanState {
                state: RefParserState::ExpectSecondOpenBracket,
                kind: Some(RefType::Link),
                ..s
            }
        } else if is_text(t, seq!['!', '[']) {
            ScanState {
                state: RefParserState::ExpectSecondOpenBracket,
                kind: Some(RefType::Embed),
                ..s
            }
        } else {
            s
        },
        RefParserState::ExpectSecondOpenBracket => if is_text(t, seq!['[']) {
            with_state(s, RefParserState::ExpectRefText)
        } else {
            with_state(s, RefParserState::Resetting)
        },
        RefParserState::ExpectRefText => if is_text(t, seq![']']) {
            with_state(s, RefParserState::Resetting)
        } else if ref_piece(t).is_some() {
            with_state(appended(s, t), RefParserState::ExpectRefTextOrCloseBracket)
        } else {
            with_state(s, RefParserState::Resetting)
        },
        RefParserState::ExpectRefTextOrCloseBracket => if is_text(t, seq![']']) {
            with_state(s, RefParserState::ExpectFinalCloseBracket)
        } else if ref_piece(t).is_some() {
            appended(s, t)
        } else {
            with_state(s, RefParserState::Resetting)
        },
        RefParserState::ExpectFinalCloseBracket => if is_text(t, seq![']']) {
            closed(s)
        } else {
            with_state(s, RefParserState::Resetting)
        },
        RefParserState::Resetting => s,
    }
}

/// One event fed to the recognizer. Metadata blocks are skipped whole; a
/// pending reset clears the candidate before the event is looked at.
pub open spec fn step(s: ScanState, t: Token) -> ScanState {
    if s.in_metadata {
        if t is MetadataEnd {
            ScanState { in_metadata: false, ..s }
        } else {
            s
        }
    } else if t is MetadataStart {
        ScanState { in_metadata: true, ..s }
    } else if s.state == RefParserState::Resetting {
        transition(
            ScanState { state: RefParserState::NoState, kind: None, text: seq![], ..s },
            t,
        )
    } else {
        transition(s, t)
    }
}

/// The recognizer after the events `ts`.
pub open spec fn scan(ts: Seq<Token>) -> ScanState
    decreases ts.len(),
{
    if ts.len() == 0 {
        initial_scan()
    } else {
        step(scan(ts.drop_last()), ts.last())
    }
}

/// The file targets of the references among the events `ts`, in order.
pub open spec fn references_of(ts: Seq<Token>) -> Seq<Seq<char>> {
    scan(ts).refs
}

/// Two recognizer states that differ at most in the kind of the candidate.
pub open spec fn same_but_kind(a: ScanState, b: ScanState) -> bool {
    a.state == b.state && a.text == b.text && a.in_metadata == b.in_metadata && a.refs == b.refs
}

proof fn lemma_step_ignores_kind(a: ScanState, b: ScanState, t: Token)
    requires
        same_but_kind(a, b),
    ensures
        same_but_kind(step(a, t), step(b, t)),
{
}

proof fn lemma_scan_ignores_kind(pre: Seq<Token>, e: Token, l: Token, rest: Seq<Token>)
    requires
        same_but_kind(step(scan(pre), e), step(scan(pre), l)),
    ensures
        same_but_kind(scan(pre.push(e) + rest), scan(pre.push(l) + rest)),
    decreases rest.len(),
{
    if rest.len() == 0 {
        assert(pre.push(e) + rest =~= pre.push(e));
        assert(pre.push(l) + rest =~= pre.push(l));
        assert(pre.push(e).drop_last() =~= pre);
        assert(pre.push(l).drop_last() =~= pre);
    } else {
        let r0 = rest.drop_last();
        lemma_scan_ignores_kind(pre, e, l, r0);
        assert((pre.push(e) + rest).drop_last() =~= pre.push(e) + r0);
        assert((pre.push(l) + rest).drop_last() =~= pre.push(l) + r0);
        lemma_step_ignores_kind(scan(pre.push(e) + r0), scan(pre.push(l) + r0), rest.last());
    }
}

/// An embed opens a reference just as a link does: where a candidate may
/// start, writing `![` in place of `[` changes none of the references found,
/// whatever events come before and after.
pub proof fn lemma_embed_as_link(pre: Seq<Token>, embed: String, link: String, rest: Seq<Token>)
    requires
        embed@ == seq!['!', '['],
        link@ == seq!['['],
        !scan(pre).in_metadata,
        scan(pre).state == RefParserState::NoState || scan(pre).state == RefParserState::Resetting,
    ensures
        references_of(pre.push(Token::Text(embed)) + rest) == references_of(
            pre.push(Token::Text(link)) + rest,
        ),
{
    assert(seq!['!', '['] != seq!['[']) by {
        assert(seq!['!', '['].len() != seq!['['].len());
    }
    lemma_scan_ignores_kind(pre, Token::Text(embed), Token::Text(link), rest);
}

/// The views of a list of strings.
pub open spec fn string_views(v: Seq<String>) -> Seq<Seq<char>> {
    v.map_values(|s: String| s@)
}

/// The recognizer of references over a stream of events.
pub struct RefParser {
    pub state: RefParserState,
    pub ref_type: Option<RefType>,
    pub ref_text: String,
    pub in_metadata: bool,
    pub refs: Vec<String>,
}

impl View for RefParser {
    type V = ScanState;

    open spec fn view(&self) -> ScanState {
        ScanState {
            state: self.state,
            kind: self.ref_type,
            text: self.ref_text@,
            in_metadata: self.in_metadata,
            refs: string_views(self.refs@),
        }
    }
}

impl RefParser {
    /// A recognizer that has seen no event.
    pub fn new() -> (r: RefParser)
        ensures
            r@ == initial_scan(),
    {
        let r = RefParser {
            state: RefParserState::NoState,
            ref_type: None,
            ref_text: String::new(),
            in_metadata: false,
            refs: Vec::new(),
        };
        assert(string_views(r.refs@) =~= seq![]);
        r
    }

    /// Moves to state `st`.
    pub fn transition(&mut self, st: RefParserState)
        ensures
            final(self)@ == with_state(old(self)@, st),
    {
        self.state = st;
    }

    /// Drops the candidate under way.
    pub fn reset(&mut self)
        ensures
            final(self)@ == (ScanState {
                state: RefParserState::NoState,
                kind: None,
                text: seq![],
                ..old(self)@
            }),
    {
        self.state = RefParserState::NoState;
        self.ref_type = None;
        self.ref_text = String::new();
    }

    /// Appends the text that `t` stands for to the candidate, if it can
    /// stand in one; says whether it could.
    fn append_piece(&mut self, t: &Token) -> (r: bool)
        ensures
            r == ref_piece(*t).is_some(),
            r ==> final(self)@ =~= appended(old(self)@, *t),
            !r ==> final(self)@ == old(self)@,
    {
        match t {
            Token::Text(x) => {
                let piece: &str = x.as_str();
                let mut next = String::from_str(self.ref_text.as_str());
                next.append(piece);
                self.ref_text = next;
                true
            },
            Token::Emphasis => {
                proof { reveal_strlit("*"); }
                self.ref_text.append("*");
                true
            },
            Token::Strong => {
                proof { reveal_strlit("**"); }
                self.ref_text.append("**");
                true
            },
            Token::Strikethrough => {
                proof { reveal_strlit("~~"); }
                self.ref_text.append("~~");
                true
            },
            _ => false,
        }
    }

    /// Ends the candidate with its closing brackets, recording the file it names.
    fn finish(&mut self)
        requires
            old(self)@.wf(),
            old(self)@.state == RefParserState::ExpectFinalCloseBracket,
        ensures
            final(self)@ == closed(old(self)@),
    {
        match self.ref_type {
            Some(_) => {
                if let Some(file) = reference_file(self.ref_text.as_str()) {
                    let ghost before = self.refs@;
                    self.refs.push(file);
                    assert(string_views(self.refs@) =~= string_views(before).push(file@));
                }
                self.transition(RefParserState::Resetting);
            },
            None => {
                // a candidate under way always has its kind
                proof { assert(false); }
            },
        }
    }

    /// Feeds one event to the recognizer.
    pub fn feed(&mut self, t: &Token)
        requires
            old(self)@.wf(),
        ensures
            final(self)@ == step(old(self)@, *t),
            final(self)@.wf(),
    {
        if self.in_metadata {
            if let Token::MetadataEnd = t {
                self.in_metadata = false;
            }
            return;
        }
        if let Token::MetadataStart = t {
            self.in_metadata = true;
            return;
        }
        if self.state == RefParserState::Resetting {
            self.reset();
        }
        let (open1, open2, close) = match t {
            Token::Text(x) => (is_char_text(x.as_str(), '['), is_pair_text(x.as_str(), '!', '['), is_char_text(x.as_str(), ']')),
            _ => (false, false, false),
        };
        assert(open1 == is_text(*t, seq!['[']));
        assert(open2 == is_text(*t, seq!['!', '[']));
        assert(close == is_text(*t, seq![']']));
        match self.state {
            RefParserState::NoState => {
                if open1 {
                    self.ref_type = Some(RefType::Link);
                    self.transition(RefParserState::ExpectSecondOpenBracket);
                } else if open2 {
                    self.ref_type = Some(RefType::Embed);
                    self.transition(RefParserState::ExpectSecondOpenBracket);
                }
            },
            RefParserState::ExpectSecondOpenBracket => {
                if open1 {
                    self.transition(RefParserState::ExpectRefText);
                } else {
                    self.transition(RefParserState::Resetting);
                }
            },
            RefParserState::ExpectRefText => {
                if close {
                    self.transition(RefParserState::Resetting);
                } else if self.append_piece(t) {
                    self.transition(RefParserState::ExpectRefTextOrCloseBracket);
                } else {
                    self.transition(RefParserState::Resetting);
                }
            },
            RefParserState::ExpectRefTextOrCloseBracket => {
                if close {
                    self.transition(RefParserState::ExpectFinalCloseBracket);
                } else if !self.append_piece(t) {
                    self.transition(RefParserState::Resetting);
                }
            },
            RefParserState::ExpectFinalCloseBracket => {
                if close {
                    self.finish();
                } else {
                    self.transition(RefParserState::Resetting);
                }
            },
            RefParserState::Resetting => {},
        }
    }
}

/// The file targets of the references among the events `tokens`, in document
/// order.
pub fn extract_references(tokens: &Vec<Token>) -> (r: Vec<String>)
    ensures
        string_views(r@) == references_of(tokens@),
{
    let mut p = RefParser::new();
    let mut i: usize = 0;
    while i < tokens.len()
        invariant
            i <= tokens@.len(),
            p@ == scan(tokens@.take(i as int)),
            p@.wf(),
        decreases tokens@.len() - i,
    {
        assert(tokens@.take(i + 1).drop_last() =~= tokens@.take(i as int));
        p.feed(&tokens[i]);
        i = i + 1;
    }
    assert(tokens@.take(i as int) =~= tokens@);
    p.refs
}

/// The file targets of the references in the markdown document `content`, in
/// document order.
pub fn collect_references(content: &str) -> (r: Vec<String>)
    ensures
        string_views(r@) == references_of(markdown_tokens_of(content@)),
{
    let tokens = markdown_tokens(content);
    extract_references(&tokens)
}

} // verus!
