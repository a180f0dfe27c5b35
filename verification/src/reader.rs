//! The lexer: a single-pass, delimiter-parameterised tokenizer over the
//! template source, with the standalone-line rule built in.
//!
//! [Reader::pop_front] returns exactly the token that the spec-level
//! function [next_token] describes for the reader's current state, so the
//! token stream of a template is a mathematical function of its text.
use vstd::prelude::*;
use vstd::string::StrSliceExecFns;
use vstd::string::StringExecFns;
use crate::text::{
    find_char_from, find_char_exec, find_from, find_str_from, first_non_ws, first_non_ws_exec,
    first_ws_exec, first_ws_from, is_indent_range, is_indent_range_exec, lemma_find_from_props,
    lemma_first_non_ws_props, lemma_rfind_before_props, lemma_rfind_char_before_props, occurs_at,
    lemma_occurs_subrange, lemma_span_standalone_bounds, lemma_span_tag_bounds,
    lemma_span_text_bounds, occurs_at_exec_in, rfind_before, rfind_char_before, rfind_char_exec,
    rfind_str_before, span_standalone, span_standalone_spec, span_tag, span_tag_spec, span_text,
    span_text_spec, trim_start_exec, trim_start_from,
};

verus! {

/// A lexer token. Offsets are character positions into the template source.
#[derive(Debug, PartialEq)]
pub enum Token {
    /// Literal text and whether it starts at the beginning of a line.
    Text(String, bool),
    /// Interpolation: name, escaped?, starts-new-line?.
    Value(String, bool, bool),
    /// Section open: name, position where the body starts, sequence-check?.
    Section(String, usize, bool),
    /// Inverted section open: name.
    InvertedSection(String),
    /// Inheritance block open: name.
    Block(String),
    /// Section close: name, qualifier echoing the opener's sigil, position
    /// where the body ends.
    EndSection(String, String, usize),
    /// Partial: name, dynamic?, indentation of its line.
    Partial(String, bool, String),
    /// Parent open: name, dynamic?, indentation of its line.
    Parent(String, bool, String),
    /// Comment text, discarded by the parser.
    Comment(String),
    /// Delimiter change: new open and close delimiters.
    Delimiters(String, String),
    /// Lexical error with its message.
    Error(String),
}

/// Spec-level image of a [Token].
pub enum Tok {
    Text(Seq<char>, bool),
    Value(Seq<char>, bool, bool),
    Section(Seq<char>, int, bool),
    InvertedSection(Seq<char>),
    Block(Seq<char>),
    EndSection(Seq<char>, Seq<char>, int),
    Partial(Seq<char>, bool, Seq<char>),
    Parent(Seq<char>, bool, Seq<char>),
    Comment(Seq<char>),
    Delimiters(Seq<char>, Seq<char>),
    Error(Seq<char>),
}

impl View for Token {
    type V = Tok;

    open spec fn view(&self) -> Tok {
        match self {
            Token::Text(t, b) => Tok::Text(t@, *b),
            Token::Value(n, e, b) => Tok::Value(n@, *e, *b),
            Token::Section(n, p, q) => Tok::Section(n@, *p as int, *q),
            Token::InvertedSection(n) => Tok::InvertedSection(n@),
            Token::Block(n) => Tok::Block(n@),
            Token::EndSection(n, q, p) => Tok::EndSection(n@, q@, *p as int),
            Token::Partial(n, d, i) => Tok::Partial(n@, *d, i@),
            Token::Parent(n, d, i) => Tok::Parent(n@, *d, i@),
            Token::Comment(t) => Tok::Comment(t@),
            Token::Delimiters(o, c) => Tok::Delimiters(o@, c@),
            Token::Error(m) => Tok::Error(m@),
        }
    }
}

/// The tag interior after its sigil, with the whitespace that followed the
/// sigil removed.
pub open spec fn trim_sigil_seq(s: Seq<char>) -> Seq<char> {
    s.subrange(trim_start_from(s, 1, s.len() as int), s.len() as int)
}

/// `s` holds the character `c` somewhere.
pub open spec fn has_char(s: Seq<char>, c: char) -> bool {
    find_char_from(s, c, 0) is Some
}

/// Split a tag name from a one-character qualifier drawn from `quals`:
/// `(name, qualifier)`, the qualifier empty when there is none.
pub open spec fn qualified_spec(text: Seq<char>, quals: Seq<char>) -> (Seq<char>, Seq<char>) {
    if text.len() > 0 && has_char(quals, text[0]) {
        let rest = text.subrange(1, text.len() as int);
        (rest.subrange(trim_start_from(rest, 0, rest.len() as int), rest.len() as int), text.subrange(
            0,
            1,
        ))
    } else {
        (text, Seq::empty())
    }
}

/// Exactly two whitespace-separated words, or nothing.
pub open spec fn split_two_words(s: Seq<char>) -> Option<(Seq<char>, Seq<char>)> {
    match first_non_ws(s, 0) {
        None => None,
        Some(a1) => {
            let b1 = first_ws_from(s, a1);
            match first_non_ws(s, b1) {
                None => None,
                Some(a2) => {
                    let b2 = first_ws_from(s, a2);
                    match first_non_ws(s, b2) {
                        Some(_) => None,
                        None => Some((s.subrange(a1, b1), s.subrange(a2, b2))),
                    }
                },
            }
        },
    }
}

/// The two delimiters of a delimiter-change tag: two words, neither of which
/// may contain `=`; anything else is invalid.
pub open spec fn delim_words(text: Seq<char>) -> Option<(Seq<char>, Seq<char>)> {
    if has_char(text, '=') {
        None
    } else {
        split_two_words(text)
    }
}

/// Classify a trimmed tag interior into a token. The first character picks
/// the kind; an empty interior, an empty name behind a sigil that takes a
/// qualifier (section open and close, partial, parent) and a malformed
/// delimiter change are lexical errors. An inverted section or block with
/// an empty name passes here and simply never resolves.
pub open spec fn classify_tag(
    interior: Seq<char>,
    indent: Seq<char>,
    snl: bool,
    before_tag: int,
    after_tag: int,
) -> Tok {
    if interior.len() == 0 {
        Tok::Error("empty tag"@)
    } else {
        let c = interior[0];
        if c == '#' {
            let nq = qualified_spec(trim_sigil_seq(interior), seq!['?']);
            if nq.0.len() == 0 {
                Tok::Error("empty tag"@)
            } else {
                Tok::Section(nq.0, after_tag, nq.1.len() > 0)
            }
        } else if c == '^' {
            Tok::InvertedSection(trim_sigil_seq(interior))
        } else if c == '$' {
            Tok::Block(trim_sigil_seq(interior))
        } else if c == '/' {
            let nq = qualified_spec(trim_sigil_seq(interior), seq!['*', '?']);
            if nq.0.len() == 0 {
                Tok::Error("empty tag"@)
            } else {
                Tok::EndSection(nq.0, nq.1, before_tag)
            }
        } else if c == '!' {
            Tok::Comment(interior)
        } else if c == '<' {
            let nq = qualified_spec(trim_sigil_seq(interior), seq!['*']);
            if nq.0.len() == 0 {
                Tok::Error("empty tag"@)
            } else {
                Tok::Parent(nq.0, nq.1.len() > 0, indent)
            }
        } else if c == '>' {
            let nq = qualified_spec(trim_sigil_seq(interior), seq!['*']);
            if nq.0.len() == 0 {
                Tok::Error("empty tag"@)
            } else {
                Tok::Partial(nq.0, nq.1.len() > 0, indent)
            }
        } else if c == '=' {
            match delim_words(trim_sigil_seq(interior)) {
                None => Tok::Error("invalid delimiters tag"@),
                Some((a, b)) => Tok::Delimiters(a, b),
            }
        } else if c == '&' || c == '{' {
            Tok::Value(trim_sigil_seq(interior), false, snl)
        } else {
            Tok::Value(interior, true, snl)
        }
    }
}

/// The lexer state: source, current delimiters, cursor, and the position
/// just past the standalone run the cursor sits in (or a position not past
/// the cursor when it sits in none).
pub struct LexState {
    pub s: Seq<char>,
    pub od: Seq<char>,
    pub cd: Seq<char>,
    pub pos: int,
    pub after: int,
}

/// Well-formed lexer state: non-empty delimiters, positions inside the text.
pub open spec fn lex_wf(st: LexState) -> bool {
    st.od.len() >= 1 && st.cd.len() >= 1 && 0 <= st.pos <= st.s.len() && 0 <= st.after
        <= st.s.len()
}

/// Reading literal text at the cursor: the token, then the new cursor and
/// standalone mark.
pub open spec fn read_text_spec(st: LexState) -> (Tok, int, int) {
    let tail = st.s.subrange(st.pos, st.s.len() as int);
    let spans = span_text_spec(tail, st.od, st.cd);
    let snl = st.pos == 0 || st.s[st.pos - 1] == '\n';
    (Tok::Text(tail.subrange(0, spans.0), snl), st.pos + spans.1, st.pos + spans.2)
}

/// Reading a tag at the cursor: the token, then the new cursor and
/// standalone mark. Inside a standalone run the cursor jumps past the
/// whitespace that the run owns.
pub open spec fn read_tag_spec(st: LexState) -> (Tok, int, int) {
    let tail = st.s.subrange(st.pos, st.s.len() as int);
    match span_tag_spec(tail, st.od, st.cd) {
        None => (Tok::Error("missing close delimiter"@), st.s.len() as int, st.after),
        Some((interior, after_tag)) => {
            let sol = match rfind_char_before(st.s, '\n', st.pos) {
                Some(p) => p + 1,
                None => 0,
            };
            let before_tag = if st.pos < st.after {
                match rfind_before(st.s, st.cd, st.pos) {
                    Some(p) => if sol > p + st.cd.len() {
                        sol
                    } else {
                        p + st.cd.len() as int
                    },
                    None => st.pos,
                }
            } else {
                st.pos
            };
            let snl = sol == st.pos;
            let indent = if is_indent_range(st.s, sol, st.pos) {
                st.s.subrange(sol, st.pos)
            } else {
                Seq::empty()
            };
            let pos1 = st.pos + after_tag;
            let pos2 = if pos1 < st.after {
                match find_from(st.s.subrange(pos1, st.after), st.od, 0) {
                    Some(p) => pos1 + p,
                    None => st.after,
                }
            } else {
                pos1
            };
            (classify_tag(interior, indent, snl, before_tag, pos2), pos2, st.after)
        },
    }
}

/// The next token at the cursor, or nothing at the end of the text.
pub open spec fn next_token(st: LexState) -> Option<(Tok, int, int)> {
    if st.pos >= st.s.len() {
        None
    } else if occurs_at(st.s, st.od, st.pos) {
        Some(read_tag_spec(st))
    } else {
        Some(read_text_spec(st))
    }
}

/// The lexer state a fresh reader starts in: default delimiters, the cursor
/// on the first tag of a leading standalone run, if there is one.
pub open spec fn init_state(s: Seq<char>) -> LexState {
    let od = seq!['{', '{'];
    let cd = seq!['}', '}'];
    let after = span_standalone_spec(s, od, cd);
    let pos = if after > 0 {
        match find_from(s, od, 0) {
            Some(p) => p,
            None => 0,
        }
    } else {
        0
    };
    LexState { s, od, cd, pos, after }
}

/// What [Reader::set_delimiters] does to the state.
pub open spec fn set_delims_spec(st: LexState, od: Seq<char>, cd: Seq<char>) -> LexState {
    if od != st.od || cd != st.cd {
        LexState {
            od,
            cd,
            after: st.pos + span_standalone_spec(
                st.s.subrange(st.pos, st.s.len() as int),
                od,
                cd,
            ),
            ..st
        }
    } else {
        st
    }
}

/// The lexer: source text, current delimiters, cursor, standalone mark.
pub struct Reader<'a> {
    pub input: &'a str,
    pub open_delimiter: String,
    pub close_delimiter: String,
    pub pos: usize,
    pub after_standalone: usize,
}

impl<'a> View for Reader<'a> {
    type V = LexState;

    open spec fn view(&self) -> LexState {
        LexState {
            s: self.input@,
            od: self.open_delimiter@,
            cd: self.close_delimiter@,
            pos: self.pos as int,
            after: self.after_standalone as int,
        }
    }
}

impl<'a> Reader<'a> {
    /// A reader over `input`, with the default `{{` / `}}` delimiters.
    pub fn new(input: &'a str) -> (r: Reader<'a>)
        ensures
            r@ == init_state(input@),
            lex_wf(r@),
    {
        proof {
            reveal_strlit("{{");
            reveal_strlit("}}");
        }
        let open_delimiter = String::from_str("{{");
        let close_delimiter = String::from_str("}}");
        assert(open_delimiter@ =~= seq!['{', '{']);
        assert(close_delimiter@ =~= seq!['}', '}']);
        let after_standalone = span_standalone(
            input,
            open_delimiter.as_str(),
            close_delimiter.as_str(),
        );
        let pos = if after_standalone > 0 {
            match find_str_from(input, open_delimiter.as_str(), 0) {
                Some(p) => {
                    proof {
                        lemma_find_from_props(input@, open_delimiter@, 0);
                    }
                    p
                },
                None => 0,
            }
        } else {
            0
        };
        Reader { input, open_delimiter, close_delimiter, pos, after_standalone }
    }

    /// The next token, or nothing at the end of the source; equal to
    /// [next_token] on the reader's state.
    pub fn pop_front(&mut self) -> (r: Option<Token>)
        requires
            lex_wf(old(self)@),
        ensures
            lex_wf(final(self)@),
            final(self)@.s == old(self)@.s,
            final(self)@.od == old(self)@.od,
            final(self)@.cd == old(self)@.cd,
            match (r, next_token(old(self)@)) {
                (None, None) => final(self)@ == old(self)@,
                (Some(t), Some((tok, p, a))) => {
                    t@ == tok && final(self)@.pos == p && final(self)@.after == a
                },
                _ => false,
            },
    {
        let s_len = self.input.unicode_len();
        if self.pos == s_len {
            return None;
        }
        let input = self.input;
        let tail = input.substring_char(self.pos, s_len);
        if occurs_at_exec_in(input, self.open_delimiter.as_str(), self.pos) {
            Some(self.read_tag(tail))
        } else {
            Some(self.read_text(tail))
        }
    }

    /// Read literal text at the cursor, as [read_text_spec].
    fn read_text(&mut self, tail: &str) -> (r: Token)
        requires
            lex_wf(old(self)@),
            old(self)@.pos < old(self)@.s.len(),
            tail@ == old(self)@.s.subrange(old(self)@.pos, old(self)@.s.len() as int),
        ensures
            lex_wf(final(self)@),
            final(self)@.s == old(self)@.s,
            final(self)@.od == old(self)@.od,
            final(self)@.cd == old(self)@.cd,
            ({
                let (tok, p, a) = read_text_spec(old(self)@);
                r@ == tok && final(self)@.pos == p && final(self)@.after == a
            }),
    {
        let s_len = self.input.unicode_len();
        let snl = self.pos == 0 || self.input.get_char(self.pos - 1) == '\n';
        let spans = span_text(tail, self.open_delimiter.as_str(), self.close_delimiter.as_str());
        assert(self@.pos + tail@.len() == s_len);
        let text = tail.substring_char(0, spans.0).to_owned();
        self.after_standalone = self.pos + spans.2;
        self.pos = self.pos + spans.1;
        Token::Text(text, snl)
    }

    /// Read one tag at the cursor, as [read_tag_spec].
    fn read_tag(&mut self, tail: &str) -> (r: Token)
        requires
            lex_wf(old(self)@),
            old(self)@.pos < old(self)@.s.len(),
            occurs_at(old(self)@.s, old(self)@.od, old(self)@.pos),
            tail@ == old(self)@.s.subrange(old(self)@.pos, old(self)@.s.len() as int),
        ensures
            lex_wf(final(self)@),
            final(self)@.s == old(self)@.s,
            final(self)@.od == old(self)@.od,
            final(self)@.cd == old(self)@.cd,
            ({
                let (tok, p, a) = read_tag_spec(old(self)@);
                r@ == tok && final(self)@.pos == p && final(self)@.after == a
            }),
    {
        let s_len = self.input.unicode_len();
        let input = self.input;
        match span_tag(tail, self.open_delimiter.as_str(), self.close_delimiter.as_str()) {
            None => {
                self.pos = s_len;
                Token::Error(String::from_str("missing close delimiter"))
            },
            Some((interior, after_tag)) => {
                let cd_len = self.close_delimiter.unicode_len();
                let sol = match rfind_char_exec(input, '\n', self.pos) {
                    Some(p) => {
                        proof {
                            lemma_rfind_char_before_props(input@, '\n', self@.pos);
                        }
                        p + 1
                    },
                    None => 0,
                };
                let before_tag = if self.pos < self.after_standalone {
                    match rfind_str_before(input, self.close_delimiter.as_str(), self.pos) {
                        Some(p) => {
                            proof {
                                lemma_rfind_before_props(input@, self.close_delimiter@, self@.pos);
                            }
                            if sol > p + cd_len {
                                sol
                            } else {
                                p + cd_len
                            }
                        },
                        None => self.pos,
                    }
                } else {
                    self.pos
                };
                let snl = sol == self.pos;
                let indent = if is_indent_range_exec(input, sol, self.pos) {
                    input.substring_char(sol, self.pos).to_owned()
                } else {
                    String::new()
                };
                let pos1 = self.pos + after_tag;
                let pos2 = if pos1 < self.after_standalone {
                    let window = input.substring_char(pos1, self.after_standalone);
                    match find_str_from(window, self.open_delimiter.as_str(), 0) {
                        Some(p) => {
                            proof {
                                lemma_find_from_props(window@, self.open_delimiter@, 0);
                            }
                            pos1 + p
                        },
                        None => self.after_standalone,
                    }
                } else {
                    pos1
                };
                self.pos = pos2;
                classify(interior.as_str(), indent.as_str(), snl, before_tag, pos2)
            },
        }
    }

    /// Switch the delimiters; the standalone mark is recomputed from the
    /// cursor with the new pair, as [set_delims_spec].
    pub fn set_delimiters(&mut self, od: &str, cd: &str) -> (r: ())
        requires
            lex_wf(old(self)@),
            od@.len() >= 1,
            cd@.len() >= 1,
        ensures
            lex_wf(final(self)@),
            final(self)@ == set_delims_spec(old(self)@, od@, cd@),
    {
        if !str_eq(od, self.open_delimiter.as_str()) || !str_eq(cd, self.close_delimiter.as_str()) {
            let s_len = self.input.unicode_len();
            self.open_delimiter = od.to_owned();
            self.close_delimiter = cd.to_owned();
            let rest = self.input.substring_char(self.pos, s_len);
            self.after_standalone = self.pos + span_standalone(rest, od, cd);
        }
    }

    /// The current delimiter pair.
    pub fn delimiters(&self) -> (r: (String, String))
        ensures
            r.0@ == self@.od,
            r.1@ == self@.cd,
    {
        (self.open_delimiter.clone(), self.close_delimiter.clone())
    }
}

/// What the parser does to the lexer state on seeing a token: a delimiter
/// change switches the delimiters, everything else leaves the state alone.
pub open spec fn apply_token(st: LexState, tok: Tok) -> LexState {
    match tok {
        Tok::Delimiters(od, cd) => if od.len() >= 1 && cd.len() >= 1 {
            set_delims_spec(st, od, cd)
        } else {
            st
        },
        _ => st,
    }
}

/// Every token strictly advances the cursor and keeps the state well formed.
pub proof fn lemma_next_token_props(st: LexState)
    requires
        lex_wf(st),
    ensures
        match next_token(st) {
            Some((tok, p, a)) => st.pos < p <= st.s.len() && 0 <= a <= st.s.len(),
            None => st.pos == st.s.len(),
        },
{
    let tail = st.s.subrange(st.pos, st.s.len() as int);
    if st.pos < st.s.len() {
        lemma_occurs_subrange(st.s, st.od, st.pos);
        if occurs_at(st.s, st.od, st.pos) {
            lemma_span_tag_bounds(tail, st.od, st.cd);
            if let Some((interior, after_tag)) = span_tag_spec(tail, st.od, st.cd) {
                let pos1 = st.pos + after_tag;
                if pos1 < st.after {
                    lemma_find_from_props(st.s.subrange(pos1, st.after), st.od, 0);
                    if let Some(p) = find_from(st.s.subrange(pos1, st.after), st.od, 0) {
                        assert(occurs_at(st.s.subrange(pos1, st.after), st.od, p));
                    }
                }
            }
        } else {
            lemma_span_text_bounds(tail, st.od, st.cd);
        }
    }
}

/// Applying a token keeps the state well formed, and moves nothing.
pub proof fn lemma_apply_token_wf(st: LexState, tok: Tok)
    requires
        lex_wf(st),
    ensures
        lex_wf(apply_token(st, tok)),
        apply_token(st, tok).s == st.s,
        apply_token(st, tok).pos == st.pos,
{
    if let Tok::Delimiters(od, cd) = tok {
        if od.len() >= 1 && cd.len() >= 1 {
            lemma_span_standalone_bounds(st.s.subrange(st.pos, st.s.len() as int), od, cd);
        }
    }
}

/// The token stream from a lexer state: each token is read at the cursor and
/// then applied (so a delimiter change governs all tokens after it, exactly
/// as the parser drives the reader).
pub open spec fn lex_from(st: LexState) -> Seq<Tok>
    decreases st.s.len() - st.pos,
        when lex_wf(st)
        via lex_from_dec
{
    match next_token(st) {
        None => Seq::empty(),
        Some((tok, p, a)) => {
            let st2 = apply_token(LexState { pos: p, after: a, ..st }, tok);
            seq![tok] + lex_from(st2)
        },
    }
}

#[via_fn]
proof fn lex_from_dec(st: LexState) {
    lemma_next_token_props(st);
    if let Some((tok, p, a)) = next_token(st) {
        lemma_apply_token_wf(LexState { pos: p, after: a, ..st }, tok);
    }
}

/// One step of the token stream, for unrolling [lex_from] at a known state.
pub proof fn lemma_lex_from_unfold(st: LexState)
    requires
        lex_wf(st),
    ensures
        match next_token(st) {
            None => lex_from(st) == Seq::<Tok>::empty(),
            Some((tok, p, a)) => {
                let st2 = apply_token(LexState { pos: p, after: a, ..st }, tok);
                lex_wf(st2) && st2.s == st.s && lex_from(st) == seq![tok] + lex_from(st2)
            },
        },
{
    lemma_next_token_props(st);
    if let Some((tok, p, a)) = next_token(st) {
        lemma_apply_token_wf(LexState { pos: p, after: a, ..st }, tok);
    }
}

/// Are two strings equal character for character?
pub fn str_eq(a: &str, b: &str) -> (r: bool)
    ensures
        r == (a@ == b@),
{
    let x = a.to_owned();
    let y = b.to_owned();
    x == y
}

/// Name and qualifier of a tag interior, as [qualified_spec].
fn qualified_tag(text: &str, quals: &str) -> (r: (String, String))
    ensures
        (r.0@, r.1@) == qualified_spec(text@, quals@),
{
    let text_len = text.unicode_len();
    if text_len > 0 && find_char_exec(quals, text.get_char(0), 0).is_some() {
        let rest = text.substring_char(1, text_len);
        let rest_len = rest.unicode_len();
        let a = trim_start_exec(rest, 0, rest_len);
        let name = rest.substring_char(a, rest_len).to_owned();
        let qual = text.substring_char(0, 1).to_owned();
        (name, qual)
    } else {
        (text.to_owned(), String::new())
    }
}

/// The delimiters of a delimiter-change tag, as [delim_words].
fn maybe_delimiters(text: &str) -> (r: Option<(String, String)>)
    ensures
        match (r, delim_words(text@)) {
            (Some((a, b)), Some((sa, sb))) => a@ == sa && b@ == sb,
            (None, None) => true,
            _ => false,
        },
{
    if find_char_exec(text, '=', 0).is_some() {
        return None;
    }
    let text_len = text.unicode_len();
    match first_non_ws_exec(text, 0) {
        None => None,
        Some(a1) => {
            proof {
                lemma_first_non_ws_props(text@, 0);
            }
            let b1 = first_ws_exec(text, a1);
            match first_non_ws_exec(text, b1) {
                None => None,
                Some(a2) => {
                    proof {
                        lemma_first_non_ws_props(text@, b1 as int);
                    }
                    let b2 = first_ws_exec(text, a2);
                    match first_non_ws_exec(text, b2) {
                        Some(_) => None,
                        None => Some(
                            (
                                text.substring_char(a1, b1).to_owned(),
                                text.substring_char(a2, b2).to_owned(),
                            ),
                        ),
                    }
                },
            }
        },
    }
}

/// The tag interior after its sigil, as [trim_sigil_seq].
fn trim_sigil(text: &str) -> (r: String)
    requires
        text@.len() >= 1,
    ensures
        r@ == trim_sigil_seq(text@),
{
    let text_len = text.unicode_len();
    let a = trim_start_exec(text, 1, text_len);
    text.substring_char(a, text_len).to_owned()
}

/// Classify a trimmed tag interior, as [classify_tag].
fn classify(interior: &str, indent: &str, snl: bool, before_tag: usize, after_tag: usize) -> (r:
    Token)
    ensures
        r@ == classify_tag(interior@, indent@, snl, before_tag as int, after_tag as int),
{
    let interior_len = interior.unicode_len();
    if interior_len == 0 {
        return Token::Error(String::from_str("empty tag"));
    }
    let c = interior.get_char(0);
    if c == '#' {
        proof {
            reveal_strlit("?");
        }
        assert("?"@ =~= seq!['?']);
        let nq = qualified_tag(trim_sigil(interior).as_str(), "?");
        if nq.0.as_str().unicode_len() == 0 {
            Token::Error(String::from_str("empty tag"))
        } else {
            let is_seqcheck = nq.1.as_str().unicode_len() > 0;
            Token::Section(nq.0, after_tag, is_seqcheck)
        }
    } else if c == '^' {
        Token::InvertedSection(trim_sigil(interior))
    } else if c == '$' {
        Token::Block(trim_sigil(interior))
    } else if c == '/' {
        proof {
            reveal_strlit("*?");
        }
        assert("*?"@ =~= seq!['*', '?']);
        let nq = qualified_tag(trim_sigil(interior).as_str(), "*?");
        if nq.0.as_str().unicode_len() == 0 {
            Token::Error(String::from_str("empty tag"))
        } else {
            Token::EndSection(nq.0, nq.1, before_tag)
        }
    } else if c == '!' {
        Token::Comment(interior.to_owned())
    } else if c == '<' {
        proof {
            reveal_strlit("*");
        }
        assert("*"@ =~= seq!['*']);
        let nq = qualified_tag(trim_sigil(interior).as_str(), "*");
        if nq.0.as_str().unicode_len() == 0 {
            Token::Error(String::from_str("empty tag"))
        } else {
            let is_dynamic = nq.1.as_str().unicode_len() > 0;
            Token::Parent(nq.0, is_dynamic, indent.to_owned())
        }
    } else if c == '>' {
        proof {
            reveal_strlit("*");
        }
        assert("*"@ =~= seq!['*']);
        let nq = qualified_tag(trim_sigil(interior).as_str(), "*");
        if nq.0.as_str().unicode_len() == 0 {
            Token::Error(String::from_str("empty tag"))
        } else {
            let is_dynamic = nq.1.as_str().unicode_len() > 0;
            Token::Partial(nq.0, is_dynamic, indent.to_owned())
        }
    } else if c == '=' {
        match maybe_delimiters(trim_sigil(interior).as_str()) {
            None => Token::Error(String::from_str("invalid delimiters tag")),
            Some((a, b)) => Token::Delimiters(a, b),
        }
    } else if c == '&' || c == '{' {
        Token::Value(trim_sigil(interior), false, snl)
    } else {
        Token::Value(interior.to_owned(), true, snl)
    }
}

} // verus!
