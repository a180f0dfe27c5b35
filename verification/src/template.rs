//! Compiled templates: the parser that folds the token stream into a
//! segment tree, and the stores that hold compiled partials by name.
use vstd::prelude::*;
use vstd::string::StrSliceExecFns;
use vstd::string::StringExecFns;
use crate::context::{Context, ContextValue, Stack};
use crate::reader::{
    apply_token, lemma_lex_from_unfold, lex_from, lex_wf, init_state, LexState, Reader, Tok,
    Token, str_eq,
};

verus! {

broadcast use vstd::std_specs::vec::group_vec_axioms;

/// One node of a compiled template.
#[derive(Debug)]
pub enum Segment {
    /// Literal text and whether it starts at the beginning of a line.
    Text(String, bool),
    /// Interpolation: name, escaped?, starts-new-line?.
    Value(String, bool, bool),
    /// Section: name, body start and end offsets in the source (for
    /// adapters that read the literal section text), sequence-check?, body.
    Section(String, usize, usize, bool, Vec<Segment>),
    /// Inverted section: name and body.
    InvertedSection(String, Vec<Segment>),
    /// Inheritance block: name and default body.
    Block(String, Vec<Segment>),
    /// Partial or parent call: name, indentation of its line, dynamic?, and
    /// for a parent call the block overrides passed to it.
    Partial(String, String, bool, Option<Vec<(String, Vec<Segment>)>>),
}

/// Spec-level image of a [Segment].
#[verifier::ext_equal]
pub enum SpecSeg {
    Text(Seq<char>, bool),
    Value(Seq<char>, bool, bool),
    Section(Seq<char>, int, int, bool, Seq<SpecSeg>),
    InvertedSection(Seq<char>, Seq<SpecSeg>),
    Block(Seq<char>, Seq<SpecSeg>),
    Partial(Seq<char>, Seq<char>, bool, Option<Seq<(Seq<char>, Seq<SpecSeg>)>>),
}

impl View for Segment {
    type V = SpecSeg;

    open spec fn view(&self) -> SpecSeg
        decreases self,
    {
        match self {
            Segment::Text(t, b) => SpecSeg::Text(t@, *b),
            Segment::Value(n, e, b) => SpecSeg::Value(n@, *e, *b),
            Segment::Section(n, a, b, q, ch) => SpecSeg::Section(
                n@,
                *a as int,
                *b as int,
                *q,
                segs_view(ch@),
            ),
            Segment::InvertedSection(n, ch) => SpecSeg::InvertedSection(n@, segs_view(ch@)),
            Segment::Block(n, ch) => SpecSeg::Block(n@, segs_view(ch@)),
            Segment::Partial(n, ind, d, params) => SpecSeg::Partial(
                n@,
                ind@,
                *d,
                match params {
                    None => None,
                    Some(ps) => Some(params_view(ps@)),
                },
            ),
        }
    }
}

/// The views of a list of segments.
pub open spec fn segs_view(v: Seq<Segment>) -> Seq<SpecSeg>
    decreases v,
{
    Seq::new(v.len(), |i: int| if 0 <= i < v.len() {
        v[i]@
    } else {
        SpecSeg::Text(Seq::empty(), false)
    })
}

/// The views of a list of block parameters.
pub open spec fn params_view(v: Seq<(String, Vec<Segment>)>) -> Seq<(Seq<char>, Seq<SpecSeg>)>
    decreases v,
{
    Seq::new(v.len(), |i: int| if 0 <= i < v.len() {
        (v[i].0@, segs_view(v[i].1@))
    } else {
        (Seq::empty(), Seq::empty())
    })
}

/// What opened the parser frame under construction.
#[verifier::ext_equal]
pub enum SpecOpen {
    /// The template itself.
    Root,
    /// A section: name, body start offset, sequence-check?.
    Section(Seq<char>, int, bool),
    /// An inverted section.
    Inverted(Seq<char>),
    /// An inheritance block.
    Block(Seq<char>),
    /// A parent call: name, dynamic?, indentation.
    Parent(Seq<char>, bool, Seq<char>),
}

/// One parser frame: its opener and the segments parsed so far.
#[verifier::ext_equal]
pub struct PFrame {
    pub opener: SpecOpen,
    pub segs: Seq<SpecSeg>,
}

/// The `(name, qualifier)` pair that closes an opener: the qualifier echoes
/// the opener's sigil (`?` for a sequence check, `*` for a dynamic parent).
pub open spec fn closer_of(o: SpecOpen) -> (Seq<char>, Seq<char>) {
    match o {
        SpecOpen::Root => (Seq::empty(), Seq::empty()),
        SpecOpen::Section(n, _, sq) => (
            n,
            if sq {
                seq!['?']
            } else {
                Seq::empty()
            },
        ),
        SpecOpen::Inverted(n) => (n, Seq::empty()),
        SpecOpen::Block(n) => (n, Seq::empty()),
        SpecOpen::Parent(n, dy, _) => (
            n,
            if dy {
                seq!['*']
            } else {
                Seq::empty()
            },
        ),
    }
}

/// The block overrides among a parent call's children, in order; a later
/// block with the same name takes precedence at lookup.
pub open spec fn block_params(segs: Seq<SpecSeg>) -> Seq<(Seq<char>, Seq<SpecSeg>)>
    decreases segs.len(),
{
    if segs.len() == 0 {
        Seq::empty()
    } else {
        let rest = block_params(segs.drop_first());
        match segs[0] {
            SpecSeg::Block(n, b) => seq![(n, b)] + rest,
            _ => rest,
        }
    }
}

/// The segment a closed frame turns into.
pub open spec fn close_frame(o: SpecOpen, segs: Seq<SpecSeg>, before_close: int) -> SpecSeg {
    match o {
        SpecOpen::Root => SpecSeg::Text(Seq::empty(), false),
        SpecOpen::Section(n, after_open, sq) => SpecSeg::Section(
            n,
            after_open,
            before_close,
            sq,
            segs,
        ),
        SpecOpen::Inverted(n) => SpecSeg::InvertedSection(n, segs),
        SpecOpen::Block(n) => SpecSeg::Block(n, segs),
        SpecOpen::Parent(n, dy, ind) => SpecSeg::Partial(n, ind, dy, Some(block_params(segs))),
    }
}

/// Append a segment to the frame on top of the parser stack.
pub open spec fn push_seg(stack: Seq<PFrame>, seg: SpecSeg) -> Seq<PFrame> {
    let top = stack.last();
    stack.update(stack.len() - 1, PFrame { segs: top.segs.push(seg), ..top })
}

/// One parser step: how a token changes the frame stack, or the compile
/// error it raises.
pub open spec fn parse_step(stack: Seq<PFrame>, tok: Tok) -> Result<Seq<PFrame>, Seq<char>> {
    match tok {
        Tok::Text(t, b) => Ok(push_seg(stack, SpecSeg::Text(t, b))),
        Tok::Value(n, e, b) => Ok(push_seg(stack, SpecSeg::Value(n, e, b))),
        Tok::Section(n, after_open, sq) => Ok(
            stack.push(PFrame { opener: SpecOpen::Section(n, after_open, sq), segs: Seq::empty() }),
        ),
        Tok::InvertedSection(n) => Ok(
            stack.push(PFrame { opener: SpecOpen::Inverted(n), segs: Seq::empty() }),
        ),
        Tok::Block(n) => Ok(stack.push(PFrame { opener: SpecOpen::Block(n), segs: Seq::empty() })),
        Tok::Parent(n, dy, ind) => Ok(
            stack.push(PFrame { opener: SpecOpen::Parent(n, dy, ind), segs: Seq::empty() }),
        ),
        Tok::Partial(n, dy, ind) => Ok(push_seg(stack, SpecSeg::Partial(n, ind, dy, None))),
        Tok::Comment(_) => Ok(stack),
        Tok::Delimiters(_, _) => Ok(stack),
        Tok::Error(m) => Err("reader error: "@ + m),
        Tok::EndSection(n, q, before_close) => {
            if stack.len() <= 1 {
                Err("unexpected end of section "@ + n)
            } else {
                let top = stack.last();
                if closer_of(top.opener) != (n, q) {
                    Err("unexpected end of section "@ + n)
                } else {
                    Ok(push_seg(stack.drop_last(), close_frame(top.opener, top.segs, before_close)))
                }
            }
        },
    }
}

/// Fold the parser over the token stream from position `i`.
pub open spec fn parse_fold(toks: Seq<Tok>, i: int, stack: Seq<PFrame>) -> Result<
    Seq<PFrame>,
    Seq<char>,
>
    decreases toks.len() - i,
{
    if i < 0 || i >= toks.len() {
        Ok(stack)
    } else {
        match parse_step(stack, toks[i]) {
            Err(m) => Err(m),
            Ok(st2) => parse_fold(toks, i + 1, st2),
        }
    }
}

/// Close every frame still open at the end of the text: each becomes a
/// segment of the frame below, with a body-end offset of zero. An open
/// left unmatched at the end of the text is accepted, not rejected: only
/// an unmatched close is a compile error, so a template is never refused
/// for ending inside a section.
pub open spec fn close_at_eof(stack: Seq<PFrame>) -> Seq<SpecSeg>
    decreases stack.len(),
{
    if stack.len() == 0 {
        Seq::empty()
    } else if stack.len() == 1 {
        stack[0].segs
    } else {
        let top = stack.last();
        close_at_eof(push_seg(stack.drop_last(), close_frame(top.opener, top.segs, 0)))
    }
}

/// The parser stack a template starts with.
pub open spec fn init_stack() -> Seq<PFrame> {
    seq![PFrame { opener: SpecOpen::Root, segs: Seq::empty() }]
}

/// Parse a whole token stream into segments, or the compile error.
pub open spec fn parse_toks(toks: Seq<Tok>) -> Result<Seq<SpecSeg>, Seq<char>> {
    match parse_fold(toks, 0, init_stack()) {
        Err(m) => Err(m),
        Ok(stack) => Ok(close_at_eof(stack)),
    }
}

/// Compile template source: lex it from the initial state and parse the
/// token stream.
pub open spec fn compile_spec(s: Seq<char>) -> Result<Seq<SpecSeg>, Seq<char>> {
    parse_toks(lex_from(init_state(s)))
}

/// Exec image of [SpecOpen].
pub enum Opener {
    Root,
    Section(String, usize, bool),
    Inverted(String),
    Block(String),
    Parent(String, bool, String),
}

impl View for Opener {
    type V = SpecOpen;

    open spec fn view(&self) -> SpecOpen {
        match self {
            Opener::Root => SpecOpen::Root,
            Opener::Section(n, a, sq) => SpecOpen::Section(n@, *a as int, *sq),
            Opener::Inverted(n) => SpecOpen::Inverted(n@),
            Opener::Block(n) => SpecOpen::Block(n@),
            Opener::Parent(n, dy, ind) => SpecOpen::Parent(n@, *dy, ind@),
        }
    }
}

/// Exec image of [PFrame].
pub struct ParseFrame {
    pub opener: Opener,
    pub segs: Vec<Segment>,
}

impl View for ParseFrame {
    type V = PFrame;

    open spec fn view(&self) -> PFrame {
        PFrame { opener: self.opener@, segs: segs_view(self.segs@) }
    }
}

/// The views of an exec parser stack.
pub open spec fn stack_view(v: Seq<ParseFrame>) -> Seq<PFrame> {
    Seq::new(v.len(), |i: int| v[i]@)
}

/// Pushing a segment commutes with taking views.
proof fn lemma_segs_view_push(v: Seq<Segment>, s: Segment)
    ensures
        segs_view(v.push(s)) =~= segs_view(v).push(s@),
{
}

/// Dropping the first segment commutes with taking views.
proof fn lemma_segs_view_drop(v: Seq<Segment>)
    requires
        v.len() > 0,
    ensures
        segs_view(v.drop_first()) =~= segs_view(v).drop_first(),
{
}

/// Append a segment to the top frame of the exec stack, as [push_seg].
fn push_seg_exec(stack: &mut Vec<ParseFrame>, seg: Segment)
    requires
        old(stack)@.len() >= 1,
    ensures
        final(stack)@.len() == old(stack)@.len(),
        stack_view(final(stack)@) == push_seg(stack_view(old(stack)@), seg@),
{
    let ghost old_sv = stack_view(old(stack)@);
    let mut top = stack.pop().unwrap();
    top.segs.push(seg);
    stack.push(top);
    proof {
        lemma_segs_view_push(old(stack)@.last().segs@, seg);
        assert(stack_view(stack@) =~~= push_seg(old_sv, seg@));
    }
}

/// The block overrides among a parent call's children, as [block_params].
fn block_params_exec(segs: Vec<Segment>) -> (r: Vec<(String, Vec<Segment>)>)
    ensures
        params_view(r@) == block_params(segs_view(segs@)),
{
    let ghost whole = segs_view(segs@);
    let mut rest = segs;
    let mut params: Vec<(String, Vec<Segment>)> = Vec::new();
    while rest.len() > 0
        invariant
            params_view(params@) + block_params(segs_view(rest@)) == block_params(whole),
        decreases rest@.len(),
    {
        let ghost old_rest = rest@;
        let ghost rest0 = segs_view(old_rest);
        let ghost params0 = params_view(params@);
        let s = rest.remove(0);
        let ghost gs = s@;
        proof {
            assert(rest@ =~= old_rest.drop_first());
            lemma_segs_view_drop(old_rest);
            assert(segs_view(rest@) == rest0.drop_first());
            assert(rest0[0] == gs);
        }
        match s {
            Segment::Block(n, b) => {
                let ghost gn = n@;
                let ghost gb = segs_view(b@);
                proof {
                    assert(gs =~~= SpecSeg::Block(gn, gb));
                }
                params.push((n, b));
                proof {
                    assert(params_view(params@) =~~= params0.push((gn, gb)));
                    assert(block_params(rest0) == seq![(gn, gb)] + block_params(
                        rest0.drop_first(),
                    ));
                    assert(params_view(params@) + block_params(segs_view(rest@)) =~~= params0 + (
                    seq![(gn, gb)] + block_params(rest0.drop_first())));
                    assert(params0 + (seq![(gn, gb)] + block_params(rest0.drop_first())) =~~= (
                    params0 + seq![(gn, gb)]) + block_params(rest0.drop_first()));
                    assert(params_view(params@) + block_params(segs_view(rest@)) == block_params(
                        whole,
                    ));
                }
            },
            _ => {
                proof {
                    assert(!(rest0[0] is Block));
                    assert(block_params(rest0) == block_params(rest0.drop_first()));
                }
            },
        }
    }
    proof {
        assert(segs_view(rest@) =~= Seq::<SpecSeg>::empty());
        assert(block_params(segs_view(rest@)) == Seq::<(Seq<char>, Seq<SpecSeg>)>::empty());
        assert(params_view(params@) =~~= params_view(params@) + block_params(segs_view(rest@)));
        assert(params_view(params@) == block_params(whole));
    }
    params
}

/// The segment a closed exec frame turns into, as [close_frame].
fn close_frame_exec(opener: Opener, segs: Vec<Segment>, before_close: usize) -> (r: Segment)
    ensures
        r@ == close_frame(opener@, segs_view(segs@), before_close as int),
{
    let ghost gopener = opener@;
    let ghost gsegs = segs_view(segs@);
    match opener {
        Opener::Root => {
            let r = Segment::Text(String::new(), false);
            proof {
                assert(r@ =~~= close_frame(gopener, gsegs, before_close as int));
            }
            r
        },
        Opener::Section(n, ao, sq) => {
            let r = Segment::Section(n, ao, before_close, sq, segs);
            proof {
                assert(r@ =~~= close_frame(gopener, gsegs, before_close as int));
            }
            r
        },
        Opener::Inverted(n) => {
            let r = Segment::InvertedSection(n, segs);
            proof {
                assert(r@ =~~= close_frame(gopener, gsegs, before_close as int));
            }
            r
        },
        Opener::Block(n) => {
            let r = Segment::Block(n, segs);
            proof {
                assert(r@ =~~= close_frame(gopener, gsegs, before_close as int));
            }
            r
        },
        Opener::Parent(n, dy, ind) => {
            let params = block_params_exec(segs);
            let r = Segment::Partial(n, ind, dy, Some(params));
            proof {
                assert(r@ =~~= close_frame(gopener, gsegs, before_close as int));
            }
            r
        },
    }
}

/// The `(name, qualifier)` pair that closes an exec opener, as [closer_of].
fn closer_of_exec(opener: &Opener) -> (r: (String, String))
    ensures
        (r.0@, r.1@) == closer_of(opener@),
{
    match opener {
        Opener::Root => (String::new(), String::new()),
        Opener::Section(n, _, sq) => {
            let q = if *sq {
                proof {
                    reveal_strlit("?");
                }
                let q = String::from_str("?");
                assert(q@ =~= seq!['?']);
                q
            } else {
                String::new()
            };
            (n.clone(), q)
        },
        Opener::Inverted(n) => (n.clone(), String::new()),
        Opener::Block(n) => (n.clone(), String::new()),
        Opener::Parent(n, dy, _) => {
            let q = if *dy {
                proof {
                    reveal_strlit("*");
                }
                let q = String::from_str("*");
                assert(q@ =~= seq!['*']);
                q
            } else {
                String::new()
            };
            (n.clone(), q)
        },
    }
}

/// Close the frames still open at the end of the text, as [close_at_eof].
fn close_eof_exec(stack: Vec<ParseFrame>) -> (r: Vec<Segment>)
    requires
        stack@.len() >= 1,
    ensures
        segs_view(r@) == close_at_eof(stack_view(stack@)),
{
    let ghost whole = close_at_eof(stack_view(stack@));
    let mut stack = stack;
    while stack.len() > 1
        invariant
            stack@.len() >= 1,
            close_at_eof(stack_view(stack@)) == whole,
        decreases stack@.len(),
    {
        let ghost sv0 = stack_view(stack@);
        let top = stack.pop().unwrap();
        proof {
            assert(stack_view(stack@) =~~= sv0.drop_last());
        }
        let seg = close_frame_exec(top.opener, top.segs, 0);
        push_seg_exec(&mut stack, seg);
        proof {
            assert(stack_view(stack@) =~~= push_seg(
                sv0.drop_last(),
                close_frame(sv0.last().opener, sv0.last().segs, 0),
            ));
        }
    }
    let top = stack.pop().unwrap();
    proof {
        assert(close_at_eof(stack_view(stack@.push(top))) =~~= segs_view(top.segs@));
    }
    top.segs
}

/// Parse the rest of a reader's token stream into segments, or report the
/// first compile error; equal to [parse_toks] on the stream.
pub fn parse(reader: &mut Reader) -> (r: Result<Vec<Segment>, String>)
    requires
        lex_wf(old(reader)@),
    ensures
        lex_wf(final(reader)@),
        match (r, parse_toks(lex_from(old(reader)@))) {
            (Ok(segs), Ok(ss)) => segs_view(segs@) == ss,
            (Err(m), Err(sm)) => m@ == sm,
            _ => false,
        },
{
    let ghost toks = lex_from(old(reader)@);
    proof {
        assert(reader@ == old(reader)@);
    }
    let mut stack: Vec<ParseFrame> = Vec::new();
    stack.push(ParseFrame { opener: Opener::Root, segs: Vec::new() });
    proof {
        assert(stack_view(stack@) =~~= init_stack());
    }
    let ghost mut i: int = 0;
    loop
        invariant
            toks == lex_from(old(reader)@),
            lex_wf(reader@),
            0 <= i <= toks.len(),
            lex_from(reader@) =~= toks.subrange(i, toks.len() as int),
            stack@.len() >= 1,
            parse_fold(toks, i, stack_view(stack@)) == parse_fold(toks, 0, init_stack()),
        ensures
            i == toks.len(),
            stack@.len() >= 1,
            parse_fold(toks, 0, init_stack()) == Ok::<Seq<PFrame>, Seq<char>>(
                stack_view(stack@),
            ),
        decreases toks.len() - i,
    {
        proof {
            lemma_lex_from_unfold(reader@);
        }
        let ghost pre = reader@;
        let tok = match reader.pop_front() {
            None => {
                proof {
                    assert(toks.subrange(i, toks.len() as int).len() == 0);
                }
                break ;
            },
            Some(t) => t,
        };
        let ghost st2 = apply_token(LexState { pos: reader@.pos, after: reader@.after, ..pre }, tok@);
        proof {
            assert(seq![tok@] + lex_from(st2) =~= toks.subrange(i, toks.len() as int));
            assert(toks.len() - i >= 1);
            assert(toks.subrange(i, toks.len() as int)[0] == tok@);
            assert(toks[i] == toks.subrange(i, toks.len() as int)[0]);
            assert((seq![tok@] + lex_from(st2)).drop_first() =~= lex_from(st2));
            assert(toks.subrange(i, toks.len() as int).drop_first() =~= toks.subrange(
                i + 1,
                toks.len() as int,
            ));
            assert(lex_from(st2) =~= toks.subrange(i + 1, toks.len() as int));
        }
        let ghost sv0 = stack_view(stack@);
        match tok {
            Token::Text(t, b) => {
                push_seg_exec(&mut stack, Segment::Text(t, b));
            },
            Token::Value(n, e, b) => {
                push_seg_exec(&mut stack, Segment::Value(n, e, b));
            },
            Token::Section(n, after_open, sq) => {
                stack.push(ParseFrame { opener: Opener::Section(n, after_open, sq), segs: Vec::new() });
                proof {
                    assert(stack_view(stack@) =~~= sv0.push(
                        PFrame { opener: stack@.last().opener@, segs: Seq::empty() },
                    ));
                }
            },
            Token::InvertedSection(n) => {
                stack.push(ParseFrame { opener: Opener::Inverted(n), segs: Vec::new() });
                proof {
                    assert(stack_view(stack@) =~~= sv0.push(
                        PFrame { opener: stack@.last().opener@, segs: Seq::empty() },
                    ));
                }
            },
            Token::Block(n) => {
                stack.push(ParseFrame { opener: Opener::Block(n), segs: Vec::new() });
                proof {
                    assert(stack_view(stack@) =~~= sv0.push(
                        PFrame { opener: stack@.last().opener@, segs: Seq::empty() },
                    ));
                }
            },
            Token::Parent(n, dy, ind) => {
                stack.push(ParseFrame { opener: Opener::Parent(n, dy, ind), segs: Vec::new() });
                proof {
                    assert(stack_view(stack@) =~~= sv0.push(
                        PFrame { opener: stack@.last().opener@, segs: Seq::empty() },
                    ));
                }
            },
            Token::Partial(n, dy, ind) => {
                push_seg_exec(&mut stack, Segment::Partial(n, ind, dy, None));
            },
            Token::Comment(_) => {},
            Token::Delimiters(od, cd) => {
                if od.as_str().unicode_len() >= 1 && cd.as_str().unicode_len() >= 1 {
                    reader.set_delimiters(od.as_str(), cd.as_str());
                }
            },
            Token::Error(m) => {
                let mut msg = String::from_str("reader error: ");
                msg.append(m.as_str());
                proof {
                    assert(parse_fold(toks, i, sv0) == Err::<Seq<PFrame>, Seq<char>>(
                        "reader error: "@ + m@,
                    ));
                    assert(msg@ == "reader error: "@ + m@);
                    assert(parse_toks(toks) == Err::<Seq<SpecSeg>, Seq<char>>(msg@));
                }
                return Err(msg);
            },
            Token::EndSection(n, q, before_close) => {
                if stack.len() == 1 {
                    let mut msg = String::from_str("unexpected end of section ");
                    msg.append(n.as_str());
                    proof {
                        assert(parse_fold(toks, i, sv0) == Err::<Seq<PFrame>, Seq<char>>(
                            "unexpected end of section "@ + n@,
                        ));
                        assert(msg@ == "unexpected end of section "@ + n@);
                        assert(parse_toks(toks) == Err::<Seq<SpecSeg>, Seq<char>>(msg@));
                    }
                    return Err(msg);
                }
                let top = stack.pop().unwrap();
                proof {
                    assert(stack_view(stack@) =~~= sv0.drop_last());
                    assert(top@ == sv0.last());
                }
                let closer = closer_of_exec(&top.opener);
                if !(str_eq(n.as_str(), closer.0.as_str()) && str_eq(q.as_str(), closer.1.as_str()))
                {
                    let mut msg = String::from_str("unexpected end of section ");
                    msg.append(n.as_str());
                    proof {
                        assert(closer_of(sv0.last().opener) != (n@, q@));
                        assert(parse_fold(toks, i, sv0) == Err::<Seq<PFrame>, Seq<char>>(
                            "unexpected end of section "@ + n@,
                        ));
                        assert(msg@ == "unexpected end of section "@ + n@);
                        assert(parse_toks(toks) == Err::<Seq<SpecSeg>, Seq<char>>(msg@));
                    }
                    return Err(msg);
                }
                let seg = close_frame_exec(top.opener, top.segs, before_close);
                push_seg_exec(&mut stack, seg);
                proof {
                    assert(stack_view(stack@) =~~= push_seg(
                        sv0.drop_last(),
                        close_frame(sv0.last().opener, sv0.last().segs, before_close as int),
                    ));
                }
            },
        }
        proof {
            assert(parse_fold(toks, i, sv0) == parse_fold(toks, i + 1, stack_view(stack@)));
            assert(reader@ == st2);
            i = i + 1;
        }
    }
    let ghost svf = stack_view(stack@);
    proof {
        assert(parse_toks(toks) == Ok::<Seq<SpecSeg>, Seq<char>>(close_at_eof(svf)));
    }
    let segments = close_eof_exec(stack);
    Ok(segments)
}

/// A compiled Mustache template, ready to render.
#[derive(Debug)]
pub struct Template {
    pub segments: Vec<Segment>,
}

impl Template {
    /// Compile Mustache source text. The segments of a compiled template,
    /// and the message of a rejected one, are exactly what [compile_spec]
    /// gives for the text.
    pub fn from(input: &str) -> (r: Result<Template, String>)
        ensures
            match (r, compile_spec(input@)) {
                (Ok(t), Ok(ss)) => segs_view(t.segments@) == ss,
                (Err(m), Err(sm)) => m@ == sm,
                _ => false,
            },
    {
        let mut reader = Reader::new(input);
        match parse(&mut reader) {
            Ok(segments) => Ok(Template { segments }),
            Err(m) => Err(m),
        }
    }
}

/// Template resolver: compiled templates by name. The engine asks it for
/// partials; implementations decide how templates are stored. Like
/// [crate::context::Context], the trait promises nothing of its method:
/// implementations outside the library are unverified, and whatever
/// template comes back is rendered by verified code.
pub trait TemplateStore {
    /// The template of that name, if the store holds one.
    fn get(&self, name: &str) -> Option<&Template>;
}

/// Pre-compiled templates, keyed by name; a later entry with the same name
/// wins, as the last insertion does in a map.
#[derive(Debug)]
pub struct TemplateMap {
    pub templates: Vec<(String, Template)>,
}

impl TemplateMap {
    /// Compile every named source; stop at the first that is rejected and
    /// name it in the error.
    pub fn new(input: Vec<(String, String)>) -> (r: Result<TemplateMap, String>)
        ensures
            match r {
                Ok(m) => {
                    &&& m.templates@.len() == input@.len()
                    &&& forall|j: int|
                        0 <= j < input@.len() ==> {
                            &&& (#[trigger] m.templates@[j]).0@ == input@[j].0@
                            &&& compile_spec(input@[j].1@) is Ok
                            &&& segs_view(m.templates@[j].1.segments@) == compile_spec(
                                input@[j].1@,
                            )->Ok_0
                        }
                },
                Err(msg) => exists|j: int|
                    {
                        &&& 0 <= j < input@.len()
                        &&& (#[trigger] compile_spec(input@[j].1@)) is Err
                        &&& msg@ == input@[j].0@ + ": "@ + compile_spec(input@[j].1@)->Err_0
                        &&& forall|k: int| 0 <= k < j ==> compile_spec(#[trigger] input@[k].1@) is Ok
                    },
            },
    {
        let mut templates: Vec<(String, Template)> = Vec::new();
        let mut idx: usize = 0;
        while idx < input.len()
            invariant
                0 <= idx <= input@.len(),
                templates@.len() == idx,
                forall|j: int|
                    0 <= j < idx ==> {
                        &&& (#[trigger] templates@[j]).0@ == input@[j].0@
                        &&& compile_spec(input@[j].1@) is Ok
                        &&& segs_view(templates@[j].1.segments@) == compile_spec(input@[j].1@)->Ok_0
                    },
            decreases input@.len() - idx,
        {
            let name = input[idx].0.clone();
            let text = &input[idx].1;
            match Template::from(text.as_str()) {
                Ok(template) => {
                    templates.push((name, template));
                },
                Err(err) => {
                    let mut msg = name;
                    msg.append(": ");
                    msg.append(err.as_str());
                    proof {
                        assert(compile_spec(input@[idx as int].1@) is Err);
                        assert(msg@ =~= input@[idx as int].0@ + ": "@ + compile_spec(
                            input@[idx as int].1@,
                        )->Err_0);
                        assert forall|k: int|
                            0 <= k < idx implies compile_spec(#[trigger] input@[k].1@) is Ok by {
                            assert(templates@[k].0@ == input@[k].0@);
                        };
                    }
                    return Err(msg);
                },
            }
            idx += 1;
        }
        Ok(TemplateMap { templates })
    }
}

/// The index of the latest entry with a key, looking at `entries[..end]`.
pub open spec fn store_lookup(
    entries: Seq<(String, Template)>,
    name: Seq<char>,
    end: int,
) -> Option<int>
    decreases end,
{
    if end <= 0 || end > entries.len() {
        None
    } else if entries[end - 1].0@ == name {
        Some(end - 1)
    } else {
        store_lookup(entries, name, end - 1)
    }
}

impl TemplateMap {
    /// The latest template stored under `name`, or nothing: the entry that
    /// [store_lookup] points at over the whole map.
    pub fn lookup(&self, name: &str) -> (r: Option<&Template>)
        ensures
            match (r, store_lookup(self.templates@, name@, self.templates@.len() as int)) {
                (Some(t), Some(i)) => 0 <= i < self.templates@.len() && *t
                    == self.templates@[i].1,
                (None, None) => true,
                _ => false,
            },
    {
        let mut idx: usize = self.templates.len();
        while idx > 0
            invariant
                idx <= self.templates@.len(),
                store_lookup(self.templates@, name@, self.templates@.len() as int)
                    == store_lookup(self.templates@, name@, idx as int),
            decreases idx,
        {
            idx -= 1;
            if str_eq(name, self.templates[idx].0.as_str()) {
                return Some(&self.templates[idx].1);
            }
        }
        None
    }
}

impl TemplateStore for TemplateMap {
    /// As [TemplateMap::lookup].
    fn get(&self, name: &str) -> Option<&Template> {
        self.lookup(name)
    }
}

/// What one character of interpolated text escapes to: the fixed HTML
/// escape table, every other character standing for itself.
pub open spec fn escape_char(c: char) -> Seq<char> {
    if c == '&' {
        seq!['&', 'a', 'm', 'p', ';']
    } else if c == '<' {
        seq!['&', 'l', 't', ';']
    } else if c == '>' {
        seq!['&', 'g', 't', ';']
    } else if c == '"' {
        seq!['&', 'q', 'u', 'o', 't', ';']
    } else if c == '\'' {
        seq!['&', '#', '3', '9', ';']
    } else if c == '/' {
        seq!['&', '#', '4', '7', ';']
    } else if c == '=' {
        seq!['&', '#', '6', '1', ';']
    } else if c == '`' {
        seq!['&', '#', '9', '6', ';']
    } else {
        seq![c]
    }
}

/// The HTML escape of `s` from position `i` on.
pub open spec fn escape_from(s: Seq<char>, i: int) -> Seq<char>
    decreases s.len() - i,
{
    if i < 0 || i >= s.len() {
        Seq::empty()
    } else {
        escape_char(s[i]) + escape_from(s, i + 1)
    }
}

/// The HTML escape of a whole string: each character replaced by its
/// [escape_char] expansion, applied exactly once.
pub open spec fn escape_spec(s: Seq<char>) -> Seq<char> {
    escape_from(s, 0)
}

/// HTML-escape interpolated text, as [escape_spec].
pub fn html_escape(input: String) -> (r: String)
    ensures
        r@ == escape_spec(input@),
{
    let s = input.as_str();
    let s_len = s.unicode_len();
    let mut out = String::new();
    let mut i: usize = 0;
    while i < s_len
        invariant
            0 <= i <= s_len,
            s_len == s@.len(),
            out@ + escape_from(s@, i as int) == escape_from(s@, 0),
        decreases s_len - i,
    {
        let ghost out0 = out@;
        let c = s.get_char(i);
        if c == '&' {
            out.append("&amp;");
            proof {
                reveal_strlit("&amp;");
                assert(out@ =~= out0 + escape_char(c));
            }
        } else if c == '<' {
            out.append("&lt;");
            proof {
                reveal_strlit("&lt;");
                assert(out@ =~= out0 + escape_char(c));
            }
        } else if c == '>' {
            out.append("&gt;");
            proof {
                reveal_strlit("&gt;");
                assert(out@ =~= out0 + escape_char(c));
            }
        } else if c == '"' {
            out.append("&quot;");
            proof {
                reveal_strlit("&quot;");
                assert(out@ =~= out0 + escape_char(c));
            }
        } else if c == '\'' {
            out.append("&#39;");
            proof {
                reveal_strlit("&#39;");
                assert(out@ =~= out0 + escape_char(c));
            }
        } else if c == '/' {
            out.append("&#47;");
            proof {
                reveal_strlit("&#47;");
                assert(out@ =~= out0 + escape_char(c));
            }
        } else if c == '=' {
            out.append("&#61;");
            proof {
                reveal_strlit("&#61;");
                assert(out@ =~= out0 + escape_char(c));
            }
        } else if c == '`' {
            out.append("&#96;");
            proof {
                reveal_strlit("&#96;");
                assert(out@ =~= out0 + escape_char(c));
            }
        } else {
            let piece = s.substring_char(i, i + 1);
            out.append(piece);
            proof {
                assert(piece@ =~= escape_char(c));
                assert(out@ =~= out0 + escape_char(c));
            }
        }
        proof {
            assert(escape_from(s@, i as int) == escape_char(s@[i as int]) + escape_from(
                s@,
                i + 1,
            ));
            assert(out@ + escape_from(s@, i + 1) =~= out0 + escape_from(s@, i as int));
        }
        i += 1;
    }
    proof {
        assert(escape_from(s@, s_len as int) =~= Seq::<char>::empty());
        assert(out@ =~= out@ + escape_from(s@, s_len as int));
    }
    out
}

/// How deep partial invocation and lambda re-compilation may recurse. The
/// Mustache language puts no bound on partials that invoke themselves, so
/// rendering enforces one: past this depth a partial or lambda renders to
/// nothing.
pub const MAX_DEPTH: u32 = 64;

/// The height of a segment tree, used as the well-founded measure of the
/// renderer's recursion.
pub open spec fn seg_height(s: SpecSeg) -> nat
    decreases s,
{
    match s {
        SpecSeg::Text(_, _) => 0,
        SpecSeg::Value(_, _, _) => 0,
        SpecSeg::Section(_, _, _, _, ch) => 1 + segs_height(ch),
        SpecSeg::InvertedSection(_, ch) => 1 + segs_height(ch),
        SpecSeg::Block(_, ch) => 1 + segs_height(ch),
        SpecSeg::Partial(_, _, _, ps) => match ps {
            None => 0,
            Some(inner) => 1 + params_height(inner),
        },
    }
}

/// The height of a list of segments: above every element.
pub open spec fn segs_height(ss: Seq<SpecSeg>) -> nat
    decreases ss,
{
    if ss.len() == 0 {
        0
    } else {
        let h0 = 1 + seg_height(ss[0]);
        let hr = segs_height(ss.drop_first());
        if h0 > hr {
            h0
        } else {
            hr
        }
    }
}

/// The height of a list of block overrides: above every body.
pub open spec fn params_height(ps: Seq<(Seq<char>, Seq<SpecSeg>)>) -> nat
    decreases ps,
{
    if ps.len() == 0 {
        0
    } else {
        let h0 = 1 + segs_height(ps[0].1);
        let hr = params_height(ps.drop_first());
        if h0 > hr {
            h0
        } else {
            hr
        }
    }
}

/// Every element sits strictly below its list.
pub proof fn lemma_segs_height_elem(ss: Seq<SpecSeg>, i: int)
    requires
        0 <= i < ss.len(),
    ensures
        seg_height(ss[i]) < segs_height(ss),
    decreases ss.len(),
{
    if i > 0 {
        lemma_segs_height_elem(ss.drop_first(), i - 1);
        assert(ss.drop_first()[i - 1] == ss[i]);
    }
}

/// Every override body sits strictly below its list.
pub proof fn lemma_params_height_elem(ps: Seq<(Seq<char>, Seq<SpecSeg>)>, i: int)
    requires
        0 <= i < ps.len(),
    ensures
        segs_height(ps[i].1) < params_height(ps),
    decreases ps.len(),
{
    if i > 0 {
        lemma_params_height_elem(ps.drop_first(), i - 1);
        assert(ps.drop_first()[i - 1] == ps[i]);
    }
}

/// Literal text with every newline followed by the indent, except a
/// trailing newline, which must not indent the empty rest of the line.
pub open spec fn indent_from(text: Seq<char>, i: int, indent: Seq<char>) -> Seq<char>
    decreases text.len() - i,
{
    if i < 0 || i >= text.len() {
        Seq::empty()
    } else {
        let piece = if text[i] == '\n' && i + 1 < text.len() {
            seq!['\n'] + indent
        } else {
            seq![text[i]]
        };
        piece + indent_from(text, i + 1, indent)
    }
}

/// What a text segment renders to: with an empty indent the text itself;
/// otherwise the indent first when the text starts its line, and every
/// interior newline followed by the indent.
pub open spec fn render_text_spec(text: Seq<char>, snl: bool, indent: Seq<char>) -> Seq<char> {
    if indent.len() == 0 {
        text
    } else {
        let head = if snl {
            indent
        } else {
            Seq::empty()
        };
        head + indent_from(text, 0, indent)
    }
}

/// Render a text segment, as [render_text_spec].
pub fn render_text(text: &str, starts_new_line: bool, indent: &str) -> (r: String)
    ensures
        r@ == render_text_spec(text@, starts_new_line, indent@),
{
    let indent_len = indent.unicode_len();
    if indent_len == 0 {
        return text.to_owned();
    }
    let text_len = text.unicode_len();
    let mut out = String::new();
    if starts_new_line {
        out.append(indent);
    }
    let ghost head = out@;
    let mut i: usize = 0;
    while i < text_len
        invariant
            0 <= i <= text_len,
            text_len == text@.len(),
            out@ + indent_from(text@, i as int, indent@) == head + indent_from(text@, 0, indent@),
        decreases text_len - i,
    {
        let ghost out0 = out@;
        let c = text.get_char(i);
        if c == '\n' && i + 1 < text_len {
            out.append("\n");
            out.append(indent);
            proof {
                reveal_strlit("\n");
                assert(out@ =~= out0 + (seq!['\n'] + indent@));
            }
        } else {
            let piece = text.substring_char(i, i + 1);
            out.append(piece);
            proof {
                assert(piece@ =~= seq![text@[i as int]]);
            }
        }
        proof {
            assert(out@ + indent_from(text@, i + 1, indent@) =~= out0 + indent_from(
                text@,
                i as int,
                indent@,
            ));
        }
        i += 1;
    }
    proof {
        assert(indent_from(text@, text_len as int, indent@) =~= Seq::<char>::empty());
        assert(out@ =~= out@ + indent_from(text@, text_len as int, indent@));
    }
    out
}

/// What an interpolation of plain text produces: the indent first when the
/// tag starts its line, then the text, the whole HTML-escaped exactly once
/// for an escaped tag.
pub open spec fn value_output_spec(
    text: Seq<char>,
    is_escaped: bool,
    snl: bool,
    indent: Seq<char>,
) -> Seq<char> {
    let head = if snl && indent.len() > 0 {
        indent
    } else {
        Seq::empty()
    };
    if is_escaped {
        escape_spec(head + text)
    } else {
        head + text
    }
}

/// Produce the output of a plain-text interpolation, as
/// [value_output_spec].
pub fn value_output(text: String, is_escaped: bool, snl: bool, indent: &str) -> (r: String)
    ensures
        r@ == value_output_spec(text@, is_escaped, snl, indent@),
{
    let mut body = String::new();
    if snl && indent.unicode_len() > 0 {
        body.append(indent);
    }
    body.append(text.as_str());
    proof {
        assert(body@ =~= (if snl && indent@.len() > 0 {
            indent@
        } else {
            Seq::<char>::empty()
        }) + text@);
    }
    if is_escaped {
        html_escape(body)
    } else {
        body
    }
}

/// Deep copies of segments, equal to the originals in view.
fn copy_segments(segments: &Vec<Segment>) -> (r: Vec<Segment>)
    ensures
        segs_view(r@) == segs_view(segments@),
    decreases segs_height(segs_view(segments@)), 1nat,
{
    let mut out: Vec<Segment> = Vec::new();
    let mut i: usize = 0;
    while i < segments.len()
        invariant
            0 <= i <= segments@.len(),
            out@.len() == i,
            forall|j: int| 0 <= j < i ==> (#[trigger] out@[j])@ == segments@[j]@,
        decreases segments@.len() - i,
    {
        proof {
            lemma_segs_height_elem(segs_view(segments@), i as int);
        }
        let seg = copy_segment(&segments[i]);
        out.push(seg);
        i += 1;
    }
    proof {
        assert(segs_view(out@) =~= segs_view(segments@));
    }
    out
}

/// A deep copy of one segment.
fn copy_segment(segment: &Segment) -> (r: Segment)
    ensures
        r@ == segment@,
    decreases seg_height(segment@), 2nat,
{
    match segment {
        Segment::Text(t, b) => Segment::Text(t.clone(), *b),
        Segment::Value(n, e, b) => Segment::Value(n.clone(), *e, *b),
        Segment::Section(n, a, b, q, ch) => Segment::Section(
            n.clone(),
            *a,
            *b,
            *q,
            copy_segments(ch),
        ),
        Segment::InvertedSection(n, ch) => Segment::InvertedSection(n.clone(), copy_segments(ch)),
        Segment::Block(n, ch) => Segment::Block(n.clone(), copy_segments(ch)),
        Segment::Partial(n, ind, d, params) => {
            let copied = match params {
                None => None,
                Some(ps) => Some(copy_params(ps)),
            };
            let r = Segment::Partial(n.clone(), ind.clone(), *d, copied);
            proof {
                assert(r@ =~~= segment@);
            }
            r
        },
    }
}

/// A deep copy of a list of block overrides.
fn copy_params(params: &Vec<(String, Vec<Segment>)>) -> (r: Vec<(String, Vec<Segment>)>)
    ensures
        params_view(r@) == params_view(params@),
    decreases params_height(params_view(params@)), 0nat,
{
    let mut out: Vec<(String, Vec<Segment>)> = Vec::new();
    let mut i: usize = 0;
    while i < params.len()
        invariant
            0 <= i <= params@.len(),
            out@.len() == i,
            forall|j: int|
                0 <= j < i ==> (#[trigger] out@[j]).0@ == params@[j].0@ && segs_view(out@[j].1@)
                    == segs_view(params@[j].1@),
        decreases params@.len() - i,
    {
        proof {
            lemma_params_height_elem(params_view(params@), i as int);
            assert(params_view(params@)[i as int].1 == segs_view(params@[i as int].1@));
        }
        let name = params[i].0.clone();
        let body = copy_segments(&params[i].1);
        out.push((name, body));
        i += 1;
    }
    proof {
        assert(params_view(out@) =~~= params_view(params@));
    }
    out
}

/// The override body for a block name: the latest entry wins, as the last
/// insertion into a map would.
pub open spec fn lookup_param(
    params: Seq<(Seq<char>, Seq<SpecSeg>)>,
    name: Seq<char>,
) -> Option<Seq<SpecSeg>>
    decreases params.len(),
{
    if params.len() == 0 {
        None
    } else if params.last().0 == name {
        Some(params.last().1)
    } else {
        lookup_param(params.drop_last(), name)
    }
}

/// Inheritance substitution: replace each block with its override where one
/// is given, keep its default body otherwise, and pass the overrides on
/// into nested sections and parent calls, the caller's overrides winning
/// over inner ones.
pub open spec fn subst_seg_spec(s: SpecSeg, params: Seq<(Seq<char>, Seq<SpecSeg>)>) -> SpecSeg
    decreases seg_height(s), 1nat,
{
    match s {
        SpecSeg::Text(_, _) => s,
        SpecSeg::Value(_, _, _) => s,
        SpecSeg::Section(n, a, b, q, ch) => SpecSeg::Section(n, a, b, q, subst_spec(ch, params)),
        SpecSeg::InvertedSection(n, ch) => SpecSeg::InvertedSection(n, subst_spec(ch, params)),
        SpecSeg::Block(n, ch) => SpecSeg::Block(
            n,
            match lookup_param(params, n) {
                Some(body) => body,
                None => subst_spec(ch, params),
            },
        ),
        SpecSeg::Partial(n, ind, d, ps) => SpecSeg::Partial(
            n,
            ind,
            d,
            match ps {
                None => None,
                Some(inner) => Some(inner + params),
            },
        ),
    }
}

/// [subst_seg_spec] over a list of segments.
pub open spec fn subst_spec(
    ss: Seq<SpecSeg>,
    params: Seq<(Seq<char>, Seq<SpecSeg>)>,
) -> Seq<SpecSeg>
    decreases segs_height(ss), 0nat,
        via subst_spec_dec
{
    Seq::new(ss.len(), |i: int| if 0 <= i < ss.len() {
        subst_seg_spec(ss[i], params)
    } else {
        SpecSeg::Text(Seq::empty(), false)
    })
}

#[via_fn]
proof fn subst_spec_dec(ss: Seq<SpecSeg>, params: Seq<(Seq<char>, Seq<SpecSeg>)>) {
    assert forall|i: int| 0 <= i < ss.len() implies seg_height(ss[i]) < segs_height(ss) by {
        lemma_segs_height_elem(ss, i);
    };
}

/// Substitute block overrides through a partial's segments, as
/// [subst_spec].
pub fn substitute(segments: &Vec<Segment>, parameters: &Vec<(String, Vec<Segment>)>) -> (r: Vec<
    Segment,
>)
    ensures
        segs_view(r@) == subst_spec(segs_view(segments@), params_view(parameters@)),
    decreases segs_height(segs_view(segments@)), 1nat,
{
    let mut out: Vec<Segment> = Vec::new();
    let mut i: usize = 0;
    while i < segments.len()
        invariant
            0 <= i <= segments@.len(),
            out@.len() == i,
            forall|j: int|
                0 <= j < i ==> (#[trigger] out@[j])@ == subst_seg_spec(
                    segs_view(segments@)[j],
                    params_view(parameters@),
                ),
        decreases segments@.len() - i,
    {
        proof {
            lemma_segs_height_elem(segs_view(segments@), i as int);
        }
        let seg = substitute_segment(&segments[i], parameters);
        out.push(seg);
        i += 1;
    }
    proof {
        assert(segs_view(out@) =~= subst_spec(segs_view(segments@), params_view(parameters@)));
    }
    out
}

/// Substitute block overrides through one segment, as [subst_seg_spec].
pub fn substitute_segment(segment: &Segment, parameters: &Vec<(String, Vec<Segment>)>) -> (r:
    Segment)
    ensures
        r@ == subst_seg_spec(segment@, params_view(parameters@)),
    decreases seg_height(segment@), 2nat,
{
    match segment {
        Segment::Text(t, b) => Segment::Text(t.clone(), *b),
        Segment::Value(n, e, b) => Segment::Value(n.clone(), *e, *b),
        Segment::Section(n, a, b, q, ch) => Segment::Section(
            n.clone(),
            *a,
            *b,
            *q,
            substitute(ch, parameters),
        ),
        Segment::InvertedSection(n, ch) => Segment::InvertedSection(
            n.clone(),
            substitute(ch, parameters),
        ),
        Segment::Block(n, ch) => {
            let mut j: usize = parameters.len();
            proof {
                assert(params_view(parameters@).take(parameters@.len() as int) =~= params_view(
                    parameters@,
                ));
            }
            loop
                invariant_except_break
                    0 <= j <= parameters@.len(),
                invariant
                    segment@ == SpecSeg::Block(n@, segs_view(ch@)),
                    lookup_param(params_view(parameters@), n@) == lookup_param(
                        params_view(parameters@).take(j as int),
                        n@,
                    ),
                ensures
                    lookup_param(params_view(parameters@), n@) is None,
                decreases j,
            {
                if j == 0 {
                    break ;
                }
                j -= 1;
                if str_eq(n.as_str(), parameters[j].0.as_str()) {
                    proof {
                        assert(params_view(parameters@).take(j + 1).len() == j + 1);
                        assert(params_view(parameters@).take(j + 1).last() == params_view(
                            parameters@,
                        )[j as int]);
                        assert(params_view(parameters@)[j as int].0 == n@);
                        assert(lookup_param(params_view(parameters@).take(j + 1), n@) == Some(
                            params_view(parameters@).take(j + 1).last().1,
                        ));
                        assert(params_view(parameters@).take(j + 1).last().1 == segs_view(
                            parameters@[j as int].1@,
                        ));
                    }
                    let body = copy_segments(&parameters[j].1);
                    let r = Segment::Block(n.clone(), body);
                    proof {
                        assert(r@ =~~= subst_seg_spec(segment@, params_view(parameters@)));
                    }
                    return r;
                }
                proof {
                    assert(params_view(parameters@).take(j + 1).drop_last() =~= params_view(
                        parameters@,
                    ).take(j as int));
                    assert(params_view(parameters@).take(j + 1).last() == params_view(
                        parameters@,
                    )[j as int]);
                }
            }
            let r = Segment::Block(n.clone(), substitute(ch, parameters));
            proof {
                assert(r@ =~~= subst_seg_spec(segment@, params_view(parameters@)));
            }
            r
        },
        Segment::Partial(n, ind, d, params) => {
            let merged = match params {
                None => None,
                Some(inner) => {
                    let mut m = copy_params(inner);
                    let outer = copy_params(parameters);
                    let mut outer = outer;
                    m.append(&mut outer);
                    proof {
                        assert(params_view(m@) =~~= params_view(inner@) + params_view(
                            parameters@,
                        ));
                    }
                    Some(m)
                },
            };
            let r = Segment::Partial(n.clone(), ind.clone(), *d, merged);
            proof {
                assert(r@ =~~= subst_seg_spec(segment@, params_view(parameters@)));
            }
            r
        },
    }
}


/// All segments are literal text.
pub open spec fn all_text(ss: Seq<SpecSeg>) -> bool {
    forall|i: int| 0 <= i < ss.len() ==> (#[trigger] ss[i]) is Text
}

/// The concatenation of the text segments from position `i` on.
pub open spec fn texts_from(ss: Seq<SpecSeg>, i: int) -> Seq<char>
    decreases ss.len() - i,
{
    if i < 0 || i >= ss.len() {
        Seq::empty()
    } else {
        (if ss[i] is Text {
            ss[i]->Text_0
        } else {
            Seq::empty()
        }) + texts_from(ss, i + 1)
    }
}

/// The rendering of a list of text segments from position `i` on, under an
/// indent: the [render_text_spec] images in order. Segments of other kinds
/// contribute nothing here; the clauses built on this apply it to lists
/// that are all text.
pub open spec fn texts_rendered_from(ss: Seq<SpecSeg>, i: int, indent: Seq<char>) -> Seq<char>
    decreases ss.len() - i,
{
    if i < 0 || i >= ss.len() {
        Seq::empty()
    } else {
        (match ss[i] {
            SpecSeg::Text(t, snl) => render_text_spec(t, snl, indent),
            _ => Seq::empty(),
        }) + texts_rendered_from(ss, i + 1, indent)
    }
}

/// Under an empty indent a text segment renders to its text, so the
/// rendered texts are the texts themselves.
pub proof fn lemma_texts_rendered_empty_indent(ss: Seq<SpecSeg>, i: int)
    ensures
        texts_rendered_from(ss, i, Seq::empty()) == texts_from(ss, i),
    decreases ss.len() - i,
{
    if 0 <= i < ss.len() {
        lemma_texts_rendered_empty_indent(ss, i + 1);
    }
}

/// What one segment may contribute to the output: a text segment
/// contributes exactly its [render_text_spec] image; an interpolation
/// contributes nothing or the [value_output_spec] image of some resolved
/// text, so escaping is applied exactly once whatever was resolved; the
/// structured kinds are not constrained here.
pub open spec fn piece_ok(s: SpecSeg, piece: Seq<char>, indent: Seq<char>) -> bool {
    match s {
        SpecSeg::Text(t, snl) => piece == render_text_spec(t, snl, indent),
        SpecSeg::Value(_, is_escaped, snl) => piece.len() == 0 || exists|t: Seq<char>|
            piece == value_output_spec(t, is_escaped, snl, indent),
        _ => true,
    }
}

/// The pieces joined in order.
pub open spec fn concat_pieces(pieces: Seq<Seq<char>>) -> Seq<char>
    decreases pieces.len(),
{
    if pieces.len() == 0 {
        Seq::empty()
    } else {
        concat_pieces(pieces.drop_last()) + pieces.last()
    }
}

/// Render a list of segments in order. The stack comes back exactly as it
/// went in; the output is one piece per segment, each piece bounded by
/// [piece_ok]; a list of bare text renders to exactly its rendered texts,
/// under any indent.
pub fn render_segments<C: Context, S: TemplateStore>(
    segments: &Vec<Segment>,
    stack: &mut Stack<C>,
    indent: &str,
    partials: Option<&S>,
    depth: u32,
) -> (r: String)
    requires
        old(stack).frames@.len() >= 1,
    ensures
        final(stack).frames@ == old(stack).frames@,
        segments@.len() == 0 ==> r@.len() == 0,
        all_text(segs_view(segments@)) ==> r@ == texts_rendered_from(
            segs_view(segments@),
            0,
            indent@,
        ),
        exists|pieces: Seq<Seq<char>>|
            {
                &&& pieces.len() == segments@.len()
                &&& forall|j: int|
                    0 <= j < pieces.len() ==> piece_ok(
                        segs_view(segments@)[j],
                        #[trigger] pieces[j],
                        indent@,
                    )
                &&& r@ == concat_pieces(pieces)
            },
    decreases depth, segs_height(segs_view(segments@)), 1nat,
{
    let ghost sv = segs_view(segments@);
    let mut out = String::new();
    let ghost mut pieces: Seq<Seq<char>> = Seq::empty();
    let mut i: usize = 0;
    while i < segments.len()
        invariant
            stack.frames@ == old(stack).frames@,
            stack.frames@.len() >= 1,
            0 <= i <= segments@.len(),
            sv == segs_view(segments@),
            segments@.len() == 0 ==> out@.len() == 0,
            pieces.len() == i,
            forall|j: int| 0 <= j < i ==> piece_ok(sv[j], #[trigger] pieces[j], indent@),
            out@ == concat_pieces(pieces),
            all_text(sv) ==> out@ + texts_rendered_from(sv, i as int, indent@)
                == texts_rendered_from(sv, 0, indent@),
        decreases segments@.len() - i,
    {
        proof {
            lemma_segs_height_elem(segs_view(segments@), i as int);
        }
        let ghost out0 = out@;
        let ghost pieces0 = pieces;
        let piece = render_segment(&segments[i], stack, indent, partials, depth);
        out.append(piece.as_str());
        proof {
            pieces = pieces.push(piece@);
            assert(pieces.drop_last() =~= pieces0);
            assert(concat_pieces(pieces) == concat_pieces(pieces0) + piece@);
            if all_text(sv) {
                assert(sv[i as int] is Text);
                assert(piece@ == render_text_spec(
                    sv[i as int]->Text_0,
                    sv[i as int]->Text_1,
                    indent@,
                ));
                assert(out@ + texts_rendered_from(sv, i + 1, indent@) =~= out0
                    + texts_rendered_from(sv, i as int, indent@));
            }
        }
        i += 1;
    }
    proof {
        if all_text(sv) {
            assert(texts_rendered_from(sv, segments@.len() as int, indent@) =~= Seq::<
                char,
            >::empty());
            assert(out@ =~= out@ + texts_rendered_from(sv, segments@.len() as int, indent@));
        }
    }
    out
}

/// Render one segment.
pub fn render_segment<C: Context, S: TemplateStore>(
    segment: &Segment,
    stack: &mut Stack<C>,
    indent: &str,
    partials: Option<&S>,
    depth: u32,
) -> (r: String)
    requires
        old(stack).frames@.len() >= 1,
    ensures
        final(stack).frames@ == old(stack).frames@,
        piece_ok(segment@, r@, indent@),
    decreases depth, seg_height(segment@), 2nat,
{
    let r: String = match segment {
        Segment::Text(text, snl) => {
            let rr = render_text(text.as_str(), *snl, indent);
            proof {
                assert(piece_ok(segment@, rr@, indent@));
            }
            rr
        },
        Segment::Value(name, is_escaped, snl) => {
            let rr = render_value(
                name.as_str(),
                *is_escaped,
                *snl,
                stack,
                indent,
                partials,
                depth,
            );
            proof {
                if rr@.len() != 0 {
                    let t = choose|t: Seq<char>|
                        rr@ == value_output_spec(t, *is_escaped, *snl, indent@);
                    assert(rr@ == value_output_spec(t, segment@->Value_1, segment@->Value_2, indent@));
                }
                assert(piece_ok(segment@, rr@, indent@));
            }
            rr
        },
        Segment::Section(name, start, end, is_seqcheck, children) => render_section(
            name.as_str(),
            *is_seqcheck,
            children,
            *start,
            *end,
            stack,
            indent,
            partials,
            depth,
        ),
        Segment::InvertedSection(name, children) => render_inverted_section(
            name.as_str(),
            children,
            stack,
            indent,
            partials,
            depth,
        ),
        Segment::Block(_, children) => render_segments(children, stack, indent, partials, depth),
        Segment::Partial(name, children_indent, is_dynamic, parameters) => render_partial(
            name.as_str(),
            children_indent.as_str(),
            *is_dynamic,
            parameters,
            stack,
            indent,
            partials,
            depth,
        ),
    };
    proof {
        assert(piece_ok(segment@, r@, indent@));
    }
    r
}

/// Render an interpolation: resolve the name, then emit its text through
/// [value_output]; the template text of a lambda value is compiled and
/// rendered against the current stack first. The stack comes back exactly
/// as it went in.
pub fn render_value<C: Context, S: TemplateStore>(
    name: &str,
    is_escaped: bool,
    starts_new_line: bool,
    stack: &mut Stack<C>,
    indent: &str,
    partials: Option<&S>,
    depth: u32,
) -> (r: String)
    requires
        old(stack).frames@.len() >= 1,
    ensures
        final(stack).frames@ == old(stack).frames@,
        r@.len() == 0 || exists|t: Seq<char>|
            r@ == value_output_spec(t, is_escaped, starts_new_line, indent@),
    decreases depth, 0nat, 0nat,
{
    match stack.get(name) {
        None => {
            let r = value_output(String::new(), is_escaped, starts_new_line, indent);
            proof {
                assert(r@ == value_output_spec(
                    Seq::<char>::empty(),
                    is_escaped,
                    starts_new_line,
                    indent@,
                ));
            }
            r
        },
        Some(ContextValue::Text(text)) => {
            let ghost gt = text@;
            let r = value_output(text, is_escaped, starts_new_line, indent);
            proof {
                assert(r@ == value_output_spec(gt, is_escaped, starts_new_line, indent@));
            }
            r
        },
        Some(ContextValue::Lambda(text)) => {
            if depth == 0 {
                return String::new();
            }
            match Template::from(text.as_str()) {
                Err(_) => String::new(),
                Ok(template) => {
                    let rendered = render_segments(
                        &template.segments,
                        stack,
                        indent,
                        partials,
                        depth - 1,
                    );
                    let ghost gt = rendered@;
                    let r = value_output(rendered, is_escaped, starts_new_line, indent);
                    proof {
                        assert(r@ == value_output_spec(gt, is_escaped, starts_new_line, indent@));
                    }
                    r
                },
            }
        },
    }
}

/// `n` copies of `s`, one after the other: what a section body contributes
/// when it is rendered once per item of a sequence.
pub open spec fn repeat_text(s: Seq<char>, n: nat) -> Seq<char>
    decreases n,
{
    if n == 0 {
        Seq::empty()
    } else {
        repeat_text(s, (n - 1) as nat) + s
    }
}

/// Render a section: resolve the name in section position, iterate a
/// sequence frame, render a single frame once unless it is falsy, and for
/// a sequence check render the body once exactly when the name is a
/// non-empty sequence. The stack comes back exactly as it went in. A
/// sequence-check frame only answers the test and is dropped before its
/// body renders, so the body reads the enclosing context, as Mustache
/// engines have it. The output is always some number of passes over the
/// body: with a body of bare text under no enclosing indent, a repetition
/// of that text.
pub fn render_section<C: Context, S: TemplateStore>(
    name: &str,
    is_seqcheck: bool,
    children: &Vec<Segment>,
    start: usize,
    end: usize,
    stack: &mut Stack<C>,
    indent: &str,
    partials: Option<&S>,
    depth: u32,
) -> (r: String)
    requires
        old(stack).frames@.len() >= 1,
    ensures
        final(stack).frames@ == old(stack).frames@,
        children@.len() == 0 ==> r@.len() == 0,
        all_text(segs_view(children@)) ==> exists|n: nat|
            r@ == repeat_text(texts_rendered_from(segs_view(children@), 0, indent@), n),
    decreases depth, segs_height(segs_view(children@)) + 1, 0nat,
{
    let ghost base = texts_rendered_from(segs_view(children@), 0, indent@);
    let ghost cond = all_text(segs_view(children@));
    let mut out = String::new();
    let ghost mut reps: nat = 0;
    let len = stack.len();
    let ghost pre = stack.frames@;
    if stack.push(name, Some((start, end))) {
        if is_seqcheck {
            let must = stack.in_sequence() && stack.current().is_some();
            stack.truncate(len);
            proof {
                assert(stack.frames@ =~= pre);
            }
            if must {
                let piece = render_segments(children, stack, indent, partials, depth);
                out.append(piece.as_str());
                proof {
                    if cond {
                        assert(repeat_text(base, 0) =~= Seq::<char>::empty());
                        assert(out@ =~= repeat_text(base, 1));
                        reps = 1;
                    }
                }
            }
        } else if stack.len() > len {
            if stack.in_sequence() || !stack.is_falsy() {
                let ghost n1 = stack.frames@.len();
                let ghost items0 = stack.frames@.last().items@;
                loop
                    invariant
                        stack.frames@.len() == n1,
                        n1 > len,
                        len == pre.len(),
                        pre.is_prefix_of(stack.frames@),
                        stack.frames@.last().items@ == items0,
                        children@.len() == 0 ==> out@.len() == 0,
                        cond == all_text(segs_view(children@)),
                        base == texts_rendered_from(segs_view(children@), 0, indent@),
                        cond ==> out@ == repeat_text(base, reps),
                    decreases items0.len() - stack.frames@.last().pos,
                {
                    if stack.current().is_none() {
                        break ;
                    }
                    let ghost out0 = out@;
                    let piece = render_segments(children, stack, indent, partials, depth);
                    out.append(piece.as_str());
                    proof {
                        if cond {
                            assert(piece@ == base);
                            assert(out@ == repeat_text(base, reps + 1));
                            reps = reps + 1;
                        }
                    }
                    stack.next();
                }
                stack.truncate(len);
                proof {
                    assert(stack.frames@ =~= pre);
                }
            } else {
                stack.truncate(len);
                proof {
                    assert(stack.frames@ =~= pre);
                }
            }
        } else {
            // The name was the dot over a plain value: the current frame
            // already refers to it, so the body renders at most once.
            if !stack.is_falsy() {
                let piece = render_segments(children, stack, indent, partials, depth);
                out.append(piece.as_str());
                proof {
                    if cond {
                        assert(repeat_text(base, 0) =~= Seq::<char>::empty());
                        assert(out@ =~= repeat_text(base, 1));
                        reps = 1;
                    }
                }
            }
            stack.truncate(len);
            proof {
                assert(stack.frames@ =~= pre);
            }
        }
    }
    proof {
        if cond {
            assert(exists|n: nat| out@ == repeat_text(base, n)) by {
                assert(out@ == repeat_text(base, reps));
            }
        }
    }
    out
}

/// Render an inverted section: its body appears exactly when the name
/// resolves to nothing, to an exhausted sequence, or to a falsy value. The
/// stack comes back exactly as it went in; the body is rendered at most
/// once, after the probe frame is dropped, so it reads the enclosing
/// context, as Mustache engines have it.
pub fn render_inverted_section<C: Context, S: TemplateStore>(
    name: &str,
    children: &Vec<Segment>,
    stack: &mut Stack<C>,
    indent: &str,
    partials: Option<&S>,
    depth: u32,
) -> (r: String)
    requires
        old(stack).frames@.len() >= 1,
    ensures
        final(stack).frames@ == old(stack).frames@,
        children@.len() == 0 ==> r@.len() == 0,
        all_text(segs_view(children@)) ==> r@ == texts_rendered_from(
            segs_view(children@),
            0,
            indent@,
        ) || r@.len() == 0,
    decreases depth, segs_height(segs_view(children@)) + 1, 0nat,
{
    let len = stack.len();
    let ghost pre = stack.frames@;
    let pushed = stack.push(name, None);
    let must = !pushed || stack.is_falsy() || stack.current().is_none();
    stack.truncate(len);
    proof {
        assert(stack.frames@ =~= pre);
    }
    if must {
        render_segments(children, stack, indent, partials, depth)
    } else {
        String::new()
    }
}

/// Render a partial or parent call: fetch the template (resolving a
/// dynamic name through the stack first), extend the indent with the
/// indentation of the call's own line, substitute block overrides for a
/// parent call, and render. A missing store or template renders to
/// nothing, as does a call nested deeper than [MAX_DEPTH]. The stack
/// comes back exactly as it went in. The fetched template is the store's
/// unverified answer, so no clause here can name it; its rendering is
/// fixed one call down, by [substitute]'s exact contract and by
/// [render_segments]'s output laws under the extended indent.
pub fn render_partial<C: Context, S: TemplateStore>(
    name: &str,
    children_indent: &str,
    is_dynamic: bool,
    parameters: &Option<Vec<(String, Vec<Segment>)>>,
    stack: &mut Stack<C>,
    indent: &str,
    partials: Option<&S>,
    depth: u32,
) -> (r: String)
    requires
        old(stack).frames@.len() >= 1,
    ensures
        final(stack).frames@ == old(stack).frames@,
        partials is None ==> r@.len() == 0,
        depth == 0 ==> r@.len() == 0,
    decreases depth, 0nat, 1nat,
{
    let store = match partials {
        Some(store) => store,
        None => {
            return String::new();
        },
    };
    if depth == 0 {
        return String::new();
    }
    let dynamic_name = if is_dynamic {
        match stack.get(name) {
            Some(ContextValue::Text(n2)) => Some(n2),
            _ => None,
        }
    } else {
        None
    };
    let maybe_template = if is_dynamic {
        match &dynamic_name {
            Some(n2) => store.get(n2.as_str()),
            None => None,
        }
    } else {
        store.get(name)
    };
    match maybe_template {
        None => String::new(),
        Some(template) => {
            let mut next_indent = indent.to_owned();
            next_indent.append(children_indent);
            match parameters {
                Some(params) => {
                    let substituted = substitute(&template.segments, params);
                    render_segments(&substituted, stack, next_indent.as_str(), partials, depth - 1)
                },
                None => render_segments(
                    &template.segments,
                    stack,
                    next_indent.as_str(),
                    partials,
                    depth - 1,
                ),
            }
        },
    }
}

/// A piece decomposition under the view of the empty literal is one under
/// the empty sequence: the two indents are the same value.
proof fn lemma_pieces_empty_indent(segments: Seq<Segment>, r: Seq<char>, indent: Seq<char>)
    requires
        indent =~= Seq::<char>::empty(),
        exists|pieces: Seq<Seq<char>>|
            {
                &&& pieces.len() == segments.len()
                &&& forall|j: int|
                    0 <= j < pieces.len() ==> piece_ok(
                        segs_view(segments)[j],
                        #[trigger] pieces[j],
                        indent,
                    )
                &&& r == concat_pieces(pieces)
            },
    ensures
        exists|pieces: Seq<Seq<char>>|
            {
                &&& pieces.len() == segments.len()
                &&& forall|j: int|
                    0 <= j < pieces.len() ==> piece_ok(
                        segs_view(segments)[j],
                        #[trigger] pieces[j],
                        Seq::empty(),
                    )
                &&& r == concat_pieces(pieces)
            },
{
    let pieces = choose|pieces: Seq<Seq<char>>|
        {
            &&& pieces.len() == segments.len()
            &&& forall|j: int|
                0 <= j < pieces.len() ==> piece_ok(
                    segs_view(segments)[j],
                    #[trigger] pieces[j],
                    indent,
                )
            &&& r == concat_pieces(pieces)
        };
    assert(indent == Seq::<char>::empty());
    assert(pieces.len() == segments.len() && (forall|j: int|
        0 <= j < pieces.len() ==> piece_ok(
            segs_view(segments)[j],
            #[trigger] pieces[j],
            Seq::empty(),
        )) && r == concat_pieces(pieces));
}

impl Template {
    /// Render with no partial store: every partial is a silent miss.
    ///
    /// Rendering always terminates with a finite string, whatever the
    /// context answers; a template of bare text renders to that text, and
    /// any output is one piece per top-level segment, text pieces fixed and
    /// interpolation pieces escaped exactly once.
    pub fn render<C: Context>(&self, context: &C) -> (r: String)
        ensures
            all_text(segs_view(self.segments@)) ==> r@ == texts_from(segs_view(self.segments@), 0),
            exists|pieces: Seq<Seq<char>>|
                {
                    &&& pieces.len() == self.segments@.len()
                    &&& forall|j: int|
                        0 <= j < pieces.len() ==> piece_ok(
                            segs_view(self.segments@)[j],
                            #[trigger] pieces[j],
                            Seq::empty(),
                        )
                    &&& r@ == concat_pieces(pieces)
                },
    {
        proof {
            reveal_strlit("");
        }
        let mut stack = Stack::new(context);
        let r = self.render_internal(&mut stack, "", None::<&TemplateMap>);
        proof {
            lemma_pieces_empty_indent(self.segments@, r@, ""@);
        }
        r
    }

    /// Render, resolving partials in the given store; the output laws of
    /// [Template::render] hold here as well.
    pub fn render_with_partials<C: Context, S: TemplateStore>(
        &self,
        context: &C,
        partials: &S,
    ) -> (r: String)
        ensures
            all_text(segs_view(self.segments@)) ==> r@ == texts_from(segs_view(self.segments@), 0),
            exists|pieces: Seq<Seq<char>>|
                {
                    &&& pieces.len() == self.segments@.len()
                    &&& forall|j: int|
                        0 <= j < pieces.len() ==> piece_ok(
                            segs_view(self.segments@)[j],
                            #[trigger] pieces[j],
                            Seq::empty(),
                        )
                    &&& r@ == concat_pieces(pieces)
                },
    {
        proof {
            reveal_strlit("");
        }
        let mut stack = Stack::new(context);
        let r = self.render_internal(&mut stack, "", Some(partials));
        proof {
            lemma_pieces_empty_indent(self.segments@, r@, ""@);
        }
        r
    }

    /// Render against an existing stack and indent; the stack comes back
    /// exactly as it went in.
    pub fn render_internal<C: Context, S: TemplateStore>(
        &self,
        stack: &mut Stack<C>,
        indent: &str,
        partials: Option<&S>,
    ) -> (r: String)
        requires
            old(stack).frames@.len() >= 1,
        ensures
            final(stack).frames@ == old(stack).frames@,
            all_text(segs_view(self.segments@)) ==> r@ == texts_rendered_from(
                segs_view(self.segments@),
                0,
                indent@,
            ),
            all_text(segs_view(self.segments@)) && indent@.len() == 0 ==> r@ == texts_from(
                segs_view(self.segments@),
                0,
            ),
            exists|pieces: Seq<Seq<char>>|
                {
                    &&& pieces.len() == self.segments@.len()
                    &&& forall|j: int|
                        0 <= j < pieces.len() ==> piece_ok(
                            segs_view(self.segments@)[j],
                            #[trigger] pieces[j],
                            indent@,
                        )
                    &&& r@ == concat_pieces(pieces)
                },
    {
        proof {
            if all_text(segs_view(self.segments@)) && indent@.len() == 0 {
                assert(indent@ =~= Seq::<char>::empty());
                lemma_texts_rendered_empty_indent(segs_view(self.segments@), 0);
            }
        }
        render_segments(&self.segments, stack, indent, partials, MAX_DEPTH)
    }
}


/// The source span of the section reached by a dotted path of section
/// names, searching segments from position `i`: the name of a section may
/// itself contain dots, so a path component is the longest section name
/// that the remaining path starts with.
pub open spec fn section_location_in(ss: Seq<SpecSeg>, i: int, path: Seq<char>) -> Option<
    (int, int),
>
    decreases segs_height(ss), ss.len() - i,
        via section_location_in_dec
{
    if i < 0 || i >= ss.len() {
        None
    } else {
        match ss[i] {
            SpecSeg::Section(name, start, end, _, children) => {
                if path == name {
                    Some((start, end))
                } else if path.len() > name.len() + 1 && path.subrange(0, name.len() as int)
                    == name && path[name.len() as int] == '.' {
                    match section_location_in(
                        children,
                        0,
                        path.subrange(name.len() as int + 1, path.len() as int),
                    ) {
                        Some(loc) => Some(loc),
                        None => section_location_in(ss, i + 1, path),
                    }
                } else {
                    section_location_in(ss, i + 1, path)
                }
            },
            _ => section_location_in(ss, i + 1, path),
        }
    }
}

#[via_fn]
proof fn section_location_in_dec(ss: Seq<SpecSeg>, i: int, path: Seq<char>) {
    if 0 <= i < ss.len() {
        lemma_segs_height_elem(ss, i);
    }
}

/// Exec counterpart of [section_location_in].
fn section_location_seek(segments: &Vec<Segment>, i: usize, path: &str) -> (r: Option<
    (usize, usize),
>)
    ensures
        match (r, section_location_in(segs_view(segments@), i as int, path@)) {
            (Some(loc), Some(sloc)) => (loc.0 as int, loc.1 as int) == sloc,
            (None, None) => true,
            _ => false,
        },
    decreases segs_height(segs_view(segments@)), segments@.len() - i,
{
    if i >= segments.len() {
        return None;
    }
    proof {
        lemma_segs_height_elem(segs_view(segments@), i as int);
    }
    match &segments[i] {
        Segment::Section(name, start, end, _, children) => {
            let name_len = name.as_str().unicode_len();
            let path_len = path.unicode_len();
            if str_eq(path, name.as_str()) {
                Some((*start, *end))
            } else if path_len > name_len && path_len - name_len > 1 && crate::text::occurs_at_exec_in(
                path,
                name.as_str(),
                0,
            ) && path.get_char(name_len) == '.' {
                let rest = path.substring_char(name_len + 1, path_len);
                match section_location_seek(children, 0, rest) {
                    Some(loc) => Some(loc),
                    None => section_location_seek(segments, i + 1, path),
                }
            } else {
                section_location_seek(segments, i + 1, path)
            }
        },
        _ => section_location_seek(segments, i + 1, path),
    }
}

impl Template {
    /// The source span of a section, named by the dotted path of the
    /// sections that enclose it: the slice of the compiled source between
    /// the span's ends is the literal body of that section, the form a
    /// section lambda receives. Nothing when no section matches the path.
    pub fn section_location(&self, path: &str) -> (r: Option<(usize, usize)>)
        ensures
            match (r, section_location_in(segs_view(self.segments@), 0, path@)) {
                (Some(loc), Some(sloc)) => (loc.0 as int, loc.1 as int) == sloc,
                (None, None) => true,
                _ => false,
            },
    {
        section_location_seek(&self.segments, 0, path)
    }
}

} // verus!
