//! The engine's general laws, stated and proved over the spec-level model
//! that the executable functions are verified against.
use vstd::prelude::*;
use crate::reader::{init_state, lex_from, lex_wf, Tok};
use crate::template::{
    all_text, closer_of, close_at_eof, compile_spec, init_stack, parse_fold, parse_step, push_seg,
    texts_from, PFrame, SpecSeg,
};
use crate::text::{find_from, lemma_find_from_none, occurs_at};

verus! {

/// A stack discipline law: any run of pushes leaves the recorded prefix in
/// place, and truncating back to the recorded length restores the stack
/// exactly, so its final length equals its initial length.
///
/// [crate::context::Stack::push] guarantees the premise for the frame
/// stack, [crate::context::Stack::truncate] performs the subrange, and
/// [crate::context::Stack::get] and the section renderers carry the
/// conclusion as their own contracts.
pub proof fn lemma_push_truncate_restores<T>(pre: Seq<T>, mid: Seq<T>)
    requires
        pre.is_prefix_of(mid),
    ensures
        mid.subrange(0, pre.len() as int) =~= pre,
{
}

/// The `(name, qualifier)` pair that would close an opening token, if the
/// token opens anything.
pub open spec fn opener_closer(t: Tok) -> Option<(Seq<char>, Seq<char>)> {
    match t {
        Tok::Section(n, _, sq) => Some(
            (
                n,
                if sq {
                    seq!['?']
                } else {
                    Seq::empty()
                },
            ),
        ),
        Tok::InvertedSection(n) => Some((n, Seq::empty())),
        Tok::Block(n) => Some((n, Seq::empty())),
        Tok::Parent(n, dy, _) => Some(
            (
                n,
                if dy {
                    seq!['*']
                } else {
                    Seq::empty()
                },
            ),
        ),
        _ => None,
    }
}

/// The tokens from position `i` balance against a stack of expected
/// closers: every section-end token matches the innermost open one, and no
/// lexical error appears. Opens left unclosed at the end of the text are
/// allowed; the parser closes them there.
pub open spec fn bal_from(toks: Seq<Tok>, i: int, stack: Seq<(Seq<char>, Seq<char>)>) -> bool
    decreases toks.len() - i,
{
    if i < 0 || i >= toks.len() {
        true
    } else {
        let t = toks[i];
        if t is Error {
            false
        } else if t is EndSection {
            stack.len() > 0 && stack.last() == (t->EndSection_0, t->EndSection_1) && bal_from(
                toks,
                i + 1,
                stack.drop_last(),
            )
        } else {
            match opener_closer(t) {
                Some(c) => bal_from(toks, i + 1, stack.push(c)),
                None => bal_from(toks, i + 1, stack),
            }
        }
    }
}

/// A whole token stream balances.
pub open spec fn balanced(toks: Seq<Tok>) -> bool {
    bal_from(toks, 0, Seq::empty())
}

/// A balanced remainder parses without error, whenever the parser stack
/// mirrors the balance stack closer for closer.
proof fn lemma_bal_parses(
    toks: Seq<Tok>,
    i: int,
    pstack: Seq<PFrame>,
    bstack: Seq<(Seq<char>, Seq<char>)>,
)
    requires
        pstack.len() == bstack.len() + 1,
        forall|k: int| 0 <= k < bstack.len() ==> closer_of((#[trigger] pstack[k + 1]).opener)
            == bstack[k],
        bal_from(toks, i, bstack),
    ensures
        parse_fold(toks, i, pstack) is Ok,
    decreases toks.len() - i,
{
    if i < 0 || i >= toks.len() {
    } else {
        let t = toks[i];
        match parse_step(pstack, t) {
            Err(_) => {
                if t is EndSection {
                    assert(bstack.last() == (t->EndSection_0, t->EndSection_1));
                    assert(pstack.last() == pstack[bstack.len() - 1 + 1]);
                    assert(closer_of(pstack.last().opener) == bstack[bstack.len() - 1]);
                    assert(false);
                } else {
                    assert(t is Error);
                    assert(false);
                }
            },
            Ok(pstack2) => {
                if t is EndSection {
                    let bstack2 = bstack.drop_last();
                    assert(pstack2 == push_seg(
                        pstack.drop_last(),
                        crate::template::close_frame(
                            pstack.last().opener,
                            pstack.last().segs,
                            t->EndSection_2,
                        ),
                    ));
                    assert forall|k: int| 0 <= k < bstack2.len() implies closer_of(
                        (#[trigger] pstack2[k + 1]).opener,
                    ) == bstack2[k] by {
                        assert(pstack2[k + 1].opener == pstack[k + 1].opener);
                    };
                    lemma_bal_parses(toks, i + 1, pstack2, bstack2);
                } else {
                    match opener_closer(t) {
                        Some(c) => {
                            assert(pstack2.len() == pstack.len() + 1);
                            assert(closer_of(pstack2.last().opener) == c);
                            assert forall|k: int| 0 <= k < bstack.push(c).len() implies closer_of(
                                (#[trigger] pstack2[k + 1]).opener,
                            ) == bstack.push(c)[k] by {
                                if k < bstack.len() {
                                    assert(pstack2[k + 1].opener == pstack[k + 1].opener);
                                }
                            };
                            lemma_bal_parses(toks, i + 1, pstack2, bstack.push(c));
                        },
                        None => {
                            assert forall|k: int| 0 <= k < bstack.len() implies closer_of(
                                (#[trigger] pstack2[k + 1]).opener,
                            ) == bstack[k] by {
                                assert(pstack2[k + 1].opener == pstack[k + 1].opener);
                            };
                            lemma_bal_parses(toks, i + 1, pstack2, bstack);
                        },
                    }
                }
            },
        }
    }
}

/// Balance means success: every template whose token stream balances
/// compiles.
pub proof fn lemma_balanced_compiles(s: Seq<char>)
    requires
        balanced(lex_from(init_state(s))),
    ensures
        compile_spec(s) is Ok,
{
    lemma_bal_parses(lex_from(init_state(s)), 0, init_stack(), Seq::empty());
}

/// When parsing a stream without lexical errors fails, the failure comes
/// from a section-end token of the stream, and the message names that
/// section.
pub proof fn lemma_error_names_section(toks: Seq<Tok>, i: int, stack: Seq<PFrame>)
    requires
        forall|k: int| 0 <= k < toks.len() ==> !((#[trigger] toks[k]) is Error),
        parse_fold(toks, i, stack) is Err,
    ensures
        exists|j: int|
            {
                &&& i <= j < toks.len()
                &&& (#[trigger] toks[j]) is EndSection
                &&& parse_fold(toks, i, stack)->Err_0 == "unexpected end of section "@
                    + toks[j]->EndSection_0
            },
    decreases toks.len() - i,
{
    if i < 0 || i >= toks.len() {
        assert(false);
    } else {
        let t = toks[i];
        match parse_step(stack, t) {
            Err(m) => {
                assert(t is EndSection);
                assert(m == "unexpected end of section "@ + t->EndSection_0);
                assert(i <= i < toks.len() && toks[i] is EndSection && parse_fold(
                    toks,
                    i,
                    stack,
                )->Err_0 == "unexpected end of section "@ + toks[i]->EndSection_0);
            },
            Ok(stack2) => {
                lemma_error_names_section(toks, i + 1, stack2);
                let j = choose|j: int|
                    {
                        &&& i + 1 <= j < toks.len()
                        &&& (#[trigger] toks[j]) is EndSection
                        &&& parse_fold(toks, i + 1, stack2)->Err_0 == "unexpected end of section "@
                            + toks[j]->EndSection_0
                    };
                assert(i <= j < toks.len() && toks[j] is EndSection && parse_fold(
                    toks,
                    i,
                    stack,
                )->Err_0 == "unexpected end of section "@ + toks[j]->EndSection_0);
            },
        }
    }
}

/// A compile failure on a lexically clean template names the unmatched
/// section-end that caused it.
pub proof fn lemma_compile_error_names_section(s: Seq<char>)
    requires
        forall|k: int|
            0 <= k < lex_from(init_state(s)).len() ==> !((#[trigger] lex_from(init_state(s))[k])
                is Error),
        compile_spec(s) is Err,
    ensures
        exists|j: int|
            {
                &&& 0 <= j < lex_from(init_state(s)).len()
                &&& (#[trigger] lex_from(init_state(s))[j]) is EndSection
                &&& compile_spec(s)->Err_0 == "unexpected end of section "@ + lex_from(
                    init_state(s),
                )[j]->EndSection_0
            },
{
    lemma_error_names_section(lex_from(init_state(s)), 0, init_stack());
}

/// Round trip: a text holding no open delimiter compiles to a single text
/// segment, so rendering it against any context gives the text back.
pub proof fn lemma_round_trip(s: Seq<char>)
    requires
        find_from(s, seq!['{', '{'], 0) is None,
    ensures
        compile_spec(s) is Ok,
        all_text(compile_spec(s)->Ok_0),
        texts_from(compile_spec(s)->Ok_0, 0) == s,
{
    let od = seq!['{', '{'];
    let cd = seq!['}', '}'];
    lemma_find_from_none(s, od, 0);
    let st0 = init_state(s);
    assert(st0.pos == 0 && st0.after == 0 && st0.od == od && st0.cd == cd && st0.s == s);
    assert(lex_wf(st0));
    crate::reader::lemma_lex_from_unfold(st0);
    if s.len() == 0 {
        assert(lex_from(st0) =~= Seq::<Tok>::empty());
        assert(parse_fold(lex_from(st0), 0, init_stack()) == Ok::<Seq<PFrame>, Seq<char>>(
            init_stack(),
        ));
        assert(compile_spec(s) == Ok::<Seq<SpecSeg>, Seq<char>>(close_at_eof(init_stack())));
        assert(close_at_eof(init_stack()) =~= Seq::<SpecSeg>::empty());
        assert(texts_from(compile_spec(s)->Ok_0, 0) =~= s);
    } else {
        assert(!occurs_at(s, od, 0));
        let tail = s.subrange(0, s.len() as int);
        assert(tail =~= s);
        let spans = crate::text::span_text_spec(s, od, cd);
        assert(spans == (s.len() as int, s.len() as int, s.len() as int)) by {
            crate::text::lemma_find_from_props(s, od, 0);
            crate::text::lemma_rfind_char_before_props(s, '\n', s.len() as int);
            if let Some(e) = crate::text::rfind_char_before(s, '\n', s.len() as int) {
                let sub = s.subrange(e + 1, s.len() as int);
                assert(find_from(sub, od, 0) is None) by {
                    if let Some(p) = find_from(sub, od, 0) {
                        crate::text::lemma_find_from_props(sub, od, 0);
                        assert(occurs_at(sub, od, p));
                        assert(s.subrange(e + 1 + p, e + 1 + p + 2) =~= sub.subrange(p, p + 2));
                        assert(occurs_at(s, od, e + 1 + p));
                        assert(false);
                    }
                };
                assert(crate::text::span_standalone_spec(sub, od, cd) == 0);
            }
        };
        let tok = Tok::Text(s, true);
        assert(crate::reader::next_token(st0) == Some((tok, s.len() as int, s.len() as int)))
            by {
            assert(crate::reader::read_text_spec(st0).0 =~~= tok);
            assert(s.subrange(0, s.len() as int).subrange(0, s.len() as int) =~= s);
        };
        let st1 = crate::reader::LexState { pos: s.len() as int, after: s.len() as int, ..st0 };
        assert(crate::reader::apply_token(st1, tok) == st1);
        crate::reader::lemma_lex_from_unfold(st1);
        assert(lex_from(st1) =~= Seq::<Tok>::empty());
        assert(lex_from(st0) =~= seq![tok]);
        let stack1 = push_seg(init_stack(), SpecSeg::Text(s, true));
        assert(parse_step(init_stack(), tok) == Ok::<Seq<PFrame>, Seq<char>>(stack1));
        assert(parse_fold(lex_from(st0), 0, init_stack()) == parse_fold(lex_from(st0), 1, stack1));
        assert(parse_fold(lex_from(st0), 1, stack1) == Ok::<Seq<PFrame>, Seq<char>>(stack1));
        assert(stack1.len() == 1);
        assert(close_at_eof(stack1) == stack1[0].segs);
        assert(stack1[0].segs =~= seq![SpecSeg::Text(s, true)]);
        assert(compile_spec(s) == Ok::<Seq<SpecSeg>, Seq<char>>(seq![SpecSeg::Text(s, true)]));
        assert(all_text(compile_spec(s)->Ok_0));
        assert(texts_from(seq![SpecSeg::Text(s, true)], 1) =~= Seq::<char>::empty());
        assert(texts_from(compile_spec(s)->Ok_0, 0) =~= s);
    }
}

/// The empty template compiles, to no segments at all, and so renders to
/// the empty string against every context.
pub proof fn lemma_empty_source()
    ensures
        compile_spec(Seq::<char>::empty()) is Ok,
        compile_spec(Seq::<char>::empty())->Ok_0 =~= Seq::<SpecSeg>::empty(),
{
    assert(find_from(Seq::<char>::empty(), seq!['{', '{'], 0) is None);
    lemma_round_trip(Seq::<char>::empty());
    assert(texts_from(compile_spec(Seq::<char>::empty())->Ok_0, 0) =~= Seq::<char>::empty());
    let ss = compile_spec(Seq::<char>::empty())->Ok_0;
    if ss.len() > 0 {
        assert(ss[0] is Text);
        assert(texts_from(ss, 0) == ss[0]->Text_0 + texts_from(ss, 1));
    }
}

/// Escaping walks the value once: the escape of a concatenation is the
/// concatenation of the escapes, each character expanded exactly once by
/// the fixed table.
pub proof fn lemma_escape_concat(a: Seq<char>, b: Seq<char>)
    ensures
        crate::template::escape_spec(a + b) == crate::template::escape_spec(a)
            + crate::template::escape_spec(b),
    decreases a.len(),
{
    if a.len() == 0 {
        assert(a + b =~= b);
        assert(crate::template::escape_spec(a) =~= Seq::<char>::empty());
        assert(crate::template::escape_spec(a + b) =~= crate::template::escape_spec(a)
            + crate::template::escape_spec(b));
    } else {
        lemma_escape_from_shift(a, b, 0);
    }
}

/// The escape of `a + b` from a position inside `a` splits at the join.
proof fn lemma_escape_from_shift(a: Seq<char>, b: Seq<char>, i: int)
    requires
        0 <= i <= a.len(),
    ensures
        crate::template::escape_from(a + b, i) == crate::template::escape_from(a, i)
            + crate::template::escape_from(b, 0),
    decreases a.len() - i,
{
    if i >= a.len() {
        lemma_escape_from_tail(a, b, i);
    } else {
        lemma_escape_from_shift(a, b, i + 1);
        assert((a + b)[i] == a[i]);
        assert(crate::template::escape_from(a + b, i) =~= crate::template::escape_from(a, i)
            + crate::template::escape_from(b, 0));
    }
}

/// The escape of `a + b` past the end of `a` is the escape of `b`.
proof fn lemma_escape_from_tail(a: Seq<char>, b: Seq<char>, i: int)
    requires
        i == a.len(),
    ensures
        crate::template::escape_from(a + b, i) == crate::template::escape_from(b, 0),
    decreases b.len(),
{
    lemma_escape_from_off(a, b, 0);
}

/// Escaping `a + b` from `a.len() + j` is escaping `b` from `j`.
proof fn lemma_escape_from_off(a: Seq<char>, b: Seq<char>, j: int)
    requires
        0 <= j <= b.len(),
    ensures
        crate::template::escape_from(a + b, a.len() + j) == crate::template::escape_from(b, j),
    decreases b.len() - j,
{
    if j >= b.len() {
    } else {
        lemma_escape_from_off(a, b, j + 1);
        assert((a + b)[a.len() + j] == b[j]);
        assert(crate::template::escape_from(a + b, a.len() + j) =~= crate::template::escape_from(
            b,
            j,
        ));
    }
}

} // verus!
