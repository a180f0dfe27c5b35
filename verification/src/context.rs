//! The adapter contract between user data and the engine, and the context
//! stack that implements Mustache's name-resolution rules: dotted descent
//! without fallback, simple-name fallback down the stack, section
//! iteration, and truncation back to a recorded depth after each lookup.
use vstd::prelude::*;
use vstd::string::StrSliceExecFns;
use crate::reader::str_eq;
use crate::text::{find_char_exec, find_char_from, lemma_find_char_from_min, lemma_find_char_from_props};

verus! {

/// What a context holds when read in interpolation position: plain text, or
/// the text of a template that a lambda produced and the engine must
/// compile and render in place.
#[derive(Debug, PartialEq)]
pub enum ContextValue {
    Text(String),
    Lambda(String),
}

/// An adapter node over the user's data tree.
///
/// The engine treats a context as one of: a mapping (when [Context::child]
/// answers), a sequence (when [Context::children] answers), or a plain
/// value. Mustache requires `null` and `false` to be falsy; what else is
/// falsy is the adapter's policy, through [Context::is_falsy].
///
/// The trait carries no method contracts on purpose: implementations come
/// from outside the verified library (adapters over parsed data, closures,
/// caches with interior mutability) and are not themselves verified, so a
/// promise here would be assumed, not proved. The engine instead states
/// everything over its own stack and over pure helpers that take a
/// method's answer as an argument, and is verified to behave correctly
/// for every answer these methods may give.
pub trait Context: Sized {
    /// The named child, if this context is a mapping that holds the name.
    /// `section` carries the source span of the section body when the
    /// lookup happens in section position, so adapters can implement
    /// lambdas over the literal section text.
    fn child(&self, name: &str, section: Option<(usize, usize)>) -> Option<&Self>;

    /// The items, in order, if this context is a sequence.
    fn children(&self) -> Option<Vec<&Self>>;

    /// The contents of this context, rendered in interpolation position.
    fn value(&self) -> ContextValue;

    /// Whether this context suppresses a section and triggers an inverted
    /// section.
    fn is_falsy(&self) -> bool;
}

/// One layer of the stack: an ordered run of contexts with a cursor, and
/// whether the run came from a sequence.
pub struct Frame<'a, C> {
    pub items: Vec<&'a C>,
    pub pos: usize,
    pub from_sequence: bool,
}

/// The context a frame's cursor stands on, if it is not exhausted.
pub open spec fn frame_current<'a, C>(f: Frame<'a, C>) -> Option<&'a C> {
    if f.pos < f.items@.len() {
        Some(f.items@[f.pos as int])
    } else {
        None
    }
}

impl<'a, C: Context> Frame<'a, C> {
    /// A frame over a single context.
    pub fn new_from_single(context: &'a C) -> (r: Frame<'a, C>)
        ensures
            r.items@ =~= seq![context],
            r.pos == 0,
            !r.from_sequence,
    {
        Frame { items: vec![context], pos: 0, from_sequence: false }
    }

    /// A frame over the items of a sequence.
    pub fn new_from_iterator(items: Vec<&'a C>) -> (r: Frame<'a, C>)
        ensures
            r.items@ == items@,
            r.pos == 0,
            r.from_sequence,
    {
        Frame { items, pos: 0, from_sequence: true }
    }

    /// The context under the cursor.
    pub fn current(&self) -> (r: Option<&'a C>)
        ensures
            r == frame_current(*self),
    {
        if self.pos < self.items.len() {
            Some(self.items[self.pos])
        } else {
            None
        }
    }

    /// Advance the cursor; true while a context remains.
    pub fn next(&mut self) -> (r: bool)
        ensures
            final(self).items == old(self).items,
            final(self).from_sequence == old(self).from_sequence,
            final(self).pos as int == if old(self).pos < old(self).items@.len() {
                old(self).pos + 1
            } else {
                old(self).pos as int
            },
            r == (frame_current(*final(self)) is Some),
    {
        if self.pos < self.items.len() {
            self.pos = self.pos + 1;
        }
        self.pos < self.items.len()
    }
}

/// The name holds no two dots in a row (so every dotted step of it names
/// one child, never the bare dot).
pub open spec fn no_double_dot(s: Seq<char>) -> bool {
    forall|i: int| 0 <= i && i + 1 < s.len() ==> !((#[trigger] s[i]) == '.' && s[i + 1] == '.')
}

/// The navigation stack: a list of frames, the root context at the bottom.
pub struct Stack<'a, C> {
    pub frames: Vec<Frame<'a, C>>,
}

/// The context the stack's top frame stands on.
pub open spec fn stack_current<'a, C>(s: Stack<'a, C>) -> Option<&'a C> {
    if s.frames@.len() == 0 {
        None
    } else {
        frame_current(s.frames@.last())
    }
}

impl<'a, C: Context> Stack<'a, C> {
    /// A stack whose only frame holds the root context.
    pub fn new(root: &'a C) -> (r: Stack<'a, C>)
        ensures
            r.frames@.len() == 1,
            r.frames@[0].items@ =~= seq![root],
            r.frames@[0].pos == 0,
            !r.frames@[0].from_sequence,
    {
        let frame = Frame::new_from_single(root);
        Stack { frames: vec![frame] }
    }

    /// The number of frames.
    pub fn len(&self) -> (r: usize)
        ensures
            r == self.frames@.len(),
    {
        self.frames.len()
    }

    /// Drop frames back to a recorded depth. Together with the prefix
    /// preservation of [Stack::push] this is what restores the stack after
    /// every lookup and section render.
    pub fn truncate(&mut self, len: usize)
        ensures
            final(self).frames@ == old(self).frames@.subrange(
                0,
                if len <= old(self).frames@.len() {
                    len as int
                } else {
                    old(self).frames@.len() as int
                },
            ),
    {
        self.frames.truncate(len);
        proof {
            assert(self.frames@ =~= old(self).frames@.subrange(
                0,
                if len <= old(self).frames@.len() {
                    len as int
                } else {
                    old(self).frames@.len() as int
                },
            ));
        }
    }

    /// Resolve `name` from the top of the stack and push a frame for it;
    /// false, with the stack exactly as it was, when the name resolves to
    /// nothing. Success on any name but the bare dot grows the stack by
    /// exactly one frame; a name with two dots in a row names nothing and
    /// always fails.
    pub fn push(&mut self, name: &str, location: Option<(usize, usize)>) -> (r: bool)
        requires
            old(self).frames@.len() >= 1,
        ensures
            old(self).frames@.is_prefix_of(final(self).frames@),
            !r ==> final(self).frames@ == old(self).frames@,
            final(self).frames@.len() >= old(self).frames@.len(),
            r && name@ != "."@ ==> final(self).frames@.len() == old(self).frames@.len() + 1,
            r ==> no_double_dot(name@),
            name@ == "."@ ==> r,
            name@ == "."@ ==> final(self).frames@.len() <= old(self).frames@.len() + 1,
            name@ == "."@ && final(self).frames@.len() == old(self).frames@.len() ==> final(self).frames@ == old(self).frames@,
            name@ == "."@ && final(self).frames@.len() == old(self).frames@.len() + 1 ==> final(self).frames@.last().from_sequence && final(self).frames@.last().pos == 0,
    {
        let idx = self.frames.len() - 1;
        self.push_at(name, idx, false, location)
    }

    /// The resolution machine behind [Stack::push]. `idx` is the frame the
    /// search starts from; inside a dotted descent (`is_dotted`) the
    /// candidate is the frame just above `idx` and there is no fallback.
    fn push_at(&mut self, name: &str, idx: usize, is_dotted: bool, location: Option<(usize, usize)>)
        -> (r: bool)
        requires
            !is_dotted ==> idx < old(self).frames@.len(),
            is_dotted ==> idx + 1 < old(self).frames@.len(),
        ensures
            !is_dotted ==> old(self).frames@.is_prefix_of(final(self).frames@),
            !is_dotted && !r ==> final(self).frames@ == old(self).frames@,
            final(self).frames@.len() >= old(self).frames@.len(),
            is_dotted ==> old(self).frames@.take(old(self).frames@.len() - 1).is_prefix_of(
                final(self).frames@,
            ),
            !is_dotted && r && name@ != "."@ ==> final(self).frames@.len() == old(
                self,
            ).frames@.len() + 1,
            is_dotted && r && name@ != "."@ ==> final(self).frames@.len() == old(
                self,
            ).frames@.len(),
            r ==> no_double_dot(name@),
            name@ == "."@ ==> r,
            name@ == "."@ ==> final(self).frames@.len() <= old(self).frames@.len() + 1,
            name@ == "."@ && final(self).frames@.len() == old(self).frames@.len() ==> final(self).frames@ == old(self).frames@,
            name@ == "."@ && final(self).frames@.len() == old(self).frames@.len() + 1 ==> final(self).frames@.last().from_sequence && final(self).frames@.last().pos == 0,
        decreases name@.len(),
    {
        let ghost pre = self.frames@;
        if str_eq(name, ".") {
            let frame = match self.frames[idx].current() {
                Some(context) => match context.children() {
                    Some(items) => Some(Frame::new_from_iterator(items)),
                    None => None,
                },
                None => None,
            };
            if let Some(frame) = frame {
                self.frames.push(frame);
                proof {
                    assert(pre.is_prefix_of(self.frames@));
                }
            }
            proof {
                assert(no_double_dot(name@)) by {
                    assert(name@.len() == 1) by {
                        reveal_strlit(".");
                    }
                }
            }
            true
        } else {
            let name_len = name.unicode_len();
            match find_char_exec(name, '.', 0) {
                Some(dot) => {
                    proof {
                        lemma_find_char_from_props(name@, '.', 0);
                    }
                    proof {
                        assert(name@ != "."@);
                    }
                    let head = name.substring_char(0, dot);
                    let tail = name.substring_char(dot + 1, name_len);
                    let tail_len = tail.unicode_len();
                    if tail_len > 0 && tail.get_char(0) == '.' {
                        // Two dots in a row name nothing: such a name never
                        // resolves, and the stack is left alone.
                        return false;
                    }
                    let len = self.frames.len();
                    proof {
                        lemma_find_char_from_min(name@, '.', 0);
                        assert(find_char_from(head@, '.', 0) is None) by {
                            if let Some(k) = find_char_from(head@, '.', 0) {
                                lemma_find_char_from_props(head@, '.', 0);
                                assert(head@[k] == name@[k]);
                                assert(false);
                            }
                        };
                        lemma_find_char_from_min(head@, '.', 0);
                        assert(head@ != "."@) by {
                            if head@ == "."@ {
                                assert(head@.len() == 1 && head@[0] == '.') by {
                                    reveal_strlit(".");
                                }
                            }
                        };
                        assert(tail@ != "."@) by {
                            if tail@ == "."@ {
                                assert(tail@.len() == 1 && tail@[0] == '.') by {
                                    reveal_strlit(".");
                                }
                            }
                        };
                    }
                    let head_ok = self.push_at(head, idx, is_dotted, location);
                    let ghost mid = self.frames@;
                    if head_ok && self.push_at(tail, idx, true, location) {
                        proof {
                            if !is_dotted {
                                assert(pre.is_prefix_of(mid) && mid.len() > pre.len());
                                assert(pre.is_prefix_of(mid.take(mid.len() - 1)));
                                assert(pre.is_prefix_of(self.frames@));
                            } else {
                                assert(pre.take(pre.len() - 1).is_prefix_of(mid));
                                assert(pre.take(pre.len() - 1).is_prefix_of(
                                    mid.take(mid.len() - 1),
                                ));
                                assert(pre.take(pre.len() - 1).is_prefix_of(self.frames@));
                            }
                            assert(no_double_dot(name@)) by {
                                assert forall|i: int|
                                    0 <= i && i + 1 < name@.len() implies !((#[trigger] name@[i])
                                    == '.' && name@[i + 1] == '.') by {
                                    if i < dot {
                                        assert(name@[i] != '.');
                                    } else if i == dot {
                                        assert(name@[dot + 1] == tail@[0]);
                                    } else {
                                        assert(name@[i] == tail@[i - dot - 1]);
                                        assert(name@[i + 1] == tail@[i - dot]);
                                    }
                                };
                            }
                        }
                        true
                    } else {
                        proof {
                            if !head_ok {
                                if !is_dotted {
                                    assert(mid == pre);
                                } else {
                                    assert(pre.take(pre.len() - 1).is_prefix_of(mid));
                                }
                            } else {
                                if !is_dotted {
                                    assert(pre.is_prefix_of(mid));
                                    assert(pre.is_prefix_of(mid.take(mid.len() - 1)));
                                    assert(pre.is_prefix_of(self.frames@));
                                } else {
                                    assert(pre.take(pre.len() - 1).is_prefix_of(mid));
                                    assert(pre.take(pre.len() - 1).is_prefix_of(
                                        mid.take(mid.len() - 1),
                                    ));
                                    assert(pre.take(pre.len() - 1).is_prefix_of(self.frames@));
                                }
                            }
                        }
                        self.truncate(len);
                        proof {
                            if !is_dotted {
                                assert(self.frames@ =~= pre);
                            } else {
                                assert(self.frames@.len() == pre.len());
                                assert(pre.take(pre.len() - 1).is_prefix_of(self.frames@));
                            }
                        }
                        false
                    }
                },
                None => {
                    proof {
                        lemma_find_char_from_min(name@, '.', 0);
                        assert(no_double_dot(name@)) by {
                            assert forall|i: int|
                                0 <= i && i + 1 < name@.len() implies !((#[trigger] name@[i]) == '.'
                                && name@[i + 1] == '.') by {
                                assert(name@[i] != '.');
                            };
                        };
                    }
                    if is_dotted {
                        // A dotted step looks only at the frame the descent
                        // just produced: no fallback.
                        let n0 = self.frames.len();
                        let resolved = self.child(idx + 1, name, location);
                        match resolved {
                            Some(context) => {
                                let frame = match context.children() {
                                    Some(items) => Frame::new_from_iterator(items),
                                    None => Frame::new_from_single(context),
                                };
                                let n = self.frames.len();
                                self.truncate(n - 1);
                                self.frames.push(frame);
                                proof {
                                    assert(self.frames@.len() == pre.len());
                                    assert(pre.take(pre.len() - 1).is_prefix_of(self.frames@));
                                }
                                true
                            },
                            None => false,
                        }
                    } else {
                        // Simple name: fall back from `idx` toward the root.
                        let n0 = self.frames.len();
                        let mut j = idx + 1;
                        loop
                            invariant_except_break
                                1 <= j <= idx + 1,
                            invariant
                                idx < self.frames@.len(),
                                self.frames@ == pre,
                                pre == old(self).frames@,
                                !is_dotted,
                                name@ != "."@,
                                no_double_dot(name@),
                            ensures
                                self.frames@ == pre,
                            decreases j,
                        {
                            j = j - 1;
                            let resolved = self.child(j, name, location);
                            if let Some(context) = resolved {
                                let frame = match context.children() {
                                    Some(items) => Frame::new_from_iterator(items),
                                    None => Frame::new_from_single(context),
                                };
                                self.frames.push(frame);
                                proof {
                                    assert(pre.is_prefix_of(self.frames@));
                                }
                                return true;
                            }
                            if j == 0 {
                                break ;
                            }
                        }
                        false
                    }
                },
            }
        }
    }

    /// Ask one frame's context for a named child.
    fn child(&self, idx: usize, name: &str, location: Option<(usize, usize)>) -> (r: Option<&'a C>)
        requires
            idx < self.frames@.len(),
    {
        match self.frames[idx].current() {
            Some(context) => context.child(name, location),
            None => None,
        }
    }

    /// Whether the top frame came from a sequence.
    pub fn in_sequence(&self) -> (r: bool)
        ensures
            r == (self.frames@.len() > 0 && self.frames@.last().from_sequence),
    {
        if self.frames.len() == 0 {
            false
        } else {
            self.frames[self.frames.len() - 1].from_sequence
        }
    }

    /// The context the top frame stands on.
    pub fn current(&self) -> (r: Option<&'a C>)
        ensures
            r == stack_current(*self),
    {
        if self.frames.len() == 0 {
            None
        } else {
            self.frames[self.frames.len() - 1].current()
        }
    }

    /// True when no context is under the cursor or the context calls
    /// itself falsy.
    pub fn is_falsy(&self) -> (r: bool)
        ensures
            stack_current(*self) is None ==> r,
    {
        match self.current() {
            Some(context) => context.is_falsy(),
            None => true,
        }
    }

    /// Advance the top frame's cursor; true while a context remains.
    pub fn next(&mut self) -> (r: bool)
        ensures
            final(self).frames@.len() == old(self).frames@.len(),
            old(self).frames@.len() == 0 ==> final(self).frames@ == old(self).frames@ && !r,
            old(self).frames@.len() > 0 ==> {
                &&& final(self).frames@.take(old(self).frames@.len() - 1) == old(
                    self,
                ).frames@.take(old(self).frames@.len() - 1)
                &&& final(self).frames@.last().items == old(self).frames@.last().items
                &&& final(self).frames@.last().from_sequence == old(
                    self,
                ).frames@.last().from_sequence
                &&& final(self).frames@.last().pos as int == (if old(self).frames@.last().pos < old(
                    self,
                ).frames@.last().items@.len() {
                    old(self).frames@.last().pos + 1
                } else {
                    old(self).frames@.last().pos as int
                })
                &&& r == (frame_current(final(self).frames@.last()) is Some)
            },
    {
        let ghost pre = self.frames@;
        if self.frames.len() == 0 {
            return false;
        }
        let mut frame = self.frames.pop().unwrap();
        let more = frame.next();
        self.frames.push(frame);
        proof {
            assert(self.frames@.take(pre.len() - 1) =~= pre.take(pre.len() - 1));
        }
        more
    }

    /// Resolve a name, read its value, and put the stack back as it was.
    /// `.` reads the current context directly.
    pub fn get(&mut self, name: &str) -> (r: Option<ContextValue>)
        requires
            old(self).frames@.len() >= 1,
        ensures
            final(self).frames@ == old(self).frames@,
            name@ == "."@ ==> r is Some,
    {
        if str_eq(name, ".") {
            Some(self.value())
        } else {
            let len = self.frames.len();
            if self.push(name, None) {
                let result = self.value();
                self.truncate(len);
                proof {
                    assert(self.frames@ =~= old(self).frames@);
                }
                Some(result)
            } else {
                None
            }
        }
    }

    /// The value of the context under the cursor; empty text when the top
    /// frame is exhausted or the stack is empty.
    pub fn value(&self) -> (r: ContextValue)
        ensures
            stack_current(*self) is None ==> r is Text && r->Text_0@ == Seq::<char>::empty(),
    {
        match self.current() {
            Some(context) => context.value(),
            None => ContextValue::Text(String::new()),
        }
    }
}

} // verus!
