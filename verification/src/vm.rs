//! The traversal engine: a stack-driven, depth-first pre-order walk over the
//! program buffer that hands out the encoded words one at a time.
//!
//! The behaviour of one `next_word` call is pinned down by the spec function
//! [`advance`]: a backtrack step that unwinds the stacks past finished
//! branches, followed by a descend step that reads nodes until one that
//! terminates a word is found, the program is exhausted, or the program turns
//! out to be malformed.

use vstd::prelude::*;
use vstd::pervasive::unreached;
use vstd::slice::slice_subrange;
use vstd::slice::slice_to_vec;
use vstd::utf8::decode_utf8;
use vstd::utf8::valid_utf8;

use crate::instr::Instr;
use crate::stack::Stack;

verus! {

/// What a single `next_word` call reports when it cannot produce a word.
///
/// End-of-sequence is not an error and is reported as `Ok(None)` instead;
/// these variants cover malformed programs and capacity violations.
#[derive(Clone, Copy, PartialEq, Eq, Structural, Debug)]
pub enum T9Error {
    /// A control byte with opcode 000 or 001 was read: such a node neither
    /// terminates a word nor has descendants, so the program is malformed.
    InvalidOpcode,
    /// The buffer ended in the middle of a node: a priority or payload byte
    /// that the control byte announced is absent.
    Truncated,
    /// The bytes of a word do not form valid UTF-8 text.
    InvalidText,
    /// A stack was full on push. The engine sizes each stack to the program
    /// length, which a traversal can never exceed, so through `next_word`
    /// this error is provably unreachable; the checks still run, in every
    /// build. Underflow cannot arise either: the stacks mirror one another,
    /// so a pop only ever removes what an earlier push put there.
    StackOverflow,
}

/// The traversal state: the three stacks and the read cursor, as plain
/// mathematical values. The program buffer itself is immutable and is passed
/// separately to the spec functions that need it.
#[verifier::ext_equal]
pub ghost struct State {
    /// The node descriptors on the path from the root to the current node.
    pub control: Seq<Instr>,
    /// The payload bytes of that same path: the current word prefix.
    pub prefix: Seq<u8>,
    /// For each word-terminating node on the path, the address of its
    /// priority byte.
    pub prio: Seq<usize>,
    /// The read position in the program buffer.
    pub cursor: int,
}

/// What one `advance` step produces: the next word's bytes, the end of the
/// sequence, or an error.
pub ghost enum Outcome {
    Word(Seq<u8>),
    End,
    Fail(T9Error),
}

/// The number of program bytes one node with descriptor `i` occupies:
/// the control byte, the priority byte if the node terminates a word, and
/// the payload.
pub open spec fn entry_size(i: Instr) -> int {
    1 + (if i.spec_is_word() {
        1int
    } else {
        0int
    }) + i.spec_len()
}

/// The total payload length of a path of descriptors.
pub open spec fn sum_len(s: Seq<Instr>) -> int
    decreases s.len(),
{
    if s.len() == 0 {
        0
    } else {
        sum_len(s.drop_last()) + s.last().spec_len()
    }
}

/// How many descriptors of a path terminate a word.
pub open spec fn word_count(s: Seq<Instr>) -> int
    decreases s.len(),
{
    if s.len() == 0 {
        0
    } else {
        word_count(s.drop_last()) + (if s.last().spec_is_word() {
            1int
        } else {
            0int
        })
    }
}

/// The total number of program bytes occupied by the nodes of a path.
pub open spec fn footprint(s: Seq<Instr>) -> int
    decreases s.len(),
{
    if s.len() == 0 {
        0
    } else {
        footprint(s.drop_last()) + entry_size(s.last())
    }
}

/// The three path measures are non-negative and each is bounded by the
/// path's byte footprint.
pub proof fn lemma_measures(s: Seq<Instr>)
    ensures
        0 <= sum_len(s),
        0 <= word_count(s) <= s.len(),
        sum_len(s) <= footprint(s),
        word_count(s) <= footprint(s),
        s.len() <= footprint(s),
    decreases s.len(),
{
    if s.len() > 0 {
        lemma_measures(s.drop_last());
    }
}

/// The stacks mirror each other: the prefix holds exactly the payload bytes
/// of the control path, the priority stack one address per word-terminating
/// node, and the cursor sits at or after all bytes the path occupies,
/// within the program.
pub open spec fn state_wf(s: State, prog: Seq<u8>) -> bool {
    &&& s.prefix.len() == sum_len(s.control)
    &&& s.prio.len() == word_count(s.control)
    &&& 0 <= s.cursor
    &&& footprint(s.control) <= s.cursor <= prog.len()
}

/// The state a freshly constructed or reset engine is in: empty stacks,
/// cursor at the start of the program.
pub open spec fn init_state() -> State {
    State { control: Seq::empty(), prefix: Seq::empty(), prio: Seq::empty(), cursor: 0 }
}

/// Removes the top node of the path from all three stacks: the descriptor
/// itself, its payload bytes, and its priority address if it terminated a
/// word. The cursor does not move.
pub open spec fn pop_entry(s: State) -> State
    recommends
        s.control.len() > 0,
{
    let i = s.control.last();
    State {
        control: s.control.drop_last(),
        prefix: s.prefix.take(s.prefix.len() - i.spec_len()),
        prio: if i.spec_is_word() {
            s.prio.drop_last()
        } else {
            s.prio
        },
        cursor: s.cursor,
    }
}

/// Backtracking past a finished last sibling: pops every further last
/// sibling now exposed at the top, then one more node, whose next sibling
/// the cursor then points at. Reports `true` when the control stack runs
/// empty instead: the traversal is exhausted.
pub open spec fn unwind(s: State) -> (bool, State)
    decreases s.control.len(),
{
    if s.control.len() == 0 {
        (true, s)
    } else if s.control.last().spec_is_last() {
        unwind(pop_entry(s))
    } else {
        (false, pop_entry(s))
    }
}

/// The backtrack step of `advance`. The node on top of the control stack is
/// the one the previous call produced: if it has descendants the cursor
/// already sits at its first child and nothing is popped; otherwise the
/// node is finished and is popped, unwinding further if it was the last
/// sibling at its level. Reports `true` when the traversal is exhausted.
pub open spec fn backtrack(s: State) -> (bool, State) {
    if s.control.len() == 0 {
        (false, s)
    } else {
        let top = s.control.last();
        if top.spec_has_children() {
            (false, s)
        } else {
            let s1 = pop_entry(s);
            if top.spec_is_last() {
                unwind(s1)
            } else {
                (false, s1)
            }
        }
    }
}

/// The descend step of `advance`: reads nodes at the cursor, pushing each
/// onto the path, until one terminates a word (emitted), the cursor reaches
/// the end of the program (end of sequence), or the program turns out to be
/// malformed.
pub open spec fn descend(prog: Seq<u8>, s: State) -> (Outcome, State)
    decreases prog.len() - s.cursor,
{
    if !(0 <= s.cursor < prog.len()) {
        (Outcome::End, s)
    } else {
        let i = Instr(prog[s.cursor]);
        if !i.spec_is_valid() {
            (Outcome::Fail(T9Error::InvalidOpcode), s)
        } else if s.cursor + entry_size(i) > prog.len() {
            (Outcome::Fail(T9Error::Truncated), s)
        } else {
            let pay_start = s.cursor + 1 + (if i.spec_is_word() {
                1int
            } else {
                0int
            });
            let s1 = State {
                control: s.control.push(i),
                prefix: s.prefix + prog.subrange(pay_start, pay_start + i.spec_len()),
                prio: if i.spec_is_word() {
                    s.prio.push((s.cursor + 1) as usize)
                } else {
                    s.prio
                },
                cursor: s.cursor + entry_size(i),
            };
            if i.spec_is_word() {
                if valid_utf8(s1.prefix) {
                    (Outcome::Word(s1.prefix), s1)
                } else {
                    (Outcome::Fail(T9Error::InvalidText), s1)
                }
            } else {
                descend(prog, s1)
            }
        }
    }
}

/// One full `next_word` step: backtrack, then descend.
pub open spec fn advance(prog: Seq<u8>, s: State) -> (Outcome, State) {
    let bt = backtrack(s);
    if bt.0 {
        (Outcome::End, bt.1)
    } else {
        descend(prog, bt.1)
    }
}

/// The traversal engine: three bounded stacks and a read cursor over an
/// immutable program buffer. Each stack's capacity is the program length,
/// which the traversal can never exceed, so the always-checked capacity
/// errors are provably unreachable through `next_word`.
pub struct T9Vm {
    control_stack: Stack<Instr>,
    word_stack: Stack<u8>,
    prio_addr_stack: Stack<usize>,
    program_ctr: usize,
    program: Vec<u8>,
}

impl View for T9Vm {
    type V = State;

    closed spec fn view(&self) -> State {
        State {
            control: self.control_stack@,
            prefix: self.word_stack@,
            prio: self.prio_addr_stack@,
            cursor: self.program_ctr as int,
        }
    }
}

impl T9Vm {
    /// The program buffer this engine walks.
    pub closed spec fn prog(&self) -> Seq<u8> {
        self.program@
    }

    /// The engine's invariant: the abstract state is well formed and each
    /// stack is sized to the program length.
    pub closed spec fn wf(&self) -> bool {
        &&& state_wf(self@, self.prog())
        &&& self.control_stack.wf()
        &&& self.word_stack.wf()
        &&& self.prio_addr_stack.wf()
        &&& self.control_stack.capacity() == self.program@.len()
        &&& self.word_stack.capacity() == self.program@.len()
        &&& self.prio_addr_stack.capacity() == self.program@.len()
    }

    /// A fresh engine over `program`, ready to produce the first word.
    pub fn new(program: Vec<u8>) -> (r: T9Vm)
        ensures
            r.wf(),
            r@ == init_state(),
            r.prog() == program@,
    {
        let cap = program.len();
        let r = T9Vm {
            control_stack: Stack::new(cap),
            word_stack: Stack::new(cap),
            prio_addr_stack: Stack::new(cap),
            program_ctr: 0,
            program,
        };
        proof {
            assert(r@ =~= init_state());
        }
        r
    }

    /// Rewinds the traversal to the very beginning: all three stacks are
    /// emptied and the cursor returns to the start of the program, so the
    /// same word sequence can be walked again.
    pub fn reset(&mut self)
        requires
            old(self).wf(),
        ensures
            final(self).wf(),
            final(self)@ == init_state(),
            final(self).prog() == old(self).prog(),
    {
        self.control_stack.clear();
        self.word_stack.clear();
        self.prio_addr_stack.clear();
        self.program_ctr = 0;
        proof {
            assert(self@ =~= init_state());
        }
    }

    /// Pops the finished node on top of the control stack, rolling back
    /// exactly its payload bytes from the prefix stack and, if it terminated
    /// a word, one entry off the priority-address stack.
    pub fn pop_cstack(&mut self) -> (r: Instr)
        requires
            old(self).wf(),
            old(self)@.control.len() > 0,
        ensures
            final(self).wf(),
            final(self).prog() == old(self).prog(),
            r == old(self)@.control.last(),
            final(self)@ == pop_entry(old(self)@),
    {
        proof {
            lemma_measures(self@.control);
            lemma_measures(self@.control.drop_last());
        }
        let val = match self.control_stack.pop() {
            Some(v) => v,
            None => unreached(),
        };
        match self.word_stack.drop_n(val.len()) {
            Ok(()) => (),
            Err(_) => unreached(),
        }
        if val.is_word() {
            match self.prio_addr_stack.pop() {
                Some(_) => (),
                None => unreached(),
            }
        }
        proof {
            assert(self@ =~= pop_entry(old(self)@));
        }
        val
    }

    /// Pops every last sibling exposed at the top of the control stack and
    /// then one more node, exposing that node's next sibling at the cursor.
    /// Reports `true` when the control stack runs empty instead: the
    /// traversal is exhausted. This is the spec function [`unwind`], step
    /// for step.
    fn unwind_lasts(&mut self) -> (r: bool)
        requires
            old(self).wf(),
        ensures
            final(self).wf(),
            final(self).prog() == old(self).prog(),
            unwind(old(self)@) == (r, final(self)@),
        decreases old(self)@.control.len(),
    {
        let t: Option<Instr> = match self.control_stack.peek() {
            None => None,
            Some(t) => Some(*t),
        };
        match t {
            None => true,
            Some(i) => {
                if i.is_last() {
                    self.pop_cstack();
                    self.unwind_lasts()
                } else {
                    self.pop_cstack();
                    false
                }
            },
        }
    }

    /// Produces the next word of the traversal, or `Ok(None)` once the
    /// sequence is exhausted (every further call keeps reporting that until
    /// a `reset`). A malformed program is reported as a distinct error, and
    /// after an error the engine must be reset before further use.
    ///
    /// The whole step — result and new state alike — is pinned down by the
    /// spec function [`advance`] applied to the state before the call.
    #[verifier::loop_isolation(false)]
    pub fn next_word(&mut self) -> (r: Result<Option<String>, T9Error>)
        requires
            old(self).wf(),
        ensures
            final(self).wf(),
            final(self).prog() == old(self).prog(),
            ({
                let (o, s2) = advance(old(self).prog(), old(self)@);
                &&& final(self)@ == s2
                &&& match r {
                    Ok(Some(w)) => o == Outcome::Word(s2.prefix) && w@ == decode_utf8(s2.prefix),
                    Ok(None) => o == Outcome::End,
                    Err(e) => o == Outcome::Fail(e),
                }
            }),
    {
        let ghost s0 = self@;
        let ghost p = self.prog();

        // Backtrack step: the top of the control stack is the node the
        // previous call produced; pop it if its branch is finished.
        let top: Option<Instr> = match self.control_stack.peek() {
            None => None,
            Some(t) => Some(*t),
        };
        if let Some(i) = top {
            if !i.has_children() {
                let val = self.pop_cstack();
                if val.is_last() {
                    if self.unwind_lasts() {
                        // The control stack ran empty while unwinding: the
                        // traversal is exhausted.
                        return Ok(None);
                    }
                }
            }
        }
        assert(backtrack(s0) == (false, self@));

        // Descend step: read nodes at the cursor until a word is emitted,
        // the program ends, or the program turns out malformed.
        let ghost sd = self@;
        loop
            invariant
                self.wf(),
                self.prog() == p,
                descend(p, self@) == descend(p, sd),
            decreases p.len() - self@.cursor,
        {
            let ghost sh = self@;
            if self.program_ctr >= self.program.len() {
                return Ok(None);
            }
            let b = self.program[self.program_ctr];
            let cur = Instr(b);
            if !cur.is_valid() {
                return Err(T9Error::InvalidOpcode);
            }
            let len = cur.len();
            let extra: usize = if cur.is_word() {
                2
            } else {
                1
            };
            if self.program.len() - self.program_ctr < extra + len {
                return Err(T9Error::Truncated);
            }
            proof {
                lemma_measures(sh.control);
            }
            match self.control_stack.push(cur) {
                Ok(()) => (),
                Err(_) => {
                    return Err(T9Error::StackOverflow);
                },
            }
            self.program_ctr = self.program_ctr + 1;
            if cur.is_word() {
                match self.prio_addr_stack.push(self.program_ctr) {
                    Ok(()) => (),
                    Err(_) => {
                        return Err(T9Error::StackOverflow);
                    },
                }
                self.program_ctr = self.program_ctr + 1;
            }
            let pay = slice_subrange(
                self.program.as_slice(),
                self.program_ctr,
                self.program_ctr + len,
            );
            match self.word_stack.push_n(pay) {
                Ok(()) => (),
                Err(_) => {
                    return Err(T9Error::StackOverflow);
                },
            }
            self.program_ctr = self.program_ctr + len;
            proof {
                assert(sh.control.push(cur).drop_last() =~= sh.control);
                assert(sh.control.push(cur).last() == cur);
                let ghost s1 = State {
                    control: sh.control.push(Instr(p[sh.cursor])),
                    prefix: sh.prefix + p.subrange(
                        sh.cursor + 1 + (if Instr(p[sh.cursor]).spec_is_word() {
                            1int
                        } else {
                            0int
                        }),
                        sh.cursor + 1 + (if Instr(p[sh.cursor]).spec_is_word() {
                            1int
                        } else {
                            0int
                        }) + Instr(p[sh.cursor]).spec_len(),
                    ),
                    prio: if Instr(p[sh.cursor]).spec_is_word() {
                        sh.prio.push((sh.cursor + 1) as usize)
                    } else {
                        sh.prio
                    },
                    cursor: sh.cursor + entry_size(Instr(p[sh.cursor])),
                };
                assert(self@ =~= s1);
                assert(sum_len(self@.control) == sum_len(sh.control) + cur.spec_len());
                assert(word_count(self@.control) == word_count(sh.control) + (
                if cur.spec_is_word() {
                    1int
                } else {
                    0int
                }));
                assert(footprint(self@.control) == footprint(sh.control) + entry_size(cur));
            }
            if cur.is_word() {
                let bytes = slice_to_vec(self.word_stack.all());
                match bytes_to_string(bytes) {
                    Some(w) => {
                        return Ok(Some(w));
                    },
                    None => {
                        return Err(T9Error::InvalidText);
                    },
                }
            }
        }
    }
}

/// Popping the top node keeps the traversal state well formed.
pub proof fn lemma_pop_entry_wf(prog: Seq<u8>, s: State)
    requires
        state_wf(s, prog),
        s.control.len() > 0,
    ensures
        state_wf(pop_entry(s), prog),
{
    lemma_measures(s.control);
    lemma_measures(s.control.drop_last());
}

/// Unwinding past finished last siblings keeps the traversal state well
/// formed.
pub proof fn lemma_unwind_wf(prog: Seq<u8>, s: State)
    requires
        state_wf(s, prog),
    ensures
        state_wf(unwind(s).1, prog),
    decreases s.control.len(),
{
    if s.control.len() == 0 {
    } else {
        lemma_pop_entry_wf(prog, s);
        if s.control.last().spec_is_last() {
            lemma_unwind_wf(prog, pop_entry(s));
        }
    }
}

/// The backtrack step keeps the traversal state well formed.
pub proof fn lemma_backtrack_wf(prog: Seq<u8>, s: State)
    requires
        state_wf(s, prog),
    ensures
        state_wf(backtrack(s).1, prog),
{
    if s.control.len() > 0 && !s.control.last().spec_has_children() {
        lemma_pop_entry_wf(prog, s);
        if s.control.last().spec_is_last() {
            lemma_unwind_wf(prog, pop_entry(s));
        }
    }
}

/// The descend step keeps the traversal state well formed, and a word it
/// emits is exactly the prefix stack of the state it leaves behind.
pub proof fn lemma_descend_wf(prog: Seq<u8>, s: State)
    requires
        state_wf(s, prog),
    ensures
        state_wf(descend(prog, s).1, prog),
        descend(prog, s).0 matches Outcome::Word(w) ==> w == descend(prog, s).1.prefix,
    decreases prog.len() - s.cursor,
{
    if 0 <= s.cursor < prog.len() {
        let i = Instr(prog[s.cursor]);
        if i.spec_is_valid() && s.cursor + entry_size(i) <= prog.len() {
            let pay_start = s.cursor + 1 + (if i.spec_is_word() {
                1int
            } else {
                0int
            });
            let s1 = State {
                control: s.control.push(i),
                prefix: s.prefix + prog.subrange(pay_start, pay_start + i.spec_len()),
                prio: if i.spec_is_word() {
                    s.prio.push((s.cursor + 1) as usize)
                } else {
                    s.prio
                },
                cursor: s.cursor + entry_size(i),
            };
            assert(s.control.push(i).drop_last() =~= s.control);
            assert(s.control.push(i).last() == i);
            assert(state_wf(s1, prog));
            if !i.spec_is_word() {
                lemma_descend_wf(prog, s1);
            }
        }
    }
}

/// One full step keeps the traversal state well formed, and a word it
/// emits is exactly the prefix stack of the state it leaves behind.
pub proof fn lemma_advance_wf(prog: Seq<u8>, s: State)
    requires
        state_wf(s, prog),
    ensures
        state_wf(advance(prog, s).1, prog),
        advance(prog, s).0 matches Outcome::Word(w) ==> w == advance(prog, s).1.prefix,
{
    lemma_backtrack_wf(prog, s);
    if !backtrack(s).0 {
        lemma_descend_wf(prog, backtrack(s).1);
    }
}

/// Every word that `advance` emits has a byte length equal to the sum of
/// the payload lengths along the control-stack path that produced it.
pub proof fn lemma_word_len(prog: Seq<u8>, s: State)
    requires
        state_wf(s, prog),
    ensures
        advance(prog, s).0 matches Outcome::Word(w) ==> w.len() == sum_len(
            advance(prog, s).1.control,
        ),
{
    lemma_advance_wf(prog, s);
}

/// The first `n` outcomes produced by repeatedly stepping the traversal
/// from state `s`.
pub open spec fn run(prog: Seq<u8>, s: State, n: nat) -> Seq<Outcome>
    decreases n,
{
    if n == 0 {
        Seq::empty()
    } else {
        seq![advance(prog, s).0] + run(prog, advance(prog, s).1, (n - 1) as nat)
    }
}

/// The state after `n` steps of the traversal from state `s`.
pub open spec fn steps(prog: Seq<u8>, s: State, n: nat) -> State
    decreases n,
{
    if n == 0 {
        s
    } else {
        steps(prog, advance(prog, s).1, (n - 1) as nat)
    }
}

/// A run of `a + b` steps is a run of `a` steps followed by a run of `b`
/// steps from the state the first run reaches.
pub proof fn lemma_run_append(prog: Seq<u8>, s: State, a: nat, b: nat)
    ensures
        run(prog, s, a + b) == run(prog, s, a) + run(prog, steps(prog, s, a), b),
        steps(prog, s, a + b) == steps(prog, steps(prog, s, a), b),
    decreases a,
{
    if a == 0 {
        assert(run(prog, s, a + b) =~= run(prog, s, a) + run(prog, steps(prog, s, a), b));
    } else {
        lemma_run_append(prog, advance(prog, s).1, (a - 1) as nat, b);
        assert(run(prog, s, a + b) =~= run(prog, s, a) + run(prog, steps(prog, s, a), b));
    }
}

/// After a reset the traversal is determined by the program alone: any two
/// engines in the reset state over the same program produce the identical
/// outcome sequence, word for word.
pub proof fn lemma_replay(prog: Seq<u8>, s1: State, s2: State, n: nat)
    requires
        s1 == init_state(),
        s2 == init_state(),
    ensures
        run(prog, s1, n) == run(prog, s2, n),
{
}

/// Relies on `String::from_utf8`: it succeeds exactly when the bytes are
/// valid UTF-8, and the characters of the string it then returns decode
/// those bytes.
#[verifier::external_body]
fn bytes_to_string(v: Vec<u8>) -> (r: Option<String>)
    ensures
        r is Some <==> valid_utf8(v@),
        r matches Some(w) ==> w@ == decode_utf8(v@),
{
    String::from_utf8(v).ok()
}

} // verus!
