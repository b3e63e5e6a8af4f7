//! The program format itself: which byte buffers encode a well-formed trie,
//! and which words such a buffer denotes.
//!
//! A well-formed program is a pre-order forest: each node is one control
//! byte, an optional priority byte and its payload, followed by its child
//! subtrees, followed by its next sibling, with exactly the final sibling of
//! every level carrying the last flag. [`tree_end`] and [`forest_end`] parse
//! that layout, and [`tree_words`] and [`forest_words`] spell out the words
//! it stores. The lemmas at the end of the module tie the traversal engine
//! to this denotation: a full run from the reset state produces exactly
//! these words, in this order.

use vstd::prelude::*;
use vstd::utf8::valid_utf8;

use crate::instr::Instr;
use crate::vm::advance;
use crate::vm::backtrack;
use crate::vm::descend;
use crate::vm::entry_size;
use crate::vm::init_state;
use crate::vm::lemma_run_append;
use crate::vm::pop_entry;
use crate::vm::run;
use crate::vm::state_wf;
use crate::vm::steps;
use crate::vm::unwind;
use crate::vm::Outcome;
use crate::vm::State;

verus! {

/// The node descriptor at position `i` of the program.
pub open spec fn node_at(prog: Seq<u8>, i: int) -> Instr {
    Instr(prog[i])
}

/// Where the payload of the node at `i` starts: after the control byte and,
/// for a word-terminating node, after the priority byte.
pub open spec fn pay_start(prog: Seq<u8>, i: int) -> int {
    i + 1 + (if node_at(prog, i).spec_is_word() {
        1int
    } else {
        0int
    })
}

/// The payload bytes of the node at `i`.
pub open spec fn payload_at(prog: Seq<u8>, i: int) -> Seq<u8> {
    prog.subrange(pay_start(prog, i), pay_start(prog, i) + node_at(prog, i).spec_len())
}

/// The position just past the subtree rooted at `i`: past the node's own
/// bytes and all its descendants. Negative when the buffer does not hold a
/// well-formed subtree there.
pub open spec fn tree_end(prog: Seq<u8>, i: int) -> int
    decreases prog.len() - i, 0int,
{
    if !(0 <= i < prog.len()) {
        -1
    } else {
        let c = node_at(prog, i);
        if !c.spec_is_valid() {
            -1
        } else if i + entry_size(c) > prog.len() {
            -1
        } else if c.spec_has_children() {
            forest_end(prog, i + entry_size(c))
        } else {
            i + entry_size(c)
        }
    }
}

/// The position just past the sibling chain starting at `i`, up to and
/// including the sibling that carries the last flag. Negative when the
/// buffer does not hold a well-formed forest there.
pub open spec fn forest_end(prog: Seq<u8>, i: int) -> int
    decreases prog.len() - i, 1int,
{
    if !(0 <= i < prog.len()) {
        -1
    } else {
        let e = tree_end(prog, i);
        if node_at(prog, i).spec_is_last() {
            e
        } else if e <= i || e > prog.len() {
            -1
        } else {
            forest_end(prog, e)
        }
    }
}

/// A subtree that parses ends strictly after it starts and within the
/// program.
pub proof fn lemma_tree_end_bounds(prog: Seq<u8>, i: int)
    requires
        tree_end(prog, i) >= 0,
    ensures
        i < tree_end(prog, i) <= prog.len(),
    decreases prog.len() - i, 0int,
{
    let c = node_at(prog, i);
    if c.spec_has_children() {
        lemma_forest_end_bounds(prog, i + entry_size(c));
    }
}

/// A forest that parses ends strictly after it starts and within the
/// program.
pub proof fn lemma_forest_end_bounds(prog: Seq<u8>, i: int)
    requires
        forest_end(prog, i) >= 0,
    ensures
        i < forest_end(prog, i) <= prog.len(),
    decreases prog.len() - i, 1int,
{
    let e = tree_end(prog, i);
    if node_at(prog, i).spec_is_last() {
        lemma_tree_end_bounds(prog, i);
    } else {
        lemma_forest_end_bounds(prog, e);
    }
}

/// The words stored in the subtree rooted at `i`, given the prefix `pre`
/// spelled by the node's ancestors: the node's own word first, when it
/// terminates one, then the words of its children, in order.
pub open spec fn tree_words(prog: Seq<u8>, i: int, pre: Seq<u8>) -> Seq<Seq<u8>>
    decreases prog.len() - i, 0int,
{
    if !(0 <= i < prog.len()) {
        Seq::empty()
    } else {
        let c = node_at(prog, i);
        if !c.spec_is_valid() || i + entry_size(c) > prog.len() {
            Seq::empty()
        } else {
            let pre1 = pre + payload_at(prog, i);
            let own = if c.spec_is_word() {
                seq![pre1]
            } else {
                Seq::empty()
            };
            if c.spec_has_children() {
                own + forest_words(prog, i + entry_size(c), pre1)
            } else {
                own
            }
        }
    }
}

/// The words stored in the sibling chain starting at `i`, in sibling order.
pub open spec fn forest_words(prog: Seq<u8>, i: int, pre: Seq<u8>) -> Seq<Seq<u8>>
    decreases prog.len() - i, 1int,
{
    if !(0 <= i < prog.len()) {
        Seq::empty()
    } else {
        let e = tree_end(prog, i);
        let first = tree_words(prog, i, pre);
        if node_at(prog, i).spec_is_last() {
            first
        } else if e <= i || e > prog.len() {
            first
        } else {
            first + forest_words(prog, e, pre)
        }
    }
}

/// Every subtree that parses stores at least one word: a leaf must
/// terminate one, since a node with neither word nor descendants is
/// malformed.
pub proof fn lemma_tree_words_nonempty(prog: Seq<u8>, i: int, pre: Seq<u8>)
    requires
        tree_end(prog, i) >= 0,
    ensures
        tree_words(prog, i, pre).len() >= 1,
    decreases prog.len() - i, 0int,
{
    let c = node_at(prog, i);
    if !c.spec_is_word() {
        lemma_forest_words_nonempty(prog, i + entry_size(c), pre + payload_at(prog, i));
    }
}

/// Every forest that parses stores at least one word.
pub proof fn lemma_forest_words_nonempty(prog: Seq<u8>, i: int, pre: Seq<u8>)
    requires
        forest_end(prog, i) >= 0,
    ensures
        forest_words(prog, i, pre).len() >= 1,
    decreases prog.len() - i, 1int,
{
    lemma_tree_words_nonempty(prog, i, pre);
}

/// How many nodes of the subtree rooted at `i` terminate a word.
pub open spec fn tree_word_nodes(prog: Seq<u8>, i: int) -> int
    decreases prog.len() - i, 0int,
{
    if !(0 <= i < prog.len()) {
        0
    } else {
        let c = node_at(prog, i);
        if !c.spec_is_valid() || i + entry_size(c) > prog.len() {
            0
        } else {
            let own = if c.spec_is_word() {
                1int
            } else {
                0int
            };
            if c.spec_has_children() {
                own + forest_word_nodes(prog, i + entry_size(c))
            } else {
                own
            }
        }
    }
}

/// How many nodes of the sibling chain starting at `i` terminate a word.
pub open spec fn forest_word_nodes(prog: Seq<u8>, i: int) -> int
    decreases prog.len() - i, 1int,
{
    if !(0 <= i < prog.len()) {
        0
    } else {
        let e = tree_end(prog, i);
        let first = tree_word_nodes(prog, i);
        if node_at(prog, i).spec_is_last() {
            first
        } else if e <= i || e > prog.len() {
            first
        } else {
            first + forest_word_nodes(prog, e)
        }
    }
}

/// A subtree stores exactly one word per word-terminating node.
pub proof fn lemma_tree_words_count(prog: Seq<u8>, i: int, pre: Seq<u8>)
    ensures
        tree_words(prog, i, pre).len() == tree_word_nodes(prog, i),
    decreases prog.len() - i, 0int,
{
    if 0 <= i < prog.len() {
        let c = node_at(prog, i);
        if c.spec_is_valid() && i + entry_size(c) <= prog.len() {
            if c.spec_has_children() {
                lemma_forest_words_count(prog, i + entry_size(c), pre + payload_at(prog, i));
            }
        }
    }
}

/// The traversal state after the engine has read the node at `i`: the node
/// on the control stack, its payload on the prefix stack, its priority
/// address recorded when it terminates a word, and the cursor past the
/// node's own bytes.
pub open spec fn push_node(prog: Seq<u8>, i: int, s: State) -> State {
    let c = node_at(prog, i);
    State {
        control: s.control.push(c),
        prefix: s.prefix + payload_at(prog, i),
        prio: if c.spec_is_word() {
            s.prio.push((i + 1) as usize)
        } else {
            s.prio
        },
        cursor: i + entry_size(c),
    }
}

/// The traversal state right after the last word of the subtree at `i` has
/// been emitted and its inner path popped again: only the subtree's root is
/// still on the stacks, and the cursor has consumed the whole subtree.
pub open spec fn after_tree(prog: Seq<u8>, i: int, s: State) -> State {
    let c = node_at(prog, i);
    State {
        control: s.control.push(c),
        prefix: s.prefix + payload_at(prog, i),
        prio: if c.spec_is_word() {
            s.prio.push((i + 1) as usize)
        } else {
            s.prio
        },
        cursor: tree_end(prog, i),
    }
}

/// Reading a node keeps the traversal state well formed.
pub proof fn lemma_push_node_wf(prog: Seq<u8>, i: int, s: State)
    requires
        state_wf(s, prog),
        s.cursor == i,
        0 <= i < prog.len(),
        i + entry_size(node_at(prog, i)) <= prog.len(),
    ensures
        state_wf(push_node(prog, i, s), prog),
{
    let c = node_at(prog, i);
    assert(s.control.push(c).drop_last() =~= s.control);
    assert(s.control.push(c).last() == c);
}

/// Popping a subtree's root undoes exactly what reading it pushed.
pub proof fn lemma_pop_after_tree(prog: Seq<u8>, i: int, s: State)
    requires
        0 <= i < prog.len(),
        i + entry_size(node_at(prog, i)) <= prog.len(),
    ensures
        pop_entry(after_tree(prog, i, s)) == (State {
            control: s.control,
            prefix: s.prefix,
            prio: s.prio,
            cursor: tree_end(prog, i),
        }),
{
    let c = node_at(prog, i);
    assert(s.control.push(c).drop_last() =~= s.control);
    assert(s.control.push(c).last() == c);
    if c.spec_is_word() {
        assert(s.prio.push((i + 1) as usize).drop_last() =~= s.prio);
    }
    assert((s.prefix + payload_at(prog, i)).take(
        (s.prefix + payload_at(prog, i)).len() - c.spec_len(),
    ) =~= s.prefix);
    assert(pop_entry(after_tree(prog, i, s)) =~= (State {
        control: s.control,
        prefix: s.prefix,
        prio: s.prio,
        cursor: tree_end(prog, i),
    }));
}

/// The outcomes of a run that emits the words `ws`, one per call.
pub open spec fn words_outcomes(ws: Seq<Seq<u8>>) -> Seq<Outcome> {
    ws.map_values(|w: Seq<u8>| Outcome::Word(w))
}

/// A forest stores exactly one word per word-terminating node.
pub proof fn lemma_forest_words_count(prog: Seq<u8>, i: int, pre: Seq<u8>)
    ensures
        forest_words(prog, i, pre).len() == forest_word_nodes(prog, i),
    decreases prog.len() - i, 1int,
{
    if 0 <= i < prog.len() {
        lemma_tree_words_count(prog, i, pre);
        let e = tree_end(prog, i);
        if !node_at(prog, i).spec_is_last() && i < e <= prog.len() {
            lemma_forest_words_count(prog, e, pre);
        }
    }
}

/// Running the engine across one subtree: from a well-formed state whose
/// cursor sits at the subtree's first byte, the next `descend` emits the
/// subtree's first word, the following calls emit the remaining words in
/// order, and the backtrack of the call after the last word unwinds from a
/// state where only the subtree's root is left above the caller's stacks.
pub proof fn lemma_tree_run(prog: Seq<u8>, s: State, i: int)
    requires
        state_wf(s, prog),
        s.cursor == i,
        tree_end(prog, i) >= 0,
        forall|k: int|
            0 <= k < tree_words(prog, i, s.prefix).len() ==> valid_utf8(
                #[trigger] tree_words(prog, i, s.prefix)[k],
            ),
    ensures
        ({
            let ws = tree_words(prog, i, s.prefix);
            let n = ws.len();
            &&& n >= 1
            &&& descend(prog, s).0 == Outcome::Word(ws[0])
            &&& run(prog, descend(prog, s).1, (n - 1) as nat) == words_outcomes(ws.skip(1))
            &&& backtrack(steps(prog, descend(prog, s).1, (n - 1) as nat)) == unwind(
                after_tree(prog, i, s),
            )
        }),
    decreases prog.len() - i, 0int,
{
    lemma_tree_end_bounds(prog, i);
    lemma_tree_words_nonempty(prog, i, s.prefix);
    let c = node_at(prog, i);
    let te = tree_end(prog, i);
    let ws = tree_words(prog, i, s.prefix);
    let n = ws.len();
    let pre1 = s.prefix + payload_at(prog, i);
    let s1 = push_node(prog, i, s);
    lemma_push_node_wf(prog, i, s);
    let fstart = i + entry_size(c);
    assert((State {
        control: s.control.push(Instr(prog[s.cursor])),
        prefix: s.prefix + prog.subrange(
            s.cursor + 1 + (if Instr(prog[s.cursor]).spec_is_word() {
                1int
            } else {
                0int
            }),
            s.cursor + 1 + (if Instr(prog[s.cursor]).spec_is_word() {
                1int
            } else {
                0int
            }) + Instr(prog[s.cursor]).spec_len(),
        ),
        prio: if Instr(prog[s.cursor]).spec_is_word() {
            s.prio.push((s.cursor + 1) as usize)
        } else {
            s.prio
        },
        cursor: s.cursor + entry_size(Instr(prog[s.cursor])),
    }) =~= s1);
    assert(s1.control.last() == c);
    assert(s1.control.len() > 0);
    if c.spec_is_word() {
        assert(ws[0] == pre1);
        assert(valid_utf8(pre1));
        assert(descend(prog, s) == (Outcome::Word(pre1), s1));
        if !c.spec_has_children() {
            assert(ws =~= seq![pre1]);
            assert(te == fstart);
            assert(run(prog, s1, (n - 1) as nat) =~= words_outcomes(ws.skip(1)));
            assert(steps(prog, s1, (n - 1) as nat) == s1);
            assert(after_tree(prog, i, s) =~= s1);
            lemma_pop_after_tree(prog, i, s);
            assert(backtrack(s1) == unwind(s1));
        } else {
            assert(forest_end(prog, fstart) == te);
            let wsf = forest_words(prog, fstart, pre1);
            assert(ws =~= seq![pre1] + wsf);
            assert forall|k: int| 0 <= k < wsf.len() implies valid_utf8(#[trigger] wsf[k]) by {
                assert(wsf[k] == ws[k + 1]);
            }
            lemma_forest_run(prog, s1, fstart);
            let nf = wsf.len();
            assert(backtrack(s1) == (false, s1));
            assert(advance(prog, s1) == descend(prog, s1));
            assert(descend(prog, s1).0 == Outcome::Word(wsf[0]));
            assert(run(prog, s1, (n - 1) as nat) =~= words_outcomes(ws.skip(1))) by {
                assert(run(prog, s1, nf as nat) == seq![advance(prog, s1).0] + run(
                    prog,
                    advance(prog, s1).1,
                    (nf - 1) as nat,
                ));
                assert(run(prog, descend(prog, s1).1, (nf - 1) as nat) == words_outcomes(
                    wsf.skip(1),
                ));
                assert(ws.skip(1) =~= wsf);
            }
            assert(steps(prog, s1, (n - 1) as nat) == steps(
                prog,
                descend(prog, s1).1,
                (nf - 1) as nat,
            ));
            assert(after_tree(prog, i, s) =~= (State {
                control: s1.control,
                prefix: s1.prefix,
                prio: s1.prio,
                cursor: te,
            }));
        }
    } else {
        assert(c.spec_has_children());
        assert(forest_end(prog, fstart) == te);
        assert(ws =~= forest_words(prog, fstart, pre1));
        lemma_forest_run(prog, s1, fstart);
        assert(descend(prog, s) == descend(prog, s1));
        assert(after_tree(prog, i, s) =~= (State {
            control: s1.control,
            prefix: s1.prefix,
            prio: s1.prio,
            cursor: te,
        }));
    }
}

/// Running the engine across one sibling chain: the words of its trees come
/// out in order, and the backtrack of the call after the last word unwinds
/// from the caller's own stacks, with the whole chain's bytes consumed.
pub proof fn lemma_forest_run(prog: Seq<u8>, s: State, i: int)
    requires
        state_wf(s, prog),
        s.cursor == i,
        forest_end(prog, i) >= 0,
        forall|k: int|
            0 <= k < forest_words(prog, i, s.prefix).len() ==> valid_utf8(
                #[trigger] forest_words(prog, i, s.prefix)[k],
            ),
    ensures
        ({
            let ws = forest_words(prog, i, s.prefix);
            let n = ws.len();
            &&& n >= 1
            &&& descend(prog, s).0 == Outcome::Word(ws[0])
            &&& run(prog, descend(prog, s).1, (n - 1) as nat) == words_outcomes(ws.skip(1))
            &&& backtrack(steps(prog, descend(prog, s).1, (n - 1) as nat)) == unwind(
                State { control: s.control, prefix: s.prefix, prio: s.prio, cursor: forest_end(prog, i) },
            )
        }),
    decreases prog.len() - i, 1int,
{
    let c = node_at(prog, i);
    let e = tree_end(prog, i);
    let fe = forest_end(prog, i);
    assert(e >= 0);
    lemma_tree_end_bounds(prog, i);
    let ws = forest_words(prog, i, s.prefix);
    let n = ws.len();
    let wst = tree_words(prog, i, s.prefix);
    let nt = wst.len();
    assert forall|k: int| 0 <= k < wst.len() implies valid_utf8(#[trigger] wst[k]) by {
        assert(wst[k] == ws[k]);
    }
    lemma_tree_run(prog, s, i);
    let s1 = descend(prog, s).1;
    let sft = steps(prog, s1, (nt - 1) as nat);
    lemma_pop_after_tree(prog, i, s);
    assert(after_tree(prog, i, s).control.last() == c);
    assert(after_tree(prog, i, s).control.len() > 0);
    if c.spec_is_last() {
        assert(ws == wst);
        assert(fe == e);
        assert(unwind(after_tree(prog, i, s)) == unwind(
            State { control: s.control, prefix: s.prefix, prio: s.prio, cursor: e },
        ));
    } else {
        assert(i < e <= prog.len());
        assert(fe == forest_end(prog, e));
        let s_mid = State { control: s.control, prefix: s.prefix, prio: s.prio, cursor: e };
        assert(state_wf(s_mid, prog));
        let wsr = forest_words(prog, e, s.prefix);
        assert(ws =~= wst + wsr);
        let nr = wsr.len();
        assert forall|k: int| 0 <= k < wsr.len() implies valid_utf8(#[trigger] wsr[k]) by {
            assert(wsr[k] == ws[nt + k]);
        }
        lemma_forest_run(prog, s_mid, e);
        assert(unwind(after_tree(prog, i, s)) == (false, s_mid));
        assert(advance(prog, sft) == descend(prog, s_mid));
        lemma_run_append(prog, s1, (nt - 1) as nat, nr as nat);
        assert((n - 1) as nat == (nt - 1) as nat + nr as nat);
        assert(run(prog, sft, nr as nat) == seq![advance(prog, sft).0] + run(
            prog,
            advance(prog, sft).1,
            (nr - 1) as nat,
        ));
        assert(run(prog, descend(prog, s_mid).1, (nr - 1) as nat) == words_outcomes(wsr.skip(1)));
        assert(run(prog, s1, (n - 1) as nat) =~= words_outcomes(ws.skip(1))) by {
            assert(run(prog, s1, (n - 1) as nat) == run(prog, s1, (nt - 1) as nat) + run(
                prog,
                sft,
                nr as nat,
            ));
        }
        assert(steps(prog, s1, (n - 1) as nat) == steps(
            prog,
            descend(prog, s_mid).1,
            (nr - 1) as nat,
        ));
        assert(backtrack(steps(prog, s1, (n - 1) as nat)) == unwind(
            State { control: s.control, prefix: s.prefix, prio: s.prio, cursor: fe },
        ));
    }
}

/// A byte buffer is a well-formed program when it is empty or parses as one
/// forest that spans it exactly.
pub open spec fn wf_program(prog: Seq<u8>) -> bool {
    prog.len() == 0 || forest_end(prog, 0) == prog.len()
}

/// The words a well-formed program stores, in the pre-order, sibling-order
/// sequence it encodes.
pub open spec fn program_words(prog: Seq<u8>) -> Seq<Seq<u8>> {
    if prog.len() == 0 {
        Seq::empty()
    } else {
        forest_words(prog, 0, Seq::empty())
    }
}

/// Every word of the program is valid UTF-8 text.
pub open spec fn words_decodable(prog: Seq<u8>) -> bool {
    forall|k: int|
        0 <= k < program_words(prog).len() ==> valid_utf8(#[trigger] program_words(prog)[k])
}

/// Once the control stack is empty and the cursor is past the program,
/// every further call reports end-of-sequence and changes nothing.
pub proof fn lemma_end_run(prog: Seq<u8>, s: State, m: nat)
    requires
        s.control.len() == 0,
        s.cursor >= prog.len(),
    ensures
        run(prog, s, m) == Seq::new(m, |k: int| Outcome::End),
        steps(prog, s, m) == s,
    decreases m,
{
    assert(backtrack(s) == (false, s));
    assert(descend(prog, s) == (Outcome::End, s));
    if m > 0 {
        lemma_end_run(prog, s, (m - 1) as nat);
    }
    assert(run(prog, s, m) =~= Seq::new(m, |k: int| Outcome::End));
}

/// The traversal is exactly the program: from the reset state over a
/// well-formed program whose words are text, a run of `n` calls emits the
/// program's words, in the pre-order, sibling-order sequence the program
/// encodes, and reports end-of-sequence on every further call.
pub proof fn lemma_traversal_exact(prog: Seq<u8>, n: nat)
    requires
        wf_program(prog),
        words_decodable(prog),
        n >= program_words(prog).len(),
    ensures
        run(prog, init_state(), n) == words_outcomes(program_words(prog)) + Seq::new(
            (n - program_words(prog).len()) as nat,
            |k: int| Outcome::End,
        ),
{
    let ws = program_words(prog);
    let nw = ws.len();
    let s0 = init_state();
    if prog.len() == 0 {
        lemma_end_run(prog, s0, n);
        assert(run(prog, s0, n) =~= words_outcomes(ws) + Seq::new(
            (n - nw) as nat,
            |k: int| Outcome::End,
        ));
    } else {
        assert(state_wf(s0, prog));
        assert(backtrack(s0) == (false, s0));
        lemma_forest_run(prog, s0, 0);
        let s1 = descend(prog, s0).1;
        let sf = steps(prog, s1, (nw - 1) as nat);
        let se = State {
            control: Seq::empty(),
            prefix: Seq::empty(),
            prio: Seq::empty(),
            cursor: prog.len() as int,
        };
        assert(unwind(se) == (true, se));
        assert(backtrack(sf) == (true, se));
        assert(advance(prog, sf) == (Outcome::End, se));
        lemma_run_append(prog, s1, (nw - 1) as nat, (n - nw) as nat);
        lemma_end_run(prog, se, (n - nw - 1) as nat);
        if n > nw {
            assert(run(prog, sf, (n - nw) as nat) == seq![Outcome::End] + Seq::new(
                (n - nw - 1) as nat,
                |k: int| Outcome::End,
            ));
        }
        assert(run(prog, s0, n) == seq![Outcome::Word(ws[0])] + run(prog, s1, (n - 1) as nat));
        assert((n - 1) as nat == (nw - 1) as nat + (n - nw) as nat);
        assert(run(prog, s1, (n - 1) as nat) == words_outcomes(ws.skip(1)) + run(
            prog,
            sf,
            (n - nw) as nat,
        ));
        assert(run(prog, s0, n) =~= words_outcomes(ws) + Seq::new(
            (n - nw) as nat,
            |k: int| Outcome::End,
        ));
    }
}

/// How many outcomes of a run are words.
pub open spec fn count_word_outcomes(os: Seq<Outcome>) -> int
    decreases os.len(),
{
    if os.len() == 0 {
        0
    } else {
        count_word_outcomes(os.drop_last()) + (if os.last() is Word {
            1int
        } else {
            0int
        })
    }
}

/// How many nodes of a program terminate a word.
pub open spec fn program_word_nodes(prog: Seq<u8>) -> int {
    if prog.len() == 0 {
        0
    } else {
        forest_word_nodes(prog, 0)
    }
}

proof fn lemma_count_append(a: Seq<Outcome>, b: Seq<Outcome>)
    ensures
        count_word_outcomes(a + b) == count_word_outcomes(a) + count_word_outcomes(b),
    decreases b.len(),
{
    if b.len() == 0 {
        assert(a + b =~= a);
    } else {
        lemma_count_append(a, b.drop_last());
        assert((a + b).drop_last() =~= a + b.drop_last());
        assert((a + b).last() == b.last());
    }
}

proof fn lemma_count_all_words(ws: Seq<Seq<u8>>)
    ensures
        count_word_outcomes(words_outcomes(ws)) == ws.len(),
    decreases ws.len(),
{
    if ws.len() > 0 {
        lemma_count_all_words(ws.drop_last());
        assert(words_outcomes(ws).drop_last() =~= words_outcomes(ws.drop_last()));
    }
}

proof fn lemma_count_no_words(m: nat)
    ensures
        count_word_outcomes(Seq::new(m, |k: int| Outcome::End)) == 0,
    decreases m,
{
    if m > 0 {
        lemma_count_no_words((m - 1) as nat);
        assert(Seq::new(m, |k: int| Outcome::End).drop_last() =~= Seq::new(
            (m - 1) as nat,
            |k: int| Outcome::End,
        ));
    }
}

/// Over a full run, the number of calls that return a word equals the
/// number of word-terminating nodes in the program.
pub proof fn lemma_word_calls_count(prog: Seq<u8>, n: nat)
    requires
        wf_program(prog),
        words_decodable(prog),
        n >= program_words(prog).len(),
    ensures
        count_word_outcomes(run(prog, init_state(), n)) == program_word_nodes(prog),
{
    lemma_traversal_exact(prog, n);
    let ws = program_words(prog);
    let ends = Seq::new((n - ws.len()) as nat, |k: int| Outcome::End);
    lemma_count_append(words_outcomes(ws), ends);
    lemma_count_all_words(ws);
    lemma_count_no_words((n - ws.len()) as nat);
    if prog.len() > 0 {
        lemma_forest_words_count(prog, 0, Seq::empty());
    }
}

/// `a` is an initial segment of `b`.
pub open spec fn is_prefix_of(a: Seq<u8>, b: Seq<u8>) -> bool {
    a.len() <= b.len() && b.take(a.len() as int) == a
}

proof fn lemma_prefix_trans(a: Seq<u8>, b: Seq<u8>, c: Seq<u8>)
    requires
        is_prefix_of(a, b),
        is_prefix_of(b, c),
    ensures
        is_prefix_of(a, c),
{
    assert(c.take(a.len() as int) =~= a) by {
        assert(forall|j: int|
            0 <= j < a.len() ==> c[j] == b.take(b.len() as int)[j] && b[j] == a[j]);
    }
}

/// Every word of a subtree extends the prefix spelled down to and including
/// the subtree's root.
pub proof fn lemma_tree_words_extend(prog: Seq<u8>, i: int, pre: Seq<u8>)
    ensures
        forall|k: int|
            0 <= k < tree_words(prog, i, pre).len() ==> is_prefix_of(
                pre + payload_at(prog, i),
                #[trigger] tree_words(prog, i, pre)[k],
            ),
    decreases prog.len() - i, 0int,
{
    if 0 <= i < prog.len() {
        let c = node_at(prog, i);
        if c.spec_is_valid() && i + entry_size(c) <= prog.len() {
            let pre1 = pre + payload_at(prog, i);
            let ws = tree_words(prog, i, pre);
            assert(is_prefix_of(pre1, pre1)) by {
                assert(pre1.take(pre1.len() as int) =~= pre1);
            }
            if c.spec_has_children() {
                lemma_forest_words_extend(prog, i + entry_size(c), pre1);
                let wsf = forest_words(prog, i + entry_size(c), pre1);
                let own: int = if c.spec_is_word() {
                    1
                } else {
                    0
                };
                assert forall|k: int| 0 <= k < ws.len() implies is_prefix_of(
                    pre1,
                    #[trigger] ws[k],
                ) by {
                    if k >= own {
                        assert(ws[k] == wsf[k - own]);
                    }
                }
            } else {
                assert(forall|k: int| 0 <= k < ws.len() ==> #[trigger] ws[k] == pre1);
            }
        }
    }
}

/// Every word of a forest extends the prefix spelled by the forest's
/// ancestors.
pub proof fn lemma_forest_words_extend(prog: Seq<u8>, i: int, pre: Seq<u8>)
    ensures
        forall|k: int|
            0 <= k < forest_words(prog, i, pre).len() ==> is_prefix_of(
                pre,
                #[trigger] forest_words(prog, i, pre)[k],
            ),
    decreases prog.len() - i, 1int,
{
    if 0 <= i < prog.len() {
        let e = tree_end(prog, i);
        let ws = forest_words(prog, i, pre);
        let wst = tree_words(prog, i, pre);
        lemma_tree_words_extend(prog, i, pre);
        assert(is_prefix_of(pre, pre + payload_at(prog, i))) by {
            assert((pre + payload_at(prog, i)).take(pre.len() as int) =~= pre);
        }
        assert forall|k: int| 0 <= k < wst.len() implies is_prefix_of(
            pre,
            #[trigger] wst[k],
        ) by {
            lemma_prefix_trans(pre, pre + payload_at(prog, i), wst[k]);
        }
        if !node_at(prog, i).spec_is_last() && i < e <= prog.len() {
            lemma_forest_words_extend(prog, e, pre);
            let wsr = forest_words(prog, e, pre);
            assert forall|k: int| 0 <= k < ws.len() implies is_prefix_of(
                pre,
                #[trigger] ws[k],
            ) by {
                if k < wst.len() {
                    assert(ws[k] == wst[k]);
                } else {
                    assert(ws[k] == wsr[k - wst.len()]);
                }
            }
        } else {
            assert forall|k: int| 0 <= k < ws.len() implies is_prefix_of(
                pre,
                #[trigger] ws[k],
            ) by {
                assert(ws[k] == wst[k]);
            }
        }
    }
}

/// `a` is an initial segment of `b` and shorter than it.
pub open spec fn is_proper_prefix(a: Seq<u8>, b: Seq<u8>) -> bool {
    is_prefix_of(a, b) && a.len() < b.len()
}

/// No tree of the sibling chain starting at `i` has a payload that is
/// empty or begins with the byte `b`.
pub open spec fn chain_excludes(prog: Seq<u8>, i: int, b: u8) -> bool
    decreases prog.len() - i,
{
    if !(0 <= i < prog.len()) {
        true
    } else {
        let e = tree_end(prog, i);
        &&& payload_at(prog, i).len() > 0
        &&& payload_at(prog, i)[0] != b
        &&& if node_at(prog, i).spec_is_last() {
            true
        } else if e <= i || e > prog.len() {
            true
        } else {
            chain_excludes(prog, e, b)
        }
    }
}

/// The subtree rooted at `i` is shaped as a trie: at every level below it,
/// sibling edges carry non-empty labels with pairwise distinct first bytes.
pub open spec fn tree_trie_shaped(prog: Seq<u8>, i: int) -> bool
    decreases prog.len() - i, 0int,
{
    if !(0 <= i < prog.len()) {
        true
    } else {
        let c = node_at(prog, i);
        if !c.spec_is_valid() || i + entry_size(c) > prog.len() {
            true
        } else if c.spec_has_children() {
            forest_trie_shaped(prog, i + entry_size(c))
        } else {
            true
        }
    }
}

/// The sibling chain starting at `i` is shaped as a trie: its trees carry
/// non-empty labels with pairwise distinct first bytes, and so do all the
/// levels below them.
pub open spec fn forest_trie_shaped(prog: Seq<u8>, i: int) -> bool
    decreases prog.len() - i, 1int,
{
    if !(0 <= i < prog.len()) {
        true
    } else {
        let e = tree_end(prog, i);
        &&& tree_trie_shaped(prog, i)
        &&& payload_at(prog, i).len() > 0
        &&& if node_at(prog, i).spec_is_last() {
            true
        } else if e <= i || e > prog.len() {
            true
        } else {
            chain_excludes(prog, e, payload_at(prog, i)[0]) && forest_trie_shaped(prog, e)
        }
    }
}

/// A whole program shaped as a trie. The top-level sibling chain and every
/// deeper one carry non-empty edge labels with distinct first bytes, so no
/// word of one subtree can be a prefix of a word of a sibling subtree.
pub open spec fn trie_shaped(prog: Seq<u8>) -> bool {
    prog.len() == 0 || forest_trie_shaped(prog, 0)
}

/// Every word of a sibling chain whose labels exclude the byte `b` is
/// longer than the ancestors' prefix and continues with a byte other than
/// `b`.
proof fn lemma_chain_words_exclude(prog: Seq<u8>, i: int, pre: Seq<u8>, b: u8)
    requires
        chain_excludes(prog, i, b),
    ensures
        forall|k: int|
            0 <= k < forest_words(prog, i, pre).len() ==> (#[trigger] forest_words(
                prog,
                i,
                pre,
            )[k]).len() > pre.len() && forest_words(prog, i, pre)[k][pre.len() as int] != b,
    decreases prog.len() - i,
{
    if 0 <= i < prog.len() {
        let e = tree_end(prog, i);
        let ws = forest_words(prog, i, pre);
        let wst = tree_words(prog, i, pre);
        let pre1 = pre + payload_at(prog, i);
        lemma_tree_words_extend(prog, i, pre);
        assert forall|k: int| 0 <= k < wst.len() implies (#[trigger] wst[k]).len() > pre.len()
            && wst[k][pre.len() as int] != b by {
            assert(is_prefix_of(pre1, wst[k]));
            assert(wst[k][pre.len() as int] == wst[k].take(pre1.len() as int)[pre.len() as int]);
            assert(pre1[pre.len() as int] == payload_at(prog, i)[0]);
        }
        if !node_at(prog, i).spec_is_last() && i < e <= prog.len() {
            lemma_chain_words_exclude(prog, e, pre, b);
            let wsr = forest_words(prog, e, pre);
            assert forall|k: int| 0 <= k < ws.len() implies (#[trigger] ws[k]).len() > pre.len()
                && ws[k][pre.len() as int] != b by {
                if k < wst.len() {
                    assert(ws[k] == wst[k]);
                } else {
                    assert(ws[k] == wsr[k - wst.len()]);
                }
            }
        } else {
            assert forall|k: int| 0 <= k < ws.len() implies (#[trigger] ws[k]).len() > pre.len()
                && ws[k][pre.len() as int] != b by {
                assert(ws[k] == wst[k]);
            }
        }
    }
}

/// Within one trie-shaped subtree, a stored word that is a proper prefix
/// of another stands earlier in the subtree's word sequence.
proof fn lemma_tree_words_prefix_order(prog: Seq<u8>, i: int, pre: Seq<u8>)
    requires
        tree_trie_shaped(prog, i),
    ensures
        forall|j: int, k: int|
            0 <= j < tree_words(prog, i, pre).len() && 0 <= k < tree_words(prog, i, pre).len()
                && is_proper_prefix(
                #[trigger] tree_words(prog, i, pre)[k],
                #[trigger] tree_words(prog, i, pre)[j],
            ) ==> k < j,
    decreases prog.len() - i, 0int,
{
    if 0 <= i < prog.len() {
        let c = node_at(prog, i);
        if c.spec_is_valid() && i + entry_size(c) <= prog.len() {
            let pre1 = pre + payload_at(prog, i);
            let ws = tree_words(prog, i, pre);
            if c.spec_has_children() {
                let wsf = forest_words(prog, i + entry_size(c), pre1);
                lemma_forest_words_prefix_order(prog, i + entry_size(c), pre1);
                lemma_forest_words_extend(prog, i + entry_size(c), pre1);
                let own: int = if c.spec_is_word() {
                    1
                } else {
                    0
                };
                assert forall|j: int, k: int|
                    0 <= j < ws.len() && 0 <= k < ws.len() && is_proper_prefix(
                        #[trigger] ws[k],
                        #[trigger] ws[j],
                    ) implies k < j by {
                    if k >= own && j >= own {
                        assert(ws[k] == wsf[k - own]);
                        assert(ws[j] == wsf[j - own]);
                    } else if k >= own && j < own {
                        // A word of the children extends the root's word, so
                        // it cannot be strictly shorter than it.
                        assert(ws[j] == pre1);
                        assert(ws[k] == wsf[k - own]);
                        assert(is_prefix_of(pre1, ws[k]));
                    }
                }
            }
        }
    }
}

/// Within one trie-shaped sibling chain, a stored word that is a proper
/// prefix of another stands earlier in the chain's word sequence.
proof fn lemma_forest_words_prefix_order(prog: Seq<u8>, i: int, pre: Seq<u8>)
    requires
        forest_trie_shaped(prog, i),
    ensures
        forall|j: int, k: int|
            0 <= j < forest_words(prog, i, pre).len() && 0 <= k < forest_words(prog, i, pre).len()
                && is_proper_prefix(
                #[trigger] forest_words(prog, i, pre)[k],
                #[trigger] forest_words(prog, i, pre)[j],
            ) ==> k < j,
    decreases prog.len() - i, 1int,
{
    if 0 <= i < prog.len() {
        let e = tree_end(prog, i);
        let ws = forest_words(prog, i, pre);
        let wst = tree_words(prog, i, pre);
        let pre1 = pre + payload_at(prog, i);
        lemma_tree_words_prefix_order(prog, i, pre);
        lemma_tree_words_extend(prog, i, pre);
        if !node_at(prog, i).spec_is_last() && i < e <= prog.len() {
            let wsr = forest_words(prog, e, pre);
            lemma_forest_words_prefix_order(prog, e, pre);
            lemma_chain_words_exclude(prog, e, pre, payload_at(prog, i)[0]);
            assert forall|j: int, k: int|
                0 <= j < ws.len() && 0 <= k < ws.len() && is_proper_prefix(
                    #[trigger] ws[k],
                    #[trigger] ws[j],
                ) implies k < j by {
                if k < wst.len() && j < wst.len() {
                    assert(ws[k] == wst[k]);
                    assert(ws[j] == wst[j]);
                } else if k >= wst.len() && j >= wst.len() {
                    assert(ws[k] == wsr[k - wst.len()]);
                    assert(ws[j] == wsr[j - wst.len()]);
                } else if k >= wst.len() && j < wst.len() {
                    // A word of a later sibling cannot prefix a word of this
                    // tree: this tree's words continue the shared prefix with
                    // the tree's own first label byte, which the later
                    // siblings' labels exclude.
                    let wk = wsr[k - wst.len()];
                    let wj = wst[j];
                    assert(ws[k] == wk);
                    assert(ws[j] == wj);
                    assert(wk.len() > pre.len() && wk[pre.len() as int] != payload_at(prog, i)[0]);
                    assert(is_prefix_of(pre1, wj));
                    assert(wj[pre.len() as int] == wj.take(pre1.len() as int)[pre.len() as int]);
                    assert(wj[pre.len() as int] == payload_at(prog, i)[0]);
                    assert(wj.take(wk.len() as int)[pre.len() as int] == wj[pre.len() as int]);
                }
            }
        } else {
            assert forall|j: int, k: int|
                0 <= j < ws.len() && 0 <= k < ws.len() && is_proper_prefix(
                    #[trigger] ws[k],
                    #[trigger] ws[j],
                ) implies k < j by {
                assert(ws[k] == wst[k]);
                assert(ws[j] == wst[j]);
            }
        }
    }
}

/// In a program shaped as a trie, every stored word that is a proper
/// prefix of an emitted word stands earlier in the emitted sequence:
/// pre-order emits ancestors before the descendants they prefix, and the
/// trie shape rules prefixes out anywhere else.
pub proof fn lemma_prefix_words_precede(prog: Seq<u8>)
    requires
        trie_shaped(prog),
    ensures
        forall|j: int, k: int|
            0 <= j < program_words(prog).len() && 0 <= k < program_words(prog).len()
                && is_proper_prefix(
                #[trigger] program_words(prog)[k],
                #[trigger] program_words(prog)[j],
            ) ==> k < j,
{
    if prog.len() > 0 {
        lemma_forest_words_prefix_order(prog, 0, Seq::empty());
    }
}

/// When a subtree's root terminates a word, that word is the first one the
/// subtree emits, and every other word of the subtree extends it: in the
/// pre-order word sequence, the word of an ancestor node stands before the
/// words of its descendants, which it prefixes.
pub proof fn lemma_ancestor_word_first(prog: Seq<u8>, i: int, pre: Seq<u8>)
    requires
        tree_end(prog, i) >= 0,
        node_at(prog, i).spec_is_word(),
    ensures
        ({
            let ws = tree_words(prog, i, pre);
            &&& ws.len() >= 1
            &&& ws[0] == pre + payload_at(prog, i)
            &&& forall|k: int| 0 <= k < ws.len() ==> is_prefix_of(ws[0], #[trigger] ws[k])
        }),
{
    lemma_tree_end_bounds(prog, i);
    lemma_tree_words_nonempty(prog, i, pre);
    lemma_tree_words_extend(prog, i, pre);
}

} // verus!
