//! Questions about the block graph of a script: which references are sound,
//! what can be reached, how many edges lead to a block.
//!
//! None of these functions changes the script.

use crate::event::block::{Block, BlockId, BlockView};
use crate::event::command::{Command, Terminator};
use crate::event::script::{
    spec_block_consistent, spec_command_consistent, spec_consistent,
    spec_terminator_consistent, Script,
};
use vstd::prelude::*;

verus! {

/// Whether the command refers to the block with index `to`.
pub open spec fn spec_command_targets(c: Command<BlockId>, to: int) -> bool {
    match c {
        Command::Call(id) => id.index == to,
        Command::Msg(id) => id.index == to,
        _ => false,
    }
}

/// Whether control can pass from the terminator to the block with index `to`.
pub open spec fn spec_terminator_targets(t: Terminator<BlockId>, to: int) -> bool {
    match t {
        Terminator::Fallthrough(id) => id.index == to,
        Terminator::Jump(id) => id.index == to,
        Terminator::Branch { condition, if_true, if_false } => if_true.index == to
            || if_false.index == to,
        Terminator::Return => false,
        Terminator::End => false,
    }
}

/// Whether the block with index `from` refers to the block with index `to`,
/// through its terminator or through one of its commands.
pub open spec fn spec_edge(s: Seq<BlockView>, from: int, to: int) -> bool {
    &&& 0 <= from < s.len()
    &&& match s[from] {
        BlockView::Code { commands, terminator } => {
            ||| spec_terminator_targets(terminator, to)
            ||| exists|k: int|
                0 <= k < commands.len() && spec_command_targets(#[trigger] commands[k], to)
        },
        BlockView::Data { bytes } => false,
    }
}

/// Whether each step of `path` follows an edge of `s`.
pub open spec fn spec_path(s: Seq<BlockView>, path: Seq<int>) -> bool {
    &&& path.len() > 0
    &&& forall|i: int| 0 <= i < path.len() - 1 ==> spec_edge(s, #[trigger] path[i], path[i + 1])
}

/// Whether the block with index `to` can be reached from one of `roots`
/// along edges of `s`. Every root reaches itself.
pub open spec fn spec_reachable(s: Seq<BlockView>, roots: Set<int>, to: int) -> bool {
    exists|path: Seq<int>| #[trigger]
        spec_path(s, path) && roots.contains(path[0]) && path.last() == to
}

/// The indices of the blocks that a sequence of identifiers names.
pub open spec fn spec_roots(entries: Seq<BlockId>) -> Set<int> {
    Set::new(|i: int| exists|k: int| 0 <= k < entries.len() && (#[trigger] entries[k]).index == i)
}

/// How many entries of `seen` are `false`.
pub open spec fn spec_unseen(seen: Seq<bool>) -> nat
    decreases seen.len(),
{
    if seen.len() == 0 {
        0
    } else {
        spec_unseen(seen.drop_last()) + if seen.last() {
            0nat
        } else {
            1nat
        }
    }
}

/// Marking an unseen entry leaves one unseen entry fewer.
pub proof fn lemma_mark_seen(seen: Seq<bool>, i: int)
    requires
        0 <= i < seen.len(),
        !seen[i],
    ensures
        spec_unseen(seen.update(i, true)) + 1 == spec_unseen(seen),
    decreases seen.len(),
{
    let after = seen.update(i, true);
    if i == seen.len() - 1 {
        assert(after.drop_last() =~= seen.drop_last());
    } else {
        assert(after.drop_last() =~= seen.drop_last().update(i, true));
        lemma_mark_seen(seen.drop_last(), i);
    }
}

/// A root can be reached.
pub proof fn lemma_reach_root(s: Seq<BlockView>, roots: Set<int>, root: int)
    requires
        roots.contains(root),
    ensures
        spec_reachable(s, roots, root),
{
    let path = seq![root];
    assert(spec_path(s, path));
    assert(path[0] == root && path.last() == root);
}

/// What a reachable block refers to can be reached.
pub proof fn lemma_reach_step(s: Seq<BlockView>, roots: Set<int>, from: int, to: int)
    requires
        spec_reachable(s, roots, from),
        spec_edge(s, from, to),
    ensures
        spec_reachable(s, roots, to),
{
    let path = choose|path: Seq<int>| #[trigger]
        spec_path(s, path) && roots.contains(path[0]) && path.last() == from;
    let longer = path.push(to);
    assert forall|i: int| 0 <= i < longer.len() - 1 implies spec_edge(
        s,
        #[trigger] longer[i],
        longer[i + 1],
    ) by {
        if i < path.len() - 1 {
            assert(longer[i] == path[i] && longer[i + 1] == path[i + 1]);
        }
    }
    assert(spec_path(s, longer));
    assert(longer[0] == path[0] && longer.last() == to);
}

/// What can be reached from some roots can be reached from more roots.
pub proof fn lemma_reach_more_roots(s: Seq<BlockView>, few: Set<int>, many: Set<int>, to: int)
    requires
        spec_reachable(s, few, to),
        few.subset_of(many),
    ensures
        spec_reachable(s, many, to),
{
    let path = choose|path: Seq<int>| #[trigger]
        spec_path(s, path) && few.contains(path[0]) && path.last() == to;
    assert(spec_path(s, path) && many.contains(path[0]) && path.last() == to);
}

/// Whether `seen` holds, with each block it holds, every block that this
/// one refers to.
pub open spec fn spec_closed(s: Seq<BlockView>, seen: Seq<bool>) -> bool {
    forall|x: int, y: int|
        0 <= x < seen.len() && seen[x] && #[trigger] spec_edge(s, x, y) ==> 0 <= y < seen.len()
            && seen[y]
}

/// A set of blocks that holds the roots and is closed under edges holds
/// every reachable block.
pub proof fn lemma_closed_holds_reachable(
    s: Seq<BlockView>,
    roots: Set<int>,
    seen: Seq<bool>,
    to: int,
)
    requires
        spec_closed(s, seen),
        forall|r: int| roots.contains(r) ==> 0 <= r < seen.len() && seen[r],
        spec_reachable(s, roots, to),
    ensures
        0 <= to < seen.len(),
        seen[to],
{
    let path = choose|path: Seq<int>| #[trigger]
        spec_path(s, path) && roots.contains(path[0]) && path.last() == to;
    lemma_path_seen(s, seen, path, path.len() - 1);
}

/// Along a path that starts inside a closed set, every block is in the set.
proof fn lemma_path_seen(s: Seq<BlockView>, seen: Seq<bool>, path: Seq<int>, upto: int)
    requires
        spec_closed(s, seen),
        spec_path(s, path),
        0 <= path[0] < seen.len(),
        seen[path[0]],
        0 <= upto < path.len(),
    ensures
        0 <= path[upto] < seen.len(),
        seen[path[upto]],
    decreases upto,
{
    if upto > 0 {
        lemma_path_seen(s, seen, path, upto - 1);
        assert(spec_edge(s, path[upto - 1], path[upto - 1 + 1]));
    }
}

/// Whether `y` is one of the indices on `stack`.
pub open spec fn spec_on_stack(stack: Seq<usize>, y: int) -> bool {
    exists|j: int| 0 <= j < stack.len() && #[trigger] stack[j] == y
}

/// Whether the part of `order` from `from` on holds each index at most once.
pub open spec fn spec_distinct_from(order: Seq<usize>, from: int) -> bool {
    forall|j: int, k: int|
        from <= j < k < order.len() ==> #[trigger] order[j] != #[trigger] order[k]
}

/// Checks that every reference in the script leads to a block of the script
/// and to one of the right kind: jumps and calls to code, messages to data.
pub fn is_consistent(script: &Script) -> (r: bool)
    ensures
        r == spec_consistent(script@),
{
    let n = script.blocks.len();
    let mut i: usize = 0;
    while i < n
        invariant
            n == script@.len(),
            i <= n,
            forall|j: int| 0 <= j < i ==> spec_block_consistent(script@, #[trigger] script@[j]),
        decreases n - i,
    {
        match &script.blocks[i] {
            Block::Data(_) => {},
            Block::Code(code) => {
                let mut k: usize = 0;
                while k < code.commands.len()
                    invariant
                        n == script@.len(),
                        i < n,
                        script@[i as int] == code@,
                        k <= code.commands@.len(),
                        forall|j: int|
                            0 <= j < k ==> spec_command_consistent(
                                script@,
                                #[trigger] code.commands@[j],
                            ),
                    decreases code.commands@.len() - k,
                {
                    let ok = match &code.commands[k] {
                        Command::Call(id) => id.index < n && script.blocks[id.index].is_code(),
                        Command::Msg(id) => id.index < n && !script.blocks[id.index].is_code(),
                        _ => true,
                    };
                    if !ok {
                        proof {
                            let commands = script@[i as int]->commands;
                            assert(commands == code.commands@);
                            assert(!spec_command_consistent(script@, commands[k as int]));
                        }
                        return false;
                    }
                    k += 1;
                }
                let ok = match &code.terminator {
                    Terminator::Fallthrough(id) => id.index < n && script.blocks[id.index].is_code(),
                    Terminator::Jump(id) => id.index < n && script.blocks[id.index].is_code(),
                    Terminator::Branch { condition, if_true, if_false } => if_true.index < n
                        && script.blocks[if_true.index].is_code() && if_false.index < n
                        && script.blocks[if_false.index].is_code(),
                    Terminator::Return => true,
                    Terminator::End => true,
                };
                if !ok {
                    assert(!spec_terminator_consistent(script@, code.terminator));
                    assert(!spec_block_consistent(script@, script@[i as int]));
                    return false;
                }
            },
        }
        i += 1;
    }
    true
}

/// The blocks that the commands from place `k` on refer to, those of the
/// last command first: the order in which a walk puts them aside.
pub open spec fn spec_set_aside(commands: Seq<Command<BlockId>>, k: int) -> Seq<usize>
    decreases commands.len() - k,
{
    if k < 0 || k >= commands.len() {
        Seq::empty()
    } else {
        spec_set_aside(commands, k + 1) + match commands[k] {
            Command::Call(id) => seq![id.index],
            Command::Msg(id) => seq![id.index],
            _ => Seq::empty(),
        }
    }
}

/// The blocks that a walk puts aside when it meets `block` for the first
/// time. It goes on with the last of them and comes back to the others
/// later, so it visits first where the terminator leads, a branch's first
/// target before its second, and then what the commands refer to, in their
/// order.
pub open spec fn spec_put_aside(block: BlockView) -> Seq<usize> {
    match block {
        BlockView::Code { commands, terminator } => spec_set_aside(commands, 0) + match terminator {
            Terminator::Fallthrough(id) => seq![id.index],
            Terminator::Jump(id) => seq![id.index],
            Terminator::Branch { condition, if_true, if_false } => seq![if_false.index, if_true.index],
            Terminator::Return => Seq::empty(),
            Terminator::End => Seq::empty(),
        },
        BlockView::Data { bytes } => Seq::empty(),
    }
}

/// The blocks in the order in which a depth-first walk meets them for the
/// first time. `seen` holds the blocks that were met before, and `aside`
/// the blocks that are still to visit, the next one last. A block that was
/// met before is passed over; any other is met now, and what it refers to
/// is visited before the blocks that were put aside earlier.
#[verifier::opaque]
pub open spec fn spec_discovery(s: Seq<BlockView>, seen: Seq<bool>, aside: Seq<usize>) -> Seq<usize>
    decreases spec_unseen(seen), aside.len(),
    when seen.len() == s.len() && forall|j: int| 0 <= j < aside.len() ==> aside[j] < s.len()
    via spec_discovery_ends
{
    if aside.len() == 0 {
        Seq::empty()
    } else {
        let x = aside.last();
        let rest = aside.drop_last();
        if seen[x as int] {
            spec_discovery(s, seen, rest)
        } else {
            seq![x] + spec_discovery(s, seen.update(x as int, true), rest + spec_put_aside(s[x as int]))
        }
    }
}

#[via_fn]
proof fn spec_discovery_ends(s: Seq<BlockView>, seen: Seq<bool>, aside: Seq<usize>) {
    if aside.len() > 0 {
        let x = aside.last();
        if !seen[x as int] {
            lemma_mark_seen(seen, x as int);
        }
    }
}

/// Walks the graph depth-first from `root`, skipping every block that
/// `seen` already holds. Each block met for the first time is marked in
/// `seen` and appended to `order`, so `order` gains the new blocks in the
/// order of their discovery: a block, then what its terminator leads to,
/// then what its commands refer to.
pub fn walk(script: &Script, seen: &mut Vec<bool>, root: usize, order: &mut Vec<usize>)
    requires
        spec_consistent(script@),
        old(seen)@.len() == script@.len(),
        root < script@.len(),
    ensures
        final(seen)@.len() == script@.len(),
        forall|i: int| 0 <= i < script@.len() && old(seen)@[i] ==> final(seen)@[i],
        final(order)@.len() >= old(order)@.len(),
        final(order)@.subrange(0, old(order)@.len() as int) == old(order)@,
        forall|k: int|
            old(order)@.len() <= k < final(order)@.len() ==> {
                let x = #[trigger] final(order)@[k];
                &&& x < script@.len()
                &&& !old(seen)@[x as int]
                &&& final(seen)@[x as int]
                &&& spec_reachable(script@, set![root as int], x as int)
            },
        spec_distinct_from(final(order)@, old(order)@.len() as int),
        forall|i: int|
            0 <= i < script@.len() && final(seen)@[i] && !old(seen)@[i] ==> exists|k: int|
                old(order)@.len() <= k < final(order)@.len() && #[trigger] final(order)@[k] == i,
        forall|k: int, y: int|
            old(order)@.len() <= k < final(order)@.len() && #[trigger] spec_edge(
                script@,
                final(order)@[k] as int,
                y,
            ) ==> 0 <= y < script@.len() && final(seen)@[y],
        final(seen)@[root as int],
        !old(seen)@[root as int] ==> final(order)@.len() > old(order)@.len()
            && final(order)@[old(order)@.len() as int] == root,
        final(order)@ == old(order)@ + spec_discovery(script@, old(seen)@, seq![root]),
{
    let n = script.blocks.len();
    let ghost s = script@;
    let ghost roots = set![root as int];
    let ghost base = order@.len() as int;
    let mut stack: Vec<usize> = Vec::new();
    stack.push(root);
    reveal(spec_discovery);
    proof {
        lemma_reach_root(s, roots, root as int);
        assert(stack@[0] == root);
        assert(order@.subrange(0, base) =~= old(order)@);
        assert(stack@ =~= seq![root]);
    }
    while stack.len() > 0
        invariant
            n == s.len(),
            s == script@,
            spec_consistent(s),
            roots == set![root as int],
            base == old(order)@.len(),
            root < n,
            seen@.len() == n,
            old(seen)@.len() == n,
            forall|i: int| 0 <= i < n && old(seen)@[i] ==> seen@[i],
            order@.len() >= base,
            order@.subrange(0, base) == old(order)@,
            forall|j: int| 0 <= j < stack@.len() ==> #[trigger] stack@[j] < n,
            forall|j: int|
                0 <= j < stack@.len() ==> spec_reachable(s, roots, #[trigger] stack@[j] as int),
            forall|k: int|
                base <= k < order@.len() ==> {
                    let x = #[trigger] order@[k];
                    &&& x < n
                    &&& !old(seen)@[x as int]
                    &&& seen@[x as int]
                    &&& spec_reachable(s, roots, x as int)
                },
            spec_distinct_from(order@, base),
            forall|i: int|
                0 <= i < n && seen@[i] && !old(seen)@[i] ==> exists|k: int|
                    base <= k < order@.len() && #[trigger] order@[k] == i,
            forall|k: int, y: int|
                base <= k < order@.len() && #[trigger] spec_edge(s, order@[k] as int, y) ==> 0 <= y
                    < n && (seen@[y] || spec_on_stack(stack@, y)),
            seen@[root as int] || spec_on_stack(stack@, root as int),
            !old(seen)@[root as int] ==> (order@.len() > base && order@[base] == root) || (order@.len()
                == base && stack@.len() == 1 && stack@[0] == root && !seen@[root as int]),
            order@ + spec_discovery(s, seen@, stack@) == old(order)@ + spec_discovery(
                s,
                old(seen)@,
                seq![root],
            ),
        decreases spec_unseen(seen@), stack@.len(),
    {
        let ghost stack_before = stack@;
        let ghost seen_before = seen@;
        let ghost order_start = order@;
        let x = stack.pop().unwrap();
        assert(stack_before[stack_before.len() - 1] == x);
        assert(forall|y: int|
            spec_on_stack(stack_before, y) ==> y == x || spec_on_stack(stack@, y)) by {
            assert forall|y: int| spec_on_stack(stack_before, y) implies y == x || spec_on_stack(
                stack@,
                y,
            ) by {
                let j = choose|j: int| 0 <= j < stack_before.len() && #[trigger] stack_before[j] == y;
                if j < stack@.len() {
                    assert(stack@[j] == y);
                }
            }
        }
        if seen[x] {
            proof {
                reveal(spec_discovery);
                assert(stack_before.drop_last() =~= stack@);
            }
        } else {
            let ghost stack_mid = stack@;
            match &script.blocks[x] {
                Block::Data(_) => {},
                Block::Code(code) => {
                    assert(s[x as int] == code@);
                    assert(spec_block_consistent(s, s[x as int]));
                    let mut k: usize = code.commands.len();
                    while k > 0
                        invariant
                            n == s.len(),
                            x < n,
                            s[x as int] == code@,
                            spec_block_consistent(s, s[x as int]),
                            spec_reachable(s, roots, x as int),
                            k <= code.commands@.len(),
                            forall|j: int| 0 <= j < stack@.len() ==> #[trigger] stack@[j] < n,
                            forall|j: int|
                                0 <= j < stack@.len() ==> spec_reachable(
                                    s,
                                    roots,
                                    #[trigger] stack@[j] as int,
                                ),
                            forall|y: int|
                                spec_on_stack(stack_mid, y) ==> spec_on_stack(stack@, y),
                            forall|j: int, y: int|
                                k <= j < code.commands@.len() && #[trigger] spec_command_targets(
                                    code.commands@[j],
                                    y,
                                ) ==> spec_on_stack(stack@, y),
                            stack@ == stack_mid + spec_set_aside(code.commands@, k as int),
                        decreases k,
                    {
                        k -= 1;
                        let ghost before = stack@;
                        let target = match &code.commands[k] {
                            Command::Call(id) => Some(id.index),
                            Command::Msg(id) => Some(id.index),
                            _ => None,
                        };
                        proof {
                            let commands = s[x as int]->commands;
                            assert(commands == code.commands@);
                            assert(spec_command_consistent(s, commands[k as int]));
                        }
                        match target {
                            Some(t) => {
                                proof {
                                    assert(spec_command_targets(code.commands@[k as int], t as int));
                                    assert(spec_edge(s, x as int, t as int));
                                    lemma_reach_step(s, roots, x as int, t as int);
                                }
                                stack.push(t);
                                proof {
                                    lemma_pushed(before, t);
                                }
                            },
                            None => {},
                        }
                        proof {
                            assert(stack@ =~= stack_mid + spec_set_aside(code.commands@, k as int));
                        }
                    }
                    let ghost before = stack@;
                    match &code.terminator {
                        Terminator::Fallthrough(id) => {
                            proof {
                                assert(spec_edge(s, x as int, id.index as int));
                                lemma_reach_step(s, roots, x as int, id.index as int);
                                lemma_pushed(before, id.index);
                            }
                            stack.push(id.index);
                        },
                        Terminator::Jump(id) => {
                            proof {
                                assert(spec_edge(s, x as int, id.index as int));
                                lemma_reach_step(s, roots, x as int, id.index as int);
                                lemma_pushed(before, id.index);
                            }
                            stack.push(id.index);
                        },
                        Terminator::Branch { condition, if_true, if_false } => {
                            proof {
                                assert(spec_edge(s, x as int, if_true.index as int));
                                assert(spec_edge(s, x as int, if_false.index as int));
                                lemma_reach_step(s, roots, x as int, if_true.index as int);
                                lemma_reach_step(s, roots, x as int, if_false.index as int);
                                lemma_pushed(before, if_false.index);
                                lemma_pushed(before.push(if_false.index), if_true.index);
                            }
                            stack.push(if_false.index);
                            stack.push(if_true.index);
                        },
                        Terminator::Return => {},
                        Terminator::End => {},
                    }
                    proof {
                        assert(stack@ =~= stack_mid + spec_put_aside(s[x as int]));
                    }
                },
            }
            proof {
                assert(stack@ =~= stack_mid + spec_put_aside(s[x as int]));
                assert(stack_before.drop_last() =~= stack_mid);
                lemma_mark_seen(seen@, x as int);
                assert forall|y: int| #[trigger] spec_edge(s, x as int, y) implies spec_on_stack(
                    stack@,
                    y,
                ) by {
                    match s[x as int] {
                        BlockView::Code { commands, terminator } => {
                            if !spec_terminator_targets(terminator, y) {
                                let j = choose|j: int|
                                    0 <= j < commands.len() && spec_command_targets(
                                        #[trigger] commands[j],
                                        y,
                                    );
                                assert(spec_command_targets(commands[j], y));
                            }
                        },
                        BlockView::Data { bytes } => {},
                    }
                }
            }
            let ghost order_before = order@;
            seen[x] = true;
            order.push(x);
            proof {
                reveal(spec_discovery);
                assert(seen@ =~= seen_before.update(x as int, true));
                assert(order@ + spec_discovery(s, seen@, stack@) =~= order_start + spec_discovery(
                    s,
                    seen_before,
                    stack_before,
                ));
                assert(order@.subrange(0, base) =~= order_before.subrange(0, base));
                assert forall|j: int, k: int| base <= j < k < order@.len() implies #[trigger] order@[j]
                    != #[trigger] order@[k] by {
                    if k == order@.len() - 1 {
                        assert(order@[j] == order_before[j]);
                    } else {
                        assert(order@[j] == order_before[j] && order@[k] == order_before[k]);
                    }
                }
                assert forall|i: int| 0 <= i < n && seen@[i] && !old(seen)@[i] implies exists|k: int|
                    base <= k < order@.len() && #[trigger] order@[k] == i by {
                    if i == x {
                        assert(order@[order@.len() - 1] == x);
                    } else {
                        let k = choose|k: int|
                            base <= k < order_before.len() && #[trigger] order_before[k] == i;
                        assert(order@[k] == i);
                    }
                }
                assert forall|k: int, y: int|
                    base <= k < order@.len() && #[trigger] spec_edge(
                        s,
                        order@[k] as int,
                        y,
                    ) implies 0 <= y < n && (seen@[y] || spec_on_stack(stack@, y)) by {
                    if k < order_before.len() {
                        assert(order@[k] == order_before[k]);
                        assert(spec_edge(s, order_before[k] as int, y));
                    } else {
                        let j = choose|j: int| 0 <= j < stack@.len() && #[trigger] stack@[j] == y;
                    }
                }
            }
        }
    }
    proof {
        assert forall|k: int, y: int|
            base <= k < order@.len() && #[trigger] spec_edge(s, order@[k] as int, y) implies 0 <= y
            < n && seen@[y] by {
            if spec_on_stack(stack@, y) {
                let j = choose|j: int| 0 <= j < stack@.len() && #[trigger] stack@[j] == y;
            }
        }
        if spec_on_stack(stack@, root as int) {
            let j = choose|j: int| 0 <= j < stack@.len() && #[trigger] stack@[j] == root as int;
        }
    }
}

/// Finds every block that can be reached from one of `entries`. The result
/// holds one flag for each block of the script, `true` for a block that can
/// be reached. Blocks that cannot be reached are no fault: dead code is
/// allowed.
pub fn reachable(script: &Script, entries: &Vec<BlockId>) -> (seen: Vec<bool>)
    requires
        spec_consistent(script@),
        forall|k: int| 0 <= k < entries@.len() ==> (#[trigger] entries@[k]).index < script@.len(),
    ensures
        seen@.len() == script@.len(),
        forall|i: int|
            0 <= i < script@.len() ==> seen@[i] == spec_reachable(
                script@,
                spec_roots(entries@),
                i,
            ),
        forall|i: int|
            spec_reachable(script@, spec_roots(entries@), i) ==> 0 <= i < script@.len(),
{
    let n = script.blocks.len();
    let ghost s = script@;
    let ghost roots = spec_roots(entries@);
    let mut seen: Vec<bool> = Vec::new();
    let mut i: usize = 0;
    while i < n
        invariant
            i <= n,
            seen@.len() == i,
            forall|j: int| 0 <= j < i ==> !seen@[j],
        decreases n - i,
    {
        seen.push(false);
        i += 1;
    }
    let mut order: Vec<usize> = Vec::new();
    let mut k: usize = 0;
    while k < entries.len()
        invariant
            n == s.len(),
            s == script@,
            roots == spec_roots(entries@),
            spec_consistent(s),
            forall|j: int| 0 <= j < entries@.len() ==> (#[trigger] entries@[j]).index < n,
            k <= entries@.len(),
            seen@.len() == n,
            spec_closed(s, seen@),
            forall|j: int| 0 <= j < k ==> seen@[(#[trigger] entries@[j]).index as int],
            forall|x: int| 0 <= x < n && seen@[x] ==> spec_reachable(s, roots, x),
        decreases entries@.len() - k,
    {
        let root = entries[k].index;
        let ghost seen_before = seen@;
        let ghost base = order@.len();
        walk(script, &mut seen, root, &mut order);
        proof {
            assert(roots.contains(root as int));
            assert(set![root as int].subset_of(roots));
            assert forall|x: int| 0 <= x < n && seen@[x] implies spec_reachable(s, roots, x) by {
                if !seen_before[x] {
                    let j = choose|j: int| base <= j < order@.len() && #[trigger] order@[j] == x;
                    lemma_reach_more_roots(s, set![root as int], roots, x);
                }
            }
            assert forall|x: int, y: int|
                0 <= x < seen@.len() && seen@[x] && #[trigger] spec_edge(s, x, y) implies 0 <= y
                < seen@.len() && seen@[y] by {
                if !seen_before[x] {
                    let j = choose|j: int| base <= j < order@.len() && #[trigger] order@[j] == x;
                    assert(spec_edge(s, order@[j] as int, y));
                }
            }
        }
        k += 1;
    }
    proof {
        assert forall|r: int| roots.contains(r) implies 0 <= r < seen@.len() && seen@[r] by {
            let j = choose|j: int| 0 <= j < entries@.len() && (#[trigger] entries@[j]).index == r;
        }
        assert forall|x: int| spec_reachable(s, roots, x) implies 0 <= x < n && seen@[x] by {
            lemma_closed_holds_reachable(s, roots, seen@, x);
        }
    }
    seen
}

/// Lists the blocks that cannot be reached from any of `entries`, in the
/// order of their identifiers.
pub fn unreachable_blocks(script: &Script, entries: &Vec<BlockId>) -> (dead: Vec<BlockId>)
    requires
        spec_consistent(script@),
        forall|k: int| 0 <= k < entries@.len() ==> (#[trigger] entries@[k]).index < script@.len(),
    ensures
        forall|k: int|
            0 <= k < dead@.len() ==> (#[trigger] dead@[k]).index < script@.len()
                && !spec_reachable(script@, spec_roots(entries@), dead@[k].index as int),
        forall|j: int, k: int|
            0 <= j < k < dead@.len() ==> (#[trigger] dead@[j]).index < (#[trigger] dead@[k]).index,
        forall|i: int|
            0 <= i < script@.len() && !spec_reachable(script@, spec_roots(entries@), i)
                ==> exists|k: int| 0 <= k < dead@.len() && (#[trigger] dead@[k]).index == i,
{
    let seen = reachable(script, entries);
    let mut dead: Vec<BlockId> = Vec::new();
    let mut i: usize = 0;
    while i < seen.len()
        invariant
            i <= seen@.len(),
            seen@.len() == script@.len(),
            forall|x: int|
                0 <= x < script@.len() ==> seen@[x] == spec_reachable(
                    script@,
                    spec_roots(entries@),
                    x,
                ),
            forall|k: int|
                0 <= k < dead@.len()
                    ==> (#[trigger] dead@[k]).index < i && !seen@[dead@[k].index as int],
            forall|j: int, k: int|
                0 <= j < k < dead@.len() ==> (#[trigger] dead@[j]).index
                    < (#[trigger] dead@[k]).index,
            forall|x: int|
                0 <= x < i && !seen@[x] ==> exists|k: int|
                    0 <= k < dead@.len() && (#[trigger] dead@[k]).index == x,
        decreases seen@.len() - i,
    {
        if !seen[i] {
            let ghost before = dead@;
            dead.push(BlockId { index: i });
            proof {
                assert forall|x: int| 0 <= x < i + 1 && !seen@[x] implies exists|k: int|
                    0 <= k < dead@.len() && (#[trigger] dead@[k]).index == x by {
                    if x == i {
                        assert(dead@[dead@.len() - 1].index == i);
                    } else {
                        let k = choose|k: int|
                            0 <= k < before.len() && (#[trigger] before[k]).index == x;
                        assert(dead@[k].index == x);
                    }
                }
            }
        }
        i += 1;
    }
    proof {
        assert forall|x: int|
            0 <= x < script@.len() && !spec_reachable(
                script@,
                spec_roots(entries@),
                x,
            ) implies exists|k: int| 0 <= k < dead@.len() && (#[trigger] dead@[k]).index == x by {
            assert(!seen@[x]);
        }
    }
    dead
}

/// How often the terminator names the block with index `to`.
pub open spec fn spec_terminator_count(t: Terminator<BlockId>, to: int) -> nat {
    match t {
        Terminator::Fallthrough(id) => if id.index == to {
            1
        } else {
            0
        },
        Terminator::Jump(id) => if id.index == to {
            1
        } else {
            0
        },
        Terminator::Branch { condition, if_true, if_false } => (if if_true.index == to {
            1nat
        } else {
            0nat
        }) + (if if_false.index == to {
            1nat
        } else {
            0nat
        }),
        Terminator::Return => 0,
        Terminator::End => 0,
    }
}

/// How many of the commands refer to the block with index `to`.
pub open spec fn spec_commands_count(commands: Seq<Command<BlockId>>, to: int) -> nat
    decreases commands.len(),
{
    if commands.len() == 0 {
        0
    } else {
        spec_commands_count(commands.drop_last(), to) + if spec_command_targets(
            commands.last(),
            to,
        ) {
            1nat
        } else {
            0nat
        }
    }
}

/// How many references of one block lead to the block with index `to`.
pub open spec fn spec_block_count(block: BlockView, to: int) -> nat {
    match block {
        BlockView::Code { commands, terminator } => spec_commands_count(commands, to)
            + spec_terminator_count(terminator, to),
        BlockView::Data { bytes } => 0,
    }
}

/// How many references of the first `upto` blocks lead to the block with
/// index `to`.
pub open spec fn spec_incoming_upto(s: Seq<BlockView>, upto: int, to: int) -> nat
    decreases upto,
{
    if upto <= 0 {
        0
    } else {
        spec_incoming_upto(s, upto - 1, to) + spec_block_count(s[upto - 1], to)
    }
}

/// How many references in the whole script lead to the block with index
/// `to`: its incoming edges.
pub open spec fn spec_incoming(s: Seq<BlockView>, to: int) -> nat {
    spec_incoming_upto(s, s.len() as int, to)
}

/// A count as far as a machine word can hold it.
pub open spec fn spec_clip(count: nat) -> usize {
    if count >= usize::MAX {
        usize::MAX
    } else {
        count as usize
    }
}

/// Adds one to the count that `counts` holds for `to`, stopping at the
/// largest value.
fn bump(counts: &mut Vec<usize>, to: usize, Ghost(exact): Ghost<Seq<nat>>)
    requires
        to < old(counts)@.len(),
        exact.len() == old(counts)@.len(),
        forall|b: int| 0 <= b < exact.len() ==> old(counts)@[b] == spec_clip(#[trigger] exact[b]),
    ensures
        final(counts)@.len() == old(counts)@.len(),
        forall|b: int|
            0 <= b < exact.len() ==> final(counts)@[b] == spec_clip(
                if b == to {
                    #[trigger] exact[b] + 1
                } else {
                    exact[b]
                },
            ),
{
    let now = counts[to];
    if now < usize::MAX {
        counts[to] = now + 1;
    }
}

/// Counts, for each block, the references that lead to it from anywhere in
/// the script: from terminators and from commands. A block with more than
/// one incoming edge cannot be reached by falling through alone.
pub fn incoming_counts(script: &Script) -> (counts: Vec<usize>)
    requires
        spec_consistent(script@),
    ensures
        counts@.len() == script@.len(),
        forall|b: int|
            0 <= b < script@.len() ==> #[trigger] counts@[b] == spec_clip(
                spec_incoming(script@, b),
            ),
{
    let n = script.blocks.len();
    let ghost s = script@;
    let mut counts: Vec<usize> = Vec::new();
    let mut i: usize = 0;
    while i < n
        invariant
            i <= n,
            counts@.len() == i,
            forall|j: int| 0 <= j < i ==> counts@[j] == 0,
        decreases n - i,
    {
        counts.push(0);
        i += 1;
    }
    let mut i: usize = 0;
    while i < n
        invariant
            n == s.len(),
            s == script@,
            spec_consistent(s),
            i <= n,
            counts@.len() == n,
            forall|b: int|
                0 <= b < n ==> #[trigger] counts@[b] == spec_clip(spec_incoming_upto(s, i as int, b)),
        decreases n - i,
    {
        match &script.blocks[i] {
            Block::Data(_) => {},
            Block::Code(code) => {
                assert(s[i as int] == code@);
                assert(spec_block_consistent(s, s[i as int]));
                let mut k: usize = 0;
                assert(code.commands@.subrange(0, 0) =~= Seq::<Command<BlockId>>::empty());
                while k < code.commands.len()
                    invariant
                        n == s.len(),
                        i < n,
                        s[i as int] == code@,
                        spec_block_consistent(s, s[i as int]),
                        k <= code.commands@.len(),
                        counts@.len() == n,
                        forall|b: int|
                            0 <= b < n ==> #[trigger] counts@[b] == spec_clip(
                                spec_incoming_upto(s, i as int, b) + spec_commands_count(
                                    code.commands@.subrange(0, k as int),
                                    b,
                                ),
                            ),
                    decreases code.commands@.len() - k,
                {
                    let ghost done = code.commands@.subrange(0, k as int);
                    let ghost next = code.commands@.subrange(0, k + 1);
                    proof {
                        let commands = s[i as int]->commands;
                        assert(commands == code.commands@);
                        assert(spec_command_consistent(s, commands[k as int]));
                        assert(next.drop_last() =~= done);
                        assert(next.last() == code.commands@[k as int]);
                    }
                    let ghost exact = Seq::new(
                        n as nat,
                        |b: int| spec_incoming_upto(s, i as int, b) + spec_commands_count(done, b),
                    );
                    match &code.commands[k] {
                        Command::Call(id) => {
                            bump(&mut counts, id.index, Ghost(exact));
                        },
                        Command::Msg(id) => {
                            bump(&mut counts, id.index, Ghost(exact));
                        },
                        _ => {},
                    }
                    proof {
                        assert forall|b: int| 0 <= b < n implies #[trigger] counts@[b] == spec_clip(
                            spec_incoming_upto(s, i as int, b) + spec_commands_count(next, b),
                        ) by {
                            let e = exact[b];
                            assert(spec_commands_count(next, b) == spec_commands_count(done, b)
                                + if spec_command_targets(next.last(), b) {
                                1nat
                            } else {
                                0nat
                            });
                        }
                    }
                    k += 1;
                }
                assert(code.commands@.subrange(0, k as int) =~= code.commands@);
                let ghost exact = Seq::new(
                    n as nat,
                    |b: int| spec_incoming_upto(s, i as int, b) + spec_commands_count(
                            code.commands@,
                            b,
                        ),
                );
                match &code.terminator {
                    Terminator::Fallthrough(id) => {
                        bump(&mut counts, id.index, Ghost(exact));
                    },
                    Terminator::Jump(id) => {
                        bump(&mut counts, id.index, Ghost(exact));
                    },
                    Terminator::Branch { condition, if_true, if_false } => {
                        bump(&mut counts, if_true.index, Ghost(exact));
                        let ghost exact2 = Seq::new(
                            n as nat,
                            |b: int|
                                exact[b] + if b == if_true.index {
                                    1nat
                                } else {
                                    0nat
                                },
                        );
                        proof {
                            assert forall|b: int| 0 <= b < n implies counts@[b] == spec_clip(
                                #[trigger] exact2[b],
                            ) by {
                                let e = exact[b];
                            }
                        }
                        bump(&mut counts, if_false.index, Ghost(exact2));
                        proof {
                            assert forall|b: int| 0 <= b < n implies #[trigger] counts@[b]
                                == spec_clip(
                                exact[b] + spec_terminator_count(code.terminator, b),
                            ) by {
                                let e = exact2[b];
                            }
                        }
                    },
                    Terminator::Return => {},
                    Terminator::End => {},
                }
                proof {
                    assert forall|b: int| 0 <= b < n implies #[trigger] counts@[b] == spec_clip(
                        spec_incoming_upto(s, i + 1, b),
                    ) by {
                        let e = exact[b];
                        assert(spec_block_count(s[i as int], b) == spec_commands_count(
                            code.commands@,
                            b,
                        ) + spec_terminator_count(code.terminator, b));
                    }
                }
            },
        }
        proof {
            assert forall|b: int| 0 <= b < n implies #[trigger] counts@[b] == spec_clip(
                spec_incoming_upto(s, i + 1, b),
            ) by {
                assert(spec_incoming_upto(s, i + 1, b) == spec_incoming_upto(s, i as int, b)
                    + spec_block_count(s[i as int], b));
            }
        }
        i += 1;
    }
    counts
}

/// Whether the script holds a loop that can be reached: a way of at least
/// one step that leads from a reachable block back to the same block.
pub open spec fn spec_has_cycle(s: Seq<BlockView>, roots: Set<int>) -> bool {
    exists|path: Seq<int>| #[trigger]
        spec_path(s, path) && path.len() >= 2 && path[0] == path.last() && spec_reachable(
            s,
            roots,
            path[0],
        )
}

/// Whether every block that a settled block refers to is settled too, and
/// was settled earlier.
pub open spec fn spec_ranked(s: Seq<BlockView>, settled: Seq<bool>, rank: Seq<nat>) -> bool {
    forall|x: int, y: int|
        0 <= x < settled.len() && settled[x] && #[trigger] spec_edge(s, x, y) ==> 0 <= y
            < settled.len() && settled[y] && rank[y] < rank[x]
}

/// Whether every block of `inside` refers to a block of `inside`.
#[verifier::opaque]
pub open spec fn spec_trapped(s: Seq<BlockView>, inside: Seq<bool>) -> bool {
    forall|u: int|
        0 <= u < inside.len() && #[trigger] inside[u] ==> exists|v: int|
            0 <= v < inside.len() && inside[v] && #[trigger] spec_edge(s, u, v)
}

/// The block reached after `k` steps from `start` inside a set in which
/// every block refers to a block of the set.
pub open spec fn spec_stroll(s: Seq<BlockView>, inside: Seq<bool>, start: int, k: nat) -> int
    decreases k,
{
    if k == 0 {
        start
    } else {
        let u = spec_stroll(s, inside, start, (k - 1) as nat);
        choose|v: int| 0 <= v < inside.len() && inside[v] && #[trigger] spec_edge(s, u, v)
    }
}

/// Every step of a stroll stays inside the set and follows an edge.
pub proof fn lemma_stroll(s: Seq<BlockView>, inside: Seq<bool>, start: int, k: nat)
    requires
        spec_trapped(s, inside),
        0 <= start < inside.len(),
        inside[start],
    ensures
        0 <= spec_stroll(s, inside, start, k) < inside.len(),
        inside[spec_stroll(s, inside, start, k)],
        k > 0 ==> spec_edge(
            s,
            spec_stroll(s, inside, start, (k - 1) as nat),
            spec_stroll(s, inside, start, k),
        ),
    decreases k,
{
    if k > 0 {
        lemma_stroll(s, inside, start, (k - 1) as nat);
        let u = spec_stroll(s, inside, start, (k - 1) as nat);
        assert(inside[u]);
        assert(exists|v: int| 0 <= v < inside.len() && inside[v] && #[trigger] spec_edge(s, u, v)) by {
            reveal(spec_trapped);
        }
    }
}

/// A set in which every block refers to a block of the set holds a loop.
pub proof fn lemma_trapped_cycle(s: Seq<BlockView>, inside: Seq<bool>, start: int)
    requires
        spec_trapped(s, inside),
        0 <= start < inside.len(),
        inside[start],
    ensures
        exists|path: Seq<int>| #[trigger]
            spec_path(s, path) && path.len() >= 2 && path[0] == path.last() && 0 <= path[0]
                < inside.len() && inside[path[0]],
{
    let n = inside.len();
    let steps = Seq::new(n + 1, |k: int| spec_stroll(s, inside, start, k as nat));
    assert forall|k: int| 0 <= k < steps.len() implies 0 <= #[trigger] steps[k] < n by {
        lemma_stroll(s, inside, start, k as nat);
    }
    if steps.no_duplicates() {
        steps.unique_seq_to_set();
        vstd::set_lib::lemma_int_range(0, n as int);
        assert(steps.to_set().subset_of(vstd::set_lib::set_int_range(0, n as int))) by {
            assert forall|x: int| steps.to_set().contains(x) implies vstd::set_lib::set_int_range(
                0,
                n as int,
            ).contains(x) by {
                let k = choose|k: int| 0 <= k < steps.len() && steps[k] == x;
                assert(0 <= steps[k] < n);
            }
        }
        vstd::set_lib::lemma_len_subset(steps.to_set(), vstd::set_lib::set_int_range(0, n as int));
        assert(false);
    }
    let (i, j) = choose|i: int, j: int|
        0 <= i < steps.len() && 0 <= j < steps.len() && i != j && steps[i] == steps[j];
    let (lo, hi) = if i < j {
        (i, j)
    } else {
        (j, i)
    };
    let path = Seq::new((hi - lo + 1) as nat, |t: int| spec_stroll(s, inside, start, (lo + t) as nat));
    assert forall|t: int| 0 <= t < path.len() - 1 implies spec_edge(
        s,
        #[trigger] path[t],
        path[t + 1],
    ) by {
        lemma_stroll(s, inside, start, (lo + t + 1) as nat);
    }
    lemma_stroll(s, inside, start, lo as nat);
    assert(path[0] == steps[lo]);
    assert(path.last() == steps[hi]);
    assert(spec_path(s, path));
}

/// Along a way through settled blocks, each block was settled earlier than
/// the one in front of it.
pub proof fn lemma_rank_falls(
    s: Seq<BlockView>,
    settled: Seq<bool>,
    rank: Seq<nat>,
    path: Seq<int>,
    upto: int,
)
    requires
        spec_ranked(s, settled, rank),
        spec_path(s, path),
        0 <= path[0] < settled.len(),
        settled[path[0]],
        0 <= upto < path.len(),
    ensures
        0 <= path[upto] < settled.len(),
        settled[path[upto]],
        rank[path[upto]] + upto <= rank[path[0]],
    decreases upto,
{
    if upto > 0 {
        lemma_rank_falls(s, settled, rank, path, upto - 1);
        assert(spec_edge(s, path[upto - 1], path[upto - 1 + 1]));
    }
}

/// A reachable block that is not settled refers to another such block,
/// where every such block refers to a block that is not settled.
proof fn lemma_unsettled_step(
    s: Seq<BlockView>,
    roots: Set<int>,
    live: Seq<bool>,
    settled: Seq<bool>,
    u: int,
) -> (y: int)
    requires
        live.len() == s.len(),
        settled.len() == s.len(),
        forall|z: int| 0 <= z < s.len() ==> live[z] == spec_reachable(s, roots, z),
        0 <= u < s.len(),
        live[u],
        exists|y: int| 0 <= y < s.len() && #[trigger] spec_edge(s, u, y) && !settled[y],
    ensures
        0 <= y < s.len(),
        spec_edge(s, u, y),
        live[y],
        !settled[y],
{
    let y = choose|y: int| 0 <= y < s.len() && #[trigger] spec_edge(s, u, y) && !settled[y];
    lemma_reach_step(s, roots, u, y);
    y
}

/// Where every reachable block that is not settled refers to another such
/// block, and there is one, a loop can be reached.
proof fn lemma_unsettled_cycle(
    s: Seq<BlockView>,
    roots: Set<int>,
    live: Seq<bool>,
    settled: Seq<bool>,
    x: int,
)
    requires
        live.len() == s.len(),
        settled.len() == s.len(),
        forall|z: int| 0 <= z < s.len() ==> live[z] == spec_reachable(s, roots, z),
        forall|z: int|
            0 <= z < s.len() && live[z] && !settled[z] ==> exists|y: int|
                0 <= y < s.len() && #[trigger] spec_edge(s, z, y) && !settled[y],
        0 <= x < s.len(),
        live[x],
        !settled[x],
    ensures
        spec_has_cycle(s, roots),
{
    let n = s.len();
    let inside = Seq::new(n, |z: int| live[z] && !settled[z]);
    assert(spec_trapped(s, inside)) by {
        reveal(spec_trapped);
        assert forall|u: int| 0 <= u < inside.len() && #[trigger] inside[u] implies exists|v: int|
            0 <= v < inside.len() && inside[v] && #[trigger] spec_edge(s, u, v) by {
            let y = lemma_unsettled_step(s, roots, live, settled, u);
            assert(inside[y] && spec_edge(s, u, y));
        }
    }
    lemma_trapped_cycle(s, inside, x);
    let path = choose|path: Seq<int>| #[trigger]
        spec_path(s, path) && path.len() >= 2 && path[0] == path.last() && 0 <= path[0]
            < inside.len() && inside[path[0]];
    assert(live[path[0]]);
    assert(spec_reachable(s, roots, path[0]));
}

/// Checks whether every block that the block with index `x` refers to is
/// marked in `settled`.
fn all_settled(script: &Script, x: usize, settled: &Vec<bool>) -> (r: bool)
    requires
        spec_consistent(script@),
        x < script@.len(),
        settled@.len() == script@.len(),
    ensures
        r == (forall|y: int| #[trigger] spec_edge(script@, x as int, y) ==> settled@[y]),
        !r ==> exists|y: int|
            0 <= y < settled@.len() && #[trigger] spec_edge(script@, x as int, y) && !settled@[y],
{
    let ghost s = script@;
    let n = script.blocks.len();
    match &script.blocks[x] {
        Block::Data(_) => true,
        Block::Code(code) => {
            assert(s[x as int] == code@);
            assert(spec_block_consistent(s, s[x as int]));
            let mut k: usize = 0;
            while k < code.commands.len()
                invariant
                    n == s.len(),
                    s == script@,
                    x < n,
                    settled@.len() == n,
                    s[x as int] == code@,
                    spec_block_consistent(s, s[x as int]),
                    k <= code.commands@.len(),
                    forall|j: int, y: int|
                        0 <= j < k && #[trigger] spec_command_targets(code.commands@[j], y)
                            ==> settled@[y],
                decreases code.commands@.len() - k,
            {
                proof {
                    let commands = s[x as int]->commands;
                    assert(commands == code.commands@);
                    assert(spec_command_consistent(s, commands[k as int]));
                }
                let target = match &code.commands[k] {
                    Command::Call(id) => Some(id.index),
                    Command::Msg(id) => Some(id.index),
                    _ => None,
                };
                match target {
                    Some(t) => {
                        if !settled[t] {
                            proof {
                                assert(spec_command_targets(code.commands@[k as int], t as int));
                                assert(spec_edge(s, x as int, t as int));
                            }
                            return false;
                        }
                    },
                    None => {},
                }
                k += 1;
            }
            let ok = match &code.terminator {
                Terminator::Fallthrough(id) => settled[id.index],
                Terminator::Jump(id) => settled[id.index],
                Terminator::Branch { condition, if_true, if_false } => settled[if_true.index]
                    && settled[if_false.index],
                Terminator::Return => true,
                Terminator::End => true,
            };
            proof {
                if ok {
                    assert forall|y: int| #[trigger] spec_edge(s, x as int, y) implies settled@[y] by {
                        if !spec_terminator_targets(code.terminator, y) {
                            let j = choose|j: int|
                                0 <= j < code.commands@.len() && spec_command_targets(
                                    #[trigger] code.commands@[j],
                                    y,
                                );
                            assert(spec_command_targets(code.commands@[j], y));
                        }
                    }
                } else {
                    let ghost t = code.terminator;
                    match t {
                        Terminator::Fallthrough(id) => {
                            assert(spec_edge(s, x as int, id.index as int));
                        },
                        Terminator::Jump(id) => {
                            assert(spec_edge(s, x as int, id.index as int));
                        },
                        Terminator::Branch { condition, if_true, if_false } => {
                            assert(spec_edge(s, x as int, if_true.index as int));
                            assert(spec_edge(s, x as int, if_false.index as int));
                        },
                        _ => {},
                    }
                }
            }
            ok
        },
    }
}

/// Finds out whether a loop can be reached from one of `entries`. Loops
/// are no fault; the answer is for diagnostics.
pub fn has_cycle(script: &Script, entries: &Vec<BlockId>) -> (r: bool)
    requires
        spec_consistent(script@),
        forall|k: int| 0 <= k < entries@.len() ==> (#[trigger] entries@[k]).index < script@.len(),
    ensures
        r == spec_has_cycle(script@, spec_roots(entries@)),
{
    let ghost s = script@;
    let ghost roots = spec_roots(entries@);
    let live = reachable(script, entries);
    let n = live.len();
    let mut settled: Vec<bool> = Vec::new();
    let mut i: usize = 0;
    while i < n
        invariant
            i <= n,
            settled@.len() == i,
            forall|j: int| 0 <= j < i ==> !settled@[j],
        decreases n - i,
    {
        settled.push(false);
        i += 1;
    }
    let ghost mut rank: Seq<nat> = Seq::new(n as nat, |x: int| 0nat);
    let ghost mut next: nat = 0;
    let mut changed = true;
    while changed
        invariant
            s == script@,
            roots == spec_roots(entries@),
            spec_consistent(s),
            n == s.len(),
            live@.len() == n,
            settled@.len() == n,
            rank.len() == n,
            forall|x: int| 0 <= x < n ==> live@[x] == spec_reachable(s, roots, x),
            forall|x: int| 0 <= x < n && settled@[x] ==> rank[x] < next,
            spec_ranked(s, settled@, rank),
            !changed ==> forall|x: int|
                0 <= x < n && live@[x] && !settled@[x] ==> exists|y: int|
                    0 <= y < n && #[trigger] spec_edge(s, x, y) && !settled@[y],
        decreases spec_unseen(settled@), if changed { 1nat } else { 0nat },
    {
        changed = false;
        let ghost at_start = settled@;
        let mut x: usize = 0;
        while x < n
            invariant
                s == script@,
                spec_consistent(s),
                n == s.len(),
                live@.len() == n,
                settled@.len() == n,
                rank.len() == n,
                x <= n,
                forall|z: int| 0 <= z < n && settled@[z] ==> rank[z] < next,
                spec_ranked(s, settled@, rank),
                !changed ==> settled@ == at_start,
                changed ==> spec_unseen(settled@) < spec_unseen(at_start),
                !changed ==> forall|z: int|
                    0 <= z < x && live@[z] && !settled@[z] ==> exists|y: int|
                        0 <= y < n && #[trigger] spec_edge(s, z, y) && !settled@[y],
            decreases n - x,
        {
            if live[x] && !settled[x] {
                if all_settled(script, x, &settled) {
                    proof {
                        lemma_mark_seen(settled@, x as int);
                        let rank_after = rank.update(x as int, next);
                        let settled_after = settled@.update(x as int, true);
                        assert forall|a: int, b: int|
                            0 <= a < n && settled_after[a] && #[trigger] spec_edge(
                                s,
                                a,
                                b,
                            ) implies 0 <= b < n && settled_after[b] && rank_after[b]
                            < rank_after[a] by {
                            if a == x {
                                assert(settled@[b]);
                            } else {
                                assert(settled@[a]);
                                assert(settled@[b]);
                            }
                        }
                        rank = rank_after;
                        next = next + 1;
                    }
                    settled[x] = true;
                    changed = true;
                }
            }
            x += 1;
        }
    }
    let mut x: usize = 0;
    while x < n
        invariant
            s == script@,
            roots == spec_roots(entries@),
            n == s.len(),
            n == settled@.len(),
            live@.len() == n,
            forall|z: int| 0 <= z < n ==> live@[z] == spec_reachable(s, roots, z),
            forall|z: int|
                0 <= z < n && live@[z] && !settled@[z] ==> exists|y: int|
                    0 <= y < n && #[trigger] spec_edge(s, z, y) && !settled@[y],
            x <= n,
            forall|z: int| 0 <= z < x ==> !(live@[z] && !settled@[z]),
        decreases n - x,
    {
        if live[x] && !settled[x] {
            proof {
                lemma_unsettled_cycle(s, roots, live@, settled@, x as int);
            }
            return true;
        }
        x += 1;
    }
    proof {
        if spec_has_cycle(s, roots) {
            let path = choose|path: Seq<int>| #[trigger]
                spec_path(s, path) && path.len() >= 2 && path[0] == path.last() && spec_reachable(
                    s,
                    roots,
                    path[0],
                );
            assert(live@[path[0]]);
            lemma_rank_falls(s, settled@, rank, path, path.len() - 1);
        }
    }
    false
}

/// What is on a stack stays on it when an index is pushed, and the pushed
/// index is on it.
proof fn lemma_pushed(stack: Seq<usize>, x: usize)
    ensures
        spec_on_stack(stack.push(x), x as int),
        forall|y: int| spec_on_stack(stack, y) ==> spec_on_stack(stack.push(x), y),
{
    assert(stack.push(x)[stack.len() as int] == x);
    assert forall|y: int| spec_on_stack(stack, y) implies spec_on_stack(stack.push(x), y) by {
        let j = choose|j: int| 0 <= j < stack.len() && #[trigger] stack[j] == y;
        assert(stack.push(x)[j] == y);
    }
}

} // verus!
