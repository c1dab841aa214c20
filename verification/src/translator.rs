//! The code generator: lowers the commands of one procedure into
//! instructions whose addresses are relative to the start of the procedure.
//! Calls stay symbolic until the linker lays the procedures out.

use crate::parser::{block_view, branches_view, Ast, AstView, File};
use crate::tables::{
    distinct_keys, has_key, object_entries, objects_insert, objects_new, procs_into_vec,
    procs_view,
};
use crate::vm::LeafView;
use linked_hash_map::LinkedHashMap;
use vstd::prelude::*;

verus! {

/// One option of a branch instruction, with a procedure-local address.
#[derive(Debug, Clone, PartialEq, Eq)]
pub struct BranchPreLeaf {
    pub option_name: String,
    pub jmp_address: usize,
}

impl View for BranchPreLeaf {
    type V = LeafView;

    open spec fn view(&self) -> LeafView {
        LeafView { name: self.option_name@, target: self.jmp_address as nat }
    }
}

/// The views of a run of leaves, in order.
pub open spec fn pre_leaves_view(leaves: Seq<BranchPreLeaf>) -> Seq<LeafView> {
    leaves.map_values(|leaf: BranchPreLeaf| leaf@)
}

/// An instruction of a procedure that is not linked yet. Addresses count
/// from the start of the procedure.
#[derive(Debug, Clone, PartialEq, Eq)]
pub enum PreInstruction {
    Ret,
    Msg(String),
    Jmp(usize),
    Wait,
    Branch(Vec<BranchPreLeaf>),
    PushPtr(usize),
    /// A jump to the start of the procedure of that name.
    UnresolvedCall(String),
}

/// What a [`PreInstruction`] stands for in contracts.
pub enum PreInstructionView {
    Ret,
    Msg(Seq<char>),
    Jmp(nat),
    Wait,
    Branch(Seq<LeafView>),
    PushPtr(nat),
    UnresolvedCall(Seq<char>),
}

impl View for PreInstruction {
    type V = PreInstructionView;

    open spec fn view(&self) -> PreInstructionView {
        match self {
            PreInstruction::Ret => PreInstructionView::Ret,
            PreInstruction::Msg(text) => PreInstructionView::Msg(text@),
            PreInstruction::Jmp(x) => PreInstructionView::Jmp(*x as nat),
            PreInstruction::Wait => PreInstructionView::Wait,
            PreInstruction::Branch(leaves) => PreInstructionView::Branch(pre_leaves_view(leaves@)),
            PreInstruction::PushPtr(x) => PreInstructionView::PushPtr(*x as nat),
            PreInstruction::UnresolvedCall(name) => PreInstructionView::UnresolvedCall(name@),
        }
    }
}

/// The views of a run of instructions, in order.
pub open spec fn object_view(code: Seq<PreInstruction>) -> Seq<PreInstructionView> {
    code.map_values(|instruction: PreInstruction| instruction@)
}

/// The number of instructions a command is lowered to.
pub open spec fn command_size(command: AstView) -> nat
    decreases command, 0nat,
{
    match command {
        AstView::Msg(_) => 1,
        AstView::Wait => 1,
        AstView::Call(_) => 2,
        AstView::Choice(branches) => 1 + branches_size(branches),
    }
}

/// The number of instructions the branches of a choice are lowered to: for
/// each branch its commands and the jump that closes it.
pub open spec fn branches_size(branches: Seq<(Seq<char>, Seq<AstView>)>) -> nat
    decreases branches, branches.len(),
{
    if branches.len() == 0 {
        0
    } else {
        branches_size(branches.drop_last()) + block_size(branches.last().1) + 1
    }
}

/// The number of instructions a sequence of commands is lowered to.
pub open spec fn block_size(commands: Seq<AstView>) -> nat
    decreases commands, commands.len(),
{
    if commands.len() == 0 {
        0
    } else {
        block_size(commands.drop_last()) + command_size(commands.last())
    }
}

/// The instructions of a command whose first instruction has address `at`.
///
/// A call pushes the address behind itself and jumps to the callee. A
/// choice is a branch instruction followed by the code of its branches;
/// every branch ends in a jump to the address behind the whole choice.
pub open spec fn lower_command(command: AstView, at: nat) -> Seq<PreInstructionView>
    decreases command, 0nat,
{
    match command {
        AstView::Msg(text) => seq![PreInstructionView::Msg(text)],
        AstView::Wait => seq![PreInstructionView::Wait],
        AstView::Call(name) => seq![
            PreInstructionView::PushPtr(at + 2),
            PreInstructionView::UnresolvedCall(name),
        ],
        AstView::Choice(branches) => seq![
            PreInstructionView::Branch(branch_leaves(branches, at + 1)),
        ] + lower_branches(branches, at + 1, at + 1 + branches_size(branches)),
    }
}

/// The leaves of a choice whose first branch starts at `at`: the labels in
/// the order of the branches, each with the address its branch starts at.
pub open spec fn branch_leaves(branches: Seq<(Seq<char>, Seq<AstView>)>, at: nat) -> Seq<LeafView> {
    Seq::new(
        branches.len(),
        |i: int| LeafView { name: branches[i].0, target: at + branches_size(branches.take(i)) },
    )
}

/// The code of the branches of a choice, laid out one after the other from
/// `at`, each closed by a jump to `join`.
pub open spec fn lower_branches(
    branches: Seq<(Seq<char>, Seq<AstView>)>,
    at: nat,
    join: nat,
) -> Seq<PreInstructionView>
    decreases branches, branches.len(),
{
    if branches.len() == 0 {
        Seq::empty()
    } else {
        lower_branches(branches.drop_last(), at, join) + lower_block(
            branches.last().1,
            at + branches_size(branches.drop_last()),
        ) + seq![PreInstructionView::Jmp(join)]
    }
}

/// The instructions of a sequence of commands whose first instruction has
/// address `at`.
pub open spec fn lower_block(commands: Seq<AstView>, at: nat) -> Seq<PreInstructionView>
    decreases commands, commands.len(),
{
    if commands.len() == 0 {
        Seq::empty()
    } else {
        lower_block(commands.drop_last(), at) + lower_command(
            commands.last(),
            at + block_size(commands.drop_last()),
        )
    }
}

/// The code of a procedure: its commands from address zero, and one final
/// return.
pub open spec fn generate(commands: Seq<AstView>) -> Seq<PreInstructionView> {
    lower_block(commands, 0) + seq![PreInstructionView::Ret]
}

/// The code of the branches of a choice while it is being generated: the
/// first `patched` branches are closed by their jump to `join`, the others
/// still by the placeholder that reserves the jump's slot.
spec fn staged_branches(
    branches: Seq<(Seq<char>, Seq<AstView>)>,
    at: nat,
    join: nat,
    patched: nat,
) -> Seq<PreInstructionView>
    decreases branches.len(),
{
    if branches.len() == 0 {
        Seq::empty()
    } else {
        staged_branches(branches.drop_last(), at, join, patched) + lower_block(
            branches.last().1,
            at + branches_size(branches.drop_last()),
        ) + seq![
            if branches.len() <= patched {
                PreInstructionView::Jmp(join)
            } else {
                PreInstructionView::Ret
            },
        ]
    }
}

/// A command is lowered to as many instructions as its size says.
pub proof fn lemma_command_len(command: AstView, at: nat)
    ensures
        lower_command(command, at).len() == command_size(command),
    decreases command, 0nat,
{
    match command {
        AstView::Choice(branches) => {
            lemma_branches_len(branches, at + 1, at + 1 + branches_size(branches));
        },
        _ => {},
    }
}

/// The branches of a choice are lowered to as many instructions as their
/// size says.
pub proof fn lemma_branches_len(branches: Seq<(Seq<char>, Seq<AstView>)>, at: nat, join: nat)
    ensures
        lower_branches(branches, at, join).len() == branches_size(branches),
    decreases branches, branches.len(),
{
    if branches.len() > 0 {
        lemma_branches_len(branches.drop_last(), at, join);
        lemma_block_len(branches.last().1, at + branches_size(branches.drop_last()));
    }
}

/// A sequence of commands is lowered to as many instructions as its size
/// says.
pub proof fn lemma_block_len(commands: Seq<AstView>, at: nat)
    ensures
        lower_block(commands, at).len() == block_size(commands),
    decreases commands, commands.len(),
{
    if commands.len() > 0 {
        lemma_block_len(commands.drop_last(), at);
        lemma_command_len(commands.last(), at + block_size(commands.drop_last()));
    }
}

proof fn lemma_staged_len(
    branches: Seq<(Seq<char>, Seq<AstView>)>,
    at: nat,
    join: nat,
    patched: nat,
)
    ensures
        staged_branches(branches, at, join, patched).len() == branches_size(branches),
    decreases branches.len(),
{
    if branches.len() > 0 {
        lemma_staged_len(branches.drop_last(), at, join, patched);
        lemma_block_len(branches.last().1, at + branches_size(branches.drop_last()));
    }
}

proof fn lemma_staged_all_patched(
    branches: Seq<(Seq<char>, Seq<AstView>)>,
    at: nat,
    join: nat,
    patched: nat,
)
    requires
        branches.len() <= patched,
    ensures
        staged_branches(branches, at, join, patched) == lower_branches(branches, at, join),
    decreases branches.len(),
{
    if branches.len() > 0 {
        lemma_staged_all_patched(branches.drop_last(), at, join, patched);
    }
}

proof fn lemma_staged_patch(
    branches: Seq<(Seq<char>, Seq<AstView>)>,
    at: nat,
    join: nat,
    k: nat,
)
    requires
        k < branches.len(),
    ensures
        0 < branches_size(branches.take(k + 1int)) <= branches_size(branches),
        staged_branches(branches, at, join, k + 1nat) == staged_branches(
            branches,
            at,
            join,
            k,
        ).update(branches_size(branches.take(k + 1int)) - 1, PreInstructionView::Jmp(join)),
    decreases branches.len(),
{
    let head = branches.drop_last();
    lemma_staged_len(head, at, join, k);
    lemma_block_len(branches.last().1, at + branches_size(head));
    if k + 1 == branches.len() {
        assert(branches.take(k + 1int) == branches);
        lemma_staged_all_patched(head, at, join, k);
        lemma_staged_all_patched(head, at, join, k + 1nat);
    } else {
        lemma_staged_patch(head, at, join, k);
        assert(head.take(k + 1int) == branches.take(k + 1int));
    }
}

proof fn lemma_view_push(code: Seq<PreInstruction>, instruction: PreInstruction)
    ensures
        object_view(code.push(instruction)) == object_view(code).push(instruction@),
{
}

proof fn lemma_view_update(code: Seq<PreInstruction>, i: int, instruction: PreInstruction)
    requires
        0 <= i < code.len(),
    ensures
        object_view(code.update(i, instruction)) == object_view(code).update(i, instruction@),
{
}

/// Appends the instructions of one command to the code generated so far.
fn translate_ast_impl(ast: Ast, pre_opcodes: &mut Vec<PreInstruction>)
    ensures
        object_view(final(pre_opcodes)@) == object_view(old(pre_opcodes)@) + lower_command(
            ast@,
            old(pre_opcodes)@.len(),
        ),
    decreases ast,
{
    let ghost before = object_view(pre_opcodes@);
    let ghost at = pre_opcodes@.len();
    match ast {
        Ast::Msg(text) => {
            pre_opcodes.push(PreInstruction::Msg(text));
        },
        Ast::Choice(choice_arr) => {
            let ghost branches = branches_view(choice_arr@);
            let ghost join = at + 1 + branches_size(branches);
            let choice_instr_place = pre_opcodes.len();
            pre_opcodes.push(PreInstruction::Ret);
            let mut leaves: Vec<BranchPreLeaf> = Vec::new();
            let mut place_holders: Vec<usize> = Vec::new();
            for branch in it: choice_arr.into_iter()
                invariant
                    it.seq() == choice_arr@,
                    ast == Ast::Choice(choice_arr),
                    branches == branches_view(choice_arr@),
                    before.len() == at,
                    choice_instr_place == at,
                    object_view(pre_opcodes@) == before + seq![PreInstructionView::Ret]
                        + staged_branches(branches.take(it.index()), at + 1, join, 0),
                    pre_leaves_view(leaves@) == branch_leaves(branches, at + 1).take(it.index()),
                    place_holders@.len() == it.index(),
                    forall|k: int|
                        0 <= k < it.index() ==> #[trigger] place_holders@[k] == at + branches_size(
                            branches.take(k + 1),
                        ),
            {
                let ghost index = it.index();
                let ghost done = branches.take(index);
                let ghost staged = staged_branches(done, at + 1, join, 0);
                let (option_name, code) = branch;
                let ghost body = block_view(code@);
                proof {
                    lemma_staged_len(done, at + 1, join, 0);
                }
                let jmp_address = pre_opcodes.len();
                let ghost start = jmp_address as nat;
                assert(object_view(pre_opcodes@).len() == pre_opcodes@.len());
                for x in inner: code.into_iter()
                    invariant
                        inner.seq() == code@,
                        body == block_view(code@),
                        branch == (option_name, code),
                        it.seq() == choice_arr@,
                        0 <= index < choice_arr@.len(),
                        choice_arr@[index] == branch,
                        ast == Ast::Choice(choice_arr),
                        object_view(pre_opcodes@) == before + seq![PreInstructionView::Ret] + staged
                            + lower_block(body.take(inner.index()), start),
                        before.len() == at,
                        staged.len() == branches_size(done),
                        start == at + 1 + branches_size(done),
                {
                    let ghost seen = body.take(inner.index());
                    proof {
                        lemma_block_len(seen, start);
                        assert(body.take(inner.index() + 1).drop_last() == seen);
                        assert(decreases_to!(branch => branch.1));
                        assert(decreases_to!(ast => ast->Choice_0));
                    }
                    translate_ast_impl(x, pre_opcodes);
                }
                assert(body.take(body.len() as int) == body);
                let aftermath_address = pre_opcodes.len();
                let ghost closed = pre_opcodes;
                pre_opcodes.push(PreInstruction::Ret);
                leaves.push(BranchPreLeaf { option_name, jmp_address });
                place_holders.push(aftermath_address);
                proof {
                    let next = branches.take(index + 1);
                    assert(next.drop_last() == done);
                    lemma_block_len(body, start);
                    lemma_view_push(closed@, PreInstruction::Ret);
                    let all = branch_leaves(branches, at + 1);
                    assert(pre_leaves_view(leaves@) =~= all.take(index).push(all[index]));
                }
            }
            assert(branches.take(branches.len() as int) == branches);
            assert(branch_leaves(branches, at + 1).take(branches.len() as int) == branch_leaves(
                branches,
                at + 1,
            ));
            proof {
                lemma_staged_len(branches, at + 1, join, 0);
            }
            let ghost reserved = pre_opcodes@;
            let ghost head = seq![
                PreInstructionView::Branch(branch_leaves(branches, at + 1)),
            ];
            pre_opcodes.set(choice_instr_place, PreInstruction::Branch(leaves));
            let after_choice = pre_opcodes.len();
            proof {
                lemma_view_update(reserved, at as int, PreInstruction::Branch(leaves));
            }
            let mut k: usize = 0;
            while k < place_holders.len()
                invariant
                    k <= place_holders@.len(),
                    place_holders@.len() == branches.len(),
                    before.len() == at,
                    after_choice == join,
                    head.len() == 1,
                    pre_opcodes@.len() == at + 1 + branches_size(branches),
                    forall|i: int|
                        0 <= i < place_holders@.len() ==> #[trigger] place_holders@[i] == at
                            + branches_size(branches.take(i + 1)),
                    object_view(pre_opcodes@) == before + head + staged_branches(
                        branches,
                        at + 1,
                        join,
                        k as nat,
                    ),
                decreases place_holders@.len() - k,
            {
                let ghost open = pre_opcodes@;
                proof {
                    lemma_staged_patch(branches, at + 1, join, k as nat);
                }
                pre_opcodes.set(place_holders[k], PreInstruction::Jmp(after_choice));
                proof {
                    lemma_view_update(
                        open,
                        place_holders@[k as int] as int,
                        PreInstruction::Jmp(after_choice),
                    );
                }
                k += 1;
            }
            proof {
                lemma_staged_all_patched(branches, at + 1, join, k as nat);
            }
        },
        Ast::Wait => {
            pre_opcodes.push(PreInstruction::Wait);
        },
        Ast::Call(name) => {
            let call_place = pre_opcodes.len();
            pre_opcodes.push(PreInstruction::Ret);
            pre_opcodes.push(PreInstruction::UnresolvedCall(name));
            let after_call = pre_opcodes.len();
            pre_opcodes.set(call_place, PreInstruction::PushPtr(after_call));
        },
    }
}

/// Generates the code of one procedure from its commands.
pub fn translate_ast(ast: Vec<Ast>) -> (pre_opcodes: Vec<PreInstruction>)
    ensures
        object_view(pre_opcodes@) == generate(block_view(ast@)),
{
    let mut pre_opcodes: Vec<PreInstruction> = Vec::new();
    let ghost commands = block_view(ast@);
    for x in it: ast.into_iter()
        invariant
            it.seq() == ast@,
            commands == block_view(ast@),
            object_view(pre_opcodes@) == lower_block(commands.take(it.index()), 0),
    {
        let ghost seen = commands.take(it.index());
        proof {
            lemma_block_len(seen, 0);
            assert(commands.take(it.index() + 1).drop_last() == seen);
        }
        translate_ast_impl(x, &mut pre_opcodes);
    }
    assert(commands.take(commands.len() as int) == commands);
    pre_opcodes.push(PreInstruction::Ret);
    pre_opcodes
}

/// The objects of a script: the code of each procedure under its name, in
/// the order of the procedures.
pub struct ObjectFiles {
    pub objects: LinkedHashMap<String, Vec<PreInstruction>>,
}

impl View for ObjectFiles {
    type V = Seq<(Seq<char>, Seq<PreInstructionView>)>;

    /// The objects in order, each with its name and its code.
    open spec fn view(&self) -> Seq<(Seq<char>, Seq<PreInstructionView>)> {
        object_entries(self.objects)
    }
}

/// The objects generated from the procedures of a script: for each
/// procedure, in order, its name and its code.
pub open spec fn generate_all(procs: Seq<(Seq<char>, Seq<AstView>)>) -> Seq<
    (Seq<char>, Seq<PreInstructionView>),
> {
    Seq::new(procs.len(), |i: int| (procs[i].0, generate(procs[i].1)))
}

/// Generates the code of every procedure of a script.
pub fn translate_file(file: File) -> (objects: ObjectFiles)
    ensures
        objects@ == generate_all(file@),
        distinct_keys(objects@),
{
    let procs = procs_into_vec(file.procs);
    let ghost script = procs_view(procs@);
    let mut objects = objects_new();
    for proc in it: procs.into_iter()
        invariant
            it.seq() == procs@,
            script == procs_view(procs@),
            distinct_keys(script),
            object_entries(objects) == generate_all(script).take(it.index()),
    {
        let ghost index = it.index();
        let ghost done = generate_all(script).take(index);
        let (name, commands) = proc;
        assert(script[index] == (name@, block_view(commands@)));
        let code = translate_ast(commands);
        proof {
            if has_key(done, name@) {
                let i = choose|i: int| 0 <= i < done.len() && (#[trigger] done[i]).0 == name@;
            }
        }
        objects_insert(&mut objects, name, code);
    }
    proof {
        let all = generate_all(script);
        assert forall|i: int, j: int|
            0 <= i < all.len() && 0 <= j < all.len() && i != j implies (#[trigger] all[i]).0 != (
            #[trigger] all[j]).0 by {
            assert(script[i].0 != script[j].0);
        }
    }
    ObjectFiles { objects }
}

/// Whether every leaf targets an address greater than `low` and at most
/// `high`.
pub open spec fn leaves_between(leaves: Seq<LeafView>, low: int, high: int) -> bool {
    forall|k: int| 0 <= k < leaves.len() ==> low < (#[trigger] leaves[k]).target <= high
}

/// Whether the instruction, standing at `address`, is one of the inside of
/// a procedure: it is no return; what it jumps to, pushes or offers lies
/// behind it and is at most `high`; and a call is not the first
/// instruction of the procedure.
pub open spec fn placed(instruction: PreInstructionView, address: int, high: int) -> bool {
    match instruction {
        PreInstructionView::Ret => false,
        PreInstructionView::Jmp(target) => address < target <= high,
        PreInstructionView::PushPtr(pushed) => address < pushed <= high,
        PreInstructionView::Branch(leaves) => leaves_between(leaves, address, high),
        PreInstructionView::UnresolvedCall(_) => address >= 1,
        _ => true,
    }
}

/// Whether the instructions, the first of which stands at `at`, are all
/// placed as the inside of a procedure, with no address above `high`.
pub open spec fn inner_code(code: Seq<PreInstructionView>, at: nat, high: nat) -> bool {
    forall|p: int| 0 <= p < code.len() ==> placed(#[trigger] code[p], at + p, high as int)
}

proof fn lemma_branches_size_prefix(branches: Seq<(Seq<char>, Seq<AstView>)>, i: int)
    requires
        0 <= i <= branches.len(),
    ensures
        branches_size(branches.take(i)) <= branches_size(branches),
    decreases branches.len(),
{
    if i == branches.len() {
        assert(branches.take(i) == branches);
    } else {
        lemma_branches_size_prefix(branches.drop_last(), i);
        assert(branches.drop_last().take(i) == branches.take(i));
    }
}

/// The code of a command is placed as the inside of a procedure, and its
/// addresses stay inside it: they are at most the address behind its last
/// instruction.
pub proof fn lemma_command_inner(command: AstView, at: nat)
    ensures
        inner_code(lower_command(command, at), at, at + command_size(command)),
    decreases command, 0nat,
{
    match command {
        AstView::Choice(branches) => {
            let join = at + 1 + branches_size(branches);
            lemma_branches_inner(branches, at + 1, join);
            let code = lower_command(command, at);
            let tail = lower_branches(branches, at + 1, join);
            let leaves = branch_leaves(branches, at + 1);
            assert forall|k: int| 0 <= k < leaves.len() implies at < (#[trigger] leaves[k]).target
                <= join by {
                lemma_branches_size_prefix(branches, k);
            }
            assert forall|p: int| 0 <= p < code.len() implies placed(
                #[trigger] code[p],
                at + p,
                join as int,
            ) by {
                if p > 0 {
                }
            }
        },
        _ => {},
    }
}

/// The code of the branches of a choice is placed as the inside of a
/// procedure, and its addresses are at most `join`.
pub proof fn lemma_branches_inner(branches: Seq<(Seq<char>, Seq<AstView>)>, at: nat, join: nat)
    requires
        at + branches_size(branches) <= join,
    ensures
        inner_code(lower_branches(branches, at, join), at, join),
    decreases branches, branches.len(),
{
    if branches.len() > 0 {
        let head = branches.drop_last();
        let start = at + branches_size(head);
        let body = branches.last().1;
        lemma_branches_inner(head, at, join);
        lemma_block_inner(body, start);
        lemma_branches_len(head, at, join);
        lemma_block_len(body, start);
        let first = lower_branches(head, at, join);
        let middle = lower_block(body, start);
        let code = lower_branches(branches, at, join);
        assert forall|p: int| 0 <= p < code.len() implies placed(
            #[trigger] code[p],
            at + p,
            join as int,
        ) by {
            if p < first.len() {
            } else if p < first.len() + middle.len() {
                let q = p - first.len();
            } else {
            }
        }
    }
}

/// The code of a sequence of commands is placed as the inside of a
/// procedure, and its addresses stay inside it.
pub proof fn lemma_block_inner(commands: Seq<AstView>, at: nat)
    ensures
        inner_code(lower_block(commands, at), at, at + block_size(commands)),
    decreases commands, commands.len(),
{
    if commands.len() > 0 {
        let head = commands.drop_last();
        let start = at + block_size(head);
        lemma_block_inner(head, at);
        lemma_command_inner(commands.last(), start);
        lemma_block_len(head, at);
        let first = lower_block(head, at);
        let second = lower_command(commands.last(), start);
        let code = lower_block(commands, at);
        let high = (at + block_size(commands)) as int;
        assert forall|p: int| 0 <= p < code.len() implies placed(
            #[trigger] code[p],
            at + p,
            high,
        ) by {
            if p < first.len() {
            } else {
                let q = p - first.len();
            }
        }
    }
}

/// The code of a procedure ends in a return, and holds no other: the
/// return is its last instruction and its only one.
pub proof fn lemma_generate_single_return(commands: Seq<AstView>)
    ensures
        generate(commands).len() == block_size(commands) + 1,
        forall|p: int|
            0 <= p < generate(commands).len() ==> (#[trigger] generate(commands)[p]
                == PreInstructionView::Ret <==> p == generate(commands).len() - 1),
{
    lemma_block_len(commands, 0);
    lemma_block_inner(commands, 0);
    let body = lower_block(commands, 0);
    assert forall|p: int| 0 <= p < generate(commands).len() implies (#[trigger] generate(
        commands,
    )[p] == PreInstructionView::Ret <==> p == generate(commands).len() - 1) by {
        if p < body.len() {
        }
    }
}

/// Whether the code is made like that of a procedure: it ends in a return,
/// and what comes before the return is placed as the inside of a
/// procedure, with no address behind the return.
pub open spec fn procedure_code(code: Seq<PreInstructionView>) -> bool {
    &&& code.len() >= 1
    &&& code.last() == PreInstructionView::Ret
    &&& inner_code(code.drop_last(), 0, (code.len() - 1) as nat)
}

/// The code that is generated for a procedure is made like that of a
/// procedure.
pub proof fn lemma_generate_procedure(commands: Seq<AstView>)
    ensures
        procedure_code(generate(commands)),
{
    lemma_block_len(commands, 0);
    lemma_block_inner(commands, 0);
}

/// The offset, from the start of the branches of a choice, of the jump that
/// closes branch `i`.
pub open spec fn closer_offset(branches: Seq<(Seq<char>, Seq<AstView>)>, i: int) -> int {
    branches_size(branches.take(i + 1)) - 1
}

proof fn lemma_branches_size_take(branches: Seq<(Seq<char>, Seq<AstView>)>, i: int)
    requires
        0 <= i < branches.len(),
    ensures
        branches_size(branches.take(i + 1)) == branches_size(branches.take(i)) + block_size(
            branches[i].1,
        ) + 1,
        branches_size(branches.take(i + 1)) <= branches_size(branches),
    decreases branches.len(),
{
    assert(branches.take(i + 1).drop_last() == branches.take(i));
    if i + 1 == branches.len() {
    } else {
        lemma_branches_size_take(branches.drop_last(), i);
        assert(branches.drop_last().take(i + 1) == branches.take(i + 1));
    }
}

/// In the code of the branches of a choice, the instructions that jump to
/// `join` are exactly the closers of the branches, one for each branch.
proof fn lemma_branches_closers(branches: Seq<(Seq<char>, Seq<AstView>)>, at: nat, join: nat)
    requires
        at + branches_size(branches) <= join,
    ensures
        lower_branches(branches, at, join).len() == branches_size(branches),
        forall|p: int|
            0 <= p < branches_size(branches) ==> (#[trigger] lower_branches(branches, at, join)[p]
                == PreInstructionView::Jmp(join) <==> exists|i: int|
                0 <= i < branches.len() && p == #[trigger] closer_offset(branches, i)),
    decreases branches.len(),
{
    lemma_branches_len(branches, at, join);
    if branches.len() > 0 {
        let head = branches.drop_last();
        let last = branches.len() - 1;
        let start = at + branches_size(head);
        let body = branches.last().1;
        lemma_branches_closers(head, at, join);
        lemma_block_inner(body, start);
        let first = lower_branches(head, at, join);
        let middle = lower_block(body, start);
        let code = lower_branches(branches, at, join);
        assert(branches.take(last + 1) == branches);
        assert forall|p: int| 0 <= p < branches_size(branches) implies (#[trigger] code[p]
            == PreInstructionView::Jmp(join) <==> exists|i: int|
            0 <= i < branches.len() && p == #[trigger] closer_offset(branches, i)) by {
            assert forall|i: int| 0 <= i < head.len() implies closer_offset(head, i)
                == closer_offset(branches, i) && closer_offset(branches, i) < first.len() by {
                assert(head.take(i + 1) == branches.take(i + 1));
                lemma_branches_size_take(head, i);
            }
            if p < first.len() {
                if code[p] == PreInstructionView::Jmp(join) {
                    let i = choose|i: int| 0 <= i < head.len() && p == closer_offset(head, i);
                }
                if exists|i: int| 0 <= i < branches.len() && p == closer_offset(branches, i) {
                    let i = choose|i: int|
                        0 <= i < branches.len() && p == closer_offset(branches, i);
                }
            } else if p < first.len() + middle.len() {
                if exists|i: int| 0 <= i < branches.len() && p == closer_offset(branches, i) {
                    let i = choose|i: int|
                        0 <= i < branches.len() && p == closer_offset(branches, i);
                }
            } else {
                assert(p == closer_offset(branches, last));
            }
        }
    }
}

/// What a choice with `n` branches is lowered to: one branch instruction
/// with `n` leaves, which carry the labels of the branches in their order
/// and the addresses at which the branches start; then the code of the
/// branches, where the jumps to the address behind the whole choice are
/// exactly the `n` instructions that close the branches.
pub proof fn lemma_choice_layout(branches: Seq<(Seq<char>, Seq<AstView>)>, at: nat)
    ensures
        ({
            let code = lower_command(AstView::Choice(branches), at);
            let join = at + command_size(AstView::Choice(branches));
            let leaves = branch_leaves(branches, at + 1);
            &&& code.len() == 1 + branches_size(branches)
            &&& code[0] == PreInstructionView::Branch(leaves)
            &&& leaves.len() == branches.len()
            &&& forall|i: int|
                0 <= i < branches.len() ==> (#[trigger] leaves[i]).name == branches[i].0
                    && leaves[i].target == at + 1 + branches_size(branches.take(i))
            &&& forall|i: int|
                0 <= i < branches.len() ==> 1 <= 1 + #[trigger] closer_offset(branches, i)
                    < code.len() && code[1 + closer_offset(branches, i)]
                    == PreInstructionView::Jmp(join)
            &&& forall|i: int, j: int|
                0 <= i < j < branches.len() ==> #[trigger] closer_offset(branches, i)
                    < #[trigger] closer_offset(branches, j)
            &&& forall|p: int|
                0 <= p < code.len() && #[trigger] code[p] == PreInstructionView::Jmp(join)
                    ==> exists|i: int|
                    0 <= i < branches.len() && p == 1 + #[trigger] closer_offset(branches, i)
        }),
{
    let code = lower_command(AstView::Choice(branches), at);
    let join = at + 1 + branches_size(branches);
    let tail = lower_branches(branches, at + 1, join);
    lemma_branches_closers(branches, at + 1, join);
    assert forall|i: int| 0 <= i < branches.len() implies 1 <= 1 + #[trigger] closer_offset(
        branches,
        i,
    ) < code.len() && code[1 + closer_offset(branches, i)] == PreInstructionView::Jmp(join) by {
        lemma_branches_size_take(branches, i);
    }
    assert forall|i: int, j: int| 0 <= i < j < branches.len() implies #[trigger] closer_offset(
        branches,
        i,
    ) < #[trigger] closer_offset(branches, j) by {
        lemma_closers_ascend(branches, i, j);
    }
    assert forall|p: int|
        0 <= p < code.len() && #[trigger] code[p] == PreInstructionView::Jmp(
            join,
        ) implies exists|i: int|
        0 <= i < branches.len() && p == 1 + #[trigger] closer_offset(branches, i) by {
        let i = choose|i: int| 0 <= i < branches.len() && p - 1 == closer_offset(branches, i);
    }
}

proof fn lemma_closers_ascend(branches: Seq<(Seq<char>, Seq<AstView>)>, i: int, j: int)
    requires
        0 <= i < j < branches.len(),
    ensures
        closer_offset(branches, i) < closer_offset(branches, j),
    decreases j - i,
{
    lemma_branches_size_take(branches, j);
    if i + 1 < j {
        lemma_closers_ascend(branches, i, j - 1);
    }
}

} // verus!
